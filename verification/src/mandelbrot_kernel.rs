//! The escape-time count of an orbit.
//!
//! The points of an orbit are numbers of the complex plane, which this
//! module does not look into: it takes the step from one point to the next
//! and the test for a point that has left, and counts.

use vstd::prelude::*;

verus! {

/// Whether `orbit` starts at `start` and each of its points comes from the
/// one before it by `step`.
pub open spec fn follows<Z, S: Fn(Z) -> Z>(orbit: Seq<Z>, start: Z, step: S) -> bool {
    &&& orbit.len() >= 1
    &&& orbit[0] == start
    &&& forall|i: int| 1 <= i < orbit.len() ==> call_ensures(step, (orbit[i - 1],), #[trigger] orbit[i])
}

/// Whether `iterations` is the escape time of `orbit`: no point before that
/// step has left, and where the count is below the limit, the point of that
/// step has.  The limit itself stands for an orbit that did not leave in
/// time.
pub open spec fn escapes_at<Z, E: Fn(Z) -> bool>(
    orbit: Seq<Z>,
    escaped: E,
    iterations: u16,
    max_iterations: u16,
) -> bool {
    &&& orbit.len() == iterations + 1
    &&& forall|i: int| 1 <= i < iterations ==> call_ensures(escaped, (#[trigger] orbit[i],), false)
    &&& iterations < max_iterations ==> call_ensures(escaped, (orbit[iterations as int],), true)
}

/// Follows the orbit from `start` for at most `max_iterations` steps and
/// returns the number of the first step, counted from one, whose point has
/// left; `max_iterations` where none has.
pub fn escape_time<Z: Copy, S: Fn(Z) -> Z, E: Fn(Z) -> bool>(
    start: Z,
    step: &S,
    escaped: &E,
    max_iterations: u16,
) -> (iterations: u16)
    requires
        forall|z: Z| call_requires(*step, (z,)),
        forall|z: Z| call_requires(*escaped, (z,)),
    ensures
        iterations <= max_iterations,
        max_iterations >= 1 ==> iterations >= 1,
        exists|orbit: Seq<Z>|
            #[trigger] follows(orbit, start, *step) && escapes_at(
                orbit,
                *escaped,
                iterations,
                max_iterations,
            ),
{
    let mut z = start;
    let mut n: u16 = 0;
    let ghost mut orbit: Seq<Z> = seq![start];
    while n < max_iterations
        invariant
            n <= max_iterations,
            forall|z: Z| call_requires(*step, (z,)),
            forall|z: Z| call_requires(*escaped, (z,)),
            follows(orbit, start, *step),
            orbit.len() == n + 1,
            orbit[n as int] == z,
            forall|i: int| 1 <= i <= n ==> call_ensures(*escaped, (#[trigger] orbit[i],), false),
        decreases max_iterations - n,
    {
        let next = step(z);
        proof {
            orbit = orbit.push(next);
        }
        z = next;
        n = n + 1;
        if escaped(z) {
            assert(follows(orbit, start, *step) && escapes_at(
                orbit,
                *escaped,
                n,
                max_iterations,
            ));
            return n;
        }
    }
    assert(follows(orbit, start, *step) && escapes_at(orbit, *escaped, n, max_iterations));
    n
}

/// A start that the step leaves where it is, and that has not left, never
/// escapes: the count of its orbit is the limit, whatever the limit.
pub proof fn lemma_fixed_point_never_escapes<Z, S: Fn(Z) -> Z, E: Fn(Z) -> bool>(
    orbit: Seq<Z>,
    start: Z,
    step: S,
    escaped: E,
    iterations: u16,
    max_iterations: u16,
)
    requires
        follows(orbit, start, step),
        escapes_at(orbit, escaped, iterations, max_iterations),
        iterations <= max_iterations,
        forall|next: Z| call_ensures(step, (start,), next) ==> next == start,
        !call_ensures(escaped, (start,), true),
    ensures
        iterations == max_iterations,
{
    lemma_orbit_rests(orbit, start, step, iterations as int);
}

/// Where the step leaves the start where it is, every point of the orbit is
/// the start.
proof fn lemma_orbit_rests<Z, S: Fn(Z) -> Z>(orbit: Seq<Z>, start: Z, step: S, i: int)
    requires
        follows(orbit, start, step),
        0 <= i < orbit.len(),
        forall|next: Z| call_ensures(step, (start,), next) ==> next == start,
    ensures
        orbit[i] == start,
    decreases i,
{
    if i > 0 {
        lemma_orbit_rests(orbit, start, step, i - 1);
        assert(call_ensures(step, (orbit[i - 1],), orbit[i]));
    }
}

/// A start whose first step has left escapes at once: the count of its
/// orbit is one, whatever the limit.
pub proof fn lemma_first_step_escapes<Z, S: Fn(Z) -> Z, E: Fn(Z) -> bool>(
    orbit: Seq<Z>,
    start: Z,
    step: S,
    escaped: E,
    iterations: u16,
    max_iterations: u16,
)
    requires
        follows(orbit, start, step),
        escapes_at(orbit, escaped, iterations, max_iterations),
        1 <= iterations <= max_iterations,
        forall|next: Z| call_ensures(step, (start,), next) ==> !call_ensures(escaped, (next,), false),
    ensures
        iterations == 1,
{
    if iterations >= 2 {
        assert(call_ensures(step, (orbit[0],), orbit[1]));
        assert(call_ensures(escaped, (orbit[1],), false));
    }
}

} // verus!
