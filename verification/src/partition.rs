//! The split of an image's columns among workers.
//!
//! The split is striped: of `threads` workers, worker `index` takes the
//! columns `index`, `index + threads`, `index + 2 * threads` and so on, as
//! far as the image reaches.  No width has to be a multiple of the number of
//! workers: every column has exactly one worker.

use vstd::multiset::Multiset;
use vstd::prelude::*;

verus! {

/// The number of columns that worker `index` takes.
pub open spec fn share(index: int, threads: int, width: int) -> nat {
    if index < width {
        ((width - index + threads - 1) / threads) as nat
    } else {
        0
    }
}

/// The columns that worker `index` takes, in the order in which it works
/// through them.
pub open spec fn striped(index: int, threads: int, width: int) -> Seq<int> {
    Seq::new(share(index, threads, width), |k: int| index + k * threads)
}

/// The columns of the workers `0` to `workers - 1` taken together, each as
/// often as it was handed out.
pub open spec fn assigned(workers: nat, threads: int, width: int) -> Multiset<int>
    decreases workers,
{
    if workers == 0 {
        Multiset::empty()
    } else {
        assigned((workers - 1) as nat, threads, width).add(
            striped(workers - 1, threads, width).to_multiset(),
        )
    }
}

/// The columns of an image of the given width, each once.
pub open spec fn all_columns(width: nat) -> Seq<int> {
    Seq::new(width, |c: int| c)
}

/// A worker's share is what fits: its last column lies inside the image
/// and the one after it does not.
proof fn lemma_share(index: int, threads: int, width: int, count: int)
    requires
        threads >= 1,
        0 <= index,
        0 <= count,
        count > 0 ==> index + (count - 1) * threads < width,
        index + count * threads >= width,
    ensures
        share(index, threads, width) == count,
{
    if count == 0 {
        assert(0 * threads == 0);
    } else {
        assert(index < width) by (nonlinear_arith)
            requires
                index + (count - 1) * threads < width,
                count >= 1,
                threads >= 1,
        ;
        let rest = width - index - 1 - (count - 1) * threads;
        assert(width - index + threads - 1 == count * threads + rest) by (nonlinear_arith)
            requires
                rest == width - index - 1 - (count - 1) * threads,
        ;
        vstd::arithmetic::div_mod::lemma_fundamental_div_mod_converse(
            width - index + threads - 1,
            threads,
            count,
            rest,
        );
    }
}

/// The columns of a worker below `threads` are those of the image that
/// leave the remainder `index` when divided by `threads`, each once.
pub proof fn lemma_striped_columns(index: int, threads: int, width: int)
    requires
        0 <= index < threads,
        0 <= width,
    ensures
        striped(index, threads, width).no_duplicates(),
        forall|c: int|
            striped(index, threads, width).contains(c) <==> 0 <= c < width && c % threads == index,
{
    let s = striped(index, threads, width);
    let count = share(index, threads, width) as int;
    if index < width {
        let total = width - index + threads - 1;
        vstd::arithmetic::div_mod::lemma_fundamental_div_mod(total, threads);
        vstd::arithmetic::div_mod::lemma_mod_pos_bound(total, threads);
        vstd::arithmetic::div_mod::lemma_div_pos_is_pos(total, threads);
        assert(threads * count == count * threads) by (nonlinear_arith);
    }
    assert forall|k: int| 0 <= k < count implies 0 <= #[trigger] s[k] < width && s[k] % threads
        == index && s[k] / threads == k by {
        assert(0 <= k * threads <= (count - 1) * threads) by (nonlinear_arith)
            requires
                0 <= k <= count - 1,
                threads >= 1,
        ;
        assert((count - 1) * threads == count * threads - threads) by (nonlinear_arith);
        vstd::arithmetic::div_mod::lemma_fundamental_div_mod_converse(
            index + k * threads,
            threads,
            k,
            index,
        );
    }
    assert forall|c: int| 0 <= c < width && c % threads == index implies s.contains(c) by {
        let k = c / threads;
        vstd::arithmetic::div_mod::lemma_fundamental_div_mod(c, threads);
        vstd::arithmetic::div_mod::lemma_div_pos_is_pos(c, threads);
        assert(threads * k == k * threads) by (nonlinear_arith);
        assert(k < count) by (nonlinear_arith)
            requires
                index + k * threads < width,
                index < width ==> width - index + threads - 1 == count * threads + (width - index
                    + threads - 1) % threads,
                index < width ==> 0 <= (width - index + threads - 1) % threads < threads,
                0 <= k,
                0 <= index,
                threads >= 1,
        ;
        assert(s[k] == c);
    }
    assert forall|i: int, j: int| 0 <= i < s.len() && 0 <= j < s.len() && i != j implies s[i]
        != s[j] by {
        assert(s[i] / threads == i);
        assert(s[j] / threads == j);
    }
}

/// The columns that the first `workers` workers take together: each column
/// of the image whose remainder is below `workers` once, and no other.
proof fn lemma_assigned_count(workers: nat, threads: int, width: int, c: int)
    requires
        threads >= 1,
        workers <= threads,
        0 <= width,
    ensures
        assigned(workers, threads, width).count(c) == if 0 <= c < width && c % threads < workers {
            1nat
        } else {
            0nat
        },
    decreases workers,
{
    broadcast use vstd::multiset::group_multiset_axioms;

    if 0 <= c < width {
        vstd::arithmetic::div_mod::lemma_mod_pos_bound(c, threads);
    }
    if workers > 0 {
        let index = workers - 1;
        let s = striped(index, threads, width);
        let before = assigned((workers - 1) as nat, threads, width);
        lemma_assigned_count((workers - 1) as nat, threads, width, c);
        lemma_striped_columns(index, threads, width);
        s.lemma_multiset_has_no_duplicates();
        vstd::seq_lib::to_multiset_contains(s, c);
        assert(assigned(workers, threads, width).count(c) == before.count(c)
            + s.to_multiset().count(c));
        assert(s.to_multiset().count(c) == if s.contains(c) {
            1nat
        } else {
            0nat
        });
    }
}

/// Every column of the image is handed to exactly one worker: taken
/// together, the workers' columns are the columns `0` to `width - 1`, each
/// once, whatever the width and the number of workers.  So the workers
/// finish `width` columns between them.
pub proof fn lemma_partition_complete(threads: nat, width: nat)
    requires
        threads >= 1,
    ensures
        assigned(threads, threads as int, width as int) == all_columns(width).to_multiset(),
        assigned(threads, threads as int, width as int).len() == width,
{
    let all = all_columns(width);
    vstd::seq_lib::to_multiset_len(all);
    all.lemma_multiset_has_no_duplicates();
    assert forall|c: int|
        assigned(threads, threads as int, width as int).count(c) == all.to_multiset().count(
            c,
        ) by {
        lemma_assigned_count(threads, threads as int, width as int, c);
        vstd::seq_lib::to_multiset_contains(all, c);
        if 0 <= c < width {
            vstd::arithmetic::div_mod::lemma_mod_pos_bound(c, threads as int);
            assert(all[c] == c);
        }
    }
    assert(assigned(threads, threads as int, width as int) =~= all.to_multiset());
}

/// The worker that takes a column, and the place of the column among that
/// worker's columns.
pub proof fn lemma_column_owner(column: int, threads: int, width: int)
    requires
        threads >= 1,
        0 <= column < width,
    ensures
        0 <= column % threads < threads,
        0 <= column / threads < share(column % threads, threads, width),
        striped(column % threads, threads, width)[column / threads] == column,
        forall|index: int, k: int|
            0 <= index < threads && 0 <= k < share(index, threads, width) && #[trigger] striped(
                index,
                threads,
                width,
            )[k] == column ==> index == column % threads && k == column / threads,
{
    let owner = column % threads;
    let place = column / threads;
    vstd::arithmetic::div_mod::lemma_fundamental_div_mod(column, threads);
    vstd::arithmetic::div_mod::lemma_mod_pos_bound(column, threads);
    vstd::arithmetic::div_mod::lemma_div_pos_is_pos(column, threads);
    assert(threads * place == place * threads) by (nonlinear_arith);
    lemma_striped_columns(owner, threads, width);
    let s = striped(owner, threads, width);
    assert(s.contains(column));
    let at = choose|i: int| 0 <= i < s.len() && s[i] == column;
    vstd::arithmetic::div_mod::lemma_fundamental_div_mod_converse(column, threads, at, owner);
    assert forall|index: int, k: int|
        0 <= index < threads && 0 <= k < share(index, threads, width) && #[trigger] striped(
            index,
            threads,
            width,
        )[k] == column implies index == owner && k == place by {
        vstd::arithmetic::div_mod::lemma_fundamental_div_mod_converse(column, threads, k, index);
    }
}

/// The columns of worker `index` of `threads`, for an image of the given
/// width.  A worker whose index is not below the width has none.
pub fn worker_columns(index: usize, threads: usize, width: u32) -> (columns: Vec<u32>)
    requires
        threads >= 1,
    ensures
        columns.len() == share(index as int, threads as int, width as int),
        forall|k: int|
            0 <= k < columns.len() ==> #[trigger] columns[k] == striped(
                index as int,
                threads as int,
                width as int,
            )[k],
{
    let mut columns: Vec<u32> = Vec::new();
    let mut x: u128 = index as u128;
    assert(0 * threads == 0);
    while x < width as u128
        invariant
            threads >= 1,
            x == index + columns.len() * threads,
            columns.len() > 0 ==> index + (columns.len() - 1) * threads < width,
            forall|k: int| 0 <= k < columns.len() ==> #[trigger] columns[k] == index + k * threads,
        decreases width - x + threads,
    {
        let ghost count = columns.len() as int;
        columns.push(x as u32);
        assert((count + 1) * threads == count * threads + threads) by (nonlinear_arith);
        x = x + threads as u128;
    }
    proof {
        lemma_share(index as int, threads as int, width as int, columns.len() as int);
    }
    columns
}

} // verus!
