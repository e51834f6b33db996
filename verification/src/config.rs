//! What is settled before a render begins: the number of workers, as it is
//! read from the command line and as an automatic choice resolves it, and
//! the resolution of the image.

use vstd::prelude::*;
use vstd::string::*;

verus! {

/// Whether `c` is one of the digits `0` to `9`.
pub open spec fn is_digit(c: char) -> bool {
    '0' <= c <= '9'
}

/// The number that a run of digits stands for in base ten.
pub open spec fn decimal(digits: Seq<char>) -> nat
    decreases digits.len(),
{
    if digits.len() == 0 {
        0
    } else {
        (10 * decimal(digits.drop_last()) + (digits.last() as int - '0' as int)) as nat
    }
}

/// The text without the plus sign that may stand in front of a number.
pub open spec fn unsigned_part(text: Seq<char>) -> Seq<char> {
    if text.len() > 0 && text[0] == '+' {
        text.subrange(1, text.len() as int)
    } else {
        text
    }
}

/// Whether the text is a number without a sign, or with a plus sign: one
/// digit or more, and nothing else before, between or after them.
pub open spec fn is_number(text: Seq<char>) -> bool {
    let digits = unsigned_part(text);
    digits.len() > 0 && forall|i: int| 0 <= i < digits.len() ==> is_digit(#[trigger] digits[i])
}

/// The number of workers that the text asks for, where it is a number that
/// the machine can hold.
pub open spec fn requested_threads(text: Seq<char>) -> Option<usize> {
    if is_number(text) && decimal(unsigned_part(text)) <= usize::MAX {
        Some(decimal(unsigned_part(text)) as usize)
    } else {
        None
    }
}

/// What is said of a text that is no such number.
pub open spec fn rejection(text: Seq<char>) -> Seq<char> {
    "`"@ + text + "` isn't a unsigned number"@
}

/// `format!` with three texts one after the other: the result holds the
/// characters of the first, then those of the second, then those of the
/// third.
#[verifier::external_body]
fn joined(first: &str, second: &str, third: &str) -> (text: String)
    ensures
        text@ == first@ + second@ + third@,
{
    format!("{first}{second}{third}")
}

/// A run of digits stands for at least as much as any of its beginnings.
proof fn lemma_decimal_grows(digits: Seq<char>, upto: int)
    requires
        0 <= upto <= digits.len(),
        forall|i: int| 0 <= i < digits.len() ==> is_digit(#[trigger] digits[i]),
    ensures
        decimal(digits.subrange(0, upto)) <= decimal(digits),
    decreases digits.len() - upto,
{
    if upto < digits.len() {
        let longer = digits.subrange(0, upto + 1);
        assert(longer.drop_last() == digits.subrange(0, upto));
        assert(is_digit(digits[upto]));
        lemma_decimal_grows(digits, upto + 1);
    } else {
        assert(digits.subrange(0, upto) == digits);
    }
}

/// Reads the number of workers from a command-line argument.
///
/// The argument is a number in base ten, with or without a plus sign in
/// front, that fits the machine's word.  Anything else is turned down with
/// a message that quotes the argument.
pub fn threads_parser(s: &str) -> (parsed: Result<usize, String>)
    ensures
        match parsed {
            Ok(threads) => requested_threads(s@) == Some(threads),
            Err(message) => requested_threads(s@) is None && message@ == rejection(s@),
        },
{
    broadcast use is_ascii_spec_bytes;

    if !s.is_ascii() {
        proof {
            if is_number(s@) {
                let odd = choose|i: int| 0 <= i < s@.len() && !('\0' <= #[trigger] s@[i] <= '\u{7f}');
                let digits = unsigned_part(s@);
                if s@[0] == '+' {
                    if odd > 0 {
                        assert(is_digit(digits[odd - 1]));
                    }
                } else {
                    assert(is_digit(digits[odd]));
                }
            }
        }
        return Err(joined("`", s, "` isn't a unsigned number"));
    }
    let bytes = s.as_bytes();
    let len = bytes.len();
    assert(len == s@.len());
    assert(forall|i: int| 0 <= i < len ==> bytes[i] == #[trigger] s@[i] as u8);
    let start: usize = if len > 0 && bytes[0] == 43u8 {
        1
    } else {
        0
    };
    let ghost digits = unsigned_part(s@);
    assert(forall|i: int| 0 <= i < digits.len() ==> #[trigger] digits[i] == s@[start + i]);
    if start == len {
        return Err(joined("`", s, "` isn't a unsigned number"));
    }
    let mut value: usize = 0;
    let mut at: usize = start;
    assert(digits.subrange(0, 0).len() == 0);
    while at < len
        invariant
            start <= at <= len,
            len == s@.len(),
            len == bytes@.len(),
            digits == unsigned_part(s@),
            digits.len() == len - start,
            s.is_ascii(),
            forall|i: int| 0 <= i < len ==> bytes[i] == #[trigger] s@[i] as u8,
            forall|i: int| 0 <= i < digits.len() ==> #[trigger] digits[i] == s@[start + i],
            forall|i: int| 0 <= i < at - start ==> is_digit(#[trigger] digits[i]),
            value == decimal(digits.subrange(0, at - start)),
        decreases len - at,
    {
        let byte = bytes[at];
        let ghost c = s@[at as int];
        assert(c == digits[at - start]);
        assert('\0' <= c <= '\u{7f}');
        if byte < 48u8 || byte > 57u8 {
            assert(!is_digit(c));
            return Err(joined("`", s, "` isn't a unsigned number"));
        }
        let digit: usize = (byte - 48u8) as usize;
        let ghost longer = digits.subrange(0, at - start + 1);
        assert(longer.drop_last() == digits.subrange(0, at - start));
        assert(longer.last() == c);
        assert(decimal(longer) == 10 * value + digit);
        if value > (usize::MAX - digit) / 10 {
            proof {
                if is_number(s@) {
                    lemma_decimal_grows(digits, at - start + 1);
                }
            }
            return Err(joined("`", s, "` isn't a unsigned number"));
        }
        value = value * 10 + digit;
        at = at + 1;
    }
    assert(digits.subrange(0, at - start) == digits);
    Ok(value)
}

/// The number of workers for an automatic choice: as many as the machine
/// can run side by side, where that is known, and one where it is not.
pub fn get_auto_threads(available: Option<usize>) -> (threads: usize)
    ensures
        threads == match available {
            Some(n) if n >= 1 => n,
            _ => 1,
        },
        threads >= 1,
{
    match available {
        Some(n) => if n >= 1 {
            n
        } else {
            1
        },
        None => 1,
    }
}

/// The number of workers of a render: the number asked for, and the
/// automatic choice where nought was asked for.
pub fn resolve_threads(requested: usize, available: Option<usize>) -> (threads: usize)
    ensures
        threads >= 1,
        requested >= 1 ==> threads == requested,
        requested == 0 ==> threads == match available {
            Some(n) if n >= 1 => n,
            _ => 1,
        },
{
    if requested == 0 {
        get_auto_threads(available)
    } else {
        requested
    }
}

/// Why a render cannot begin.
#[derive(Copy, Clone, Debug, PartialEq, Eq, Structural)]
pub enum ConfigError {
    /// The image has no pixel.
    EmptyImage,
    /// The samples of the image, three to a pixel, do not fit in one vector.
    ImageTooLarge,
}

impl ConfigError {
    /// The error in words.
    pub fn message(&self) -> (text: String)
        ensures
            text@ == match *self {
                ConfigError::EmptyImage => "the resolution must be at least 1"@,
                ConfigError::ImageTooLarge => "the resolution is too large for this machine"@,
            },
    {
        match self {
            ConfigError::EmptyImage => "the resolution must be at least 1".to_owned(),
            ConfigError::ImageTooLarge => "the resolution is too large for this machine".to_owned(),
        }
    }
}

/// Whether a square image of `res` pixels a side can be rendered: it has a
/// pixel, and its samples fit in memory.
pub open spec fn renderable(res: u32) -> bool {
    res >= 1 && 3 * res * res <= isize::MAX
}

/// Tests the resolution before anything is computed.
pub fn validate_resolution(res: u32) -> (checked: Result<(), ConfigError>)
    ensures
        match checked {
            Ok(_) => renderable(res),
            Err(ConfigError::EmptyImage) => res == 0,
            Err(ConfigError::ImageTooLarge) => res >= 1 && 3 * res * res > isize::MAX,
        },
{
    if res == 0 {
        return Err(ConfigError::EmptyImage);
    }
    assert(res * res <= 0xffff_ffff * 0xffff_ffff) by (nonlinear_arith)
        requires
            0 <= res <= 0xffff_ffff,
    ;
    assert(3 * res * res == 3 * (res * res)) by (nonlinear_arith);
    let samples: u128 = 3 * (res as u128 * res as u128);
    if samples > isize::MAX as u128 {
        Err(ConfigError::ImageTooLarge)
    } else {
        Ok(())
    }
}

} // verus!
