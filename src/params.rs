use vstd::prelude::*;
use vstd::string::StringSliceAdditionalSpecFns;
use vstd::utf8::encode_utf8;

verus! {

/// Why an experiment cannot be run.
#[derive(Debug, Clone, Copy, PartialEq, Eq, Structural)]
pub enum MontyError {
    /// The command line held neither zero nor three parameters.
    ArgumentCountError,
    /// A parameter is not a non-negative integer that fits in `usize`.
    ArgumentParseError,
    /// `n_leftclose < 2`, or fewer than `n_leftclose + 1` doors.
    InvalidParameter,
}

/// The host must leave at least two doors closed, and must have at least one
/// losing door to open.
pub open spec fn valid_params(n_door: usize, n_leftclose: usize) -> bool {
    n_leftclose >= 2 && n_door >= n_leftclose + 1
}

/// Checks the game's parameters before any trial is run.
pub fn check_params(n_door: usize, n_leftclose: usize) -> (r: Result<(), MontyError>)
    ensures
        r is Ok <==> valid_params(n_door, n_leftclose),
        r is Err ==> r == Err::<(), MontyError>(MontyError::InvalidParameter),
{
    if n_leftclose < 2 || n_door <= n_leftclose {
        Err(MontyError::InvalidParameter)
    } else {
        Ok(())
    }
}

/// An ASCII decimal digit.
pub open spec fn is_digit(b: u8) -> bool {
    48 <= b <= 57
}

/// The number that a string of decimal digits writes.
pub open spec fn decimal_value(d: Seq<u8>) -> nat
    decreases d.len(),
{
    if d.len() == 0 {
        0
    } else {
        decimal_value(d.drop_last()) * 10 + (d.last() - 48) as nat
    }
}

/// The digits of a count's text: the text without one leading `+`.
pub open spec fn count_digits(b: Seq<u8>) -> Seq<u8> {
    if b.len() > 0 && b[0] == 43 {
        b.subrange(1, b.len() as int)
    } else {
        b
    }
}

/// The count that the text `b` writes: an optional `+` and one or more
/// decimal digits, of a value that fits in `usize`.
pub open spec fn count_value(b: Seq<u8>) -> Option<usize> {
    let d = count_digits(b);
    if d.len() > 0 && (forall|i: int| 0 <= i < d.len() ==> is_digit(#[trigger] d[i]))
        && decimal_value(d) <= usize::MAX {
        Some(decimal_value(d) as usize)
    } else {
        None
    }
}

/// A longer run of digits writes no smaller a number than its prefix.
proof fn lemma_prefix_value_le(d: Seq<u8>, j: int)
    requires
        0 <= j <= d.len(),
        forall|i: int| 0 <= i < d.len() ==> is_digit(#[trigger] d[i]),
    ensures
        decimal_value(d.subrange(0, j)) <= decimal_value(d),
    decreases d.len(),
{
    if j < d.len() {
        let p = d.drop_last();
        assert forall|i: int| 0 <= i < p.len() implies is_digit(#[trigger] p[i]) by {
            assert(p[i] == d[i]);
        }
        lemma_prefix_value_le(p, j);
        assert(p.subrange(0, j) =~= d.subrange(0, j));
    } else {
        assert(d.subrange(0, j) =~= d);
    }
}

/// Reads a non-negative count written in decimal, with an optional leading
/// `+`; `None` for any other text or a value beyond `usize`.
pub fn parse_count(s: &str) -> (r: Option<usize>)
    ensures
        r == count_value(s.spec_bytes()),
{
    let bytes = s.as_bytes();
    let len = bytes.len();
    let start: usize = if len > 0 && bytes[0] == 43u8 { 1 } else { 0 };
    let ghost d = count_digits(bytes@);
    proof {
        assert(d =~= bytes@.subrange(start as int, len as int));
    }
    if start == len {
        return None;
    }
    let mut acc: usize = 0;
    let mut i: usize = start;
    while i < len
        invariant
            start <= i <= len,
            len == bytes@.len(),
            d == bytes@.subrange(start as int, len as int),
            d == count_digits(s.spec_bytes()),
            bytes@ == s.spec_bytes(),
            forall|k: int| 0 <= k < i - start ==> is_digit(#[trigger] d[k]),
            acc == decimal_value(d.subrange(0, i - start)),
        decreases len - i,
    {
        let b = bytes[i];
        if b < 48u8 || b > 57u8 {
            assert(d[i - start] == b);
            return None;
        }
        let digit = (b - 48u8) as usize;
        let ghost next = d.subrange(0, i + 1 - start);
        proof {
            assert(next.drop_last() =~= d.subrange(0, i - start));
            assert(next.last() == b);
        }
        let r = match acc.checked_mul(10) {
            None => None,
            Some(m) => m.checked_add(digit),
        };
        match r {
            None => {
                proof {
                    if forall|k: int| 0 <= k < d.len() ==> is_digit(#[trigger] d[k]) {
                        lemma_prefix_value_le(d, i + 1 - start);
                    }
                }
                return None;
            },
            Some(v) => {
                acc = v;
            },
        }
        i = i + 1;
    }
    assert(d.subrange(0, i - start) =~= d);
    Some(acc)
}

/// Reads the command line's parameters `(n_door, n_leftclose, n_trial)`
/// (the program's name left out): none gives `(3, 2, 1000)`, three give
/// their values, any other number is refused.
pub fn parse_args(args: &Vec<String>) -> (r: Result<(usize, usize, usize), MontyError>)
    ensures
        args@.len() == 0 ==> r == Ok::<(usize, usize, usize), MontyError>((3, 2, 1000)),
        args@.len() != 0 && args@.len() != 3 ==> r == Err::<(usize, usize, usize), MontyError>(
            MontyError::ArgumentCountError,
        ),
        args@.len() == 3 ==> r == match (
            count_value(encode_utf8(args@[0]@)),
            count_value(encode_utf8(args@[1]@)),
            count_value(encode_utf8(args@[2]@)),
        ) {
            (Some(a), Some(b), Some(c)) => Ok::<(usize, usize, usize), MontyError>((a, b, c)),
            _ => Err(MontyError::ArgumentParseError),
        },
{
    if args.len() == 0 {
        return Ok((3, 2, 1000));
    }
    if args.len() != 3 {
        return Err(MontyError::ArgumentCountError);
    }
    let a = parse_count(args[0].as_str());
    let b = parse_count(args[1].as_str());
    let c = parse_count(args[2].as_str());
    match (a, b, c) {
        (Some(a), Some(b), Some(c)) => Ok((a, b, c)),
        _ => Err(MontyError::ArgumentParseError),
    }
}

} // verus!
