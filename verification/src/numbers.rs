//! Decimal validation of the numeric command-line values: key lengths
//! and the write-buffer size must parse as a `usize`.

use vstd::prelude::*;
use vstd::string::{StrSliceExecFns, StringExecFns};

verus! {

/// Whether `c` is an ASCII decimal digit.
pub open spec fn is_digit(c: char) -> bool {
    48 <= c as int && c as int <= 57
}

/// The numeric value of the ASCII digit `c`.
pub open spec fn digit_val(c: char) -> nat {
    (c as int - 48) as nat
}

/// The number denoted by a sequence of decimal digits, most significant
/// digit first.
pub open spec fn digits_val(s: Seq<char>) -> nat
    decreases s.len(),
{
    if s.len() == 0 {
        0
    } else {
        digits_val(s.drop_last()) * 10 + digit_val(s.last())
    }
}

/// Whether every character of `s` is an ASCII decimal digit.
pub open spec fn all_digits(s: Seq<char>) -> bool {
    forall|i: int| 0 <= i < s.len() ==> is_digit(s[i])
}

/// The digit portion of a decimal string: an optional leading `+` is
/// dropped, everything else is kept.
pub open spec fn digits_of(s: Seq<char>) -> Seq<char> {
    if s.len() > 0 && s[0] == '+' {
        s.subrange(1, s.len() as int)
    } else {
        s
    }
}

/// Whether `s` denotes a `usize`: an optional leading `+`, then at
/// least one decimal digit, with a value that fits in `usize`.
pub open spec fn is_usize_string(s: Seq<char>) -> bool {
    let d = digits_of(s);
    d.len() > 0 && all_digits(d) && digits_val(d) <= usize::MAX
}

/// A digit prefix never denotes more than the whole digit string.
proof fn lemma_digits_prefix_le(s: Seq<char>, j: int)
    requires
        0 <= j <= s.len(),
    ensures
        digits_val(s.take(j)) <= digits_val(s),
    decreases s.len(),
{
    if j == s.len() {
        assert(s.take(j) =~= s);
    } else {
        lemma_digits_prefix_le(s.drop_last(), j);
        assert(s.drop_last().take(j) =~= s.take(j));
        assert(digits_val(s.drop_last()) * 10 >= digits_val(s.drop_last())) by (nonlinear_arith);
    }
}

/// Parses a decimal `usize` from `s`: an optional leading `+`, then at
/// least one digit. Returns `None` on an empty digit part, on any
/// non-digit character, and on a value that does not fit in `usize`.
pub fn parse_usize(s: &str) -> (r: Option<usize>)
    ensures
        r is Some <==> is_usize_string(s@),
        r matches Some(v) ==> v == digits_val(digits_of(s@)),
{
    let n = s.unicode_len();
    let start: usize = if n > 0 && s.get_char(0) == '+' {
        1
    } else {
        0
    };
    let ghost d = digits_of(s@);
    proof {
        assert(d =~= s@.subrange(start as int, n as int));
    }
    if n == start {
        return None;
    }
    let mut acc: usize = 0;
    let mut i: usize = start;
    while i < n
        invariant
            start <= i <= n,
            n == s@.len(),
            start <= n,
            d == digits_of(s@),
            d =~= s@.subrange(start as int, n as int),
            acc == digits_val(d.take(i - start)),
            all_digits(d.take(i - start)),
        decreases n - i,
    {
        let c = s.get_char(i);
        let u = c as u32;
        if u < 48 || u > 57 {
            proof {
                assert(!is_digit(d[i - start]));
            }
            return None;
        }
        let dv = (u - 48) as usize;
        proof {
            assert(d.take(i - start + 1).drop_last() =~= d.take(i - start));
            assert(d.take(i - start + 1).last() == d[i - start]);
            assert(digits_val(d.take(i - start + 1)) == acc * 10 + dv);
        }
        let step = match acc.checked_mul(10) {
            Some(x) => x.checked_add(dv),
            None => None,
        };
        match step {
            Some(y) => {
                acc = y;
            },
            None => {
                proof {
                    lemma_digits_prefix_le(d, i - start + 1);
                }
                return None;
            },
        }
        i += 1;
    }
    proof {
        assert(d.take(n - start) =~= d);
    }
    Some(acc)
}

/// Checks that `value` holds a decimal `usize`; on failure the error
/// carries a message naming the offending value.
pub fn validate_usize(value: String) -> (r: Result<(), String>)
    ensures
        r is Ok <==> is_usize_string(value@),
        r matches Err(m) ==> m@ == "Value have to be a number, not \""@ + value@ + "\"."@,
{
    match parse_usize(value.as_str()) {
        Some(_) => Ok(()),
        None => {
            let mut m = "Value have to be a number, not \"".to_owned();
            m.append(value.as_str());
            m.append("\".");
            Err(m)
        },
    }
}

} // verus!
