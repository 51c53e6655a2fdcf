//! Decimal integer parsing for descriptor attribute values, with an exact
//! specification: an optional sign, at least one digit, all digits, and a
//! value within `i32` range.
use vstd::prelude::*;

verus! {

pub open spec fn is_digit(c: char) -> bool {
    '0' <= c && c <= '9'
}

pub open spec fn digit_val(c: char) -> int {
    c as u32 - 48
}

pub open spec fn all_digits(s: Seq<char>) -> bool {
    forall|i: int| 0 <= i < s.len() ==> is_digit(#[trigger] s[i])
}

/// Value of a digit string, most significant digit first.
pub open spec fn digits_val(s: Seq<char>) -> int
    decreases s.len(),
{
    if s.len() == 0 {
        0
    } else {
        digits_val(s.drop_last()) * 10 + digit_val(s.last())
    }
}

/// The digit part of an integer string: everything after a leading sign.
pub open spec fn int_body(s: Seq<char>) -> Seq<char> {
    if s.len() > 0 && (s[0] == '-' || s[0] == '+') {
        s.subrange(1, s.len() as int)
    } else {
        s
    }
}

pub open spec fn int_negative(s: Seq<char>) -> bool {
    s.len() > 0 && s[0] == '-'
}

/// What `i32` parsing accepts and returns: `[+-]?[0-9]+` within range.
pub open spec fn spec_parse_i32(s: Seq<char>) -> Option<int> {
    let body = int_body(s);
    if body.len() > 0 && all_digits(body) {
        let v = if int_negative(s) {
            -digits_val(body)
        } else {
            digits_val(body)
        };
        if i32::MIN <= v <= i32::MAX {
            Some(v)
        } else {
            None
        }
    } else {
        None
    }
}

pub proof fn lemma_digits_val_nonneg(s: Seq<char>)
    requires
        all_digits(s),
    ensures
        digits_val(s) >= 0,
    decreases s.len(),
{
    if s.len() > 0 {
        assert(all_digits(s.drop_last()));
        lemma_digits_val_nonneg(s.drop_last());
        assert(is_digit(s.last()));
    }
}

/// A digit string is worth at least any of its prefixes.
pub proof fn lemma_digits_val_prefix_le(s: Seq<char>, k: int)
    requires
        all_digits(s),
        0 <= k <= s.len(),
    ensures
        digits_val(s.take(k)) <= digits_val(s),
    decreases s.len() - k,
{
    if k < s.len() {
        lemma_digits_val_prefix_le(s, k + 1);
        assert(s.take(k + 1).drop_last() =~= s.take(k));
        assert(s.take(k + 1).last() == s[k]);
        assert(all_digits(s.take(k)));
        lemma_digits_val_nonneg(s.take(k));
        assert(is_digit(s[k]));
        assert(digits_val(s.take(k + 1)) == digits_val(s.take(k)) * 10 + digit_val(s[k]));
    } else {
        assert(s.take(k) =~= s);
    }
}

/// Parses a decimal `i32` exactly as `spec_parse_i32` describes; `None` on a
/// malformed or out-of-range value.
pub fn parse_i32(s: &String) -> (r: Option<i32>)
    ensures
        match r {
            Some(v) => spec_parse_i32(s@) == Some(v as int),
            None => spec_parse_i32(s@) is None,
        },
{
    let st = s.as_str();
    let n = st.unicode_len();
    if n == 0 {
        return None;
    }
    let c0 = st.get_char(0);
    let neg = c0 == '-';
    let mut i: usize = 0;
    if c0 == '-' || c0 == '+' {
        i = 1;
    }
    if i == n {
        // A bare sign has an empty digit part.
        return None;
    }
    let ghost body = int_body(s@);
    proof {
        assert(body =~= s@.subrange(i as int, n as int));
    }
    let start = i;
    let mut acc: i64 = 0;
    let mut j = start;
    while j < n
        invariant
            st@ == s@,
            start <= j <= n,
            n == s@.len(),
            1 <= n,
            start == (if s@[0] == '-' || s@[0] == '+' {
                1int
            } else {
                0int
            }),
            start < n,
            neg == int_negative(s@),
            body == int_body(s@),
            body =~= s@.subrange(start as int, n as int),
            all_digits(body.take(j - start)),
            acc == digits_val(body.take(j - start)),
            0 <= acc <= 0x8000_0000,
        decreases n - j,
    {
        let c = st.get_char(j);
        let d = c as u32;
        if d < 48 || d > 57 {
            proof {
                assert(body[j - start] == s@[j as int]);
                assert(!is_digit(s@[j as int]));
                assert(!all_digits(body));
            }
            return None;
        }
        proof {
            assert(body.take(j + 1 - start).drop_last() =~= body.take(j - start));
            assert(body.take(j + 1 - start).last() == body[j - start]);
            assert(body[j - start] == s@[j as int]);
        }
        acc = acc * 10 + ((d - 48) as i64);
        j = j + 1;
        if acc > 0x8000_0000 {
            // Any completion of these digits is out of `i32` range.
            proof {
                if all_digits(body) {
                    lemma_digits_val_prefix_le(body, j - start);
                }
            }
            return None;
        }
    }
    proof {
        assert(body.take(n - start) =~= body);
    }
    if neg {
        let v: i64 = -acc;
        Some(v as i32)
    } else {
        if acc > 0x7fff_ffff {
            return None;
        }
        Some(acc as i32)
    }
}

} // verus!
