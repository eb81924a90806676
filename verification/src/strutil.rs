//! Character-level string helpers: equality, prefix and suffix tests, and an
//! overflow-checked decimal parser, each with an exact contract over the
//! string views.

use vstd::arithmetic::div_mod::{
    lemma_div_is_ordered, lemma_div_multiples_vanish, lemma_fundamental_div_mod,
};
use vstd::prelude::*;

verus! {

/// Whether two strings hold the same characters.
pub fn str_eq(a: &str, b: &str) -> (r: bool)
    ensures
        r == (a@ == b@),
{
    let al = a.unicode_len();
    let bl = b.unicode_len();
    if al != bl {
        return false;
    }
    let mut i: usize = 0;
    while i < al
        invariant
            0 <= i <= al,
            al == a@.len(),
            al == b@.len(),
            forall|k: int| 0 <= k < i ==> a@[k] == b@[k],
        decreases al - i,
    {
        if a.get_char(i) != b.get_char(i) {
            return false;
        }
        i = i + 1;
    }
    proof {
        assert(a@ =~= b@);
    }
    true
}

/// Whether `p` is a prefix of `s`.
pub fn str_has_prefix(s: &str, p: &str) -> (r: bool)
    ensures
        r == p@.is_prefix_of(s@),
{
    let sl = s.unicode_len();
    let pl = p.unicode_len();
    if pl > sl {
        return false;
    }
    let mut i: usize = 0;
    while i < pl
        invariant
            0 <= i <= pl <= sl,
            sl == s@.len(),
            pl == p@.len(),
            forall|k: int| 0 <= k < i ==> p@[k] == s@[k],
        decreases pl - i,
    {
        if s.get_char(i) != p.get_char(i) {
            proof {
                assert(!p@.is_prefix_of(s@)) by {
                    if p@.is_prefix_of(s@) {
                        assert(p@[i as int] == s@.subrange(0, p@.len() as int)[i as int]);
                    }
                }
            }
            return false;
        }
        i = i + 1;
    }
    proof {
        assert(p@ =~= s@.subrange(0, p@.len() as int));
    }
    true
}

/// Whether `p` is a suffix of `s`.
pub fn str_has_suffix(s: &str, p: &str) -> (r: bool)
    ensures
        r == p@.is_suffix_of(s@),
{
    let sl = s.unicode_len();
    let pl = p.unicode_len();
    if pl > sl {
        return false;
    }
    let off = sl - pl;
    let mut i: usize = 0;
    while i < pl
        invariant
            0 <= i <= pl <= sl,
            sl == s@.len(),
            pl == p@.len(),
            off == sl - pl,
            forall|k: int| 0 <= k < i ==> p@[k] == s@[off + k],
        decreases pl - i,
    {
        if s.get_char(off + i) != p.get_char(i) {
            proof {
                assert(!p@.is_suffix_of(s@)) by {
                    if p@.is_suffix_of(s@) {
                        assert(p@[i as int] == s@.subrange(
                            s@.len() - p@.len(),
                            s@.len() as int,
                        )[i as int]);
                    }
                }
            }
            return false;
        }
        i = i + 1;
    }
    proof {
        assert(p@ =~= s@.subrange(s@.len() - p@.len(), s@.len() as int));
    }
    true
}

/// Whether `c` is a decimal digit.
pub open spec fn spec_is_digit(c: char) -> bool {
    48 <= c as u32 <= 57
}

/// The value of a decimal digit.
pub open spec fn digit_val(c: char) -> nat
    recommends
        spec_is_digit(c),
{
    (c as u32 - 48) as nat
}

/// Whether a string holds decimal digits only.
pub open spec fn all_digits(s: Seq<char>) -> bool {
    forall|k: int| 0 <= k < s.len() ==> spec_is_digit(s[k])
}

/// The number that a string of decimal digits denotes.
pub open spec fn str_to_nat(s: Seq<char>) -> nat
    decreases s.len(),
{
    if s.len() == 0 {
        0
    } else {
        str_to_nat(s.drop_last()) * 10 + digit_val(s.last())
    }
}

/// A digit string's prefixes denote no more than the whole string.
pub proof fn lemma_str_to_nat_prefix_le(s: Seq<char>, k: int)
    requires
        0 <= k <= s.len(),
    ensures
        str_to_nat(s.take(k)) <= str_to_nat(s),
    decreases s.len() - k,
{
    if k == s.len() {
        assert(s.take(k) =~= s);
    } else {
        assert(s.take(k + 1).drop_last() =~= s.take(k));
        lemma_str_to_nat_prefix_le(s, k + 1);
    }
}

/// `v <= (cap - d) / 10` says exactly that appending the digit `d` to `v`
/// stays within `cap`.
pub proof fn lemma_append_digit_bound(v: nat, d: nat, cap: nat)
    requires
        d <= cap,
    ensures
        v <= (cap - d) / 10 <==> v * 10 + d <= cap,
{
    let q = (cap - d) / 10;
    lemma_fundamental_div_mod(cap - d, 10);
    if v <= q {
        assert(v * 10 + d <= cap);
    }
    if v * 10 + d <= cap {
        lemma_div_is_ordered(10 * v as int, cap - d, 10);
        lemma_div_multiples_vanish(v as int, 10);
    }
}

/// What `str::parse::<u64>` accepts of a plain decimal string: an optional
/// leading plus sign, then at least one digit, denoting a value that fits.
pub open spec fn spec_parse_u64(s: Seq<char>) -> Option<u64> {
    let digits = if s.len() > 0 && s[0] == '+' {
        s.drop_first()
    } else {
        s
    };
    if digits.len() == 0 || !all_digits(digits) {
        None
    } else if str_to_nat(digits) > u64::MAX {
        None
    } else {
        Some(str_to_nat(digits) as u64)
    }
}

/// Parses a decimal string into a `u64`, accepting exactly what
/// [`spec_parse_u64`] describes.
pub fn parse_u64(s: &str) -> (r: Option<u64>)
    ensures
        r == spec_parse_u64(s@),
{
    let len = s.unicode_len();
    let start: usize = if len > 0 && s.get_char(0) == '+' {
        1
    } else {
        0
    };
    let ghost digits = if start == 1 {
        s@.drop_first()
    } else {
        s@
    };
    proof {
        assert(digits.len() == len - start);
        assert(forall|k: int| 0 <= k < digits.len() ==> digits[k] == s@[k + start]);
    }
    if start >= len {
        return None;
    }
    let mut val: u64 = 0;
    let mut i: usize = start;
    while i < len
        invariant
            start <= i <= len,
            start <= 1,
            (start == 1) == (s@.len() > 0 && s@[0] == '+'),
            len == s@.len(),
            digits == (if start == 1 {
                s@.drop_first()
            } else {
                s@
            }),
            digits.len() == len - start,
            forall|k: int| 0 <= k < digits.len() ==> digits[k] == s@[k + start],
            all_digits(digits.take(i - start)),
            val == str_to_nat(digits.take(i - start)),
        decreases len - i,
    {
        let c = s.get_char(i);
        let u = c as u32;
        let ghost q = i - start;
        proof {
            assert(digits[q as int] == s@[i as int]);
        }
        if u < 48 || u > 57 {
            proof {
                assert(!spec_is_digit(digits[q as int]));
                assert(!all_digits(digits));
            }
            return None;
        }
        let d = (u - 48) as u64;
        proof {
            assert(digits.take(q + 1).drop_last() =~= digits.take(q as int));
            assert(digits.take(q + 1).last() == digits[q as int]);
        }
        if val > (u64::MAX - d) / 10 {
            proof {
                lemma_append_digit_bound(val as nat, d as nat, u64::MAX as nat);
                assert(str_to_nat(digits.take(q + 1)) > u64::MAX);
                lemma_str_to_nat_prefix_le(digits, q + 1);
            }
            return None;
        }
        proof {
            lemma_append_digit_bound(val as nat, d as nat, u64::MAX as nat);
        }
        val = val * 10 + d;
        i = i + 1;
    }
    proof {
        assert(digits.take(len - start) =~= digits);
    }
    Some(val)
}

} // verus!
