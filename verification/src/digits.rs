//! Decimal digit strings: the numeric value of a digit sequence, the decimal
//! rendering of a number, and verified parsing/formatting between them.
//! The index file stores vocabulary size, dimension and blob offsets this way.

use vstd::arithmetic::div_mod::lemma_fundamental_div_mod;
use vstd::prelude::*;
use vstd::slice::slice_index_get;

verus! {

/// `c` is an ASCII decimal digit.
pub open spec fn is_digit(c: u8) -> bool {
    48 <= c && c <= 57
}

/// Every byte of `s` is a decimal digit.
pub open spec fn all_digits(s: Seq<u8>) -> bool {
    forall|i: int| 0 <= i < s.len() ==> is_digit(#[trigger] s[i])
}

/// Numeric value of a digit string, most significant digit first.
pub open spec fn dec_val(s: Seq<u8>) -> nat
    decreases s.len(),
{
    if s.len() == 0 {
        0
    } else {
        dec_val(s.drop_last()) * 10 + (s.last() - 48) as nat
    }
}

/// Decimal rendering of `n`, without leading zeros.
pub open spec fn dec_str(n: nat) -> Seq<u8>
    decreases n,
{
    if n < 10 {
        seq![(48 + n) as u8]
    } else {
        dec_str(n / 10).push((48 + n % 10) as u8)
    }
}

/// What `parse_usize` returns: the value of a non-empty, all-digit string,
/// provided that value fits in `usize`.
pub open spec fn spec_parse_usize(s: Seq<u8>) -> Option<usize> {
    if s.len() > 0 && all_digits(s) && dec_val(s) <= usize::MAX {
        Some(dec_val(s) as usize)
    } else {
        None
    }
}

/// A decimal rendering is a non-empty digit string.
pub proof fn lemma_dec_str_digits(n: nat)
    ensures
        dec_str(n).len() >= 1,
        all_digits(dec_str(n)),
    decreases n,
{
    if n < 10 {
        assert(is_digit(dec_str(n)[0]));
    } else {
        lemma_dec_str_digits(n / 10);
        let prev = dec_str(n / 10);
        let s = dec_str(n);
        assert(s == prev.push((48 + n % 10) as u8));
        assert forall|i: int| 0 <= i < s.len() implies is_digit(#[trigger] s[i]) by {
            if i < prev.len() {
                assert(s[i] == prev[i]);
            } else {
                assert(s[i] == (48 + n % 10) as u8);
            }
        }
    }
}

/// Rendering then evaluating a number gives the number back.
pub proof fn lemma_dec_str_val(n: nat)
    ensures
        dec_val(dec_str(n)) == n,
    decreases n,
{
    if n < 10 {
        let s = dec_str(n);
        let c = (48 + n) as u8;
        assert(c == 48 + n);
        assert(s.drop_last() =~= Seq::<u8>::empty());
        assert(dec_val(Seq::<u8>::empty()) == 0);
        assert(s.last() == c);
        assert((c - 48) as nat == n);
    } else {
        lemma_dec_str_val(n / 10);
        let prev = dec_str(n / 10);
        let d = (48 + n % 10) as u8;
        let s = dec_str(n);
        assert(s == prev.push(d));
        assert(s.drop_last() =~= prev);
        assert(s.last() == d);
        lemma_fundamental_div_mod(n as int, 10);
    }
}

/// Parsing a rendered `usize` gives the value back.
pub proof fn lemma_parse_dec_str(n: usize)
    ensures
        spec_parse_usize(dec_str(n as nat)) == Some(n),
{
    lemma_dec_str_digits(n as nat);
    lemma_dec_str_val(n as nat);
}

/// The value of a prefix is at most the value of the whole string.
pub proof fn lemma_dec_val_prefix(s: Seq<u8>, j: int)
    requires
        0 <= j <= s.len(),
    ensures
        dec_val(s.take(j)) <= dec_val(s),
    decreases s.len() - j,
{
    if j == s.len() {
        assert(s.take(j) =~= s);
    } else {
        let t = s.take(j + 1);
        assert(t.drop_last() =~= s.take(j));
        assert(dec_val(t) == dec_val(s.take(j)) * 10 + (t.last() - 48) as nat);
        lemma_dec_val_prefix(s, j + 1);
    }
}

/// Parse a non-empty, all-digit byte string into a `usize`.
pub fn parse_usize(s: &[u8]) -> (r: Option<usize>)
    ensures
        r == spec_parse_usize(s@),
{
    let n = s.len();
    if n == 0 {
        return None;
    }
    let mut acc: usize = 0;
    let mut i: usize = 0;
    while i < n
        invariant
            n == s@.len(),
            0 < n,
            i <= n,
            all_digits(s@.take(i as int)),
            acc == dec_val(s@.take(i as int)),
        decreases n - i,
    {
        let c = *slice_index_get(s, i);
        if c < 48 || c > 57 {
            assert(!is_digit(s@[i as int]));
            return None;
        }
        let d = (c - 48) as usize;
        proof {
            assert(s@.take(i + 1).drop_last() =~= s@.take(i as int));
            assert(s@.take(i + 1).last() == s@[i as int]);
        }
        let wide = match acc.checked_mul(10) {
            Some(t) => t,
            None => {
                proof {
                    lemma_dec_val_prefix(s@, i + 1);
                }
                return None;
            },
        };
        acc = match wide.checked_add(d) {
            Some(t) => t,
            None => {
                proof {
                    lemma_dec_val_prefix(s@, i + 1);
                }
                return None;
            },
        };
        i = i + 1;
    }
    proof {
        assert(s@.take(n as int) =~= s@);
    }
    Some(acc)
}

/// Render a `usize` in decimal, without leading zeros.
pub fn fmt_usize(n: usize) -> (r: Vec<u8>)
    ensures
        r@ == dec_str(n as nat),
    decreases n,
{
    if n < 10 {
        let mut v: Vec<u8> = Vec::new();
        v.push(48 + n as u8);
        proof {
            assert(v@ =~= dec_str(n as nat));
        }
        v
    } else {
        let mut v = fmt_usize(n / 10);
        v.push(48 + (n % 10) as u8);
        proof {
            assert(v@ =~= dec_str(n as nat));
        }
        v
    }
}

} // verus!
