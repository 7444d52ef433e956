//! Decimal integers: the value of a digit run, strict `i64` parsing of a
//! signed word (as `read_int` needs), and decimal formatting (as display
//! needs), each proved against a small spec function.

use vstd::prelude::*;
use crate::token::spec_is_ascii_digit;

verus! {

/// The value of a sequence of ASCII digit bytes, most significant first.
pub open spec fn digits_val(s: Seq<u8>) -> int
    decreases s.len(),
{
    if s.len() == 0 {
        0
    } else {
        digits_val(s.drop_last()) * 10 + (s.last() - 48)
    }
}

pub open spec fn all_digits(s: Seq<u8>) -> bool {
    forall|j: int| 0 <= j < s.len() ==> spec_is_ascii_digit(#[trigger] s[j])
}

pub proof fn lemma_digits_val_nonneg(s: Seq<u8>)
    requires
        all_digits(s),
    ensures
        digits_val(s) >= 0,
    decreases s.len(),
{
    if s.len() > 0 {
        assert(all_digits(s.drop_last()));
        lemma_digits_val_nonneg(s.drop_last());
    }
}

/// A prefix of a digit run never exceeds the whole run's value.
pub proof fn lemma_digits_val_prefix(s: Seq<u8>, i: int)
    requires
        all_digits(s),
        0 <= i <= s.len(),
    ensures
        0 <= digits_val(s.take(i)) <= digits_val(s),
    decreases s.len() - i,
{
    assert(all_digits(s.take(i)));
    lemma_digits_val_nonneg(s.take(i));
    if i < s.len() {
        lemma_digits_val_prefix(s, i + 1);
        assert(s.take(i + 1).drop_last() =~= s.take(i));
        assert(digits_val(s.take(i + 1)) == digits_val(s.take(i)) * 10 + (s[i] - 48));
    } else {
        assert(s.take(i) =~= s);
    }
}

/// The integer value of an `Int` token's digit run: decimal value if it fits
/// in an `i64`, otherwise 0 (the tokenizer's silent fallback on overflow).
pub open spec fn int_tok_val(s: Seq<u8>) -> i64 {
    if digits_val(s) <= i64::MAX {
        digits_val(s) as i64
    } else {
        0
    }
}

/// Reads a run of ASCII digits as a decimal `i64`, yielding 0 on overflow.
pub fn parse_digits_or_zero(w: &Vec<u8>) -> (r: i64)
    requires
        all_digits(w@),
        w@.len() >= 1,
    ensures
        r == int_tok_val(w@),
{
    let n = w.len();
    let mut i: usize = 0;
    let mut acc: u128 = 0;
    while i < n
        invariant
            all_digits(w@),
            n == w@.len(),
            0 <= i <= n,
            acc == digits_val(w@.take(i as int)),
            acc <= i64::MAX,
        decreases n - i,
    {
        let d = w[i];
        proof {
            assert(spec_is_ascii_digit(w@[i as int]));
        }
        acc = acc * 10 + ((d - 48) as u128);
        proof {
            assert(w@.take(i + 1).drop_last() =~= w@.take(i as int));
            assert(w@.take(i + 1).last() == w@[i as int]);
        }
        if acc > 0x7fff_ffff_ffff_ffff_u128 {
            proof {
                lemma_digits_val_prefix(w@, i + 1);
                assert(digits_val(w@) >= digits_val(w@.take(i + 1)));
            }
            return 0;
        }
        i += 1;
    }
    proof {
        assert(w@.take(n as int) =~= w@);
    }
    acc as i64
}

/// Strict signed decimal parsing, as `str::parse::<i64>` accepts it: an
/// optional `+` or `-` sign, then one or more ASCII digits, nothing else,
/// and the value must fit in an `i64`.
pub open spec fn spec_parse_i64(w: Seq<u8>) -> Option<i64> {
    let signed = w.len() > 0 && (w[0] == 43 || w[0] == 45);
    let neg = w.len() > 0 && w[0] == 45;
    let ds = if signed {
        w.drop_first()
    } else {
        w
    };
    if ds.len() == 0 || !all_digits(ds) {
        None
    } else {
        let v = if neg {
            -digits_val(ds)
        } else {
            digits_val(ds)
        };
        if i64::MIN <= v <= i64::MAX {
            Some(v as i64)
        } else {
            None
        }
    }
}

pub fn parse_i64(w: &Vec<u8>) -> (r: Option<i64>)
    ensures
        r == spec_parse_i64(w@),
{
    let n = w.len();
    let mut start: usize = 0;
    let mut neg = false;
    if n > 0 && (w[0] == 43 || w[0] == 45) {
        neg = w[0] == 45;
        start = 1;
    }
    if start >= n {
        return None;
    }
    let ghost ds = if start == 1 {
        w@.drop_first()
    } else {
        w@
    };
    proof {
        assert(ds =~= w@.subrange(start as int, n as int));
    }
    let mut i: usize = start;
    let mut acc: u128 = 0;
    while i < n
        invariant
            n == w@.len(),
            start <= i <= n,
            start == (if n > 0 && (w@[0] == 43 || w@[0] == 45) { 1int } else { 0int }),
            neg == (n > 0 && w@[0] == 45),
            ds == (if start == 1 { w@.drop_first() } else { w@ }),
            ds.len() == n - start,
            acc == digits_val(ds.take(i - start)),
            all_digits(ds.take(i - start)),
            acc <= 0x8000_0000_0000_0000_u128,
        decreases n - i,
    {
        let d = w[i];
        if !(48 <= d && d <= 57) {
            proof {
                assert(ds[i - start] == w@[i as int]);
                assert(!all_digits(ds));
            }
            return None;
        }
        acc = acc * 10 + ((d - 48) as u128);
        proof {
            assert(ds.take(i - start + 1).drop_last() =~= ds.take(i - start));
            assert(ds.take(i - start + 1).last() == ds[i - start]);
            assert(ds[i - start] == w@[i as int]);
            assert(all_digits(ds.take(i - start + 1)));
        }
        if acc > 0x8000_0000_0000_0000_u128 {
            proof {
                if all_digits(ds) {
                    lemma_digits_val_prefix(ds, i - start + 1);
                }
            }
            return None;
        }
        i += 1;
    }
    proof {
        assert(ds.take(n - start) =~= ds);
        lemma_digits_val_nonneg(ds);
    }
    if neg {
        if acc == 0x8000_0000_0000_0000_u128 {
            Some(i64::MIN)
        } else {
            Some(-((acc as u64) as i64))
        }
    } else {
        if acc == 0x8000_0000_0000_0000_u128 {
            None
        } else {
            Some((acc as u64) as i64)
        }
    }
}

/// The decimal digits of a non-negative integer, most significant first.
pub open spec fn dec_digits(n: int) -> Seq<u8>
    decreases n,
{
    if n < 10 {
        seq![(48 + n) as u8]
    } else {
        dec_digits(n / 10) + seq![(48 + n % 10) as u8]
    }
}

/// The decimal text of an integer, with a leading `-` when negative.
pub open spec fn dec_repr(v: int) -> Seq<u8> {
    if v < 0 {
        seq![45u8] + dec_digits(-v)
    } else {
        dec_digits(v)
    }
}

/// Appends the decimal text of `v` to `out`.
pub fn push_dec(out: &mut Vec<u8>, v: i64)
    ensures
        final(out)@ == old(out)@ + dec_repr(v as int),
{
    let neg = v < 0;
    let mut m: u64 = if v >= 0 {
        v as u64
    } else {
        (-(v as i128)) as u64
    };
    let ghost m0 = m as int;
    if neg {
        out.push(45);
    }
    let ghost out1 = out@;
    let mut tmp: Vec<u8> = Vec::new();
    tmp.push((m % 10) as u8 + 48);
    m = m / 10;
    while m > 0
        invariant
            dec_digits(m0) == (if m == 0 {
                tmp@.reverse()
            } else {
                dec_digits(m as int) + tmp@.reverse()
            }),
            tmp@.len() >= 1,
        decreases m,
    {
        let d = (m % 10) as u8 + 48;
        let ghost old_tmp = tmp@;
        tmp.push(d);
        proof {
            assert(tmp@.reverse() =~= seq![d] + old_tmp.reverse());
        }
        m = m / 10;
    }
    let ghost revd = tmp@.reverse();
    let tn = tmp.len();
    let mut k: usize = 0;
    while k < tn
        invariant
            tn == tmp@.len(),
            0 <= k <= tn,
            out@ == out1 + tmp@.reverse().take(k as int),
        decreases tn - k,
    {
        out.push(tmp[tn - 1 - k]);
        proof {
            assert(tmp@.reverse().take(k + 1).drop_last() =~= tmp@.reverse().take(k as int));
            assert(tmp@.reverse()[k as int] == tmp@[tn - 1 - k]);
        }
        k += 1;
    }
    proof {
        assert(tmp@.reverse().take(tn as int) =~= tmp@.reverse());
        if neg {
            assert(out1 =~= old(out)@ + seq![45u8]);
            assert(out@ =~= old(out)@ + (seq![45u8] + dec_digits(-(v as int))));
        }
    }
}

} // verus!
