//! Decimal text: parsing status codes and request counts, and formatting
//! status codes for the report.

use vstd::prelude::*;

verus! {

/// Every byte of `d` is an ASCII decimal digit.
pub open spec fn all_digits(d: Seq<u8>) -> bool {
    forall|i: int| 0 <= i < d.len() ==> 48 <= #[trigger] d[i] <= 57
}

/// Value of the digit string `d` read in base ten.
pub open spec fn digits_val(d: Seq<u8>) -> int
    decreases d.len(),
{
    if d.len() == 0 {
        0
    } else {
        digits_val(d.drop_last()) * 10 + (d.last() - 48)
    }
}

/// The digit part of a decimal token: an optional leading `+` is skipped,
/// as Rust's unsigned integer parsing does.
pub open spec fn token_digits(t: Seq<u8>) -> Seq<u8> {
    if t.len() > 0 && t[0] == 43 {
        t.drop_first()
    } else {
        t
    }
}

/// `t` is a decimal token whose value fits in `u16`.
pub open spec fn u16_token_ok(t: Seq<u8>) -> bool {
    let d = token_digits(t);
    d.len() > 0 && all_digits(d) && digits_val(d) <= u16::MAX
}

/// `t` is a decimal token whose value fits in `usize`.
pub open spec fn usize_token_ok(t: Seq<u8>) -> bool {
    let d = token_digits(t);
    d.len() > 0 && all_digits(d) && digits_val(d) <= usize::MAX
}

/// Value of a decimal token (the digits after any leading `+`).
pub open spec fn token_val(t: Seq<u8>) -> int {
    digits_val(token_digits(t))
}

proof fn lemma_digits_val_nonneg(d: Seq<u8>)
    requires
        all_digits(d),
    ensures
        digits_val(d) >= 0,
    decreases d.len(),
{
    if d.len() > 0 {
        assert(all_digits(d.drop_last()));
        lemma_digits_val_nonneg(d.drop_last());
    }
}

/// The value of a digit string is at least the value of any of its prefixes.
proof fn lemma_digits_val_prefix_le(d: Seq<u8>, i: int)
    requires
        all_digits(d),
        0 <= i <= d.len(),
    ensures
        digits_val(d.take(i)) <= digits_val(d),
    decreases d.len(),
{
    if i < d.len() {
        assert(all_digits(d.drop_last()));
        assert(d.take(i) =~= d.drop_last().take(i));
        lemma_digits_val_prefix_le(d.drop_last(), i);
        lemma_digits_val_nonneg(d.drop_last());
        assert(digits_val(d) >= digits_val(d.drop_last()));
    } else {
        assert(d.take(i) =~= d);
    }
}

/// Parses a decimal token as a `u16`, as the status code of a response is
/// parsed: an optional `+`, then one or more digits, value at most 65535.
pub fn parse_u16(t: &[u8]) -> (r: Option<u16>)
    ensures
        r is Some <==> u16_token_ok(t@),
        r is Some ==> r->0 == token_val(t@),
{
    let n = t.len();
    let start: usize = if n > 0 && t[0] == 43 {
        1
    } else {
        0
    };
    proof {
        assert(token_digits(t@) =~= t@.subrange(start as int, n as int));
    }
    if start >= n {
        return None;
    }
    let ghost d = t@.subrange(start as int, n as int);
    let mut acc: u32 = 0;
    let mut i: usize = start;
    while i < n
        invariant
            start <= i <= n <= t@.len(),
            d == t@.subrange(start as int, n as int),
            d == token_digits(t@),
            all_digits(d.take(i - start)),
            acc == digits_val(d.take(i - start)),
            acc <= 65535,
        decreases n - i,
    {
        let b = t[i];
        if b < 48 || b > 57 {
            proof {
                assert(d[i - start] == b);
            }
            return None;
        }
        proof {
            assert(d.take(i + 1 - start).drop_last() =~= d.take(i - start));
            assert(d.take(i + 1 - start).last() == b);
        }
        acc = acc * 10 + (b - 48) as u32;
        i = i + 1;
        if acc > 65535 {
            proof {
                if all_digits(d) {
                    lemma_digits_val_prefix_le(d, i - start);
                }
            }
            return None;
        }
    }
    proof {
        assert(d.take(n - start) =~= d);
    }
    Some(acc as u16)
}

/// Parses a decimal token as a `usize`, as the request count of the
/// profiling mode is parsed.
pub fn parse_usize(t: &[u8]) -> (r: Option<usize>)
    ensures
        r is Some <==> usize_token_ok(t@),
        r is Some ==> r->0 == token_val(t@),
{
    let n = t.len();
    let start: usize = if n > 0 && t[0] == 43 {
        1
    } else {
        0
    };
    proof {
        assert(token_digits(t@) =~= t@.subrange(start as int, n as int));
    }
    if start >= n {
        return None;
    }
    let ghost d = t@.subrange(start as int, n as int);
    let mut acc: u128 = 0;
    let mut i: usize = start;
    while i < n
        invariant
            start <= i <= n <= t@.len(),
            d == t@.subrange(start as int, n as int),
            d == token_digits(t@),
            all_digits(d.take(i - start)),
            acc == digits_val(d.take(i - start)),
            acc <= usize::MAX,
        decreases n - i,
    {
        let b = t[i];
        if b < 48 || b > 57 {
            proof {
                assert(d[i - start] == b);
            }
            return None;
        }
        proof {
            assert(d.take(i + 1 - start).drop_last() =~= d.take(i - start));
            assert(d.take(i + 1 - start).last() == b);
        }
        acc = acc * 10 + (b - 48) as u128;
        i = i + 1;
        if acc > usize::MAX as u128 {
            proof {
                if all_digits(d) {
                    lemma_digits_val_prefix_le(d, i - start);
                }
            }
            return None;
        }
    }
    proof {
        assert(d.take(n - start) =~= d);
    }
    Some(acc as usize)
}

/// Decimal representation of `n`, most significant digit first, no sign and
/// no leading zero (`0` itself is the single digit `0`).
pub open spec fn dec_rep(n: nat) -> Seq<u8>
    decreases n,
{
    if n < 10 {
        seq![(48 + n) as u8]
    } else {
        dec_rep(n / 10).push((48 + n % 10) as u8)
    }
}

/// Appends the decimal representation of `n` to `out`.
pub fn push_dec_u16(out: &mut Vec<u8>, n: u16)
    ensures
        final(out)@ == old(out)@ + dec_rep(n as nat),
    decreases n,
{
    if n < 10 {
        out.push(48 + n as u8);
        proof {
            assert(out@ =~= old(out)@ + dec_rep(n as nat));
        }
    } else {
        push_dec_u16(out, n / 10);
        out.push(48 + (n % 10) as u8);
        proof {
            assert(out@ =~= old(out)@ + dec_rep(n as nat));
        }
    }
}

} // verus!
