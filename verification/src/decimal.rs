//! Decimal codec for unsigned 64-bit integers: rendering a value to ASCII
//! digit bytes and parsing digit bytes back, with an exact round trip.

use vstd::prelude::*;
use vstd::arithmetic::div_mod::lemma_fundamental_div_mod;

verus! {

/// ASCII decimal digit.
pub open spec fn is_digit(b: u8) -> bool {
    48 <= b <= 57
}

/// The decimal digit bytes of `n`, most significant first.
pub open spec fn spec_digits(n: nat) -> Seq<u8>
    decreases n,
{
    if n < 10 {
        seq![(n + 48) as u8]
    } else {
        spec_digits(n / 10).push((n % 10 + 48) as u8)
    }
}

/// Numeric value of a sequence of decimal digit bytes, most significant
/// first.
pub open spec fn digits_value(s: Seq<u8>) -> int
    decreases s.len(),
{
    if s.len() == 0 {
        0
    } else {
        digits_value(s.drop_last()) * 10 + (s.last() - 48)
    }
}

/// Every byte is a decimal digit.
pub open spec fn all_digits(s: Seq<u8>) -> bool {
    forall|i: int| 0 <= i < s.len() ==> is_digit(#[trigger] s[i])
}

/// What parsing a whole fragment as an unsigned 64-bit integer yields:
/// one or more digit bytes whose value fits, anything else fails.
pub open spec fn spec_parse_u64(s: Seq<u8>) -> Option<u64> {
    if s.len() == 0 || !all_digits(s) {
        None
    } else if digits_value(s) > u64::MAX {
        None
    } else {
        Some(digits_value(s) as u64)
    }
}

/// The digit expansion of `n` is nonempty, holds digits only, and reads
/// back as `n`.
pub proof fn lemma_digits_shape(n: nat)
    ensures
        spec_digits(n).len() >= 1,
        all_digits(spec_digits(n)),
        digits_value(spec_digits(n)) == n,
    decreases n,
{
    let s = spec_digits(n);
    if n < 10 {
        assert(s.drop_last() =~= Seq::<u8>::empty());
        assert(digits_value(Seq::<u8>::empty()) == 0);
        assert(s.last() == (n + 48) as u8);
        assert((n + 48) as u8 == n + 48);
    } else {
        lemma_digits_shape(n / 10);
        assert(s.drop_last() =~= spec_digits(n / 10));
        assert(s.last() == (n % 10 + 48) as u8);
        assert(0 <= n % 10 < 10);
        assert((n % 10 + 48) as u8 == n % 10 + 48);
        assert forall|i: int| 0 <= i < s.len() implies is_digit(#[trigger] s[i]) by {
            if i < s.len() - 1 {
                assert(s[i] == spec_digits(n / 10)[i]);
            }
        }
        lemma_fundamental_div_mod(n as int, 10);
    }
}

/// A sequence of digits has a non-negative value.
pub proof fn lemma_digits_value_non_negative(s: Seq<u8>)
    requires
        all_digits(s),
    ensures
        digits_value(s) >= 0,
    decreases s.len(),
{
    if s.len() > 0 {
        lemma_digits_value_non_negative(s.drop_last());
    }
}

/// Extending a digit sequence never shrinks its value.
pub proof fn lemma_digits_value_prefix(s: Seq<u8>, i: int)
    requires
        all_digits(s),
        0 <= i <= s.len(),
    ensures
        digits_value(s.take(i)) <= digits_value(s),
    decreases s.len() - i,
{
    if i < s.len() {
        lemma_digits_value_prefix(s, i + 1);
        assert(s.take(i + 1).drop_last() =~= s.take(i));
        assert(s.take(i + 1).last() == s[i]);
        lemma_digits_value_non_negative(s.take(i));
        assert(digits_value(s.take(i)) * 10 >= digits_value(s.take(i))) by (nonlinear_arith)
            requires
                digits_value(s.take(i)) >= 0,
        ;
    } else {
        assert(s.take(i) =~= s);
    }
}

/// Appends the decimal digits of `n` to `out`, most significant first.
pub fn push_decimal(out: &mut Vec<u8>, n: u64)
    ensures
        final(out)@ == old(out)@ + spec_digits(n as nat),
    decreases n,
{
    if n >= 10 {
        push_decimal(out, n / 10);
    }
    let d: u8 = (n % 10) as u8 + 48;
    out.push(d);
    proof {
        if n < 10 {
            assert(old(out)@ + spec_digits(n as nat) =~= old(out)@.push(d));
        } else {
            assert(old(out)@ + spec_digits(n as nat) =~= (old(out)@ + spec_digits(
                (n / 10) as nat,
            )).push(d));
        }
    }
}

/// Parses `blob[start..end]` as an unsigned decimal integer.
pub fn parse_u64_range(blob: &Vec<u8>, start: usize, end: usize) -> (r: Option<u64>)
    requires
        start <= end <= blob@.len(),
    ensures
        r == spec_parse_u64(blob@.subrange(start as int, end as int)),
{
    let ghost frag = blob@.subrange(start as int, end as int);
    if start == end {
        return None;
    }
    let mut acc: u64 = 0;
    let mut j: usize = start;
    while j < end
        invariant
            start <= j <= end <= blob@.len(),
            frag == blob@.subrange(start as int, end as int),
            all_digits(frag.take(j as int - start as int)),
            acc == digits_value(frag.take(j as int - start as int)),
        decreases end - j,
    {
        let b = blob[j];
        proof {
            assert(frag[j as int - start as int] == b);
        }
        if b < 48 || b > 57 {
            return None;
        }
        let d: u64 = (b - 48) as u64;
        let wide: u128 = acc as u128 * 10 + d as u128;
        proof {
            assert(frag.take(j as int - start as int + 1).drop_last() =~= frag.take(
                j as int - start as int,
            ));
            assert(frag.take(j as int - start as int + 1).last() == b);
        }
        if wide > u64::MAX as u128 {
            proof {
                if all_digits(frag) {
                    lemma_digits_value_prefix(frag, j as int - start as int + 1);
                }
            }
            return None;
        }
        acc = wide as u64;
        j = j + 1;
    }
    proof {
        assert(frag.take(end as int - start as int) =~= frag);
    }
    Some(acc)
}

} // verus!
