//! Bit strings read most significant bit first, and their numeric values.
//!
//! A bit string is a sequence of `u8` values in which each entry is 0 or 1.
//! Index `k` of a string of width `w` holds the bit of weight `2^(w-1-k)`.
use vstd::prelude::*;
use vstd::arithmetic::power2::{pow2, lemma_pow2_unfold, lemma_pow2_pos, lemma_pow2_adds, lemma2_to64, lemma2_to64_rest};
use vstd::arithmetic::div_mod::{lemma_mod_breakdown, lemma_div_denominator, lemma_fundamental_div_mod, lemma_small_mod};
use vstd::bits::{lemma_usize_shl_is_mul, lemma_usize_pow2_no_overflow};

verus! {

/// Every entry of `s` is 0 or 1.
pub open spec fn is_bit_string(s: Seq<u8>) -> bool {
    forall|k: int| 0 <= k < s.len() ==> #[trigger] s[k] <= 1
}

/// The value of `s` as an unsigned number, most significant bit first.
pub open spec fn bits_nat(s: Seq<u8>) -> nat
    decreases s.len(),
{
    if s.len() == 0 {
        0
    } else {
        2 * bits_nat(s.drop_last()) + s.last() as nat
    }
}

/// What folding `acc = (acc << 1) | b` over `s` leaves in a machine word.
/// For a bit string no longer than a word this is `bits_nat(s)`.
pub open spec fn bits_value(s: Seq<u8>) -> usize
    decreases s.len(),
{
    if s.len() == 0 {
        0
    } else {
        (bits_value(s.drop_last()) << 1usize) | (s.last() as usize)
    }
}

/// The `width`-bit binary representation of `index`, most significant bit first
/// (bits of weight `2^width` and above are dropped).
pub open spec fn index_bits(index: nat, width: nat) -> Seq<u8> {
    Seq::new(width, |k: int| ((index / pow2((width - 1 - k) as nat)) % 2) as u8)
}

proof fn lemma_or_low_bit(x: usize, b: usize)
    by (bit_vector)
    requires
        b <= 1,
    ensures
        (x << 1usize) | b == (x << 1usize) + b,
{
}

/// For a bit string no longer than a machine word, the shift-or fold computes
/// its numeric value, which is below `2^len`.
pub proof fn lemma_bits_value_is_nat(s: Seq<u8>)
    requires
        is_bit_string(s),
        s.len() <= usize::BITS,
    ensures
        bits_value(s) == bits_nat(s),
        bits_nat(s) < pow2(s.len()),
    decreases s.len(),
{
    if s.len() == 0 {
        lemma2_to64();
    } else {
        let t = s.drop_last();
        assert(is_bit_string(t)) by {
            assert forall|k: int| 0 <= k < t.len() implies #[trigger] t[k] <= 1 by {
                assert(t[k] == s[k]);
            }
        }
        lemma_bits_value_is_nat(t);
        let acc = bits_value(t);
        let n = (s.len() - 1) as nat;
        lemma_pow2_unfold(s.len());
        lemma_usize_pow2_no_overflow(n);
        assert(acc * 2 <= usize::MAX) by {
            if s.len() < usize::BITS {
                lemma_usize_pow2_no_overflow(s.len());
            } else {
                assert(usize::MAX == pow2(usize::BITS as nat) - 1) by {
                    lemma2_to64();
                    lemma2_to64_rest();
                }
            }
        }
        lemma2_to64();
        lemma_usize_shl_is_mul(acc, 1);
        assert(s.last() <= 1);
        lemma_or_low_bit(acc, s.last() as usize);
    }
}

/// Reading back the `width`-bit representation of `index` gives `index mod 2^width`.
pub proof fn lemma_index_bits_value(index: nat, width: nat)
    ensures
        bits_nat(index_bits(index, width)) == index % pow2(width),
        is_bit_string(index_bits(index, width)),
    decreases width,
{
    let s = index_bits(index, width);
    assert forall|k: int| 0 <= k < s.len() implies #[trigger] s[k] <= 1 by {
        lemma_pow2_pos((width - 1 - k) as nat);
    }
    if width == 0 {
        lemma2_to64();
    } else {
        let w1 = (width - 1) as nat;
        lemma_index_bits_shift(index, width);
        lemma_index_bits_value(index / 2, w1);
        lemma_pow2_unfold(width);
        lemma_pow2_pos(w1);
        lemma_mod_breakdown(index as int, 2, pow2(w1) as int);
        lemma2_to64();
        assert(index / pow2(0) == index);
        assert(s.last() == index % 2);
    }
}

/// Dropping the last bit of a representation is the representation of the half.
pub proof fn lemma_index_bits_shift(index: nat, width: nat)
    requires
        width > 0,
    ensures
        index_bits(index, width).drop_last() =~= index_bits(index / 2, (width - 1) as nat),
{
    let w1 = (width - 1) as nat;
    let a = index_bits(index, width).drop_last();
    let b = index_bits(index / 2, w1);
    assert forall|k: int| 0 <= k < w1 implies a[k] == b[k] by {
        let e = (w1 - 1 - k) as nat;
        assert((width - 1 - k) as nat == e + 1);
        lemma_pow2_adds(1, e);
        lemma2_to64();
        lemma_pow2_pos(e);
        lemma_div_denominator(index as int, 2, pow2(e) as int);
        assert(pow2(e + 1) == 2 * pow2(e));
    }
}

/// The representation of the value of a bit string is the string itself.
pub proof fn lemma_bits_nat_index_bits(s: Seq<u8>)
    requires
        is_bit_string(s),
    ensures
        index_bits(bits_nat(s), s.len()) =~= s,
    decreases s.len(),
{
    if s.len() > 0 {
        let t = s.drop_last();
        assert(is_bit_string(t)) by {
            assert forall|k: int| 0 <= k < t.len() implies #[trigger] t[k] <= 1 by {
                assert(t[k] == s[k]);
            }
        }
        lemma_bits_nat_index_bits(t);
        let v = bits_nat(s);
        let b = s.last() as nat;
        assert(b <= 1);
        assert(v / 2 == bits_nat(t) && v % 2 == b) by {
            lemma_fundamental_div_mod(v as int, 2);
        }
        lemma_index_bits_shift(v, s.len());
        let r = index_bits(v, s.len());
        assert(r.drop_last() =~= t);
        lemma2_to64();
        assert(v / pow2(0) == v);
        assert(r.last() == s.last());
        assert forall|k: int| 0 <= k < s.len() implies r[k] == s[k] by {
            if k < s.len() - 1 {
                assert(r[k] == r.drop_last()[k]);
                assert(s[k] == t[k]);
            }
        }
    }
}

/// Two bit strings of one width with the same value are equal.
pub proof fn lemma_bits_nat_injective(s: Seq<u8>, t: Seq<u8>)
    requires
        is_bit_string(s),
        is_bit_string(t),
        s.len() == t.len(),
        bits_nat(s) == bits_nat(t),
    ensures
        s == t,
{
    lemma_bits_nat_index_bits(s);
    lemma_bits_nat_index_bits(t);
}

/// A number below `2^width` is the value of its `width`-bit representation.
pub proof fn lemma_index_bits_roundtrip(index: nat, width: nat)
    requires
        index < pow2(width),
    ensures
        bits_nat(index_bits(index, width)) == index,
        is_bit_string(index_bits(index, width)),
        index_bits(index, width).len() == width,
{
    lemma_index_bits_value(index, width);
    lemma_small_mod(index, pow2(width));
}

/// The value of a bit string is below `2^len`.
pub proof fn lemma_bits_nat_bound(s: Seq<u8>)
    requires
        is_bit_string(s),
    ensures
        bits_nat(s) < pow2(s.len()),
    decreases s.len(),
{
    if s.len() == 0 {
        lemma2_to64();
    } else {
        let t = s.drop_last();
        assert(is_bit_string(t)) by {
            assert forall|k: int| 0 <= k < t.len() implies #[trigger] t[k] <= 1 by {
                assert(t[k] == s[k]);
            }
        }
        lemma_bits_nat_bound(t);
        lemma_pow2_unfold(s.len());
        assert(s.last() <= 1);
    }
}

/// `1 << n` is `2^n` in a machine word.
pub proof fn lemma_one_shl(n: usize)
    requires
        n < usize::BITS,
    ensures
        (1usize << n) == pow2(n as nat),
        pow2(n as nat) <= usize::MAX,
{
    lemma_usize_pow2_no_overflow(n as nat);
    lemma_usize_shl_is_mul(1, n);
}

} // verus!
