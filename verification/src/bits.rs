//! Masks as sets of small numbers: what the bits of a mask say, bit by bit.

use vstd::prelude::*;

verus! {

/// Whether bit `i` of a 16-bit mask is set; no bit beyond the fifteenth is.
pub open spec fn bit16(mask: u16, i: int) -> bool {
    0 <= i < 16 && (mask >> (i as u16)) & 1u16 == 1u16
}

/// Whether bit `i` of a 64-bit mask is set; no bit beyond the sixty-third is.
pub open spec fn bit64(mask: u64, i: int) -> bool {
    0 <= i < 64 && (mask >> (i as u64)) & 1u64 == 1u64
}

pub proof fn lemma_bit16_zero()
    ensures
        forall|j: int| !bit16(0, j),
{
    assert forall|j: int| !bit16(0, j) by {
        if 0 <= j < 16 {
            let s = j as u16;
            assert((0u16 >> s) & 1u16 == 0u16) by (bit_vector);
        }
    }
}

pub proof fn lemma_bit64_zero()
    ensures
        forall|j: int| !bit64(0, j),
{
    assert forall|j: int| !bit64(0, j) by {
        if 0 <= j < 64 {
            let s = j as u64;
            assert((0u64 >> s) & 1u64 == 0u64) by (bit_vector);
        }
    }
}

/// Setting bit `i` changes that bit and no other.
pub proof fn lemma_bit16_set(mask: u16, i: u16)
    requires
        i < 16,
    ensures
        forall|j: int| #[trigger] bit16(mask | (1u16 << i), j) == (j == i || bit16(mask, j)),
{
    assert forall|j: int| #[trigger] bit16(mask | (1u16 << i), j) == (j == i || bit16(mask, j)) by {
        if 0 <= j < 16 {
            let s = j as u16;
            assert(i < 16 && s < 16 ==> (((mask | (1u16 << i)) >> s) & 1u16 == 1u16) == (s == i || (
            mask >> s) & 1u16 == 1u16)) by (bit_vector);
        }
    }
}

/// Clearing bit `i` changes that bit and no other.
pub proof fn lemma_bit16_clear(mask: u16, i: u16)
    requires
        i < 16,
    ensures
        forall|j: int| #[trigger] bit16(mask & !(1u16 << i), j) == (j != i && bit16(mask, j)),
{
    assert forall|j: int| #[trigger] bit16(mask & !(1u16 << i), j) == (j != i && bit16(mask, j)) by {
        if 0 <= j < 16 {
            let s = j as u16;
            assert(i < 16 && s < 16 ==> (((mask & !(1u16 << i)) >> s) & 1u16 == 1u16) == (s != i && (
            mask >> s) & 1u16 == 1u16)) by (bit_vector);
        }
    }
}

/// Shifting right by one moves every bit one place down.
pub proof fn lemma_bit16_shift_down(mask: u16)
    ensures
        forall|j: int| 0 <= j ==> #[trigger] bit16(mask >> 1, j) == bit16(mask, j + 1),
{
    assert forall|j: int| 0 <= j implies #[trigger] bit16(mask >> 1, j) == bit16(mask, j + 1) by {
        if j < 15 {
            let s = j as u16;
            let t = (j + 1) as u16;
            assert(s < 15 && t == s + 1 ==> (((mask >> 1u16) >> s) & 1u16 == 1u16) == ((mask >> t)
                & 1u16 == 1u16)) by (bit_vector);
        } else if j == 15 {
            assert(((mask >> 1u16) >> 15u16) & 1u16 == 0u16) by (bit_vector);
        }
    }
}

/// A bit of a mask is either set or clear.
pub proof fn lemma_bit16_values(mask: u16, i: u16)
    requires
        i < 16,
    ensures
        (mask >> i) & 1u16 == 0u16 || (mask >> i) & 1u16 == 1u16,
        bit16(mask, i as int) == ((mask & (1u16 << i)) != 0u16),
{
    assert((mask >> i) & 1u16 == 0u16 || (mask >> i) & 1u16 == 1u16) by (bit_vector);
    assert(i < 16 ==> ((mask >> i) & 1u16 == 1u16) == ((mask & (1u16 << i)) != 0u16))
        by (bit_vector);
}

pub proof fn lemma_bit64_set(mask: u64, i: u64)
    requires
        i < 64,
    ensures
        forall|j: int| #[trigger] bit64(mask | (1u64 << i), j) == (j == i || bit64(mask, j)),
{
    assert forall|j: int| #[trigger] bit64(mask | (1u64 << i), j) == (j == i || bit64(mask, j)) by {
        if 0 <= j < 64 {
            let s = j as u64;
            assert(i < 64 && s < 64 ==> (((mask | (1u64 << i)) >> s) & 1u64 == 1u64) == (s == i || (
            mask >> s) & 1u64 == 1u64)) by (bit_vector);
        }
    }
}

pub proof fn lemma_bit64_test(mask: u64, i: u64)
    requires
        i < 64,
    ensures
        bit64(mask, i as int) == ((mask & (1u64 << i)) != 0u64),
{
    assert(i < 64 ==> ((mask >> i) & 1u64 == 1u64) == ((mask & (1u64 << i)) != 0u64))
        by (bit_vector);
}

} // verus!
