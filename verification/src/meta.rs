//! The bit-packed meta word of a stored component: the entity id in bits
//! 0..36, the chain successor in bits 36..63, the active flag in bit 63.

use bit_field::BitField;
use vstd::prelude::*;

verus! {

/// First bit of the entity field.
pub const ENTITY_LO: usize = 0;

/// One past the last bit of the entity field.
pub const ENTITY_HI: usize = 36;

/// First bit of the successor field.
pub const NEXT_LO: usize = 36;

/// One past the last bit of the successor field.
pub const NEXT_HI: usize = 63;

/// First bit of the active flag.
pub const ACTIVE_LO: usize = 63;

/// One past the last bit of the active flag.
pub const ACTIVE_HI: usize = 64;

/// Number of values the entity field can hold.
pub const ENTITY_LIMIT: u64 = 0x10_0000_0000;

/// Number of values the successor field can hold.
pub const NEXT_LIMIT: u64 = 0x800_0000;

/// The bits `lo..hi` of `word`, moved down to bit 0.
pub open spec fn field(word: u64, lo: u64, hi: u64) -> u64 {
    ((word << ((64 - hi) as u64)) >> ((64 - hi) as u64)) >> lo
}

/// Whether `value` can be stored in a field of `hi - lo` bits.
pub open spec fn fits(value: u64, lo: u64, hi: u64) -> bool {
    (value << ((64 - (hi - lo)) as u64)) >> ((64 - (hi - lo)) as u64) == value
}

/// `word` with the bits `lo..hi` replaced by `value`.
pub open spec fn with_field(word: u64, lo: u64, hi: u64, value: u64) -> u64 {
    (word & !((((!0u64 << ((64 - hi) as u64)) >> ((64 - hi) as u64)) >> lo) << lo)) | (value << lo)
}

/// `bit_field::BitField::get_bits` on a `u64` with the range `lo..hi`.
/// For a non-empty range inside the word it shifts the bits above `hi` out,
/// then the bits below `lo`, and returns what is left.
#[verifier::external_body]
pub(crate) fn get_bits(word: u64, lo: usize, hi: usize) -> (r: u64)
    requires
        lo < hi <= 64,
    ensures
        r == field(word, lo as u64, hi as u64),
{
    word.get_bits(lo..hi)
}

/// `bit_field::BitField::set_bits` on a `u64` with the range `lo..hi`.
/// It refuses a value that does not fit the range; for one that fits it
/// clears the range in the word and ors the shifted value in.
#[verifier::external_body]
pub(crate) fn set_bits(word: u64, lo: usize, hi: usize, value: u64) -> (r: u64)
    requires
        lo < hi <= 64,
        fits(value, lo as u64, hi as u64),
    ensures
        r == with_field(word, lo as u64, hi as u64, value),
{
    let mut w = word;
    w.set_bits(lo..hi, value);
    w
}

/// The entity id held in a meta word.
pub open spec fn entity_of(meta: u64) -> u64 {
    field(meta, 0, 36)
}

/// The chain successor held in a meta word.
pub open spec fn next_of(meta: u64) -> u64 {
    field(meta, 36, 63)
}

/// The active flag held in a meta word.
pub open spec fn active_of(meta: u64) -> bool {
    field(meta, 63, 64) == 1
}

/// The meta word that holds the three given fields.
pub open spec fn packed(entity: u64, next: u64, active: bool) -> u64 {
    with_field(
        with_field(with_field(0, 0, 36, entity), 36, 63, next),
        63,
        64,
        if active { 1u64 } else { 0u64 },
    )
}

/// Every value below the field's limit fits the field.
pub proof fn lemma_fits(entity: u64, next: u64, flag: u64)
    requires
        entity < ENTITY_LIMIT,
        next < NEXT_LIMIT,
        flag <= 1,
    ensures
        fits(entity, 0, 36),
        fits(next, 36, 63),
        fits(flag, 63, 64),
{
    assert((entity << 28u64) >> 28u64 == entity) by (bit_vector)
        requires
            entity < 0x10_0000_0000u64,
    ;
    assert((next << 37u64) >> 37u64 == next) by (bit_vector)
        requires
            next < 0x800_0000u64,
    ;
    assert((flag << 63u64) >> 63u64 == flag) by (bit_vector)
        requires
            flag <= 1u64,
    ;
}

/// What is read from a field is below the field's limit.
pub proof fn lemma_field_bounds(meta: u64)
    ensures
        entity_of(meta) < ENTITY_LIMIT,
        next_of(meta) < NEXT_LIMIT,
{
    assert((((meta << 28u64) >> 28u64) >> 0u64) < 0x10_0000_0000u64) by (bit_vector);
    assert((((meta << 1u64) >> 1u64) >> 36u64) < 0x800_0000u64) by (bit_vector);
}

/// Packing three fields and reading them back gives the fields.
pub proof fn lemma_packed(entity: u64, next: u64, active: bool)
    requires
        entity < ENTITY_LIMIT,
        next < NEXT_LIMIT,
    ensures
        entity_of(packed(entity, next, active)) == entity,
        next_of(packed(entity, next, active)) == next,
        active_of(packed(entity, next, active)) == active,
{
    let flag = if active { 1u64 } else { 0u64 };
    let a = with_field(0, 0, 36, entity);
    let b = with_field(a, 36, 63, next);
    let c = with_field(b, 63, 64, flag);
    assert(a == entity) by (bit_vector)
        requires
            entity < 0x10_0000_0000u64,
            a == (0u64 & !((((!0u64 << 28u64) >> 28u64) >> 0u64) << 0u64)) | (entity << 0u64),
    ;
    lemma_next_replaced(a, next);
    assert(field(c, 0, 36) == field(b, 0, 36) && field(c, 36, 63) == field(b, 36, 63) && field(
        c,
        63,
        64,
    ) == flag) by (bit_vector)
        requires
            flag <= 1u64,
            c == (b & !((((!0u64 << 0u64) >> 0u64) >> 63u64) << 63u64)) | (flag << 63u64),
            field(c, 0, 36) == ((c << 28u64) >> 28u64) >> 0u64,
            field(b, 0, 36) == ((b << 28u64) >> 28u64) >> 0u64,
            field(c, 36, 63) == ((c << 1u64) >> 1u64) >> 36u64,
            field(b, 36, 63) == ((b << 1u64) >> 1u64) >> 36u64,
            field(c, 63, 64) == ((c << 0u64) >> 0u64) >> 63u64,
    ;
    assert(field(a, 0, 36) == entity) by (bit_vector)
        requires
            a == entity,
            entity < 0x10_0000_0000u64,
            field(a, 0, 36) == ((a << 28u64) >> 28u64) >> 0u64,
    ;
}

/// Replacing the successor field changes that field and no other.
pub proof fn lemma_next_replaced(meta: u64, next: u64)
    requires
        next < NEXT_LIMIT,
    ensures
        next_of(with_field(meta, 36, 63, next)) == next,
        entity_of(with_field(meta, 36, 63, next)) == entity_of(meta),
        active_of(with_field(meta, 36, 63, next)) == active_of(meta),
{
    let m = with_field(meta, 36, 63, next);
    assert(((m << 1u64) >> 1u64) >> 36u64 == next && ((m << 28u64) >> 28u64) >> 0u64 == ((meta
        << 28u64) >> 28u64) >> 0u64 && ((m << 0u64) >> 0u64) >> 63u64 == ((meta << 0u64) >> 0u64)
        >> 63u64) by (bit_vector)
        requires
            next < 0x800_0000u64,
            m == (meta & !((((!0u64 << 1u64) >> 1u64) >> 36u64) << 36u64)) | (next << 36u64),
    ;
}

} // verus!
