use vstd::prelude::*;

verus! {

/// The high 16 bits of a value select its container, the low 16 bits its slot.
pub open spec fn key_of(value: u32) -> u16 {
    (value / 0x10000) as u16
}

pub open spec fn low_of(value: u32) -> u16 {
    (value % 0x10000) as u16
}

pub open spec fn join_spec(key: u16, low: u16) -> u32 {
    (key * 0x10000 + low) as u32
}

/// Splits a value into its container key and its low half.
pub fn split(value: u32) -> (r: (u16, u16))
    ensures
        r.0 == key_of(value),
        r.1 == low_of(value),
        join_spec(r.0, r.1) == value,
{
    let key = (value >> 16) as u16;
    let low = (value & 0xffff) as u16;
    assert(value >> 16 == value / 0x10000) by (bit_vector);
    assert(value & 0xffff == value % 0x10000) by (bit_vector);
    (key, low)
}

/// Joins a container key and a low half into a value.
pub fn join(key: u16, low: u16) -> (r: u32)
    ensures
        r == join_spec(key, low),
        key_of(r) == key,
        low_of(r) == low,
{
    assert(((key as u32) << 16) | (low as u32) == (key as u32) * 0x10000 + (low as u32)) by (bit_vector);
    ((key as u32) << 16) | low as u32
}

} // verus!
