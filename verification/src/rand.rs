use vstd::prelude::*;

verus! {

/// The big-endian 64-bit value eight bytes denote.
pub open spec fn be64_value(s: Seq<u8>) -> u64
    recommends
        s.len() == 8,
{
    ((s[0] as u64) << 56 | (s[1] as u64) << 48 | (s[2] as u64) << 40 | (s[3] as u64) << 32 | (
    s[4] as u64) << 24 | (s[5] as u64) << 16 | (s[6] as u64) << 8 | (s[7] as u64)) as u64
}

/// Reduces eight entropy bytes to a value between `min` (inclusive) and
/// `max` (exclusive). The entropy itself comes from the caller, who owns
/// the random source.
pub fn random_usize(data: &Vec<u8>, min: usize, max: usize) -> (r: usize)
    requires
        data@.len() == 8,
        min < max,
    ensures
        r as int == (be64_value(data@) as int) % (max - min) + min,
        min <= r < max,
{
    let value: u64 = ((data[0] as u64) << 56u64) | ((data[1] as u64) << 48u64) | ((
    data[2] as u64) << 40u64) | ((data[3] as u64) << 32u64) | ((data[4] as u64) << 24u64) | ((
    data[5] as u64) << 16u64) | ((data[6] as u64) << 8u64) | (data[7] as u64);
    let span: u64 = (max - min) as u64;
    let offset = (value % span) as usize;
    min + offset
}

} // verus!
