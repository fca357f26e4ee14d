use vstd::prelude::*;

verus! {

/// Samples in one voice-activity frame: 30 ms at 16 kHz.
pub const FRAME_SAMPLES: usize = 480;

pub open spec fn low_byte(x: i16) -> u8 {
    ((x as u16) % 256) as u8
}

pub open spec fn high_byte(x: i16) -> u8 {
    ((x as u16) / 256) as u8
}

/// The samples as little-endian 16-bit bytes, two per sample, in order.
pub fn frame_to_le_bytes(samples: &[i16]) -> (r: Vec<u8>)
    requires
        samples@.len() <= usize::MAX / 2,
    ensures
        r@.len() == 2 * samples@.len(),
        forall|k: int|
            0 <= k < samples@.len() ==> r@[2 * k] == low_byte(#[trigger] samples@[k]) && r@[2 * k
                + 1] == high_byte(samples@[k]),
{
    let mut r: Vec<u8> = Vec::new();
    let mut i: usize = 0;
    while i < samples.len()
        invariant
            i <= samples@.len() <= usize::MAX / 2,
            r@.len() == 2 * i,
            forall|k: int|
                0 <= k < i ==> r@[2 * k] == low_byte(#[trigger] samples@[k]) && r@[2 * k + 1]
                    == high_byte(samples@[k]),
        decreases samples@.len() - i,
    {
        let u = samples[i] as u16;
        r.push((u % 256) as u8);
        r.push((u / 256) as u8);
        i = i + 1;
    }
    r
}

} // verus!
