//! Power-fail snapshot of the encoder count: latched by the power-fail
//! interrupt, taken exactly once by the background task that commits it to
//! the EEPROM emulation.

use vstd::prelude::*;
use crate::storage::eeprom::{encodable, spec_decode, spec_encode, VALUE_MASK};

verus! {

/// EEPROM id under which the encoder count is committed on power fail.
pub const SNAPSHOT_ID: u8 = 0x01;

/// Encoder count latched at power fail, and whether it still awaits commit.
#[derive(Clone, Copy)]
pub struct PowerSnapshot {
    pub encoder: u64,
    pub valid: bool,
}

impl PowerSnapshot {
    /// Nothing latched.
    pub fn new() -> (s: Self)
        ensures
            s.encoder == 0,
            !s.valid,
    {
        PowerSnapshot { encoder: 0, valid: false }
    }

    /// Power-fail interrupt: latches the encoder count (sign-extended to 64 bits).
    pub fn latch(&mut self, count: i32)
        ensures
            final(self).encoder == count as u64,
            final(self).valid,
    {
        self.encoder = count as u64;
        self.valid = true;
    }

    /// Background task: takes the latched count once.
    pub fn take(&mut self) -> (r: Option<u64>)
        ensures
            !final(self).valid,
            final(self).encoder == old(self).encoder,
            r == (if old(self).valid {
                Some(old(self).encoder)
            } else {
                None
            }),
    {
        if self.valid {
            self.valid = false;
            Some(self.encoder)
        } else {
            None
        }
    }
}

/// The count survives the commit: the latched value is always storable under
/// the snapshot id, and the 56 value bits stored for it give the count back.
pub proof fn lemma_snapshot_roundtrip(count: i32)
    ensures
        encodable(SNAPSHOT_ID, count as u64),
        spec_decode(spec_encode(SNAPSHOT_ID, count as u64)) == Some(
            (SNAPSHOT_ID, (count as u64) & VALUE_MASK),
        ),
        (((count as u64) & VALUE_MASK) as i32) == count,
{
    let v = count as u64;
    assert((((1u8 as u64) << 56) | (v & 0x00FF_FFFF_FFFF_FFFFu64)) != 0xFFFF_FFFF_FFFF_FFFFu64)
        by (bit_vector);
    assert((((1u8 as u64) << 56) | (v & 0x00FF_FFFF_FFFF_FFFFu64)) != 0xA5A5_F0F0_5A5A_F0F0u64)
        by (bit_vector);
    crate::storage::eeprom::lemma_decode_encode(SNAPSHOT_ID, v);
    assert(((count as u64) & 0x00FF_FFFF_FFFF_FFFFu64) as i32 == count) by (bit_vector);
}

} // verus!
