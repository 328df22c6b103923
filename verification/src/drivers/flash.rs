//! CRC-protected storage of one fixed-size record in a reserved flash page.
//!
//! Stored layout (`repr(C)`): the payload bytes, a padding byte when the
//! payload length is odd, then the CRC-16/MODBUS of the payload, little
//! endian. The page is programmed by 16-bit half-words, low byte first.

use vstd::prelude::*;
use vstd::array::array_fill_for_copy_types;
use crate::modbus::{crc16, spec_crc16, lo_byte, hi_byte, le_word};

verus! {

/// Start of the flash address space.
pub const FLASH_BASE: u32 = 0x0800_0000;

/// Address of the reserved record page.
pub const PAGE_ADDR: u32 = 0x0800_7800;

/// Stored record: payload and its CRC.
#[derive(Clone, Copy)]
pub struct FlashRecord<const N: usize> {
    pub data: [u8; N],
    pub crc: u16,
}

/// Byte offset of the CRC within the stored record of an `n`-byte payload.
pub open spec fn crc_offset(n: int) -> int {
    n + n % 2
}

/// Stored bytes of a record.
pub open spec fn record_bytes(data: Seq<u8>, crc: u16) -> Seq<u8> {
    data + (if data.len() % 2 == 1 {
        seq![0u8]
    } else {
        Seq::<u8>::empty()
    }) + seq![lo_byte(crc), hi_byte(crc)]
}

/// Little-endian half-words of an even-length byte sequence.
pub open spec fn halfwords(bytes: Seq<u8>) -> Seq<u16> {
    Seq::new(bytes.len() / 2, |i: int| le_word(bytes[2 * i], bytes[2 * i + 1]))
}

/// Half-words programmed for a record.
pub open spec fn record_image(data: Seq<u8>, crc: u16) -> Seq<u16> {
    halfwords(record_bytes(data, crc))
}

/// Byte `j` of a half-word image.
pub open spec fn image_byte(image: Seq<u16>, j: int) -> u8 {
    if j % 2 == 0 {
        lo_byte(image[j / 2])
    } else {
        hi_byte(image[j / 2])
    }
}

/// Stateless flash record driver.
pub struct Flash;

impl Flash {
    pub fn new() -> (f: Self) {
        Self
    }

    /// The payload of a stored record, if its CRC matches.
    pub fn read<const N: usize>(record: &FlashRecord<N>) -> (r: Option<[u8; N]>)
        ensures
            r == (if spec_crc16(record.data@) == record.crc {
                Some(record.data)
            } else {
                None
            }),
    {
        let calc_crc = crc16(record.data.as_slice());
        if calc_crc == record.crc {
            Some(record.data)
        } else {
            None
        }
    }

    /// The half-words to program into the record page for `data`, CRC included.
    pub fn write<const N: usize>(data: &[u8; N]) -> (image: Vec<u16>)
        ensures
            image@ == record_image(data@, spec_crc16(data@)),
    {
        broadcast use vstd::array::group_array_axioms;

        let crc = crc16(data.as_slice());
        let bytes = Ghost(record_bytes(data@, crc));
        assert(data@.len() == N);
        assert(bytes@.len() == N + N % 2 + 2);
        let half: usize = N / 2;
        let mut image: Vec<u16> = Vec::new();
        let mut i: usize = 0;
        while i < half
            invariant
                half == N / 2,
                data@.len() == N,
                bytes@ == record_bytes(data@, crc),
                i <= half,
                image@.len() == i,
                forall|k: int| 0 <= k < i ==> #[trigger] image@[k] == le_word(bytes@[2 * k], bytes@[2 * k + 1]),
            decreases half - i,
        {
            let lo = data[2 * i];
            let hi = data[2 * i + 1];
            image.push((lo as u16) | ((hi as u16) << 8));
            i += 1;
        }
        if N % 2 == 1 {
            let lo = data[N - 1];
            image.push((lo as u16) | ((0u8 as u16) << 8));
        }
        let lo = (crc & 0xFF) as u8;
        let hi = (crc >> 8) as u8;
        image.push((lo as u16) | ((hi as u16) << 8));
        assert(image@ =~= record_image(data@, crc));
        image
    }

    /// Whether a record's CRC matches its payload.
    pub fn validate<const N: usize>(record: &FlashRecord<N>) -> (b: bool)
        ensures
            b == (spec_crc16(record.data@) == record.crc),
    {
        crc16(record.data.as_slice()) == record.crc
    }
}

impl<const N: usize> FlashRecord<N> {
    /// The record stored in a half-word image of the record page.
    pub fn from_image(image: &[u16]) -> (r: Self)
        requires
            image@.len() == (crc_offset(N as int) + 2) / 2,
        ensures
            forall|j: int| 0 <= j < N ==> #[trigger] r.data@[j] == image_byte(image@, j),
            r.crc == image@[crc_offset(N as int) / 2],
    {
        let mut data: [u8; N] = array_fill_for_copy_types(0u8);
        let mut j: usize = 0;
        while j < N
            invariant
                image@.len() == (crc_offset(N as int) + 2) / 2,
                j <= N,
                data@.len() == N,
                forall|k: int| 0 <= k < j ==> #[trigger] data@[k] == image_byte(image@, k),
            decreases N - j,
        {
            let w = image[j / 2];
            let b = if j % 2 == 0 {
                (w & 0xFF) as u8
            } else {
                (w >> 8) as u8
            };
            data[j] = b;
            j += 1;
        }
        let crc = image[N / 2 + N % 2];
        FlashRecord { data, crc }
    }
}

/// The stored image decodes back to the record it was made from.
pub proof fn lemma_image_roundtrip(data: Seq<u8>, crc: u16)
    ensures
        record_image(data, crc).len() == (crc_offset(data.len() as int) + 2) / 2,
        forall|j: int| 0 <= j < data.len() ==> #[trigger] image_byte(record_image(data, crc), j) == data[j],
        record_image(data, crc)[crc_offset(data.len() as int) / 2] == crc,
{
    let bytes = record_bytes(data, crc);
    let image = record_image(data, crc);
    assert forall|j: int| 0 <= j < data.len() implies #[trigger] image_byte(image, j) == data[j] by {
        let w = image[j / 2];
        let lo = bytes[2 * (j / 2)];
        let hi = bytes[2 * (j / 2) + 1];
        assert(w == le_word(lo, hi));
        assert(lo_byte(le_word(lo, hi)) == lo && hi_byte(le_word(lo, hi)) == hi) by (bit_vector);
        if j % 2 == 0 {
            assert(2 * (j / 2) == j);
        } else {
            assert(2 * (j / 2) + 1 == j);
        }
    }
    let off = crc_offset(data.len() as int);
    assert(bytes[off] == lo_byte(crc) && bytes[off + 1] == hi_byte(crc));
    assert(le_word(lo_byte(crc), hi_byte(crc)) == crc) by (bit_vector);
}


/// Reading the page back gives what was written: the record decoded from the
/// image that `Flash::write` produced for `data` (as `FlashRecord::from_image`
/// decodes it) holds `data` and a matching CRC, so `Flash::read` returns
/// `Some(data)` and `Flash::validate` accepts it.
pub proof fn lemma_write_then_read<const N: usize>(data: [u8; N], r: FlashRecord<N>)
    requires
        forall|j: int|
            0 <= j < N ==> #[trigger] r.data@[j] == image_byte(
                record_image(data@, spec_crc16(data@)),
                j,
            ),
        r.crc == record_image(data@, spec_crc16(data@))[crc_offset(N as int) / 2],
    ensures
        r.data == data,
        r.crc == spec_crc16(data@),
        spec_crc16(r.data@) == r.crc,
{
    lemma_image_roundtrip(data@, spec_crc16(data@));
    broadcast use vstd::array::group_array_axioms;

    assert(r.data@ =~= data@);
    assert(r.data =~= data);
}

} // verus!
