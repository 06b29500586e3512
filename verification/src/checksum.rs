//! The `Checksum` trait and its implementations.
//!
//! A checksum travels on the wire as the low `SIZE` bytes, little-endian, of
//! the `u64` the trait works in; verification compares modulo that width.
use vstd::prelude::*;

use crate::error::Error;
use crate::wire::{le_bytes, le_value, push_le_bytes, read_le, spec_width_mask, width_mask};

verus! {

/// A checksum algorithm.
pub trait Checksum {
    /// Width in bytes of the checksum field on the wire (at most 8).
    const SIZE: usize;

    /// Whether this algorithm is specified by [`spec_calculate`](Checksum::spec_calculate).
    /// The algorithms of this library are; an implementation written outside
    /// verified code is not (`false`), and no clause that rests on
    /// `spec_calculate` is claimed for it.
    open spec fn obeys_checksum_spec(&self) -> bool {
        false
    }

    /// The checksum of `payload`, for an algorithm that obeys the
    /// specification; otherwise unspecified.
    open spec fn spec_calculate(&self, payload: Seq<u8>) -> u64 {
        arbitrary()
    }

    /// Calculates the checksum for the given payload.
    fn calculate(&self, payload: &[u8]) -> (r: u64)
        ensures
            self.obeys_checksum_spec() ==> r == self.spec_calculate(payload@),
    ;

    /// Verifies the checksum modulo the wire width: `Ok` exactly when the low
    /// `SIZE` bytes of the calculated and the expected value agree.
    fn verify(&self, expected: u64, payload: &[u8]) -> (r: Result<(), Error>)
        ensures
            self.obeys_checksum_spec() ==> (r is Ok <==> self.spec_calculate(payload@) & spec_width_mask(
                Self::SIZE as u64,
            ) == expected & spec_width_mask(Self::SIZE as u64)),
            self.obeys_checksum_spec() ==> (r matches Err(e) ==> e.is_checksum_mismatch(
                expected,
                self.spec_calculate(payload@),
            )),
    {
        let calculated = self.calculate(payload);
        let mask = width_mask(Self::SIZE);
        if calculated & mask == expected & mask {
            Ok(())
        } else {
            Err(Error::checksum_mismatch(expected, calculated))
        }
    }

    /// Stages the exact on-wire form of `value` in `out` (all eight
    /// little-endian bytes) and returns its first `SIZE` bytes: the field as
    /// it travels.
    fn write_bytes<'a>(&self, value: u64, out: &'a mut [u8; 8]) -> (r: &'a [u8])
        requires
            Self::SIZE <= 8,
        ensures
            r@ == le_bytes(value, Self::SIZE as nat),
    {
        let mut i: usize = 0;
        while i < 8
            invariant
                i <= 8,
                Self::SIZE <= 8,
                forall|k: int| 0 <= k < i ==> out@[k] == le_bytes(value, 8)[k],
            decreases 8 - i,
        {
            out[i] = ((value >> (8 * (i as u64))) & 0xff) as u8;
            i = i + 1;
        }
        let staged: &'a [u8] = out;
        let r = &staged[0..Self::SIZE];
        assert(r@ =~= le_bytes(value, Self::SIZE as nat));
        r
    }

    /// Parses the `SIZE`-byte little-endian wire field at the front of
    /// `bytes` back into a `u64`.
    fn read_bytes(&self, bytes: &[u8]) -> (r: u64)
        requires
            Self::SIZE <= 8,
            Self::SIZE <= bytes@.len(),
        ensures
            r == le_value(bytes@.take(Self::SIZE as int)),
    {
        let r = read_le(bytes, 0, Self::SIZE);
        assert(bytes@.subrange(0, Self::SIZE as int) =~= bytes@.take(Self::SIZE as int));
        r
    }
}

/// The XXH3 64-bit hash of `data`, as `xxhash_rust::xxh3::xxh3_64` computes it.
pub uninterp spec fn xxh3_64_of(data: Seq<u8>) -> u64;

/// The CRC-32/ISO-HDLC checksum of `data`, as `crc32fast::hash` computes it.
pub uninterp spec fn crc32_of(data: Seq<u8>) -> u32;

/// The CRC-16/XMODEM checksum of `data`, as `crc16::State::<XMODEM>::calculate` computes it.
pub uninterp spec fn crc16_xmodem_of(data: Seq<u8>) -> u16;

/// Calls `xxhash_rust::xxh3::xxh3_64`; its result is a function of the bytes alone.
#[verifier::external_body]
fn xxh3_64(data: &[u8]) -> (r: u64)
    ensures
        r == xxh3_64_of(data@),
{
    xxhash_rust::xxh3::xxh3_64(data)
}

/// Calls `crc32fast::hash`; its result is a function of the bytes alone.
#[verifier::external_body]
fn crc32_hash(data: &[u8]) -> (r: u32)
    ensures
        r == crc32_of(data@),
{
    crc32fast::hash(data)
}

/// Calls `crc16::State::<crc16::XMODEM>::calculate`; its result is a function of the bytes alone.
#[verifier::external_body]
fn crc16_xmodem(data: &[u8]) -> (r: u16)
    ensures
        r == crc16_xmodem_of(data@),
{
    crc16::State::<crc16::XMODEM>::calculate(data)
}

/// The XXH3 64-bit hash as an 8-byte checksum.
#[derive(Default, Clone, Copy)]
pub struct XxHash64;

impl XxHash64 {
    pub fn new() -> (r: Self) {
        XxHash64
    }
}

impl Checksum for XxHash64 {
    const SIZE: usize = 8;

    open spec fn obeys_checksum_spec(&self) -> bool {
        true
    }

    open spec fn spec_calculate(&self, payload: Seq<u8>) -> u64 {
        xxh3_64_of(payload)
    }

    fn calculate(&self, payload: &[u8]) -> (r: u64) {
        xxh3_64(payload)
    }
}

/// CRC-32 (ISO-HDLC, the zlib polynomial; not Castagnoli) as a 4-byte checksum.
#[derive(Default, Clone, Copy)]
pub struct Crc32;

impl Crc32 {
    pub fn new() -> (r: Self) {
        Crc32
    }
}

impl Checksum for Crc32 {
    const SIZE: usize = 4;

    open spec fn obeys_checksum_spec(&self) -> bool {
        true
    }

    open spec fn spec_calculate(&self, payload: Seq<u8>) -> u64 {
        crc32_of(payload) as u64
    }

    fn calculate(&self, payload: &[u8]) -> (r: u64) {
        crc32_hash(payload) as u64
    }
}

/// CRC-16/XMODEM (polynomial 0x1021, init 0) as a 2-byte checksum.
#[derive(Default, Clone, Copy)]
pub struct Crc16;

impl Crc16 {
    pub fn new() -> (r: Self) {
        Crc16
    }
}

impl Checksum for Crc16 {
    const SIZE: usize = 2;

    open spec fn obeys_checksum_spec(&self) -> bool {
        true
    }

    open spec fn spec_calculate(&self, payload: Seq<u8>) -> u64 {
        crc16_xmodem_of(payload) as u64
    }

    fn calculate(&self, payload: &[u8]) -> (r: u64) {
        crc16_xmodem(payload) as u64
    }
}

/// A checksum of width zero: nothing is written and verification always succeeds.
#[derive(Default, Clone, Copy)]
pub struct NoChecksum;

impl NoChecksum {
    pub fn new() -> (r: Self) {
        NoChecksum
    }
}

impl Checksum for NoChecksum {
    const SIZE: usize = 0;

    open spec fn obeys_checksum_spec(&self) -> bool {
        true
    }

    open spec fn spec_calculate(&self, payload: Seq<u8>) -> u64 {
        0
    }

    fn calculate(&self, _payload: &[u8]) -> (r: u64) {
        0
    }

    fn verify(&self, _expected: u64, _payload: &[u8]) -> (r: Result<(), Error>) {
        assert(0u64 & spec_width_mask(0) == _expected & spec_width_mask(0)) by (bit_vector);
        Ok(())
    }
}

/// A checksum field written by `write_bytes` reads back as the value
/// truncated to the field's width.
pub proof fn lemma_checksum_field_roundtrip<C: Checksum>(value: u64)
    requires
        C::SIZE <= 8,
    ensures
        le_value(le_bytes(value, C::SIZE as nat)) == value & spec_width_mask(C::SIZE as u64),
{
    crate::wire::lemma_le_roundtrip(value, C::SIZE as nat);
}

} // verus!
