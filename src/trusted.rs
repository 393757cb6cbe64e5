//! Calls into the CRC and clock crates and into `str::to_lowercase`, with
//! the contracts this library relies on, and the NTP64 time arithmetic.

use crc::{Crc, CRC_64_ECMA_182};
use uhlc::NTP64;
use vstd::prelude::*;

verus! {

/// CRC-64/ECMA-182 checksum of a byte string.
pub uninterp spec fn crc64_ecma(bytes: Seq<u8>) -> u64;

/// RFC 3339 rendering, with nanoseconds, of an NTP64 time taken relative
/// to the UNIX epoch.
pub uninterp spec fn rfc3339_text(time: u64) -> Seq<u8>;

/// Nanoseconds since the UNIX epoch of an NTP64 time: the upper 32 bits
/// count seconds, the lower 32 bits a fraction of a second that is
/// rounded up to whole nanoseconds.
pub open spec fn ntp_nanos(time: u64) -> int {
    (time as int / 0x1_0000_0000) * 1_000_000_000 + ((time as int % 0x1_0000_0000)
        * 1_000_000_000 + 0xFFFF_FFFF) / 0x1_0000_0000
}

/// Relies on `crc::Crc::<u64>::checksum` under `CRC_64_ECMA_182`: the
/// result depends on the bytes alone, and since the algorithm's initial
/// value and final xor are both zero, the empty string checks to 0.
#[verifier::external_body]
pub(crate) fn crc64(bytes: &[u8]) -> (r: u64)
    ensures
        r == crc64_ecma(bytes@),
        bytes@.len() == 0 ==> r == 0,
{
    Crc::<u64>::new(&CRC_64_ECMA_182).checksum(bytes)
}

/// Nanoseconds since the UNIX epoch of an NTP64 time, as `ntp_nanos`
/// states it.
pub fn ntp64_nanos(time: u64) -> (r: u64)
    ensures
        r == ntp_nanos(time),
{
    let secs = time >> 32u64;
    let frac = time & 0xFFFF_FFFFu64;
    assert(secs == time / 0x1_0000_0000u64 && frac == time % 0x1_0000_0000u64 && secs <= 0xFFFF_FFFFu64
        && frac <= 0xFFFF_FFFFu64) by (bit_vector)
        requires
            secs == time >> 32u64,
            frac == time & 0xFFFF_FFFFu64,
    ;
    assert(frac * 1_000_000_000 + 0xFFFF_FFFF <= 0xFFFF_FFFF * 1_000_000_000 + 0xFFFF_FFFF) by (nonlinear_arith)
        requires
            frac <= 0xFFFF_FFFF,
    ;
    let sub = (frac * 1_000_000_000 + 0xFFFF_FFFF) / 0x1_0000_0000;
    assert(sub <= 1_000_000_000) by (nonlinear_arith)
        requires
            sub == (frac * 1_000_000_000 + 0xFFFF_FFFF) / 0x1_0000_0000,
            frac <= 0xFFFF_FFFF,
    ;
    assert(secs * 1_000_000_000 <= 0xFFFF_FFFF * 1_000_000_000) by (nonlinear_arith)
        requires
            secs <= 0xFFFF_FFFF,
    ;
    secs * 1_000_000_000 + sub
}

/// Relies on `uhlc::NTP64::to_string_rfc3339_lossy`: the text depends on
/// the time alone (it cannot fail, since an NTP64 time ends before 2107).
#[verifier::external_body]
pub(crate) fn rfc3339_bytes(time: u64) -> (r: Vec<u8>)
    ensures
        r@ == rfc3339_text(time),
{
    NTP64(time).to_string_rfc3339_lossy().into_bytes()
}

} // verus!

verus! {

/// Lower-case form of a string, by Unicode case folding.
pub uninterp spec fn lowercase_of(s: Seq<char>) -> Seq<char>;

/// Relies on `str::to_lowercase`: the result depends on the characters
/// alone.
#[verifier::external_body]
pub(crate) fn lowercase(s: &str) -> (r: String)
    ensures
        r@ == lowercase_of(s@),
{
    s.to_lowercase()
}

} // verus!
