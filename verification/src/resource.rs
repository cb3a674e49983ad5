//! The header words of a resource file: page flags, sizes and compression.

use flate2::read::DeflateDecoder;
use flate2::write::DeflateEncoder;
use flate2::Compression;
use std::io::{Read, Write};
use vstd::prelude::*;

verus! {

/// The first four bytes of a resource file, as a number.
pub const RSC7_MAGIC: u32 = 0x37435352;

// ---------------------------------------------------------------------------
// Page flags
// ---------------------------------------------------------------------------

/// The size of one page: 512 bytes, doubled as often as the lowest four bits
/// of the flags say.
pub open spec fn page_size(flags: u32) -> u64 {
    0x200u64 << ((flags & 0xF) as u64)
}

/// The number of pages that the flags count, in nine fields of growing weight.
pub open spec fn page_count(flags: u32) -> int {
    ((flags >> 27) & 0x1) + 2 * ((flags >> 26) & 0x1) + 4 * ((flags >> 25) & 0x1) + 8 * ((flags
        >> 24) & 0x1) + 16 * ((flags >> 17) & 0x7F) + 32 * ((flags >> 11) & 0x3F) + 64 * ((flags
        >> 7) & 0xF) + 128 * ((flags >> 5) & 0x3) + 256 * ((flags >> 4) & 0x1)
}

/// The bytes of the section that the flags describe.
pub open spec fn resource_size(flags: u32) -> nat {
    (page_size(flags) * page_count(flags)) as nat
}

/// Calls `rpf_archive::archive::resource_size_from_flags`, which multiplies
/// the page size by the number of pages. The product needs 37 bits, so the
/// call is left out where `usize` is narrower than 64.
#[verifier::external_body]
pub(crate) fn resource_size_from_flags(flags: u32) -> (res: usize)
    requires
        usize::MAX == u64::MAX,
    ensures
        res == resource_size(flags),
{
    rpf_archive::archive::resource_size_from_flags(flags)
}

/// The version of a resource: the highest four bits of the one word and of the
/// other.
pub open spec fn resource_version(sys_flags: u32, gfx_flags: u32) -> u32 {
    ((sys_flags >> 28) << 4) | (gfx_flags >> 28)
}

/// Calls `rpf_archive::archive::resource_version_from_flags`, which puts the
/// two version fields side by side.
#[verifier::external_body]
pub(crate) fn resource_version_from_flags(sys_flags: u32, gfx_flags: u32) -> (res: u32)
    ensures
        res == resource_version(sys_flags, gfx_flags),
{
    rpf_archive::archive::resource_version_from_flags(sys_flags, gfx_flags)
}

/// The bytes that sixteen pages hold, the page size being doubled `shift` times.
pub open spec fn page_unit(shift: u32) -> u64 {
    0x2000u64 << (shift as u64)
}

/// How many units of sixteen pages `size` bytes need.
pub open spec fn unit_count(size: nat, shift: u32) -> nat {
    let unit = page_unit(shift) as nat;
    if size % unit == 0 {
        size / unit
    } else {
        size / unit + 1
    }
}

/// The first page size, from `shift` on, at which 127 units hold `size` bytes.
pub open spec fn capacity_shift(size: nat, shift: u32) -> Option<u32>
    decreases 16 - shift,
{
    if shift > 15 {
        None
    } else if unit_count(size, shift) <= 127 {
        Some(shift)
    } else {
        capacity_shift(size, (shift + 1) as u32)
    }
}

/// The flags of a section that holds `size` bytes in units of sixteen pages;
/// those of an empty section where there are none, or too many.
pub open spec fn capacity_flags(size: nat, version_nibble: u32) -> u32 {
    if size == 0 {
        version_nibble << 28
    } else {
        match capacity_shift(size, 0) {
            Some(shift) => shift | ((unit_count(size, shift) as u32) << 17) | (version_nibble
                << 28),
            None => version_nibble << 28,
        }
    }
}

proof fn lemma_page_unit(shift: u32)
    requires
        shift <= 15,
    ensures
        0x2000 <= page_unit(shift) <= 0x1000_0000,
{
    let unit = page_unit(shift);
    assert(0x2000 <= unit <= 0x1000_0000) by (bit_vector)
        requires
            shift <= 15,
            unit == 0x2000u64 << (shift as u64),
    ;
}

/// The flags under which a section of `size` bytes is stored.
pub fn encode_capacity_flags(size: usize, version_nibble: u32) -> (res: u32)
    ensures
        res == capacity_flags(size as nat, version_nibble),
{
    if size == 0 {
        return version_nibble << 28;
    }
    let mut base_shift: u32 = 0;
    while base_shift <= 15
        invariant
            size > 0,
            base_shift <= 16,
            capacity_shift(size as nat, 0) == capacity_shift(size as nat, base_shift),
        decreases 16 - base_shift,
    {
        let unit: u64 = 0x2000u64 << (base_shift as u64);
        proof {
            lemma_page_unit(base_shift);
        }
        let whole: u64 = size as u64 / unit;
        proof {
            assert(whole < u64::MAX) by (nonlinear_arith)
                requires
                    whole == size as u64 / unit,
                    unit >= 2,
            ;
        }
        let count: u64 = if size as u64 % unit == 0 {
            whole
        } else {
            whole + 1
        };
        if count <= 127 {
            return base_shift | ((count as u32) << 17) | (version_nibble << 28);
        }
        base_shift = base_shift + 1;
    }
    version_nibble << 28
}

proof fn lemma_capacity_shift(size: nat, from: u32)
    ensures
        match capacity_shift(size, from) {
            Some(shift) => from <= shift <= 15 && unit_count(size, shift) <= 127,
            None => true,
        },
    decreases 16 - from,
{
    if from <= 15 && unit_count(size, from) > 127 {
        lemma_capacity_shift(size, (from + 1) as u32);
    }
}

proof fn lemma_flag_fields(shift: u32, count: u32, version_nibble: u32)
    requires
        shift <= 15,
        count <= 127,
    ensures
        ({
            let flags = shift | (count << 17) | (version_nibble << 28);
            &&& page_size(flags) * 16 == page_unit(shift)
            &&& page_count(flags) == 16 * count
            &&& flags >> 28 == version_nibble % 16
        }),
{
    let flags = shift | (count << 17) | (version_nibble << 28);
    assert((flags >> 27) & 0x1 == 0 && (flags >> 26) & 0x1 == 0 && (flags >> 25) & 0x1 == 0 && (
    flags >> 24) & 0x1 == 0 && (flags >> 17) & 0x7F == count && (flags >> 11) & 0x3F == 0 && (flags
        >> 7) & 0xF == 0 && (flags >> 5) & 0x3 == 0 && (flags >> 4) & 0x1 == 0 && flags & 0xF
        == shift && flags >> 28 == version_nibble % 16) by (bit_vector)
        requires
            shift <= 15,
            count <= 127,
            flags == shift | (count << 17) | (version_nibble << 28),
    ;
    assert((0x200u64 << (shift as u64)) * 16 == 0x2000u64 << (shift as u64)) by (bit_vector)
        requires
            shift <= 15,
    ;
}

/// Where a section can be described at all, its flags stand for a size that
/// holds every byte of it and less than one unit more, and they keep the lowest
/// four bits of the version.
pub proof fn law_capacity_holds(size: nat, version_nibble: u32)
    requires
        size <= 127 * 0x1000_0000,
    ensures
        ({
            let flags = capacity_flags(size, version_nibble);
            &&& size <= resource_size(flags)
            &&& resource_size(flags) < size + 0x1000_0000
            &&& flags >> 28 == version_nibble % 16
        }),
{
    lemma_flag_fields(0, 0, version_nibble);
    assert(0u32 | (0u32 << 17) | (version_nibble << 28) == version_nibble << 28) by (bit_vector);
    if size > 0 {
        assert(page_unit(15) == 0x1000_0000) by (bit_vector);
        lemma_largest_unit(size, 0);
        lemma_capacity_shift(size, 0);
        let shift = capacity_shift(size, 0).unwrap();
        let count = unit_count(size, shift);
        let unit = page_unit(shift) as nat;
        lemma_page_unit(shift);
        lemma_flag_fields(shift, count as u32, version_nibble);
        let flags = capacity_flags(size, version_nibble);
        let page = page_size(flags);
        assert(page * (16 * count) == unit * count) by (nonlinear_arith)
            requires
                page * 16 == unit,
        ;
        vstd::arithmetic::div_mod::lemma_fundamental_div_mod(size as int, unit as int);
        assert(size <= unit * count < size + unit) by (nonlinear_arith)
            requires
                size == unit * (size / unit) + size % unit,
                0 <= size % unit < unit,
                count == if size % unit == 0 {
                    size / unit
                } else {
                    size / unit + 1
                },
        ;
    }
}

proof fn lemma_first_shift(size: nat, from: u32, smaller: u32)
    requires
        from <= smaller,
        capacity_shift(size, from) matches Some(shift) && smaller < shift,
    ensures
        unit_count(size, smaller) > 127,
    decreases 16 - from,
{
    if from < smaller {
        lemma_first_shift(size, (from + 1) as u32, smaller);
    }
}

/// The pages that the flags of a section count.
pub proof fn lemma_capacity_fields(size: nat, version_nibble: u32, smaller: u32)
    requires
        0 < size <= 127 * 0x1000_0000,
    ensures
        ({
            let flags = capacity_flags(size, version_nibble);
            let sixteen = 16 * page_size(flags) as int;
            let count = page_count(flags) / 16;
            &&& page_count(flags) == 16 * count
            &&& 1 <= count <= 127
            &&& sixteen * (count - 1) < size <= sixteen * count
            &&& smaller < flags & 0xF ==> 127 * page_unit(smaller) < size
        }),
{
    lemma_largest_unit(size, 0);
    lemma_capacity_shift(size, 0);
    let shift = capacity_shift(size, 0).unwrap();
    let count = unit_count(size, shift);
    let unit = page_unit(shift) as nat;
    lemma_page_unit(shift);
    lemma_flag_fields(shift, count as u32, version_nibble);
    let flags = capacity_flags(size, version_nibble);
    assert(flags & 0xF == shift) by {
        let units = count as u32;
        assert((shift | (units << 17) | (version_nibble << 28)) & 0xF == shift) by (bit_vector)
            requires
                shift <= 15,
        ;
    }
    lemma_units_hold(size, unit, count);
    assert(count >= 1) by (nonlinear_arith)
        requires
            0 < size <= unit * count,
    ;
    if smaller < shift {
        lemma_first_shift(size, 0, smaller);
        lemma_page_unit(smaller);
        let small = page_unit(smaller) as nat;
        let needed = unit_count(size, smaller);
        lemma_units_hold(size, small, needed);
        assert(small * 127 <= small * (needed - 1)) by (nonlinear_arith)
            requires
                needed - 1 >= 127,
                small >= 0,
        ;
    }
}

proof fn lemma_units_hold(size: nat, unit: nat, count: nat)
    requires
        size > 0,
        unit > 0,
        count == if size % unit == 0 {
            size / unit
        } else {
            size / unit + 1
        },
    ensures
        unit * (count - 1) < size <= unit * count,
{
    vstd::arithmetic::div_mod::lemma_fundamental_div_mod(size as int, unit as int);
    assert(unit * (count - 1) < size <= unit * count) by (nonlinear_arith)
        requires
            size == unit * (size / unit) + size % unit,
            0 <= size % unit < unit,
            unit > 0,
            size > 0,
            count == if size % unit == 0 {
                size / unit
            } else {
                size / unit + 1
            },
    ;
}

proof fn lemma_largest_unit(size: nat, from: u32)
    requires
        from <= 15,
        size <= 127 * 0x1000_0000,
    ensures
        capacity_shift(size, from) is Some,
    decreases 16 - from,
{
    if unit_count(size, from) > 127 {
        if from == 15 {
            assert(page_unit(15) == 0x1000_0000) by (bit_vector);
            assert(unit_count(size, 15) <= 127) by (nonlinear_arith)
                requires
                    size <= 127 * 0x1000_0000,
                    unit_count(size, 15) == if size % 0x1000_0000 == 0 {
                        size / 0x1000_0000
                    } else {
                        size / 0x1000_0000 + 1
                    },
            ;
        } else {
            lemma_largest_unit(size, (from + 1) as u32);
        }
    }
}

// ---------------------------------------------------------------------------
// Compression
// ---------------------------------------------------------------------------

/// What a raw DEFLATE stream decompresses to, where it can be read to its end.
pub uninterp spec fn inflated(body: Seq<u8>) -> Option<Seq<u8>>;

/// The first `n` bytes that a raw DEFLATE stream decompresses to, where there
/// are that many to be had.
pub uninterp spec fn inflated_start(body: Seq<u8>, n: nat) -> Option<Seq<u8>>;

/// The raw DEFLATE stream that bytes compress to, or the message of the error.
pub uninterp spec fn deflated(body: Seq<u8>) -> Result<Seq<u8>, Seq<char>>;

/// Reads a `flate2::read::DeflateDecoder` over `body` to its end. The contract
/// claims that the result depends on `body` alone; what the stream means is
/// the format's own matter.
#[verifier::external_body]
pub(crate) fn inflate(body: &[u8]) -> (res: Option<Vec<u8>>)
    ensures
        match res {
            Some(out) => inflated(body@) == Some(out@),
            None => inflated(body@) is None,
        },
{
    let mut out = Vec::new();
    match DeflateDecoder::new(body).read_to_end(&mut out) {
        Ok(_) => Some(out),
        Err(_) => None,
    }
}

/// Reads exactly `n` bytes from a `flate2::read::DeflateDecoder` over `body`.
/// The contract claims that the result depends on the arguments alone, that
/// from a stream that can be read to its end these are its first bytes, and
/// that what the decoder gives from the first part of such a stream, taking it
/// in byte by byte, is what the whole stream starts with.
#[verifier::external_body]
pub(crate) fn inflate_start(body: &[u8], n: usize) -> (res: Option<Vec<u8>>)
    ensures
        match res {
            Some(out) => inflated_start(body@, n as nat) == Some(out@) && out@.len() == n,
            None => inflated_start(body@, n as nat) is None,
        },
        inflated(body@) is Some && n <= inflated(body@)->0.len() ==> res is Some && res->0@
            == inflated(body@)->0.take(n as int),
        forall|whole: Seq<u8>|
            res is Some && body@.is_prefix_of(whole) && (#[trigger] inflated(whole)) is Some ==> n
                <= inflated(whole)->0.len() && res->0@ == inflated(whole)->0.take(n as int),
{
    let mut out = vec![0u8; n];
    match DeflateDecoder::new(body).read_exact(&mut out) {
        Ok(_) => Some(out),
        Err(_) => None,
    }
}

/// Writes `body` to a `flate2::write::DeflateEncoder` at `Compression::fast()`
/// and finishes the stream. The contract claims that the result depends on
/// `body` alone, and that a stream so written decompresses to `body` again.
#[verifier::external_body]
pub(crate) fn deflate(body: &[u8]) -> (res: Result<Vec<u8>, String>)
    ensures
        match res {
            Ok(out) => deflated(body@) == Ok::<Seq<u8>, Seq<char>>(out@) && inflated(out@) == Some(
                body@,
            ),
            Err(message) => deflated(body@) == Err::<Seq<u8>, Seq<char>>(message@),
        },
{
    let mut encoder = DeflateEncoder::new(Vec::new(), Compression::fast());
    match encoder.write_all(body) {
        Ok(_) => match encoder.finish() {
            Ok(out) => Ok(out),
            Err(e) => Err(e.to_string()),
        },
        Err(e) => Err(e.to_string()),
    }
}

} // verus!
