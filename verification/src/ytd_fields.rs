//! What the bytes of a texture dictionary stand for, field by field.

use crate::bytes::{le_at, le_bytes, lemma_le_bytes_len, lemma_le_value_unfold};
use crate::resource::{
    capacity_flags, inflated, inflated_start, page_count, page_size, page_unit, resource_size,
};
use crate::text::{decimal, hex, hex_padded};
use crate::texture_format::{format_of_code, TextureFormat};
use crate::ytd_io::{
    counted, description_offset, file_header, fitted, graphics_of, graphics_upto, hash_at,
    hash_bytes, header_error, new_graphics, new_graphics_flags, parsed_model, pixel_size,
    pointer_bytes, rebuilt_body, resolved, stride_of, system_of, system_upto, texture_at,
    textures_in, unpacked, until_zero, utf8_lossy, PatchModel, TextureModel, YtdError, YtdModel,
};
use vstd::arithmetic::power::pow;
use vstd::prelude::*;

verus! {

/// The number in two bytes, the lower one first.
pub open spec fn two_bytes(s: Seq<u8>, off: int) -> int {
    s[off] + 0x100 * s[off + 1]
}

/// The number in four bytes, the lowest one first.
pub open spec fn four_bytes(s: Seq<u8>, off: int) -> int {
    two_bytes(s, off) + 0x1_0000 * two_bytes(s, off + 2)
}

/// The number in eight bytes, the lowest one first.
pub open spec fn eight_bytes(s: Seq<u8>, off: int) -> int {
    four_bytes(s, off) + 0x1_0000_0000 * four_bytes(s, off + 4)
}

proof fn lemma_numbers(s: Seq<u8>, off: int)
    requires
        0 <= off,
    ensures
        off + 2 <= s.len() ==> le_at(s, off, 2) == two_bytes(s, off) < 0x1_0000,
        off + 4 <= s.len() ==> le_at(s, off, 4) == four_bytes(s, off) < 0x1_0000_0000,
        off + 8 <= s.len() ==> le_at(s, off, 8) == eight_bytes(s, off) < 0x1_0000_0000_0000_0000,
{
    if off + 2 <= s.len() {
        lemma_le_value_unfold(s.subrange(off, off + 2));
    }
    if off + 4 <= s.len() {
        lemma_le_value_unfold(s.subrange(off, off + 4));
    }
    if off + 8 <= s.len() {
        lemma_le_value_unfold(s.subrange(off, off + 8));
    }
}

// ---------------------------------------------------------------------------
// Reading
// ---------------------------------------------------------------------------

/// Whether an address has the tag of the system section.
pub open spec fn is_system_address(va: u64) -> bool {
    va & 0x5000_0000 == 0x5000_0000 && va & 0x6000_0000 != 0x6000_0000
}

/// Whether an address has the tag of the graphics section.
pub open spec fn is_graphics_address(va: u64) -> bool {
    va & 0x6000_0000 == 0x6000_0000
}

/// A file is no resource file if it has less than sixteen bytes or does not
/// start with the letters `RSC7`.
pub proof fn law_resource_files_are_told(data: Seq<u8>)
    ensures
        header_error(data) is None <==> data.len() >= 16 && data[0] == 0x52 && data[1] == 0x53
            && data[2] == 0x43 && data[3] == 0x37,
        header_error(data) is Some ==> parsed_model(data) == Err::<YtdModel, YtdError>(
            header_error(data)->0,
        ) && counted(data) == Err::<usize, YtdError>(header_error(data)->0),
        data.len() < 16 ==> header_error(data) == Some(
            YtdError::TooShort { len: data.len() as usize },
        ),
        data.len() >= 16 && header_error(data) is Some ==> header_error(data) == Some(
            YtdError::NotRsc7 { magic: four_bytes(data, 0) as u32 },
        ),
{
    lemma_numbers(data, 0);
}

/// The two sections of a file: the system section comes first, and each one is
/// as long as its flags say, or as there are bytes. The version is in the
/// highest four bits of the second flags.
pub proof fn law_sections_are_parted(data: Seq<u8>)
    requires
        parsed_model(data) is Ok,
    ensures
        ({
            let model = parsed_model(data)->Ok_0;
            let all = unpacked(data.skip(16));
            let system = resource_size(four_bytes(data, 8) as u32) as int;
            let graphics = resource_size(four_bytes(data, 12) as u32) as int;
            &&& model.system == all.take(system)
            &&& 0x40 <= system <= all.len()
            &&& graphics_of(data) == all.subrange(
                system,
                if system + graphics < all.len() {
                    system + graphics
                } else {
                    all.len() as int
                },
            )
            &&& model.sys_flags == four_bytes(data, 8)
            &&& model.gfx_version_nibble == data[15] / 16
        }),
{
    law_resource_files_are_told(data);
    lemma_numbers(data, 8);
    lemma_numbers(data, 12);
    let flags = four_bytes(data, 12) as u32;
    assert(flags >> 28 == flags / 0x1000_0000) by (bit_vector);
    assert(flags / 0x1000_0000 == data[15] / 16);
}

/// A file that unpacks to nothing is taken as it is.
pub proof fn law_unpacked_files_are_taken(body: Seq<u8>)
    ensures
        unpacked(body) == if inflated(body) is Some && inflated(body)->0.len() > 0 {
            inflated(body)->0
        } else {
            body
        },
{
}

/// The places of a list of addresses whose description lies in the system
/// section as a whole, in their order.
pub open spec fn described_places(system: Seq<u8>, pointers: Seq<u8>, n: nat) -> Seq<int>
    decreases n,
{
    if n == 0 {
        Seq::empty()
    } else {
        let va = eight_bytes(pointers, 8 * (n - 1));
        described_places(system, pointers, (n - 1) as nat) + if is_system_address(va as u64) && va
            - 0x5000_0000 + 0x90 <= system.len() {
            seq![n - 1]
        } else {
            Seq::empty()
        }
    }
}

/// Whether a texture has the fields of the description at its offset.
pub open spec fn has_fields(
    system: Seq<u8>,
    graphics: Seq<u8>,
    hashes: Option<Seq<u8>>,
    i: int,
    t: TextureModel,
) -> bool {
    let off = t.struct_offset as int;
    let name = eight_bytes(system, off + 0x28);
    let pixels = eight_bytes(system, off + 0x70);
    let code = four_bytes(system, off + 0x58);
    let size = pixel_size(
        (two_bytes(system, off + 0x56) * two_bytes(system, off + 0x52)) as nat,
        system[off + 0x5D] as nat,
    ) as int;
    &&& t.width == two_bytes(system, off + 0x50)
    &&& t.height == two_bytes(system, off + 0x52)
    &&& t.depth == two_bytes(system, off + 0x54)
    &&& t.stride == two_bytes(system, off + 0x56)
    &&& t.levels == system[off + 0x5D]
    &&& t.format == format_of_code(code as u32)
    &&& t.name_hash == if hashes is Some && 4 * i + 4 <= hashes->0.len() {
        four_bytes(hashes->0, 4 * i)
    } else {
        0
    }
    &&& t.name == if is_system_address(name as u64) && name - 0x5000_0000 <= system.len() {
        utf8_lossy(until_zero(system.skip(name - 0x5000_0000)))
    } else {
        Seq::empty()
    }
    &&& t.pixel_data == if size > 0 && is_system_address(pixels as u64) && pixels - 0x5000_0000
        + size <= system.len() {
        system.subrange(pixels - 0x5000_0000, pixels - 0x5000_0000 + size)
    } else if size > 0 && is_graphics_address(pixels as u64) && pixels - 0x6000_0000 + size
        <= graphics.len() {
        graphics.subrange(pixels - 0x6000_0000, pixels - 0x6000_0000 + size)
    } else {
        Seq::empty()
    }
}

proof fn lemma_fields(
    system: Seq<u8>,
    graphics: Seq<u8>,
    hashes: Option<Seq<u8>>,
    i: int,
    off: int,
)
    requires
        0 <= i,
        0 <= off,
        off + 0x90 <= system.len(),
    ensures
        has_fields(
            system,
            graphics,
            hashes,
            i,
            texture_at(system, graphics, hash_at(hashes, i), off),
        ),
{
    lemma_numbers(system, off + 0x28);
    lemma_numbers(system, off + 0x50);
    lemma_numbers(system, off + 0x52);
    lemma_numbers(system, off + 0x54);
    lemma_numbers(system, off + 0x56);
    lemma_numbers(system, off + 0x58);
    lemma_numbers(system, off + 0x70);
    if hashes is Some {
        lemma_numbers(hashes->0, 4 * i);
    }
    let pixels = eight_bytes(system, off + 0x70) as u64;
    let size = pixel_size(
        (two_bytes(system, off + 0x56) * two_bytes(system, off + 0x52)) as nat,
        system[off + 0x5D] as nat,
    ) as int;
    assert(is_system_address(pixels) ==> !is_graphics_address(pixels));
}

proof fn lemma_textures(
    system: Seq<u8>,
    graphics: Seq<u8>,
    hashes: Option<Seq<u8>>,
    pointers: Seq<u8>,
    n: nat,
)
    requires
        8 * n <= pointers.len(),
    ensures
        ({
            let places = described_places(system, pointers, n);
            let textures = textures_in(system, graphics, hashes, pointers, n);
            &&& textures.len() == places.len()
            &&& forall|j: int|
                0 <= j < textures.len() ==> {
                    let t = #[trigger] textures[j];
                    let i = places[j];
                    &&& 0 <= i < n
                    &&& t.struct_offset == eight_bytes(pointers, 8 * i) - 0x5000_0000
                    &&& t.struct_offset + 0x90 <= system.len()
                    &&& has_fields(system, graphics, hashes, i, t)
                }
        }),
    decreases n,
{
    if n > 0 {
        let e = n - 1;
        lemma_textures(system, graphics, hashes, pointers, e as nat);
        lemma_numbers(pointers, 8 * e);
        let va = eight_bytes(pointers, 8 * e) as u64;
        crate::ytd_io::lemma_tags(va);
        let before = textures_in(system, graphics, hashes, pointers, e as nat);
        let places = described_places(system, pointers, n);
        let textures = textures_in(system, graphics, hashes, pointers, n);
        if let Some(off) = description_offset(system, va) {
            lemma_fields(system, graphics, hashes, e, off);
            assert forall|j: int| 0 <= j < textures.len() implies {
                let t = #[trigger] textures[j];
                let i = places[j];
                &&& 0 <= i < n
                &&& t.struct_offset == eight_bytes(pointers, 8 * i) - 0x5000_0000
                &&& t.struct_offset + 0x90 <= system.len()
                &&& has_fields(system, graphics, hashes, i, t)
            } by {
                if j < before.len() {
                    assert(textures[j] == before[j]);
                    assert(places[j] == described_places(system, pointers, e as nat)[j]);
                }
            }
        } else {
            assert(places =~= described_places(system, pointers, e as nat));
        }
    }
}

/// The textures of a dictionary are those whose addresses its list holds, in
/// the order of the list, and each has the fields of its description: the list
/// is counted at byte 0x38 and addressed at 0x30, the hashes at 0x28 and 0x20,
/// and the fields of a description stand at fixed places.
pub proof fn law_textures_are_described(data: Seq<u8>)
    requires
        parsed_model(data) is Ok,
    ensures
        ({
            let model = parsed_model(data)->Ok_0;
            let system = model.system;
            let graphics = graphics_of(data);
            let count = two_bytes(system, 0x38);
            let pointers = resolved(system, graphics, eight_bytes(system, 0x30) as u64, 8 * count);
            let hashes = if two_bytes(system, 0x28) > 0 {
                resolved(
                    system,
                    graphics,
                    eight_bytes(system, 0x20) as u64,
                    4 * two_bytes(system, 0x28),
                )
            } else {
                None
            };
            &&& count == 0 ==> model.textures.len() == 0
            &&& count > 0 ==> {
                let places = described_places(system, pointers->0, count as nat);
                &&& pointers is Some
                &&& model.textures.len() == places.len()
                &&& forall|j: int|
                    0 <= j < model.textures.len() ==> {
                        let t = #[trigger] model.textures[j];
                        &&& 0 <= places[j] < count
                        &&& t.struct_offset == eight_bytes(pointers->0, 8 * places[j]) - 0x5000_0000
                        &&& t.struct_offset + 0x90 <= system.len()
                        &&& has_fields(system, graphics, hashes, places[j], t)
                    }
            }
        }),
{
    law_sections_are_parted(data);
    let system = system_of(data);
    let graphics = graphics_of(data);
    lemma_numbers(system, 0x20);
    lemma_numbers(system, 0x28);
    lemma_numbers(system, 0x30);
    lemma_numbers(system, 0x38);
    let count = two_bytes(system, 0x38);
    if count > 0 {
        let pointers = pointer_bytes(system, graphics)->0;
        assert(pointers.len() == 8 * count) by {
            let va = eight_bytes(system, 0x30) as u64;
            crate::ytd_io::lemma_tags(va);
        }
        lemma_textures(
            system,
            graphics,
            hash_bytes(system, graphics),
            pointers,
            count as nat,
        );
    }
}

/// The bytes at an address are those of the section that it is tagged with, from
/// the place that it has beyond the tag, where the section has that many.
pub proof fn law_addresses_are_resolved(system: Seq<u8>, graphics: Seq<u8>, va: u64, len: int)
    requires
        0 <= len,
    ensures
        resolved(system, graphics, va, len) == if is_system_address(va) {
            if va - 0x5000_0000 + len <= system.len() {
                Some(system.subrange(va - 0x5000_0000, va - 0x5000_0000 + len))
            } else {
                None
            }
        } else if is_graphics_address(va) && va - 0x6000_0000 + len <= graphics.len() {
            Some(graphics.subrange(va - 0x6000_0000, va - 0x6000_0000 + len))
        } else {
            None
        },
{
}

/// A name ends in front of its first zero byte, or where the section ends.
pub proof fn law_names_end_at_zero(s: Seq<u8>)
    ensures
        ({
            let n = until_zero(s).len() as int;
            &&& n <= s.len()
            &&& until_zero(s) == s.take(n)
            &&& n < s.len() ==> s[n] == 0
            &&& forall|k: int| 0 <= k < n ==> s[k] != 0
        }),
    decreases s.len(),
{
    if s.len() > 0 && s[0] != 0 {
        let rest = s.drop_first();
        law_names_end_at_zero(rest);
        let m = until_zero(rest).len() as int;
        let n = until_zero(s).len() as int;
        assert(n == m + 1);
        assert(until_zero(s) =~= s.take(n)) by {
            assert forall|k: int| 0 <= k < n implies until_zero(s)[k] == s[k] by {
                if k > 0 {
                    assert(until_zero(rest)[k - 1] == rest.take(m)[k - 1]);
                }
            }
        }
        assert forall|k: int| 0 <= k < n implies s[k] != 0 by {
            if k > 0 {
                assert(rest[k - 1] != 0);
            }
        }
        if n < s.len() {
            assert(rest[m] == s[n]);
        }
    } else {
        assert(until_zero(s) =~= s.take(0));
    }
}

/// The sum of the first `n` levels, each a quarter of the one before.
pub open spec fn quarters(length: nat, n: nat) -> int
    decreases n,
{
    if n == 0 {
        0
    } else {
        quarters(length, (n - 1) as nat) + length as int / pow(4, (n - 1) as nat)
    }
}

proof fn lemma_quarters(length: nat, n: nat)
    ensures
        quarters(length, n + 1) == length + quarters(length / 4, n),
    decreases n,
{
    vstd::arithmetic::power::lemma_pow0(4);
    if n == 0 {
        reveal_with_fuel(quarters, 2);
        assert(length as int / 1 == length);
    } else {
        lemma_quarters(length, (n - 1) as nat);
        let p = pow(4, (n - 1) as nat);
        vstd::arithmetic::power::lemma_pow_positive(4, (n - 1) as nat);
        reveal(pow);
        assert(pow(4, n) == 4 * p);
        vstd::arithmetic::div_mod::lemma_div_denominator(length as int, 4, p);
        assert(length as int / (4 * p) == (length as int / 4) / p);
    }
}

/// The bytes of a texture's levels: those of the first, and a quarter as many
/// for each other one.
pub proof fn law_levels_are_quarters(length: nat, levels: nat)
    ensures
        pixel_size(length, levels) == quarters(length, levels),
    decreases levels,
{
    if levels > 0 {
        law_levels_are_quarters(length / 4, (levels - 1) as nat);
        lemma_quarters(length, (levels - 1) as nat);
    }
}

/// The bytes of a row: one, two or four for each texel, or eight or sixteen for
/// each block that is begun, of which there is at least one. They are cut to
/// sixteen bits.
pub proof fn law_rows_have_their_length(width: u16, format: TextureFormat)
    ensures
        stride_of(width, format) == (match format {
            TextureFormat::A8 | TextureFormat::L8 => width as int,
            TextureFormat::A1R5G5B5 => 2 * width,
            TextureFormat::DXT1 | TextureFormat::ATI1 => 8 * if width == 0 {
                1
            } else {
                (width + 3) / 4
            },
            TextureFormat::DXT3 | TextureFormat::DXT5 | TextureFormat::ATI2
            | TextureFormat::BC7 => 16 * if width == 0 {
                1
            } else {
                (width + 3) / 4
            },
            _ => 4 * width,
        }) % 0x1_0000,
{
}

/// The number of textures of a file stands at byte 0x38 of what it unpacks to.
pub proof fn law_count_is_read(data: Seq<u8>, count: usize, full: Seq<u8>)
    requires
        crate::ytd_io::is_count(data, Ok(count)),
        inflated(data.skip(16)) == Some(full),
        full.len() >= 0x40,
    ensures
        count == two_bytes(full, 0x38),
{
    lemma_numbers(full, 0x38);
}

// ---------------------------------------------------------------------------
// Writing
// ---------------------------------------------------------------------------

proof fn lemma_le_bytes(v: nat, n: nat)
    ensures
        n >= 2 ==> v < 0x1_0000 ==> two_bytes(le_bytes(v, n), 0) == v,
        n >= 4 ==> v < 0x1_0000_0000 ==> four_bytes(le_bytes(v, n), 0) == v,
        n >= 8 ==> v < 0x1_0000_0000_0000_0000 ==> eight_bytes(le_bytes(v, n), 0) == v,
{
    reveal_with_fuel(le_bytes, 9);
    lemma_le_bytes_len(v, n);
    if n >= 2 {
        assert(le_bytes(v, n)[0] == v % 256);
        assert(le_bytes(v, n)[1] == v / 256 % 256);
    }
    if n >= 4 {
        assert(le_bytes(v, n)[2] == v / 256 / 256 % 256);
        assert(le_bytes(v, n)[3] == v / 256 / 256 / 256 % 256);
    }
    if n >= 8 {
        let w = v / 256 / 256 / 256 / 256;
        assert(le_bytes(v, n)[4] == w % 256);
        assert(le_bytes(v, n)[5] == w / 256 % 256);
        assert(le_bytes(v, n)[6] == w / 256 / 256 % 256);
        assert(le_bytes(v, n)[7] == w / 256 / 256 / 256 % 256);
    }
}

/// The header of a written file: the letters `RSC7`, a version made of the
/// highest four bits of both flags, and the flags of both sections.
pub proof fn law_header_is_written(sys_flags: u32, gfx_flags: u32)
    ensures
        ({
            let header = file_header(sys_flags, gfx_flags);
            &&& header.len() == 16
            &&& header[0] == 0x52 && header[1] == 0x53 && header[2] == 0x43 && header[3] == 0x37
            &&& four_bytes(header, 4) == 16 * (sys_flags / 0x1000_0000) + gfx_flags / 0x1000_0000
            &&& four_bytes(header, 8) == sys_flags
            &&& four_bytes(header, 12) == gfx_flags
        }),
{
    let header = file_header(sys_flags, gfx_flags);
    let magic = crate::resource::RSC7_MAGIC as nat;
    let version = crate::resource::resource_version(sys_flags, gfx_flags);
    lemma_le_bytes_len(magic, 4);
    lemma_le_bytes_len(version as nat, 4);
    lemma_le_bytes_len(sys_flags as nat, 4);
    lemma_le_bytes_len(gfx_flags as nat, 4);
    lemma_le_bytes(version as nat, 4);
    lemma_le_bytes(sys_flags as nat, 4);
    lemma_le_bytes(gfx_flags as nat, 4);
    reveal_with_fuel(le_bytes, 5);
    assert(version == 16 * (sys_flags / 0x1000_0000) + gfx_flags / 0x1000_0000) by {
        assert((((sys_flags >> 28) << 4) | (gfx_flags >> 28)) == 16 * (sys_flags / 0x1000_0000)
            + gfx_flags / 0x1000_0000) by (bit_vector);
    }
    assert(header[4] == le_bytes(version as nat, 4)[0]);
    assert(header[5] == le_bytes(version as nat, 4)[1]);
    assert(header[6] == le_bytes(version as nat, 4)[2]);
    assert(header[7] == le_bytes(version as nat, 4)[3]);
    assert(header[8] == le_bytes(sys_flags as nat, 4)[0]);
    assert(header[9] == le_bytes(sys_flags as nat, 4)[1]);
    assert(header[10] == le_bytes(sys_flags as nat, 4)[2]);
    assert(header[11] == le_bytes(sys_flags as nat, 4)[3]);
    assert(header[12] == le_bytes(gfx_flags as nat, 4)[0]);
    assert(header[13] == le_bytes(gfx_flags as nat, 4)[1]);
    assert(header[14] == le_bytes(gfx_flags as nat, 4)[2]);
    assert(header[15] == le_bytes(gfx_flags as nat, 4)[3]);
}

/// Whether a byte is one of those that a patch, or the new address of the
/// pixels, replaces in the description at `off`.
pub open spec fn is_replaced(off: int, patched: bool, p: int) -> bool {
    ||| patched && (off + 0x50 <= p < off + 0x54 || off + 0x56 <= p < off + 0x5C || p == off + 0x5D)
    ||| off + 0x70 <= p < off + 0x78
}

/// Everything in the system section but the replaced fields of the textures'
/// descriptions is kept, byte for byte.
pub proof fn law_rest_is_kept(
    model: YtdModel,
    patches: Seq<Option<PatchModel>>,
    n: nat,
    p: int,
)
    requires
        n <= model.textures.len(),
        0 <= p < model.system.len(),
        forall|i: int|
            0 <= i < n ==> !is_replaced(
                (#[trigger] model.textures[i]).struct_offset as int,
                patches[i] is Some,
                p,
            ),
    ensures
        system_upto(model, patches, n).len() == model.system.len(),
        system_upto(model, patches, n)[p] == model.system[p],
    decreases n,
{
    if n > 0 {
        let i = n - 1;
        law_rest_is_kept(model, patches, i as nat, p);
        let t = model.textures[i];
        assert(!is_replaced(t.struct_offset as int, patches[i] is Some, p));
        let start = graphics_upto(model.textures, patches, i as nat).len();
        lemma_le_bytes_len((crate::ytd_io::GRAPHICS_TAG + start) as nat, 8);
        if let Some(q) = patches[i] {
            lemma_le_bytes_len(q.width as nat, 2);
            lemma_le_bytes_len(q.height as nat, 2);
            lemma_le_bytes_len(stride_of(q.width, q.format) as nat, 2);
            lemma_le_bytes_len(q.format.spec_code() as nat, 4);
        }
    }
}

/// The pixels of all textures follow each other in their order, the patched ones
/// with those of the patch, and nothing stands between them.
pub proof fn law_pixels_follow_each_other(
    textures: Seq<TextureModel>,
    patches: Seq<Option<PatchModel>>,
    j: int,
)
    requires
        0 <= j < textures.len(),
        patches.len() == textures.len(),
    ensures
        ({
            let start = graphics_upto(textures, patches, j as nat).len() as int;
            let pixels = match patches[j] {
                Some(p) => p.pixel_data,
                None => textures[j].pixel_data,
            };
            let all = graphics_upto(textures, patches, textures.len());
            &&& graphics_upto(textures, patches, (j + 1) as nat).len() == start + pixels.len()
            &&& start + pixels.len() <= all.len()
            &&& all.subrange(start, start + pixels.len()) == pixels
            &&& graphics_upto(textures, patches, 0).len() == 0
        }),
{
    let n = textures.len();
    let start = graphics_upto(textures, patches, j as nat).len() as int;
    let next = graphics_upto(textures, patches, (j + 1) as nat);
    let all = graphics_upto(textures, patches, n);
    let pixels = match patches[j] {
        Some(p) => p.pixel_data,
        None => textures[j].pixel_data,
    };
    assert(next == graphics_upto(textures, patches, j as nat) + pixels);
    crate::ytd_io::lemma_graphics_grow(textures, patches, (j + 1) as nat, n);
    assert(all.subrange(start, start + pixels.len()) =~= pixels) by {
        assert forall|k: int| 0 <= k < pixels.len() implies all[start + k] == pixels[k] by {
            assert(all.take(next.len() as int)[start + k] == next[start + k]);
        }
    }
}

/// The pixels are filled up with zeros, and none is lost, as long as flags can
/// count them. A rebuilt file has the system section first.
pub proof fn law_sections_are_joined(model: YtdModel, patches: Seq<Option<PatchModel>>)
    requires
        new_graphics(model, patches).len() <= 127 * 0x1000_0000,
    ensures
        ({
            let system = system_upto(model, patches, model.textures.len());
            let graphics = graphics_upto(model.textures, patches, model.textures.len());
            let flags = capacity_flags(graphics.len(), model.gfx_version_nibble);
            let body = rebuilt_body(model, patches);
            &&& new_graphics_flags(model, patches) == flags
            &&& graphics.len() <= resource_size(flags)
            &&& body.len() == system.len() + resource_size(flags)
            &&& body.take(system.len() as int) == system
            &&& body.subrange(system.len() as int, (system.len() + graphics.len()) as int)
                == graphics
            &&& forall|k: int|
                system.len() + graphics.len() <= k < body.len() ==> #[trigger] body[k] == 0
        }),
{
    let system = system_upto(model, patches, model.textures.len());
    let graphics = graphics_upto(model.textures, patches, model.textures.len());
    let flags = capacity_flags(graphics.len(), model.gfx_version_nibble);
    crate::resource::law_capacity_holds(graphics.len(), model.gfx_version_nibble);
    let body = rebuilt_body(model, patches);
    let filled = fitted(graphics, resource_size(flags));
    assert(body == system + filled);
    assert(filled.len() == resource_size(flags)) by {
        if resource_size(flags) == graphics.len() {
            assert(filled =~= graphics);
        }
    }
    assert(body.take(system.len() as int) =~= system);
    assert(body.subrange(system.len() as int, (system.len() + graphics.len()) as int) =~= graphics)
        by {
        if resource_size(flags) == graphics.len() {
            assert(filled =~= graphics);
        }
    }
}

/// The flags of a section take the smallest pages of which 127 times sixteen
/// hold it, and no more sixteens of them than it needs.
pub proof fn law_smallest_pages_are_taken(size: nat, version_nibble: u32, smaller: u32)
    requires
        0 < size <= 127 * 0x1000_0000,
    ensures
        ({
            let flags = capacity_flags(size, version_nibble);
            let sixteen = 16 * page_size(flags) as int;
            let count = page_count(flags) / 16;
            &&& page_count(flags) == 16 * count
            &&& 1 <= count <= 127
            &&& sixteen * (count - 1) < size <= sixteen * count
            &&& smaller < flags & 0xF ==> 127 * page_unit(smaller) < size
        }),
{
    crate::resource::lemma_capacity_fields(size, version_nibble, smaller);
}

/// A resource file is read unless it unpacks to less than its system section,
/// that is too small for the dictionary's own description, or the list of
/// addresses does not lie in a section.
pub proof fn law_readable_files(data: Seq<u8>)
    requires
        header_error(data) is None,
    ensures
        ({
            let all = unpacked(data.skip(16));
            let size = resource_size(four_bytes(data, 8) as u32);
            let system = all.take(size as int);
            let va = eight_bytes(system, 0x30) as u64;
            let count = two_bytes(system, 0x38);
            let listed = resolved(system, graphics_of(data), va, 8 * count) is Some;
            &&& all.len() < size ==> parsed_model(data) == Err::<YtdModel, YtdError>(
                YtdError::SystemTruncated { len: all.len() as usize, sys_size: size as usize },
            )
            &&& all.len() >= size && size < 0x40 ==> parsed_model(data) == Err::<
                YtdModel,
                YtdError,
            >(YtdError::SystemTooSmall { len: size as usize })
            &&& all.len() >= size && size >= 0x40 && count > 0 && !listed ==> parsed_model(data)
                == Err::<YtdModel, YtdError>(YtdError::PointerArray { va })
            &&& all.len() >= size && size >= 0x40 && (count == 0 || listed) ==> parsed_model(data)
                is Ok
        }),
{
    law_resource_files_are_told(data);
    lemma_numbers(data, 8);
    let all = unpacked(data.skip(16));
    let size = resource_size(four_bytes(data, 8) as u32);
    if all.len() >= size && size >= 0x40 {
        let system = system_of(data);
        lemma_numbers(system, 0x30);
        lemma_numbers(system, 0x38);
    }
}

/// The number of textures is read from the dictionary's own description as it is
/// unpacked, or as it stands in the file where that cannot be unpacked; without
/// one the file cannot be counted.
pub proof fn law_counts_are_read(data: Seq<u8>)
    requires
        header_error(data) is None,
    ensures
        ({
            let body = data.skip(16);
            match inflated_start(body, 0x40) {
                Some(header) => header.len() == 0x40 ==> counted(data) == Ok::<usize, YtdError>(
                    two_bytes(header, 0x38) as usize,
                ),
                None => counted(data) == if body.len() < 0x40 {
                    Err::<usize, YtdError>(YtdError::HeaderTooSmall)
                } else {
                    Ok::<usize, YtdError>(two_bytes(body, 0x38) as usize)
                },
            }
        }),
{
    let body = data.skip(16);
    match inflated_start(body, 0x40) {
        Some(header) => {
            lemma_numbers(header, 0x38);
        },
        None => {
            if body.len() >= 0x40 {
                let header = body.take(0x40);
                lemma_numbers(header, 0x38);
                assert(header[0x38] == body[0x38] && header[0x39] == body[0x39]);
            }
        },
    }
}

/// What is said of a file that cannot be read or written.
pub proof fn law_errors_are_told(
    len: usize,
    magic: u32,
    size: usize,
    va: u64,
    patches: usize,
    textures: usize,
)
    ensures
        (YtdError::TooShort { len }).spec_message() == "YTD data too short ("@ + decimal(len as nat)
            + " bytes)"@,
        (YtdError::NotRsc7 { magic }).spec_message() == "not an RSC7 file (magic = 0x"@
            + hex_padded(magic as nat, 8) + ")"@,
        YtdError::HeaderTooSmall.spec_message()
            == "system section too small for a TextureDictionary"@,
        (YtdError::SystemTruncated { len, sys_size: size }).spec_message()
            == "decompressed size "@ + decimal(len as nat)
            + " smaller than declared system size "@ + decimal(size as nat),
        (YtdError::SystemTooSmall { len }).spec_message()
            == "system section too small for a TextureDictionary ("@ + decimal(len as nat)
            + " bytes)"@,
        (YtdError::PointerArray { va }).spec_message()
            == "texture pointer array out of bounds (va=0x"@ + hex(va as nat) + ")"@,
        (YtdError::PatchCount { patches, textures }).spec_message() == "patch count "@ + decimal(
            patches as nat,
        ) + " != texture count "@ + decimal(textures as nat),
{
}

} // verus!
