use eup_resizer::resource::encode_capacity_flags;
use eup_resizer::texture_format::{
    format_unit_bytes, is_raw_format, is_resizable_format, TextureFormat,
};
use eup_resizer::ytd_io::{
    calc_pixel_data_size, check_header, compute_stride, count_textures, count_textures_start, graphics_total, parse,
    rebuild, resolve, string_at, texture_count, ParsedYtd, TexturePatch, YtdError,
};
use flate2::write::DeflateEncoder;
use flate2::Compression;
use rpf_archive::archive::{resource_size_from_flags, RSC7_MAGIC};
use rpf_archive::ytd::TextureFormat as Stored;
use std::io::Write;

const SYSTEM: u64 = 0x5000_0000;
const GRAPHICS: u64 = 0x6000_0000;

struct Sample {
    name: &'static str,
    width: u16,
    height: u16,
    stride: u16,
    format: u32,
    levels: u8,
    pixels: Vec<u8>,
}

fn poke(bytes: &mut [u8], off: usize, value: &[u8]) {
    bytes[off..off + value.len()].copy_from_slice(value);
}

/// A system section of 8192 bytes with a description for each texture, and the
/// graphics section that goes with it.
fn sections(samples: &[Sample]) -> (Vec<u8>, Vec<u8>) {
    let mut system = vec![0u8; 0x2000];
    let mut graphics = Vec::new();
    poke(&mut system, 0x20, &(SYSTEM + 0x100).to_le_bytes());
    poke(&mut system, 0x28, &(samples.len() as u16).to_le_bytes());
    poke(&mut system, 0x30, &(SYSTEM + 0x200).to_le_bytes());
    poke(&mut system, 0x38, &(samples.len() as u16).to_le_bytes());
    for (i, s) in samples.iter().enumerate() {
        let at = 0x400 + i * 0x90;
        let name = 0x1000 + i * 0x40;
        poke(&mut system, 0x100 + i * 4, &(1000 + i as u32).to_le_bytes());
        poke(&mut system, 0x200 + i * 8, &(SYSTEM + at as u64).to_le_bytes());
        poke(&mut system, at + 0x28, &(SYSTEM + name as u64).to_le_bytes());
        poke(&mut system, at + 0x50, &s.width.to_le_bytes());
        poke(&mut system, at + 0x52, &s.height.to_le_bytes());
        poke(&mut system, at + 0x54, &1u16.to_le_bytes());
        poke(&mut system, at + 0x56, &s.stride.to_le_bytes());
        poke(&mut system, at + 0x58, &s.format.to_le_bytes());
        system[at + 0x5D] = s.levels;
        poke(
            &mut system,
            at + 0x70,
            &(GRAPHICS + graphics.len() as u64).to_le_bytes(),
        );
        poke(&mut system, name, s.name.as_bytes());
        graphics.extend_from_slice(&s.pixels);
    }
    (system, graphics)
}

fn file_of(system: &[u8], graphics: &[u8], compress: bool) -> Vec<u8> {
    let sys_flags = encode_capacity_flags(system.len(), 1);
    let gfx_flags = encode_capacity_flags(graphics.len(), 3);
    let mut body = system.to_vec();
    body.extend_from_slice(graphics);
    body.resize(system.len() + resource_size_from_flags(gfx_flags), 0);
    if compress {
        let mut encoder = DeflateEncoder::new(Vec::new(), Compression::best());
        encoder.write_all(&body).unwrap();
        body = encoder.finish().unwrap();
    }
    let mut out = RSC7_MAGIC.to_le_bytes().to_vec();
    out.extend_from_slice(&0x13u32.to_le_bytes());
    out.extend_from_slice(&sys_flags.to_le_bytes());
    out.extend_from_slice(&gfx_flags.to_le_bytes());
    out.extend_from_slice(&body);
    out
}

fn samples() -> Vec<Sample> {
    vec![
        Sample {
            name: "first_diff",
            width: 8,
            height: 4,
            stride: 32,
            format: TextureFormat::A8R8G8B8.code(),
            levels: 1,
            pixels: (0..128u8).collect(),
        },
        Sample {
            name: "second",
            width: 4,
            height: 4,
            stride: 4,
            format: TextureFormat::L8.code(),
            levels: 2,
            pixels: (100..120u8).collect(),
        },
    ]
}

#[test]
fn format_codes_are_those_of_the_archive() {
    let all = [
        TextureFormat::A8R8G8B8,
        TextureFormat::X8R8G8B8,
        TextureFormat::A1R5G5B5,
        TextureFormat::A8,
        TextureFormat::A8B8G8R8,
        TextureFormat::L8,
        TextureFormat::DXT1,
        TextureFormat::DXT3,
        TextureFormat::DXT5,
        TextureFormat::ATI1,
        TextureFormat::ATI2,
        TextureFormat::BC7,
        TextureFormat::Unknown,
    ];
    for f in all {
        let stored = Stored::from_u32(f.code());
        assert_eq!(stored as u32, f.code());
        assert_eq!(stored.to_string(), f.name());
        assert_eq!(stored.is_block_compressed(), f.is_block_compressed());
        assert_eq!(TextureFormat::from_u32(f.code()), f);
        assert_eq!(is_resizable_format(f), f != TextureFormat::Unknown);
        assert_eq!(
            is_raw_format(f),
            is_resizable_format(f) && !f.is_block_compressed()
        );
    }
    assert_eq!(TextureFormat::from_u32(1234), TextureFormat::Unknown);
    assert_eq!(RSC7_MAGIC, eup_resizer::resource::RSC7_MAGIC);
}

#[test]
fn units_and_strides_follow_the_format() {
    assert_eq!(format_unit_bytes(TextureFormat::DXT1), 8);
    assert_eq!(format_unit_bytes(TextureFormat::BC7), 16);
    assert_eq!(format_unit_bytes(TextureFormat::A1R5G5B5), 2);
    assert_eq!(format_unit_bytes(TextureFormat::Unknown), 4);
    assert_eq!(compute_stride(64, TextureFormat::DXT1), 128);
    assert_eq!(compute_stride(5, TextureFormat::DXT5), 32);
    assert_eq!(compute_stride(0, TextureFormat::ATI1), 8);
    assert_eq!(compute_stride(100, TextureFormat::A8R8G8B8), 400);
    assert_eq!(compute_stride(65535, TextureFormat::A8R8G8B8), 65532);
}

#[test]
fn pixel_sizes_shrink_by_a_quarter_per_level() {
    assert_eq!(calc_pixel_data_size(32, 4, 1), 128);
    assert_eq!(calc_pixel_data_size(32, 4, 3), 128 + 32 + 8);
    assert_eq!(calc_pixel_data_size(32, 4, 0), 0);
    assert_eq!(calc_pixel_data_size(65535, 65535, 1), 65535 * 65535);
}

#[test]
fn addresses_lead_into_both_sections() {
    let system = [1u8, 2, 3, 0, 5];
    let graphics = [7u8, 8];
    assert_eq!(resolve(&system, &graphics, SYSTEM + 1, 2), Some(&[2u8, 3][..]));
    assert_eq!(resolve(&system, &graphics, GRAPHICS, 2), Some(&[7u8, 8][..]));
    assert_eq!(resolve(&system, &graphics, GRAPHICS + 1, 2), None);
    assert_eq!(resolve(&system, &graphics, 0, 0), None);
    assert_eq!(resolve(&system, &graphics, 1, 1), None);
    assert_eq!(resolve(&system, &graphics, u64::MAX, 5), None);
    assert_eq!(string_at(&system, SYSTEM).as_deref(), Some("\u{1}\u{2}\u{3}"));
    assert_eq!(string_at(&system, SYSTEM + 5).as_deref(), Some(""));
    assert_eq!(string_at(&system, SYSTEM + 6), None);
    assert_eq!(string_at(&system, GRAPHICS), None);
    assert_eq!(string_at(&[b'a', 0xff, 0], SYSTEM).as_deref(), Some("a\u{fffd}"));
}

#[test]
fn a_dictionary_is_read() {
    for compress in [true, false] {
        let (system, graphics) = sections(&samples());
        let file = file_of(&system, &graphics, compress);
        assert_eq!(count_textures(&file).unwrap(), 2);
        let parsed = parse(&file).unwrap();
        assert_eq!(parsed.textures.len(), 2);
        let t = &parsed.textures[0];
        assert_eq!(t.name, "first_diff");
        assert_eq!(t.name_hash, 1000);
        assert_eq!((t.width, t.height, t.depth), (8, 4, 1));
        assert_eq!(t.format, TextureFormat::A8R8G8B8);
        assert_eq!((t.levels, t.stride), (1, 32));
        assert_eq!(t.pixel_data, samples()[0].pixels);
        assert_eq!(parsed.textures[1].pixel_data, samples()[1].pixels);
        assert_eq!(parsed.textures[1].struct_offset, 0x490);
        assert_eq!(parsed.gfx_version_nibble, 3);
        assert_eq!(parsed.system, system);
    }
}

#[test]
fn textures_with_bad_addresses_are_left_out() {
    let (mut system, graphics) = sections(&samples());
    poke(&mut system, 0x200, &(SYSTEM + 0x1f80).to_le_bytes());
    let parsed = parse(&file_of(&system, &graphics, true)).unwrap();
    assert_eq!(parsed.textures.len(), 1);
    assert_eq!(parsed.textures[0].name, "second");
    assert_eq!(parsed.textures[0].name_hash, 1001);
    poke(&mut system, 0x208, &GRAPHICS.to_le_bytes());
    assert!(parse(&file_of(&system, &graphics, true)).unwrap().textures.is_empty());
}

#[test]
fn each_reading_error_is_reported() {
    let short = parse(&[1, 2, 3]).err().unwrap();
    assert!(matches!(short, YtdError::TooShort { len: 3 }));
    assert_eq!(short.message(), "YTD data too short (3 bytes)");
    assert!(matches!(count_textures(&[]), Err(YtdError::TooShort { len: 0 })));

    let wrong = parse(&[0xab; 16]).err().unwrap();
    assert!(matches!(wrong, YtdError::NotRsc7 { magic: 0xabababab }));
    assert_eq!(wrong.message(), "not an RSC7 file (magic = 0xABABABAB)");
    assert!(matches!(
        count_textures(&[0; 16]),
        Err(YtdError::NotRsc7 { magic: 0 })
    ));
    assert_eq!(
        check_header(&[0; 16]).unwrap().message(),
        "not an RSC7 file (magic = 0x00000000)"
    );

    let (system, graphics) = sections(&samples());
    let file = file_of(&system, &graphics, false);
    let cut = parse(&file[..16 + 100]).err().unwrap();
    assert_eq!(
        cut.message(),
        "decompressed size 100 smaller than declared system size 8192"
    );

    let mut tiny = RSC7_MAGIC.to_le_bytes().to_vec();
    tiny.extend_from_slice(&[0; 12]);
    let none = parse(&tiny).err().unwrap();
    assert_eq!(
        none.message(),
        "system section too small for a TextureDictionary (0 bytes)"
    );
    let uncounted = count_textures(&tiny).err().unwrap();
    assert!(matches!(uncounted, YtdError::HeaderTooSmall));
    assert_eq!(
        uncounted.message(),
        "system section too small for a TextureDictionary"
    );

    let (mut system, graphics) = sections(&samples());
    poke(&mut system, 0x30, &0x1234u64.to_le_bytes());
    let lost = parse(&file_of(&system, &graphics, true)).err().unwrap();
    assert_eq!(
        lost.message(),
        "texture pointer array out of bounds (va=0x1234)"
    );

    let parsed = parse(&file_of(&sections(&samples()).0, &graphics, true)).unwrap();
    let uneven = rebuild(parsed, &[None]).err().unwrap();
    assert_eq!(uneven.message(), "patch count 1 != texture count 2");

    let deflate = YtdError::Deflate {
        message: "broken".to_string(),
    };
    assert_eq!(deflate.message(), "broken");
    assert_eq!(YtdError::TooLarge.message(), "texture data too large");
}

#[test]
fn the_count_is_that_of_the_description() {
    let mut header = vec![0u8; 0x40];
    header[0x38] = 0x34;
    header[0x39] = 0x12;
    assert_eq!(texture_count(&header), 0x1234);
}

#[test]
fn capacities_hold_what_they_describe() {
    for size in [0usize, 1, 0x1fff, 0x2000, 0x2001, 127 * 0x2000, 127 * 0x2000 + 1, 50_000_000] {
        for nibble in [0u32, 5, 15] {
            let flags = encode_capacity_flags(size, nibble);
            let capacity = resource_size_from_flags(flags);
            assert!(size <= capacity, "{size}");
            assert!(capacity < size + 0x1000_0000);
            assert_eq!(flags >> 28, nibble);
        }
    }
    assert_eq!(encode_capacity_flags(0x2000, 2), (1 << 17) | (2 << 28));
    assert_eq!(encode_capacity_flags(128 * 0x2000, 0), 1 | (64 << 17));
    assert_eq!(encode_capacity_flags(128 * 0x1000_0000, 7), 7 << 28);
    assert_eq!(encode_capacity_flags(0x2000, 18), encode_capacity_flags(0x2000, 2));
    assert_eq!(encode_capacity_flags(0x2000, u32::MAX) >> 28, 15);
}

fn patch(width: u16, height: u16, pixels: Vec<u8>) -> TexturePatch {
    TexturePatch {
        width,
        height,
        format: TextureFormat::A8,
        levels: 1,
        pixel_data: pixels,
    }
}

#[test]
fn a_rebuilt_dictionary_is_read_back() {
    let (system, graphics) = sections(&samples());
    let parsed: ParsedYtd = parse(&file_of(&system, &graphics, true)).unwrap();
    let patches = vec![Some(patch(4, 2, vec![9, 8, 7, 6, 5, 4, 3, 2])), None];
    assert_eq!(graphics_total(&parsed, &patches), Some(8 + 20));
    let out = rebuild(parsed, &patches).unwrap();
    assert_eq!(count_textures(&out).unwrap(), 2);
    assert_eq!(out[..4], RSC7_MAGIC.to_le_bytes());
    assert_eq!(out[4..8], 0x13u32.to_le_bytes());

    let again = parse(&out).unwrap();
    assert_eq!(again.textures.len(), 2);
    let t = &again.textures[0];
    assert_eq!((t.width, t.height, t.stride, t.levels), (4, 2, 4, 1));
    assert_eq!(t.format, TextureFormat::A8);
    assert_eq!(t.name, "first_diff");
    assert_eq!(t.name_hash, 1000);
    assert_eq!(t.pixel_data, vec![9, 8, 7, 6, 5, 4, 3, 2]);
    let u = &again.textures[1];
    assert_eq!(u.format, TextureFormat::L8);
    assert_eq!(u.pixel_data, samples()[1].pixels);
    assert_eq!(again.gfx_version_nibble, 3);
    assert_eq!(again.system.len(), system.len());
}

#[test]
fn an_empty_graphics_section_is_written() {
    let (system, _) = sections(&[]);
    let parsed = parse(&file_of(&system, &[], true)).unwrap();
    assert!(parsed.textures.is_empty());
    let out = rebuild(parsed, &[]).unwrap();
    assert_eq!(out[12..16], (3u32 << 28).to_le_bytes());
    assert_eq!(parse(&out).unwrap().system, system);
}

#[test]
fn a_dictionary_without_patches_is_read_back_as_it_was() {
    let (system, graphics) = sections(&samples());
    let file = file_of(&system, &graphics, true);
    let first = parse(&file).unwrap();
    let out = rebuild(parse(&file).unwrap(), &[None, None]).unwrap();
    let again = parse(&out).unwrap();
    assert_eq!(again.textures.len(), first.textures.len());
    for (a, b) in first.textures.iter().zip(&again.textures) {
        assert_eq!((&a.name, a.name_hash), (&b.name, b.name_hash));
        assert_eq!((a.width, a.height, a.depth), (b.width, b.height, b.depth));
        assert_eq!((a.format, a.levels, a.stride), (b.format, b.levels, b.stride));
        assert_eq!(a.pixel_data, b.pixel_data);
    }
}

#[test]
fn textures_are_counted_from_the_first_bytes() {
    let (system, graphics) = sections(&samples());
    let file = file_of(&system, &graphics, true);
    assert_eq!(count_textures_start(&file), Some(2));
    assert_eq!(count_textures_start(&file[..file.len() - 1]), Some(2));
    assert_eq!(count_textures_start(&file[..17]), None);
    assert_eq!(count_textures_start(&file[..15]), None);
    assert_eq!(count_textures_start(&[0; 100]), None);
}

#[test]
fn what_the_first_bytes_say_of_the_count_is_so() {
    let (system, graphics) = sections(&samples());
    let file = file_of(&system, &graphics, true);
    let full = count_textures(&file).unwrap();
    let mut told = 0;
    for len in 0..file.len() + 1 {
        if let Some(quick) = count_textures_start(&file[..len]) {
            assert_eq!(quick, full);
            told += 1;
        }
    }
    assert!(told > 0);
}
