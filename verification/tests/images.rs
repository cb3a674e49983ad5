use eup_resizer::codec::{
    any_alpha, bgra_u32_to_rgba_bytes, build_mip_chain, can_encode, choose_effort,
    decode_level, encode_level, next_level, Bc7Effort,
};
use eup_resizer::pixels::{decode_raw, encode_raw, PixelError, RgbaImage};
use eup_resizer::settings::Quality;
use eup_resizer::texture_format::TextureFormat;

fn solid(width: u32, height: u32, texel: [u8; 4]) -> RgbaImage {
    RgbaImage {
        width,
        height,
        data: texel.repeat((width * height) as usize),
    }
}

#[test]
fn texels_are_decoded_channel_by_channel() {
    let argb = decode_raw(TextureFormat::A8R8G8B8, 1, 1, &[1, 2, 3, 4]).unwrap();
    assert_eq!(argb.data, vec![3, 2, 1, 4]);
    let xrgb = decode_raw(TextureFormat::X8R8G8B8, 1, 1, &[1, 2, 3, 4]).unwrap();
    assert_eq!(xrgb.data, vec![3, 2, 1, 255]);
    let abgr = decode_raw(TextureFormat::A8B8G8R8, 1, 1, &[1, 2, 3, 4]).unwrap();
    assert_eq!(abgr.data, vec![1, 2, 3, 4]);
    let word = (1u16 << 15) | (31 << 10) | (16 << 5) | 1;
    let bits = decode_raw(TextureFormat::A1R5G5B5, 1, 1, &word.to_le_bytes()).unwrap();
    assert_eq!(bits.data, vec![255, 132, 8, 255]);
    let clear = decode_raw(TextureFormat::A1R5G5B5, 1, 1, &[0, 0]).unwrap();
    assert_eq!(clear.data, vec![0, 0, 0, 0]);
    let alpha = decode_raw(TextureFormat::A8, 2, 1, &[7, 9]).unwrap();
    assert_eq!(alpha.data, vec![255, 255, 255, 7, 255, 255, 255, 9]);
    let grey = decode_raw(TextureFormat::L8, 1, 2, &[7, 9]).unwrap();
    assert_eq!(grey.data, vec![7, 7, 7, 255, 9, 9, 9, 255]);
    assert_eq!((grey.width, grey.height), (1, 2));
}

#[test]
fn decoding_errors_are_reported() {
    let short = decode_raw(TextureFormat::A8R8G8B8, 2, 3, &[0; 23]).unwrap_err();
    assert!(matches!(
        short,
        PixelError::TooShort {
            width: 2,
            height: 3,
            ..
        }
    ));
    assert_eq!(
        short.message(),
        "pixel data too short for A8R8G8B8 at 2x3"
    );
    let raw = decode_raw(TextureFormat::DXT1, 1, 1, &[0; 8]).unwrap_err();
    assert_eq!(raw.message(), "no decoder for DXT1");
    let unknown = decode_level(TextureFormat::Unknown, 4, 4, &[0; 64]).unwrap_err();
    assert!(matches!(unknown, PixelError::NoDecoder { .. }));
    assert_eq!(unknown.message(), "no decoder for Unknown");
    let cut = decode_level(TextureFormat::BC7, 8, 4, &[0; 31]).unwrap_err();
    assert!(matches!(cut, PixelError::Decode { .. }));
    assert_eq!(
        cut.message(),
        "decode failed: Not enough data to decode image!"
    );
    let image = solid(4, 4, [1, 2, 3, 4]);
    let no = encode_level(TextureFormat::Unknown, &image, Quality::Fast).unwrap_err();
    assert!(matches!(no, PixelError::NoEncoder { .. }));
    assert_eq!(no.message(), "no encoder for Unknown");
    assert_eq!(
        encode_raw(TextureFormat::BC7, &image).unwrap_err().message(),
        "no encoder for BC7"
    );
}

#[test]
fn raw_texels_are_stored_again_as_they_were() {
    let bytes: Vec<u8> = (0..64u8).map(|b| b.wrapping_mul(37)).collect();
    for (format, unit) in [
        (TextureFormat::A8R8G8B8, 4usize),
        (TextureFormat::A8B8G8R8, 4),
        (TextureFormat::A1R5G5B5, 2),
        (TextureFormat::A8, 1),
        (TextureFormat::L8, 1),
    ] {
        let count = bytes.len() / unit;
        let image = decode_raw(format, count as u16, 1, &bytes).unwrap();
        assert_eq!(encode_raw(format, &image).unwrap(), bytes);
    }
    let image = decode_raw(TextureFormat::X8R8G8B8, 1, 1, &[1, 2, 3, 4]).unwrap();
    assert_eq!(
        encode_raw(TextureFormat::X8R8G8B8, &image).unwrap(),
        vec![1, 2, 3, 255]
    );
}

#[test]
fn pixels_are_taken_apart() {
    assert_eq!(
        bgra_u32_to_rgba_bytes(&[0x44332211, 0x00000001]),
        vec![0x33, 0x22, 0x11, 0x44, 0, 0, 1, 0]
    );
}

fn first_texel(format: TextureFormat, block: &[u8]) -> Vec<u8> {
    let image = decode_level(format, 4, 4, block).unwrap();
    assert_eq!(image.data.len(), 64);
    image.data[..4].to_vec()
}

#[test]
fn blocks_are_decoded() {
    let red = [0x00, 0xf8, 0x1f, 0x00, 0, 0, 0, 0];
    assert_eq!(first_texel(TextureFormat::DXT1, &red), vec![255, 0, 0, 255]);
    let mut sharp = vec![0x77u8; 8];
    sharp.extend_from_slice(&red);
    assert_eq!(first_texel(TextureFormat::DXT3, &sharp), vec![255, 0, 0, 0x77]);
    let mut smooth = vec![200u8, 100, 0, 0, 0, 0, 0, 0];
    smooth.extend_from_slice(&red);
    assert_eq!(first_texel(TextureFormat::DXT5, &smooth), vec![255, 0, 0, 200]);
    let grey = [150u8, 100, 0, 0, 0, 0, 0, 0];
    assert_eq!(first_texel(TextureFormat::ATI1, &grey)[0], 150);
    let mut two = grey.to_vec();
    two.extend_from_slice(&[90, 10, 0, 0, 0, 0, 0, 0]);
    assert_eq!(first_texel(TextureFormat::ATI2, &two)[..2], [150, 90]);
    let mut reserved = [0u8; 16];
    assert_eq!(first_texel(TextureFormat::BC7, &reserved), vec![0, 0, 0, 0]);
    reserved[0] = 0x40;
    assert_eq!(first_texel(TextureFormat::BC7, &reserved), vec![0, 0, 0, 0]);
}

fn near(a: &[u8], b: &[u8]) -> bool {
    a.iter().zip(b).all(|(x, y)| x.abs_diff(*y) <= 8)
}

#[test]
fn blocks_of_one_colour_are_encoded() {
    let opaque = solid(8, 8, [200, 100, 40, 255]);
    let sheer = solid(8, 8, [200, 100, 40, 136]);
    for quality in [Quality::Fast, Quality::Medium, Quality::Slow] {
        for (format, image, unit) in [
            (TextureFormat::DXT1, &opaque, 8usize),
            (TextureFormat::DXT3, &sheer, 16),
            (TextureFormat::DXT5, &sheer, 16),
            (TextureFormat::BC7, &opaque, 16),
            (TextureFormat::BC7, &sheer, 16),
        ] {
            let bytes = encode_level(format, image, quality).unwrap();
            assert_eq!(bytes.len(), 4 * unit);
            let back = decode_level(format, 8, 8, &bytes).unwrap();
            assert!(near(&back.data, &image.data), "{format:?} {quality:?}");
        }
    }
    let grey = solid(8, 8, [77, 77, 77, 77]);
    let one = encode_level(TextureFormat::ATI1, &grey, Quality::Fast).unwrap();
    assert_eq!(one.len(), 32);
    let back = decode_level(TextureFormat::ATI1, 8, 8, &one).unwrap();
    assert!(near(&back.data[..1], &[77]));
    let two = encode_level(TextureFormat::ATI2, &grey, Quality::Fast).unwrap();
    assert_eq!(two.len(), 64);
    let back = decode_level(TextureFormat::ATI2, 8, 8, &two).unwrap();
    assert!(near(&back.data[..2], &[77, 77]));
}

#[test]
fn encoders_take_sizes_that_are_no_multiples_of_four() {
    let image = solid(6, 6, [1, 2, 3, 255]);
    assert_eq!(
        encode_level(TextureFormat::DXT1, &image, Quality::Fast).unwrap().len(),
        3 * 8
    );
    assert_eq!(
        encode_level(TextureFormat::DXT3, &image, Quality::Fast).unwrap().len(),
        4 * 16
    );
    let flat = solid(0, 5, [0; 4]);
    assert!(encode_level(TextureFormat::BC7, &flat, Quality::Fast).unwrap().is_empty());
}

#[test]
fn encoders_are_chosen_by_quality_and_alpha() {
    assert_eq!(choose_effort(Quality::Fast, true), Bc7Effort::AlphaVeryFast);
    assert_eq!(choose_effort(Quality::Fast, false), Bc7Effort::OpaqueVeryFast);
    assert_eq!(choose_effort(Quality::Medium, true), Bc7Effort::AlphaBasic);
    assert_eq!(choose_effort(Quality::Medium, false), Bc7Effort::OpaqueBasic);
    assert_eq!(choose_effort(Quality::Slow, true), Bc7Effort::AlphaSlow);
    assert_eq!(choose_effort(Quality::Slow, false), Bc7Effort::OpaqueSlow);
    let mut image = solid(3, 3, [9, 9, 9, 255]);
    assert!(!any_alpha(&image));
    image.data[35] = 254;
    assert!(any_alpha(&image));
}

#[test]
fn levels_halve_down_to_four() {
    assert_eq!(next_level(16, 64, 1, 255), Some((8, 32)));
    assert_eq!(next_level(6, 64, 2, 255), Some((4, 32)));
    assert_eq!(next_level(4, 64, 3, 255), None);
    assert_eq!(next_level(16, 64, 3, 3), None);
}

#[test]
fn a_chain_holds_all_its_levels() {
    let (bytes, levels) = build_mip_chain(
        solid(16, 16, [10, 20, 30, 255]),
        TextureFormat::A8R8G8B8,
        Quality::Fast,
        255,
    )
    .unwrap();
    assert_eq!(levels, 3);
    assert_eq!(bytes.len(), 4 * (256 + 64 + 16));
    assert_eq!(bytes[..4], [30, 20, 10, 255]);
    assert_eq!(bytes[4 * 256..4 * 256 + 4], [30, 20, 10, 255]);

    let (bytes, levels) = build_mip_chain(
        solid(16, 16, [10, 20, 30, 255]),
        TextureFormat::DXT1,
        Quality::Fast,
        2,
    )
    .unwrap();
    assert_eq!((bytes.len(), levels), (16 * 8 + 4 * 8, 2));

    let (_, levels) = build_mip_chain(
        solid(16, 16, [10, 20, 30, 255]),
        TextureFormat::L8,
        Quality::Fast,
        0,
    )
    .unwrap();
    assert_eq!(levels, 1);

    let refused = build_mip_chain(
        solid(4, 4, [0; 4]),
        TextureFormat::Unknown,
        Quality::Fast,
        1,
    );
    assert_eq!(refused.unwrap_err().message(), "no encoder for Unknown");
}

#[test]
fn encoders_have_limits() {
    assert!(can_encode(TextureFormat::BC7, 16384, 16384));
    assert!(can_encode(TextureFormat::BC7, 32768, 16384));
    assert!(!can_encode(TextureFormat::BC7, 32768, 16388));
    assert!(!can_encode(TextureFormat::DXT1, 65532, 65532));
    assert!(can_encode(TextureFormat::L8, 65532, 65532));
    assert!(can_encode(TextureFormat::DXT3, 65532, 65532));
    assert!(!can_encode(TextureFormat::DXT3, 0, 4));
    assert!(can_encode(TextureFormat::BC7, 0, 4));
}

#[test]
fn quality_only_matters_to_bc7() {
    let data: Vec<u8> = (0..1024u32).map(|i| (i * i / 7 % 251) as u8).collect();
    let image = RgbaImage {
        width: 16,
        height: 16,
        data,
    };
    for format in [
        TextureFormat::DXT1,
        TextureFormat::DXT3,
        TextureFormat::DXT5,
        TextureFormat::ATI1,
        TextureFormat::ATI2,
        TextureFormat::A1R5G5B5,
    ] {
        let fast = encode_level(format, &image, Quality::Fast).unwrap();
        let medium = encode_level(format, &image, Quality::Medium).unwrap();
        let slow = encode_level(format, &image, Quality::Slow).unwrap();
        assert_eq!(fast, medium);
        assert_eq!(fast, slow);
    }
}

#[test]
fn decoders_take_any_blocks() {
    let mut state = 1u32;
    let data: Vec<u8> = (0..64 * 64 * 16)
        .map(|_| {
            state = state.wrapping_mul(1664525).wrapping_add(1013904223);
            (state >> 24) as u8
        })
        .collect();
    for format in [
        TextureFormat::DXT1,
        TextureFormat::DXT3,
        TextureFormat::DXT5,
        TextureFormat::ATI1,
        TextureFormat::ATI2,
        TextureFormat::BC7,
    ] {
        let image = decode_level(format, 255, 253, &data).unwrap();
        assert_eq!(image.data.len(), 4 * 255 * 253);
    }
    for mode in 0..8u32 {
        let mut blocks = data.clone();
        for block in blocks.chunks_mut(16) {
            block[0] = ((block[0] as u32) << (mode + 1)) as u8 | (1u8 << mode);
        }
        let image = decode_level(TextureFormat::BC7, 256, 256, &blocks).unwrap();
        assert_eq!(image.data.len(), 4 * 256 * 256);
    }
}
