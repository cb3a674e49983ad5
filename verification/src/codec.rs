//! Decoding, resampling and encoding of images, level by level.

use crate::pixels::{
    decode_raw, encode_raw, raw_decoded, raw_encoded, ImageModel, PixelError, RgbaImage,
};
use crate::settings::Quality;
use crate::texture_format::{is_raw_format, TextureFormat};
use image::imageops::FilterType;
use intel_tex_2::{bc1, bc3, bc4, bc5, bc7, RSurface, RgSurface, RgbaSurface};
use vstd::prelude::*;

verus! {

/// How many blocks of four texels cover a side.
pub open spec fn blocks_across(side: nat) -> nat {
    (side + 3) / 4
}

/// The block that holds the texel in column `x` and row `y`. Blocks of `size`
/// bytes follow each other along the width, and then row by row.
pub open spec fn block_of(data: Seq<u8>, size: nat, width: nat, x: int, y: int) -> Seq<u8> {
    let b = (y / 4) * blocks_across(width) + x / 4;
    data.subrange(b * size, b * size + size)
}

/// The pixel in column `x` and row `y`.
pub open spec fn pixel_at(pixels: Seq<u32>, width: nat, x: int, y: int) -> u32 {
    pixels[y * width + x]
}

/// The alpha that a DXT3 block stores for a texel: a half of one of its first
/// eight bytes, the lower one first, doubled to eight bits.
pub open spec fn stored_alpha(block: Seq<u8>, x: int, y: int) -> int {
    let i = 4 * y + x;
    if i % 2 == 0 {
        17 * (block[i / 2] % 16)
    } else {
        17 * (block[i / 2] / 16)
    }
}

// ---------------------------------------------------------------------------
// Decoding
// ---------------------------------------------------------------------------

/// The pixels that BC1 blocks stand for, blue in the lowest byte.
pub uninterp spec fn bc1_pixels(data: Seq<u8>, width: nat, height: nat) -> Seq<u32>;

/// The pixels that BC2 blocks stand for, blue in the lowest byte.
pub uninterp spec fn bc2_pixels(data: Seq<u8>, width: nat, height: nat) -> Seq<u32>;

/// The pixels that BC3 blocks stand for, blue in the lowest byte.
pub uninterp spec fn bc3_pixels(data: Seq<u8>, width: nat, height: nat) -> Seq<u32>;

/// The pixels that BC4 blocks stand for, blue in the lowest byte.
pub uninterp spec fn bc4_pixels(data: Seq<u8>, width: nat, height: nat) -> Seq<u32>;

/// The pixels that BC5 blocks stand for, blue in the lowest byte.
pub uninterp spec fn bc5_pixels(data: Seq<u8>, width: nat, height: nat) -> Seq<u32>;

/// The pixels that BC7 blocks stand for, blue in the lowest byte.
pub uninterp spec fn bc7_pixels(data: Seq<u8>, width: nat, height: nat) -> Seq<u32>;

/// What a block decoder hands back: the pixels, one for each texel, or its only
/// complaint, that there are fewer blocks than the image has.
pub open spec fn is_decoded(
    res: Result<Vec<u32>, String>,
    data: Seq<u8>,
    width: nat,
    height: nat,
    block_bytes: nat,
    pixels: Seq<u32>,
) -> bool {
    if data.len() < blocks_across(width) * blocks_across(height) * block_bytes {
        res matches Err(message) && message@ == "Not enough data to decode image!"@
    } else {
        res matches Ok(out) && out@ == pixels && out@.len() == width * height
    }
}

/// Calls `texture2ddecoder::decode_bc1` on a buffer of one pixel per texel. It
/// fails where the blocks, of eight bytes each, are too few; otherwise it
/// fills the buffer, and what it writes is a function of its arguments. Each texel is decoded from its own block, as it
/// would be from that block alone, and all texels are opaque.
#[verifier::external_body]
fn decode_bc1(data: &[u8], width: usize, height: usize) -> (res: Result<Vec<u32>, String>)
    requires
        usize::MAX == u64::MAX,
        width <= 0xffff,
        height <= 0xffff,
    ensures
        is_decoded(
            res,
            data@,
            width as nat,
            height as nat,
            8,
            bc1_pixels(data@, width as nat, height as nat),
        ),
        res matches Ok(out) ==> forall|x: int, y: int|
            0 <= x < width && 0 <= y < height ==> #[trigger] pixel_at(out@, width as nat, x, y)
                == pixel_at(
                bc1_pixels(block_of(data@, 8, width as nat, x, y), 4, 4),
                4,
                x % 4,
                y % 4,
            ),
        res matches Ok(out) ==> forall|i: int|
            0 <= i < out@.len() ==> (#[trigger] out@[i]) / 0x100_0000 == 255,
{
    let mut pixels = vec![0u32; width * height];
    match texture2ddecoder::decode_bc1(data, width, height, &mut pixels) {
        Ok(()) => Ok(pixels),
        Err(e) => Err(e.to_string()),
    }
}

/// Calls `texture2ddecoder::decode_bc2` on a buffer of one pixel per texel. It
/// fails where the blocks, of sixteen bytes each, are too few; otherwise it
/// fills the buffer, and what it writes is a function of its arguments. Each texel is decoded from its own block, as it
/// would be from that block alone, with the alpha that the block stores for it.
#[verifier::external_body]
fn decode_bc2(data: &[u8], width: usize, height: usize) -> (res: Result<Vec<u32>, String>)
    requires
        usize::MAX == u64::MAX,
        width <= 0xffff,
        height <= 0xffff,
    ensures
        is_decoded(
            res,
            data@,
            width as nat,
            height as nat,
            16,
            bc2_pixels(data@, width as nat, height as nat),
        ),
        res matches Ok(out) ==> forall|x: int, y: int|
            0 <= x < width && 0 <= y < height ==> #[trigger] pixel_at(out@, width as nat, x, y)
                == pixel_at(
                bc2_pixels(block_of(data@, 16, width as nat, x, y), 4, 4),
                4,
                x % 4,
                y % 4,
            ),
        res matches Ok(out) ==> forall|x: int, y: int|
            0 <= x < width && 0 <= y < height ==> (#[trigger] pixel_at(
                out@,
                width as nat,
                x,
                y,
            )) / 0x100_0000 == stored_alpha(
                block_of(data@, 16, width as nat, x, y),
                x % 4,
                y % 4,
            ),
{
    let mut pixels = vec![0u32; width * height];
    match texture2ddecoder::decode_bc2(data, width, height, &mut pixels) {
        Ok(()) => Ok(pixels),
        Err(e) => Err(e.to_string()),
    }
}

/// Calls `texture2ddecoder::decode_bc3` on a buffer of one pixel per texel. It
/// fails where the blocks, of sixteen bytes each, are too few; otherwise it
/// fills the buffer, and what it writes is a function of its arguments. Each texel is decoded from its own block, as it
/// would be from that block alone.
#[verifier::external_body]
fn decode_bc3(data: &[u8], width: usize, height: usize) -> (res: Result<Vec<u32>, String>)
    requires
        usize::MAX == u64::MAX,
        width <= 0xffff,
        height <= 0xffff,
    ensures
        is_decoded(
            res,
            data@,
            width as nat,
            height as nat,
            16,
            bc3_pixels(data@, width as nat, height as nat),
        ),
        res matches Ok(out) ==> forall|x: int, y: int|
            0 <= x < width && 0 <= y < height ==> #[trigger] pixel_at(out@, width as nat, x, y)
                == pixel_at(
                bc3_pixels(block_of(data@, 16, width as nat, x, y), 4, 4),
                4,
                x % 4,
                y % 4,
            ),
{
    let mut pixels = vec![0u32; width * height];
    match texture2ddecoder::decode_bc3(data, width, height, &mut pixels) {
        Ok(()) => Ok(pixels),
        Err(e) => Err(e.to_string()),
    }
}

/// Calls `texture2ddecoder::decode_bc4` on a buffer of one pixel per texel. It
/// fails where the blocks, of eight bytes each, are too few; otherwise it
/// fills the buffer, and what it writes is a function of its arguments. Each texel is decoded from its own block, as it
/// would be from that block alone, and has no green, no blue and full alpha.
#[verifier::external_body]
fn decode_bc4(data: &[u8], width: usize, height: usize) -> (res: Result<Vec<u32>, String>)
    requires
        usize::MAX == u64::MAX,
        width <= 0xffff,
        height <= 0xffff,
    ensures
        is_decoded(
            res,
            data@,
            width as nat,
            height as nat,
            8,
            bc4_pixels(data@, width as nat, height as nat),
        ),
        res matches Ok(out) ==> forall|x: int, y: int|
            0 <= x < width && 0 <= y < height ==> #[trigger] pixel_at(out@, width as nat, x, y)
                == pixel_at(
                bc4_pixels(block_of(data@, 8, width as nat, x, y), 4, 4),
                4,
                x % 4,
                y % 4,
            ),
        res matches Ok(out) ==> forall|i: int|
            0 <= i < out@.len() ==> (#[trigger] out@[i]) % 0x1_0000 == 0 && out@[i] / 0x100_0000
                == 255,
{
    let mut pixels = vec![0u32; width * height];
    match texture2ddecoder::decode_bc4(data, width, height, &mut pixels) {
        Ok(()) => Ok(pixels),
        Err(e) => Err(e.to_string()),
    }
}

/// Calls `texture2ddecoder::decode_bc5` on a buffer of one pixel per texel. It
/// fails where the blocks, of sixteen bytes each, are too few; otherwise it
/// fills the buffer, and what it writes is a function of its arguments. Each texel is decoded from its own block, as it
/// would be from that block alone, and has no blue and full alpha.
#[verifier::external_body]
fn decode_bc5(data: &[u8], width: usize, height: usize) -> (res: Result<Vec<u32>, String>)
    requires
        usize::MAX == u64::MAX,
        width <= 0xffff,
        height <= 0xffff,
    ensures
        is_decoded(
            res,
            data@,
            width as nat,
            height as nat,
            16,
            bc5_pixels(data@, width as nat, height as nat),
        ),
        res matches Ok(out) ==> forall|x: int, y: int|
            0 <= x < width && 0 <= y < height ==> #[trigger] pixel_at(out@, width as nat, x, y)
                == pixel_at(
                bc5_pixels(block_of(data@, 16, width as nat, x, y), 4, 4),
                4,
                x % 4,
                y % 4,
            ),
        res matches Ok(out) ==> forall|i: int|
            0 <= i < out@.len() ==> (#[trigger] out@[i]) % 0x100 == 0 && out@[i] / 0x100_0000
                == 255,
{
    let mut pixels = vec![0u32; width * height];
    match texture2ddecoder::decode_bc5(data, width, height, &mut pixels) {
        Ok(()) => Ok(pixels),
        Err(e) => Err(e.to_string()),
    }
}

/// Calls `texture2ddecoder::decode_bc7` on a buffer of one pixel per texel. It
/// fails where the blocks, of sixteen bytes each, are too few; otherwise it
/// fills the buffer, and what it writes is a function of its arguments. Each texel is decoded from its own block, as it
/// would be from that block alone.
#[verifier::external_body]
fn decode_bc7(data: &[u8], width: usize, height: usize) -> (res: Result<Vec<u32>, String>)
    requires
        usize::MAX == u64::MAX,
        width <= 0xffff,
        height <= 0xffff,
    ensures
        is_decoded(
            res,
            data@,
            width as nat,
            height as nat,
            16,
            bc7_pixels(data@, width as nat, height as nat),
        ),
        res matches Ok(out) ==> forall|x: int, y: int|
            0 <= x < width && 0 <= y < height ==> #[trigger] pixel_at(out@, width as nat, x, y)
                == pixel_at(
                bc7_pixels(block_of(data@, 16, width as nat, x, y), 4, 4),
                4,
                x % 4,
                y % 4,
            ),
{
    let mut pixels = vec![0u32; width * height];
    match texture2ddecoder::decode_bc7(data, width, height, &mut pixels) {
        Ok(()) => Ok(pixels),
        Err(e) => Err(e.to_string()),
    }
}

/// The red, green, blue and alpha bytes of a pixel that has blue in its lowest
/// byte, then green, red and alpha.
pub open spec fn rgba_of(pixel: u32) -> Seq<u8> {
    seq![
        (pixel / 0x1_0000 % 256) as u8,
        (pixel / 0x100 % 256) as u8,
        (pixel % 256) as u8,
        (pixel / 0x100_0000) as u8,
    ]
}

/// The bytes of all pixels, one after the other.
pub open spec fn rgba_bytes(pixels: Seq<u32>) -> Seq<u8> {
    Seq::new(4 * pixels.len(), |k: int| rgba_of(pixels[k / 4])[k % 4])
}

/// The red, green, blue and alpha bytes of pixels that have blue in their
/// lowest byte.
pub fn bgra_u32_to_rgba_bytes(pixels: &[u32]) -> (res: Vec<u8>)
    ensures
        res@ == rgba_bytes(pixels@),
{
    let mut out: Vec<u8> = Vec::new();
    let mut i: usize = 0;
    while i < pixels.len()
        invariant
            i <= pixels@.len(),
            out@ == rgba_bytes(pixels@.take(i as int)),
        decreases pixels@.len() - i,
    {
        let p: u32 = pixels[i];
        out.push((p / 0x1_0000 % 256) as u8);
        out.push((p / 0x100 % 256) as u8);
        out.push((p % 256) as u8);
        out.push((p / 0x100_0000) as u8);
        proof {
            assert(out@ =~= rgba_bytes(pixels@.take(i + 1)));
        }
        i = i + 1;
    }
    proof {
        assert(pixels@.take(i as int) =~= pixels@);
    }
    out
}

/// The pixels that the blocks of a format stand for.
pub open spec fn block_pixels(
    fmt: TextureFormat,
    data: Seq<u8>,
    width: nat,
    height: nat,
) -> Seq<u32> {
    match fmt {
        TextureFormat::DXT1 => bc1_pixels(data, width, height),
        TextureFormat::DXT3 => bc2_pixels(data, width, height),
        TextureFormat::DXT5 => bc3_pixels(data, width, height),
        TextureFormat::ATI1 => bc4_pixels(data, width, height),
        TextureFormat::ATI2 => bc5_pixels(data, width, height),
        _ => bc7_pixels(data, width, height),
    }
}

/// The red, green, blue and alpha bytes of the texel in column `x` and row `y`.
pub open spec fn texel_at(image: ImageModel, x: int, y: int) -> Seq<u8> {
    image.data.subrange(4 * (y * image.width + x), 4 * (y * image.width + x) + 4)
}

/// Whether each texel of an image is what its own block stands for.
pub open spec fn is_tiled(fmt: TextureFormat, data: Seq<u8>, image: ImageModel) -> bool {
    forall|x: int, y: int|
        0 <= x < image.width && 0 <= y < image.height ==> #[trigger] texel_at(image, x, y)
            == rgba_of(
            pixel_at(
                block_pixels(
                    fmt,
                    block_of(data, fmt.spec_unit_bytes(), image.width, x, y),
                    4,
                    4,
                ),
                4,
                x % 4,
                y % 4,
            ),
        )
}

/// Whether an image has nothing in the channels that its format does not store,
/// and the alpha that it does store.
pub open spec fn has_own_channels(fmt: TextureFormat, data: Seq<u8>, image: ImageModel) -> bool {
    forall|x: int, y: int|
        0 <= x < image.width && 0 <= y < image.height ==> {
            let texel = #[trigger] texel_at(image, x, y);
            &&& fmt is DXT1 ==> texel[3] == 255
            &&& fmt is DXT3 ==> texel[3] == stored_alpha(
                block_of(data, 16, image.width, x, y),
                x % 4,
                y % 4,
            )
            &&& fmt is ATI1 ==> texel[1] == 0 && texel[2] == 0 && texel[3] == 255
            &&& fmt is ATI2 ==> texel[2] == 0 && texel[3] == 255
        }
}

/// Whether an image is what blocks of a format stand for.
#[verifier::opaque]
pub open spec fn is_block_image(fmt: TextureFormat, data: Seq<u8>, image: ImageModel) -> bool {
    fmt.spec_is_block_compressed() ==> is_tiled(fmt, data, image) && has_own_channels(
        fmt,
        data,
        image,
    )
}

/// The bytes of a texel are those of its pixel.
proof fn lemma_texel_of_pixel(pixels: Seq<u32>, image: ImageModel, x: int, y: int)
    requires
        image.data == rgba_bytes(pixels),
        pixels.len() == image.width * image.height,
        0 <= x < image.width,
        0 <= y < image.height,
    ensures
        0 <= y * image.width + x < pixels.len(),
        texel_at(image, x, y) == rgba_of(pixel_at(pixels, image.width, x, y)),
{
    let w = image.width as int;
    let h = image.height as int;
    assert(0 <= y * w + x < w * h) by (nonlinear_arith)
        requires
            0 <= x < w,
            0 <= y < h,
    ;
    let i = y * w + x;
    assert forall|c: int| 0 <= c < 4 implies texel_at(image, x, y)[c] == rgba_of(pixels[i])[c] by {
        assert((4 * i + c) / 4 == i && (4 * i + c) % 4 == c);
    }
    assert(texel_at(image, x, y) =~= rgba_of(pixels[i]));
}

/// What decoding a level gives: the image, or the text of the error.
pub open spec fn level_decoded(
    fmt: TextureFormat,
    width: u16,
    height: u16,
    data: Seq<u8>,
) -> Result<ImageModel, Seq<char>> {
    if fmt.spec_is_raw() {
        match raw_decoded(fmt, width, height, data) {
            Ok(image) => Ok(image),
            Err(e) => Err(e.spec_message()),
        }
    } else if fmt is Unknown {
        Err("no decoder for "@ + fmt.spec_name())
    } else if data.len() < blocks_across(width as nat) * blocks_across(height as nat)
        * fmt.spec_unit_bytes() {
        Err("decode failed: "@ + "Not enough data to decode image!"@)
    } else {
        Ok(
            ImageModel {
                width: width as nat,
                height: height as nat,
                data: rgba_bytes(block_pixels(fmt, data, width as nat, height as nat)),
            },
        )
    }
}

/// Decodes the first level of a texture.
pub fn decode_level(fmt: TextureFormat, width: u16, height: u16, data: &[u8]) -> (res: Result<
    RgbaImage,
    PixelError,
>)
    requires
        usize::MAX == u64::MAX,
    ensures
        match res {
            Ok(image) => level_decoded(fmt, width, height, data@) == Ok::<ImageModel, Seq<char>>(
                image@,
            ) && image@.wf() && image.width == width && image.height == height && is_block_image(
                fmt,
                data@,
                image@,
            ),
            Err(e) => level_decoded(fmt, width, height, data@) == Err::<ImageModel, Seq<char>>(
                e.spec_message(),
            ),
        },
{
    proof {
        reveal(is_block_image);
    }
    if is_raw_format(fmt) {
        return decode_raw(fmt, width, height, data);
    }
    let w: usize = width as usize;
    let h: usize = height as usize;
    let decoded: Result<Vec<u32>, String> = match fmt {
        TextureFormat::DXT1 => decode_bc1(data, w, h),
        TextureFormat::DXT3 => decode_bc2(data, w, h),
        TextureFormat::DXT5 => decode_bc3(data, w, h),
        TextureFormat::ATI1 => decode_bc4(data, w, h),
        TextureFormat::ATI2 => decode_bc5(data, w, h),
        TextureFormat::BC7 => decode_bc7(data, w, h),
        other => {
            return Err(PixelError::NoDecoder { format: other });
        },
    };
    match decoded {
        Ok(pixels) => {
            let rgba = bgra_u32_to_rgba_bytes(pixels.as_slice());
            let image = RgbaImage { width: width as u32, height: height as u32, data: rgba };
            proof {
                assert forall|x: int, y: int|
                    0 <= x < image@.width && 0 <= y < image@.height implies #[trigger] texel_at(
                    image@,
                    x,
                    y,
                ) == rgba_of(pixel_at(pixels@, image@.width, x, y)) by {
                    lemma_texel_of_pixel(pixels@, image@, x, y);
                }
                assert(is_tiled(fmt, data@, image@));
                assert forall|x: int, y: int|
                    0 <= x < image@.width && 0 <= y < image@.height implies {
                    let texel = #[trigger] texel_at(image@, x, y);
                    &&& fmt is DXT1 ==> texel[3] == 255
                    &&& fmt is DXT3 ==> texel[3] == stored_alpha(
                        block_of(data@, 16, image@.width, x, y),
                        x % 4,
                        y % 4,
                    )
                    &&& fmt is ATI1 ==> texel[1] == 0 && texel[2] == 0 && texel[3] == 255
                    &&& fmt is ATI2 ==> texel[2] == 0 && texel[3] == 255
                } by {
                    lemma_texel_of_pixel(pixels@, image@, x, y);
                    let p = pixel_at(pixels@, image@.width, x, y);
                    assert(p == pixels@[y * image@.width + x]);
                }
            }
            Ok(image)
        },
        Err(message) => Err(PixelError::Decode { message }),
    }
}

// ---------------------------------------------------------------------------
// Encoding
// ---------------------------------------------------------------------------

/// Whether BC1 compression of an image can give these blocks.
pub uninterp spec fn may_be_bc1(
    rgba: Seq<u8>,
    width: nat,
    height: nat,
    blocks: Seq<u8>,
) -> bool;

/// Whether BC3 compression of an image can give these blocks.
pub uninterp spec fn may_be_bc3(
    rgba: Seq<u8>,
    width: nat,
    height: nat,
    blocks: Seq<u8>,
) -> bool;

/// Whether BC4 compression of rows that are `stride` bytes apart can give
/// these blocks.
pub uninterp spec fn may_be_bc4(
    rgba: Seq<u8>,
    width: nat,
    height: nat,
    stride: nat,
    blocks: Seq<u8>,
) -> bool;

/// Whether BC5 compression of rows that are `stride` bytes apart can give
/// these blocks.
pub uninterp spec fn may_be_bc5(
    rgba: Seq<u8>,
    width: nat,
    height: nat,
    stride: nat,
    blocks: Seq<u8>,
) -> bool;

/// Whether BC7 compression of an image with the given effort can give these
/// blocks.
pub uninterp spec fn may_be_bc7(
    rgba: Seq<u8>,
    width: nat,
    height: nat,
    effort: Bc7Effort,
    blocks: Seq<u8>,
) -> bool;

/// The BC2 blocks that an image compresses to.
pub uninterp spec fn bc2_blocks(rgba: Seq<u8>, width: nat, height: nat) -> Seq<u8>;

/// The presets of the BC7 encoder.
#[derive(Debug, Clone, Copy, PartialEq, Eq, Structural)]
pub enum Bc7Effort {
    OpaqueVeryFast,
    OpaqueBasic,
    OpaqueSlow,
    AlphaVeryFast,
    AlphaBasic,
    AlphaSlow,
}

/// Whether the encoder of a format can take an image of this size. Most block
/// encoders need the offsets of its bytes to fit into 31 bits, and the one for
/// DXT3 needs at least one block in each row.
pub open spec fn has_encodable_size(fmt: TextureFormat, width: nat, height: nat) -> bool {
    if fmt is DXT3 {
        width > 0
    } else {
        fmt.spec_is_block_compressed() ==> 4 * (width * height) <= 0x8000_0000
    }
}

/// Whether the encoder of a format can take an image.
pub open spec fn is_encodable(fmt: TextureFormat, image: ImageModel) -> bool {
    &&& image.wf()
    &&& image.width <= 0xffff
    &&& image.height <= 0xffff
    &&& has_encodable_size(fmt, image.width, image.height)
}

/// Whether the encoder of a format can take an image of this size.
pub fn can_encode(fmt: TextureFormat, width: u16, height: u16) -> (res: bool)
    ensures
        res == has_encodable_size(fmt, width as nat, height as nat),
{
    proof {
        assert(width * height <= 0xffff * 0xffff) by (nonlinear_arith)
            requires
                width <= 0xffff,
                height <= 0xffff,
        ;
    }
    let area: u64 = width as u64 * height as u64;
    if fmt == TextureFormat::DXT3 {
        width > 0
    } else {
        !fmt.is_block_compressed() || 4 * area <= 0x8000_0000
    }
}

/// The bytes of a level: those of its texels, or of as many blocks as hold
/// them.
pub open spec fn level_bytes(fmt: TextureFormat, width: nat, height: nat) -> nat {
    if !fmt.spec_is_block_compressed() {
        width * height * fmt.spec_unit_bytes()
    } else if fmt is DXT3 {
        blocks_across(width) * blocks_across(height) * 16
    } else {
        (width * height + 15) / 16 * fmt.spec_unit_bytes()
    }
}

/// Calls `intel_tex_2::bc1::compress_blocks`. The blocks take eight bytes for
/// each sixteen texels. What they hold can differ between processors, so the
/// contract only claims that they are an outcome of compressing this image.
#[verifier::external_body]
fn compress_bc1(data: &[u8], width: u32, height: u32, stride: u32) -> (res: Vec<u8>)
    requires
        width <= 0xffff,
        height <= 0xffff,
        stride == 4 * width,
        data@.len() == 4 * (width * height),
        data@.len() <= 0x8000_0000,
    ensures
        may_be_bc1(data@, width as nat, height as nat, res@),
        res@.len() == (width * height + 15) / 16 * 8,
{
    bc1::compress_blocks(&RgbaSurface { data, width, height, stride })
}

/// Calls `intel_tex_2::bc3::compress_blocks`. The blocks take sixteen bytes
/// for each sixteen texels. What they hold can differ between processors, so
/// the contract only claims that they are an outcome of compressing this image.
#[verifier::external_body]
fn compress_bc3(data: &[u8], width: u32, height: u32, stride: u32) -> (res: Vec<u8>)
    requires
        width <= 0xffff,
        height <= 0xffff,
        stride == 4 * width,
        data@.len() == 4 * (width * height),
        data@.len() <= 0x8000_0000,
    ensures
        may_be_bc3(data@, width as nat, height as nat, res@),
        res@.len() == (width * height + 15) / 16 * 16,
{
    bc3::compress_blocks(&RgbaSurface { data, width, height, stride })
}

/// Calls `intel_tex_2::bc4::compress_blocks` on a surface of one channel. The
/// blocks take eight bytes for each sixteen texels. What they hold can differ
/// between processors, so the contract only claims that they are an outcome
/// of compressing these bytes at this stride.
#[verifier::external_body]
fn compress_bc4(data: &[u8], width: u32, height: u32, stride: u32) -> (res: Vec<u8>)
    requires
        width <= 0xffff,
        height <= 0xffff,
        stride == 4 * width,
        data@.len() == 4 * (width * height),
        data@.len() <= 0x8000_0000,
    ensures
        may_be_bc4(data@, width as nat, height as nat, stride as nat, res@),
        res@.len() == (width * height + 15) / 16 * 8,
{
    bc4::compress_blocks(&RSurface { data, width, height, stride })
}

/// Calls `intel_tex_2::bc5::compress_blocks` on a surface of two channels. The
/// blocks take sixteen bytes for each sixteen texels. What they hold can
/// differ between processors, so the contract only claims that they are an
/// outcome of compressing these bytes at this stride.
#[verifier::external_body]
fn compress_bc5(data: &[u8], width: u32, height: u32, stride: u32) -> (res: Vec<u8>)
    requires
        width <= 0xffff,
        height <= 0xffff,
        stride == 4 * width,
        data@.len() == 4 * (width * height),
        data@.len() <= 0x8000_0000,
    ensures
        may_be_bc5(data@, width as nat, height as nat, stride as nat, res@),
        res@.len() == (width * height + 15) / 16 * 16,
{
    bc5::compress_blocks(&RgSurface { data, width, height, stride })
}

/// Calls `intel_tex_2::bc7::compress_blocks` with the settings of the preset
/// of the same name. The blocks take sixteen bytes for each sixteen texels.
/// What they hold can differ between processors, so the contract only claims
/// that they are an outcome of compressing this image with this preset.
#[verifier::external_body]
fn compress_bc7(data: &[u8], width: u32, height: u32, stride: u32, effort: Bc7Effort) -> (res:
    Vec<u8>)
    requires
        width <= 0xffff,
        height <= 0xffff,
        stride == 4 * width,
        data@.len() == 4 * (width * height),
        data@.len() <= 0x8000_0000,
    ensures
        may_be_bc7(data@, width as nat, height as nat, effort, res@),
        res@.len() == (width * height + 15) / 16 * 16,
{
    let settings = match effort {
        Bc7Effort::OpaqueVeryFast => bc7::opaque_very_fast_settings(),
        Bc7Effort::OpaqueBasic => bc7::opaque_basic_settings(),
        Bc7Effort::OpaqueSlow => bc7::opaque_slow_settings(),
        Bc7Effort::AlphaVeryFast => bc7::alpha_very_fast_settings(),
        Bc7Effort::AlphaBasic => bc7::alpha_basic_settings(),
        Bc7Effort::AlphaSlow => bc7::alpha_slow_settings(),
    };
    bc7::compress_blocks(&settings, &RgbaSurface { data, width, height, stride })
}

/// Calls `texpresso::Format::compress` for BC2 with `texpresso::Params::default`,
/// which chooses the cluster fit, on a buffer of
/// `texpresso::Format::compressed_size` bytes: sixteen for each block. What it
/// writes is a function of its arguments. It cannot take rows of no blocks.
#[verifier::external_body]
fn compress_bc2(data: &[u8], width: usize, height: usize) -> (res: Vec<u8>)
    requires
        0 < width <= 0xffff,
        height <= 0xffff,
        data@.len() == 4 * (width * height),
    ensures
        res@ == bc2_blocks(data@, width as nat, height as nat),
        res@.len() == blocks_across(width as nat) * blocks_across(height as nat) * 16,
{
    let mut out = vec![0u8; texpresso::Format::Bc2.compressed_size(width, height)];
    let params = texpresso::Params::default();
    texpresso::Format::Bc2.compress(data, width, height, params, &mut out);
    out
}

/// Whether any texel is not fully opaque.
pub open spec fn has_alpha(image: ImageModel) -> bool {
    exists|i: int|
        0 <= i < image.width * image.height && (#[trigger] alpha_at(image.data, i)) != 255
}

/// The alpha of the texel in place `i`.
pub open spec fn alpha_at(rgba: Seq<u8>, i: int) -> u8 {
    rgba[4 * i + 3]
}

/// Whether any texel is not fully opaque.
pub fn any_alpha(image: &RgbaImage) -> (res: bool)
    requires
        image@.wf(),
    ensures
        res == has_alpha(image@),
{
    let rgba = image.data.as_slice();
    let size: usize = rgba.len();
    let count: usize = size / 4;
    let mut i: usize = 0;
    while i < count
        invariant
            size == rgba@.len(),
            rgba@ == image@.data,
            4 * count == size,
            count == image@.width * image@.height,
            i <= count,
            forall|j: int| 0 <= j < i ==> #[trigger] alpha_at(rgba@, j) == 255,
        decreases count - i,
    {
        if rgba[4 * i + 3] != 255 {
            proof {
                assert(alpha_at(image@.data, i as int) != 255);
            }
            return true;
        }
        i = i + 1;
    }
    false
}

/// The preset of the BC7 encoder for a quality and an image with alpha or
/// without.
pub open spec fn effort_of(quality: Quality, alpha: bool) -> Bc7Effort {
    match quality {
        Quality::Fast => if alpha {
            Bc7Effort::AlphaVeryFast
        } else {
            Bc7Effort::OpaqueVeryFast
        },
        Quality::Medium => if alpha {
            Bc7Effort::AlphaBasic
        } else {
            Bc7Effort::OpaqueBasic
        },
        Quality::Slow => if alpha {
            Bc7Effort::AlphaSlow
        } else {
            Bc7Effort::OpaqueSlow
        },
    }
}

/// The preset of the BC7 encoder for a quality and an image with alpha or
/// without.
pub fn choose_effort(quality: Quality, alpha: bool) -> (res: Bc7Effort)
    ensures
        res == effort_of(quality, alpha),
{
    match (quality, alpha) {
        (Quality::Fast, true) => Bc7Effort::AlphaVeryFast,
        (Quality::Fast, false) => Bc7Effort::OpaqueVeryFast,
        (Quality::Medium, true) => Bc7Effort::AlphaBasic,
        (Quality::Medium, false) => Bc7Effort::OpaqueBasic,
        (Quality::Slow, true) => Bc7Effort::AlphaSlow,
        (Quality::Slow, false) => Bc7Effort::OpaqueSlow,
    }
}

/// Whether encoding an image in a format can give these bytes.
pub open spec fn is_level(
    fmt: TextureFormat,
    quality: Quality,
    image: ImageModel,
    bytes: Seq<u8>,
) -> bool {
    &&& bytes.len() == level_bytes(fmt, image.width, image.height)
    &&& match fmt {
        TextureFormat::DXT1 => may_be_bc1(image.data, image.width, image.height, bytes),
        TextureFormat::DXT3 => bytes == bc2_blocks(image.data, image.width, image.height),
        TextureFormat::DXT5 => may_be_bc3(image.data, image.width, image.height, bytes),
        TextureFormat::ATI1 => may_be_bc4(
            image.data,
            image.width,
            image.height,
            4 * image.width,
            bytes,
        ),
        TextureFormat::ATI2 => may_be_bc5(
            image.data,
            image.width,
            image.height,
            4 * image.width,
            bytes,
        ),
        TextureFormat::BC7 => may_be_bc7(
            image.data,
            image.width,
            image.height,
            effort_of(quality, has_alpha(image)),
            bytes,
        ),
        _ => raw_encoded(fmt, image) == Ok::<Seq<u8>, PixelError>(bytes),
    }
}

proof fn lemma_encoded_texels_len(fmt: TextureFormat, rgba: Seq<u8>, n: nat)
    requires
        fmt.spec_is_raw(),
    ensures
        crate::pixels::encoded_texels(fmt, rgba, n).len() == n * fmt.spec_unit_bytes(),
    decreases n,
{
    let unit = fmt.spec_unit_bytes();
    if n > 0 {
        lemma_encoded_texels_len(fmt, rgba, (n - 1) as nat);
        assert(n * unit == (n - 1) * unit + unit) by (nonlinear_arith);
    } else {
        assert(n * unit == 0) by (nonlinear_arith)
            requires
                n == 0,
        ;
    }
}

/// Encodes one level.
pub fn encode_level(fmt: TextureFormat, image: &RgbaImage, quality: Quality) -> (res: Result<
    Vec<u8>,
    PixelError,
>)
    requires
        is_encodable(fmt, image@),
    ensures
        match res {
            Ok(bytes) => !(fmt is Unknown) && is_level(fmt, quality, image@, bytes@),
            Err(e) => fmt is Unknown && e == (PixelError::NoEncoder { format: fmt }),
        },
{
    if is_raw_format(fmt) {
        proof {
            lemma_encoded_texels_len(fmt, image@.data, image@.width * image@.height);
        }
        return encode_raw(fmt, image);
    }
    let width: u32 = image.width;
    let height: u32 = image.height;
    let stride: u32 = width * 4;
    let data = image.data.as_slice();
    let bytes: Vec<u8> = match fmt {
        TextureFormat::DXT1 => compress_bc1(data, width, height, stride),
        TextureFormat::DXT3 => compress_bc2(data, width as usize, height as usize),
        TextureFormat::DXT5 => compress_bc3(data, width, height, stride),
        TextureFormat::ATI1 => compress_bc4(data, width, height, stride),
        TextureFormat::ATI2 => compress_bc5(data, width, height, stride),
        TextureFormat::BC7 => {
            let effort = choose_effort(quality, any_alpha(image));
            compress_bc7(data, width, height, stride, effort)
        },
        other => {
            return Err(PixelError::NoEncoder { format: other });
        },
    };
    Ok(bytes)
}

// ---------------------------------------------------------------------------
// Resampling
// ---------------------------------------------------------------------------

/// Whether resampling an image with a Lanczos filter can give these bytes.
pub uninterp spec fn may_be_lanczos(
    rgba: Seq<u8>,
    width: nat,
    height: nat,
    new_width: nat,
    new_height: nat,
    out: Seq<u8>,
) -> bool;

/// Whether resampling an image to a size can give this image.
pub open spec fn is_resampled(
    image: ImageModel,
    new_width: nat,
    new_height: nat,
    out: ImageModel,
) -> bool {
    &&& out.width == new_width
    &&& out.height == new_height
    &&& out.wf()
    &&& may_be_lanczos(image.data, image.width, image.height, new_width, new_height, out.data)
    &&& image.width == 0 || image.height == 0 ==> forall|k: int|
        0 <= k < out.data.len() ==> #[trigger] out.data[k] == 0
    &&& image.width == new_width && image.height == new_height ==> out.data == image.data
}

/// Calls `image::imageops::resize` with `FilterType::Lanczos3`. The result has
/// the new size. From an image without texels it is all zeros, and at the old
/// size it is the same image. Otherwise the filter uses a sine whose last bits
/// can differ between machines, so the contract only claims that the bytes are
/// an outcome of resampling this image to this size.
#[verifier::external_body]
pub(crate) fn resample(image: &RgbaImage, new_width: u32, new_height: u32) -> (res: RgbaImage)
    requires
        usize::MAX == u64::MAX,
        image@.wf(),
        image.width <= 0xffff,
        image.height <= 0xffff,
        new_width <= 0xffff,
        new_height <= 0xffff,
    ensures
        is_resampled(image@, new_width as nat, new_height as nat, res@),
        may_be_lanczos(
            image@.data,
            image@.width,
            image@.height,
            new_width as nat,
            new_height as nat,
            res@.data,
        ),
{
    let source = image::RgbaImage::from_raw(image.width, image.height, image.data.clone()).unwrap();
    let out = image::imageops::resize(&source, new_width, new_height, FilterType::Lanczos3);
    RgbaImage { width: out.width(), height: out.height(), data: out.into_raw() }
}

/// Half of a side, but at least four.
pub open spec fn halved(side: nat) -> nat {
    if side / 2 < 4 {
        4
    } else {
        side / 2
    }
}

/// Whether the chain ends with its `count`-th level, of the given size.
pub open spec fn ends_chain(width: nat, height: nat, count: nat, max_levels: nat) -> bool {
    count >= max_levels || width <= 4 || height <= 4
}

/// Whether `images` are the levels of a mipmap chain that starts with `base`,
/// and `parts` their bytes: each image is the one before, resampled to half
/// its size, as long as the chain does not end.
pub open spec fn is_chain(
    fmt: TextureFormat,
    quality: Quality,
    base: ImageModel,
    max_levels: nat,
    images: Seq<ImageModel>,
    parts: Seq<Seq<u8>>,
) -> bool {
    &&& images.len() == parts.len()
    &&& images.len() > 0
    &&& images[0] == base
    &&& forall|k: int|
        0 <= k < images.len() ==> is_level(fmt, quality, #[trigger] images[k], parts[k])
    &&& forall|k: int|
        0 <= k < images.len() - 1 ==> is_resampled(
            #[trigger] images[k],
            halved(images[k].width),
            halved(images[k].height),
            images[k + 1],
        )
    &&& forall|k: int|
        0 <= k < images.len() - 1 ==> !ends_chain(
            (#[trigger] images[k]).width,
            images[k].height,
            (k + 1) as nat,
            max_levels,
        )
    &&& ends_chain(images.last().width, images.last().height, images.len(), max_levels)
}

/// All parts, one after the other.
pub open spec fn joined(parts: Seq<Seq<u8>>) -> Seq<u8>
    decreases parts.len(),
{
    if parts.len() == 0 {
        Seq::empty()
    } else {
        joined(parts.drop_last()) + parts.last()
    }
}

/// Whether building a mipmap chain can give these bytes and this number of
/// levels.
pub open spec fn is_mip_chain(
    fmt: TextureFormat,
    quality: Quality,
    base: ImageModel,
    max_levels: nat,
    bytes: Seq<u8>,
    levels: nat,
) -> bool {
    exists|images: Seq<ImageModel>, parts: Seq<Seq<u8>>| #[trigger]
        is_chain(fmt, quality, base, max_levels, images, parts) && bytes == joined(parts) && levels
            == parts.len()
}

/// The number of levels of a chain whose `count`-th level has this size.
pub open spec fn chain_levels(width: nat, height: nat, count: nat, max_levels: nat) -> nat
    decreases width,
{
    if ends_chain(width, height, count, max_levels) {
        count
    } else {
        chain_levels(halved(width), halved(height), count + 1, max_levels)
    }
}

/// The size of the level that follows, if there is one.
pub fn next_level(width: u32, height: u32, count: u8, max_levels: u8) -> (res: Option<(u32, u32)>)
    ensures
        match res {
            Some((w, h)) => !ends_chain(
                width as nat,
                height as nat,
                count as nat,
                max_levels as nat,
            ) && w == halved(width as nat) && h == halved(height as nat),
            None => ends_chain(width as nat, height as nat, count as nat, max_levels as nat),
        },
{
    if count >= max_levels || width <= 4 || height <= 4 {
        return None;
    }
    let w: u32 = if width / 2 < 4 {
        4
    } else {
        width / 2
    };
    let h: u32 = if height / 2 < 4 {
        4
    } else {
        height / 2
    };
    Some((w, h))
}

proof fn lemma_joined_push(parts: Seq<Seq<u8>>, part: Seq<u8>)
    ensures
        joined(parts.push(part)) == joined(parts) + part,
{
    assert(parts.push(part).drop_last() =~= parts);
}

/// Encodes an image and the images of half its size, and half of that, as far
/// as the chain goes.
pub fn build_mip_chain(
    base: RgbaImage,
    fmt: TextureFormat,
    quality: Quality,
    max_levels: u8,
) -> (res: Result<(Vec<u8>, u8), PixelError>)
    requires
        usize::MAX == u64::MAX,
        is_encodable(fmt, base@),
    ensures
        match res {
            Ok((bytes, levels)) => {
                &&& !(fmt is Unknown)
                &&& is_mip_chain(
                    fmt,
                    quality,
                    base@,
                    max_levels as nat,
                    bytes@,
                    levels as nat,
                )
                &&& levels == chain_levels(base@.width, base@.height, 1, max_levels as nat)
            },
            Err(e) => fmt is Unknown && e == (PixelError::NoEncoder { format: fmt }),
        },
{
    let ghost first = base@;
    let ghost mut images: Seq<ImageModel> = seq![first];
    let ghost mut parts: Seq<Seq<u8>> = Seq::empty();
    let mut out: Vec<u8> = Vec::new();
    let mut current = base;
    let mut level_count: u8 = 0;
    loop
        invariant_except_break
            usize::MAX == u64::MAX,
            is_encodable(fmt, current@),
            level_count > 0 ==> !(fmt is Unknown),
            images.len() == parts.len() + 1,
            parts.len() == level_count,
            images[0] == first,
            images.last() == current@,
            forall|k: int|
                0 <= k < parts.len() ==> is_level(fmt, quality, #[trigger] images[k], parts[k]),
            forall|k: int|
                0 <= k < images.len() - 1 ==> is_resampled(
                    #[trigger] images[k],
                    halved(images[k].width),
                    halved(images[k].height),
                    images[k + 1],
                ),
            forall|k: int|
                0 <= k < images.len() - 1 ==> !ends_chain(
                    (#[trigger] images[k]).width,
                    images[k].height,
                    (k + 1) as nat,
                    max_levels as nat,
                ),
            out@ == joined(parts),
            level_count < max_levels || level_count == 0,
            chain_levels(first.width, first.height, 1, max_levels as nat) == chain_levels(
                current@.width,
                current@.height,
                (level_count + 1) as nat,
                max_levels as nat,
            ),
        ensures
            !(fmt is Unknown),
            is_chain(fmt, quality, first, max_levels as nat, images, parts),
            out@ == joined(parts),
            level_count == parts.len(),
            level_count == chain_levels(first.width, first.height, 1, max_levels as nat),
        decreases current.width,
    {
        let mut bytes = match encode_level(fmt, &current, quality) {
            Ok(bytes) => bytes,
            Err(e) => {
                return Err(e);
            },
        };
        proof {
            lemma_joined_push(parts, bytes@);
            parts = parts.push(bytes@);
        }
        out.append(&mut bytes);
        level_count = level_count + 1;
        match next_level(current.width, current.height, level_count, max_levels) {
            None => {
                break;
            },
            Some((w, h)) => {
                proof {
                    lemma_halved_encodable(fmt, current@, w as nat, h as nat);
                }
                let smaller = resample(&current, w, h);
                proof {
                    images = images.push(smaller@);
                }
                current = smaller;
            },
        }
    }
    Ok((out, level_count))
}

proof fn lemma_halved_encodable(fmt: TextureFormat, image: ImageModel, w: nat, h: nat)
    requires
        is_encodable(fmt, image),
        image.width > 4,
        image.height > 4,
        w == halved(image.width),
        h == halved(image.height),
    ensures
        has_encodable_size(fmt, w, h),
        0 < w < image.width,
        h < image.height,
{
    let a = image.width;
    let b = image.height;
    assert(w * h <= a * b) by (nonlinear_arith)
        requires
            w <= a,
            h <= b,
    ;
}

/// A chain has at least one level, and no more than the limit if that allows
/// for one; with a limit of one it is the image alone.
pub proof fn law_levels_are_limited(width: nat, height: nat, count: nat, max_levels: nat)
    ensures
        count <= chain_levels(width, height, count, max_levels),
        chain_levels(width, height, count, max_levels) <= if count < max_levels {
            max_levels
        } else {
            count
        },
    decreases width,
{
    if !ends_chain(width, height, count, max_levels) {
        law_levels_are_limited(halved(width), halved(height), count + 1, max_levels);
    }
}

/// The quality only matters to BC7: any other format is encoded alike at every
/// quality.
pub proof fn law_quality_matters_to_bc7(
    fmt: TextureFormat,
    a: Quality,
    b: Quality,
    image: ImageModel,
    bytes: Seq<u8>,
)
    requires
        !(fmt is BC7),
    ensures
        is_level(fmt, a, image, bytes) == is_level(fmt, b, image, bytes),
{
}

/// The raw formats and DXT3 give the same bytes whenever an image is encoded,
/// at every quality, and a raw format those that its texels are stored as. The
/// kernels of the other block encoders are chosen by the processor, so that of
/// their bytes only `law_quality_matters_to_bc7` holds.
pub proof fn law_encoding_is_repeatable(
    fmt: TextureFormat,
    a: Quality,
    b: Quality,
    image: ImageModel,
    first: Seq<u8>,
    second: Seq<u8>,
)
    requires
        fmt.spec_is_raw() || fmt is DXT3,
        is_level(fmt, a, image, first),
        is_level(fmt, b, image, second),
    ensures
        first == second,
        fmt.spec_is_raw() ==> raw_encoded(fmt, image) == Ok::<Seq<u8>, PixelError>(first),
{
}

} // verus!
