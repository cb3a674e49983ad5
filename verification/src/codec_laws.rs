//! What holds of decoded images, encoded levels and mipmap chains.

use crate::codec::{
    alpha_at, bc1_pixels, bc2_blocks, bc2_pixels, bc3_pixels, bc4_pixels, bc5_pixels, bc7_pixels,
    block_of, block_pixels, effort_of, has_alpha, is_block_image, is_chain, is_level, is_mip_chain,
    joined, level_bytes, level_decoded, may_be_bc1, may_be_bc3, may_be_bc4, may_be_bc5, may_be_bc7,
    may_be_lanczos, pixel_at, rgba_bytes, rgba_of, texel_at, Bc7Effort,
};
use crate::pixels::{
    decoded_texel, encoded_texel, encoded_texels, packed_word, raw_encoded,
    ImageModel, PixelError,
};
use crate::settings::Quality;
use crate::texture_format::TextureFormat;
use vstd::prelude::*;

verus! {

// ---------------------------------------------------------------------------
// Decoding blocks
// ---------------------------------------------------------------------------

/// Whether decoding a level gives this image.
pub open spec fn decodes_to(
    fmt: TextureFormat,
    width: u16,
    height: u16,
    data: Seq<u8>,
    image: ImageModel,
) -> bool {
    &&& level_decoded(fmt, width, height, data) == Ok::<ImageModel, Seq<char>>(image)
    &&& image.wf()
    &&& is_block_image(fmt, data, image)
}

/// The bytes of four by four texels in the block formats.
pub open spec fn block_size(fmt: TextureFormat) -> int {
    if fmt is DXT1 || fmt is ATI1 {
        8
    } else {
        16
    }
}

/// The image has the size that was asked for. The texel in column `x` and row
/// `y` is the one in column `x % 4` and row `y % 4` of a block, and the block is
/// the one that comes `x / 4` blocks behind the start of row `y / 4` of blocks,
/// each such row being as long as the width needs. Each format has its own
/// decoder.
pub proof fn law_texel_comes_from_its_block(
    fmt: TextureFormat,
    width: u16,
    height: u16,
    data: Seq<u8>,
    image: ImageModel,
    x: int,
    y: int,
)
    requires
        decodes_to(fmt, width, height, data, image),
        fmt is DXT1 || fmt is DXT3 || fmt is DXT5 || fmt is ATI1 || fmt is ATI2 || fmt is BC7,
        0 <= x < width,
        0 <= y < height,
    ensures
        ({
            let b = y / 4 * ((width + 3) / 4) + x / 4;
            let block = data.subrange(b * block_size(fmt), (b + 1) * block_size(fmt));
            let pixels = match fmt {
                TextureFormat::DXT1 => bc1_pixels(block, 4, 4),
                TextureFormat::DXT3 => bc2_pixels(block, 4, 4),
                TextureFormat::DXT5 => bc3_pixels(block, 4, 4),
                TextureFormat::ATI1 => bc4_pixels(block, 4, 4),
                TextureFormat::ATI2 => bc5_pixels(block, 4, 4),
                _ => bc7_pixels(block, 4, 4),
            };
            let pixel = pixels[4 * (y % 4) + x % 4];
            let at = 4 * (y * width + x);
            &&& image.width == width
            &&& image.height == height
            &&& image.data[at] == pixel / 0x1_0000 % 256
            &&& image.data[at + 1] == pixel / 0x100 % 256
            &&& image.data[at + 2] == pixel % 256
            &&& image.data[at + 3] == pixel / 0x100_0000
        }),
{
    reveal(is_block_image);
    let b = y / 4 * ((width + 3) / 4) + x / 4;
    let size = block_size(fmt);
    assert((b + 1) * size == b * size + size) by (nonlinear_arith);
    let texel = texel_at(image, x, y);
    assert(block_of(data, fmt.spec_unit_bytes(), image.width, x, y) == data.subrange(
        b * size,
        b * size + size,
    ));
    let pixel = pixel_at(
        block_pixels(
            fmt,
            block_of(data, fmt.spec_unit_bytes(), image.width, x, y),
            4,
            4,
        ),
        4,
        x % 4,
        y % 4,
    );
    assert(texel == rgba_of(pixel));
    assert(y % 4 * 4 + x % 4 == 4 * (y % 4) + x % 4);
    let at = 4 * (y * width + x);
    lemma_image_bytes(fmt, width, height, data, image, x, y);
    assert(texel[0] == image.data[at] && texel[1] == image.data[at + 1]);
    assert(texel[2] == image.data[at + 2] && texel[3] == image.data[at + 3]);
}

/// A texel's four bytes are within the image.
proof fn lemma_image_bytes(
    fmt: TextureFormat,
    width: u16,
    height: u16,
    data: Seq<u8>,
    image: ImageModel,
    x: int,
    y: int,
)
    requires
        level_decoded(fmt, width, height, data) == Ok::<ImageModel, Seq<char>>(image),
        0 <= x < width,
        0 <= y < height,
    ensures
        image.width == width,
        image.height == height,
        0 <= y * width + x < width * height,
{
    let w = width as int;
    let h = height as int;
    assert(0 <= y * w + x < w * h) by (nonlinear_arith)
        requires
            0 <= x < w,
            0 <= y < h,
    ;
}

/// A texel only depends on its own block: decoded from an image of that one
/// block, it is the same.
pub proof fn law_blocks_decode_alone(
    fmt: TextureFormat,
    width: u16,
    height: u16,
    data: Seq<u8>,
    image: ImageModel,
    alone: ImageModel,
    x: int,
    y: int,
)
    requires
        fmt is DXT1 || fmt is DXT3 || fmt is DXT5 || fmt is ATI1 || fmt is ATI2 || fmt is BC7,
        decodes_to(fmt, width, height, data, image),
        0 <= x < width,
        0 <= y < height,
        ({
            let b = y / 4 * ((width + 3) / 4) + x / 4;
            decodes_to(
                fmt,
                4,
                4,
                data.subrange(b * block_size(fmt), (b + 1) * block_size(fmt)),
                alone,
            )
        }),
    ensures
        forall|c: int|
            0 <= c < 4 ==> #[trigger] image.data[4 * (y * width + x) + c] == alone.data[4 * (4 * (y
                % 4) + x % 4) + c],
{
    let b = y / 4 * ((width + 3) / 4) + x / 4;
    let size = block_size(fmt);
    let block = data.subrange(b * size, (b + 1) * size);
    assert((b + 1) * size == b * size + size) by (nonlinear_arith);
    // The data holds the block.
    let rows = (height + 3) / 4;
    let across = (width + 3) / 4;
    assert(0 <= b && (b + 1) * size <= across * rows * size) by (nonlinear_arith)
        requires
            b == y / 4 * across + x / 4,
            0 <= x / 4 < across,
            0 <= y / 4 < rows,
            size > 0,
    ;
    assert(b * size >= 0) by (nonlinear_arith)
        requires
            b >= 0,
            size > 0,
    ;
    assert(data.len() >= across * rows * size);
    assert(block.len() == size);
    assert(block.subrange(0, size) =~= block);
    let (i, j) = (x % 4, y % 4);
    law_texel_comes_from_its_block(fmt, width, height, data, image, x, y);
    law_texel_comes_from_its_block(fmt, 4, 4, block, alone, i, j);
    assert(0int * size == 0) by (nonlinear_arith);
    assert(j / 4 * ((4 + 3) / 4) + i / 4 == 0);
    assert(i % 4 == i && j % 4 == j);
    let at = 4 * (y * width + x);
    let of = 4 * (4 * j + i);
    assert forall|c: int| 0 <= c < 4 implies #[trigger] image.data[at + c] == alone.data[of
        + c] by {
        assert(c == 0 || c == 1 || c == 2 || c == 3);
    }
}

/// A DXT1 texture is opaque. A DXT3 texture has the alpha that its blocks spell
/// out, four bits for each texel. An ATI1 texture is all red and an ATI2 texture
/// red and green, and both are opaque.
pub proof fn law_channels_are_those_stored(
    fmt: TextureFormat,
    width: u16,
    height: u16,
    data: Seq<u8>,
    image: ImageModel,
    x: int,
    y: int,
)
    requires
        decodes_to(fmt, width, height, data, image),
        0 <= x < width,
        0 <= y < height,
    ensures
        ({
            let at = 4 * (y * width + x);
            let b = y / 4 * ((width + 3) / 4) + x / 4;
            let nibbles = data[b * 16 + (4 * (y % 4) + x % 4) / 2];
            &&& fmt is DXT1 ==> image.data[at + 3] == 255
            &&& fmt is DXT3 ==> image.data[at + 3] == 17 * if x % 2 == 0 {
                nibbles % 16
            } else {
                nibbles / 16
            }
            &&& fmt is ATI1 ==> image.data[at + 1] == 0 && image.data[at + 2] == 0 && image.data[at
                + 3] == 255
            &&& fmt is ATI2 ==> image.data[at + 2] == 0 && image.data[at + 3] == 255
        }),
{
    reveal(is_block_image);
    lemma_image_bytes(fmt, width, height, data, image, x, y);
    let texel = texel_at(image, x, y);
    let at = 4 * (y * width + x);
    if fmt is DXT1 || fmt is DXT3 || fmt is ATI1 || fmt is ATI2 {
        assert(texel.len() == 4);
        assert(texel[1] == image.data[at + 1]);
        assert(texel[2] == image.data[at + 2] && texel[3] == image.data[at + 3]);
    }
    if fmt is DXT3 {
        let b = y / 4 * ((width + 3) / 4) + x / 4;
        let i = 4 * (y % 4) + x % 4;
        assert(block_of(data, 16, image.width, x, y)[i / 2] == data[b * 16 + i / 2]) by {
            let rows = (height + 3) / 4;
            let across = (width + 3) / 4;
            assert(0 <= b && (b + 1) * 16 <= across * rows * 16) by (nonlinear_arith)
                requires
                    b == y / 4 * across + x / 4,
                    0 <= x / 4 < across,
                    0 <= y / 4 < rows,
            ;
        }
    }
}

/// A level is decoded if and only if there are enough bytes for it, in any
/// format but one that is not known.
pub proof fn law_complete_levels_are_decoded(
    fmt: TextureFormat,
    width: u16,
    height: u16,
    data: Seq<u8>,
)
    ensures
        level_decoded(fmt, width, height, data) is Ok <==> match fmt {
            TextureFormat::Unknown => false,
            TextureFormat::A8R8G8B8 | TextureFormat::X8R8G8B8 | TextureFormat::A8B8G8R8 => {
                data.len() >= 4 * (width * height)
            },
            TextureFormat::A1R5G5B5 => data.len() >= 2 * (width * height),
            TextureFormat::A8 | TextureFormat::L8 => data.len() >= width * height,
            _ => data.len() >= (width + 3) / 4 * ((height + 3) / 4) * block_size(fmt),
        },
{
    let n = (width * height) as int;
    assert(n * 4 == 4 * n && n * 2 == 2 * n && n * 1 == n);
}

/// The bytes of a decoded pixel are its red, green, blue and alpha, where a
/// pixel counts blue once, green 256 times, red 256 times as much, and alpha 256
/// times as much again.
pub proof fn law_pixel_bytes(pixels: Seq<u32>, i: int)
    requires
        0 <= i < pixels.len(),
    ensures
        rgba_bytes(pixels).len() == 4 * pixels.len(),
        pixels[i] == 0x1_0000 * rgba_bytes(pixels)[4 * i] + 0x100 * rgba_bytes(pixels)[4 * i + 1]
            + rgba_bytes(pixels)[4 * i + 2] + 0x100_0000 * rgba_bytes(pixels)[4 * i + 3],
{
    let p = pixels[i];
    assert((4 * i) / 4 == i && (4 * i) % 4 == 0);
    assert((4 * i + 1) / 4 == i && (4 * i + 1) % 4 == 1);
    assert((4 * i + 2) / 4 == i && (4 * i + 2) % 4 == 2);
    assert((4 * i + 3) / 4 == i && (4 * i + 3) % 4 == 3);
    assert(rgba_bytes(pixels)[4 * i] == p / 0x1_0000 % 256);
    assert(rgba_bytes(pixels)[4 * i + 1] == p / 0x100 % 256);
    assert(rgba_bytes(pixels)[4 * i + 2] == p % 256);
    assert(rgba_bytes(pixels)[4 * i + 3] == p / 0x100_0000);
}

// ---------------------------------------------------------------------------
// Texels that are stored one by one
// ---------------------------------------------------------------------------

/// What the bytes of a stored texel mean, in the formats without blocks. The
/// texel in column `x` and row `y` is the `y * width + x`-th of the data.
pub proof fn law_stored_texels_are_decoded(
    fmt: TextureFormat,
    width: u16,
    height: u16,
    data: Seq<u8>,
    image: ImageModel,
    x: int,
    y: int,
)
    requires
        decodes_to(fmt, width, height, data, image),
        0 <= x < width,
        0 <= y < height,
    ensures
        ({
            let i = y * width + x;
            let px = image.data;
            let word = data[2 * i] + 256 * data[2 * i + 1];
            &&& image.width == width
            &&& image.height == height
            &&& fmt is A8R8G8B8 ==> px[4 * i] == data[4 * i + 2] && px[4 * i + 1] == data[4 * i + 1]
                && px[4 * i + 2] == data[4 * i] && px[4 * i + 3] == data[4 * i + 3]
            &&& fmt is X8R8G8B8 ==> px[4 * i] == data[4 * i + 2] && px[4 * i + 1] == data[4 * i + 1]
                && px[4 * i + 2] == data[4 * i] && px[4 * i + 3] == 255
            &&& fmt is A8B8G8R8 ==> px[4 * i] == data[4 * i] && px[4 * i + 1] == data[4 * i + 1]
                && px[4 * i + 2] == data[4 * i + 2] && px[4 * i + 3] == data[4 * i + 3]
            &&& fmt is A8 ==> px[4 * i] == 255 && px[4 * i + 1] == 255 && px[4 * i + 2] == 255
                && px[4 * i + 3] == data[i]
            &&& fmt is L8 ==> px[4 * i] == data[i] && px[4 * i + 1] == data[i] && px[4 * i + 2]
                == data[i] && px[4 * i + 3] == 255
            &&& fmt is A1R5G5B5 ==> {
                // The word is put together again from its fields, and the low
                // bits of each byte repeat the high ones.
                &&& word == 1024 * (px[4 * i] / 8) + 32 * (px[4 * i + 1] / 8) + px[4 * i + 2] / 8
                    + 32768 * (px[4 * i + 3] / 255)
                &&& px[4 * i] % 8 == px[4 * i] / 32
                &&& px[4 * i + 1] % 8 == px[4 * i + 1] / 32
                &&& px[4 * i + 2] % 8 == px[4 * i + 2] / 32
                &&& px[4 * i + 3] == 0 || px[4 * i + 3] == 255
            }
        }),
{
    lemma_image_bytes(fmt, width, height, data, image, x, y);
    let i = y * width + x;
    let px = image.data;
    if fmt.spec_is_raw() {
        assert((4 * i) / 4 == i && (4 * i) % 4 == 0);
        assert((4 * i + 1) / 4 == i && (4 * i + 1) % 4 == 1);
        assert((4 * i + 2) / 4 == i && (4 * i + 2) % 4 == 2);
        assert((4 * i + 3) / 4 == i && (4 * i + 3) % 4 == 3);
        let t = decoded_texel(fmt, data, i);
        assert(px[4 * i] == t[0] && px[4 * i + 1] == t[1]);
        assert(px[4 * i + 2] == t[2] && px[4 * i + 3] == t[3]);
        if fmt is A1R5G5B5 {
            lemma_word_decoded(data, i);
        }
    }
}

proof fn lemma_word_decoded(data: Seq<u8>, i: int)
    ensures
        ({
            let t = decoded_texel(TextureFormat::A1R5G5B5, data, i);
            &&& data[2 * i] + 256 * data[2 * i + 1] == 1024 * (t[0] / 8) + 32 * (t[1] / 8) + t[2] / 8
                + 32768 * (t[3] / 255)
            &&& t[0] % 8 == t[0] / 32
            &&& t[1] % 8 == t[1] / 32
            &&& t[2] % 8 == t[2] / 32
            &&& t[3] == 0 || t[3] == 255
        }),
{
    let word = data[2 * i] + 256 * data[2 * i + 1];
    let t = decoded_texel(TextureFormat::A1R5G5B5, data, i);
    let (r, g, b) = (word / 1024 % 32, word / 32 % 32, word % 32);
    lemma_spread(r);
    lemma_spread(g);
    lemma_spread(b);
    assert(t[0] == 8 * r + r / 4);
    assert(t[1] == 8 * g + g / 4);
    assert(t[2] == 8 * b + b / 4);
    lemma_word_parts(word);
}

proof fn lemma_word_parts(word: int)
    requires
        0 <= word < 65536,
    ensures
        word == 1024 * (word / 1024 % 32) + 32 * (word / 32 % 32) + word % 32 + 32768 * (word
            / 32768),
        word >= 32768 <==> word / 32768 == 1,
{
}

proof fn lemma_spread(v: int)
    requires
        0 <= v < 32,
    ensures
        0 <= 8 * v + v / 4 < 256,
        (8 * v + v / 4) / 8 == v,
        (8 * v + v / 4) % 8 == (8 * v + v / 4) / 32,
{
}

proof fn lemma_texel_place(fmt: TextureFormat, rgba: Seq<u8>, n: nat, i: int)
    requires
        fmt.spec_is_raw(),
        0 <= i < n,
        4 * n <= rgba.len(),
    ensures
        encoded_texels(fmt, rgba, n).len() == n * fmt.spec_unit_bytes(),
        forall|c: int|
            0 <= c < fmt.spec_unit_bytes() ==> (#[trigger] encoded_texels(
                fmt,
                rgba,
                n,
            )[i * fmt.spec_unit_bytes() + c]) == encoded_texel(
                fmt,
                rgba.subrange(4 * i, 4 * i + 4),
            )[c],
    decreases n,
{
    let unit = fmt.spec_unit_bytes() as int;
    let before = encoded_texels(fmt, rgba, (n - 1) as nat);
    let last = encoded_texel(fmt, rgba.subrange(4 * (n - 1), 4 * n as int));
    assert(last.len() == unit);
    assert(n * unit == (n - 1) * unit + unit) by (nonlinear_arith);
    if n == 1 {
        assert(before.len() == 0);
        assert((n - 1) * unit == 0) by (nonlinear_arith)
            requires
                n == 1,
        ;
    } else {
        lemma_texel_place(fmt, rgba, (n - 1) as nat, if i < n - 1 {
            i
        } else {
            0
        });
    }
    assert(before.len() == (n - 1) * unit);
    let all = encoded_texels(fmt, rgba, n);
    assert(all == before + last);
    assert forall|c: int| 0 <= c < unit implies #[trigger] all[i * unit + c] == encoded_texel(
        fmt,
        rgba.subrange(4 * i, 4 * i + 4),
    )[c] by {
        if i < n - 1 {
            assert(0 <= i * unit && i * unit + unit <= (n - 1) * unit) by (nonlinear_arith)
                requires
                    0 <= i < n - 1,
                    unit > 0,
            ;
            assert(all[i * unit + c] == before[i * unit + c]);
        } else {
            assert(4 * i + 4 == 4 * n);
        }
    }
}

/// The bytes that a texel is stored as, in the formats without blocks: each
/// texel of the image, in its order, and nothing else.
pub proof fn law_texels_are_stored(
    fmt: TextureFormat,
    quality: Quality,
    image: ImageModel,
    bytes: Seq<u8>,
    i: int,
)
    requires
        is_level(fmt, quality, image, bytes),
        image.wf(),
        0 <= i < image.width * image.height,
    ensures
        ({
            let px = image.data;
            let n = image.width * image.height;
            &&& fmt is A8R8G8B8 ==> bytes.len() == 4 * n && bytes[4 * i] == px[4 * i + 2] && bytes[4
                * i + 1] == px[4 * i + 1] && bytes[4 * i + 2] == px[4 * i] && bytes[4 * i + 3]
                == px[4 * i + 3]
            &&& fmt is X8R8G8B8 ==> bytes.len() == 4 * n && bytes[4 * i] == px[4 * i + 2] && bytes[4
                * i + 1] == px[4 * i + 1] && bytes[4 * i + 2] == px[4 * i] && bytes[4 * i + 3]
                == 255
            &&& fmt is A8B8G8R8 ==> bytes == px
            &&& fmt is A8 ==> bytes.len() == n && bytes[i] == px[4 * i + 3]
            &&& fmt is L8 ==> bytes.len() == n && bytes[i] == px[4 * i]
            &&& fmt is A1R5G5B5 ==> bytes.len() == 2 * n && bytes[2 * i] + 256 * bytes[2 * i + 1]
                == 1024 * (px[4 * i] / 8) + 32 * (px[4 * i + 1] / 8) + px[4 * i + 2] / 8 + 32768 * (
            px[4 * i + 3] / 128)
        }),
{
    if fmt.spec_is_raw() {
        let n = image.width * image.height;
        let px = image.data;
        lemma_texel_place(fmt, px, n, i);
        let unit = fmt.spec_unit_bytes() as int;
        let own = px.subrange(4 * i, 4 * i + 4);
        let t = encoded_texel(fmt, own);
        assert(raw_encoded(fmt, image) == Ok::<Seq<u8>, PixelError>(bytes));
        assert(bytes == encoded_texels(fmt, px, n));
        assert(unit == 4 ==> i * unit == 4 * i && n * unit == 4 * n) by (nonlinear_arith);
        assert(unit == 2 ==> i * unit == 2 * i && n * unit == 2 * n) by (nonlinear_arith);
        assert(unit == 1 ==> i * unit == i && n * unit == n) by (nonlinear_arith);
        assert(bytes[i * unit + 0] == t[0]);
        if unit >= 2 {
            assert(bytes[i * unit + 1] == t[1]);
        }
        if unit == 4 {
            assert(bytes[i * unit + 2] == t[2]);
            assert(bytes[i * unit + 3] == t[3]);
        }
        assert(own[0] == px[4 * i] && own[1] == px[4 * i + 1]);
        assert(own[2] == px[4 * i + 2] && own[3] == px[4 * i + 3]);
        if fmt is A8B8G8R8 {
            lemma_stored_as_it_is(px, n);
        }
        if fmt is A1R5G5B5 {
            lemma_word_stored(own);
        }
    }
}

proof fn lemma_stored_as_it_is(px: Seq<u8>, n: nat)
    requires
        px.len() == 4 * n,
    ensures
        encoded_texels(TextureFormat::A8B8G8R8, px, n) == px,
{
    let fmt = TextureFormat::A8B8G8R8;
    let bytes = encoded_texels(fmt, px, n);
    if n > 0 {
        lemma_texel_place(fmt, px, n, 0);
    }
    assert forall|k: int| 0 <= k < bytes.len() implies bytes[k] == px[k] by {
        let j = k / 4;
        lemma_texel_place(fmt, px, n, j);
        assert(bytes[j * 4 + k % 4] == encoded_texel(fmt, px.subrange(4 * j, 4 * j + 4))[k % 4]);
    }
    assert(bytes =~= px);
}

proof fn lemma_word_stored(own: Seq<u8>)
    ensures
        ({
            let t = encoded_texel(TextureFormat::A1R5G5B5, own);
            t[0] + 256 * t[1] == 1024 * (own[0] / 8) + 32 * (own[1] / 8) + own[2] / 8 + 32768 * (
            own[3] / 128)
        }),
{
    let v = packed_word(own);
    assert(0 <= v < 65536);
    assert(v % 256 + 256 * (v / 256) == v);
}

// ---------------------------------------------------------------------------
// Levels
// ---------------------------------------------------------------------------

/// The bytes of a level: four, two or one for a texel, or eight or sixteen for
/// a block. DXT3 has a block for each four columns and rows begun, the others
/// one for each sixteen texels begun.
pub open spec fn level_size(fmt: TextureFormat, width: nat, height: nat) -> nat {
    match fmt {
        TextureFormat::A8 | TextureFormat::L8 => width * height,
        TextureFormat::A1R5G5B5 => 2 * (width * height),
        TextureFormat::DXT1 | TextureFormat::ATI1 => 8 * ((width * height + 15) / 16),
        TextureFormat::DXT3 => 16 * ((width + 3) / 4 * ((height + 3) / 4)),
        TextureFormat::DXT5 | TextureFormat::ATI2 | TextureFormat::BC7 => {
            16 * ((width * height + 15) / 16)
        },
        _ => 4 * (width * height),
    }
}

proof fn lemma_level_size(fmt: TextureFormat, width: nat, height: nat)
    ensures
        level_bytes(fmt, width, height) == level_size(fmt, width, height),
{
    let n = width * height;
    assert(n * 4 == 4 * n && n * 2 == 2 * n && n * 1 == n);
    let a = (width + 3) / 4 * ((height + 3) / 4);
    assert(a * 16 == 16 * a);
}

/// Each block format has its own compressor, which gets all of the image. BC7
/// gets one of the presets that keep alpha if and only if a texel is not fully
/// opaque, and a preset of the quality's own effort.
pub proof fn law_levels_are_compressed(
    fmt: TextureFormat,
    quality: Quality,
    image: ImageModel,
    bytes: Seq<u8>,
)
    requires
        is_level(fmt, quality, image, bytes),
    ensures
        bytes.len() == level_size(fmt, image.width, image.height),
        ({
            let (px, w, h) = (image.data, image.width, image.height);
            let keeps_alpha = exists|i: int| 0 <= i < w * h && #[trigger] px[4 * i + 3] != 255;
            &&& fmt is DXT1 ==> may_be_bc1(px, w, h, bytes)
            &&& fmt is DXT3 ==> bytes == bc2_blocks(px, w, h)
            &&& fmt is DXT5 ==> may_be_bc3(px, w, h, bytes)
            &&& fmt is ATI1 ==> may_be_bc4(px, w, h, 4 * w, bytes)
            &&& fmt is ATI2 ==> may_be_bc5(px, w, h, 4 * w, bytes)
            &&& fmt is BC7 ==> exists|effort: Bc7Effort|
                {
                    &&& #[trigger] may_be_bc7(px, w, h, effort, bytes)
                    &&& keeps_alpha <==> effort is AlphaVeryFast || effort is AlphaBasic || effort
                        is AlphaSlow
                    &&& quality is Fast <==> effort is AlphaVeryFast || effort is OpaqueVeryFast
                    &&& quality is Slow <==> effort is AlphaSlow || effort is OpaqueSlow
                }
        }),
{
    lemma_level_size(fmt, image.width, image.height);
    let (px, w, h) = (image.data, image.width, image.height);
    let keeps_alpha = exists|i: int| 0 <= i < w * h && #[trigger] px[4 * i + 3] != 255;
    assert(keeps_alpha == has_alpha(image)) by {
        if has_alpha(image) {
            let i = choose|i: int| 0 <= i < w * h && (#[trigger] alpha_at(px, i)) != 255;
            assert(px[4 * i + 3] != 255);
        }
        if keeps_alpha {
            let i = choose|i: int| 0 <= i < w * h && #[trigger] px[4 * i + 3] != 255;
            assert(alpha_at(px, i) != 255);
        }
    }
    if fmt is BC7 {
        assert(may_be_bc7(px, w, h, effort_of(quality, has_alpha(image)), bytes));
    }
}

// ---------------------------------------------------------------------------
// Mipmap chains
// ---------------------------------------------------------------------------

/// A side after it was halved `k` times, never below four.
pub open spec fn side_at(side: nat, k: nat) -> nat
    decreases k,
{
    if k == 0 {
        side
    } else if side_at(side, (k - 1) as nat) / 2 < 4 {
        4
    } else {
        side_at(side, (k - 1) as nat) / 2
    }
}

/// Where the `k`-th level starts: behind the levels before it.
pub open spec fn level_start(fmt: TextureFormat, width: nat, height: nat, k: nat) -> nat
    decreases k,
{
    if k == 0 {
        0
    } else {
        level_start(fmt, width, height, (k - 1) as nat) + level_size(
            fmt,
            side_at(width, (k - 1) as nat),
            side_at(height, (k - 1) as nat),
        )
    }
}

/// The bytes of the `k`-th level.
pub open spec fn level_at(
    fmt: TextureFormat,
    width: nat,
    height: nat,
    bytes: Seq<u8>,
    k: nat,
) -> Seq<u8> {
    bytes.subrange(
        level_start(fmt, width, height, k) as int,
        level_start(fmt, width, height, k + 1) as int,
    )
}

/// Whether images are the levels of a chain: the base, and each other one
/// resampled from the one before to half its size.
pub open spec fn are_levels(base: ImageModel, images: Seq<ImageModel>) -> bool {
    &&& images.len() > 0
    &&& images[0] == base
    &&& forall|k: int|
        0 <= k < images.len() ==> (#[trigger] images[k]).width == side_at(base.width, k as nat)
            && images[k].height == side_at(base.height, k as nat)
    &&& forall|k: int|
        0 < k < images.len() ==> may_be_lanczos(
            images[k - 1].data,
            images[k - 1].width,
            images[k - 1].height,
            images[k].width,
            images[k].height,
            (#[trigger] images[k]).data,
        )
}

proof fn lemma_joined_len(parts: Seq<Seq<u8>>, k: int)
    requires
        0 <= k < parts.len(),
    ensures
        joined(parts.take(k)).len() + parts[k].len() == joined(parts.take(k + 1)).len(),
        joined(parts.take(k + 1)).len() <= joined(parts).len(),
        joined(parts).subrange(
            joined(parts.take(k)).len() as int,
            joined(parts.take(k + 1)).len() as int,
        ) == parts[k],
    decreases parts.len(),
{
    let all = joined(parts);
    let start = joined(parts.take(k)).len() as int;
    assert(parts.take(k + 1).drop_last() =~= parts.take(k));
    assert(parts.take(k + 1).last() == parts[k]);
    if k == parts.len() - 1 {
        assert(parts.take(k + 1) =~= parts);
        assert(all.subrange(start, all.len() as int) =~= parts[k]);
    } else {
        let front = parts.drop_last();
        lemma_joined_len(front, k);
        assert(front.take(k) =~= parts.take(k));
        assert(front.take(k + 1) =~= parts.take(k + 1));
        let end = joined(parts.take(k + 1)).len() as int;
        assert(all.subrange(start, end) =~= joined(front).subrange(start, end));
    }
}

proof fn lemma_level_starts(
    fmt: TextureFormat,
    quality: Quality,
    base: ImageModel,
    max_levels: nat,
    images: Seq<ImageModel>,
    parts: Seq<Seq<u8>>,
    k: nat,
)
    requires
        is_chain(fmt, quality, base, max_levels, images, parts),
        k <= parts.len(),
    ensures
        joined(parts.take(k as int)).len() == level_start(fmt, base.width, base.height, k),
        k < parts.len() ==> images[k as int].width == side_at(base.width, k)
            && images[k as int].height == side_at(base.height, k),
    decreases k,
{
    if k > 0 {
        let j = (k - 1) as nat;
        lemma_level_starts(fmt, quality, base, max_levels, images, parts, j);
        lemma_joined_len(parts, j as int);
        let image = images[j as int];
        assert(is_level(fmt, quality, image, parts[j as int]));
        lemma_level_size(fmt, image.width, image.height);
        if k < parts.len() {
            assert(images[j as int + 1] == images[k as int]);
        }
    } else {
        assert(parts.take(0).len() == 0);
    }
}

/// A chain holds its levels one after the other, the base first. Each level
/// starts where the one before ends, and is an encoding of an image of half the
/// size of that one, resampled from it.
pub proof fn law_chain_is_laid_out(
    fmt: TextureFormat,
    quality: Quality,
    base: ImageModel,
    max_levels: nat,
    bytes: Seq<u8>,
    levels: nat,
)
    requires
        is_mip_chain(fmt, quality, base, max_levels, bytes, levels),
    ensures
        bytes.len() == level_start(fmt, base.width, base.height, levels),
        exists|images: Seq<ImageModel>|
            {
                &&& #[trigger] are_levels(base, images)
                &&& images.len() == levels
                &&& forall|k: int|
                    0 <= k < levels ==> is_level(
                        fmt,
                        quality,
                        #[trigger] images[k],
                        level_at(fmt, base.width, base.height, bytes, k as nat),
                    )
            },
{
    let (images, parts) = choose|images: Seq<ImageModel>, parts: Seq<Seq<u8>>| #[trigger]
        is_chain(fmt, quality, base, max_levels, images, parts) && bytes == joined(parts) && levels
            == parts.len();
    lemma_level_starts(fmt, quality, base, max_levels, images, parts, levels);
    assert(parts.take(levels as int) =~= parts);
    assert forall|k: int| 0 <= k < images.len() implies (#[trigger] images[k]).width == side_at(
        base.width,
        k as nat,
    ) && images[k].height == side_at(base.height, k as nat) by {
        lemma_level_starts(fmt, quality, base, max_levels, images, parts, k as nat);
    }
    assert forall|k: int| 0 < k < images.len() implies may_be_lanczos(
        images[k - 1].data,
        images[k - 1].width,
        images[k - 1].height,
        images[k].width,
        images[k].height,
        (#[trigger] images[k]).data,
    ) by {
        let before = images[k - 1];
        assert(images[k - 1 + 1] == images[k]);
    }
    assert(are_levels(base, images));
    assert forall|k: int| 0 <= k < levels implies is_level(
        fmt,
        quality,
        #[trigger] images[k],
        level_at(fmt, base.width, base.height, bytes, k as nat),
    ) by {
        lemma_level_starts(fmt, quality, base, max_levels, images, parts, k as nat);
        lemma_level_starts(fmt, quality, base, max_levels, images, parts, (k + 1) as nat);
        lemma_joined_len(parts, k);
    }
}

/// The bytes of a chain start with those of the base image.
pub proof fn law_base_comes_first(
    fmt: TextureFormat,
    quality: Quality,
    base: ImageModel,
    max_levels: nat,
    bytes: Seq<u8>,
    levels: nat,
)
    requires
        is_mip_chain(fmt, quality, base, max_levels, bytes, levels),
    ensures
        level_size(fmt, base.width, base.height) <= bytes.len(),
        is_level(
            fmt,
            quality,
            base,
            bytes.take(level_size(fmt, base.width, base.height) as int),
        ),
{
    let (images, parts) = choose|images: Seq<ImageModel>, parts: Seq<Seq<u8>>| #[trigger]
        is_chain(fmt, quality, base, max_levels, images, parts) && bytes == joined(parts) && levels
            == parts.len();
    lemma_joined_len(parts, 0);
    lemma_level_size(fmt, base.width, base.height);
    assert(parts.take(0).len() == 0);
    assert(is_level(fmt, quality, images[0], parts[0]));
    assert(bytes.take(parts[0].len() as int) =~= bytes.subrange(0, parts[0].len() as int));
}

/// A chain goes on until a side is down to four texels or the limit is reached,
/// and has at least one level.
pub proof fn law_chain_goes_on(
    fmt: TextureFormat,
    quality: Quality,
    base: ImageModel,
    max_levels: nat,
    bytes: Seq<u8>,
    levels: nat,
)
    requires
        is_mip_chain(fmt, quality, base, max_levels, bytes, levels),
    ensures
        levels >= 1,
        levels >= max_levels || side_at(base.width, (levels - 1) as nat) <= 4 || side_at(
            base.height,
            (levels - 1) as nat,
        ) <= 4,
        forall|k: nat|
            k + 1 < levels ==> k + 1 < max_levels && #[trigger] side_at(base.width, k) > 4
                && side_at(base.height, k) > 4,
{
    let (images, parts) = choose|images: Seq<ImageModel>, parts: Seq<Seq<u8>>| #[trigger]
        is_chain(fmt, quality, base, max_levels, images, parts) && bytes == joined(parts) && levels
            == parts.len();
    lemma_level_starts(fmt, quality, base, max_levels, images, parts, (levels - 1) as nat);
    assert forall|k: nat| k + 1 < levels implies k + 1 < max_levels && #[trigger] side_at(
        base.width,
        k,
    ) > 4 && side_at(base.height, k) > 4 by {
        lemma_level_starts(fmt, quality, base, max_levels, images, parts, k);
        assert(images[k as int].width > 4);
    }
}

} // verus!
