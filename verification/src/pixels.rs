//! Images, and the formats that store one texel after the other.

use crate::text::push_decimal;
use crate::texture_format::{format_unit_bytes, is_raw_format, TextureFormat};
use vstd::prelude::*;

verus! {

/// An image of red, green, blue and alpha bytes, row by row.
#[derive(Debug)]
pub struct RgbaImage {
    pub width: u32,
    pub height: u32,
    pub data: Vec<u8>,
}

/// The contents of an image.
#[verifier::ext_equal]
pub struct ImageModel {
    pub width: nat,
    pub height: nat,
    pub data: Seq<u8>,
}

impl View for RgbaImage {
    type V = ImageModel;

    open spec fn view(&self) -> ImageModel {
        ImageModel { width: self.width as nat, height: self.height as nat, data: self.data@ }
    }
}

impl ImageModel {
    /// The image has four bytes for each texel.
    pub open spec fn wf(self) -> bool {
        self.data.len() == 4 * (self.width * self.height)
    }
}

/// Why an image cannot be decoded or encoded.
#[derive(Debug)]
pub enum PixelError {
    /// There are fewer bytes than the size asks for.
    TooShort { format: TextureFormat, width: u16, height: u16 },
    /// The format cannot be decoded.
    NoDecoder { format: TextureFormat },
    /// The format cannot be encoded.
    NoEncoder { format: TextureFormat },
    /// Decoding the blocks failed.
    Decode { message: String },
}

impl PixelError {
    /// The text that reports the error.
    pub open spec fn spec_message(self) -> Seq<char> {
        match self {
            PixelError::TooShort { format, width, height } => "pixel data too short for "@
                + format.spec_name() + " at "@ + crate::text::decimal(width as nat) + "x"@
                + crate::text::decimal(height as nat),
            PixelError::NoDecoder { format } => "no decoder for "@ + format.spec_name(),
            PixelError::NoEncoder { format } => "no encoder for "@ + format.spec_name(),
            PixelError::Decode { message } => "decode failed: "@ + message@,
        }
    }

    /// The text that reports the error.
    pub fn message(&self) -> (res: String)
        ensures
            res@ == self.spec_message(),
    {
        let mut out = String::new();
        match self {
            PixelError::TooShort { format, width, height } => {
                out.append("pixel data too short for ");
                out.append(format.name());
                out.append(" at ");
                push_decimal(&mut out, *width as u64);
                out.append("x");
                push_decimal(&mut out, *height as u64);
            },
            PixelError::NoDecoder { format } => {
                out.append("no decoder for ");
                out.append(format.name());
            },
            PixelError::NoEncoder { format } => {
                out.append("no encoder for ");
                out.append(format.name());
            },
            PixelError::Decode { message } => {
                out.append("decode failed: ");
                out.append(message.as_str());
            },
        }
        proof {
            assert(out@ =~= self.spec_message());
        }
        out
    }
}

/// Five bits spread over eight: the highest of them fill the places below.
pub open spec fn five_to_eight(v: int) -> int {
    8 * v + v / 4
}

/// The sixteen bits of a texel that is stored in two bytes.
pub open spec fn word_at(data: Seq<u8>, i: int) -> int {
    data[2 * i] + 256 * data[2 * i + 1]
}

/// The red, green, blue and alpha bytes of the texel in place `i`.
pub open spec fn decoded_texel(fmt: TextureFormat, data: Seq<u8>, i: int) -> Seq<u8> {
    match fmt {
        TextureFormat::A8R8G8B8 => seq![
            data[4 * i + 2],
            data[4 * i + 1],
            data[4 * i],
            data[4 * i + 3],
        ],
        TextureFormat::X8R8G8B8 => seq![data[4 * i + 2], data[4 * i + 1], data[4 * i], 255u8],
        TextureFormat::A8B8G8R8 => seq![
            data[4 * i],
            data[4 * i + 1],
            data[4 * i + 2],
            data[4 * i + 3],
        ],
        TextureFormat::A1R5G5B5 => {
            let v = word_at(data, i);
            seq![
                five_to_eight(v / 1024 % 32) as u8,
                five_to_eight(v / 32 % 32) as u8,
                five_to_eight(v % 32) as u8,
                if v >= 32768 {
                    255u8
                } else {
                    0u8
                },
            ]
        },
        TextureFormat::A8 => seq![255u8, 255u8, 255u8, data[i]],
        _ => seq![data[i], data[i], data[i], 255u8],
    }
}

/// The first `n` texels.
pub open spec fn decoded_texels(fmt: TextureFormat, data: Seq<u8>, n: nat) -> Seq<u8> {
    Seq::new(4 * n, |k: int| decoded_texel(fmt, data, k / 4)[k % 4])
}

/// What decoding texels that are stored one after the other gives.
pub open spec fn raw_decoded(
    fmt: TextureFormat,
    width: u16,
    height: u16,
    data: Seq<u8>,
) -> Result<ImageModel, PixelError> {
    if data.len() < width * height * fmt.spec_unit_bytes() {
        Err(PixelError::TooShort { format: fmt, width, height })
    } else if !fmt.spec_is_raw() {
        Err(PixelError::NoDecoder { format: fmt })
    } else {
        Ok(
            ImageModel {
                width: width as nat,
                height: height as nat,
                data: decoded_texels(fmt, data, (width * height) as nat),
            },
        )
    }
}

/// The red, green, blue and alpha bytes of the texel in place `i`.
fn decode_texel(fmt: TextureFormat, data: &[u8], i: usize) -> (res: [u8; 4])
    requires
        fmt.spec_is_raw(),
        i < 0x1_0000_0000,
        usize::MAX == u64::MAX,
        (i + 1) * fmt.spec_unit_bytes() <= data@.len(),
    ensures
        res@ == decoded_texel(fmt, data@, i as int),
{
    let res: [u8; 4] = match fmt {
        TextureFormat::A8R8G8B8 => [data[4 * i + 2], data[4 * i + 1], data[4 * i], data[4 * i + 3]],
        TextureFormat::X8R8G8B8 => [data[4 * i + 2], data[4 * i + 1], data[4 * i], 255],
        TextureFormat::A8B8G8R8 => [data[4 * i], data[4 * i + 1], data[4 * i + 2], data[4 * i + 3]],
        TextureFormat::A1R5G5B5 => {
            let v: u16 = data[2 * i] as u16 + 256 * data[2 * i + 1] as u16;
            let r5: u8 = (v / 1024 % 32) as u8;
            let g5: u8 = (v / 32 % 32) as u8;
            let b5: u8 = (v % 32) as u8;
            let a: u8 = if v >= 32768 {
                255
            } else {
                0
            };
            [8 * r5 + r5 / 4, 8 * g5 + g5 / 4, 8 * b5 + b5 / 4, a]
        },
        TextureFormat::A8 => [255, 255, 255, data[i]],
        _ => [data[i], data[i], data[i], 255],
    };
    proof {
        assert(res@ =~= decoded_texel(fmt, data@, i as int));
    }
    res
}

/// Decodes texels that are stored one after the other.
pub fn decode_raw(fmt: TextureFormat, width: u16, height: u16, data: &[u8]) -> (res: Result<
    RgbaImage,
    PixelError,
>)
    requires
        usize::MAX == u64::MAX,
    ensures
        match res {
            Ok(image) => raw_decoded(fmt, width, height, data@) == Ok::<ImageModel, PixelError>(
                image@,
            ) && image@.wf(),
            Err(e) => raw_decoded(fmt, width, height, data@) == Err::<ImageModel, PixelError>(e),
        },
{
    let unit: usize = format_unit_bytes(fmt);
    proof {
        assert(width * height <= 0xffff * 0xffff) by (nonlinear_arith)
            requires
                width <= 0xffff,
                height <= 0xffff,
        ;
        assert((width * height) * unit <= 0x10_0000_0000) by (nonlinear_arith)
            requires
                0 <= width * height <= 0xffff * 0xffff,
                unit <= 16,
        ;
    }
    let count: usize = width as usize * height as usize;
    if data.len() < count * unit {
        return Err(PixelError::TooShort { format: fmt, width, height });
    }
    if !is_raw_format(fmt) {
        return Err(PixelError::NoDecoder { format: fmt });
    }
    let mut rgba: Vec<u8> = Vec::new();
    let mut i: usize = 0;
    proof {
        assert(rgba@ =~= decoded_texels(fmt, data@, 0));
    }
    while i < count
        invariant
            usize::MAX == u64::MAX,
            fmt.spec_is_raw(),
            unit == fmt.spec_unit_bytes(),
            i <= count <= 0xffff * 0xffff,
            count * unit <= data@.len(),
            rgba@ == decoded_texels(fmt, data@, i as nat),
        decreases count - i,
    {
        proof {
            assert((i + 1) * unit <= count * unit) by (nonlinear_arith)
                requires
                    i + 1 <= count,
            ;
        }
        let texel: [u8; 4] = decode_texel(fmt, data, i);
        rgba.push(texel[0]);
        rgba.push(texel[1]);
        rgba.push(texel[2]);
        rgba.push(texel[3]);
        proof {
            assert(rgba@ =~= decoded_texels(fmt, data@, (i + 1) as nat));
        }
        i = i + 1;
    }
    Ok(RgbaImage { width: width as u32, height: height as u32, data: rgba })
}

/// The sixteen bits that a texel is stored as: one of alpha, and five each of
/// red, green and blue.
pub open spec fn packed_word(px: Seq<u8>) -> int {
    (if px[3] >= 128 {
        32768int
    } else {
        0
    }) + 1024 * (px[0] / 8) + 32 * (px[1] / 8) + px[2] / 8
}

/// The bytes that a texel is stored as.
pub open spec fn encoded_texel(fmt: TextureFormat, px: Seq<u8>) -> Seq<u8> {
    match fmt {
        TextureFormat::A8R8G8B8 => seq![px[2], px[1], px[0], px[3]],
        TextureFormat::X8R8G8B8 => seq![px[2], px[1], px[0], 255u8],
        TextureFormat::A8B8G8R8 => seq![px[0], px[1], px[2], px[3]],
        TextureFormat::A1R5G5B5 => seq![
            (packed_word(px) % 256) as u8,
            (packed_word(px) / 256) as u8,
        ],
        TextureFormat::A8 => seq![px[3]],
        _ => seq![px[0]],
    }
}

/// The bytes of the first `n` texels, one after the other.
pub open spec fn encoded_texels(fmt: TextureFormat, rgba: Seq<u8>, n: nat) -> Seq<u8>
    decreases n,
{
    if n == 0 {
        Seq::empty()
    } else {
        encoded_texels(fmt, rgba, (n - 1) as nat) + encoded_texel(
            fmt,
            rgba.subrange(4 * (n - 1), 4 * n as int),
        )
    }
}

/// What storing texels one after the other gives.
pub open spec fn raw_encoded(fmt: TextureFormat, image: ImageModel) -> Result<Seq<u8>, PixelError> {
    if !fmt.spec_is_raw() {
        Err(PixelError::NoEncoder { format: fmt })
    } else {
        Ok(encoded_texels(fmt, image.data, image.width * image.height))
    }
}

/// Appends the bytes that a texel is stored as.
fn push_texel(out: &mut Vec<u8>, fmt: TextureFormat, r: u8, g: u8, b: u8, a: u8)
    requires
        fmt.spec_is_raw(),
    ensures
        final(out)@ == old(out)@ + encoded_texel(fmt, seq![r, g, b, a]),
{
    match fmt {
        TextureFormat::A8R8G8B8 => {
            out.push(b);
            out.push(g);
            out.push(r);
            out.push(a);
        },
        TextureFormat::X8R8G8B8 => {
            out.push(b);
            out.push(g);
            out.push(r);
            out.push(255);
        },
        TextureFormat::A8B8G8R8 => {
            out.push(r);
            out.push(g);
            out.push(b);
            out.push(a);
        },
        TextureFormat::A1R5G5B5 => {
            let a1: u16 = if a >= 128 {
                32768
            } else {
                0
            };
            let v: u16 = a1 + 1024 * (r as u16 / 8) + 32 * (g as u16 / 8) + b as u16 / 8;
            out.push((v % 256) as u8);
            out.push((v / 256) as u8);
        },
        TextureFormat::A8 => {
            out.push(a);
        },
        _ => {
            out.push(r);
        },
    }
    proof {
        assert(out@ =~= old(out)@ + encoded_texel(fmt, seq![r, g, b, a]));
    }
}

/// Stores texels one after the other.
pub fn encode_raw(fmt: TextureFormat, image: &RgbaImage) -> (res: Result<Vec<u8>, PixelError>)
    requires
        image@.wf(),
    ensures
        match res {
            Ok(bytes) => raw_encoded(fmt, image@) == Ok::<Seq<u8>, PixelError>(bytes@),
            Err(e) => raw_encoded(fmt, image@) == Err::<Seq<u8>, PixelError>(e),
        },
{
    if !is_raw_format(fmt) {
        return Err(PixelError::NoEncoder { format: fmt });
    }
    let rgba = image.data.as_slice();
    let count: usize = rgba.len() / 4;
    let mut out: Vec<u8> = Vec::new();
    let mut i: usize = 0;
    while i < count
        invariant
            fmt.spec_is_raw(),
            4 * count == rgba@.len(),
            i <= count,
            4 * count <= usize::MAX,
            out@ == encoded_texels(fmt, rgba@, i as nat),
        decreases count - i,
    {
        let r: u8 = rgba[4 * i];
        let g: u8 = rgba[4 * i + 1];
        let b: u8 = rgba[4 * i + 2];
        let a: u8 = rgba[4 * i + 3];
        push_texel(&mut out, fmt, r, g, b, a);
        proof {
            assert(rgba@.subrange(4 * i as int, 4 * (i + 1) as int) =~= seq![r, g, b, a]);
        }
        i = i + 1;
    }
    Ok(out)
}

/// Storing a decoded image in its own format gives back the bytes that it was
/// decoded from, where all of them are kept: for the format without alpha, which
/// has a byte in each texel that decoding passes over, see
/// `law_opaque_round_trip`.
pub proof fn law_raw_round_trip(fmt: TextureFormat, data: Seq<u8>, n: nat)
    requires
        fmt.spec_is_raw(),
        !(fmt is X8R8G8B8),
        n * fmt.spec_unit_bytes() <= data.len(),
    ensures
        encoded_texels(fmt, decoded_texels(fmt, data, n), n) == data.take(
            (n * fmt.spec_unit_bytes()) as int,
        ),
{
    lemma_raw_round_trip(fmt, data, n, n);
}

/// Bytes of texels of four bytes each, the last of every texel replaced by 255.
pub open spec fn opaque_texels(data: Seq<u8>) -> Seq<u8> {
    data.map(|k: int, v: u8| if k % 4 == 3 { 255u8 } else { v })
}

/// Storing an image in the format without alpha that it was decoded from gives
/// back the same bytes, except that the one in each texel that decoding passes
/// over becomes 255.
pub proof fn law_opaque_round_trip(data: Seq<u8>, n: nat)
    requires
        4 * n <= data.len(),
    ensures
        encoded_texels(
            TextureFormat::X8R8G8B8,
            decoded_texels(TextureFormat::X8R8G8B8, data, n),
            n,
        ) == opaque_texels(data.take(4 * n as int)),
{
    lemma_opaque_round_trip(data, n, n);
}

proof fn lemma_opaque_round_trip(data: Seq<u8>, n: nat, m: nat)
    requires
        4 * n <= data.len(),
        m <= n,
    ensures
        encoded_texels(
            TextureFormat::X8R8G8B8,
            decoded_texels(TextureFormat::X8R8G8B8, data, n),
            m,
        ) == opaque_texels(data.take(4 * m as int)),
    decreases m,
{
    let fmt = TextureFormat::X8R8G8B8;
    let rgba = decoded_texels(fmt, data, n);
    let all = encoded_texels(fmt, rgba, m);
    let wanted = opaque_texels(data.take(4 * m as int));
    if m > 0 {
        let i = m - 1;
        lemma_opaque_round_trip(data, n, i as nat);
        let px = rgba.subrange(4 * i, 4 * m as int);
        assert(px =~= decoded_texel(fmt, data, i)) by {
            assert forall|c: int| 0 <= c < 4 implies px[c] == decoded_texel(fmt, data, i)[c] by {
                assert((4 * i + c) / 4 == i && (4 * i + c) % 4 == c);
            }
        }
        let before = opaque_texels(data.take(4 * i));
        assert(all =~= before + seq![data[4 * i], data[4 * i + 1], data[4 * i + 2], 255u8]);
        assert forall|k: int| 0 <= k < 4 * m implies all[k] == wanted[k] by {
            if k < 4 * i {
                assert(before[k] == wanted[k]);
            } else {
                assert(k % 4 == k - 4 * i);
            }
        }
    }
    assert(all =~= wanted);
}

proof fn lemma_raw_round_trip(fmt: TextureFormat, data: Seq<u8>, n: nat, m: nat)
    requires
        fmt.spec_is_raw(),
        !(fmt is X8R8G8B8),
        n * fmt.spec_unit_bytes() <= data.len(),
        m <= n,
    ensures
        encoded_texels(fmt, decoded_texels(fmt, data, n), m) == data.take(
            (m * fmt.spec_unit_bytes()) as int,
        ),
    decreases m,
{
    let unit = fmt.spec_unit_bytes();
    let rgba = decoded_texels(fmt, data, n);
    assert(m * unit <= n * unit) by (nonlinear_arith)
        requires
            m <= n,
    ;
    if m > 0 {
        let i = m - 1;
        lemma_raw_round_trip(fmt, data, n, i as nat);
        let px = rgba.subrange(4 * i, 4 * m as int);
        assert(px =~= decoded_texel(fmt, data, i)) by {
            assert forall|c: int| 0 <= c < 4 implies px[c] == decoded_texel(fmt, data, i)[c] by {
                assert((4 * i + c) / 4 == i && (4 * i + c) % 4 == c);
            }
        }
        assert(m * unit == i * unit + unit) by (nonlinear_arith)
            requires
                m == i + 1,
        ;
        lemma_texel_round_trip(fmt, data, i);
        assert(data.take((m * unit) as int) =~= data.take((i * unit) as int) + data.subrange(
            (i * unit) as int,
            (m * unit) as int,
        ));
    } else {
        assert(data.take((m * unit) as int) =~= Seq::<u8>::empty());
    }
}

proof fn lemma_texel_round_trip(fmt: TextureFormat, data: Seq<u8>, i: int)
    requires
        fmt.spec_is_raw(),
        !(fmt is X8R8G8B8),
        0 <= i,
        (i + 1) * fmt.spec_unit_bytes() <= data.len(),
    ensures
        encoded_texel(fmt, decoded_texel(fmt, data, i)) == data.subrange(
            i * fmt.spec_unit_bytes(),
            (i + 1) * fmt.spec_unit_bytes(),
        ),
{
    let unit = fmt.spec_unit_bytes();
    assert((i + 1) * unit == i * unit + unit) by (nonlinear_arith);
    assert(unit == 1 ==> i * unit == i) by (nonlinear_arith);
    assert(unit == 2 ==> i * unit == 2 * i) by (nonlinear_arith);
    assert(unit == 4 ==> i * unit == 4 * i) by (nonlinear_arith);
    let px = decoded_texel(fmt, data, i);
    if fmt is A1R5G5B5 {
        lemma_word_texel_round_trip(data, i);
    } else if unit == 1 {
        assert(encoded_texel(fmt, px) =~= data.subrange(i, i + 1));
    } else {
        assert(encoded_texel(fmt, px) =~= data.subrange(4 * i, 4 * i + 4));
    }
}

proof fn lemma_word_texel_round_trip(data: Seq<u8>, i: int)
    requires
        0 <= i,
        2 * i + 2 <= data.len(),
    ensures
        encoded_texel(
            TextureFormat::A1R5G5B5,
            decoded_texel(TextureFormat::A1R5G5B5, data, i),
        ) == data.subrange(2 * i, 2 * i + 2),
{
    let v = word_at(data, i);
    let px = decoded_texel(TextureFormat::A1R5G5B5, data, i);
    let (r, g, b) = (v / 1024 % 32, v / 32 % 32, v % 32);
    assert(0 <= v < 65536);
    lemma_five_bits(r);
    lemma_five_bits(g);
    lemma_five_bits(b);
    assert(px[0] == five_to_eight(r));
    assert(px[1] == five_to_eight(g));
    assert(px[2] == five_to_eight(b));
    assert(px[3] >= 128 <==> v >= 32768);
    lemma_word_fields(v);
    assert(packed_word(px) == v);
    lemma_word_bytes(data[2 * i], data[2 * i + 1]);
    assert(encoded_texel(TextureFormat::A1R5G5B5, px) =~= seq![data[2 * i], data[2 * i + 1]]);
    assert(data.subrange(2 * i, 2 * i + 2) =~= seq![data[2 * i], data[2 * i + 1]]);
}

/// Five bits that are spread over eight can be taken back.
proof fn lemma_five_bits(v: int)
    requires
        0 <= v < 32,
    ensures
        0 <= five_to_eight(v) < 256,
        five_to_eight(v) / 8 == v,
{
}

/// Sixteen bits, taken apart into fields, make the same word again.
proof fn lemma_word_fields(v: int)
    requires
        0 <= v < 65536,
    ensures
        v == (if v >= 32768 {
            32768int
        } else {
            0
        }) + 1024 * (v / 1024 % 32) + 32 * (v / 32 % 32) + v % 32,
{
}

/// Two bytes, put together into a word, can be taken back.
proof fn lemma_word_bytes(low: u8, high: u8)
    ensures
        (low + 256 * high) % 256 == low,
        (low + 256 * high) / 256 == high,
{
}

} // verus!
