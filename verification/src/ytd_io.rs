//! Texture dictionaries: reading the textures out of a resource file and
//! putting changed ones back.

use crate::bytes::{
    lemma_le_bytes_len, le_at, le_bytes, overwrite, put, to_le, u16_le, u32_le, u64_le,
};
use crate::resource::{
    deflate, encode_capacity_flags, inflate, inflate_start, inflated, inflated_start, resource_size,
    resource_size_from_flags, resource_version_from_flags, RSC7_MAGIC,
};
use crate::text::{push_decimal, push_hex, push_hex_padded};
use crate::texture_format::{format_of_code, format_unit_bytes, TextureFormat};
use vstd::prelude::*;
use vstd::slice::{slice_subrange, slice_to_vec};

verus! {

/// The bytes before the compressed part of a resource file.
pub const RSC_HEADER_LEN: usize = 16;

/// The bytes that describe one texture.
pub const TEXTURE_STRUCT_LEN: usize = 0x90;

/// The bytes that describe the dictionary.
pub const DICTIONARY_LEN: usize = 0x40;

/// The tag of an address in the system section.
pub const SYSTEM_TAG: u64 = 0x5000_0000;

/// The tag of an address in the graphics section.
pub const GRAPHICS_TAG: u64 = 0x6000_0000;

// ---------------------------------------------------------------------------
// Errors
// ---------------------------------------------------------------------------

/// Why a texture dictionary cannot be read or written.
#[derive(Debug)]
pub enum YtdError {
    /// There are fewer bytes than a resource header has.
    TooShort { len: usize },
    /// The first four bytes are not those of a resource file.
    NotRsc7 { magic: u32 },
    /// There are too few bytes for the dictionary's own description.
    HeaderTooSmall,
    /// There are fewer bytes than the header declares.
    SystemTruncated { len: usize, sys_size: usize },
    /// The system section cannot hold the dictionary's own description.
    SystemTooSmall { len: usize },
    /// The list of textures lies outside the file.
    PointerArray { va: u64 },
    /// There is not one patch for each texture.
    PatchCount { patches: usize, textures: usize },
    /// The bytes could not be compressed.
    Deflate { message: String },
    /// A texture or the file as a whole is beyond what can be encoded.
    TooLarge,
}

impl YtdError {
    /// The text that reports the error.
    pub open spec fn spec_message(self) -> Seq<char> {
        match self {
            YtdError::TooShort { len } => "YTD data too short ("@ + crate::text::decimal(
                len as nat,
            ) + " bytes)"@,
            YtdError::NotRsc7 { magic } => "not an RSC7 file (magic = 0x"@
                + crate::text::hex_padded(magic as nat, 8) + ")"@,
            YtdError::HeaderTooSmall => "system section too small for a TextureDictionary"@,
            YtdError::SystemTruncated { len, sys_size } => "decompressed size "@
                + crate::text::decimal(len as nat) + " smaller than declared system size "@
                + crate::text::decimal(sys_size as nat),
            YtdError::SystemTooSmall { len } =>
                "system section too small for a TextureDictionary ("@ + crate::text::decimal(
                len as nat,
            ) + " bytes)"@,
            YtdError::PointerArray { va } => "texture pointer array out of bounds (va=0x"@
                + crate::text::hex(va as nat) + ")"@,
            YtdError::PatchCount { patches, textures } => "patch count "@ + crate::text::decimal(
                patches as nat,
            ) + " != texture count "@ + crate::text::decimal(textures as nat),
            YtdError::Deflate { message } => message@,
            YtdError::TooLarge => "texture data too large"@,
        }
    }

    /// The text that reports the error.
    pub fn message(&self) -> (res: String)
        ensures
            res@ == self.spec_message(),
    {
        let mut out = String::new();
        match self {
            YtdError::TooShort { len } => {
                out.append("YTD data too short (");
                push_decimal(&mut out, *len as u64);
                out.append(" bytes)");
            },
            YtdError::NotRsc7 { magic } => {
                out.append("not an RSC7 file (magic = 0x");
                push_hex_padded(&mut out, *magic as u64, 8);
                out.append(")");
            },
            YtdError::HeaderTooSmall => {
                out.append("system section too small for a TextureDictionary");
            },
            YtdError::SystemTruncated { len, sys_size } => {
                out.append("decompressed size ");
                push_decimal(&mut out, *len as u64);
                out.append(" smaller than declared system size ");
                push_decimal(&mut out, *sys_size as u64);
            },
            YtdError::SystemTooSmall { len } => {
                out.append("system section too small for a TextureDictionary (");
                push_decimal(&mut out, *len as u64);
                out.append(" bytes)");
            },
            YtdError::PointerArray { va } => {
                out.append("texture pointer array out of bounds (va=0x");
                push_hex(&mut out, *va);
                out.append(")");
            },
            YtdError::PatchCount { patches, textures } => {
                out.append("patch count ");
                push_decimal(&mut out, *patches as u64);
                out.append(" != texture count ");
                push_decimal(&mut out, *textures as u64);
            },
            YtdError::Deflate { message } => {
                out.append(message.as_str());
            },
            YtdError::TooLarge => {
                out.append("texture data too large");
            },
        }
        proof {
            assert(out@ =~= self.spec_message());
        }
        out
    }
}

// ---------------------------------------------------------------------------
// Data
// ---------------------------------------------------------------------------

/// A texture as a dictionary holds it.
#[derive(Debug, Clone)]
pub struct RawTexture {
    pub name: String,
    pub name_hash: u32,
    pub width: u16,
    pub height: u16,
    pub depth: u16,
    pub format: TextureFormat,
    pub levels: u8,
    pub stride: u16,
    pub pixel_data: Vec<u8>,
    /// Where the texture's description starts in the system section.
    pub struct_offset: usize,
}

/// A dictionary that was read from a file.
pub struct ParsedYtd {
    pub textures: Vec<RawTexture>,
    /// The bytes of the system section.
    pub system: Vec<u8>,
    pub sys_flags: u32,
    /// The highest four bits of the graphics flags.
    pub gfx_version_nibble: u32,
}

/// What replaces a texture.
pub struct TexturePatch {
    pub width: u16,
    pub height: u16,
    pub format: TextureFormat,
    pub levels: u8,
    pub pixel_data: Vec<u8>,
}

/// The contents of a texture.
#[verifier::ext_equal]
pub struct TextureModel {
    pub name: Seq<char>,
    pub name_hash: u32,
    pub width: u16,
    pub height: u16,
    pub depth: u16,
    pub format: TextureFormat,
    pub levels: u8,
    pub stride: u16,
    pub pixel_data: Seq<u8>,
    pub struct_offset: nat,
}

/// The contents of a dictionary.
#[verifier::ext_equal]
pub struct YtdModel {
    pub textures: Seq<TextureModel>,
    pub system: Seq<u8>,
    pub sys_flags: u32,
    pub gfx_version_nibble: u32,
}

/// The contents of a patch.
#[verifier::ext_equal]
pub struct PatchModel {
    pub width: u16,
    pub height: u16,
    pub format: TextureFormat,
    pub levels: u8,
    pub pixel_data: Seq<u8>,
}

impl View for RawTexture {
    type V = TextureModel;

    open spec fn view(&self) -> TextureModel {
        TextureModel {
            name: self.name@,
            name_hash: self.name_hash,
            width: self.width,
            height: self.height,
            depth: self.depth,
            format: self.format,
            levels: self.levels,
            stride: self.stride,
            pixel_data: self.pixel_data@,
            struct_offset: self.struct_offset as nat,
        }
    }
}

impl View for ParsedYtd {
    type V = YtdModel;

    open spec fn view(&self) -> YtdModel {
        YtdModel {
            textures: self.textures@.map_values(|t: RawTexture| t@),
            system: self.system@,
            sys_flags: self.sys_flags,
            gfx_version_nibble: self.gfx_version_nibble,
        }
    }
}

impl View for TexturePatch {
    type V = PatchModel;

    open spec fn view(&self) -> PatchModel {
        PatchModel {
            width: self.width,
            height: self.height,
            format: self.format,
            levels: self.levels,
            pixel_data: self.pixel_data@,
        }
    }
}

/// The contents of a list of patches.
pub open spec fn patch_models(patches: Seq<Option<TexturePatch>>) -> Seq<Option<PatchModel>> {
    patches.map_values(
        |p: Option<TexturePatch>|
            match p {
                Some(q) => Some(q@),
                None => None,
            },
    )
}

impl YtdModel {
    /// Every texture's description lies in the system section, and the section
    /// is as long as its flags say.
    pub open spec fn wf(self) -> bool {
        &&& forall|i: int|
            0 <= i < self.textures.len() ==> (#[trigger] self.textures[i]).struct_offset
                + TEXTURE_STRUCT_LEN <= self.system.len()
        &&& self.system.len() == resource_size(self.sys_flags)
        &&& self.system.len() >= DICTIONARY_LEN
        &&& self.gfx_version_nibble < 16
    }
}

// ---------------------------------------------------------------------------
// Addresses
// ---------------------------------------------------------------------------

/// Whether `va` is an address in the system section.
pub open spec fn in_system(va: u64) -> bool {
    (va & SYSTEM_TAG) == SYSTEM_TAG && (va & GRAPHICS_TAG) != GRAPHICS_TAG
}

/// Whether `va` is an address in the graphics section.
pub open spec fn in_graphics(va: u64) -> bool {
    (va & GRAPHICS_TAG) == GRAPHICS_TAG
}

pub proof fn lemma_tags(va: u64)
    ensures
        in_system(va) ==> va >= SYSTEM_TAG,
        in_graphics(va) ==> va >= GRAPHICS_TAG,
{
    assert((va & 0x5000_0000u64) == 0x5000_0000u64 ==> va >= 0x5000_0000u64) by (bit_vector);
    assert((va & 0x6000_0000u64) == 0x6000_0000u64 ==> va >= 0x6000_0000u64) by (bit_vector);
}

/// `len` bytes of `s` from `off` on, where it has them.
pub open spec fn part(s: Seq<u8>, off: int, len: int) -> Option<Seq<u8>> {
    if off + len <= s.len() {
        Some(s.subrange(off, off + len))
    } else {
        None
    }
}

/// The `len` bytes at the address `va`.
pub open spec fn resolved(system: Seq<u8>, graphics: Seq<u8>, va: u64, len: int) -> Option<
    Seq<u8>,
> {
    if in_system(va) {
        part(system, va - SYSTEM_TAG, len)
    } else if in_graphics(va) {
        part(graphics, va - GRAPHICS_TAG, len)
    } else {
        None
    }
}

fn part_of<'a>(s: &'a [u8], off: u64, len: usize) -> (res: Option<&'a [u8]>)
    ensures
        match res {
            Some(b) => part(s@, off as int, len as int) == Some(b@),
            None => part(s@, off as int, len as int) is None,
        },
{
    let size: usize = s.len();
    if off <= size as u64 && len <= size - off as usize {
        Some(slice_subrange(s, off as usize, off as usize + len))
    } else {
        None
    }
}

/// The `len` bytes at the address `va`.
pub fn resolve<'a>(system: &'a [u8], graphics: &'a [u8], va: u64, len: usize) -> (res: Option<
    &'a [u8],
>)
    ensures
        match res {
            Some(b) => resolved(system@, graphics@, va, len as int) == Some(b@),
            None => resolved(system@, graphics@, va, len as int) is None,
        },
{
    proof {
        lemma_tags(va);
        assert(0u64 & 0x5000_0000u64 == 0) by (bit_vector);
        assert(0u64 & 0x6000_0000u64 == 0) by (bit_vector);
    }
    if va == 0 {
        return None;
    }
    if (va & SYSTEM_TAG) == SYSTEM_TAG && (va & GRAPHICS_TAG) != GRAPHICS_TAG {
        part_of(system, va - SYSTEM_TAG, len)
    } else if (va & GRAPHICS_TAG) == GRAPHICS_TAG {
        part_of(graphics, va - GRAPHICS_TAG, len)
    } else {
        None
    }
}

/// `s` up to its first zero byte.
pub open spec fn until_zero(s: Seq<u8>) -> Seq<u8>
    decreases s.len(),
{
    if s.len() == 0 || s[0] == 0 {
        Seq::empty()
    } else {
        seq![s[0]] + until_zero(s.drop_first())
    }
}

/// What `String::from_utf8_lossy` makes of bytes.
pub uninterp spec fn utf8_lossy(bytes: Seq<u8>) -> Seq<char>;

/// Calls `String::from_utf8_lossy`. The contract claims only that the text is
/// a function of the bytes.
#[verifier::external_body]
fn from_utf8_lossy(bytes: &[u8]) -> (res: String)
    ensures
        res@ == utf8_lossy(bytes@),
{
    String::from_utf8_lossy(bytes).into_owned()
}

/// The zero-terminated text at the address `va` of the system section.
pub open spec fn text_at(system: Seq<u8>, va: u64) -> Option<Seq<char>> {
    if in_system(va) && va - SYSTEM_TAG <= system.len() {
        Some(utf8_lossy(until_zero(system.skip(va - SYSTEM_TAG))))
    } else {
        None
    }
}

/// The zero-terminated text at the address `va` of the system section.
pub fn string_at(system: &[u8], va: u64) -> (res: Option<String>)
    ensures
        match res {
            Some(s) => text_at(system@, va) == Some(s@),
            None => text_at(system@, va) is None,
        },
{
    proof {
        lemma_tags(va);
    }
    if (va & SYSTEM_TAG) != SYSTEM_TAG || (va & GRAPHICS_TAG) == GRAPHICS_TAG {
        return None;
    }
    let off: u64 = va - SYSTEM_TAG;
    let size: usize = system.len();
    if off > size as u64 {
        return None;
    }
    let from: usize = off as usize;
    let mut end: usize = from;
    proof {
        assert(system@.subrange(from as int, from as int) + until_zero(system@.skip(from as int))
            =~= until_zero(system@.skip(from as int)));
    }
    while end < size && system[end] != 0
        invariant
            size == system@.len(),
            from <= end <= size,
            system@.subrange(from as int, end as int) + until_zero(system@.skip(end as int))
                == until_zero(system@.skip(from as int)),
        decreases size - end,
    {
        proof {
            let s = system@.skip(end as int);
            assert(s[0] == system@[end as int]);
            assert(s.drop_first() =~= system@.skip(end + 1));
            assert(system@.subrange(from as int, end + 1) + until_zero(system@.skip(end + 1))
                =~= system@.subrange(from as int, end as int) + until_zero(s));
        }
        end = end + 1;
    }
    proof {
        let s = system@.skip(end as int);
        if end < size {
            assert(s[0] == system@[end as int]);
        }
        assert(until_zero(s) =~= Seq::<u8>::empty());
        assert(system@.subrange(from as int, end as int) =~= until_zero(system@.skip(from as int)));
    }
    Some(from_utf8_lossy(slice_subrange(system, from, end)))
}

// ---------------------------------------------------------------------------
// Sizes
// ---------------------------------------------------------------------------

/// The bytes of `levels` mipmap levels, the first of `length` bytes and each
/// other a quarter of the one before.
pub open spec fn pixel_size(length: nat, levels: nat) -> nat
    decreases levels,
{
    if levels == 0 {
        0
    } else {
        length + pixel_size(length / 4, (levels - 1) as nat)
    }
}

/// The bytes that a texture's mipmap levels take in a file.
pub fn calc_pixel_data_size(stride: u16, height: u16, levels: u8) -> (res: usize)
    requires
        usize::MAX == u64::MAX,
    ensures
        res == pixel_size((stride * height) as nat, levels as nat),
{
    let mut total: usize = 0;
    proof {
        assert(stride * height <= 0xffff * 0xffff) by (nonlinear_arith)
            requires
                stride <= 0xffff,
                height <= 0xffff,
        ;
    }
    let mut length: usize = stride as usize * height as usize;
    let mut i: u8 = 0;
    while i < levels
        invariant
            usize::MAX == u64::MAX,
            i <= levels,
            length <= 0xffff * 0xffff,
            total <= i * 0x1_0000_0000,
            total + pixel_size(length as nat, (levels - i) as nat) == pixel_size(
                (stride * height) as nat,
                levels as nat,
            ),
        decreases levels - i,
    {
        total = total + length;
        length = length / 4;
        i = i + 1;
    }
    total
}

/// The bytes of one row of texels, or of blocks, cut to sixteen bits.
pub open spec fn stride_of(width: u16, format: TextureFormat) -> u16 {
    let units: int = if format.spec_is_block_compressed() {
        if width == 0 {
            1
        } else {
            (width + 3) / 4
        }
    } else {
        width as int
    };
    ((units * format.spec_unit_bytes()) % 0x1_0000) as u16
}

/// The bytes of one row of texels, or of blocks, cut to sixteen bits.
pub fn compute_stride(width: u16, format: TextureFormat) -> (res: u16)
    ensures
        res == stride_of(width, format),
{
    let units: u32 = if format.is_block_compressed() {
        if width == 0 {
            1
        } else {
            (width as u32 + 3) / 4
        }
    } else {
        width as u32
    };
    let unit: usize = format_unit_bytes(format);
    proof {
        assert(units * unit <= 0xffff * 16) by (nonlinear_arith)
            requires
                units <= 0xffff,
                unit <= 16,
        ;
    }
    ((units * unit as u32) % 0x1_0000) as u16
}

// ---------------------------------------------------------------------------
// Counting
// ---------------------------------------------------------------------------

/// Why `data` is no resource file at all, where it is none.
pub open spec fn header_error(data: Seq<u8>) -> Option<YtdError> {
    if data.len() < RSC_HEADER_LEN {
        Some(YtdError::TooShort { len: data.len() as usize })
    } else if le_at(data, 0, 4) != RSC7_MAGIC {
        Some(YtdError::NotRsc7 { magic: le_at(data, 0, 4) as u32 })
    } else {
        None
    }
}

/// Why `data` is no resource file at all, where it is none.
pub fn check_header(data: &[u8]) -> (res: Option<YtdError>)
    ensures
        res == header_error(data@),
        res is None ==> data@.len() >= RSC_HEADER_LEN,
{
    if data.len() < RSC_HEADER_LEN {
        return Some(YtdError::TooShort { len: data.len() });
    }
    let magic: u32 = u32_le(data, 0);
    if magic != RSC7_MAGIC {
        return Some(YtdError::NotRsc7 { magic });
    }
    None
}

/// The number of textures that the dictionary's own description gives.
pub fn texture_count(header: &[u8]) -> (res: usize)
    requires
        header@.len() >= DICTIONARY_LEN,
    ensures
        res == le_at(header@, 0x38, 2),
{
    u16_le(header, 0x38) as usize
}

/// The dictionary's own description, decompressed where that is possible.
pub open spec fn description(body: Seq<u8>) -> Option<Seq<u8>> {
    match inflated_start(body, DICTIONARY_LEN as nat) {
        Some(header) => Some(header),
        None => if body.len() < DICTIONARY_LEN {
            None
        } else {
            Some(body.take(DICTIONARY_LEN as int))
        },
    }
}

/// What counting the textures of a file gives.
pub open spec fn counted(data: Seq<u8>) -> Result<usize, YtdError> {
    match header_error(data) {
        Some(e) => Err(e),
        None => match description(data.skip(RSC_HEADER_LEN as int)) {
            Some(header) => Ok(le_at(header, 0x38, 2) as usize),
            None => Err(YtdError::HeaderTooSmall),
        },
    }
}

/// Whether the count of a whole file can be this: what `counted` says, and of a
/// stream that can be read to its end, what its first bytes say.
pub open spec fn is_count(data: Seq<u8>, res: Result<usize, YtdError>) -> bool {
    let all = inflated(data.skip(RSC_HEADER_LEN as int));
    &&& res == counted(data)
    &&& header_error(data) is None && all is Some && all->0.len() >= DICTIONARY_LEN ==> res == Ok::<
        usize,
        YtdError,
    >(le_at(all->0, 0x38, 2) as usize)
}

/// The number of textures of a file, read from as little of it as possible.
/// Where the whole file can be read too, the count is that of the dictionary's
/// own description.
pub fn count_textures(data: &[u8]) -> (res: Result<usize, YtdError>)
    ensures
        is_count(data@, res),
        ({
            let all = inflated(data@.skip(RSC_HEADER_LEN as int));
            &&& parsed_model(data@) is Ok
            &&& all is Some
            &&& all->0.len() > 0
        }) ==> res == Ok::<usize, YtdError>(
            le_at(parsed_model(data@)->Ok_0.system, 0x38, 2) as usize,
        ),
{
    if let Some(e) = check_header(data) {
        return Err(e);
    }
    let body = slice_subrange(data, RSC_HEADER_LEN, data.len());
    proof {
        assert(body@ =~= data@.skip(RSC_HEADER_LEN as int));
    }
    match inflate_start(body, DICTIONARY_LEN) {
        Some(header) => {
            proof {
                let all = inflated(body@);
                if all is Some && all->0.len() >= DICTIONARY_LEN {
                    assert(all->0.subrange(0x38, 0x3A) =~= header@.subrange(0x38, 0x3A));
                }
                if parsed_model(data@) is Ok && all is Some && all->0.len() > 0 {
                    let system = system_of(data@);
                    assert(system.subrange(0x38, 0x3A) =~= header@.subrange(0x38, 0x3A));
                }
            }
            Ok(texture_count(header.as_slice()))
        },
        None => {
            if body.len() < DICTIONARY_LEN {
                return Err(YtdError::HeaderTooSmall);
            }
            let header = slice_subrange(body, 0, DICTIONARY_LEN);
            proof {
                assert(header@ =~= body@.take(DICTIONARY_LEN as int));
            }
            Ok(texture_count(header))
        },
    }
}

/// The number of textures that the first bytes of a file give, where they are
/// enough.
pub open spec fn counted_start(head: Seq<u8>) -> Option<usize> {
    match (
        header_error(head),
        inflated_start(head.skip(RSC_HEADER_LEN as int), DICTIONARY_LEN as nat),
    ) {
        (None, Some(header)) => Some(le_at(header, 0x38, 2) as usize),
        _ => None,
    }
}

/// Whether the count from the first bytes of a file can be this: what
/// `counted_start` says, and of a file that starts with these bytes and can be
/// read to its end, what its first bytes say.
pub open spec fn is_count_of_start(head: Seq<u8>, res: Option<usize>) -> bool {
    &&& res == counted_start(head)
    &&& res matches Some(count) ==> head.len() >= RSC_HEADER_LEN && counted(head) == Ok::<
        usize,
        YtdError,
    >(count) && forall|whole: Seq<u8>|
        head.skip(RSC_HEADER_LEN as int).is_prefix_of(whole) && (#[trigger] inflated(whole))
            is Some ==> inflated(whole)->0.len() >= DICTIONARY_LEN && count == le_at(
            inflated(whole)->0,
            0x38,
            2,
        )
}

/// The number of textures of a file, from its first bytes, where they are
/// enough to decompress the dictionary's own description.
pub fn count_textures_start(head: &[u8]) -> (res: Option<usize>)
    ensures
        is_count_of_start(head@, res),
{
    if check_header(head).is_some() {
        return None;
    }
    let body = slice_subrange(head, RSC_HEADER_LEN, head.len());
    proof {
        assert(body@ =~= head@.skip(RSC_HEADER_LEN as int));
    }
    match inflate_start(body, DICTIONARY_LEN) {
        Some(header) => {
            proof {
                assert forall|whole: Seq<u8>|
                    body@.is_prefix_of(whole) && (#[trigger] inflated(whole)) is Some implies le_at(
                    header@,
                    0x38,
                    2,
                ) == le_at(inflated(whole)->0, 0x38, 2) && inflated(whole)->0.len()
                    >= DICTIONARY_LEN by {
                    assert(header@.subrange(0x38, 0x3A) =~= inflated(whole)->0.subrange(
                        0x38,
                        0x3A,
                    ));
                }
            }
            Some(texture_count(header.as_slice()))
        },
        None => None,
    }
}

/// Where a file can be read to its end, a count from its first bytes is that of
/// the whole file, so that counting the start first and the whole file only
/// where that gives nothing is counting the whole file. A stream that is damaged
/// further on can be counted from its start all the same.
pub proof fn law_quick_count_agrees(
    head: Seq<u8>,
    data: Seq<u8>,
    quick: Option<usize>,
    full: Result<usize, YtdError>,
)
    requires
        head.is_prefix_of(data),
        inflated(data.skip(RSC_HEADER_LEN as int)) is Some,
        is_count_of_start(head, quick),
        is_count(data, full),
    ensures
        quick matches Some(count) ==> full == Ok::<usize, YtdError>(count),
{
    if let Some(count) = quick {
        let start = head.skip(RSC_HEADER_LEN as int);
        let whole = data.skip(RSC_HEADER_LEN as int);
        assert(start.is_prefix_of(whole)) by {
            assert(start =~= whole.take(start.len() as int));
        }
        assert(head.subrange(0, 4) =~= data.subrange(0, 4));
        assert(header_error(head) is None);
    }
}

// ---------------------------------------------------------------------------
// Reading
// ---------------------------------------------------------------------------

/// The bytes of both sections: the body decompressed, or as it is where it
/// does not decompress to anything.
pub open spec fn unpacked(body: Seq<u8>) -> Seq<u8> {
    match inflated(body) {
        Some(out) => if out.len() > 0 {
            out
        } else {
            body
        },
        None => body,
    }
}

/// The bytes of both sections.
fn unpack(body: &[u8]) -> (res: Vec<u8>)
    ensures
        res@ == unpacked(body@),
{
    match inflate(body) {
        Some(out) => {
            if out.len() > 0 {
                out
            } else {
                slice_to_vec(body)
            }
        },
        None => slice_to_vec(body),
    }
}

/// The bytes of the system section of a resource file, the first that its
/// body unpacks to.
pub open spec fn system_of(data: Seq<u8>) -> Seq<u8> {
    unpacked(data.skip(RSC_HEADER_LEN as int)).take(resource_size(le_at(data, 8, 4) as u32) as int)
}

/// The bytes of the graphics section, those that follow as far as there are
/// any.
pub open spec fn graphics_of(data: Seq<u8>) -> Seq<u8> {
    let all = unpacked(data.skip(RSC_HEADER_LEN as int));
    let from = resource_size(le_at(data, 8, 4) as u32) as int;
    let to = from + resource_size(le_at(data, 12, 4) as u32);
    all.subrange(
        from,
        if to < all.len() {
            to
        } else {
            all.len() as int
        },
    )
}

/// The bytes of the dictionary's name hashes, where it has any.
pub open spec fn hash_bytes(system: Seq<u8>, graphics: Seq<u8>) -> Option<Seq<u8>> {
    if le_at(system, 0x28, 2) > 0 {
        resolved(system, graphics, le_at(system, 0x20, 8) as u64, 4 * le_at(system, 0x28, 2) as int)
    } else {
        None
    }
}

/// The bytes of the dictionary's list of texture addresses.
pub open spec fn pointer_bytes(system: Seq<u8>, graphics: Seq<u8>) -> Option<Seq<u8>> {
    resolved(system, graphics, le_at(system, 0x30, 8) as u64, 8 * le_at(system, 0x38, 2) as int)
}

/// The hash in place `i`, zero where there is none.
pub open spec fn hash_at(hashes: Option<Seq<u8>>, i: int) -> u32 {
    match hashes {
        Some(h) => if 4 * i + 4 <= h.len() {
            le_at(h, 4 * i, 4) as u32
        } else {
            0
        },
        None => 0,
    }
}

/// The pixels that a texture's description at `off` points to, empty where it
/// points nowhere.
pub open spec fn pixels_at(system: Seq<u8>, graphics: Seq<u8>, off: int) -> Seq<u8> {
    let size = pixel_size(
        (le_at(system, off + 0x56, 2) * le_at(system, off + 0x52, 2)) as nat,
        system[off + 0x5D] as nat,
    );
    if size > 0 {
        match resolved(system, graphics, le_at(system, off + 0x70, 8) as u64, size as int) {
            Some(s) => s,
            None => Seq::empty(),
        }
    } else {
        Seq::empty()
    }
}

/// The texture that the description at `off` stands for.
pub open spec fn texture_at(
    system: Seq<u8>,
    graphics: Seq<u8>,
    name_hash: u32,
    off: int,
) -> TextureModel {
    TextureModel {
        name: match text_at(system, le_at(system, off + 0x28, 8) as u64) {
            Some(name) => name,
            None => Seq::empty(),
        },
        name_hash,
        width: le_at(system, off + 0x50, 2) as u16,
        height: le_at(system, off + 0x52, 2) as u16,
        depth: le_at(system, off + 0x54, 2) as u16,
        format: format_of_code(le_at(system, off + 0x58, 4) as u32),
        levels: system[off + 0x5D],
        stride: le_at(system, off + 0x56, 2) as u16,
        pixel_data: pixels_at(system, graphics, off),
        struct_offset: off as nat,
    }
}

/// Where the description at the address `va` starts, if it lies in the system
/// section as a whole.
pub open spec fn description_offset(system: Seq<u8>, va: u64) -> Option<int> {
    if in_system(va) && va - SYSTEM_TAG + TEXTURE_STRUCT_LEN <= system.len() {
        Some(va - SYSTEM_TAG)
    } else {
        None
    }
}

/// The textures in the first `n` places of the list, those left out whose
/// description does not lie in the system section.
pub open spec fn textures_in(
    system: Seq<u8>,
    graphics: Seq<u8>,
    hashes: Option<Seq<u8>>,
    pointers: Seq<u8>,
    n: nat,
) -> Seq<TextureModel>
    decreases n,
{
    if n == 0 {
        Seq::empty()
    } else {
        let i = n - 1;
        let before = textures_in(system, graphics, hashes, pointers, i as nat);
        match description_offset(system, le_at(pointers, 8 * i, 8) as u64) {
            Some(off) => before.push(texture_at(system, graphics, hash_at(hashes, i), off)),
            None => before,
        }
    }
}

/// What reading a file gives.
pub open spec fn parsed_model(data: Seq<u8>) -> Result<YtdModel, YtdError> {
    let flags = le_at(data, 8, 4) as u32;
    let all = unpacked(data.skip(RSC_HEADER_LEN as int));
    let system = system_of(data);
    let graphics = graphics_of(data);
    match header_error(data) {
        Some(e) => Err(e),
        None => if all.len() < resource_size(flags) {
            Err(
                YtdError::SystemTruncated {
                    len: all.len() as usize,
                    sys_size: resource_size(flags) as usize,
                },
            )
        } else if resource_size(flags) < DICTIONARY_LEN {
            Err(YtdError::SystemTooSmall { len: resource_size(flags) as usize })
        } else if le_at(system, 0x38, 2) > 0 && pointer_bytes(system, graphics) is None {
            Err(YtdError::PointerArray { va: le_at(system, 0x30, 8) as u64 })
        } else {
            Ok(
                YtdModel {
                    textures: if le_at(system, 0x38, 2) > 0 {
                        textures_in(
                            system,
                            graphics,
                            hash_bytes(system, graphics),
                            pointer_bytes(system, graphics)->0,
                            le_at(system, 0x38, 2),
                        )
                    } else {
                        Seq::empty()
                    },
                    system,
                    sys_flags: flags,
                    gfx_version_nibble: (le_at(data, 12, 4) as u32) >> 28,
                },
            )
        },
    }
}

/// The texture that the description at `off` stands for.
fn read_texture(system: &[u8], graphics: &[u8], name_hash: u32, off: usize) -> (res: RawTexture)
    requires
        usize::MAX == u64::MAX,
        off + TEXTURE_STRUCT_LEN <= system@.len(),
    ensures
        res@ == texture_at(system@, graphics@, name_hash, off as int),
{
    let size: usize = system.len();
    let name_ptr: u64 = u64_le(system, off + 0x28);
    let width: u16 = u16_le(system, off + 0x50);
    let height: u16 = u16_le(system, off + 0x52);
    let depth: u16 = u16_le(system, off + 0x54);
    let stride: u16 = u16_le(system, off + 0x56);
    let format = TextureFormat::from_u32(u32_le(system, off + 0x58));
    let levels: u8 = system[off + 0x5D];
    let data_ptr: u64 = u64_le(system, off + 0x70);
    let name = match string_at(system, name_ptr) {
        Some(name) => name,
        None => String::new(),
    };
    let pixel_size: usize = calc_pixel_data_size(stride, height, levels);
    let pixel_data: Vec<u8> = if pixel_size > 0 {
        match resolve(system, graphics, data_ptr, pixel_size) {
            Some(s) => slice_to_vec(s),
            None => Vec::new(),
        }
    } else {
        Vec::new()
    };
    let res = RawTexture {
        name,
        name_hash,
        width,
        height,
        depth,
        format,
        levels,
        stride,
        pixel_data,
        struct_offset: off,
    };
    proof {
        assert(res@ =~= texture_at(system@, graphics@, name_hash, off as int));
    }
    res
}

/// The hash in place `i`, zero where there is none.
fn read_hash(hashes: Option<&[u8]>, i: usize) -> (res: u32)
    requires
        i < 0x1_0000,
    ensures
        res == hash_at(
            match hashes {
                Some(h) => Some(h@),
                None => None,
            },
            i as int,
        ),
{
    match hashes {
        Some(h) => if 4 * i + 4 <= h.len() {
            u32_le(h, 4 * i)
        } else {
            0
        },
        None => 0,
    }
}

/// Reads a texture dictionary. Textures whose description does not lie in the
/// system section are left out.
pub fn parse(data: &[u8]) -> (res: Result<ParsedYtd, YtdError>)
    requires
        usize::MAX == u64::MAX,
    ensures
        match res {
            Ok(parsed) => parsed_model(data@) == Ok::<YtdModel, YtdError>(parsed@) && parsed@.wf(),
            Err(e) => parsed_model(data@) == Err::<YtdModel, YtdError>(e),
        },
{
    if let Some(e) = check_header(data) {
        return Err(e);
    }
    let system_flags: u32 = u32_le(data, 8);
    let graphics_flags: u32 = u32_le(data, 12);
    let sys_size: usize = resource_size_from_flags(system_flags);
    let gfx_size: usize = resource_size_from_flags(graphics_flags);
    let body = slice_subrange(data, RSC_HEADER_LEN, data.len());
    proof {
        assert(body@ =~= data@.skip(RSC_HEADER_LEN as int));
    }
    let all = unpack(body);
    let size: usize = all.len();
    if size < sys_size {
        return Err(YtdError::SystemTruncated { len: size, sys_size });
    }
    let system: Vec<u8> = slice_to_vec(slice_subrange(all.as_slice(), 0, sys_size));
    let graphics_end: usize = if gfx_size < size - sys_size {
        sys_size + gfx_size
    } else {
        size
    };
    let graphics = slice_subrange(all.as_slice(), sys_size, graphics_end);
    proof {
        assert(system@ =~= system_of(data@));
        assert(graphics@ =~= graphics_of(data@));
    }
    if system.len() < DICTIONARY_LEN {
        return Err(YtdError::SystemTooSmall { len: system.len() });
    }
    let hash_ptr: u64 = u64_le(system.as_slice(), 0x20);
    let hash_count: usize = u16_le(system.as_slice(), 0x28) as usize;
    let tex_ptr_array: u64 = u64_le(system.as_slice(), 0x30);
    let tex_count: usize = u16_le(system.as_slice(), 0x38) as usize;
    let hashes: Option<&[u8]> = if hash_count > 0 {
        resolve(system.as_slice(), graphics, hash_ptr, 4 * hash_count)
    } else {
        None
    };
    let ghost hash_view = hash_bytes(system@, graphics@);
    let mut textures: Vec<RawTexture> = Vec::new();
    if tex_count > 0 {
        let pointers = match resolve(system.as_slice(), graphics, tex_ptr_array, 8 * tex_count) {
            Some(p) => p,
            None => {
                return Err(YtdError::PointerArray { va: tex_ptr_array });
            },
        };
        let mut i: usize = 0;
        proof {
            lemma_tags(tex_ptr_array);
            assert(textures@.map_values(|t: RawTexture| t@) =~= Seq::<TextureModel>::empty());
        }
        while i < tex_count
            invariant
                usize::MAX == u64::MAX,
                i <= tex_count <= 0xffff,
                pointers@.len() == 8 * tex_count,
                hash_view == match hashes {
                    Some(h) => Some(h@),
                    None => None,
                },
                textures@.map_values(|t: RawTexture| t@) == textures_in(
                    system@,
                    graphics@,
                    hash_view,
                    pointers@,
                    i as nat,
                ),
                forall|k: int|
                    0 <= k < textures@.len() ==> (#[trigger] textures@[k]).struct_offset
                        + TEXTURE_STRUCT_LEN <= system@.len(),
            decreases tex_count - i,
        {
            let va: u64 = u64_le(pointers, 8 * i);
            let name_hash: u32 = read_hash(hashes, i);
            proof {
                lemma_tags(va);
            }
            if (va & SYSTEM_TAG) == SYSTEM_TAG && (va & GRAPHICS_TAG) != GRAPHICS_TAG {
                let off: u64 = va - SYSTEM_TAG;
                let whole: usize = system.len();
                if whole >= TEXTURE_STRUCT_LEN && off <= (whole - TEXTURE_STRUCT_LEN) as u64 {
                    let texture = read_texture(system.as_slice(), graphics, name_hash, off as usize);
                    let ghost before = textures@;
                    textures.push(texture);
                    proof {
                        assert(textures@.map_values(|t: RawTexture| t@) =~= before.map_values(
                            |t: RawTexture| t@,
                        ).push(texture@));
                    }
                }
            }
            i = i + 1;
        }
    }
    let res = ParsedYtd {
        textures,
        system,
        sys_flags: system_flags,
        gfx_version_nibble: graphics_flags >> 28,
    };
    proof {
        assert(graphics_flags >> 28 < 16) by (bit_vector);
        if tex_count == 0 {
            assert(res@.textures =~= Seq::<TextureModel>::empty());
        }
        assert forall|k: int| 0 <= k < res@.textures.len() implies (
        #[trigger] res@.textures[k]).struct_offset + TEXTURE_STRUCT_LEN <= res@.system.len() by {
            assert(res@.textures[k] == res.textures@[k]@);
        }
    }
    Ok(res)
}

// ---------------------------------------------------------------------------
// Writing
// ---------------------------------------------------------------------------

/// The system section with the patched fields of the description at `off`.
pub open spec fn described(system: Seq<u8>, off: int, p: PatchModel) -> Seq<u8> {
    let s = overwrite(system, off + 0x50, le_bytes(p.width as nat, 2));
    let s = overwrite(s, off + 0x52, le_bytes(p.height as nat, 2));
    let s = overwrite(s, off + 0x56, le_bytes(stride_of(p.width, p.format) as nat, 2));
    let s = overwrite(s, off + 0x58, le_bytes(p.format.spec_code() as nat, 4));
    overwrite(s, off + 0x5D, seq![p.levels])
}

/// The pixels that are written for a texture.
pub open spec fn written_pixels(texture: TextureModel, patch: Option<PatchModel>) -> Seq<u8> {
    match patch {
        Some(p) => p.pixel_data,
        None => texture.pixel_data,
    }
}

/// The graphics section after the first `n` textures: their pixels, one after
/// the other.
pub open spec fn graphics_upto(
    textures: Seq<TextureModel>,
    patches: Seq<Option<PatchModel>>,
    n: nat,
) -> Seq<u8>
    decreases n,
{
    if n == 0 {
        Seq::empty()
    } else {
        graphics_upto(textures, patches, (n - 1) as nat) + written_pixels(
            textures[n - 1],
            patches[n - 1],
        )
    }
}

/// The system section after the first `n` textures: patched ones are described
/// anew, and each one points to its pixels.
pub open spec fn system_upto(model: YtdModel, patches: Seq<Option<PatchModel>>, n: nat) -> Seq<u8>
    decreases n,
{
    if n == 0 {
        model.system
    } else {
        let i = n - 1;
        let before = system_upto(model, patches, i as nat);
        let off = model.textures[i].struct_offset as int;
        let start = graphics_upto(model.textures, patches, i as nat).len();
        overwrite(
            match patches[i] {
                Some(p) => described(before, off, p),
                None => before,
            },
            off + 0x70,
            le_bytes((GRAPHICS_TAG + start) as nat, 8),
        )
    }
}

/// `s` cut off, or filled up with zeros, so that it is `n` bytes long.
pub open spec fn fitted(s: Seq<u8>, n: nat) -> Seq<u8> {
    if n <= s.len() {
        s.take(n as int)
    } else {
        s + Seq::new((n - s.len()) as nat, |i: int| 0u8)
    }
}

/// The graphics section before it is filled up.
pub open spec fn new_graphics(model: YtdModel, patches: Seq<Option<PatchModel>>) -> Seq<u8> {
    graphics_upto(model.textures, patches, model.textures.len())
}

/// The flags of the new graphics section.
pub open spec fn new_graphics_flags(model: YtdModel, patches: Seq<Option<PatchModel>>) -> u32 {
    crate::resource::capacity_flags(new_graphics(model, patches).len(), model.gfx_version_nibble)
}

/// Both sections of a rebuilt dictionary.
pub open spec fn rebuilt_body(model: YtdModel, patches: Seq<Option<PatchModel>>) -> Seq<u8> {
    system_upto(model, patches, model.textures.len()) + fitted(
        new_graphics(model, patches),
        resource_size(new_graphics_flags(model, patches)),
    )
}

/// The header of a resource file.
pub open spec fn file_header(sys_flags: u32, gfx_flags: u32) -> Seq<u8> {
    le_bytes(RSC7_MAGIC as nat, 4) + le_bytes(
        crate::resource::resource_version(sys_flags, gfx_flags) as nat,
        4,
    ) + le_bytes(sys_flags as nat, 4) + le_bytes(gfx_flags as nat, 4)
}

/// Whether `file` holds the rebuilt dictionary: the header with its flags, and
/// then both sections, compressed.
pub open spec fn is_rebuilt(
    file: Seq<u8>,
    model: YtdModel,
    patches: Seq<Option<PatchModel>>,
) -> bool {
    &&& file.len() >= RSC_HEADER_LEN
    &&& file.take(RSC_HEADER_LEN as int) == file_header(
        model.sys_flags,
        new_graphics_flags(model, patches),
    )
    &&& inflated(file.skip(RSC_HEADER_LEN as int)) == Some(rebuilt_body(model, patches))
}

/// Appends `more`.
fn extend(out: &mut Vec<u8>, more: &[u8])
    ensures
        final(out)@ == old(out)@ + more@,
{
    out.extend_from_slice(more);
    proof {
        assert(out@ =~= old(out)@ + more@);
    }
}

/// Writes the patched fields of the description at `off`.
fn describe(system: &mut Vec<u8>, off: usize, p: &TexturePatch)
    requires
        off + TEXTURE_STRUCT_LEN <= old(system)@.len(),
    ensures
        final(system)@ == described(old(system)@, off as int, p@),
{
    let size: usize = system.len();
    let stride: u16 = compute_stride(p.width, p.format);
    put(system, off + 0x50, to_le(p.width as u64, 2).as_slice());
    put(system, off + 0x52, to_le(p.height as u64, 2).as_slice());
    put(system, off + 0x56, to_le(stride as u64, 2).as_slice());
    put(system, off + 0x58, to_le(p.format.code() as u64, 4).as_slice());
    let levels: Vec<u8> = vec![p.levels];
    put(system, off + 0x5D, levels.as_slice());
    proof {
        assert(levels@ =~= seq![p.levels]);
    }
}

/// The number of bytes in the new graphics section, where its addresses can
/// be told apart from others.
pub fn graphics_total(parsed: &ParsedYtd, patches: &[Option<TexturePatch>]) -> (res: Option<u64>)
    requires
        patches@.len() == parsed.textures@.len(),
    ensures
        match res {
            Some(total) => total == new_graphics(parsed@, patch_models(patches@)).len()
                && GRAPHICS_TAG + total <= u64::MAX,
            None => GRAPHICS_TAG + new_graphics(parsed@, patch_models(patches@)).len() > u64::MAX,
        },
{
    let ghost model = parsed@;
    let ghost models = patch_models(patches@);
    let mut total: u64 = 0;
    let mut i: usize = 0;
    while i < parsed.textures.len()
        invariant
            model == parsed@,
            models == patch_models(patches@),
            patches@.len() == parsed.textures@.len(),
            i <= parsed.textures@.len(),
            total == graphics_upto(model.textures, models, i as nat).len(),
            GRAPHICS_TAG + total <= u64::MAX,
        decreases parsed.textures@.len() - i,
    {
        let more: usize = match &patches[i] {
            Some(p) => p.pixel_data.len(),
            None => parsed.textures[i].pixel_data.len(),
        };
        proof {
            assert(model.textures[i as int] == parsed.textures@[i as int]@);
            assert(models[i as int] == match patches@[i as int] {
                Some(q) => Some(q@),
                None => None,
            });
        }
        if more as u64 > u64::MAX - GRAPHICS_TAG - total {
            proof {
                lemma_graphics_grow(model.textures, models, (i + 1) as nat, model.textures.len());
            }
            return None;
        }
        total = total + more as u64;
        i = i + 1;
    }
    Some(total)
}

/// The pixels of some textures are the start of those of more textures.
pub proof fn lemma_graphics_grow(
    textures: Seq<TextureModel>,
    patches: Seq<Option<PatchModel>>,
    n: nat,
    m: nat,
)
    requires
        n <= m,
    ensures
        graphics_upto(textures, patches, n).len() <= graphics_upto(textures, patches, m).len(),
        graphics_upto(textures, patches, m).take(
            graphics_upto(textures, patches, n).len() as int,
        ) == graphics_upto(textures, patches, n),
    decreases m,
{
    let small = graphics_upto(textures, patches, n);
    if n < m {
        lemma_graphics_grow(textures, patches, n, (m - 1) as nat);
        let mid = graphics_upto(textures, patches, (m - 1) as nat);
        let large = graphics_upto(textures, patches, m);
        assert(large.take(small.len() as int) =~= mid.take(small.len() as int));
    } else {
        assert(small.take(small.len() as int) =~= small);
    }
}

/// Writes a dictionary with the given textures replaced.
pub fn rebuild(parsed: ParsedYtd, patches: &[Option<TexturePatch>]) -> (res: Result<
    Vec<u8>,
    YtdError,
>)
    requires
        usize::MAX == u64::MAX,
        parsed@.wf(),
        patches@.len() == parsed.textures@.len() ==> GRAPHICS_TAG + new_graphics(
            parsed@,
            patch_models(patches@),
        ).len() <= u64::MAX,
    ensures
        match res {
            Ok(out) => {
                let models = patch_models(patches@);
                let packed = crate::resource::deflated(rebuilt_body(parsed@, models));
                &&& patches@.len() == parsed.textures@.len()
                &&& packed is Ok
                &&& out@ == file_header(parsed.sys_flags, new_graphics_flags(parsed@, models))
                    + packed->Ok_0
                &&& is_rebuilt(out@, parsed@, models)
            },
            Err(YtdError::PatchCount { patches: p, textures: t }) => p == patches@.len() && t
                == parsed.textures@.len() && p != t,
            Err(YtdError::Deflate { message }) => patches@.len() == parsed.textures@.len()
                && crate::resource::deflated(rebuilt_body(parsed@, patch_models(patches@))) == Err::<
                Seq<u8>,
                Seq<char>,
            >(message@),
            Err(_) => false,
        },
{
    if patches.len() != parsed.textures.len() {
        return Err(
            YtdError::PatchCount { patches: patches.len(), textures: parsed.textures.len() },
        );
    }
    let ghost model = parsed@;
    let ghost models = patch_models(patches@);
    let mut system: Vec<u8> = parsed.system;
    let mut graphics: Vec<u8> = Vec::new();
    let mut i: usize = 0;
    proof {
        assert(graphics@ =~= graphics_upto(model.textures, models, 0));
    }
    while i < parsed.textures.len()
        invariant
            model.textures == parsed.textures@.map_values(|t: RawTexture| t@),
            model.wf(),
            models == patch_models(patches@),
            patches@.len() == parsed.textures@.len(),
            i <= parsed.textures@.len(),
            GRAPHICS_TAG + new_graphics(model, models).len() <= u64::MAX,
            graphics@ == graphics_upto(model.textures, models, i as nat),
            system@ == system_upto(model, models, i as nat),
            system@.len() == model.system.len(),
        decreases parsed.textures@.len() - i,
    {
        let off: usize = parsed.textures[i].struct_offset;
        let start: usize = graphics.len();
        let size: usize = system.len();
        proof {
            assert(model.textures[i as int] == parsed.textures@[i as int]@);
            assert(models[i as int] == match patches@[i as int] {
                Some(q) => Some(q@),
                None => None,
            });
            lemma_graphics_grow(model.textures, models, i as nat, model.textures.len());
        }
        match &patches[i] {
            Some(p) => {
                extend(&mut graphics, p.pixel_data.as_slice());
                describe(&mut system, off, p);
            },
            None => {
                extend(&mut graphics, parsed.textures[i].pixel_data.as_slice());
            },
        }
        put(&mut system, off + 0x70, to_le(GRAPHICS_TAG + start as u64, 8).as_slice());
        i = i + 1;
    }
    let graphics_flags: u32 = encode_capacity_flags(graphics.len(), parsed.gfx_version_nibble);
    let padded_capacity: usize = resource_size_from_flags(graphics_flags);
    let ghost pixels = graphics@;
    graphics.resize(padded_capacity, 0);
    proof {
        if padded_capacity > pixels.len() {
            assert(graphics@.take(pixels.len() as int) == pixels);
            assert forall|k: int| pixels.len() <= k < padded_capacity implies graphics@[k] == 0 by {
                assert(cloned::<u8>(0u8, graphics@[k]));
            }
            assert forall|k: int| 0 <= k < pixels.len() implies graphics@[k] == pixels[k] by {
                assert(graphics@.take(pixels.len() as int)[k] == pixels[k]);
            }
        }
        assert(graphics@ =~= fitted(pixels, padded_capacity as nat));
    }
    let version: u32 = resource_version_from_flags(parsed.sys_flags, graphics_flags);
    extend(&mut system, graphics.as_slice());
    proof {
        assert(system@ == rebuilt_body(model, models));
    }
    let packed = match deflate(system.as_slice()) {
        Ok(packed) => packed,
        Err(message) => {
            return Err(YtdError::Deflate { message });
        },
    };
    let mut out: Vec<u8> = Vec::new();
    extend(&mut out, to_le(RSC7_MAGIC as u64, 4).as_slice());
    extend(&mut out, to_le(version as u64, 4).as_slice());
    extend(&mut out, to_le(parsed.sys_flags as u64, 4).as_slice());
    extend(&mut out, to_le(graphics_flags as u64, 4).as_slice());
    let ghost header = out@;
    proof {
        assert(header =~= file_header(parsed.sys_flags, graphics_flags));
        lemma_le_bytes_len(RSC7_MAGIC as nat, 4);
        lemma_le_bytes_len(version as nat, 4);
        lemma_le_bytes_len(parsed.sys_flags as nat, 4);
        lemma_le_bytes_len(graphics_flags as nat, 4);
    }
    extend(&mut out, packed.as_slice());
    proof {
        assert(out@.take(RSC_HEADER_LEN as int) =~= header);
        assert(out@.skip(RSC_HEADER_LEN as int) =~= packed@);
    }
    Ok(out)
}

} // verus!
