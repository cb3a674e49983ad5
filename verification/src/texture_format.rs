//! The pixel formats that a texture dictionary can hold.

use rpf_archive::ytd::TextureFormat as Stored;
use vstd::prelude::*;

verus! {

/// A pixel format of a texture dictionary.
#[derive(Clone, Copy, PartialEq, Eq, Debug, Structural)]
pub enum TextureFormat {
    A8R8G8B8,
    X8R8G8B8,
    A1R5G5B5,
    A8,
    A8B8G8R8,
    L8,
    DXT1,
    DXT3,
    DXT5,
    ATI1,
    ATI2,
    BC7,
    Unknown,
}

/// The format that a file's format code stands for.
pub open spec fn format_of_code(v: u32) -> TextureFormat {
    if v == 21 {
        TextureFormat::A8R8G8B8
    } else if v == 22 {
        TextureFormat::X8R8G8B8
    } else if v == 25 {
        TextureFormat::A1R5G5B5
    } else if v == 28 {
        TextureFormat::A8
    } else if v == 32 {
        TextureFormat::A8B8G8R8
    } else if v == 50 {
        TextureFormat::L8
    } else if v == 0x31545844 {
        TextureFormat::DXT1
    } else if v == 0x33545844 {
        TextureFormat::DXT3
    } else if v == 0x35545844 {
        TextureFormat::DXT5
    } else if v == 0x31495441 {
        TextureFormat::ATI1
    } else if v == 0x32495441 {
        TextureFormat::ATI2
    } else if v == 0x20374342 {
        TextureFormat::BC7
    } else {
        TextureFormat::Unknown
    }
}

/// Calls `rpf_archive::ytd::TextureFormat::from_u32` and names the variant it
/// returns: each known code has its format, any other code is `Unknown`.
#[verifier::external_body]
fn stored_format(v: u32) -> (res: TextureFormat)
    ensures
        res == format_of_code(v),
{
    match Stored::from_u32(v) {
        Stored::A8R8G8B8 => TextureFormat::A8R8G8B8,
        Stored::X8R8G8B8 => TextureFormat::X8R8G8B8,
        Stored::A1R5G5B5 => TextureFormat::A1R5G5B5,
        Stored::A8 => TextureFormat::A8,
        Stored::A8B8G8R8 => TextureFormat::A8B8G8R8,
        Stored::L8 => TextureFormat::L8,
        Stored::DXT1 => TextureFormat::DXT1,
        Stored::DXT3 => TextureFormat::DXT3,
        Stored::DXT5 => TextureFormat::DXT5,
        Stored::ATI1 => TextureFormat::ATI1,
        Stored::ATI2 => TextureFormat::ATI2,
        Stored::BC7 => TextureFormat::BC7,
        Stored::Unknown => TextureFormat::Unknown,
    }
}

impl TextureFormat {
    /// The code under which a file stores the format.
    pub open spec fn spec_code(self) -> u32 {
        match self {
            TextureFormat::A8R8G8B8 => 21,
            TextureFormat::X8R8G8B8 => 22,
            TextureFormat::A1R5G5B5 => 25,
            TextureFormat::A8 => 28,
            TextureFormat::A8B8G8R8 => 32,
            TextureFormat::L8 => 50,
            TextureFormat::DXT1 => 0x31545844,
            TextureFormat::DXT3 => 0x33545844,
            TextureFormat::DXT5 => 0x35545844,
            TextureFormat::ATI1 => 0x31495441,
            TextureFormat::ATI2 => 0x32495441,
            TextureFormat::BC7 => 0x20374342,
            TextureFormat::Unknown => 0,
        }
    }

    /// Whether the format stores blocks of four by four texels.
    pub open spec fn spec_is_block_compressed(self) -> bool {
        self is DXT1 || self is DXT3 || self is DXT5 || self is ATI1 || self is ATI2 || self is BC7
    }

    /// Whether the format stores one texel after the other.
    pub open spec fn spec_is_raw(self) -> bool {
        self is A8R8G8B8 || self is X8R8G8B8 || self is A8B8G8R8 || self is A1R5G5B5 || self is A8
            || self is L8
    }

    /// The bytes of one block, or of one texel where there are no blocks.
    pub open spec fn spec_unit_bytes(self) -> nat {
        match self {
            TextureFormat::DXT1 | TextureFormat::ATI1 => 8,
            TextureFormat::DXT3 | TextureFormat::DXT5 | TextureFormat::ATI2
            | TextureFormat::BC7 => 16,
            TextureFormat::A8R8G8B8 | TextureFormat::X8R8G8B8 | TextureFormat::A8B8G8R8 => 4,
            TextureFormat::A1R5G5B5 => 2,
            TextureFormat::A8 | TextureFormat::L8 => 1,
            TextureFormat::Unknown => 4,
        }
    }

    /// The name under which messages show the format.
    pub open spec fn spec_name(self) -> Seq<char> {
        match self {
            TextureFormat::A8R8G8B8 => "A8R8G8B8"@,
            TextureFormat::X8R8G8B8 => "X8R8G8B8"@,
            TextureFormat::A1R5G5B5 => "A1R5G5B5"@,
            TextureFormat::A8 => "A8"@,
            TextureFormat::A8B8G8R8 => "A8B8G8R8"@,
            TextureFormat::L8 => "L8"@,
            TextureFormat::DXT1 => "DXT1"@,
            TextureFormat::DXT3 => "DXT3"@,
            TextureFormat::DXT5 => "DXT5"@,
            TextureFormat::ATI1 => "ATI1"@,
            TextureFormat::ATI2 => "ATI2"@,
            TextureFormat::BC7 => "BC7"@,
            TextureFormat::Unknown => "Unknown"@,
        }
    }

    /// The format that a file's format code stands for.
    pub fn from_u32(v: u32) -> (res: TextureFormat)
        ensures
            res == format_of_code(v),
    {
        stored_format(v)
    }

    /// The code under which a file stores the format.
    pub fn code(self) -> (res: u32)
        ensures
            res == self.spec_code(),
    {
        match self {
            TextureFormat::A8R8G8B8 => 21,
            TextureFormat::X8R8G8B8 => 22,
            TextureFormat::A1R5G5B5 => 25,
            TextureFormat::A8 => 28,
            TextureFormat::A8B8G8R8 => 32,
            TextureFormat::L8 => 50,
            TextureFormat::DXT1 => 0x31545844,
            TextureFormat::DXT3 => 0x33545844,
            TextureFormat::DXT5 => 0x35545844,
            TextureFormat::ATI1 => 0x31495441,
            TextureFormat::ATI2 => 0x32495441,
            TextureFormat::BC7 => 0x20374342,
            TextureFormat::Unknown => 0,
        }
    }

    /// Whether the format stores blocks of four by four texels.
    pub fn is_block_compressed(self) -> (res: bool)
        ensures
            res == self.spec_is_block_compressed(),
    {
        match self {
            TextureFormat::DXT1 | TextureFormat::DXT3 | TextureFormat::DXT5 | TextureFormat::ATI1
            | TextureFormat::ATI2 | TextureFormat::BC7 => true,
            _ => false,
        }
    }

    /// The name under which messages show the format.
    pub fn name(self) -> (res: &'static str)
        ensures
            res@ == self.spec_name(),
    {
        match self {
            TextureFormat::A8R8G8B8 => "A8R8G8B8",
            TextureFormat::X8R8G8B8 => "X8R8G8B8",
            TextureFormat::A1R5G5B5 => "A1R5G5B5",
            TextureFormat::A8 => "A8",
            TextureFormat::A8B8G8R8 => "A8B8G8R8",
            TextureFormat::L8 => "L8",
            TextureFormat::DXT1 => "DXT1",
            TextureFormat::DXT3 => "DXT3",
            TextureFormat::DXT5 => "DXT5",
            TextureFormat::ATI1 => "ATI1",
            TextureFormat::ATI2 => "ATI2",
            TextureFormat::BC7 => "BC7",
            TextureFormat::Unknown => "Unknown",
        }
    }
}

/// Whether textures of the format can be decoded and encoded again.
pub fn is_resizable_format(fmt: TextureFormat) -> (res: bool)
    ensures
        res == (fmt.spec_is_raw() || fmt.spec_is_block_compressed()),
        res == !(fmt is Unknown),
{
    match fmt {
        TextureFormat::Unknown => false,
        _ => true,
    }
}

/// Whether the format stores one texel after the other.
pub fn is_raw_format(fmt: TextureFormat) -> (res: bool)
    ensures
        res == fmt.spec_is_raw(),
{
    match fmt {
        TextureFormat::A8R8G8B8 | TextureFormat::X8R8G8B8 | TextureFormat::A8B8G8R8
        | TextureFormat::A1R5G5B5 | TextureFormat::A8 | TextureFormat::L8 => true,
        _ => false,
    }
}

/// The bytes of one block, or of one texel where there are no blocks.
pub fn format_unit_bytes(format: TextureFormat) -> (res: usize)
    ensures
        res == format.spec_unit_bytes(),
        1 <= res <= 16,
{
    match format {
        TextureFormat::DXT1 | TextureFormat::ATI1 => 8,
        TextureFormat::DXT3 | TextureFormat::DXT5 | TextureFormat::ATI2
        | TextureFormat::BC7 => 16,
        TextureFormat::A8R8G8B8 | TextureFormat::X8R8G8B8 | TextureFormat::A8B8G8R8 => 4,
        TextureFormat::A1R5G5B5 => 2,
        TextureFormat::A8 | TextureFormat::L8 => 1,
        TextureFormat::Unknown => 4,
    }
}

/// A format read back from the code that it was stored under is the same
/// format.
pub proof fn law_format_code_round_trip(f: TextureFormat)
    ensures
        format_of_code(f.spec_code()) == f,
{
}

} // verus!
