//! What the user can choose.

use crate::settings_laws::{lemma_ascii_pieces, lemma_ascii_trimmed};
use crate::text::{
    ascii_only, from_chars, is_empty, lower, split, split_on, texts, to_chars, to_lowercase, trim,
    trimmed, unicode_lowercase, views,
};
use crate::texture_format::TextureFormat;
use vstd::prelude::*;

verus! {

/// How the target size of a texture is found.
#[derive(Debug, Clone, Copy, PartialEq, Eq, Structural)]
pub enum ResizeMode {
    CapResolution,
    ScalePercent,
}

/// The format that textures are written in.
#[derive(Debug, Clone, Copy, PartialEq, Eq, Structural)]
pub enum OutputFormatMode {
    KeepOriginal,
    Force(ForceFormat),
}

/// A format that can be asked for.
#[derive(Debug, Clone, Copy, PartialEq, Eq, Structural)]
pub enum ForceFormat {
    Bc1,
    Bc2,
    Bc3,
    Bc7,
}

impl ForceFormat {
    /// All formats that can be asked for, in the order in which they are shown.
    pub const ALL: [ForceFormat; 4] = [
        ForceFormat::Bc1,
        ForceFormat::Bc2,
        ForceFormat::Bc3,
        ForceFormat::Bc7,
    ];

    /// The pixel format that a texture dictionary knows it as.
    pub open spec fn spec_format(self) -> TextureFormat {
        match self {
            ForceFormat::Bc1 => TextureFormat::DXT1,
            ForceFormat::Bc2 => TextureFormat::DXT3,
            ForceFormat::Bc3 => TextureFormat::DXT5,
            ForceFormat::Bc7 => TextureFormat::BC7,
        }
    }

    /// The text that the format is shown under.
    pub open spec fn spec_label(self) -> Seq<char> {
        match self {
            ForceFormat::Bc1 => "BC1 / DXT1 (no alpha, smallest)"@,
            ForceFormat::Bc2 => "BC2 / DXT3 (sharp alpha)"@,
            ForceFormat::Bc3 => "BC3 / DXT5 (smooth alpha)"@,
            ForceFormat::Bc7 => "BC7 (best quality)"@,
        }
    }

    /// The pixel format that a texture dictionary knows it as.
    pub fn to_ytd_format(self) -> (res: TextureFormat)
        ensures
            res == self.spec_format(),
    {
        match self {
            ForceFormat::Bc1 => TextureFormat::DXT1,
            ForceFormat::Bc2 => TextureFormat::DXT3,
            ForceFormat::Bc3 => TextureFormat::DXT5,
            ForceFormat::Bc7 => TextureFormat::BC7,
        }
    }

    /// The text that the format is shown under.
    pub fn label(self) -> (res: &'static str)
        ensures
            res@ == self.spec_label(),
    {
        match self {
            ForceFormat::Bc1 => "BC1 / DXT1 (no alpha, smallest)",
            ForceFormat::Bc2 => "BC2 / DXT3 (sharp alpha)",
            ForceFormat::Bc3 => "BC3 / DXT5 (smooth alpha)",
            ForceFormat::Bc7 => "BC7 (best quality)",
        }
    }
}

/// How much time compression may take.
#[derive(Debug, Clone, Copy, PartialEq, Eq, Structural)]
pub enum Quality {
    Fast,
    Medium,
    Slow,
}

/// Which mipmap levels a written texture gets.
#[derive(Debug, Clone, Copy, PartialEq, Eq, Structural)]
pub enum MipHandling {
    Regenerate,
    Strip,
    PreserveCount,
}

/// Where results are written.
#[derive(Debug, Clone, Copy, PartialEq, Eq, Structural)]
pub enum OutputMode {
    SeparateFolder,
    OverwriteInPlace { backup: bool },
}

/// What the user can choose.
#[derive(Debug, Clone)]
pub struct Settings {
    pub resize_mode: ResizeMode,
    pub cap_resolution: u32,
    pub scale_percent: u32,
    pub output_format: OutputFormatMode,
    pub quality: Quality,
    pub mip_handling: MipHandling,
    pub min_size_floor: u32,
    pub skip_substrings: String,
    pub output_mode: OutputMode,
    pub dry_run: bool,
    /// The one input folder of settings that were saved before there could be
    /// several.
    pub input_folder: Option<String>,
    pub input_folders: Vec<String>,
    pub output_folder: Option<String>,
}

impl Default for Settings {
    fn default() -> (res: Self)
        ensures
            res.resize_mode == ResizeMode::CapResolution,
            res.cap_resolution == 1024,
            res.scale_percent == 50,
            res.output_format == OutputFormatMode::KeepOriginal,
            res.quality == Quality::Medium,
            res.mip_handling == MipHandling::Regenerate,
            res.min_size_floor == 64,
            res.skip_substrings@ == ""@,
            res.output_mode == OutputMode::SeparateFolder,
            !res.dry_run,
            res.input_folder is None,
            res.input_folders@.len() == 0,
            res.output_folder is None,
    {
        let skip_substrings = String::new();
        proof {
            reveal_strlit("");
            assert(skip_substrings@ =~= ""@);
        }
        Self {
            resize_mode: ResizeMode::CapResolution,
            cap_resolution: 1024,
            scale_percent: 50,
            output_format: OutputFormatMode::KeepOriginal,
            quality: Quality::Medium,
            mip_handling: MipHandling::Regenerate,
            min_size_floor: 64,
            skip_substrings,
            output_mode: OutputMode::SeparateFolder,
            dry_run: false,
            input_folder: None,
            input_folders: Vec::new(),
            output_folder: None,
        }
    }
}

/// The pieces in lower case, without white space around them and without the
/// empty ones.
pub open spec fn skip_entries(pieces: Seq<Seq<char>>) -> Seq<Seq<char>>
    decreases pieces.len(),
{
    if pieces.len() == 0 {
        Seq::empty()
    } else {
        let before = skip_entries(pieces.drop_last());
        let entry = unicode_lowercase(trimmed(pieces.last()));
        if entry.len() > 0 {
            before.push(entry)
        } else {
            before
        }
    }
}

/// The pieces in lower case, without white space around them and without the
/// empty ones, where they are made of ASCII characters.
pub open spec fn ascii_entries(pieces: Seq<Seq<char>>) -> Seq<Seq<char>>
    decreases pieces.len(),
{
    if pieces.len() == 0 {
        Seq::empty()
    } else {
        let before = ascii_entries(pieces.drop_last());
        let entry = lower(trimmed(pieces.last()));
        if entry.len() > 0 {
            before.push(entry)
        } else {
            before
        }
    }
}

/// What stands between the commas of an ASCII text, in lower case and without
/// white space around it.
pub open spec fn ascii_skip_list(text: Seq<char>) -> Seq<Seq<char>> {
    ascii_entries(split_on(text, ','))
}

impl Settings {
    /// The texts of which one in its name exempts a texture.
    pub open spec fn spec_skip_list(self) -> Seq<Seq<char>> {
        skip_entries(split_on(self.skip_substrings@, ','))
    }

    /// The texts of which one in its name exempts a texture: what stands
    /// between the commas, in lower case and without white space around it.
    pub fn skip_list(&self) -> (res: Vec<String>)
        ensures
            texts(res@) == self.spec_skip_list(),
            ascii_only(self.skip_substrings@) ==> texts(res@) == ascii_skip_list(
                self.skip_substrings@,
            ),
    {
        let chars = to_chars(self.skip_substrings.as_str());
        let pieces = split(chars.as_slice(), ',');
        let mut out: Vec<String> = Vec::new();
        let mut i: usize = 0;
        let ghost all = views(pieces@);
        let ghost ascii = ascii_only(self.skip_substrings@);
        proof {
            assert(texts(out@) =~= skip_entries(all.take(0)));
            assert(texts(out@) =~= ascii_entries(all.take(0)));
            if ascii {
                lemma_ascii_pieces(chars@, ',');
            }
        }
        while i < pieces.len()
            invariant
                all == views(pieces@),
                i <= pieces@.len(),
                texts(out@) == skip_entries(all.take(i as int)),
                ascii ==> forall|k: int| 0 <= k < all.len() ==> ascii_only(#[trigger] all[k]),
                ascii ==> texts(out@) == ascii_entries(all.take(i as int)),
            decreases pieces@.len() - i,
        {
            let entry = to_lowercase(from_chars(trim(pieces[i].as_slice())).as_str());
            let ghost before = out@;
            proof {
                assert(all.take(i + 1).drop_last() =~= all.take(i as int));
                assert(all.take(i + 1).last() == pieces@[i as int]@);
                assert(all[i as int] == pieces@[i as int]@);
                if ascii {
                    lemma_ascii_trimmed(all[i as int]);
                }
            }
            if !is_empty(entry.as_str()) {
                let ghost word = entry@;
                out.push(entry);
                proof {
                    assert(texts(out@) =~= texts(before).push(word));
                }
            }
            i = i + 1;
        }
        proof {
            assert(all.take(i as int) =~= all);
        }
        out
    }

    /// Chooses to write all textures in one format: BC7, unless one was chosen
    /// already.
    pub fn choose_forced_format(&mut self)
        ensures
            *final(self) == (Settings {
                output_format: match old(self).output_format {
                    OutputFormatMode::Force(format) => OutputFormatMode::Force(format),
                    OutputFormatMode::KeepOriginal => OutputFormatMode::Force(ForceFormat::Bc7),
                },
                ..*old(self)
            }),
    {
        if let OutputFormatMode::KeepOriginal = self.output_format {
            self.output_format = OutputFormatMode::Force(ForceFormat::Bc7);
        }
    }

    /// Chooses to write files over themselves: with a backup, unless it was
    /// chosen already.
    pub fn choose_overwrite_in_place(&mut self)
        ensures
            *final(self) == (Settings {
                output_mode: match old(self).output_mode {
                    OutputMode::OverwriteInPlace { backup } => OutputMode::OverwriteInPlace {
                        backup,
                    },
                    OutputMode::SeparateFolder => OutputMode::OverwriteInPlace { backup: true },
                },
                ..*old(self)
            }),
    {
        if let OutputMode::SeparateFolder = self.output_mode {
            self.output_mode = OutputMode::OverwriteInPlace { backup: true };
        }
    }

    /// Makes the single input folder of older settings the first of the list,
    /// where the list is empty.
    pub fn adopt_input_folder(&mut self)
        ensures
            old(self).input_folders@.len() == 0 && old(self).input_folder is Some ==> {
                &&& final(self).input_folders@ == seq![old(self).input_folder->0]
                &&& final(self).input_folder is None
            },
            !(old(self).input_folders@.len() == 0 && old(self).input_folder is Some) ==> {
                &&& final(self).input_folders == old(self).input_folders
                &&& final(self).input_folder == old(self).input_folder
            },
            final(self).resize_mode == old(self).resize_mode,
            final(self).cap_resolution == old(self).cap_resolution,
            final(self).scale_percent == old(self).scale_percent,
            final(self).output_format == old(self).output_format,
            final(self).quality == old(self).quality,
            final(self).mip_handling == old(self).mip_handling,
            final(self).min_size_floor == old(self).min_size_floor,
            final(self).skip_substrings == old(self).skip_substrings,
            final(self).output_mode == old(self).output_mode,
            final(self).dry_run == old(self).dry_run,
            final(self).output_folder == old(self).output_folder,
    {
        if self.input_folders.len() == 0 {
            if let Some(dir) = self.input_folder.take() {
                self.input_folders.push(dir);
            }
        }
    }
}

} // verus!
