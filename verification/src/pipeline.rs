//! Resizing the textures of a dictionary.

use crate::codec::{
    build_mip_chain, can_encode, chain_levels, decode_level, has_encodable_size, is_block_image,
    is_encodable, is_mip_chain, is_resampled, law_levels_are_limited, level_decoded, resample,
};
use crate::pixels::{ImageModel, RgbaImage};
use crate::scale::{
    law_scaled_loses_little, law_scaled_monotone, law_scaled_within, scale_side, scaled_u32,
};
use crate::settings::{MipHandling, OutputFormatMode, ResizeMode, Settings};
use crate::text::{
    ascii_only, contains, has_substring, lower, push_decimal, texts, to_chars, to_lowercase, unicode_lowercase,
};
use crate::texture_format::{is_resizable_format, TextureFormat};
use crate::resource::deflated;
use crate::ytd_io::{
    file_header, graphics_total, is_rebuilt, new_graphics, new_graphics_flags, parse, parsed_model,
    patch_models, rebuild, rebuilt_body, ParsedYtd, PatchModel, RawTexture, TextureModel,
    TexturePatch, YtdError, YtdModel, GRAPHICS_TAG,
};
use vstd::prelude::*;
use vstd::slice::slice_subrange;

verus! {

// ---------------------------------------------------------------------------
// Target sizes
// ---------------------------------------------------------------------------

/// The least multiple of four that is no less than `v`, and at least four.
pub open spec fn rounded_up(v: int) -> int {
    if v < 4 {
        4
    } else {
        (v + 3) / 4 * 4
    }
}

/// The least multiple of four that is no less than `v`, and at least four.
pub fn round_to_multiple_of_4(v: u32) -> (res: u32)
    requires
        v <= u32::MAX - 3,
    ensures
        res == rounded_up(v as int),
{
    if v < 4 {
        4
    } else {
        (v + 3) / 4 * 4
    }
}

/// The least side that a texture is scaled to.
pub open spec fn size_floor(settings: Settings) -> u32 {
    if settings.min_size_floor < 4 {
        4
    } else {
        settings.min_size_floor
    }
}

/// What a side is scaled to, `longest` being the longer one of its texture.
pub open spec fn scaled_side(settings: Settings, side: u16, longest: u16) -> u32 {
    match settings.resize_mode {
        ResizeMode::CapResolution => if longest <= settings.cap_resolution {
            side as u32
        } else {
            scaled_u32(side as nat, settings.cap_resolution as nat, longest as nat)
        },
        ResizeMode::ScalePercent => scaled_u32(side as nat, settings.scale_percent as nat, 100),
    }
}

/// What a side is scaled to, but no less than the floor.
pub open spec fn floored_side(settings: Settings, side: u16, longest: u16) -> u32 {
    if scaled_side(settings, side, longest) < size_floor(settings) {
        size_floor(settings)
    } else {
        scaled_side(settings, side, longest)
    }
}

/// The target of a side: a multiple of four, and no more than the side itself
/// rounded up.
pub open spec fn target_side(settings: Settings, side: u16, longest: u16) -> int {
    if rounded_up(floored_side(settings, side, longest) as int) < rounded_up(side as int) {
        rounded_up(floored_side(settings, side, longest) as int)
    } else {
        rounded_up(side as int)
    }
}

/// The longer one of two sides.
pub open spec fn longer(width: u16, height: u16) -> u16 {
    if width < height {
        height
    } else {
        width
    }
}

/// The target size, each side cut to sixteen bits.
pub open spec fn target_dims(settings: Settings, width: u16, height: u16) -> (u16, u16) {
    let longest = longer(width, height);
    (
        (target_side(settings, width, longest) % 0x1_0000) as u16,
        (target_side(settings, height, longest) % 0x1_0000) as u16,
    )
}

/// Whether the target size can be computed in 32 bits.
pub open spec fn target_fits(settings: Settings, width: u16, height: u16) -> bool {
    let longest = longer(width, height);
    &&& floored_side(settings, width, longest) <= u32::MAX - 3
    &&& floored_side(settings, height, longest) <= u32::MAX - 3
}

/// What a side is scaled to, but no less than the floor.
fn floor_side(settings: &Settings, side: u16, longest: u16) -> (res: u32)
    ensures
        res == floored_side(*settings, side, longest),
{
    let floor: u32 = if settings.min_size_floor < 4 {
        4
    } else {
        settings.min_size_floor
    };
    let target: u32 = match settings.resize_mode {
        ResizeMode::CapResolution => {
            let cap: u32 = settings.cap_resolution;
            if longest as u32 <= cap {
                side as u32
            } else {
                scale_side(side as u32, cap, longest as u32)
            }
        },
        ResizeMode::ScalePercent => scale_side(side as u32, settings.scale_percent, 100),
    };
    if target < floor {
        floor
    } else {
        target
    }
}

/// Whether the target size can be computed in 32 bits.
pub fn has_target(settings: &Settings, width: u16, height: u16) -> (res: bool)
    ensures
        res == target_fits(*settings, width, height),
{
    let longest: u16 = if width < height {
        height
    } else {
        width
    };
    floor_side(settings, width, longest) <= u32::MAX - 3 && floor_side(settings, height, longest)
        <= u32::MAX - 3
}

/// The size that a texture is brought to.
pub fn compute_target_dims(settings: &Settings, width: u16, height: u16) -> (res: (u16, u16))
    requires
        target_fits(*settings, width, height),
    ensures
        res == target_dims(*settings, width, height),
{
    let longest: u16 = if width < height {
        height
    } else {
        width
    };
    let scaled_w: u32 = round_to_multiple_of_4(floor_side(settings, width, longest));
    let scaled_h: u32 = round_to_multiple_of_4(floor_side(settings, height, longest));
    let own_w: u32 = round_to_multiple_of_4(width as u32);
    let own_h: u32 = round_to_multiple_of_4(height as u32);
    let target_w: u32 = if scaled_w < own_w {
        scaled_w
    } else {
        own_w
    };
    let target_h: u32 = if scaled_h < own_h {
        scaled_h
    } else {
        own_h
    };
    ((target_w % 0x1_0000) as u16, (target_h % 0x1_0000) as u16)
}

/// Both sides of a target are multiples of four, and neither is longer than
/// the texture's own side rounded up to such a multiple.
pub proof fn law_target_is_no_larger(settings: Settings, width: u16, height: u16)
    ensures
        ({
            let (w, h) = target_dims(settings, width, height);
            &&& w % 4 == 0
            &&& h % 4 == 0
            &&& w <= rounded_up(width as int)
            &&& h <= rounded_up(height as int)
        }),
{
    let longest = longer(width, height);
    let tw = target_side(settings, width, longest);
    let th = target_side(settings, height, longest);
    assert(tw % 4 == 0 && th % 4 == 0);
    assert((tw % 0x1_0000) % 4 == 0 && (th % 0x1_0000) % 4 == 0);
}

proof fn lemma_rounded_up_monotone(a: int, b: int)
    requires
        a <= b,
    ensures
        rounded_up(a) <= rounded_up(b),
{
}

/// The most that a side is scaled to under a resolution cap: the cap, or the
/// floor where that is larger.
pub open spec fn cap_limit(settings: Settings) -> u32 {
    if settings.cap_resolution < size_floor(settings) {
        size_floor(settings)
    } else {
        settings.cap_resolution
    }
}

proof fn lemma_capped_side(settings: Settings, side: u16, longest: u16)
    requires
        settings.resize_mode is CapResolution,
        side <= longest,
    ensures
        floored_side(settings, side, longest) <= cap_limit(settings),
        0 <= target_side(settings, side, longest) <= rounded_up(cap_limit(settings) as int),
{
    let cap = settings.cap_resolution;
    if longest > cap {
        law_scaled_within(side as nat, cap as nat, longest as nat);
    }
    lemma_rounded_up_monotone(
        floored_side(settings, side, longest) as int,
        cap_limit(settings) as int,
    );
}

/// With a resolution cap, neither side of a target exceeds the cap or the
/// floor, whichever is larger, rounded up to a multiple of four.
pub proof fn law_target_respects_cap(settings: Settings, width: u16, height: u16)
    requires
        settings.resize_mode is CapResolution,
    ensures
        target_dims(settings, width, height).0 <= rounded_up(cap_limit(settings) as int),
        target_dims(settings, width, height).1 <= rounded_up(cap_limit(settings) as int),
{
    let longest = longer(width, height);
    lemma_capped_side(settings, width, longest);
    lemma_capped_side(settings, height, longest);
}

/// With a resolution cap, the target size can be computed for every texture,
/// unless the floor itself is beyond 32 bits when rounded up.
pub proof fn law_cap_always_fits(settings: Settings, width: u16, height: u16)
    requires
        settings.resize_mode is CapResolution,
        settings.min_size_floor <= u32::MAX - 3,
    ensures
        target_fits(settings, width, height),
{
    let longest = longer(width, height);
    let cap = settings.cap_resolution;
    if longest > cap {
        law_scaled_within(width as nat, cap as nat, longest as nat);
        law_scaled_within(height as nat, cap as nat, longest as nat);
    }
}

proof fn lemma_rounded_up(v: int)
    requires
        0 <= v,
    ensures
        rounded_up(v) % 4 == 0,
        4 <= rounded_up(v),
        v <= rounded_up(v),
        v >= 4 ==> rounded_up(v) <= v + 3,
        v % 4 == 0 && v >= 4 ==> rounded_up(v) == v,
{
    let q = (v + 3) / 4;
    assert(v + 3 == 4 * q + (v + 3) % 4);
    assert(0 <= (v + 3) % 4 < 4);
    assert((q * 4) % 4 == 0);
    assert(v % 4 == 0 ==> (v + 3) % 4 == 3);
}

proof fn lemma_target_side_bounds(settings: Settings, side: u16, longest: u16)
    ensures
        target_side(settings, side, longest) % 4 == 0,
        4 <= target_side(settings, side, longest),
{
    lemma_rounded_up(floored_side(settings, side, longest) as int);
    lemma_rounded_up(side as int);
}

proof fn lemma_reached_side(settings: Settings, side: u16, longest: u16)
    requires
        settings.resize_mode is CapResolution,
        longest <= settings.cap_resolution,
        side % 4 == 0,
        side >= 4,
    ensures
        target_side(settings, side, longest) == side,
{
    assert(scaled_side(settings, side, longest) == side);
    lemma_rounded_up(side as int);
    lemma_rounded_up_monotone(side as int, floored_side(settings, side, longest) as int);
}

/// A side within the cap's limit has reached its target, also where the longer
/// side exceeds the cap because it was rounded up.
proof fn lemma_reached_beyond_cap(settings: Settings, side: u16, longest: u16)
    requires
        settings.resize_mode is CapResolution,
        size_floor(settings) <= settings.cap_resolution < longest,
        longest <= rounded_up(settings.cap_resolution as int),
        side <= longest,
        side % 4 == 0,
        side >= 4,
    ensures
        target_side(settings, side, longest) == side,
{
    let cap = settings.cap_resolution;
    law_scaled_within(side as nat, cap as nat, longest as nat);
    law_scaled_loses_little(side as nat, cap as nat, longest as nat);
    lemma_rounded_up(cap as int);
    assert(longest - cap <= 3);
    let x = scaled_side(settings, side, longest);
    assert(x + 3 >= side);
    lemma_rounded_up(x as int);
    assert(rounded_up(x as int) >= side);
    lemma_rounded_up_monotone(x as int, floored_side(settings, side, longest) as int);
    lemma_rounded_up(side as int);
}

/// Where the floor exceeds the cap, the floor alone decides.
proof fn lemma_floor_decides(settings: Settings, side: u16, longest: u16)
    requires
        settings.resize_mode is CapResolution,
        settings.cap_resolution < size_floor(settings),
        side <= longest,
    ensures
        floored_side(settings, side, longest) == size_floor(settings),
{
    let cap = settings.cap_resolution;
    if longest > cap {
        law_scaled_within(side as nat, cap as nat, longest as nat);
    }
}

/// What was brought to its target is at its target.
proof fn lemma_side_is_reached(settings: Settings, side: u16, longest: u16, w: u16, l: u16)
    requires
        settings.resize_mode is CapResolution,
        side <= longest,
        w == target_side(settings, side, longest),
        w <= l,
        l <= rounded_up(cap_limit(settings) as int),
    ensures
        target_side(settings, w, l) == w,
{
    lemma_target_side_bounds(settings, side, longest);
    if l <= settings.cap_resolution {
        lemma_reached_side(settings, w, l);
    } else if settings.cap_resolution < size_floor(settings) {
        lemma_floor_decides(settings, side, longest);
        lemma_floor_decides(settings, w, l);
        lemma_rounded_up(w as int);
    } else {
        lemma_reached_beyond_cap(settings, w, l);
    }
}

/// A texture that was brought to its target under a resolution cap has reached
/// it: a second run finds the same size. This leaves out the sides whose target
/// does not fit into sixteen bits.
pub proof fn law_target_is_reached(settings: Settings, width: u16, height: u16)
    requires
        settings.resize_mode is CapResolution,
        target_side(settings, width, longer(width, height)) < 0x1_0000,
        target_side(settings, height, longer(width, height)) < 0x1_0000,
    ensures
        ({
            let (w, h) = target_dims(settings, width, height);
            target_dims(settings, w, h) == (w, h)
        }),
{
    let longest = longer(width, height);
    lemma_capped_side(settings, width, longest);
    lemma_capped_side(settings, height, longest);
    lemma_target_side_bounds(settings, width, longest);
    lemma_target_side_bounds(settings, height, longest);
    let (w, h) = target_dims(settings, width, height);
    assert(w == target_side(settings, width, longest));
    assert(h == target_side(settings, height, longest));
    lemma_side_is_reached(settings, width, longest, w, longer(w, h));
    lemma_side_is_reached(settings, height, longest, h, longer(w, h));
}

/// A longer side never gets a shorter target than a shorter one of the same
/// texture.
pub proof fn law_target_keeps_order(settings: Settings, width: u16, height: u16)
    requires
        width <= height,
    ensures
        target_side(settings, width, longer(width, height)) <= target_side(
            settings,
            height,
            longer(width, height),
        ),
{
    let longest = longer(width, height);
    law_scaled_monotone(
        width as nat,
        height as nat,
        settings.cap_resolution as nat,
        longest as nat,
    );
    law_scaled_monotone(width as nat, height as nat, settings.scale_percent as nat, 100);
}

// ---------------------------------------------------------------------------
// One texture
// ---------------------------------------------------------------------------

/// Whether one of the texts occurs in the name.
pub open spec fn is_listed(name: Seq<char>, skips: Seq<Seq<char>>) -> bool {
    exists|i: int| 0 <= i < skips.len() && has_substring(name, #[trigger] skips[i])
}

/// Whether one of the texts occurs in the name, case aside.
pub open spec fn is_skipped(name: Seq<char>, skips: Seq<Seq<char>>) -> bool {
    is_listed(unicode_lowercase(name), skips)
}

/// Whether one of the texts occurs in the name, case aside.
pub fn matches_skip_list(texture_name: &str, skip_list: &[String]) -> (res: bool)
    ensures
        res == is_skipped(texture_name@, texts(skip_list@)),
        ascii_only(texture_name@) ==> res == is_listed(
            lower(texture_name@),
            texts(skip_list@),
        ),
{
    let name = to_lowercase(texture_name);
    let chars = to_chars(name.as_str());
    let mut i: usize = 0;
    let ghost skips = texts(skip_list@);
    while i < skip_list.len()
        invariant
            skips == texts(skip_list@),
            chars@ == unicode_lowercase(texture_name@),
            ascii_only(texture_name@) ==> chars@ == lower(texture_name@),
            i <= skip_list@.len(),
            forall|j: int| 0 <= j < i ==> !has_substring(chars@, #[trigger] skips[j]),
        decreases skip_list@.len() - i,
    {
        let needle = to_chars(skip_list[i].as_str());
        proof {
            assert(skips[i as int] == skip_list@[i as int]@);
        }
        if contains(chars.as_slice(), needle.as_slice()) {
            return true;
        }
        i = i + 1;
    }
    false
}

/// What is to be done with a texture.
pub enum TexturePlan {
    /// It is written as it is.
    Keep,
    /// It is written as it is, with a warning.
    Skip { warning: String },
    /// It is decoded, brought to the size if `resize` says so, and encoded.
    Convert { width: u16, height: u16, format: TextureFormat, resize: bool, max_levels: u8 },
}

/// What is to be done with a texture, the warning as characters.
pub enum PlanModel {
    Keep,
    Skip { warning: Seq<char> },
    Convert { width: u16, height: u16, format: TextureFormat, resize: bool, max_levels: u8 },
}

impl View for TexturePlan {
    type V = PlanModel;

    open spec fn view(&self) -> PlanModel {
        match *self {
            TexturePlan::Keep => PlanModel::Keep,
            TexturePlan::Skip { warning } => PlanModel::Skip { warning: warning@ },
            TexturePlan::Convert { width, height, format, resize, max_levels } => {
                PlanModel::Convert { width, height, format, resize, max_levels }
            },
        }
    }
}

/// The format that a texture is written in.
pub open spec fn target_format(settings: Settings, own: TextureFormat) -> TextureFormat {
    match settings.output_format {
        OutputFormatMode::Force(f) => f.spec_format(),
        OutputFormatMode::KeepOriginal => own,
    }
}

/// The most levels that a texture is written with.
pub open spec fn level_limit(settings: Settings, own: u8) -> u8 {
    match settings.mip_handling {
        MipHandling::Strip => 1,
        MipHandling::Regenerate => u8::MAX,
        MipHandling::PreserveCount => if own < 1 {
            1
        } else {
            own
        },
    }
}

/// What is to be done with a texture.
pub open spec fn texture_plan(
    t: TextureModel,
    settings: Settings,
    skips: Seq<Seq<char>>,
) -> PlanModel {
    let (width, height) = target_dims(settings, t.width, t.height);
    let format = target_format(settings, t.format);
    let resize = width != t.width || height != t.height;
    if is_skipped(t.name, skips) || (!resize && format == t.format) {
        PlanModel::Keep
    } else if t.format is Unknown {
        PlanModel::Skip {
            warning: "'"@ + t.name + "': format "@ + t.format.spec_name()
                + " has no decoder/encoder available, left unchanged"@,
        }
    } else {
        PlanModel::Convert {
            width,
            height,
            format,
            resize,
            max_levels: level_limit(settings, t.levels),
        }
    }
}

/// Whether a texture can be dealt with: its target can be computed, and where
/// it is converted, the encoders can take the new size.
pub open spec fn is_manageable(
    t: TextureModel,
    settings: Settings,
    skips: Seq<Seq<char>>,
) -> bool {
    is_skipped(t.name, skips) || (target_fits(settings, t.width, t.height) && match texture_plan(
        t,
        settings,
        skips,
    ) {
        PlanModel::Convert { width, height, format, .. } => has_encodable_size(
            format,
            width as nat,
            height as nat,
        ),
        _ => true,
    })
}

/// What is to be done with a texture.
pub fn plan_texture(tex: &RawTexture, settings: &Settings, skip_list: &[String]) -> (res:
    TexturePlan)
    requires
        is_skipped(tex@.name, texts(skip_list@)) || target_fits(
            *settings,
            tex.width,
            tex.height,
        ),
    ensures
        res@ == texture_plan(tex@, *settings, texts(skip_list@)),
{
    if matches_skip_list(tex.name.as_str(), skip_list) {
        return TexturePlan::Keep;
    }
    let (width, height) = compute_target_dims(settings, tex.width, tex.height);
    let format: TextureFormat = match settings.output_format {
        OutputFormatMode::Force(f) => f.to_ytd_format(),
        OutputFormatMode::KeepOriginal => tex.format,
    };
    let resize = width != tex.width || height != tex.height;
    if !resize && format == tex.format {
        return TexturePlan::Keep;
    }
    if !is_resizable_format(tex.format) {
        let mut warning = String::new();
        warning.append("'");
        warning.append(tex.name.as_str());
        warning.append("': format ");
        warning.append(tex.format.name());
        warning.append(" has no decoder/encoder available, left unchanged");
        proof {
            assert(warning@ =~= "'"@ + tex@.name + "': format "@ + tex.format.spec_name()
                + " has no decoder/encoder available, left unchanged"@);
        }
        return TexturePlan::Skip { warning };
    }
    let max_levels: u8 = match settings.mip_handling {
        MipHandling::Strip => 1,
        MipHandling::Regenerate => u8::MAX,
        MipHandling::PreserveCount => if tex.levels < 1 {
            1
        } else {
            tex.levels
        },
    };
    TexturePlan::Convert { width, height, format, resize, max_levels }
}

/// Whether a texture can be dealt with.
pub fn can_manage(tex: &RawTexture, settings: &Settings, skip_list: &[String]) -> (res: bool)
    ensures
        res == is_manageable(tex@, *settings, texts(skip_list@)),
{
    if matches_skip_list(tex.name.as_str(), skip_list) {
        return true;
    }
    if !has_target(settings, tex.width, tex.height) {
        return false;
    }
    match plan_texture(tex, settings, skip_list) {
        TexturePlan::Convert { width, height, format, .. } => can_encode(format, width, height),
        _ => true,
    }
}

/// What became of a texture.
pub struct TextureOutcome {
    pub patch: Option<TexturePatch>,
    pub resized: bool,
    pub warning: Option<String>,
}

/// What became of a texture, as values.
pub struct OutcomeModel {
    pub patch: Option<PatchModel>,
    pub resized: bool,
    pub warning: Option<Seq<char>>,
}

impl View for TextureOutcome {
    type V = OutcomeModel;

    open spec fn view(&self) -> OutcomeModel {
        OutcomeModel {
            patch: match self.patch {
                Some(p) => Some(p@),
                None => None,
            },
            resized: self.resized,
            warning: match self.warning {
                Some(w) => Some(w@),
                None => None,
            },
        }
    }
}

impl TextureOutcome {
    /// The texture is written as it is.
    pub fn unchanged() -> (res: Self)
        ensures
            res@ == (OutcomeModel { patch: None, resized: false, warning: None }),
    {
        TextureOutcome { patch: None, resized: false, warning: None }
    }

    /// The texture is written as it is, with a warning.
    pub fn skip(warning: String) -> (res: Self)
        ensures
            res@ == (OutcomeModel { patch: None, resized: false, warning: Some(warning@) }),
    {
        TextureOutcome { patch: None, resized: false, warning: Some(warning) }
    }
}

/// The bytes of a texture's first level, as many as there are.
pub open spec fn first_level(t: TextureModel) -> Seq<u8> {
    if t.stride * t.height < t.pixel_data.len() {
        t.pixel_data.take(t.stride * t.height)
    } else {
        t.pixel_data
    }
}

/// The warning about a texture that cannot be decoded.
pub open spec fn undecoded_warning(name: Seq<char>, error: Seq<char>) -> Seq<char> {
    "'"@ + name + "': "@ + error + ", left unchanged"@
}

/// The warning about a texture that has fewer levels than it had, where their
/// number was to be kept.
pub open spec fn level_warning(t: TextureModel, settings: Settings, levels: u8) -> Option<
    Seq<char>,
> {
    if settings.mip_handling is PreserveCount && levels < t.levels {
        Some(
            "'"@ + t.name + "': mip count reduced "@ + crate::text::decimal(t.levels as nat)
                + " -> "@ + crate::text::decimal(levels as nat)
                + " (texture now too small for full chain)"@,
        )
    } else {
        None
    }
}

/// Whether `sized` is the image at the planned size: resampled, or the image
/// itself where it is not to be resized.
pub open spec fn is_sized(
    image: ImageModel,
    resize: bool,
    width: u16,
    height: u16,
    sized: ImageModel,
) -> bool {
    if resize {
        is_resampled(image, width as nat, height as nat, sized)
    } else {
        sized == image
    }
}

/// Whether a texture with the given plan can come out like this.
pub open spec fn is_planned_outcome(
    t: TextureModel,
    settings: Settings,
    plan: PlanModel,
    outcome: OutcomeModel,
) -> bool {
    match plan {
        PlanModel::Keep => outcome == (OutcomeModel { patch: None, resized: false, warning: None }),
        PlanModel::Skip { warning } => outcome == (OutcomeModel {
            patch: None,
            resized: false,
            warning: Some(warning),
        }),
        PlanModel::Convert { width, height, format, resize, max_levels } => {
            match level_decoded(t.format, t.width, t.height, first_level(t)) {
                Err(error) => outcome == (OutcomeModel {
                    patch: None,
                    resized: false,
                    warning: Some(undecoded_warning(t.name, error)),
                }),
                Ok(image) => {
                    &&& image.wf()
                    &&& is_block_image(t.format, first_level(t), image)
                    &&& outcome.resized
                    &&& outcome.patch is Some
                    &&& is_converted(
                        image,
                        settings,
                        width,
                        height,
                        format,
                        resize,
                        max_levels,
                        outcome.patch->0,
                    )
                    &&& outcome.warning == level_warning(t, settings, outcome.patch->0.levels)
                },
            }
        },
    }
}

/// Whether converting an image can give this patch: its size and format are
/// the planned ones, and its pixels a mipmap chain of the sized image.
pub open spec fn is_converted(
    image: ImageModel,
    settings: Settings,
    width: u16,
    height: u16,
    format: TextureFormat,
    resize: bool,
    max_levels: u8,
    patch: PatchModel,
) -> bool {
    &&& patch.width == width
    &&& patch.height == height
    &&& patch.format == format
    &&& patch.levels == chain_levels(width as nat, height as nat, 1, max_levels as nat)
    &&& exists|sized: ImageModel| #[trigger]
        is_sized(image, resize, width, height, sized) && is_mip_chain(
            format,
            settings.quality,
            sized,
            max_levels as nat,
            patch.pixel_data,
            patch.levels as nat,
        )
}

/// Whether a texture can come out like this.
#[verifier::opaque]
pub open spec fn is_outcome(
    t: TextureModel,
    settings: Settings,
    skips: Seq<Seq<char>>,
    outcome: OutcomeModel,
) -> bool {
    is_planned_outcome(t, settings, texture_plan(t, settings, skips), outcome)
}

/// Brings a decoded image to the planned size and encodes it.
fn convert(
    tex: &RawTexture,
    settings: &Settings,
    image: RgbaImage,
    width: u16,
    height: u16,
    format: TextureFormat,
    resize: bool,
    max_levels: u8,
) -> (res: TextureOutcome)
    requires
        usize::MAX == u64::MAX,
        image@.wf(),
        image.width == tex.width,
        image.height == tex.height,
        !resize ==> width == tex.width && height == tex.height,
        !(format is Unknown),
        has_encodable_size(format, width as nat, height as nat),
    ensures
        res@.resized,
        res@.patch is Some,
        is_converted(
            image@,
            *settings,
            width,
            height,
            format,
            resize,
            max_levels,
            res@.patch->0,
        ),
        res@.warning == level_warning(tex@, *settings, res@.patch->0.levels),
{
    let ghost source = image@;
    let sized: RgbaImage = if resize {
        resample(&image, width as u32, height as u32)
    } else {
        image
    };
    let ghost model = sized@;
    proof {
        assert(is_sized(source, resize, width, height, model));
        assert(is_encodable(format, model));
    }
    let (pixel_data, levels) = match build_mip_chain(sized, format, settings.quality, max_levels) {
        Ok(r) => r,
        Err(e) => {
            let mut warning = String::new();
            warning.append("'");
            warning.append(tex.name.as_str());
            warning.append("': mip encode failed (");
            warning.append(e.message().as_str());
            warning.append("), left unchanged");
            return TextureOutcome::skip(warning);
        },
    };
    let mut warning: Option<String> = None;
    if settings.mip_handling == MipHandling::PreserveCount && levels < tex.levels {
        let mut w = String::new();
        w.append("'");
        w.append(tex.name.as_str());
        w.append("': mip count reduced ");
        push_decimal(&mut w, tex.levels as u64);
        w.append(" -> ");
        push_decimal(&mut w, levels as u64);
        w.append(" (texture now too small for full chain)");
        proof {
            assert(w@ =~= level_warning(tex@, *settings, levels)->0);
        }
        warning = Some(w);
    }
    TextureOutcome {
        patch: Some(TexturePatch { width, height, format, levels, pixel_data }),
        resized: true,
        warning,
    }
}

/// Resizes or re-encodes one texture, where the settings ask for it.
pub fn process_texture(tex: &RawTexture, settings: &Settings, skip_list: &[String]) -> (res:
    TextureOutcome)
    requires
        usize::MAX == u64::MAX,
        is_manageable(tex@, *settings, texts(skip_list@)),
    ensures
        is_outcome(tex@, *settings, texts(skip_list@), res@),
{
    proof {
        reveal(is_outcome);
    }
    let (width, height, format, resize, max_levels) = match plan_texture(tex, settings, skip_list) {
        TexturePlan::Keep => {
            return TextureOutcome::unchanged();
        },
        TexturePlan::Skip { warning } => {
            return TextureOutcome::skip(warning);
        },
        TexturePlan::Convert { width, height, format, resize, max_levels } => (
            width,
            height,
            format,
            resize,
            max_levels,
        ),
    };
    proof {
        assert(tex.stride * tex.height <= 0xffff * 0xffff) by (nonlinear_arith)
            requires
                tex.stride <= 0xffff,
                tex.height <= 0xffff,
        ;
    }
    let base_level_len: usize = tex.stride as usize * tex.height as usize;
    let pixels = tex.pixel_data.as_slice();
    let size: usize = pixels.len();
    let level0 = if base_level_len < size {
        slice_subrange(pixels, 0, base_level_len)
    } else {
        pixels
    };
    proof {
        assert(level0@ =~= first_level(tex@));
    }
    match decode_level(tex.format, tex.width, tex.height, level0) {
        Ok(image) => convert(
            tex,
            settings,
            image,
            width,
            height,
            format,
            resize,
            max_levels,
        ),
        Err(e) => {
            let mut warning = String::new();
            warning.append("'");
            warning.append(tex.name.as_str());
            warning.append("': ");
            warning.append(e.message().as_str());
            warning.append(", left unchanged");
            proof {
                assert(warning@ =~= undecoded_warning(tex@.name, e.spec_message()));
            }
            TextureOutcome::skip(warning)
        },
    }
}

/// A texture whose name holds one of the listed texts is left alone.
pub proof fn law_listed_textures_are_kept(
    t: TextureModel,
    settings: Settings,
    skips: Seq<Seq<char>>,
    outcome: OutcomeModel,
)
    requires
        is_skipped(t.name, skips),
        is_outcome(t, settings, skips, outcome),
    ensures
        outcome == (OutcomeModel { patch: None, resized: false, warning: None }),
{
    reveal(is_outcome);
}

/// A texture that was converted under a resolution cap is left alone by a
/// second run with the same settings.
pub proof fn law_second_run_keeps(
    t: TextureModel,
    settings: Settings,
    skips: Seq<Seq<char>>,
    outcome: OutcomeModel,
    again: TextureModel,
    second: OutcomeModel,
)
    requires
        settings.resize_mode is CapResolution,
        target_side(settings, t.width, longer(t.width, t.height)) < 0x1_0000,
        target_side(settings, t.height, longer(t.width, t.height)) < 0x1_0000,
        is_outcome(t, settings, skips, outcome),
        outcome.patch is Some,
        again.width == outcome.patch->0.width,
        again.height == outcome.patch->0.height,
        again.format == outcome.patch->0.format,
        is_outcome(again, settings, skips, second),
    ensures
        second == (OutcomeModel { patch: None, resized: false, warning: None }),
{
    reveal(is_outcome);
    law_target_is_reached(settings, t.width, t.height);
    let plan = texture_plan(t, settings, skips);
    assert(plan is Convert);
    let (width, height) = target_dims(settings, t.width, t.height);
    assert(again.width == width && again.height == height);
    assert(again.format == target_format(settings, t.format));
}

/// A texture that is converted gets the target's size and format, and at least
/// one level, but no more than the settings allow; with stripped mipmaps it is
/// exactly one.
pub proof fn law_converted_as_asked(
    t: TextureModel,
    settings: Settings,
    skips: Seq<Seq<char>>,
    outcome: OutcomeModel,
)
    requires
        is_outcome(t, settings, skips, outcome),
        outcome.patch is Some,
    ensures
        ({
            let patch = outcome.patch->0;
            &&& (patch.width, patch.height) == target_dims(settings, t.width, t.height)
            &&& patch.format == target_format(settings, t.format)
            &&& 1 <= patch.levels <= level_limit(settings, t.levels)
            &&& settings.mip_handling is Strip ==> patch.levels == 1
        }),
{
    reveal(is_outcome);
    let limit = level_limit(settings, t.levels);
    let (width, height) = target_dims(settings, t.width, t.height);
    law_levels_are_limited(width as nat, height as nat, 1, limit as nat);
}

// ---------------------------------------------------------------------------
// A whole dictionary
// ---------------------------------------------------------------------------

/// What was done to the textures of a dictionary.
pub struct ResizeStats {
    pub textures_resized: usize,
    pub textures_total: usize,
    pub warnings: Vec<String>,
}

/// How many textures were resized or re-encoded.
pub open spec fn resized_count(outcomes: Seq<OutcomeModel>) -> nat
    decreases outcomes.len(),
{
    if outcomes.len() == 0 {
        0
    } else {
        resized_count(outcomes.drop_last()) + if outcomes.last().resized {
            1nat
        } else {
            0nat
        }
    }
}

/// The warnings, in the order of the textures.
pub open spec fn all_warnings(outcomes: Seq<OutcomeModel>) -> Seq<Seq<char>>
    decreases outcomes.len(),
{
    if outcomes.len() == 0 {
        Seq::empty()
    } else {
        match outcomes.last().warning {
            Some(w) => all_warnings(outcomes.drop_last()).push(w),
            None => all_warnings(outcomes.drop_last()),
        }
    }
}

/// The patches, one for each texture.
pub open spec fn all_patches(outcomes: Seq<OutcomeModel>) -> Seq<Option<PatchModel>> {
    outcomes.map_values(|o: OutcomeModel| o.patch)
}

/// Whether the textures of a dictionary can come out like this, one by one.
pub open spec fn are_outcomes(
    textures: Seq<TextureModel>,
    settings: Settings,
    outcomes: Seq<OutcomeModel>,
) -> bool {
    &&& outcomes.len() == textures.len()
    &&& forall|i: int|
        0 <= i < textures.len() ==> is_outcome(
            textures[i],
            settings,
            settings.spec_skip_list(),
            #[trigger] outcomes[i],
        )
}

/// Whether all textures of a dictionary can be dealt with.
pub open spec fn all_manageable(textures: Seq<TextureModel>, settings: Settings) -> bool {
    forall|i: int|
        0 <= i < textures.len() ==> is_manageable(
            #[trigger] textures[i],
            settings,
            settings.spec_skip_list(),
        )
}

/// Whether `res` is what a dictionary with these outcomes is written as: the
/// rebuilt file and the numbers that go with it, or the reason why there is
/// none.
pub open spec fn is_written(
    model: YtdModel,
    outcomes: Seq<OutcomeModel>,
    res: Result<(Vec<u8>, ResizeStats), YtdError>,
) -> bool {
    let patches = all_patches(outcomes);
    let packed = deflated(rebuilt_body(model, patches));
    if GRAPHICS_TAG + new_graphics(model, patches).len() > u64::MAX {
        res matches Err(YtdError::TooLarge)
    } else {
        match res {
            Ok((bytes, stats)) => {
                &&& packed is Ok
                &&& bytes@ == file_header(model.sys_flags, new_graphics_flags(model, patches))
                    + packed->Ok_0
                &&& is_rebuilt(bytes@, model, patches)
                &&& stats.textures_total == model.textures.len()
                &&& stats.textures_resized == resized_count(outcomes)
                &&& texts(stats.warnings@) == all_warnings(outcomes)
            },
            Err(YtdError::Deflate { message }) => packed == Err::<Seq<u8>, Seq<char>>(message@),
            Err(_) => false,
        }
    }
}

/// Resizes the textures of a dictionary and writes it again.
pub fn resize_parsed(parsed: ParsedYtd, settings: &Settings) -> (res: Result<
    (Vec<u8>, ResizeStats),
    YtdError,
>)
    requires
        usize::MAX == u64::MAX,
        parsed@.wf(),
        all_manageable(parsed@.textures, *settings),
    ensures
        exists|outcomes: Seq<OutcomeModel>| #[trigger]
            are_outcomes(parsed@.textures, *settings, outcomes) && is_written(
                parsed@,
                outcomes,
                res,
            ),
{
    let skip_list = settings.skip_list();
    let mut warnings: Vec<String> = Vec::new();
    let mut textures_resized: usize = 0;
    let mut patches: Vec<Option<TexturePatch>> = Vec::new();
    let ghost model = parsed@;
    let ghost mut outcomes: Seq<OutcomeModel> = Seq::empty();
    let mut i: usize = 0;
    proof {
        assert(patch_models(patches@) =~= all_patches(outcomes));
        assert(texts(warnings@) =~= all_warnings(outcomes));
    }
    while i < parsed.textures.len()
        invariant
            usize::MAX == u64::MAX,
            model == parsed@,
            all_manageable(model.textures, *settings),
            texts(skip_list@) == settings.spec_skip_list(),
            i <= parsed.textures@.len(),
            outcomes.len() == i,
            patches@.len() == i,
            forall|k: int|
                0 <= k < i ==> is_outcome(
                    model.textures[k],
                    *settings,
                    settings.spec_skip_list(),
                    #[trigger] outcomes[k],
                ),
            patch_models(patches@) == all_patches(outcomes),
            texts(warnings@) == all_warnings(outcomes),
            textures_resized == resized_count(outcomes),
            textures_resized <= i,
        decreases parsed.textures@.len() - i,
    {
        proof {
            assert(model.textures[i as int] == parsed.textures@[i as int]@);
        }
        let outcome = process_texture(&parsed.textures[i], settings, skip_list.as_slice());
        let ghost before = outcomes;
        let ghost old_patches = patches@;
        let ghost old_warnings = warnings@;
        proof {
            outcomes = outcomes.push(outcome@);
            assert(outcomes.drop_last() =~= before);
        }
        if outcome.resized {
            textures_resized = textures_resized + 1;
        }
        let TextureOutcome { patch, resized, warning } = outcome;
        if let Some(w) = warning {
            let ghost text = w@;
            warnings.push(w);
            proof {
                assert(texts(warnings@) =~= texts(old_warnings).push(text));
            }
        }
        patches.push(patch);
        proof {
            assert(patch_models(patches@) =~= patch_models(old_patches).push(outcomes.last().patch));
            assert(all_patches(outcomes) =~= all_patches(before).push(outcomes.last().patch));
        }
        i = i + 1;
    }
    let textures_total: usize = parsed.textures.len();
    proof {
        assert(are_outcomes(model.textures, *settings, outcomes));
    }
    if graphics_total(&parsed, patches.as_slice()).is_none() {
        return Err(YtdError::TooLarge);
    }
    match rebuild(parsed, patches.as_slice()) {
        Ok(bytes) => Ok((bytes, ResizeStats { textures_resized, textures_total, warnings })),
        Err(e) => Err(e),
    }
}

/// What resizing a file can give: the reason why it cannot be read or dealt
/// with, or what its textures are written as.
pub open spec fn is_resized(
    data: Seq<u8>,
    settings: Settings,
    res: Result<(Vec<u8>, ResizeStats), YtdError>,
) -> bool {
    match parsed_model(data) {
        Err(e) => res == Err::<(Vec<u8>, ResizeStats), YtdError>(e),
        Ok(model) => if !all_manageable(model.textures, settings) {
            res matches Err(YtdError::TooLarge)
        } else {
            exists|outcomes: Seq<OutcomeModel>| #[trigger]
                are_outcomes(model.textures, settings, outcomes) && is_written(
                    model,
                    outcomes,
                    res,
                )
        },
    }
}

/// Reads a texture dictionary, resizes its textures and writes it again.
pub fn resize_ytd_bytes(original_bytes: &[u8], settings: &Settings) -> (res: Result<
    (Vec<u8>, ResizeStats),
    YtdError,
>)
    requires
        usize::MAX == u64::MAX,
    ensures
        is_resized(original_bytes@, *settings, res),
{
    let parsed: ParsedYtd = match parse(original_bytes) {
        Ok(parsed) => parsed,
        Err(e) => {
            return Err(e);
        },
    };
    let skip_list = settings.skip_list();
    let ghost model = parsed@;
    let mut i: usize = 0;
    while i < parsed.textures.len()
        invariant
            model == parsed@,
            parsed_model(original_bytes@) == Ok::<YtdModel, YtdError>(model),
            texts(skip_list@) == settings.spec_skip_list(),
            i <= parsed.textures@.len(),
            forall|k: int|
                0 <= k < i ==> is_manageable(
                    #[trigger] model.textures[k],
                    *settings,
                    settings.spec_skip_list(),
                ),
        decreases parsed.textures@.len() - i,
    {
        proof {
            assert(model.textures[i as int] == parsed.textures@[i as int]@);
        }
        if !can_manage(&parsed.textures[i], settings, skip_list.as_slice()) {
            return Err(YtdError::TooLarge);
        }
        i = i + 1;
    }
    resize_parsed(parsed, settings)
}

/// How many textures have a patch.
pub open spec fn patched_count(outcomes: Seq<OutcomeModel>) -> nat
    decreases outcomes.len(),
{
    if outcomes.len() == 0 {
        0
    } else {
        patched_count(outcomes.drop_last()) + if outcomes.last().patch is Some {
            1nat
        } else {
            0nat
        }
    }
}

proof fn lemma_resized_is_patched(outcomes: Seq<OutcomeModel>)
    requires
        forall|i: int|
            0 <= i < outcomes.len() ==> (#[trigger] outcomes[i]).resized == (outcomes[i].patch
                is Some),
    ensures
        resized_count(outcomes) == patched_count(outcomes),
    decreases outcomes.len(),
{
    if outcomes.len() > 0 {
        let before = outcomes.drop_last();
        assert forall|i: int| 0 <= i < before.len() implies (#[trigger] before[i]).resized == (
        before[i].patch is Some) by {
            assert(before[i] == outcomes[i]);
        }
        lemma_resized_is_patched(before);
        assert(outcomes.last() == outcomes[outcomes.len() - 1]);
    }
}

/// Whether a file with these outcomes can be written: its pixels can be
/// addressed in 64 bits, and the compressor does not fail.
pub open spec fn is_writable(model: YtdModel, outcomes: Seq<OutcomeModel>) -> bool {
    &&& GRAPHICS_TAG + new_graphics(model, all_patches(outcomes)).len() <= u64::MAX
    &&& deflated(rebuilt_body(model, all_patches(outcomes))) is Ok
}

/// Whether the numbers are those of the outcomes: all textures count, those
/// with a patch count as resized, and the warnings are in the textures' order.
pub open spec fn are_stats_of(stats: ResizeStats, outcomes: Seq<OutcomeModel>) -> bool {
    &&& stats.textures_total == outcomes.len()
    &&& stats.textures_resized == patched_count(outcomes)
    &&& texts(stats.warnings@) == all_warnings(outcomes)
}

/// A file that cannot be read fails with the reader's error. One that can be
/// read fails only where a texture cannot be dealt with, the pixels cannot be
/// addressed or the compressor fails; otherwise the numbers are those of the
/// textures' outcomes.
pub proof fn law_readable_files_are_resized(
    data: Seq<u8>,
    settings: Settings,
    res: Result<(Vec<u8>, ResizeStats), YtdError>,
)
    requires
        is_resized(data, settings, res),
    ensures
        parsed_model(data) matches Err(e) ==> res == Err::<(Vec<u8>, ResizeStats), YtdError>(e),
        parsed_model(data) matches Ok(model) ==> (res is Ok ==> all_manageable(
            model.textures,
            settings,
        )) && (all_manageable(model.textures, settings) ==> exists|outcomes: Seq<OutcomeModel>|
            {
                &&& #[trigger] are_outcomes(model.textures, settings, outcomes)
                &&& res is Ok <==> is_writable(model, outcomes)
                &&& res matches Ok((_, stats)) ==> are_stats_of(stats, outcomes)
            }),
{
    reveal(is_outcome);
    if let Ok(model) = parsed_model(data) {
        if all_manageable(model.textures, settings) {
            let outcomes = choose|outcomes: Seq<OutcomeModel>| #[trigger]
                are_outcomes(model.textures, settings, outcomes) && is_written(
                    model,
                    outcomes,
                    res,
                );
            assert forall|i: int| 0 <= i < outcomes.len() implies (
            #[trigger] outcomes[i]).resized == (outcomes[i].patch is Some) by {
                assert(is_outcome(
                    model.textures[i],
                    settings,
                    settings.spec_skip_list(),
                    outcomes[i],
                ));
            }
            lemma_resized_is_patched(outcomes);
            assert(are_outcomes(model.textures, settings, outcomes));
        }
    }
}

} // verus!
