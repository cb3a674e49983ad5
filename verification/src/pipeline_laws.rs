//! What holds of the sizes, formats and levels that textures are brought to.

use crate::codec::{has_encodable_size, is_mip_chain, is_resampled, level_decoded, may_be_lanczos};
use crate::codec_laws::{decodes_to, law_chain_goes_on, side_at};
use crate::pipeline::{
    all_patches, all_warnings, first_level, is_converted, is_listed, is_manageable, is_outcome,
    is_sized, is_skipped, longer, resized_count, rounded_up, target_dims, target_fits, target_side,
    texture_plan, OutcomeModel, PlanModel,
};
use crate::pixels::ImageModel;
use crate::scale::law_scaled_is_nearest;
use crate::settings::{ForceFormat, OutputFormatMode, ResizeMode, Settings};
use crate::text::{decimal, has_substring, unicode_lowercase};
use crate::texture_format::TextureFormat;
use crate::ytd_io::TextureModel;
use vstd::arithmetic::power2::{lemma2_to64, lemma_pow2_unfold, pow2};
use vstd::prelude::*;

verus! {

// ---------------------------------------------------------------------------
// Sizes
// ---------------------------------------------------------------------------

/// Whether a side is scaled to `s` texels: by the ratio of the cap and the
/// longer side where that exceeds the cap, or by the percentage, to the nearest
/// integer. Beyond 32 bits it is cut off.
pub open spec fn is_scaled(settings: Settings, side: int, longest: int, s: int) -> bool {
    match settings.resize_mode {
        ResizeMode::CapResolution => if longest <= settings.cap_resolution {
            s == side
        } else {
            -longest <= 2 * (longest * s - side * settings.cap_resolution) <= longest
        },
        ResizeMode::ScalePercent => s == u32::MAX || -100 <= 2 * (100 * s - side
            * settings.scale_percent) <= 100,
    }
}

/// The larger one of two numbers.
pub open spec fn larger(a: int, b: int) -> int {
    if a < b {
        b
    } else {
        a
    }
}

/// The smaller one of two numbers.
pub open spec fn smaller(a: int, b: int) -> int {
    if b < a {
        b
    } else {
        a
    }
}

/// Whether `t` is the least multiple of four, from four on, that is no less
/// than `v`.
pub open spec fn is_least_multiple(t: int, v: int) -> bool {
    &&& t % 4 == 0
    &&& t >= 4
    &&& t >= v
    &&& t > 4 ==> t - 4 < v
}

/// Whether `t` is the target of a side that is scaled to `s` texels: no less
/// than the floor, no more than the side itself, and rounded up to a multiple of
/// four.
pub open spec fn is_target(settings: Settings, side: int, s: int, t: int) -> bool {
    is_least_multiple(t, smaller(larger(s, settings.min_size_floor as int), side))
}

proof fn lemma_rounded_is_least(v: int)
    requires
        v >= 0,
    ensures
        is_least_multiple(rounded_up(v), v),
{
    let q = (v + 3) / 4;
    assert(v + 3 == 4 * q + (v + 3) % 4);
    assert(0 <= (v + 3) % 4 < 4);
    assert((q * 4) % 4 == 0);
}

proof fn lemma_side_target(settings: Settings, side: u16, longest: u16) -> (s: int)
    requires
        side <= longest,
    ensures
        is_scaled(settings, side as int, longest as int, s),
        is_target(settings, side as int, s, target_side(settings, side, longest)),
        0 <= target_side(settings, side, longest) <= 0x1_0000,
{
    let cap = settings.cap_resolution;
    if longest > cap {
        law_scaled_is_nearest(side as nat, cap as nat, longest as nat);
    }
    law_scaled_is_nearest(side as nat, settings.scale_percent as nat, 100);
    let s = crate::pipeline::scaled_side(settings, side, longest) as int;
    let v = crate::pipeline::floored_side(settings, side, longest) as int;
    lemma_rounded_is_least(v);
    lemma_rounded_is_least(side as int);
    if settings.resize_mode is CapResolution && longest > cap {
        crate::scale::law_scaled_within(side as nat, cap as nat, longest as nat);
        assert(-longest <= 2 * (longest * s - side * cap) <= longest);
    }
    s
}

/// The target size of a texture: each side is scaled to the nearest integer, by
/// the ratio of the cap and the longer side or by the percentage, but not below
/// the floor and not above its own length, and rounded up to a multiple of four.
/// What does not fit into sixteen bits is cut to them.
pub proof fn law_target_is_scaled(settings: Settings, width: u16, height: u16)
    ensures
        ({
            let longest = larger(width as int, height as int);
            let (w, h) = target_dims(settings, width, height);
            &&& exists|s: int, t: int|
                {
                    &&& #[trigger] is_scaled(settings, width as int, longest, s)
                    &&& #[trigger] is_target(settings, width as int, s, t)
                    &&& w == t % 0x1_0000
                }
            &&& exists|s: int, t: int|
                {
                    &&& #[trigger] is_scaled(settings, height as int, longest, s)
                    &&& #[trigger] is_target(settings, height as int, s, t)
                    &&& h == t % 0x1_0000
                }
        }),
{
    let longest = longer(width, height);
    let s = lemma_side_target(settings, width, longest);
    let r = lemma_side_target(settings, height, longest);
    let tw = target_side(settings, width, longest);
    let th = target_side(settings, height, longest);
    let (w, h) = target_dims(settings, width, height);
    assert(larger(width as int, height as int) == longest);
    assert(is_scaled(settings, width as int, longest as int, s));
    assert(is_scaled(settings, height as int, longest as int, r));
    assert(is_target(settings, width as int, s, tw));
    assert(is_target(settings, height as int, r, th));
    assert(w == tw % 0x1_0000 && h == th % 0x1_0000);
}

/// A texture within the cap keeps its size, rounded up to multiples of four.
pub proof fn law_small_textures_keep_their_size(settings: Settings, width: u16, height: u16)
    requires
        settings.resize_mode is CapResolution,
        width <= settings.cap_resolution,
        height <= settings.cap_resolution,
        4 <= width,
        4 <= height,
        width % 4 == 0,
        height % 4 == 0,
    ensures
        target_dims(settings, width, height) == (width, height),
{
}

// ---------------------------------------------------------------------------
// Plans
// ---------------------------------------------------------------------------

/// A name is listed if and only if one of the texts stands somewhere in it, when
/// it is written in lower case.
pub proof fn law_listed_names_hold_a_text(name: Seq<char>, skips: Seq<Seq<char>>)
    ensures
        is_skipped(name, skips) <==> exists|i: int, before: Seq<char>, after: Seq<char>|
            0 <= i < skips.len() && unicode_lowercase(name) == #[trigger] (before + skips[i]
                + after),
{
    let n = unicode_lowercase(name);
    if is_skipped(name, skips) {
        assert(is_listed(n, skips));
        let i = choose|i: int| 0 <= i < skips.len() && has_substring(n, #[trigger] skips[i]);
        let text = skips[i];
        let k = choose|k: int|
            0 <= k <= n.len() - text.len() && #[trigger] n.subrange(k, k + text.len()) == text;
        let before = n.take(k);
        let after = n.skip(k + text.len());
        assert(n =~= before + skips[i] + after) by {
            assert forall|j: int| 0 <= j < text.len() implies n[k + j] == text[j] by {
                assert(n.subrange(k, k + text.len())[j] == text[j]);
            }
        }
    }
    if exists|i: int, before: Seq<char>, after: Seq<char>|
        0 <= i < skips.len() && n == #[trigger] (before + skips[i] + after) {
        let (i, before, after) = choose|i: int, before: Seq<char>, after: Seq<char>|
            0 <= i < skips.len() && n == #[trigger] (before + skips[i] + after);
        let text = skips[i];
        let k = before.len() as int;
        assert(n.subrange(k, k + text.len()) =~= text);
        assert(has_substring(n, skips[i]));
    }
}

/// The format that each choice of the settings stands for.
pub open spec fn is_chosen_format(
    settings: Settings,
    own: TextureFormat,
    format: TextureFormat,
) -> bool {
    match settings.output_format {
        OutputFormatMode::KeepOriginal => format == own,
        OutputFormatMode::Force(ForceFormat::Bc1) => format is DXT1,
        OutputFormatMode::Force(ForceFormat::Bc2) => format is DXT3,
        OutputFormatMode::Force(ForceFormat::Bc3) => format is DXT5,
        OutputFormatMode::Force(ForceFormat::Bc7) => format is BC7,
    }
}

/// A texture is kept if its name is listed, or if neither its size nor its
/// format would change. Of the others, one in a format that is not known is
/// skipped, with a warning that names it, and any other is converted: to the
/// target size, to the chosen format, and with one level, as many as there can
/// be, or no more than it has, as the settings ask for.
pub proof fn law_plan_follows_settings(t: TextureModel, settings: Settings, skips: Seq<Seq<char>>)
    ensures
        ({
            let size = target_dims(settings, t.width, t.height);
            match texture_plan(t, settings, skips) {
                PlanModel::Keep => is_skipped(t.name, skips) || (size == (t.width, t.height)
                    && is_chosen_format(settings, t.format, t.format)),
                PlanModel::Skip { warning } => {
                    &&& !is_skipped(t.name, skips)
                    &&& t.format is Unknown
                    &&& size != (t.width, t.height) || !is_chosen_format(
                        settings,
                        t.format,
                        t.format,
                    )
                    &&& warning == "'"@ + t.name + "': format "@ + "Unknown"@
                        + " has no decoder/encoder available, left unchanged"@
                },
                PlanModel::Convert { width, height, format, resize, max_levels } => {
                    &&& !is_skipped(t.name, skips)
                    &&& !(t.format is Unknown)
                    &&& size != (t.width, t.height) || !is_chosen_format(
                        settings,
                        t.format,
                        t.format,
                    )
                    &&& (width, height) == size
                    &&& resize <==> size != (t.width, t.height)
                    &&& is_chosen_format(settings, t.format, format)
                    &&& settings.mip_handling is Strip ==> max_levels == 1
                    &&& settings.mip_handling is Regenerate ==> max_levels == 255
                    &&& settings.mip_handling is PreserveCount ==> max_levels == larger(
                        t.levels as int,
                        1,
                    )
                },
            }
        }),
{
}

/// A texture can be dealt with unless its name is not listed and its scaled
/// size, or the new image, is too large. In particular, no texture is too large
/// for a resolution cap and a floor that fit into sixteen bits, unless the
/// encoder cannot take it.
pub proof fn law_capped_textures_are_manageable(
    t: TextureModel,
    settings: Settings,
    skips: Seq<Seq<char>>,
)
    requires
        settings.resize_mode is CapResolution,
        settings.min_size_floor <= u16::MAX,
        texture_plan(t, settings, skips) matches PlanModel::Convert { width, height, format, .. }
            ==> has_encodable_size(format, width as nat, height as nat),
    ensures
        is_manageable(t, settings, skips),
{
    crate::pipeline::law_cap_always_fits(settings, t.width, t.height);
}

// ---------------------------------------------------------------------------
// Outcomes
// ---------------------------------------------------------------------------

/// The bytes of a texture's first level: `stride` bytes for each row, or all
/// that there are.
pub open spec fn level_zero(t: TextureModel) -> Seq<u8> {
    t.pixel_data.take(smaller(t.stride * t.height, t.pixel_data.len() as int))
}

proof fn lemma_level_zero(t: TextureModel)
    ensures
        first_level(t) == level_zero(t),
{
    assert(t.pixel_data.take(t.pixel_data.len() as int) =~= t.pixel_data);
    assert(t.stride * t.height >= 0) by (nonlinear_arith);
}

/// A texture that is converted is the first level, decoded, resampled to the
/// target size where that differs, and encoded in the chosen format and quality
/// with its mipmaps. The report counts it as resized.
pub proof fn law_converted_is_the_texture(
    t: TextureModel,
    settings: Settings,
    skips: Seq<Seq<char>>,
    outcome: OutcomeModel,
)
    requires
        is_outcome(t, settings, skips, outcome),
        outcome.patch is Some,
    ensures
        ({
            let patch = outcome.patch->0;
            let size = target_dims(settings, t.width, t.height);
            &&& outcome.resized
            &&& (patch.width, patch.height) == size
            &&& is_chosen_format(settings, t.format, patch.format)
            &&& exists|image: ImageModel, sized: ImageModel, max_levels: nat|
                {
                    &&& #[trigger] decodes_to(t.format, t.width, t.height, level_zero(t), image)
                    &&& sized.width == patch.width
                    &&& sized.height == patch.height
                    &&& size == (t.width, t.height) ==> sized == image
                    &&& size != (t.width, t.height) ==> is_resampled(
                        image,
                        patch.width as nat,
                        patch.height as nat,
                        sized,
                    ) && may_be_lanczos(
                        image.data,
                        t.width as nat,
                        t.height as nat,
                        patch.width as nat,
                        patch.height as nat,
                        sized.data,
                    )
                    &&& #[trigger] is_mip_chain(
                        patch.format,
                        settings.quality,
                        sized,
                        max_levels,
                        patch.pixel_data,
                        patch.levels as nat,
                    )
                    &&& settings.mip_handling is Strip ==> max_levels == 1
                    &&& settings.mip_handling is Regenerate ==> max_levels == 255
                    &&& settings.mip_handling is PreserveCount ==> max_levels == larger(
                        t.levels as int,
                        1,
                    )
                }
        }),
{
    reveal(is_outcome);
    lemma_level_zero(t);
    law_plan_follows_settings(t, settings, skips);
    let plan = texture_plan(t, settings, skips);
    let patch = outcome.patch->0;
    assert(plan is Convert);
    if let PlanModel::Convert { width, height, format, resize, max_levels } = plan {
        let image = level_decoded(t.format, t.width, t.height, first_level(t))->Ok_0;
        assert(is_converted(image, settings, width, height, format, resize, max_levels, patch));
        let sized = choose|sized: ImageModel| #[trigger]
            is_sized(image, resize, width, height, sized) && is_mip_chain(
                format,
                settings.quality,
                sized,
                max_levels as nat,
                patch.pixel_data,
                patch.levels as nat,
            );
        assert(decodes_to(t.format, t.width, t.height, level_zero(t), image));
        assert(is_mip_chain(
            patch.format,
            settings.quality,
            sized,
            max_levels as nat,
            patch.pixel_data,
            patch.levels as nat,
        ));
    }
}

proof fn lemma_side_shrinks(side: nat, k: nat)
    ensures
        side_at(side, k) > 4 ==> side >= 5 * pow2(k),
{
    if side_at(side, k) > 4 {
        lemma_side_doubles(side, k);
        let (a, p) = (side_at(side, k), pow2(k));
        assert(a * p >= 5 * p) by (nonlinear_arith)
            requires
                a >= 5,
                p >= 0,
        ;
    }
}

proof fn lemma_side_doubles(side: nat, k: nat)
    requires
        side_at(side, k) > 4,
    ensures
        side >= side_at(side, k) * pow2(k),
    decreases k,
{
    if k > 0 {
        let j = (k - 1) as nat;
        lemma_side_doubles(side, j);
        lemma_pow2_unfold(k);
        let (a, b, p) = (side_at(side, k), side_at(side, j), pow2(j));
        assert(b >= 2 * a);
        assert(a * (2 * p) <= b * p) by (nonlinear_arith)
            requires
                b >= 2 * a,
                p >= 0,
        ;
    } else {
        lemma2_to64();
        assert(side * 1 == side);
    }
}

/// A stripped texture has one level. One whose mipmaps are regenerated has as
/// many as there are until a side is down to four texels. Where the number is to
/// be kept, it is, unless a side is down to four texels before: it never grows.
pub proof fn law_levels_follow_settings(
    t: TextureModel,
    settings: Settings,
    skips: Seq<Seq<char>>,
    outcome: OutcomeModel,
)
    requires
        is_outcome(t, settings, skips, outcome),
        outcome.patch is Some,
    ensures
        ({
            let patch = outcome.patch->0;
            let ends = side_at(patch.width as nat, (patch.levels - 1) as nat) <= 4 || side_at(
                patch.height as nat,
                (patch.levels - 1) as nat,
            ) <= 4;
            &&& patch.levels >= 1
            &&& settings.mip_handling is Strip ==> patch.levels == 1
            &&& settings.mip_handling is Regenerate ==> ends
            &&& settings.mip_handling is PreserveCount ==> patch.levels <= larger(
                t.levels as int,
                1,
            ) && (patch.levels == larger(t.levels as int, 1) || ends)
        }),
{
    reveal(is_outcome);
    law_converted_is_the_texture(t, settings, skips, outcome);
    let patch = outcome.patch->0;
    let (image, sized, max_levels) = choose|image: ImageModel, sized: ImageModel, max_levels: nat|
        {
            &&& #[trigger] decodes_to(t.format, t.width, t.height, level_zero(t), image)
            &&& sized.width == patch.width
            &&& sized.height == patch.height
            &&& target_dims(settings, t.width, t.height) == (t.width, t.height) ==> sized == image
            &&& target_dims(settings, t.width, t.height) != (t.width, t.height) ==> is_resampled(
                image,
                patch.width as nat,
                patch.height as nat,
                sized,
            ) && may_be_lanczos(
                image.data,
                t.width as nat,
                t.height as nat,
                patch.width as nat,
                patch.height as nat,
                sized.data,
            )
            &&& #[trigger] is_mip_chain(
                patch.format,
                settings.quality,
                sized,
                max_levels,
                patch.pixel_data,
                patch.levels as nat,
            )
            &&& settings.mip_handling is Strip ==> max_levels == 1
            &&& settings.mip_handling is Regenerate ==> max_levels == 255
            &&& settings.mip_handling is PreserveCount ==> max_levels == larger(t.levels as int, 1)
        };
    law_chain_goes_on(
        patch.format,
        settings.quality,
        sized,
        max_levels,
        patch.pixel_data,
        patch.levels as nat,
    );
    if patch.levels > 1 {
        let k = (patch.levels - 2) as nat;
        assert(side_at(sized.width, k) > 4);
        assert(k + 1 < max_levels);
    }
    if settings.mip_handling is Regenerate && patch.levels >= 255 {
        lemma_side_shrinks(sized.width, 16);
        lemma2_to64();
        assert(side_at(sized.width, 16) > 4);
        assert(false);
    }
}

/// A texture is either left as it is or converted. It is left as it is, with a
/// warning that names it, where its format is not known or its first level is
/// not complete; and a converted one has a warning if and only if the number of
/// its levels was to be kept and there are fewer.
pub proof fn law_warnings_are_given(
    t: TextureModel,
    settings: Settings,
    skips: Seq<Seq<char>>,
    outcome: OutcomeModel,
)
    requires
        is_outcome(t, settings, skips, outcome),
    ensures
        ({
            let size = target_dims(settings, t.width, t.height);
            let stays = is_skipped(t.name, skips) || (size == (t.width, t.height)
                && is_chosen_format(settings, t.format, t.format));
            let readable = level_decoded(t.format, t.width, t.height, level_zero(t)) is Ok;
            &&& outcome.resized <==> outcome.patch is Some
            &&& outcome.patch is Some <==> !stays && !(t.format is Unknown) && readable
            &&& outcome.patch is None ==> (outcome.warning is None <==> stays)
            &&& outcome.patch is None && outcome.warning is Some ==> exists|reason: Seq<char>|
                outcome.warning->0 == #[trigger] ("'"@ + t.name + "': "@ + reason
                    + ", left unchanged"@)
            &&& outcome.patch matches Some(patch) ==> match outcome.warning {
                None => settings.mip_handling is PreserveCount ==> t.levels <= patch.levels,
                Some(w) => {
                    &&& settings.mip_handling is PreserveCount
                    &&& patch.levels < t.levels
                    &&& w == "'"@ + t.name + "': mip count reduced "@ + decimal(t.levels as nat)
                        + " -> "@ + decimal(patch.levels as nat)
                        + " (texture now too small for full chain)"@
                },
            }
        }),
{
    reveal(is_outcome);
    lemma_level_zero(t);
    law_plan_follows_settings(t, settings, skips);
    match texture_plan(t, settings, skips) {
        PlanModel::Skip { warning } => {
            reveal_strlit("': format ");
            reveal_strlit("': ");
            reveal_strlit("Unknown");
            reveal_strlit(" has no decoder/encoder available, left unchanged");
            reveal_strlit(", left unchanged");
            let reason = "': format "@.skip(3) + "Unknown"@
                + " has no decoder/encoder available, left unchanged"@.take(33);
            assert(warning =~= "'"@ + t.name + "': "@ + reason + ", left unchanged"@);
        },
        PlanModel::Convert { .. } => {
            if let Err(e) = level_decoded(t.format, t.width, t.height, first_level(t)) {
                assert(outcome.warning->0 == "'"@ + t.name + "': "@ + e + ", left unchanged"@);
            }
        },
        _ => {},
    }
}

// ---------------------------------------------------------------------------
// Sums over a dictionary
// ---------------------------------------------------------------------------

/// The report on a dictionary is that on its textures, in their order: a part of
/// them is reported on as if it stood alone, and a single one counts once if it
/// was converted and gives its own warning.
pub proof fn law_reports_add_up(
    first: Seq<OutcomeModel>,
    second: Seq<OutcomeModel>,
    one: OutcomeModel,
)
    ensures
        resized_count(first + second) == resized_count(first) + resized_count(second),
        all_warnings(first + second) == all_warnings(first) + all_warnings(second),
        resized_count(seq![one]) == if one.resized {
            1nat
        } else {
            0nat
        },
        all_warnings(seq![one]) == match one.warning {
            Some(w) => seq![w],
            None => Seq::<Seq<char>>::empty(),
        },
    decreases second.len(),
{
    assert(seq![one].drop_last() =~= Seq::<OutcomeModel>::empty());
    assert(resized_count(Seq::<OutcomeModel>::empty()) == 0);
    assert(all_warnings(Seq::<OutcomeModel>::empty()) =~= Seq::<Seq<char>>::empty());
    assert(seq![one].last() == one);
    if let Some(w) = one.warning {
        assert(Seq::<Seq<char>>::empty().push(w) =~= seq![w]);
    }
    if second.len() == 0 {
        assert(first + second =~= first);
        assert(all_warnings(first) + all_warnings(second) =~= all_warnings(first));
    } else {
        let front = second.drop_last();
        law_reports_add_up(first, front, one);
        assert((first + second).drop_last() =~= first + front);
        assert((first + second).last() == second.last());
        assert(all_warnings(first + second) =~= all_warnings(first) + all_warnings(second));
    }
}

/// Each texture gets its own patch.
pub proof fn law_patches_stay_in_place(outcomes: Seq<OutcomeModel>, i: int)
    requires
        0 <= i < outcomes.len(),
    ensures
        all_patches(outcomes).len() == outcomes.len(),
        all_patches(outcomes)[i] == outcomes[i].patch,
{
}

/// A scaled size can be computed for every texture, up to a percentage of six
/// million, unless the floor itself is beyond 32 bits when rounded up.
pub proof fn law_scaled_sizes_fit(settings: Settings, width: u16, height: u16)
    requires
        settings.min_size_floor <= u32::MAX - 3,
        settings.resize_mode is ScalePercent ==> settings.scale_percent <= 6_000_000,
    ensures
        target_fits(settings, width, height),
{
    if settings.resize_mode is CapResolution {
        crate::pipeline::law_cap_always_fits(settings, width, height);
    } else {
        let p = settings.scale_percent as nat;
        law_scaled_is_nearest(width as nat, p, 100);
        law_scaled_is_nearest(height as nat, p, 100);
        assert(width * p <= 0xffff * 6_000_000 && height * p <= 0xffff * 6_000_000)
            by (nonlinear_arith)
            requires
                width <= 0xffff,
                height <= 0xffff,
                p <= 6_000_000,
        ;
    }
}

/// The encoders take every size in the formats without blocks, any width but
/// zero in DXT3, and up to half a gibi of texels in the other block formats.
pub proof fn law_encodable_sizes(fmt: TextureFormat, width: nat, height: nat)
    ensures
        has_encodable_size(fmt, width, height) <==> match fmt {
            TextureFormat::DXT3 => width > 0,
            TextureFormat::DXT1 | TextureFormat::DXT5 | TextureFormat::ATI1 | TextureFormat::ATI2
            | TextureFormat::BC7 => width * height <= 0x2000_0000,
            _ => true,
        },
{
}

} // verus!
