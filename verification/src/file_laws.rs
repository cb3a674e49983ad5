//! What holds of a file that was resized, when it is read again.

use crate::pipeline::{
    all_manageable, all_patches, are_outcomes, is_manageable, is_outcome, is_resized, is_written,
    target_dims, OutcomeModel, ResizeStats,
};
use crate::pipeline_laws::{is_chosen_format, law_converted_is_the_texture};
use crate::settings::Settings;
use crate::ytd_fields::{law_sections_are_parted, law_textures_are_described};
use crate::ytd_io::{new_graphics, parsed_model, YtdError};
use crate::ytd_laws::{is_addressable, is_separate, law_rebuilt_is_read_back, reread};
use vstd::prelude::*;

verus! {

/// What is read of a file is well formed.
pub proof fn law_read_files_are_well_formed(data: Seq<u8>)
    requires
        parsed_model(data) is Ok,
    ensures
        parsed_model(data)->Ok_0.wf(),
{
    law_sections_are_parted(data);
    law_textures_are_described(data);
}

/// A file that was resized can be read again, and has the same textures in the
/// same order, under the same names. Those that were converted have the target
/// size and the chosen format, and those that were not are as they were. This
/// takes a file whose descriptions do not overlap, and pixels that can be
/// addressed.
pub proof fn law_resized_file_is_read_back(
    data: Seq<u8>,
    settings: Settings,
    bytes: Vec<u8>,
    stats: ResizeStats,
)
    requires
        is_resized(data, settings, Ok((bytes, stats))),
        parsed_model(data) matches Ok(model) ==> is_separate(model),
    ensures
        parsed_model(data) is Ok,
        ({
            let model = parsed_model(data)->Ok_0;
            exists|outcomes: Seq<OutcomeModel>|
                {
                    &&& #[trigger] are_outcomes(model.textures, settings, outcomes)
                    &&& stats.textures_total == model.textures.len()
                    &&& outcomes.len() == model.textures.len()
                    &&& forall|j: int|
                        0 <= j < model.textures.len() ==> is_outcome(
                            model.textures[j],
                            settings,
                            settings.spec_skip_list(),
                            #[trigger] outcomes[j],
                        )
                    &&& is_addressable(model, all_patches(outcomes)) ==> {
                        let again = parsed_model(bytes@)->Ok_0;
                        &&& parsed_model(bytes@) is Ok
                        &&& again.textures.len() == model.textures.len()
                        &&& forall|j: int|
                            0 <= j < model.textures.len() ==> {
                                let before = model.textures[j];
                                let after = #[trigger] again.textures[j];
                                &&& after.name == before.name
                                &&& after.name_hash == before.name_hash
                                &&& outcomes[j].patch is Some ==> {
                                    &&& (after.width, after.height) == target_dims(
                                        settings,
                                        before.width,
                                        before.height,
                                    )
                                    &&& is_chosen_format(settings, before.format, after.format)
                                    &&& after.levels == outcomes[j].patch->0.levels
                                }
                                &&& outcomes[j].patch is None ==> {
                                    &&& after.width == before.width
                                    &&& after.height == before.height
                                    &&& after.format == before.format
                                    &&& after.levels == before.levels
                                    &&& after.stride == before.stride
                                }
                            }
                    }
                }
        }),
{
    let model = parsed_model(data)->Ok_0;
    law_read_files_are_well_formed(data);
    let res: Result<(Vec<u8>, ResizeStats), YtdError> = Ok((bytes, stats));
    let outcomes = choose|outcomes: Seq<OutcomeModel>| #[trigger]
        are_outcomes(model.textures, settings, outcomes) && is_written(model, outcomes, res);
    assert(are_outcomes(model.textures, settings, outcomes));
    let patches = all_patches(outcomes);
    if is_addressable(model, patches) {
        law_rebuilt_is_read_back(data, model, patches, bytes@);
        let again = parsed_model(bytes@)->Ok_0;
        assert forall|j: int| 0 <= j < model.textures.len() implies {
            let before = model.textures[j];
            let after = #[trigger] again.textures[j];
            &&& after.name == before.name
            &&& after.name_hash == before.name_hash
            &&& outcomes[j].patch is Some ==> {
                &&& (after.width, after.height) == target_dims(
                    settings,
                    before.width,
                    before.height,
                )
                &&& is_chosen_format(settings, before.format, after.format)
                &&& after.levels == outcomes[j].patch->0.levels
            }
            &&& outcomes[j].patch is None ==> {
                &&& after.width == before.width
                &&& after.height == before.height
                &&& after.format == before.format
                &&& after.levels == before.levels
                &&& after.stride == before.stride
            }
        } by {
            assert(again.textures[j] == reread(model, patches, j));
            assert(patches[j] == outcomes[j].patch);
            assert(is_outcome(
                model.textures[j],
                settings,
                settings.spec_skip_list(),
                outcomes[j],
            ));
            if outcomes[j].patch is Some {
                law_converted_is_the_texture(
                    model.textures[j],
                    settings,
                    settings.spec_skip_list(),
                    outcomes[j],
                );
            }
        }
    }
}

/// A file that can be read is only given up as too large where one of its
/// textures cannot be dealt with, or there are more pixels than addresses.
pub proof fn law_only_large_files_are_given_up(data: Seq<u8>, settings: Settings)
    requires
        parsed_model(data) is Ok,
        is_resized(data, settings, Err(YtdError::TooLarge)),
    ensures
        ({
            let model = parsed_model(data)->Ok_0;
            ||| exists|j: int|
                0 <= j < model.textures.len() && !is_manageable(
                    #[trigger] model.textures[j],
                    settings,
                    settings.spec_skip_list(),
                )
            ||| exists|outcomes: Seq<OutcomeModel>| #[trigger]
                are_outcomes(model.textures, settings, outcomes) && 0x6000_0000 + new_graphics(
                    model,
                    all_patches(outcomes),
                ).len() > u64::MAX
        }),
{
    let model = parsed_model(data)->Ok_0;
    if all_manageable(model.textures, settings) {
        let res: Result<(Vec<u8>, ResizeStats), YtdError> = Err(YtdError::TooLarge);
        let outcomes = choose|outcomes: Seq<OutcomeModel>| #[trigger]
            are_outcomes(model.textures, settings, outcomes) && is_written(model, outcomes, res);
        assert(are_outcomes(model.textures, settings, outcomes));
    }
}

} // verus!
