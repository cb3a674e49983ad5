//! What holds of the names, numbers and reports of a merge, step by step.

use crate::assets::{
    asset_of, join, lemma_join_borders, lemma_last_position_at, piece_start, renumbered, AssetModel,
};
use crate::ids::{free_id, has_free_id, lemma_free_id_cases, widest_id};
use crate::merge::{
    about_file, after_found, after_write, file_count, group_width, planned_file, MergerModel,
    PlannedModel, Written,
};
use crate::names::{collision_name, is_extension, opt_string, path_before};
use crate::placing::{Found, RunModel};
use crate::squisher::{
    file_asset, file_key, group_key, groups_upto, key_before, names_manifest, new_number,
    used_after, GroupKey, PackFile, UsedMap,
};
use crate::text::{
    all_digits, decimal, digits_value, last_position, lemma_last_position, lower, split_on,
    text_before, texts, zero_padded,
};
use vstd::prelude::*;

verus! {

// ---------------------------------------------------------------------------
// Names of assets
// ---------------------------------------------------------------------------

/// A name with its parts: what comes before the part that names the asset, that
/// part, and the extension.
pub open spec fn whole_name(head: Seq<char>, component: Seq<char>, ext: Seq<char>) -> Seq<char> {
    (head + component).push('.') + ext
}

/// Whether these are the parts of a name: the extension has no point in it, and
/// the part that names the asset starts behind the last caret.
pub open spec fn are_parts(head: Seq<char>, component: Seq<char>, ext: Seq<char>) -> bool {
    &&& !ext.contains('.')
    &&& !component.contains('^')
    &&& head.len() == 0 || head.last() == '^'
}

proof fn lemma_parts(head: Seq<char>, component: Seq<char>, ext: Seq<char>)
    requires
        are_parts(head, component, ext),
    ensures
        ({
            let name = whole_name(head, component, ext);
            let stem = head + component;
            &&& last_position(name, '.') == Some(stem.len() as int)
            &&& name.take(stem.len() as int) == stem
            &&& name.skip(stem.len() as int + 1) == ext
            &&& crate::assets::component_start(stem) == head.len()
            &&& stem.skip(head.len() as int) == component
        }),
{
    let name = whole_name(head, component, ext);
    let stem = head + component;
    lemma_last_position_at(stem, '.', ext);
    assert(name.take(stem.len() as int) =~= stem);
    assert(name.skip(stem.len() as int + 1) =~= ext);
    assert(stem.skip(head.len() as int) =~= component);
    lemma_last_position(stem, '^');
    if let Some(i) = last_position(stem, '^') {
        if i >= head.len() {
            assert(component[i - head.len()] == '^');
        } else if i < head.len() - 1 {
            assert(stem[head.len() - 1] == '^');
        }
    } else if head.len() > 0 {
        assert(stem[head.len() - 1] == '^');
    }
}

proof fn lemma_piece_place(pieces: Seq<Seq<char>>, i: int)
    requires
        0 <= i < pieces.len(),
    ensures
        piece_start(pieces, i) == if i == 0 {
            0
        } else {
            join(pieces.take(i), '_').len() + 1
        },
    decreases i,
{
    if i > 0 {
        let before = pieces.take(i);
        lemma_join_borders(before, '_', i - 1);
        lemma_start_same(pieces, before, i - 1);
        assert(before[i - 1] == pieces[i - 1]);
    }
}

proof fn lemma_start_same(a: Seq<Seq<char>>, b: Seq<Seq<char>>, i: int)
    requires
        forall|k: int| 0 <= k < i ==> a[k] == b[k],
    ensures
        piece_start(a, i) == piece_start(b, i),
    decreases i,
{
    if i > 0 {
        lemma_start_same(a, b, i - 1);
    }
}

/// The number of a model is the last of its name, the pieces of which stand
/// between underscores: what comes before it is the prefix, in lower case. A
/// name without a number, or with nothing before it, is that of no asset, and so
/// is one whose number does not fit into 32 bits.
pub proof fn law_models_are_recognised(
    head: Seq<char>,
    component: Seq<char>,
    ext: Seq<char>,
    i: int,
)
    requires
        are_parts(head, component, ext),
        lower(ext) == "ydd"@,
    ensures
        ({
            let pieces = split_on(lower(component), '_');
            let asset = asset_of(whole_name(head, component, ext));
            let prefix = join(pieces.take(i), '_');
            let is_last = 0 <= i < pieces.len() && all_digits(pieces[i]) && forall|j: int|
                i < j < pieces.len() ==> !all_digits(#[trigger] pieces[j]);
            &&& is_last && i > 0 && digits_value(pieces[i]) <= u32::MAX ==> asset == Some(
                AssetModel {
                    prefix,
                    id: digits_value(pieces[i]) as u32,
                    start: head.len() as int + prefix.len() + 1,
                    end: head.len() as int + prefix.len() + 1 + pieces[i].len(),
                },
            )
            &&& is_last && (i == 0 || digits_value(pieces[i]) > u32::MAX) ==> asset is None
            &&& (forall|j: int| 0 <= j < pieces.len() ==> !all_digits(#[trigger] pieces[j]))
                ==> asset is None
        }),
{
    reveal_strlit("ydd");
    reveal_strlit("ytd");
    assert("ydd"@[1] != "ytd"@[1]);
    lemma_parts(head, component, ext);
    let pieces = split_on(lower(component), '_');
    lemma_last_number_is(pieces);
    if 0 <= i < pieces.len() {
        lemma_piece_place(pieces, i);
    }
}

proof fn lemma_last_number_is(pieces: Seq<Seq<char>>)
    ensures
        match crate::assets::last_number(pieces) {
            Some(i) => {
                &&& 0 <= i < pieces.len()
                &&& all_digits(pieces[i])
                &&& forall|j: int| i < j < pieces.len() ==> !all_digits(#[trigger] pieces[j])
            },
            None => forall|j: int| 0 <= j < pieces.len() ==> !all_digits(#[trigger] pieces[j]),
        },
    decreases pieces.len(),
{
    if pieces.len() > 0 && !all_digits(pieces.last()) {
        let front = pieces.drop_last();
        lemma_last_number_is(front);
        assert forall|j: int| 0 <= j < front.len() implies front[j] == pieces[j] by {}
        match crate::assets::last_number(front) {
            Some(i) => {
                assert forall|j: int| i < j < pieces.len() implies !all_digits(
                    #[trigger] pieces[j],
                ) by {
                    if j < front.len() {
                        assert(front[j] == pieces[j]);
                    }
                }
            },
            None => {
                assert forall|j: int| 0 <= j < pieces.len() implies !all_digits(
                    #[trigger] pieces[j],
                ) by {
                    if j < front.len() {
                        assert(front[j] == pieces[j]);
                    }
                }
            },
        }
    }
}

proof fn lemma_first_place_is(pieces: Seq<Seq<char>>, word: Seq<char>)
    ensures
        match crate::assets::first_place(pieces, word) {
            Some(i) => {
                &&& 0 <= i < pieces.len()
                &&& pieces[i] == word
                &&& forall|j: int| 0 <= j < i ==> #[trigger] pieces[j] != word
            },
            None => forall|j: int| 0 <= j < pieces.len() ==> #[trigger] pieces[j] != word,
        },
    decreases pieces.len(),
{
    if pieces.len() > 0 {
        let front = pieces.drop_last();
        lemma_first_place_is(front, word);
        assert forall|j: int| 0 <= j < front.len() implies front[j] == pieces[j] by {}
        match crate::assets::first_place(front, word) {
            Some(i) => {
                assert(pieces[i] == front[i]);
                assert forall|j: int| 0 <= j < i implies #[trigger] pieces[j] != word by {
                    assert(front[j] == pieces[j]);
                }
            },
            None => {
                assert forall|j: int| 0 <= j < front.len() implies #[trigger] pieces[j]
                    != word by {
                    assert(front[j] == pieces[j]);
                }
            },
        }
    }
}

/// The number of a texture stands behind the first `diff` of its name, and what
/// comes before that is the prefix, in lower case. Without such a number, or with
/// nothing before the word, the name is that of no asset.
pub proof fn law_textures_are_recognised(
    head: Seq<char>,
    component: Seq<char>,
    ext: Seq<char>,
    i: int,
)
    requires
        are_parts(head, component, ext),
        lower(ext) == "ytd"@,
    ensures
        ({
            let pieces = split_on(lower(component), '_');
            let asset = asset_of(whole_name(head, component, ext));
            let prefix = join(pieces.take(i), '_');
            let is_first = 0 <= i < pieces.len() && pieces[i] == "diff"@ && forall|j: int|
                0 <= j < i ==> #[trigger] pieces[j] != "diff"@;
            let has_number = i + 1 < pieces.len() && all_digits(pieces[i + 1]) && digits_value(
                pieces[i + 1],
            ) <= u32::MAX;
            &&& is_first && i > 0 && has_number ==> asset == Some(
                AssetModel {
                    prefix,
                    id: digits_value(pieces[i + 1]) as u32,
                    start: head.len() as int + prefix.len() + 6,
                    end: head.len() as int + prefix.len() + 6 + pieces[i + 1].len(),
                },
            )
            &&& is_first && !(i > 0 && has_number) ==> asset is None
            &&& (forall|j: int| 0 <= j < pieces.len() ==> #[trigger] pieces[j] != "diff"@)
                ==> asset is None
        }),
{
    reveal_strlit("diff");
    lemma_parts(head, component, ext);
    let pieces = split_on(lower(component), '_');
    lemma_first_place_is(pieces, "diff"@);
    if 0 <= i < pieces.len() {
        lemma_piece_place(pieces, i);
    }
}

/// Only models and textures are assets.
pub proof fn law_other_files_are_no_assets(
    head: Seq<char>,
    component: Seq<char>,
    ext: Seq<char>,
    name: Seq<char>,
)
    requires
        are_parts(head, component, ext),
    ensures
        lower(ext) != "ydd"@ && lower(ext) != "ytd"@ ==> asset_of(
            whole_name(head, component, ext),
        ) is None,
        !name.contains('.') ==> asset_of(name) is None,
{
    lemma_parts(head, component, ext);
    lemma_last_position(name, '.');
    if let Some(i) = last_position(name, '.') {
        assert(name[i] == '.');
        assert(name.contains('.'));
    }
}

/// A renumbered name is the name with other digits in place of its number, as
/// many as asked for and as it takes.
pub proof fn law_renumbering_replaces_the_number(
    name: Seq<char>,
    key: AssetModel,
    id: nat,
    width: nat,
)
    requires
        0 <= key.start <= key.end <= name.len(),
    ensures
        ({
            let new = renumbered(name, key, id, width);
            let digits = zero_padded(id, width);
            &&& new == name.take(key.start) + digits + name.skip(key.end)
            &&& digits_value(digits) == id
            &&& digits.len() >= width
        }),
{
    crate::text_laws::law_zero_padded(id, width);
}

// ---------------------------------------------------------------------------
// Numbers
// ---------------------------------------------------------------------------

/// The number that is given out: the one behind the largest in use, if that has
/// no more digits than asked for; else the least that is free; and if there is
/// none below, the one behind the largest with as many digits as it takes.
pub proof fn law_next_number(used: Set<u32>, digit_width: nat, largest: u32)
    requires
        has_free_id(used),
        used.contains(largest),
        forall|x: u32| used.contains(x) ==> x <= largest,
    ensures
        ({
            let (id, width) = free_id(used, digit_width);
            let asked = if digit_width == 0 {
                1
            } else {
                digit_width
            };
            let fits = largest + 1 <= widest_id(asked);
            let full = forall|x: u32| x < largest ==> used.contains(x);
            &&& fits ==> id == largest + 1 && width == asked
            &&& !fits && !full ==> !used.contains(id) && width == asked && forall|x: u32|
                x < id ==> used.contains(x)
            &&& !fits && full ==> id == largest + 1 && width > asked && largest + 1 <= widest_id(
                width,
            ) && largest + 1 > widest_id((width - 1) as nat)
        }),
{
    lemma_free_id_cases(used, digit_width, largest);
}

/// Where no number is in use, the first that is given out is zero.
pub proof fn law_first_number(digit_width: nat)
    ensures
        free_id(Set::<u32>::empty(), digit_width).0 == 0,
        free_id(Set::<u32>::empty(), digit_width).1 == if digit_width == 0 {
            1
        } else {
            digit_width
        },
{
    crate::ids::lemma_first_id(digit_width);
}

/// The largest number of so many digits, as far as 32 bits reach.
pub proof fn law_widest_numbers(width: nat)
    requires
        width >= 1,
    ensures
        width < 10 ==> widest_id(width) + 1 == vstd::arithmetic::power::pow(10, width),
        width >= 10 ==> widest_id(width) == u32::MAX - 1,
{
    crate::ids::lemma_power_of_ten(width);
    vstd::arithmetic::power::lemma_pow_positive(10, width);
}

/// A new number is given to an item if and only if its own is in use in its
/// folder, for its prefix; then that one is put to use, and otherwise its own.
/// Nothing else changes.
pub proof fn law_numbers_are_claimed(
    used: UsedMap,
    key: GroupKey,
    width: nat,
    other: (Seq<Seq<char>>, Seq<char>),
)
    ensures
        ({
            let space = (key.dir, key.prefix);
            let taken = if used.contains_key(space) {
                used[space]
            } else {
                Set::<u32>::empty()
            };
            let number = new_number(used, key, width);
            let after = used_after(used, key, number);
            &&& number is Some <==> taken.contains(key.id)
            &&& number matches Some(n) ==> n == free_id(taken, width)
            &&& after[space] == taken.insert(
                match number {
                    Some((id, _)) => id,
                    None => key.id,
                },
            )
            &&& other != space ==> after.contains_key(other) == used.contains_key(other)
                && after[other] == used[other]
        }),
{
}

/// Items are dealt with in the order of their folders, then of their prefixes,
/// then of their numbers.
pub proof fn law_items_are_ordered(a: GroupKey, b: GroupKey)
    ensures
        key_before(a, b) <==> path_before(a.dir, b.dir) || (a.dir == b.dir && (text_before(
            a.prefix,
            b.prefix,
        ) || (a.prefix == b.prefix && a.id < b.id))),
{
}

/// A new number gets as many digits as the widest of the names that it replaces
/// one in.
pub proof fn law_widest_name_decides(group: Seq<int>, files: Seq<PackFile>)
    ensures
        forall|m: int|
            0 <= m < group.len() ==> file_asset(files[#[trigger] group[m]])->0.width()
                <= group_width(group, files),
        group_width(group, files) > 0 ==> exists|m: int|
            0 <= m < group.len() && file_asset(files[#[trigger] group[m]])->0.width()
                == group_width(group, files),
    decreases group.len(),
{
    if group.len() > 0 {
        let front = group.drop_last();
        law_widest_name_decides(front, files);
        assert forall|m: int| 0 <= m < group.len() implies file_asset(
            files[#[trigger] group[m]],
        )->0.width() <= group_width(group, files) by {
            if m < front.len() {
                assert(front[m] == group[m]);
            }
        }
        if group_width(group, files) > 0 {
            let before = group_width(front, files);
            let last = group.len() - 1;
            if before < file_asset(files[group[last]])->0.width() {
                assert(file_asset(files[group[last]])->0.width() == group_width(group, files));
            } else {
                let m = choose|m: int|
                    0 <= m < front.len() && file_asset(files[#[trigger] front[m]])->0.width()
                        == before;
                assert(group[m] == front[m]);
            }
        }
    }
}

/// An item is told by its folder, its prefix and its number; manifests, and
/// files whose names are not text, are in none.
pub proof fn law_items_are_told(file: PackFile)
    ensures
        names_manifest(file.name_text()) <==> file.name is Some && (lower(file.name->0@) == lower(
            "fxmanifest.lua"@,
        ) || lower(file.name->0@) == lower("__resource.lua"@)),
        file_key(file) == if file.name is Some && !names_manifest(file.name_text()) && asset_of(
            file.name->0@,
        ) is Some {
            Some(
                GroupKey {
                    dir: texts(file.dir@),
                    prefix: asset_of(file.name->0@)->0.prefix,
                    id: asset_of(file.name->0@)->0.id,
                },
            )
        } else {
            None
        },
{
}

/// An asset keeps its name unless it gets a new number. One that does gets the
/// name with that number in it, and a line tells the pack, both names, and the
/// number that was in use.
pub proof fn law_assets_are_planned(
    files: Seq<PackFile>,
    pack_num: nat,
    i: int,
    id: u32,
    width: nat,
)
    ensures
        planned_file(files, pack_num, None, i) == (PlannedModel {
            index: i,
            new_name: None,
            log: None,
        }),
        ({
            let file = files[i];
            let asset = file_asset(file)->0;
            let name = renumbered(file.name->0@, asset, id as nat, width);
            planned_file(files, pack_num, Some((id, width)), i) == (PlannedModel {
                index: i,
                new_name: Some(name),
                log: Some(
                    "pack "@ + decimal(pack_num) + ": renumbered "@ + file.shown@ + " -> "@ + (
                    file.folder@ + name) + " ("@ + asset.prefix + " id "@ + decimal(
                        asset.id as nat,
                    ) + " already used)"@,
                ),
            })
        }),
{
}

// ---------------------------------------------------------------------------
// Placing
// ---------------------------------------------------------------------------

/// The name that is asked about: the one that the file is to have, and after a
/// collision that name with the label of the pack, and a number from the second
/// attempt on, in front of its extension.
pub proof fn law_names_are_asked_about(run: RunModel, files: Seq<PackFile>)
    requires
        !run.is_done(),
    ensures
        ({
            let item = run.items[run.at as int];
            let file = files[item.index];
            let candidate = run.candidate(files);
            &&& candidate.index == item.index
            &&& run.attempt is None ==> candidate.name == item.name
            &&& run.attempt matches Some(n) ==> candidate.name == Some(
                collision_name(
                    match item.name {
                        Some(name) => Some(crate::names::name_stem(name)),
                        None => opt_string(file.stem),
                    },
                    match item.name {
                        Some(name) => crate::names::name_extension(name),
                        None => opt_string(file.ext),
                    },
                    "pack"@ + decimal(run.pack_num),
                    n,
                ),
            )
        }),
{
}

/// What follows from what is found. A free name is taken. A file that is there
/// already with the same contents is not written again, and neither is one that
/// could not be compared with what is there. Anything else leads to another name
/// for the same file, and nothing that exists is ever taken.
pub proof fn law_findings_are_followed(run: RunModel, files: Seq<PackFile>, found: Found)
    requires
        !run.is_done(),
    ensures
        ({
            let after = run.answered(files, found);
            let settled = found is Free || (run.attempt is None && !(found is Other));
            &&& after.items == run.items
            &&& after.logs == run.logs
            &&& after.assets == run.assets
            &&& after.pack_num == run.pack_num
            &&& settled ==> after.at == run.at + 1 && after.attempt is None
            &&& !settled ==> after.at == run.at && after.attempt == Some(
                match run.attempt {
                    None => 0nat,
                    Some(n) => n + 1,
                },
            )
            &&& after.queue == if found is Free {
                run.queue.push(run.candidate(files))
            } else {
                run.queue
            }
        }),
{
}

// ---------------------------------------------------------------------------
// Reports
// ---------------------------------------------------------------------------

/// An asset counts once, when its name is first asked about, as renumbered or as
/// copied. Another file counts when it gets a name. There is a warning for each
/// file that gets another name than it was to have, and for each that could not
/// be compared, and for no other.
pub proof fn law_findings_are_reported(
    state: MergerModel,
    run: RunModel,
    files: Seq<PackFile>,
    found: Found,
)
    requires
        !run.is_done(),
    ensures
        ({
            let after = after_found(state, run, files, found);
            let item = run.items[run.at as int];
            let file = files[item.index];
            let is_asset = run.at < run.assets;
            let first = run.attempt is None;
            let about = "pack "@ + decimal(run.pack_num) + " '"@ + file.shown@ + "': "@;
            let note = if is_extension(opt_string(file.ext), "ymt"@) || is_extension(
                opt_string(file.ext),
                "ynd"@,
            ) {
                " - ped component metadata, not auto-mergeable; review both and reconcile by hand"@
            } else {
                ""@
            };
            let kept = "kept both as '"@ + (file.folder@ + run.candidate(files).name->0) + "'"@;
            &&& after.assets_renumbered == state.assets_renumbered + if is_asset && first
                && item.name is Some {
                1int
            } else {
                0
            }
            &&& after.assets_copied == state.assets_copied + if is_asset && first && item.name
                is None {
                1int
            } else {
                0
            }
            &&& after.other_files_copied == state.other_files_copied + if !is_asset && found
                is Free {
                1int
            } else {
                0
            }
            &&& after.warnings == if found is Free && !first {
                state.warnings.push(
                    if is_asset {
                        about + "still collided after renumbering, "@ + kept
                    } else {
                        about + "name collided with an earlier pack, "@ + kept + note
                    },
                )
            } else if first && found is Failed {
                state.warnings.push(about + "collision check failed: "@ + found->error@)
            } else {
                state.warnings
            }
            &&& after.used == state.used
            &&& after.resized == state.resized
            &&& after.textures == state.textures
            &&& after.any_resized == state.any_resized
            &&& after.files_done == state.files_done
            &&& after.total_files == state.total_files
        }),
{
    let item = run.items[run.at as int];
    let file = files[item.index];
    let about = about_file(run.pack_num, file.shown@);
    let shown = file.folder@ + run.candidate(files).name->0;
    reveal_strlit("still collided after renumbering, kept both as '");
    reveal_strlit("name collided with an earlier pack, kept both as '");
    reveal_strlit("still collided after renumbering, ");
    reveal_strlit("name collided with an earlier pack, ");
    reveal_strlit("kept both as '");
    assert(about + "still collided after renumbering, kept both as '"@ + shown + "'"@ =~= about
        + "still collided after renumbering, "@ + ("kept both as '"@ + shown + "'"@));
    let note = crate::merge::metadata_note(opt_string(file.ext));
    assert(about + "name collided with an earlier pack, kept both as '"@ + shown + "'"@ + note
        =~= about + "name collided with an earlier pack, "@ + ("kept both as '"@ + shown + "'"@)
        + note);
}

/// Every file that was dealt with counts as done, whatever became of it. Resized
/// ones add their textures, and there is a warning for each that could not be
/// resized or not be written, and for no other.
pub proof fn law_writes_are_reported(
    state: MergerModel,
    pack_num: nat,
    shown: Seq<char>,
    written: Written,
)
    ensures
        ({
            let after = after_write(state, pack_num, shown, written);
            &&& after.files_done == state.files_done + 1
            &&& after.total_files == state.total_files
            &&& after.used == state.used
            &&& after.assets_copied == state.assets_copied
            &&& after.assets_renumbered == state.assets_renumbered
            &&& after.other_files_copied == state.other_files_copied
            &&& after.any_resized == (state.any_resized || written is Resized)
            &&& written matches Written::Resized { resized, total } ==> {
                &&& after.resized == state.resized + resized
                &&& after.textures == state.textures + total
                &&& after.warnings == state.warnings
            }
            &&& !(written is Resized) ==> after.resized == state.resized && after.textures
                == state.textures
            &&& written is Copied ==> after.warnings == state.warnings
            &&& written matches Written::Unresized { shown: dest, error } ==> after.warnings
                == state.warnings.push(
                "pack "@ + decimal(pack_num) + " '"@ + dest@ + "': "@ + "resize failed ("@ + error@
                    + "), copied unresized instead"@,
            )
            &&& written matches Written::Failed { error } ==> after.warnings
                == state.warnings.push(
                "pack "@ + decimal(pack_num) + " '"@ + shown + "': "@ + error@,
            )
        }),
{
}

/// The number of files of a merge: all but the manifests.
pub proof fn law_files_are_counted(first: Seq<PackFile>, second: Seq<PackFile>, one: PackFile)
    ensures
        file_count(first + second) == file_count(first) + file_count(second),
        file_count(seq![one]) == if names_manifest(one.name_text()) {
            0nat
        } else {
            1nat
        },
    decreases second.len(),
{
    assert(seq![one].drop_last() =~= Seq::<PackFile>::empty());
    assert(file_count(Seq::<PackFile>::empty()) == 0);
    assert(seq![one].last() == one);
    if second.len() == 0 {
        assert(first + second =~= first);
    } else {
        law_files_are_counted(first, second.drop_last(), one);
        assert((first + second).drop_last() =~= first + second.drop_last());
        assert((first + second).last() == second.last());
    }
}

/// The files of a group share a key, the keys of the groups ascend, and so no
/// two groups share one.
pub proof fn law_groups_share_a_key(
    keys: Seq<Option<GroupKey>>,
    n: nat,
    g: int,
    m: int,
    h: int,
    l: int,
)
    requires
        n <= keys.len(),
        0 <= g < groups_upto(keys, n).len(),
        0 <= h < groups_upto(keys, n).len(),
        0 <= m < groups_upto(keys, n)[g].len(),
        0 <= l < groups_upto(keys, n)[h].len(),
    ensures
        ({
            let a = groups_upto(keys, n)[g][m];
            let b = groups_upto(keys, n)[h][l];
            &&& 0 <= a < n
            &&& keys[a] is Some
            &&& g == h ==> keys[a] == keys[b]
            &&& g < h ==> key_before(keys[a]->0, keys[b]->0)
            &&& g == h && m < l ==> a < b
        }),
{
    crate::squisher::law_groups_are_sorted(keys, n);
    let groups = groups_upto(keys, n);
    let a = groups[g][m];
    let b = groups[h][l];
    assert(keys[a] == Some(group_key(groups[g], keys)));
    assert(keys[b] == Some(group_key(groups[h], keys)));
    if g == h && m < l {
        crate::squisher::law_groups_keep_order(keys, n, g, m, l);
    }
}

} // verus!
