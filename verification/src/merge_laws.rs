//! What holds of the names that a pack's files are planned to have.

use crate::assets::{
    asset_of, law_renumbered_is_read_back, lemma_last_position_at, lemma_number_stands_apart,
    lemma_padded_digits, renumbered, spelled_number,
};
use crate::merge::{
    is_possible, law_alike_numbers_keep_names_apart, law_numbers_differ, others_upto, pack_groups,
    pack_items, pack_start, planned_file, planned_group, planned_name, planned_upto, renumber_at,
    PlannedModel,
};
use crate::names::name_stem;
use crate::placing::{Found, PlacedModel};
use crate::placing_laws::{
    ends_with, is_labelled, is_named, is_same_place, label_suffix, law_queued_names_differ,
    lemma_label_parts, lemma_trailing_digits, place_name,
};
use crate::squisher::{
    file_asset, file_key, file_keys, final_number, group_key, law_groups_are_sorted,
    law_groups_keep_order, names_manifest, space_of, PackFile, UsedMap,
};
use crate::text::{all_digits, decimal, is_digit, last_position, lemma_last_position, texts, zero_padded};
use vstd::prelude::*;

verus! {

// ---------------------------------------------------------------------------
// Labels
// ---------------------------------------------------------------------------

/// The number behind an underscore is no part of a label at the end.
proof fn lemma_number_is_no_label(head: Seq<char>, word: Seq<char>, pack_num: nat)
    requires
        head.len() > 0,
        head.last() == '_',
        all_digits(word),
    ensures
        !ends_with(head + word, label_suffix(pack_num)),
{
    let s = head + word;
    let label = label_suffix(pack_num);
    lemma_label_parts(pack_num);
    if ends_with(s, label) {
        let letters = seq!['_', 'p', 'a', 'c', 'k'];
        let digits = decimal(pack_num);
        let before = s.take(s.len() - label.len()) + letters;
        assert(s =~= s.take(s.len() - label.len()) + label);
        assert(s =~= before + digits);
        assert(before.last() == 'k');
        lemma_trailing_digits(head, word, before, digits);
    }
}

/// A text that ends with `t`, and with `u` where that is no longer, has `u` at
/// the end of `t`.
proof fn lemma_shorter_end(s: Seq<char>, t: Seq<char>, u: Seq<char>)
    requires
        ends_with(s, t),
        ends_with(s, u),
        u.len() <= t.len(),
    ensures
        ends_with(t, u),
{
    assert(t.skip(t.len() - u.len()) =~= u) by {
        assert forall|k: int| 0 <= k < u.len() implies t.skip(t.len() - u.len())[k] == u[k] by {
            assert(s.skip(s.len() - t.len())[t.len() - u.len() + k] == t[t.len() - u.len() + k]);
            assert(s.skip(s.len() - u.len())[k] == u[k]);
        }
    }
}

/// What a text ends with, a longer one that ends with it does too.
proof fn lemma_longer_end(s: Seq<char>, t: Seq<char>, u: Seq<char>)
    requires
        ends_with(s, t),
        ends_with(t, u),
    ensures
        ends_with(s, u),
{
    assert(s.skip(s.len() - u.len()) =~= u) by {
        assert forall|k: int| 0 <= k < u.len() implies s.skip(s.len() - u.len())[k] == u[k] by {
            assert(t.skip(t.len() - u.len())[k] == u[k]);
            assert(s.skip(s.len() - t.len())[t.len() - u.len() + k] == t[t.len() - u.len() + k]);
        }
    }
}

/// Replacing a number between underscores by another one makes no label.
proof fn lemma_label_is_kept(
    head: Seq<char>,
    word: Seq<char>,
    other: Seq<char>,
    tail: Seq<char>,
    pack_num: nat,
)
    requires
        head.len() > 0,
        head.last() == '_',
        all_digits(word),
        all_digits(other),
        tail.len() > 0 ==> tail[0] == '_',
        is_labelled(head + word + tail, pack_num),
    ensures
        is_labelled(head + other + tail, pack_num),
{
    let s = head + word + tail;
    let t = head + other + tail;
    let label = label_suffix(pack_num);
    lemma_label_parts(pack_num);
    assert(s.skip(s.len() - tail.len()) =~= tail);
    assert(t.skip(t.len() - tail.len()) =~= tail);
    if ends_with(s, label) {
        if tail.len() >= label.len() {
            lemma_shorter_end(s, tail, label);
            lemma_longer_end(t, tail, label);
        } else if tail.len() == 0 {
            assert(s =~= head + word);
            lemma_number_is_no_label(head, word, pack_num);
        } else {
            lemma_shorter_end(s, label, tail);
            assert(label[label.len() - tail.len()] == tail[0]);
        }
    } else {
        let d = choose|d: Seq<char>| #[trigger]
            all_digits(d) && ends_with(s, label + "_"@ + d);
        let full = label + "_"@ + d;
        let short = "_"@ + d;
        assert(full =~= label + short);
        if tail.len() == 0 {
            assert(s =~= head + word);
            assert(t =~= head + other);
            let before = s.take(s.len() - d.len());
            assert(s =~= before + d) by {
                assert(full.skip(full.len() - d.len()) =~= d);
                lemma_longer_end(s, full, d);
            }
            assert(before.len() > 0 && before.last() == '_') by {
                assert(s.skip(s.len() - full.len())[label.len() as int] == full[label.len() as int]);
            }
            lemma_trailing_digits(head, word, before, d);
            let stem = label + "_"@;
            assert(ends_with(head, stem)) by {
                assert forall|k: int| 0 <= k < stem.len() implies head.skip(
                    head.len() - stem.len(),
                )[k] == stem[k] by {
                    assert(s.skip(s.len() - full.len())[k] == full[k]);
                }
                assert(head.skip(head.len() - stem.len()) =~= stem);
            }
            let new = label + "_"@ + other;
            assert(t.skip(t.len() - new.len()) =~= new) by {
                assert forall|k: int| 0 <= k < new.len() implies t.skip(t.len() - new.len())[k]
                    == new[k] by {
                    if k < stem.len() {
                        assert(head.skip(head.len() - stem.len())[k] == stem[k]);
                    }
                }
            }
            assert(all_digits(other) && ends_with(t, new));
        } else if tail.len() >= full.len() {
            lemma_shorter_end(s, tail, full);
            lemma_longer_end(t, tail, full);
            assert(all_digits(d) && ends_with(t, full));
        } else {
            // The rest starts with an underscore inside the label and its
            // number, which has only one behind its start.
            lemma_shorter_end(s, full, tail);
            let at = full.len() - tail.len();
            assert(full.skip(at)[0] == tail[0]);
            assert(full[at] == '_');
            assert(at == label.len()) by {
                if at < label.len() {
                    assert(full[at] == label[at]);
                } else if at > label.len() {
                    assert(full[at] == d[at - label.len() - 1]);
                    assert(is_digit(d[at - label.len() - 1]));
                }
            }
            let first = head + word;
            assert(ends_with(first, label)) by {
                assert forall|k: int| 0 <= k < label.len() implies first.skip(
                    first.len() - label.len(),
                )[k] == label[k] by {
                    assert(s.skip(s.len() - full.len())[k] == full[k]);
                }
                assert(first.skip(first.len() - label.len()) =~= label);
            }
            lemma_number_is_no_label(head, word, pack_num);
        }
    }
}

/// A name that does not end in a pack's label does not do so with another
/// number either.
proof fn lemma_renumbered_has_no_label(name: Seq<char>, id: u32, width: nat, pack_num: nat)
    requires
        asset_of(name) is Some,
        !is_labelled(name_stem(name), pack_num),
    ensures
        !is_labelled(
            name_stem(renumbered(name, asset_of(name)->0, id as nat, width)),
            pack_num,
        ),
{
    let key = asset_of(name)->0;
    let new = renumbered(name, key, id as nat, width);
    let word = zero_padded(id as nat, width);
    let own = spelled_number(name);
    lemma_padded_digits(id as nat, width);
    lemma_number_stands_apart(name);
    lemma_last_position(name, '.');
    let dot = last_position(name, '.')->0;
    let head = name.take(key.start);
    let tail = name.subrange(key.end, dot);
    let ext = name.skip(dot + 1);
    assert(!ext.contains('.')) by {
        if ext.contains('.') {
            let k = choose|k: int| 0 <= k < ext.len() && ext[k] == '.';
            assert(name[dot + 1 + k] == '.');
        }
    }
    let stem = head + word + tail;
    assert(new =~= stem.push('.') + ext);
    lemma_last_position_at(stem, '.', ext);
    assert(name_stem(new) =~= stem);
    assert(name_stem(name) =~= head + own + tail);
    if is_labelled(stem, pack_num) {
        lemma_label_is_kept(head, word, own, tail, pack_num);
    }
}

// ---------------------------------------------------------------------------
// Planned names
// ---------------------------------------------------------------------------

/// The group of a planned file, and its place there.
spec fn group_of(groups: Seq<Seq<int>>, planned: Seq<PlannedModel>, n: nat, k: int) -> (int, int)
    decreases n,
{
    if n == 0 {
        (0, 0)
    } else {
        let before = planned.len() - groups[n - 1].len();
        if k < before {
            group_of(groups, planned.take(before), (n - 1) as nat, k)
        } else {
            (n - 1, k - before)
        }
    }
}

proof fn lemma_group_of(
    groups: Seq<Seq<int>>,
    files: Seq<PackFile>,
    used: UsedMap,
    pack_num: nat,
    n: nat,
    k: int,
)
    requires
        n <= groups.len(),
        0 <= k < planned_upto(groups, files, used, pack_num, n).len(),
    ensures
        ({
            let planned = planned_upto(groups, files, used, pack_num, n);
            let (g, m) = group_of(groups, planned, n, k);
            &&& 0 <= g < n
            &&& 0 <= m < groups[g].len()
            &&& planned[k] == planned_file(
                files,
                pack_num,
                renumber_at(groups, files, used, g),
                groups[g][m],
            )
            &&& planned[k].index == groups[g][m]
        }),
    decreases n,
{
    if n > 0 {
        let planned = planned_upto(groups, files, used, pack_num, n);
        let before = planned_upto(groups, files, used, pack_num, (n - 1) as nat);
        let last = planned_group(
            files,
            pack_num,
            renumber_at(groups, files, used, n - 1),
            groups[n - 1],
        );
        assert(last.len() == groups[n - 1].len());
        assert(planned.take(before.len() as int) =~= before);
        if k < before.len() {
            lemma_group_of(groups, files, used, pack_num, (n - 1) as nat, k);
        } else {
            assert(planned[k] == last[k - before.len()]);
        }
    }
}

/// Later planned files are in later groups, or later in the same one.
proof fn lemma_group_order(
    groups: Seq<Seq<int>>,
    files: Seq<PackFile>,
    used: UsedMap,
    pack_num: nat,
    n: nat,
    k: int,
    l: int,
)
    requires
        n <= groups.len(),
        0 <= k < l < planned_upto(groups, files, used, pack_num, n).len(),
    ensures
        ({
            let planned = planned_upto(groups, files, used, pack_num, n);
            let (g, m) = group_of(groups, planned, n, k);
            let (h, p) = group_of(groups, planned, n, l);
            g < h || (g == h && m < p)
        }),
    decreases n,
{
    if n > 0 {
        let planned = planned_upto(groups, files, used, pack_num, n);
        let before = planned_upto(groups, files, used, pack_num, (n - 1) as nat);
        assert(planned.len() == before.len() + groups[n - 1].len());
        assert(planned.take(before.len() as int) =~= before);
        if l < before.len() {
            lemma_group_order(groups, files, used, pack_num, (n - 1) as nat, k, l);
        } else if k < before.len() {
            lemma_group_of(groups, files, used, pack_num, (n - 1) as nat, k);
        }
    }
}

/// Whether the files of a pack have names that are text, and no two the same
/// name in the same folder.
pub open spec fn are_distinct_files(files: Seq<PackFile>) -> bool {
    &&& forall|i: int| 0 <= i < files.len() ==> is_named(#[trigger] files[i])
    &&& forall|i: int, j: int|
        0 <= i < j < files.len() ==> !(texts((#[trigger] files[i]).dir@) == texts(
            (#[trigger] files[j]).dir@,
        ) && files[i].name->0@ == files[j].name->0@)
}

/// Whether the files of each item spell their number with the same digits.
pub open spec fn are_spelled_alike(files: Seq<PackFile>) -> bool {
    forall|i: int, j: int|
        0 <= i < files.len() && 0 <= j < files.len() && file_key(#[trigger] files[i]) is Some
            && file_key(files[i]) == file_key(#[trigger] files[j]) ==> spelled_number(
            files[i].name->0@,
        ) == spelled_number(files[j].name->0@)
}

/// What the name that an asset is planned to have says.
proof fn lemma_planned_asset(
    files: Seq<PackFile>,
    pack_num: nat,
    renumber: Option<(u32, nat)>,
    i: int,
)
    requires
        0 <= i < files.len(),
        file_key(files[i]) is Some,
    ensures
        ({
            let key = file_key(files[i])->0;
            let name = planned_name(files[i], planned_file(files, pack_num, renumber, i));
            &&& asset_of(name) is Some
            &&& asset_of(name)->0.prefix == key.prefix
            &&& asset_of(name)->0.id == final_number(key, renumber)
        }),
{
    if let Some((id, width)) = renumber {
        law_renumbered_is_read_back(files[i].name->0@, id, width);
    }
}

proof fn lemma_planned_differ(
    files: Seq<PackFile>,
    used: UsedMap,
    pack_num: nat,
    k: int,
    l: int,
)
    requires
        is_possible(pack_groups(files), files, used, pack_groups(files).len()),
        are_distinct_files(files),
        are_spelled_alike(files),
        0 <= k < l < planned_upto(
            pack_groups(files),
            files,
            used,
            pack_num,
            pack_groups(files).len(),
        ).len(),
    ensures
        ({
            let groups = pack_groups(files);
            let planned = planned_upto(groups, files, used, pack_num, groups.len());
            let (i, j) = (planned[k].index, planned[l].index);
            texts(files[i].dir@) == texts(files[j].dir@) ==> planned_name(files[i], planned[k])
                != planned_name(files[j], planned[l])
        }),
{
    let groups = pack_groups(files);
    let keys = file_keys(files);
    let planned = planned_upto(groups, files, used, pack_num, groups.len());
    law_groups_are_sorted(keys, files.len());
    lemma_group_of(groups, files, used, pack_num, groups.len(), k);
    lemma_group_of(groups, files, used, pack_num, groups.len(), l);
    lemma_group_order(groups, files, used, pack_num, groups.len(), k, l);
    let (g, m) = group_of(groups, planned, groups.len(), k);
    let (h, p) = group_of(groups, planned, groups.len(), l);
    let i = groups[g][m];
    let j = groups[h][p];
    let a = group_key(groups[g], keys);
    let b = group_key(groups[h], keys);
    assert(keys[i] == Some(a) && keys[i] == file_key(files[i]));
    assert(keys[j] == Some(b) && keys[j] == file_key(files[j]));
    if texts(files[i].dir@) == texts(files[j].dir@) {
        if g == h {
            law_groups_keep_order(keys, files.len(), g, m, p);
            assert(files[i].name->0@ != files[j].name->0@);
            law_alike_numbers_keep_names_apart(
                files,
                pack_num,
                renumber_at(groups, files, used, g),
                i,
                j,
            );
        } else {
            lemma_planned_asset(files, pack_num, renumber_at(groups, files, used, g), i);
            lemma_planned_asset(files, pack_num, renumber_at(groups, files, used, h), j);
            if space_of(a) == space_of(b) {
                law_numbers_differ(groups, files, used, g, h);
            }
        }
    }
}

proof fn lemma_others(files: Seq<PackFile>, n: nat, k: int)
    requires
        n <= files.len(),
        0 <= k < others_upto(files, n).len(),
    ensures
        ({
            let others = others_upto(files, n);
            &&& 0 <= others[k] < n
            &&& !names_manifest(files[others[k]].name_text())
            &&& file_asset(files[others[k]]) is None
            &&& forall|l: int| k < l < others.len() ==> others[k] < #[trigger] others[l]
        }),
    decreases n,
{
    if n > 0 {
        let before = others_upto(files, (n - 1) as nat);
        let others = others_upto(files, n);
        if k < before.len() {
            lemma_others(files, (n - 1) as nat, k);
            assert(others[k] == before[k]);
            assert forall|l: int| k < l < others.len() implies others[k] < #[trigger] others[l] by {
                if l < before.len() {
                    assert(others[l] == before[l]);
                }
            }
        }
    }
}

/// The places that the items of a pack are to have.
proof fn lemma_item_place(files: Seq<PackFile>, used: UsedMap, pack_num: nat, k: int)
    requires
        0 <= k < pack_start(files, used, pack_num).items.len(),
        are_distinct_files(files),
    ensures
        ({
            let groups = pack_groups(files);
            let planned = planned_upto(groups, files, used, pack_num, groups.len());
            let others = others_upto(files, files.len());
            let item = pack_start(files, used, pack_num).items[k];
            &&& 0 <= item.index < files.len()
            &&& k < planned.len() ==> item.index == planned[k].index && place_name(files, item)
                == planned_name(files[item.index], planned[k]) && file_key(files[item.index])
                is Some
            &&& k >= planned.len() ==> item.index == others[k - planned.len()] && place_name(
                files,
                item,
            ) == files[item.index].name->0@
        }),
{
    let groups = pack_groups(files);
    let keys = file_keys(files);
    let planned = planned_upto(groups, files, used, pack_num, groups.len());
    let others = others_upto(files, files.len());
    let items = pack_items(planned, others);
    let item = items[k];
    if k < planned.len() {
        law_groups_are_sorted(keys, files.len());
        lemma_group_of(groups, files, used, pack_num, groups.len(), k);
        let (g, m) = group_of(groups, planned, groups.len(), k);
        let i = groups[g][m];
        assert(keys[i] == file_key(files[i]));
        assert(item == (PlacedModel { index: planned[k].index, name: planned[k].new_name }));
    } else {
        lemma_others(files, files.len(), k - planned.len());
        assert(item == (PlacedModel { index: others[k - planned.len()], name: None }));
    }
}

proof fn lemma_items_differ(files: Seq<PackFile>, used: UsedMap, pack_num: nat, k: int, l: int)
    requires
        is_possible(pack_groups(files), files, used, pack_groups(files).len()),
        are_distinct_files(files),
        are_spelled_alike(files),
        0 <= k < l < pack_start(files, used, pack_num).items.len(),
    ensures
        !is_same_place(
            files,
            pack_start(files, used, pack_num).items[k],
            pack_start(files, used, pack_num).items[l],
        ),
{
    let groups = pack_groups(files);
    let planned = planned_upto(groups, files, used, pack_num, groups.len());
    let others = others_upto(files, files.len());
    let items = pack_start(files, used, pack_num).items;
    lemma_item_place(files, used, pack_num, k);
    lemma_item_place(files, used, pack_num, l);
    if l < planned.len() {
        lemma_planned_differ(files, used, pack_num, k, l);
    } else {
        let j = items[l].index;
        lemma_others(files, files.len(), l - planned.len());
        if k < planned.len() {
            // The one name is that of an asset, and the other is not.
            lemma_group_of(groups, files, used, pack_num, groups.len(), k);
            let (g, _) = group_of(groups, planned, groups.len(), k);
            lemma_planned_asset(
                files,
                pack_num,
                renumber_at(groups, files, used, g),
                items[k].index,
            );
            assert(file_asset(files[j]) == asset_of(files[j].name->0@));
        } else {
            lemma_others(files, files.len(), k - planned.len());
            assert(others[k - planned.len()] < others[l - planned.len()]);
        }
    }
}

/// No two files of one pack are written under the same name into the same
/// folder. This takes files whose names are text and do not end in the pack's
/// own label, with a number or without, and items whose files spell their number
/// with the same digits.
pub proof fn law_files_of_a_pack_stay_apart(
    files: Seq<PackFile>,
    used: UsedMap,
    pack_num: nat,
    findings: Seq<Found>,
    a: int,
    b: int,
)
    requires
        is_possible(pack_groups(files), files, used, pack_groups(files).len()),
        are_distinct_files(files),
        are_spelled_alike(files),
        forall|i: int|
            0 <= i < files.len() ==> !is_labelled(
                name_stem((#[trigger] files[i]).name->0@),
                pack_num,
            ),
        0 <= a < b < pack_start(files, used, pack_num).after(files, findings).queue.len(),
    ensures
        !is_same_place(
            files,
            pack_start(files, used, pack_num).after(files, findings).queue[a],
            pack_start(files, used, pack_num).after(files, findings).queue[b],
        ),
{
    let start = pack_start(files, used, pack_num);
    let groups = pack_groups(files);
    let planned = planned_upto(groups, files, used, pack_num, groups.len());
    assert forall|i: int| 0 <= i < start.items.len() implies 0 <= (
    #[trigger] start.items[i]).index < files.len() && is_named(files[start.items[i].index]) by {
        lemma_item_place(files, used, pack_num, i);
    }
    assert forall|i: int, j: int| 0 <= i < j < start.items.len() implies !is_same_place(
        files,
        #[trigger] start.items[i],
        #[trigger] start.items[j],
    ) by {
        lemma_items_differ(files, used, pack_num, i, j);
    }
    assert forall|i: int| 0 <= i < start.items.len() implies !is_labelled(
        name_stem(place_name(files, #[trigger] start.items[i])),
        start.pack_num,
    ) by {
        lemma_item_place(files, used, pack_num, i);
        let f = start.items[i].index;
        assert(!is_labelled(name_stem(files[f].name->0@), pack_num));
        if i < planned.len() {
            lemma_group_of(groups, files, used, pack_num, groups.len(), i);
            let (g, _) = group_of(groups, planned, groups.len(), i);
            if let Some((id, width)) = renumber_at(groups, files, used, g) {
                lemma_renumbered_has_no_label(files[f].name->0@, id, width, pack_num);
            }
        }
    }
    law_queued_names_differ(start, files, findings, a, b);
}

/// What a pack's files are to be named: the assets come first, each item with
/// its own number or all of it with the same new one, and then the other files,
/// in their order and under their own names. There is a line for each file that
/// gets a new number, and for no other.
pub proof fn law_pack_is_planned(
    files: Seq<PackFile>,
    used: UsedMap,
    pack_num: nat,
    k: int,
)
    requires
        are_distinct_files(files),
        0 <= k < pack_start(files, used, pack_num).items.len(),
    ensures
        ({
            let start = pack_start(files, used, pack_num);
            let item = start.items[k];
            let file = files[item.index];
            let groups = pack_groups(files);
            &&& start.pack_num == pack_num
            &&& start.at == 0
            &&& start.attempt is None
            &&& start.queue.len() == 0
            &&& start.logs.len() == start.items.len()
            &&& 0 <= item.index < files.len()
            &&& start.logs[k] is Some <==> item.name is Some
            &&& k < start.assets <==> file_key(file) is Some
            &&& k >= start.assets ==> item.name is None && !names_manifest(file.name_text())
                && forall|l: int| k < l < start.items.len() ==> item.index < (
            #[trigger] start.items[l]).index
            &&& k < start.assets ==> exists|g: int|
                {
                    &&& 0 <= g < groups.len()
                    &&& (#[trigger] groups[g]).contains(item.index)
                    &&& item.name == match renumber_at(groups, files, used, g) {
                        None => None,
                        Some((id, width)) => Some(
                            file.name->0@.take(asset_of(file.name->0@)->0.start) + zero_padded(
                                id as nat,
                                width,
                            ) + file.name->0@.skip(asset_of(file.name->0@)->0.end),
                        ),
                    }
                }
        }),
{
    let start = pack_start(files, used, pack_num);
    let groups = pack_groups(files);
    let planned = planned_upto(groups, files, used, pack_num, groups.len());
    let others = others_upto(files, files.len());
    let item = start.items[k];
    lemma_item_place(files, used, pack_num, k);
    if k < planned.len() {
        lemma_group_of(groups, files, used, pack_num, groups.len(), k);
        let (g, m) = group_of(groups, planned, groups.len(), k);
        assert(groups[g].contains(item.index));
    } else {
        lemma_others(files, files.len(), k - planned.len());
        assert(start.items[k] == (PlacedModel { index: others[k - planned.len()], name: None }));
        assert forall|l: int| k < l < start.items.len() implies item.index < (
        #[trigger] start.items[l]).index by {
            assert(start.items[l].index == others[l - planned.len()]);
        }
    }
}

} // verus!
