//! Merging packs: what is copied where, and what is reported about it.

use crate::assets::{
    law_renumbered_names_differ, rename_with_id, renumbered, spelled_number, AssetKey,
};
use crate::ids::{has_free_id, law_free_id_is_free};
use crate::names::{borrow_text, has_extension, is_extension, opt_string, opt_text};
use crate::placing::{
    copy_text, opt_texts, placed_models, Found, Outcome, PackRun, Placed, PlacedModel, RunModel,
};
use crate::squisher::{
    are_asset_keys, asset_keys, file_asset, file_key, file_keys, final_number, group_assets,
    group_key, groups_upto, is_grouping, is_manifest, key_before, law_assets_are_grouped,
    law_groups_are_sorted, lemma_key_order, members, names_manifest, new_number, number_model,
    space_of, used_after, used_in, Namespaces, PackFile, UsedMap,
};
use crate::text::{decimal, push_decimal, texts, to_chars};
use vstd::prelude::*;

verus! {

// ---------------------------------------------------------------------------
// The plan of a pack
// ---------------------------------------------------------------------------

/// The most digits that a number has in the names of a group.
pub open spec fn group_width(group: Seq<int>, files: Seq<PackFile>) -> nat
    decreases group.len(),
{
    if group.len() == 0 {
        0
    } else {
        let before = group_width(group.drop_last(), files);
        let width = file_asset(files[group.last()])->0.width();
        if before < width {
            width as nat
        } else {
            before
        }
    }
}

/// The numbers in use after the first `n` groups of a pack.
pub open spec fn used_upto(
    groups: Seq<Seq<int>>,
    files: Seq<PackFile>,
    used: UsedMap,
    n: nat,
) -> UsedMap
    decreases n,
{
    if n == 0 {
        used
    } else {
        let before = used_upto(groups, files, used, (n - 1) as nat);
        let key = group_key(groups[n - 1], file_keys(files));
        used_after(before, key, new_number(before, key, group_width(groups[n - 1], files)))
    }
}

/// The new number of the group in place `g`, if it gets one.
pub open spec fn renumber_at(
    groups: Seq<Seq<int>>,
    files: Seq<PackFile>,
    used: UsedMap,
    g: int,
) -> Option<(u32, nat)> {
    new_number(
        used_upto(groups, files, used, g as nat),
        group_key(groups[g], file_keys(files)),
        group_width(groups[g], files),
    )
}

/// Whether there is a new number for each of the first `n` groups that needs
/// one.
pub open spec fn is_possible(
    groups: Seq<Seq<int>>,
    files: Seq<PackFile>,
    used: UsedMap,
    n: nat,
) -> bool {
    forall|g: int|
        0 <= g < n && (#[trigger] renumber_at(groups, files, used, g)) is Some ==> has_free_id(
            used_in(
                used_upto(groups, files, used, g as nat),
                space_of(group_key(groups[g], file_keys(files))),
            ),
        )
}

/// Whether the group in place `g` is the first for which there is no new number.
pub open spec fn fails_at(
    groups: Seq<Seq<int>>,
    files: Seq<PackFile>,
    used: UsedMap,
    g: int,
) -> bool {
    &&& 0 <= g < groups.len()
    &&& is_possible(groups, files, used, g as nat)
    &&& !is_possible(groups, files, used, (g + 1) as nat)
}

/// What is to be done with a file of a pack.
pub struct PlannedModel {
    pub index: int,
    pub new_name: Option<Seq<char>>,
    pub log: Option<Seq<char>>,
}

/// The line that tells of a new number.
pub open spec fn renumber_line(
    pack_num: nat,
    shown: Seq<char>,
    renamed: Seq<char>,
    prefix: Seq<char>,
    id: u32,
) -> Seq<char> {
    "pack "@ + decimal(pack_num) + ": renumbered "@ + shown + " -> "@ + renamed + " ("@ + prefix
        + " id "@ + decimal(id as nat) + " already used)"@
}

/// What is to be done with an asset whose group gets the given number.
pub open spec fn planned_file(
    files: Seq<PackFile>,
    pack_num: nat,
    renumber: Option<(u32, nat)>,
    i: int,
) -> PlannedModel {
    match renumber {
        None => PlannedModel { index: i, new_name: None, log: None },
        Some((id, width)) => {
            let file = files[i];
            let asset = file_asset(file)->0;
            let name = renumbered(file.name->0@, asset, id as nat, width);
            PlannedModel {
                index: i,
                new_name: Some(name),
                log: Some(
                    renumber_line(
                        pack_num,
                        file.shown@,
                        file.folder@ + name,
                        asset.prefix,
                        asset.id,
                    ),
                ),
            }
        },
    }
}

/// What is to be done with the files of a group.
pub open spec fn planned_group(
    files: Seq<PackFile>,
    pack_num: nat,
    renumber: Option<(u32, nat)>,
    group: Seq<int>,
) -> Seq<PlannedModel> {
    group.map_values(|i: int| planned_file(files, pack_num, renumber, i))
}

/// What is to be done with the files of the first `n` groups.
pub open spec fn planned_upto(
    groups: Seq<Seq<int>>,
    files: Seq<PackFile>,
    used: UsedMap,
    pack_num: nat,
    n: nat,
) -> Seq<PlannedModel>
    decreases n,
{
    if n == 0 {
        Seq::empty()
    } else {
        planned_upto(groups, files, used, pack_num, (n - 1) as nat) + planned_group(
            files,
            pack_num,
            renumber_at(groups, files, used, n - 1),
            groups[n - 1],
        )
    }
}

/// The files among the first `n` that are neither assets nor manifests.
pub open spec fn others_upto(files: Seq<PackFile>, n: nat) -> Seq<int>
    decreases n,
{
    if n == 0 {
        Seq::empty()
    } else {
        let before = others_upto(files, (n - 1) as nat);
        if !names_manifest(files[n - 1].name_text()) && file_asset(files[n - 1]) is None {
            before.push(n - 1)
        } else {
            before
        }
    }
}

/// What is to be done with an asset.
pub struct PlannedFile {
    /// Which file of the pack it is.
    pub index: usize,
    /// The name that it gets instead of its own.
    pub new_name: Option<String>,
    /// The line that tells of it.
    pub log: Option<String>,
}

impl View for PlannedFile {
    type V = PlannedModel;

    open spec fn view(&self) -> PlannedModel {
        PlannedModel {
            index: self.index as int,
            new_name: opt_string(self.new_name),
            log: opt_string(self.log),
        }
    }
}

/// What is to be done with the files of a pack: the assets, and the other
/// files under their own names.
pub struct PackPlan {
    pub assets: Vec<PlannedFile>,
    pub others: Vec<usize>,
}

/// The values of a list of planned files.
pub open spec fn planned_models(planned: Seq<PlannedFile>) -> Seq<PlannedModel> {
    planned.map_values(|p: PlannedFile| p@)
}

/// The most digits that a number has in the names of a group.
fn width_of_group(group: &[usize], files: &[PackFile], keys: &[Option<AssetKey>]) -> (res: usize)
    requires
        are_asset_keys(keys@, files@),
        forall|m: int|
            0 <= m < group@.len() ==> #[trigger] group@[m] < files@.len()
                && keys@[group@[m] as int] is Some,
    ensures
        res == group_width(crate::batch::positions(group@), files@),
{
    let ghost list = crate::batch::positions(group@);
    let mut widest: usize = 0;
    let mut i: usize = 0;
    while i < group.len()
        invariant
            are_asset_keys(keys@, files@),
            list == crate::batch::positions(group@),
            forall|m: int|
                0 <= m < group@.len() ==> #[trigger] group@[m] < files@.len()
                    && keys@[group@[m] as int] is Some,
            i <= group@.len(),
            widest == group_width(list.take(i as int), files@),
        decreases group@.len() - i,
    {
        let at: usize = group[i];
        proof {
            assert(list.take(i + 1).drop_last() =~= list.take(i as int));
            assert(list.take(i + 1).last() == at);
            assert(keys@[at as int] is Some);
        }
        if let Some(key) = &keys[at] {
            let width: usize = key.end - key.start;
            if widest < width {
                widest = width;
            }
        }
        i = i + 1;
    }
    proof {
        assert(list.take(i as int) =~= list);
    }
    widest
}

/// What is to be done with one asset.
fn plan_file(
    files: &[PackFile],
    keys: &[Option<AssetKey>],
    pack_num: usize,
    renumber: Option<(u32, usize)>,
    at: usize,
) -> (res: PlannedFile)
    requires
        are_asset_keys(keys@, files@),
        at < files@.len(),
        keys@[at as int] is Some,
    ensures
        res@ == planned_file(files@, pack_num as nat, number_model(renumber), at as int),
{
    if let (Some((id, width)), Some(key), Some(name)) = (renumber, &keys[at], &files[at].name) {
        let chars = to_chars(name.as_str());
        let renamed = rename_with_id(chars.as_slice(), key, id, width);
        let mut log = String::new();
        log.append("pack ");
        push_decimal(&mut log, pack_num as u64);
        log.append(": renumbered ");
        log.append(files[at].shown.as_str());
        log.append(" -> ");
        log.append(files[at].folder.as_str());
        log.append(renamed.as_str());
        log.append(" (");
        log.append(key.prefix.as_str());
        log.append(" id ");
        push_decimal(&mut log, key.id as u64);
        log.append(" already used)");
        proof {
            assert(log@ =~= renumber_line(
                pack_num as nat,
                files@[at as int].shown@,
                files@[at as int].folder@ + renamed@,
                key.prefix@,
                key.id,
            ));
        }
        PlannedFile { index: at, new_name: Some(renamed), log: Some(log) }
    } else {
        PlannedFile { index: at, new_name: None, log: None }
    }
}

/// The files that are neither assets nor manifests.
fn other_files(files: &[PackFile], keys: &[Option<AssetKey>]) -> (res: Vec<usize>)
    requires
        are_asset_keys(keys@, files@),
    ensures
        crate::batch::positions(res@) == others_upto(files@, files@.len()),
{
    let mut out: Vec<usize> = Vec::new();
    let mut i: usize = 0;
    proof {
        assert(crate::batch::positions(out@) =~= others_upto(files@, 0));
    }
    while i < files.len()
        invariant
            are_asset_keys(keys@, files@),
            i <= files@.len(),
            crate::batch::positions(out@) == others_upto(files@, i as nat),
        decreases files@.len() - i,
    {
        proof {
            assert(keys@[i as int] is Some <==> file_asset(files@[i as int]) is Some);
        }
        if keys[i].is_none() && !is_manifest(&files[i]) {
            let ghost before = out@;
            out.push(i);
            proof {
                assert(crate::batch::positions(out@) =~= crate::batch::positions(before).push(
                    i as int,
                ));
            }
        }
        i = i + 1;
    }
    out
}

/// The groups of a pack's assets.
pub open spec fn pack_groups(files: Seq<PackFile>) -> Seq<Seq<int>> {
    groups_upto(file_keys(files), files.len())
}

/// Plans what is done with the files of a pack, and puts the numbers of its
/// assets to use. Fails where a new number is needed and none is left; the
/// numbers of the groups before are in use then.
pub fn plan_pack(spaces: &mut Namespaces, pack_num: usize, files: &[PackFile]) -> (res: Option<
    PackPlan,
>)
    requires
        old(spaces).wf(),
    ensures
        final(spaces).wf(),
        ({
            let groups = pack_groups(files@);
            match res {
                Some(plan) => {
                    &&& is_possible(groups, files@, old(spaces)@, groups.len())
                    &&& planned_models(plan.assets@) == planned_upto(
                        groups,
                        files@,
                        old(spaces)@,
                        pack_num as nat,
                        groups.len(),
                    )
                    &&& crate::batch::positions(plan.others@) == others_upto(
                        files@,
                        files@.len(),
                    )
                    &&& final(spaces)@ == used_upto(
                        groups,
                        files@,
                        old(spaces)@,
                        groups.len(),
                    )
                },
                None => exists|g: int|
                    #![trigger fails_at(groups, files@, old(spaces)@, g)]
                    fails_at(groups, files@, old(spaces)@, g) && final(spaces)@ == used_upto(
                        groups,
                        files@,
                        old(spaces)@,
                        g as nat,
                    ),
            }
        }),
{
    let keys = asset_keys(files);
    let groups = group_assets(files, keys.as_slice());
    let ghost list = members(groups@);
    let ghost all = file_keys(files@);
    let ghost used = spaces@;
    let mut assets: Vec<PlannedFile> = Vec::new();
    let mut g: usize = 0;
    proof {
        law_groups_are_sorted(all, files@.len());
        assert(planned_models(assets@) =~= planned_upto(list, files@, used, pack_num as nat, 0));
    }
    while g < groups.len()
        invariant
            spaces.wf(),
            used == old(spaces)@,
            are_asset_keys(keys@, files@),
            list == members(groups@),
            list == pack_groups(files@),
            all == file_keys(files@),
            is_grouping(list, all, files@.len() as int),
            g <= groups@.len(),
            spaces@ == used_upto(list, files@, used, g as nat),
            is_possible(list, files@, used, g as nat),
            planned_models(assets@) == planned_upto(
                list,
                files@,
                used,
                pack_num as nat,
                g as nat,
            ),
        decreases groups@.len() - g,
    {
        let group = groups[g].as_slice();
        let ghost members_here = list[g as int];
        proof {
            assert(members_here == crate::batch::positions(group@));
            assert(members_here.len() > 0);
            assert forall|m: int| 0 <= m < group@.len() implies #[trigger] group@[m]
                < files@.len() && keys@[group@[m] as int] is Some by {
                assert(list[g as int][m] == group@[m]);
                assert(all[group@[m] as int] == file_key(files@[group@[m] as int]));
            }
            assert(list[g as int][0] == group@[0]);
        }
        let width: usize = width_of_group(group, files, keys.as_slice());
        let first: usize = group[0];
        let ghost key = group_key(members_here, all);
        proof {
            assert(all[first as int] == Some(key));
            assert(all[first as int] == file_key(files@[first as int]));
        }
        let renumber: Option<(u32, usize)> = if let Some(k) = &keys[first] {
            match spaces.claim(files[first].dir.as_slice(), k.prefix.as_str(), k.id, width) {
                Some(renumber) => renumber,
                None => {
                    proof {
                        assert(renumber_at(list, files@, used, g as int) is Some);
                        assert(!is_possible(list, files@, used, (g + 1) as nat));
                        assert(fails_at(list, files@, used, g as int));
                    }
                    return None;
                },
            }
        } else {
            None
        };
        let ghost number = renumber_at(list, files@, used, g as int);
        let ghost done = assets@;
        let mut m: usize = 0;
        proof {
            assert(planned_models(assets@) + planned_group(
                files@,
                pack_num as nat,
                number,
                members_here.take(0),
            ) =~= planned_models(done));
        }
        while m < group.len()
            invariant
                are_asset_keys(keys@, files@),
                forall|k: int|
                    0 <= k < group@.len() ==> #[trigger] group@[k] < files@.len()
                        && keys@[group@[k] as int] is Some,
                members_here == crate::batch::positions(group@),
                number == number_model(renumber),
                m <= group@.len(),
                planned_models(assets@) == planned_models(done) + planned_group(
                    files@,
                    pack_num as nat,
                    number,
                    members_here.take(m as int),
                ),
            decreases group@.len() - m,
        {
            let ghost before = assets@;
            let planned = plan_file(files, keys.as_slice(), pack_num, renumber, group[m]);
            let ghost model = planned@;
            assets.push(planned);
            proof {
                assert(planned_models(assets@) =~= planned_models(before).push(model));
                assert(planned_group(
                    files@,
                    pack_num as nat,
                    number,
                    members_here.take(m + 1),
                ) =~= planned_group(
                    files@,
                    pack_num as nat,
                    number,
                    members_here.take(m as int),
                ).push(model));
                assert(planned_models(assets@) =~= planned_models(done) + planned_group(
                    files@,
                    pack_num as nat,
                    number,
                    members_here.take(m + 1),
                ));
            }
            m = m + 1;
        }
        proof {
            assert(members_here.take(m as int) =~= members_here);
            assert(is_possible(list, files@, used, (g + 1) as nat)) by {
                assert forall|h: int|
                    0 <= h < g + 1 && (#[trigger] renumber_at(list, files@, used, h))
                        is Some implies has_free_id(
                    used_in(
                        used_upto(list, files@, used, h as nat),
                        space_of(group_key(list[h], all)),
                    ),
                ) by {}
            }
        }
        g = g + 1;
    }
    let others = other_files(files, keys.as_slice());
    Some(PackPlan { assets, others })
}

/// The files of a pack with the names that they are to have, the assets first.
pub open spec fn pack_items(planned: Seq<PlannedModel>, others: Seq<int>) -> Seq<PlacedModel> {
    planned.map_values(|p: PlannedModel| PlacedModel { index: p.index, name: p.new_name })
        + others.map_values(|i: int| PlacedModel { index: i, name: None })
}

/// The lines that tell of the files, if there are any.
pub open spec fn pack_logs(planned: Seq<PlannedModel>, others: Seq<int>) -> Seq<
    Option<Seq<char>>,
> {
    planned.map_values(|p: PlannedModel| p.log) + others.map_values(
        |i: int| Option::<Seq<char>>::None,
    )
}

/// The start of naming a pack's files.
pub open spec fn pack_start(files: Seq<PackFile>, used: UsedMap, pack_num: nat) -> RunModel {
    let groups = pack_groups(files);
    let planned = planned_upto(groups, files, used, pack_num, groups.len());
    let others = others_upto(files, files.len());
    RunModel::start(
        pack_num,
        pack_items(planned, others),
        pack_logs(planned, others),
        planned.len(),
    )
}

/// The planned assets are files of the pack.
proof fn lemma_planned_in_range(
    groups: Seq<Seq<int>>,
    files: Seq<PackFile>,
    used: UsedMap,
    pack_num: nat,
    n: nat,
    k: int,
)
    requires
        is_grouping(groups, file_keys(files), files.len() as int),
        n <= groups.len(),
        0 <= k < planned_upto(groups, files, used, pack_num, n).len(),
    ensures
        0 <= planned_upto(groups, files, used, pack_num, n)[k].index < files.len(),
    decreases n,
{
    if n > 0 {
        let before = planned_upto(groups, files, used, pack_num, (n - 1) as nat);
        if k < before.len() {
            lemma_planned_in_range(groups, files, used, pack_num, (n - 1) as nat, k);
        } else {
            let m = k - before.len();
            assert(0 <= groups[n - 1][m] < files.len());
        }
    }
}

/// The other files are files of the pack.
proof fn lemma_others_in_range(files: Seq<PackFile>, n: nat, k: int)
    requires
        0 <= k < others_upto(files, n).len(),
    ensures
        0 <= others_upto(files, n)[k] < n,
    decreases n,
{
    if n > 0 && k < others_upto(files, (n - 1) as nat).len() {
        lemma_others_in_range(files, (n - 1) as nat, k);
    }
}

/// Starts naming the files of a pack by its plan.
fn begin_pack(pack_num: usize, plan: &PackPlan, file_count: usize) -> (res: PackRun)
    requires
        forall|k: int|
            0 <= k < plan.assets@.len() ==> (#[trigger] plan.assets@[k]).index < file_count,
        forall|k: int| 0 <= k < plan.others@.len() ==> #[trigger] plan.others@[k] < file_count,
    ensures
        res.wf(file_count as nat),
        res@ == RunModel::start(
            pack_num as nat,
            pack_items(
                planned_models(plan.assets@),
                crate::batch::positions(plan.others@),
            ),
            pack_logs(planned_models(plan.assets@), crate::batch::positions(plan.others@)),
            plan.assets@.len(),
        ),
{
    let ghost planned = planned_models(plan.assets@);
    let ghost others = crate::batch::positions(plan.others@);
    let mut items: Vec<Placed> = Vec::new();
    let mut logs: Vec<Option<String>> = Vec::new();
    let mut i: usize = 0;
    while i < plan.assets.len()
        invariant
            i <= plan.assets@.len(),
            planned == planned_models(plan.assets@),
            others == crate::batch::positions(plan.others@),
            items@.len() == i,
            logs@.len() == i,
            forall|k: int|
                0 <= k < plan.assets@.len() ==> (#[trigger] plan.assets@[k]).index < file_count,
            forall|k: int| 0 <= k < i ==> (#[trigger] items@[k]).index < file_count,
            forall|k: int|
                0 <= k < i ==> #[trigger] placed_models(items@)[k] == pack_items(planned, others)[k],
            forall|k: int|
                0 <= k < i ==> #[trigger] opt_texts(logs@)[k] == pack_logs(planned, others)[k],
        decreases plan.assets@.len() - i,
    {
        let planned_file = &plan.assets[i];
        let ghost items_before = items@;
        let ghost logs_before = logs@;
        items.push(
            Placed { index: planned_file.index, name: copy_text(&planned_file.new_name) },
        );
        logs.push(copy_text(&planned_file.log));
        proof {
            assert(pack_items(planned, others)[i as int] == (PlacedModel {
                index: planned[i as int].index,
                name: planned[i as int].new_name,
            }));
            assert(pack_logs(planned, others)[i as int] == planned[i as int].log);
            assert forall|k: int| 0 <= k < i + 1 implies #[trigger] placed_models(items@)[k]
                == pack_items(planned, others)[k] by {
                if k < i {
                    assert(placed_models(items@)[k] == placed_models(items_before)[k]);
                }
            }
            assert forall|k: int| 0 <= k < i + 1 implies #[trigger] opt_texts(logs@)[k]
                == pack_logs(planned, others)[k] by {
                if k < i {
                    assert(opt_texts(logs@)[k] == opt_texts(logs_before)[k]);
                }
            }
        }
        i = i + 1;
    }
    let assets: usize = plan.assets.len();
    let mut j: usize = 0;
    while j < plan.others.len()
        invariant
            j <= plan.others@.len(),
            assets == plan.assets@.len(),
            planned == planned_models(plan.assets@),
            others == crate::batch::positions(plan.others@),
            items@.len() == assets + j,
            logs@.len() == assets + j,
            forall|k: int| 0 <= k < plan.others@.len() ==> #[trigger] plan.others@[k] < file_count,
            forall|k: int| 0 <= k < assets + j ==> (#[trigger] items@[k]).index < file_count,
            forall|k: int|
                0 <= k < assets + j ==> #[trigger] placed_models(items@)[k] == pack_items(
                    planned,
                    others,
                )[k],
            forall|k: int|
                0 <= k < assets + j ==> #[trigger] opt_texts(logs@)[k] == pack_logs(
                    planned,
                    others,
                )[k],
        decreases plan.others@.len() - j,
    {
        let ghost items_before = items@;
        let ghost logs_before = logs@;
        items.push(Placed { index: plan.others[j], name: None });
        logs.push(None);
        proof {
            let at = assets + j;
            assert(pack_items(planned, others)[at] == (PlacedModel {
                index: others[j as int],
                name: None,
            }));
            assert(pack_logs(planned, others)[at] == Option::<Seq<char>>::None);
            assert forall|k: int| 0 <= k < at + 1 implies #[trigger] placed_models(items@)[k]
                == pack_items(planned, others)[k] by {
                if k < at {
                    assert(placed_models(items@)[k] == placed_models(items_before)[k]);
                }
            }
            assert forall|k: int| 0 <= k < at + 1 implies #[trigger] opt_texts(logs@)[k]
                == pack_logs(planned, others)[k] by {
                if k < at {
                    assert(opt_texts(logs@)[k] == opt_texts(logs_before)[k]);
                }
            }
        }
        j = j + 1;
    }
    proof {
        assert(placed_models(items@) =~= pack_items(planned, others));
        assert(opt_texts(logs@) =~= pack_logs(planned, others));
    }
    PackRun::new(pack_num, items, logs, assets, file_count)
}

// ---------------------------------------------------------------------------
// What holds of the new numbers
// ---------------------------------------------------------------------------

proof fn lemma_used_grows(
    groups: Seq<Seq<int>>,
    files: Seq<PackFile>,
    used: UsedMap,
    n: nat,
    m: nat,
    space: (Seq<Seq<char>>, Seq<char>),
    id: u32,
)
    requires
        n <= m,
        used_in(used_upto(groups, files, used, n), space).contains(id),
    ensures
        used_in(used_upto(groups, files, used, m), space).contains(id),
    decreases m,
{
    if n < m {
        lemma_used_grows(groups, files, used, n, (m - 1) as nat, space, id);
    }
}

/// An item never gets a number that is in use in its folder for its prefix,
/// be it by an earlier item of the same pack or by an earlier pack; and from
/// then on the number is in use.
pub proof fn law_number_is_free(
    groups: Seq<Seq<int>>,
    files: Seq<PackFile>,
    used: UsedMap,
    g: int,
)
    requires
        0 <= g < groups.len(),
        is_possible(groups, files, used, groups.len()),
    ensures
        ({
            let key = group_key(groups[g], file_keys(files));
            let id = final_number(key, renumber_at(groups, files, used, g));
            &&& !used_in(used_upto(groups, files, used, g as nat), space_of(key)).contains(id)
            &&& !used_in(used, space_of(key)).contains(id)
            &&& used_in(
                used_upto(groups, files, used, groups.len()),
                space_of(key),
            ).contains(id)
        }),
{
    let key = group_key(groups[g], file_keys(files));
    let space = space_of(key);
    let before = used_upto(groups, files, used, g as nat);
    let renumber = renumber_at(groups, files, used, g);
    let id = final_number(key, renumber);
    if renumber is Some {
        law_free_id_is_free(used_in(before, space), group_width(groups[g], files));
    }
    if used_in(used, space).contains(id) {
        lemma_used_grows(groups, files, used, 0, g as nat, space, id);
    }
    assert(used_in(used_upto(groups, files, used, (g + 1) as nat), space).contains(id));
    lemma_used_grows(groups, files, used, (g + 1) as nat, groups.len(), space, id);
}

/// No two items of a pack that share a folder and a prefix end up with the
/// same number.
pub proof fn law_numbers_differ(
    groups: Seq<Seq<int>>,
    files: Seq<PackFile>,
    used: UsedMap,
    g: int,
    h: int,
)
    requires
        0 <= g < h < groups.len(),
        is_possible(groups, files, used, groups.len()),
        space_of(group_key(groups[g], file_keys(files))) == space_of(
            group_key(groups[h], file_keys(files)),
        ),
    ensures
        final_number(
            group_key(groups[g], file_keys(files)),
            renumber_at(groups, files, used, g),
        ) != final_number(
            group_key(groups[h], file_keys(files)),
            renumber_at(groups, files, used, h),
        ),
{
    let key = group_key(groups[g], file_keys(files));
    let id = final_number(key, renumber_at(groups, files, used, g));
    law_number_is_free(groups, files, used, h);
    assert(used_in(used_upto(groups, files, used, (g + 1) as nat), space_of(key)).contains(id));
    lemma_used_grows(groups, files, used, (g + 1) as nat, h as nat, space_of(key), id);
}

/// An item whose number is not in use keeps its number and its names.
pub proof fn law_free_numbers_are_kept(
    groups: Seq<Seq<int>>,
    files: Seq<PackFile>,
    used: UsedMap,
    pack_num: nat,
    g: int,
    m: int,
)
    requires
        0 <= g < groups.len(),
        0 <= m < groups[g].len(),
        !used_in(
            used_upto(groups, files, used, g as nat),
            space_of(group_key(groups[g], file_keys(files))),
        ).contains(group_key(groups[g], file_keys(files)).id),
    ensures
        renumber_at(groups, files, used, g) is None,
        planned_group(files, pack_num, renumber_at(groups, files, used, g), groups[g])[m]
            == (PlannedModel { index: groups[g][m], new_name: None, log: None }),
{
}

/// Starting from nothing, a number is in use after some groups only where one
/// of them has it, as long as none of them got a new one.
proof fn lemma_used_by_group(
    groups: Seq<Seq<int>>,
    files: Seq<PackFile>,
    n: nat,
    space: (Seq<Seq<char>>, Seq<char>),
    id: u32,
)
    requires
        n <= groups.len(),
        forall|h: int|
            0 <= h < n ==> (#[trigger] renumber_at(groups, files, Map::empty(), h)) is None,
        used_in(used_upto(groups, files, Map::empty(), n), space).contains(id),
    ensures
        exists|h: int|
            0 <= h < n && space_of(group_key(#[trigger] groups[h], file_keys(files))) == space
                && group_key(groups[h], file_keys(files)).id == id,
    decreases n,
{
    if n > 0 {
        let e = n - 1;
        let key = group_key(groups[e], file_keys(files));
        let before = used_upto(groups, files, Map::empty(), e as nat);
        assert(renumber_at(groups, files, Map::empty(), e) is None);
        if !(space_of(key) == space && key.id == id) {
            assert(used_in(before, space).contains(id));
            lemma_used_by_group(groups, files, e as nat, space, id);
        }
    }
}

/// The first pack always wins: none of its assets is renumbered.
pub proof fn law_first_pack_is_untouched(files: Seq<PackFile>, g: int)
    requires
        0 <= g < pack_groups(files).len(),
    ensures
        renumber_at(pack_groups(files), files, Map::empty(), g) is None,
    decreases g,
{
    let groups = pack_groups(files);
    let keys = file_keys(files);
    law_groups_are_sorted(keys, files.len());
    assert forall|h: int| 0 <= h < g implies (
    #[trigger] renumber_at(groups, files, Map::empty(), h)) is None by {
        law_first_pack_is_untouched(files, h);
    }
    let key = group_key(groups[g], keys);
    if used_in(used_upto(groups, files, Map::empty(), g as nat), space_of(key)).contains(key.id) {
        lemma_used_by_group(groups, files, g as nat, space_of(key), key.id);
        let h = choose|h: int|
            0 <= h < g && space_of(group_key(#[trigger] groups[h], keys)) == space_of(key)
                && group_key(groups[h], keys).id == key.id;
        assert(key_before(group_key(groups[h], keys), key));
        lemma_key_order(group_key(groups[h], keys), key);
    }
}

proof fn lemma_group_is_planned(
    groups: Seq<Seq<int>>,
    files: Seq<PackFile>,
    used: UsedMap,
    pack_num: nat,
    n: nat,
    g: int,
    m: int,
)
    requires
        0 <= g < n <= groups.len(),
        0 <= m < groups[g].len(),
    ensures
        exists|k: int|
            0 <= k < planned_upto(groups, files, used, pack_num, n).len()
                && #[trigger] planned_upto(groups, files, used, pack_num, n)[k].index
                == groups[g][m],
    decreases n,
{
    let before = planned_upto(groups, files, used, pack_num, (n - 1) as nat);
    let after = planned_upto(groups, files, used, pack_num, n);
    if g < n - 1 {
        lemma_group_is_planned(groups, files, used, pack_num, (n - 1) as nat, g, m);
        let k = choose|k: int|
            0 <= k < before.len() && #[trigger] before[k].index == groups[g][m];
        assert(after[k].index == groups[g][m]);
    } else {
        assert(after[before.len() + m].index == groups[g][m]);
    }
}

proof fn lemma_other_is_planned(files: Seq<PackFile>, n: nat, i: int)
    requires
        0 <= i < n <= files.len(),
        !names_manifest(files[i].name_text()),
        file_asset(files[i]) is None,
    ensures
        others_upto(files, n).contains(i),
    decreases n,
{
    let before = others_upto(files, (n - 1) as nat);
    if i < n - 1 {
        lemma_other_is_planned(files, (n - 1) as nat, i);
        let k = choose|k: int| 0 <= k < before.len() && before[k] == i;
        assert(others_upto(files, n)[k] == i);
    } else {
        assert(others_upto(files, n).last() == i);
    }
}

/// Every file of a pack but its manifests gets a name in the output folder.
pub proof fn law_every_file_is_planned(
    files: Seq<PackFile>,
    used: UsedMap,
    pack_num: nat,
    i: int,
)
    requires
        0 <= i < files.len(),
        !names_manifest(files[i].name_text()),
    ensures
        exists|k: int|
            0 <= k < pack_start(files, used, pack_num).items.len()
                && #[trigger] pack_start(files, used, pack_num).items[k].index == i,
{
    let groups = pack_groups(files);
    let keys = file_keys(files);
    let planned = planned_upto(groups, files, used, pack_num, groups.len());
    let others = others_upto(files, files.len());
    let items = pack_start(files, used, pack_num).items;
    if file_asset(files[i]) is Some {
        assert(keys[i] == file_key(files[i]));
        law_assets_are_grouped(keys, files.len(), i);
        let (g, m) = choose|g: int, m: int|
            0 <= g < groups.len() && 0 <= m < groups[g].len() && #[trigger] groups[g][m] == i;
        lemma_group_is_planned(groups, files, used, pack_num, groups.len(), g, m);
        let k = choose|k: int| 0 <= k < planned.len() && #[trigger] planned[k].index == i;
        assert(items[k].index == i);
    } else {
        lemma_other_is_planned(files, files.len(), i);
        let k = choose|k: int| 0 <= k < others.len() && others[k] == i;
        assert(items[planned.len() + k].index == i);
    }
}

/// The files of one item, which share the folder, the prefix and the number,
/// are in one group, so that they all get the same new number or none.
pub proof fn law_items_stay_together(files: Seq<PackFile>, i: int, j: int)
    requires
        0 <= i < files.len(),
        0 <= j < files.len(),
        file_key(files[i]) is Some,
        file_key(files[i]) == file_key(files[j]),
    ensures
        exists|g: int|
            0 <= g < pack_groups(files).len() && (#[trigger] pack_groups(files)[g]).contains(i)
                && pack_groups(files)[g].contains(j),
{
    let groups = pack_groups(files);
    let keys = file_keys(files);
    law_groups_are_sorted(keys, files.len());
    assert(keys[i] == file_key(files[i]));
    assert(keys[j] == file_key(files[j]));
    law_assets_are_grouped(keys, files.len(), i);
    law_assets_are_grouped(keys, files.len(), j);
    let (g, m) = choose|g: int, m: int|
        0 <= g < groups.len() && 0 <= m < groups[g].len() && #[trigger] groups[g][m] == i;
    let (h, l) = choose|h: int, l: int|
        0 <= h < groups.len() && 0 <= l < groups[h].len() && #[trigger] groups[h][l] == j;
    let key = group_key(groups[g], keys);
    assert(keys[groups[g][m]] == Some(key));
    assert(keys[groups[h][l]] == Some(group_key(groups[h], keys)));
    lemma_key_order(key, key);
    if g < h {
        assert(key_before(group_key(groups[g], keys), group_key(groups[h], keys)));
    } else if h < g {
        assert(key_before(group_key(groups[h], keys), group_key(groups[g], keys)));
    }
    assert(groups[g].contains(i));
    assert(groups[g].contains(j));
}

/// The name of a file, where a plan may give it a new one.
pub open spec fn planned_name(file: PackFile, planned: PlannedModel) -> Seq<char> {
    match planned.new_name {
        Some(name) => name,
        None => file.name->0@,
    }
}

/// Two files of one item whose numbers are spelled alike keep different names,
/// whether the item gets a new number or not.
pub proof fn law_alike_numbers_keep_names_apart(
    files: Seq<PackFile>,
    pack_num: nat,
    renumber: Option<(u32, nat)>,
    i: int,
    j: int,
)
    requires
        file_key(files[i]) is Some,
        file_key(files[i]) == file_key(files[j]),
        files[i].name->0@ != files[j].name->0@,
        spelled_number(files[i].name->0@) == spelled_number(files[j].name->0@),
    ensures
        planned_name(files[i], planned_file(files, pack_num, renumber, i)) != planned_name(
            files[j],
            planned_file(files, pack_num, renumber, j),
        ),
{
    if let Some((id, width)) = renumber {
        law_renumbered_names_differ(files[i].name->0@, files[j].name->0@, id, width);
    }
}

// ---------------------------------------------------------------------------
// The course of a merge
// ---------------------------------------------------------------------------

/// What a merge did.
#[derive(Debug, Clone)]
pub struct MergeReport {
    pub assets_copied: usize,
    pub assets_renumbered: usize,
    pub other_files_copied: usize,
    pub warnings: Vec<String>,
    /// How many textures were resized, of how many.
    pub resize_stats: Option<(usize, usize)>,
}

/// What became of writing a file.
pub enum Written {
    /// Its textures were resized, so many of so many.
    Resized { resized: usize, total: usize },
    /// It could not be resized and was copied as it is; it is shown like this.
    Unresized { shown: String, error: String },
    /// It was copied as it is.
    Copied,
    /// It could not be written.
    Failed { error: String },
}

/// A merge under way.
pub struct Merger {
    spaces: Namespaces,
    report: MergeReport,
    resized: usize,
    textures: usize,
    any_resized: bool,
    files_done: usize,
    total_files: usize,
}

/// A merge under way, as values.
pub struct MergerModel {
    pub used: UsedMap,
    pub assets_copied: nat,
    pub assets_renumbered: nat,
    pub other_files_copied: nat,
    pub warnings: Seq<Seq<char>>,
    pub resized: nat,
    pub textures: nat,
    pub any_resized: bool,
    pub files_done: nat,
    pub total_files: nat,
}

impl View for Merger {
    type V = MergerModel;

    closed spec fn view(&self) -> MergerModel {
        MergerModel {
            used: self.spaces@,
            assets_copied: self.report.assets_copied as nat,
            assets_renumbered: self.report.assets_renumbered as nat,
            other_files_copied: self.report.other_files_copied as nat,
            warnings: texts(self.report.warnings@),
            resized: self.resized as nat,
            textures: self.textures as nat,
            any_resized: self.any_resized,
            files_done: self.files_done as nat,
            total_files: self.total_files as nat,
        }
    }
}

impl MergerModel {
    /// The state at the start.
    pub open spec fn start(total_files: nat) -> MergerModel {
        MergerModel {
            used: Map::empty(),
            assets_copied: 0,
            assets_renumbered: 0,
            other_files_copied: 0,
            warnings: Seq::empty(),
            resized: 0,
            textures: 0,
            any_resized: false,
            files_done: 0,
            total_files,
        }
    }

    /// The state with one more warning.
    pub open spec fn warned(self, warning: Seq<char>) -> MergerModel {
        MergerModel { warnings: self.warnings.push(warning), ..self }
    }

    /// Whether all counts can go up by one.
    pub open spec fn has_room(self) -> bool {
        &&& self.assets_copied < usize::MAX
        &&& self.assets_renumbered < usize::MAX
        &&& self.other_files_copied < usize::MAX
        &&& self.files_done < usize::MAX
    }
}

/// The start of a warning about a file.
pub open spec fn about_file(pack_num: nat, shown: Seq<char>) -> Seq<char> {
    "pack "@ + decimal(pack_num) + " '"@ + shown + "': "@
}

/// The start of a warning about a file.
fn start_warning(pack_num: usize, shown: &str) -> (res: String)
    ensures
        res@ == about_file(pack_num as nat, shown@),
{
    let mut out = String::new();
    out.append("pack ");
    push_decimal(&mut out, pack_num as u64);
    out.append(" '");
    out.append(shown);
    out.append("': ");
    proof {
        assert(out@ =~= about_file(pack_num as nat, shown@));
    }
    out
}

/// What is added to the warning about a colliding file that only its author
/// can reconcile.
pub open spec fn metadata_note(ext: Option<Seq<char>>) -> Seq<char> {
    if is_extension(ext, "ymt"@) || is_extension(ext, "ynd"@) {
        " - ped component metadata, not auto-mergeable; review both and reconcile by hand"@
    } else {
        ""@
    }
}

/// The state after a file was counted: an asset counts when its name is first
/// asked about.
pub open spec fn counted(state: MergerModel, run: RunModel) -> MergerModel {
    if run.attempt is None && run.at < run.assets {
        if run.items[run.at as int].name is Some {
            MergerModel { assets_renumbered: state.assets_renumbered + 1, ..state }
        } else {
            MergerModel { assets_copied: state.assets_copied + 1, ..state }
        }
    } else {
        state
    }
}

/// What is said of a file that is written under another name.
pub open spec fn renamed_line(run: RunModel, file: PackFile, name: Seq<char>) -> Seq<char> {
    if run.at < run.assets {
        about_file(run.pack_num, file.shown@)
            + "still collided after renumbering, kept both as '"@ + (file.folder@ + name) + "'"@
    } else {
        about_file(run.pack_num, file.shown@)
            + "name collided with an earlier pack, kept both as '"@ + (file.folder@ + name) + "'"@
            + metadata_note(opt_string(file.ext))
    }
}

/// The state after what the output folder holds under a file's name is known.
pub open spec fn after_found(
    state: MergerModel,
    run: RunModel,
    files: Seq<PackFile>,
    found: Found,
) -> MergerModel {
    let state = counted(state, run);
    let file = files[run.items[run.at as int].index];
    let copied = if run.at < run.assets {
        state
    } else {
        MergerModel { other_files_copied: state.other_files_copied + 1, ..state }
    };
    match run.outcome(files, found) {
        Outcome::Retry | Outcome::Dropped => state,
        Outcome::Kept => copied,
        Outcome::Renamed { name } => copied.warned(renamed_line(run, file, name)),
        Outcome::Failed { error } => state.warned(
            about_file(run.pack_num, file.shown@) + "collision check failed: "@ + error,
        ),
    }
}

/// The state after a file was written, or could not be.
pub open spec fn after_write(
    state: MergerModel,
    pack_num: nat,
    shown: Seq<char>,
    written: Written,
) -> MergerModel {
    let done = MergerModel { files_done: state.files_done + 1, ..state };
    match written {
        Written::Resized { resized, total } => MergerModel {
            any_resized: true,
            resized: state.resized + resized as nat,
            textures: state.textures + total as nat,
            ..done
        },
        Written::Unresized { shown: dest, error } => done.warned(
            about_file(pack_num, dest@) + "resize failed ("@ + error@
                + "), copied unresized instead"@,
        ),
        Written::Copied => done,
        Written::Failed { error } => done.warned(about_file(pack_num, shown) + error@),
    }
}

/// The number of files of a pack, its manifests aside.
pub open spec fn file_count(files: Seq<PackFile>) -> nat
    decreases files.len(),
{
    if files.len() == 0 {
        0
    } else {
        file_count(files.drop_last()) + if names_manifest(files.last().name_text()) {
            0nat
        } else {
            1nat
        }
    }
}

/// The number of files of a pack, its manifests aside.
pub fn count_files(files: &[PackFile]) -> (res: usize)
    ensures
        res == file_count(files@),
        res <= files@.len(),
{
    let mut count: usize = 0;
    let mut i: usize = 0;
    proof {
        assert(files@.take(0).len() == 0);
    }
    while i < files.len()
        invariant
            i <= files@.len(),
            count <= i,
            count == file_count(files@.take(i as int)),
        decreases files@.len() - i,
    {
        proof {
            assert(files@.take(i + 1).drop_last() =~= files@.take(i as int));
            assert(files@.take(i + 1).last() == files@[i as int]);
        }
        if !is_manifest(&files[i]) {
            count = count + 1;
        }
        i = i + 1;
    }
    proof {
        assert(files@.take(i as int) =~= files@);
    }
    count
}

/// Why packs cannot be merged, where they cannot.
pub fn check_packs(pack_count: usize) -> (res: Option<&'static str>)
    ensures
        res is Some <==> pack_count < 2,
        res matches Some(message) ==> message@ == "need at least two packs to squish"@,
{
    if pack_count < 2 {
        Some("need at least two packs to squish")
    } else {
        None
    }
}

/// Whether the textures of a file are resized on the way.
pub fn is_resized_on_copy(ext: Option<&str>, resize: bool) -> (res: bool)
    ensures
        res == (resize && is_extension(opt_text(ext), "ytd"@)),
{
    resize && has_extension(ext, "ytd")
}

impl Merger {
    /// The numbers in use are kept in order.
    pub closed spec fn wf(&self) -> bool {
        &&& self.spaces.wf()
        &&& self.report.resize_stats is None
    }

    /// Starts a merge of so many files.
    pub fn new(total_files: usize) -> (res: Self)
        ensures
            res.wf(),
            res@ == MergerModel::start(total_files as nat),
    {
        let res = Merger {
            spaces: Namespaces::new(),
            report: MergeReport {
                assets_copied: 0,
                assets_renumbered: 0,
                other_files_copied: 0,
                warnings: Vec::new(),
                resize_stats: None,
            },
            resized: 0,
            textures: 0,
            any_resized: false,
            files_done: 0,
            total_files,
        };
        proof {
            assert(texts(res.report.warnings@) =~= Seq::<Seq<char>>::empty());
        }
        res
    }

    /// Whether all counts can go up by one.
    pub fn room(&self) -> (res: bool)
        ensures
            res == self@.has_room(),
    {
        self.report.assets_copied < usize::MAX && self.report.assets_renumbered < usize::MAX
            && self.report.other_files_copied < usize::MAX && self.files_done < usize::MAX
    }

    /// Whether so many textures can be added to the counts.
    pub fn texture_room(&self, resized: usize, total: usize) -> (res: bool)
        ensures
            res == (self@.resized + resized <= usize::MAX && self@.textures + total <= usize::MAX),
    {
        resized <= usize::MAX - self.resized && total <= usize::MAX - self.textures
    }

    fn warn(&mut self, warning: String)
        requires
            old(self).wf(),
        ensures
            final(self).wf(),
            final(self)@ == old(self)@.warned(warning@),
    {
        let ghost before = self.report.warnings@;
        let ghost text = warning@;
        self.report.warnings.push(warning);
        proof {
            assert(texts(self.report.warnings@) =~= texts(before).push(text));
        }
    }

    /// Plans what is done with the files of a pack, and starts naming them.
    /// Fails where a new number is needed and none is left.
    pub fn plan(&mut self, pack_num: usize, files: &[PackFile]) -> (res: Option<PackRun>)
        requires
            old(self).wf(),
        ensures
            final(self).wf(),
            ({
                let groups = pack_groups(files@);
                match res {
                    Some(run) => {
                        &&& is_possible(groups, files@, old(self)@.used, groups.len())
                        &&& run.wf(files@.len())
                        &&& run@ == pack_start(files@, old(self)@.used, pack_num as nat)
                        &&& final(self)@ == (MergerModel {
                            used: used_upto(groups, files@, old(self)@.used, groups.len()),
                            ..old(self)@
                        })
                    },
                    None => exists|g: int|
                        #![trigger fails_at(groups, files@, old(self)@.used, g)]
                        fails_at(groups, files@, old(self)@.used, g) && final(self)@ == (
                        MergerModel {
                            used: used_upto(groups, files@, old(self)@.used, g as nat),
                            ..old(self)@
                        }),
                }
            }),
    {
        let mut spaces = Namespaces::new();
        std::mem::swap(&mut spaces, &mut self.spaces);
        let ghost used = spaces@;
        let plan = plan_pack(&mut spaces, pack_num, files);
        self.spaces = spaces;
        match plan {
            Some(plan) => {
                proof {
                    let groups = pack_groups(files@);
                    law_groups_are_sorted(file_keys(files@), files@.len());
                    assert forall|k: int| 0 <= k < plan.assets@.len() implies (
                    #[trigger] plan.assets@[k]).index < files@.len() by {
                        lemma_planned_in_range(
                            groups,
                            files@,
                            used,
                            pack_num as nat,
                            groups.len(),
                            k,
                        );
                        assert(planned_models(plan.assets@)[k] == plan.assets@[k]@);
                    }
                    assert forall|k: int| 0 <= k < plan.others@.len() implies
                    #[trigger] plan.others@[k] < files@.len() by {
                        lemma_others_in_range(files@, files@.len(), k);
                        assert(crate::batch::positions(plan.others@)[k] == plan.others@[k]);
                    }
                }
                Some(begin_pack(pack_num, &plan, files.len()))
            },
            None => None,
        }
    }

    /// Takes in what the output folder holds under the name that was asked
    /// about.
    pub fn answer(&mut self, run: &mut PackRun, files: &[PackFile], found: &Found)
        requires
            old(self).wf(),
            old(self)@.has_room(),
            old(run).wf(files@.len()),
            !old(run)@.is_done(),
            old(run)@.attempt != Some(u32::MAX as nat),
        ensures
            final(self).wf(),
            final(self)@ == after_found(old(self)@, old(run)@, files@, *found),
            final(run).wf(files@.len()),
            final(run)@ == old(run)@.answered(files@, *found),
    {
        match run.new_asset() {
            Some(true) => {
                self.report.assets_renumbered = self.report.assets_renumbered + 1;
            },
            Some(false) => {
                self.report.assets_copied = self.report.assets_copied + 1;
            },
            None => {},
        }
        let pack_num: usize = run.pack_num();
        let is_asset = run.is_asset();
        let file = run.next_file(files);
        let renamed = run.new_name(files, found);
        let is_kept = match found {
            Found::Free => true,
            _ => false,
        };
        if is_kept && !is_asset {
            self.report.other_files_copied = self.report.other_files_copied + 1;
        }
        if let Some(name) = renamed {
            let mut warning = start_warning(pack_num, file.shown.as_str());
            if is_asset {
                warning.append("still collided after renumbering, kept both as '");
            } else {
                warning.append("name collided with an earlier pack, kept both as '");
            }
            warning.append(file.folder.as_str());
            warning.append(name.as_str());
            warning.append("'");
            let ext = borrow_text(&file.ext);
            if !is_asset && (has_extension(ext, "ymt") || has_extension(ext, "ynd")) {
                warning.append(
                    " - ped component metadata, not auto-mergeable; review both and reconcile by hand",
                );
            }
            proof {
                reveal_strlit("");
                assert(warning@ =~= renamed_line(run@, *file, name@));
            }
            self.warn(warning);
        } else if run.is_first() {
            if let Found::Failed { error } = found {
                let mut warning = start_warning(pack_num, file.shown.as_str());
                warning.append("collision check failed: ");
                warning.append(error.as_str());
                self.warn(warning);
            }
        }
        run.answer(files, found);
    }

    /// Takes note of a file that was written, or could not be, and tells how
    /// many of how many files are done.
    pub fn record_write(&mut self, pack_num: usize, shown: &str, written: &Written) -> (res: (
        usize,
        usize,
    ))
        requires
            old(self).wf(),
            old(self)@.has_room(),
            *written matches Written::Resized { resized, total } ==> old(self)@.resized + resized
                <= usize::MAX && old(self)@.textures + total <= usize::MAX,
        ensures
            final(self).wf(),
            final(self)@ == after_write(old(self)@, pack_num as nat, shown@, *written),
            res.0 == final(self)@.files_done,
            res.1 == final(self)@.total_files,
    {
        self.files_done = self.files_done + 1;
        match written {
            Written::Resized { resized, total } => {
                self.any_resized = true;
                self.resized = self.resized + *resized;
                self.textures = self.textures + *total;
            },
            Written::Unresized { shown: dest, error } => {
                let mut warning = start_warning(pack_num, dest.as_str());
                warning.append("resize failed (");
                warning.append(error.as_str());
                warning.append("), copied unresized instead");
                self.warn(warning);
            },
            Written::Copied => {},
            Written::Failed { error } => {
                let mut warning = start_warning(pack_num, shown);
                warning.append(error.as_str());
                self.warn(warning);
            },
        }
        (self.files_done, self.total_files)
    }

    /// Ends the merge. The warning about the manifests, if there is one, comes
    /// last.
    pub fn finish(self, manifest_warning: Option<String>) -> (res: MergeReport)
        requires
            self.wf(),
        ensures
            res.assets_copied == self@.assets_copied,
            res.assets_renumbered == self@.assets_renumbered,
            res.other_files_copied == self@.other_files_copied,
            texts(res.warnings@) == match manifest_warning {
                Some(w) => self@.warnings.push(w@),
                None => self@.warnings,
            },
            match res.resize_stats {
                Some((resized, total)) => self@.any_resized && resized == self@.resized && total
                    == self@.textures,
                None => !self@.any_resized,
            },
    {
        let mut report = self.report;
        let ghost before = report.warnings@;
        if let Some(w) = manifest_warning {
            let ghost text = w@;
            report.warnings.push(w);
            proof {
                assert(texts(report.warnings@) =~= texts(before).push(text));
            }
        }
        if self.any_resized {
            report.resize_stats = Some((self.resized, self.textures));
        }
        report
    }
}

} // verus!
