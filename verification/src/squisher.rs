//! Merging packs: grouping their assets and giving colliding ones new numbers.

use crate::assets::{asset_of, parse_asset, AssetKey, AssetModel};
use crate::ids::{free_id, has_free_id, UsedIds};
use crate::names::{lemma_path_order, lemma_path_transitive, path_before, rank_path};
use crate::text::{
    lemma_text_order, lemma_text_transitive, lower, rank_text, same_ignoring_case, text_before,
    texts, to_chars, Rank,
};
use vstd::prelude::*;

verus! {

/// A file of a pack: the names of its folder, its own name where that is text,
/// and how folder and file are shown.
pub struct PackFile {
    pub dir: Vec<String>,
    pub name: Option<String>,
    /// The name without its extension, where that is text.
    pub stem: Option<String>,
    /// The extension, where there is one that is text.
    pub ext: Option<String>,
    /// The folder as it is shown in front of a name.
    pub folder: String,
    /// The whole path as it is shown.
    pub shown: String,
}

impl PackFile {
    /// The name, where it is text.
    pub open spec fn name_text(self) -> Option<Seq<char>> {
        match self.name {
            Some(n) => Some(n@),
            None => None,
        }
    }
}

/// Whether a file is a pack's manifest.
pub open spec fn names_manifest(name: Option<Seq<char>>) -> bool {
    name matches Some(n) && (lower(n) == lower("fxmanifest.lua"@) || lower(n) == lower(
        "__resource.lua"@,
    ))
}

/// Whether a file is a pack's manifest.
pub fn is_manifest(file: &PackFile) -> (res: bool)
    ensures
        res == names_manifest(file.name_text()),
{
    match &file.name {
        Some(n) => same_ignoring_case(n.as_str(), "fxmanifest.lua") || same_ignoring_case(
            n.as_str(),
            "__resource.lua",
        ),
        None => false,
    }
}

/// What a file's name says about the asset in it, if it holds one.
pub open spec fn file_asset(file: PackFile) -> Option<AssetModel> {
    if names_manifest(file.name_text()) {
        None
    } else {
        match file.name_text() {
            Some(n) => asset_of(n),
            None => None,
        }
    }
}

/// Assets with the same key make up one item: they share the folder, the
/// prefix and the number.
pub struct GroupKey {
    pub dir: Seq<Seq<char>>,
    pub prefix: Seq<char>,
    pub id: u32,
}

/// The key of an asset.
pub open spec fn file_key(file: PackFile) -> Option<GroupKey> {
    match file_asset(file) {
        Some(a) => Some(GroupKey { dir: texts(file.dir@), prefix: a.prefix, id: a.id }),
        None => None,
    }
}

/// Whether key `a` comes before key `b`: the folders decide, then the
/// prefixes, then the numbers.
pub open spec fn key_before(a: GroupKey, b: GroupKey) -> bool {
    ||| path_before(a.dir, b.dir)
    ||| a.dir == b.dir && text_before(a.prefix, b.prefix)
    ||| a.dir == b.dir && a.prefix == b.prefix && a.id < b.id
}

/// `key_before` orders any two different keys, one way only.
pub proof fn lemma_key_order(a: GroupKey, b: GroupKey)
    ensures
        key_before(a, b) ==> !key_before(b, a) && a != b,
        a != b ==> key_before(a, b) || key_before(b, a),
{
    lemma_path_order(a.dir, b.dir);
    lemma_path_order(b.dir, a.dir);
    lemma_text_order(a.prefix, b.prefix);
    lemma_text_order(b.prefix, a.prefix);
}

/// `key_before` is transitive.
pub proof fn lemma_key_transitive(a: GroupKey, b: GroupKey, c: GroupKey)
    requires
        key_before(a, b),
        key_before(b, c),
    ensures
        key_before(a, c),
{
    if path_before(a.dir, b.dir) && path_before(b.dir, c.dir) {
        lemma_path_transitive(a.dir, b.dir, c.dir);
    }
    if text_before(a.prefix, b.prefix) && text_before(b.prefix, c.prefix) {
        lemma_text_transitive(a.prefix, b.prefix, c.prefix);
    }
}

// ---------------------------------------------------------------------------
// Groups
// ---------------------------------------------------------------------------

/// The keys of all files.
pub open spec fn file_keys(files: Seq<PackFile>) -> Seq<Option<GroupKey>> {
    files.map_values(|f: PackFile| file_key(f))
}

/// The key that the files of a group share.
pub open spec fn group_key(group: Seq<int>, keys: Seq<Option<GroupKey>>) -> GroupKey {
    keys[group[0]]->0
}

/// How many groups come before the key.
pub open spec fn group_place(
    groups: Seq<Seq<int>>,
    keys: Seq<Option<GroupKey>>,
    key: GroupKey,
) -> int
    decreases groups.len(),
{
    if groups.len() == 0 {
        0
    } else if key_before(group_key(groups.last(), keys), key) {
        groups.len() as int
    } else {
        group_place(groups.drop_last(), keys, key)
    }
}

/// The assets among the first `n` files, grouped by their keys, the groups in
/// the order of the keys and the files of a group in their own order.
pub open spec fn groups_upto(keys: Seq<Option<GroupKey>>, n: nat) -> Seq<Seq<int>>
    decreases n,
{
    if n == 0 {
        Seq::empty()
    } else {
        let before = groups_upto(keys, (n - 1) as nat);
        match keys[n - 1] {
            None => before,
            Some(key) => {
                let place = group_place(before, keys, key);
                if place < before.len() && group_key(before[place], keys) == key {
                    before.update(place, before[place].push(n - 1))
                } else {
                    before.insert(place, seq![n - 1])
                }
            },
        }
    }
}

/// Whether the groups are what they are meant to be: none is empty, the files
/// of each are assets with one and the same key, and the keys ascend.
pub open spec fn is_grouping(groups: Seq<Seq<int>>, keys: Seq<Option<GroupKey>>, n: int) -> bool {
    &&& forall|g: int| 0 <= g < groups.len() ==> (#[trigger] groups[g]).len() > 0
    &&& forall|g: int, m: int|
        0 <= g < groups.len() && 0 <= m < groups[g].len() ==> {
            &&& 0 <= #[trigger] groups[g][m] < n
            &&& keys[groups[g][m]] == Some(group_key(groups[g], keys))
        }
    &&& forall|g: int, h: int|
        0 <= g < h < groups.len() ==> key_before(
            group_key(#[trigger] groups[g], keys),
            group_key(#[trigger] groups[h], keys),
        )
}

proof fn lemma_group_place_bounds(
    groups: Seq<Seq<int>>,
    keys: Seq<Option<GroupKey>>,
    key: GroupKey,
)
    ensures
        0 <= group_place(groups, keys, key) <= groups.len(),
    decreases groups.len(),
{
    if groups.len() > 0 {
        lemma_group_place_bounds(groups.drop_last(), keys, key);
    }
}

/// Among sorted groups, those in front of the place come before the key, and
/// the others do not.
proof fn lemma_group_place_splits(
    groups: Seq<Seq<int>>,
    keys: Seq<Option<GroupKey>>,
    key: GroupKey,
    n: int,
)
    requires
        is_grouping(groups, keys, n),
    ensures
        forall|g: int|
            0 <= g < group_place(groups, keys, key) ==> key_before(
                group_key(#[trigger] groups[g], keys),
                key,
            ),
        forall|g: int|
            group_place(groups, keys, key) <= g < groups.len() ==> !key_before(
                group_key(#[trigger] groups[g], keys),
                key,
            ),
    decreases groups.len(),
{
    lemma_group_place_bounds(groups, keys, key);
    if groups.len() > 0 {
        let front = groups.drop_last();
        assert forall|g: int| 0 <= g < front.len() implies front[g] == groups[g] by {}
        assert(is_grouping(front, keys, n)) by {
            assert forall|g: int| 0 <= g < front.len() implies (#[trigger] front[g]).len() > 0 by {
                assert(front[g] == groups[g]);
            }
            assert forall|g: int, m: int|
                0 <= g < front.len() && 0 <= m < front[g].len() implies ({
                &&& 0 <= #[trigger] front[g][m] < n
                &&& keys[front[g][m]] == Some(group_key(front[g], keys))
            }) by {
                assert(front[g] == groups[g]);
                assert(groups[g][m] == front[g][m]);
            }
            assert forall|g: int, h: int| 0 <= g < h < front.len() implies key_before(
                group_key(#[trigger] front[g], keys),
                group_key(#[trigger] front[h], keys),
            ) by {
                assert(front[g] == groups[g] && front[h] == groups[h]);
            }
        }
        lemma_group_place_splits(front, keys, key, n);
        let last = groups.len() - 1;
        if key_before(group_key(groups[last], keys), key) {
            assert forall|g: int| 0 <= g < groups.len() implies key_before(
                group_key(#[trigger] groups[g], keys),
                key,
            ) by {
                if g < last {
                    lemma_key_transitive(
                        group_key(groups[g], keys),
                        group_key(groups[last], keys),
                        key,
                    );
                }
            }
        } else {
            assert forall|g: int| 0 <= g < group_place(groups, keys, key) implies key_before(
                group_key(#[trigger] groups[g], keys),
                key,
            ) by {
                assert(front[g] == groups[g]);
            }
            assert forall|g: int|
                group_place(groups, keys, key) <= g < groups.len() implies !key_before(
                group_key(#[trigger] groups[g], keys),
                key,
            ) by {
                if g < last {
                    assert(front[g] == groups[g]);
                }
            }
        }
    }
}

proof fn lemma_group_place_found(
    groups: Seq<Seq<int>>,
    keys: Seq<Option<GroupKey>>,
    key: GroupKey,
    p: int,
)
    requires
        0 <= p <= groups.len(),
        p > 0 ==> key_before(group_key(groups[p - 1], keys), key),
        forall|g: int|
            p <= g < groups.len() ==> !key_before(group_key(#[trigger] groups[g], keys), key),
    ensures
        group_place(groups, keys, key) == p,
    decreases groups.len(),
{
    if groups.len() > p {
        let front = groups.drop_last();
        assert(groups[groups.len() - 1] == groups.last());
        assert forall|g: int| p <= g < front.len() implies !key_before(
            group_key(#[trigger] front[g], keys),
            key,
        ) by {
            assert(front[g] == groups[g]);
        }
        if p > 0 {
            assert(front[p - 1] == groups[p - 1]);
        }
        lemma_group_place_found(front, keys, key, p);
    }
}

/// Assets are grouped by their keys, and the groups stand in the order of the
/// keys, so no two groups share a key.
pub proof fn law_groups_are_sorted(keys: Seq<Option<GroupKey>>, n: nat)
    requires
        n <= keys.len(),
    ensures
        is_grouping(groups_upto(keys, n), keys, n as int),
    decreases n,
{
    if n > 0 {
        let e = n - 1;
        law_groups_are_sorted(keys, e as nat);
        let before = groups_upto(keys, e as nat);
        if let Some(key) = keys[e] {
            lemma_group_place_bounds(before, keys, key);
            lemma_group_place_splits(before, keys, key, e);
            let p = group_place(before, keys, key);
            let after = groups_upto(keys, n);
            if p < before.len() && group_key(before[p], keys) == key {
                assert(before[p].len() > 0);
                assert forall|g: int| 0 <= g < after.len() implies group_key(
                    #[trigger] after[g],
                    keys,
                ) == group_key(before[g], keys) by {
                    assert(before[g].len() > 0);
                }
                assert forall|g: int, m: int|
                    0 <= g < after.len() && 0 <= m < after[g].len() implies ({
                    &&& 0 <= #[trigger] after[g][m] < n
                    &&& keys[after[g][m]] == Some(group_key(after[g], keys))
                }) by {
                    assert(group_key(after[g], keys) == group_key(before[g], keys));
                    if m < before[g].len() {
                        assert(after[g][m] == before[g][m]);
                    }
                }
                assert forall|g: int, h: int| 0 <= g < h < after.len() implies key_before(
                    group_key(#[trigger] after[g], keys),
                    group_key(#[trigger] after[h], keys),
                ) by {
                    assert(key_before(group_key(before[g], keys), group_key(before[h], keys)));
                }
            } else {
                let fresh = seq![e];
                assert(group_key(fresh, keys) == key);
                assert forall|g: int| 0 <= g < after.len() implies #[trigger] after[g] == if g < p {
                    before[g]
                } else if g == p {
                    fresh
                } else {
                    before[g - 1]
                } by {}
                assert forall|g: int| 0 <= g < after.len() implies (
                #[trigger] after[g]).len() > 0 by {}
                assert forall|g: int, m: int|
                    0 <= g < after.len() && 0 <= m < after[g].len() implies ({
                    &&& 0 <= #[trigger] after[g][m] < n
                    &&& keys[after[g][m]] == Some(group_key(after[g], keys))
                }) by {
                    if g < p {
                        assert(after[g][m] == before[g][m]);
                    } else if g > p {
                        assert(after[g][m] == before[g - 1][m]);
                    }
                }
                assert forall|g: int, h: int| 0 <= g < h < after.len() implies key_before(
                    group_key(#[trigger] after[g], keys),
                    group_key(#[trigger] after[h], keys),
                ) by {
                    if h < p {
                        assert(key_before(group_key(before[g], keys), group_key(before[h], keys)));
                    } else if h == p {
                        assert(after[g] == before[g]);
                    } else if g == p {
                        let k = group_key(before[h - 1], keys);
                        lemma_key_order(k, key);
                        if k == key {
                            // The group in the place itself has another key, so
                            // this one lies behind it and cannot have this one.
                            assert(h - 1 > p);
                            assert(key_before(group_key(before[p], keys), k));
                            lemma_key_order(group_key(before[p], keys), key);
                        }
                    } else if g < p {
                        assert(key_before(
                            group_key(before[g], keys),
                            group_key(before[h - 1], keys),
                        ));
                    } else {
                        assert(key_before(
                            group_key(before[g - 1], keys),
                            group_key(before[h - 1], keys),
                        ));
                    }
                }
            }
        }
    }
}

/// The files of a group stand in their own order, so none occurs twice.
pub proof fn law_groups_keep_order(
    keys: Seq<Option<GroupKey>>,
    n: nat,
    g: int,
    m: int,
    l: int,
)
    requires
        n <= keys.len(),
        0 <= g < groups_upto(keys, n).len(),
        0 <= m < l < groups_upto(keys, n)[g].len(),
    ensures
        groups_upto(keys, n)[g][m] < groups_upto(keys, n)[g][l],
    decreases n,
{
    if n > 0 {
        let e = n - 1;
        let before = groups_upto(keys, e as nat);
        law_groups_are_sorted(keys, e as nat);
        if let Some(key) = keys[e] {
            lemma_group_place_bounds(before, keys, key);
            let p = group_place(before, keys, key);
            if p < before.len() && group_key(before[p], keys) == key {
                if g == p && l == before[p].len() {
                    assert(before[g][m] < e);
                } else {
                    law_groups_keep_order(keys, e as nat, g, m, l);
                }
            } else if g < p {
                law_groups_keep_order(keys, e as nat, g, m, l);
            } else if g > p {
                assert(groups_upto(keys, n)[g] == before[g - 1]);
                law_groups_keep_order(keys, e as nat, g - 1, m, l);
            }
        } else {
            law_groups_keep_order(keys, e as nat, g, m, l);
        }
    }
}

/// Whether a file is in one of the groups.
pub open spec fn is_grouped(groups: Seq<Seq<int>>, i: int) -> bool {
    exists|g: int, m: int|
        0 <= g < groups.len() && 0 <= m < groups[g].len() && #[trigger] groups[g][m] == i
}

/// Every asset is in a group.
pub proof fn law_assets_are_grouped(keys: Seq<Option<GroupKey>>, n: nat, i: int)
    requires
        n <= keys.len(),
        0 <= i < n,
        keys[i] is Some,
    ensures
        is_grouped(groups_upto(keys, n), i),
    decreases n,
{
    let e = n - 1;
    let before = groups_upto(keys, e as nat);
    let after = groups_upto(keys, n);
    if let Some(key) = keys[e] {
        lemma_group_place_bounds(before, keys, key);
        let p = group_place(before, keys, key);
        let joins = p < before.len() && group_key(before[p], keys) == key;
        if i == e {
            if joins {
                assert(after[p][before[p].len() as int] == e);
            } else {
                assert(after[p][0] == e);
            }
        } else {
            law_assets_are_grouped(keys, e as nat, i);
            let (g, m) = choose|g: int, m: int|
                0 <= g < before.len() && 0 <= m < before[g].len() && #[trigger] before[g][m] == i;
            if joins || g < p {
                assert(after[g][m] == before[g][m]);
            } else {
                assert(after[g + 1] == before[g]);
                assert(after[g + 1][m] == i);
            }
        }
    } else {
        law_assets_are_grouped(keys, e as nat, i);
    }
}

/// Whether `keys` are what the names of the files say.
pub open spec fn are_asset_keys(keys: Seq<Option<AssetKey>>, files: Seq<PackFile>) -> bool {
    &&& keys.len() == files.len()
    &&& forall|i: int|
        0 <= i < files.len() ==> match #[trigger] keys[i] {
            Some(key) => {
                &&& file_asset(files[i]) == Some(key@)
                &&& files[i].name is Some
                &&& key.start <= key.end <= files[i].name->0@.len()
            },
            None => file_asset(files[i]) is None,
        }
}

/// What the names of the files say.
pub(crate) fn asset_keys(files: &[PackFile]) -> (res: Vec<Option<AssetKey>>)
    ensures
        are_asset_keys(res@, files@),
{
    let mut out: Vec<Option<AssetKey>> = Vec::new();
    let mut i: usize = 0;
    while i < files.len()
        invariant
            i <= files@.len(),
            out@.len() == i,
            forall|k: int|
                0 <= k < i ==> match #[trigger] out@[k] {
                    Some(key) => {
                        &&& file_asset(files@[k]) == Some(key@)
                        &&& files@[k].name is Some
                        &&& key.start <= key.end <= files@[k].name->0@.len()
                    },
                    None => file_asset(files@[k]) is None,
                },
        decreases files@.len() - i,
    {
        let key = if is_manifest(&files[i]) {
            None
        } else {
            match &files[i].name {
                Some(n) => {
                    let chars = to_chars(n.as_str());
                    parse_asset(chars.as_slice())
                },
                None => None,
            }
        };
        out.push(key);
        i = i + 1;
    }
    out
}

/// Compares the keys of two assets.
fn rank_assets(files: &[PackFile], keys: &[Option<AssetKey>], i: usize, j: usize) -> (res: Rank)
    requires
        are_asset_keys(keys@, files@),
        i < files@.len(),
        j < files@.len(),
        keys@[i as int] is Some,
        keys@[j as int] is Some,
    ensures
        res is Same <==> file_key(files@[i as int]) == file_key(files@[j as int]),
        res is Less <==> key_before(
            file_key(files@[i as int])->0,
            file_key(files@[j as int])->0,
        ),
        res is Greater <==> key_before(
            file_key(files@[j as int])->0,
            file_key(files@[i as int])->0,
        ),
{
    let ghost a = file_key(files@[i as int])->0;
    let ghost b = file_key(files@[j as int])->0;
    proof {
        lemma_key_order(a, b);
        lemma_key_order(b, a);
        lemma_path_order(a.dir, b.dir);
        lemma_path_order(b.dir, a.dir);
        lemma_text_order(a.prefix, b.prefix);
        lemma_text_order(b.prefix, a.prefix);
    }
    match rank_path(files[i].dir.as_slice(), files[j].dir.as_slice()) {
        Rank::Less => {
            return Rank::Less;
        },
        Rank::Greater => {
            return Rank::Greater;
        },
        Rank::Same => {},
    }
    if let (Some(x), Some(y)) = (&keys[i], &keys[j]) {
        match rank_text(x.prefix.as_str(), y.prefix.as_str()) {
            Rank::Less => {
                return Rank::Less;
            },
            Rank::Greater => {
                return Rank::Greater;
            },
            Rank::Same => {},
        }
        if x.id < y.id {
            return Rank::Less;
        }
        if x.id > y.id {
            return Rank::Greater;
        }
    }
    Rank::Same
}

/// The members of groups, as integers.
pub open spec fn members(groups: Seq<Vec<usize>>) -> Seq<Seq<int>> {
    groups.map_values(|g: Vec<usize>| crate::batch::positions(g@))
}

/// How many groups come before the key of an asset.
fn find_group(
    groups: &[Vec<usize>],
    files: &[PackFile],
    keys: &[Option<AssetKey>],
    e: usize,
) -> (res: usize)
    requires
        are_asset_keys(keys@, files@),
        e < files@.len(),
        keys@[e as int] is Some,
        is_grouping(members(groups@), file_keys(files@), files@.len() as int),
    ensures
        res <= groups@.len(),
        res == group_place(
            members(groups@),
            file_keys(files@),
            file_key(files@[e as int])->0,
        ),
{
    let ghost all = file_keys(files@);
    let ghost list = members(groups@);
    let ghost key = file_key(files@[e as int])->0;
    let mut low: usize = 0;
    let mut high: usize = groups.len();
    while low < high
        invariant
            are_asset_keys(keys@, files@),
            e < files@.len(),
            keys@[e as int] is Some,
            all == file_keys(files@),
            list == members(groups@),
            key == file_key(files@[e as int])->0,
            is_grouping(list, all, files@.len() as int),
            low <= high <= groups@.len(),
            low > 0 ==> key_before(group_key(list[low - 1], all), key),
            forall|g: int|
                high <= g < list.len() ==> !key_before(group_key(#[trigger] list[g], all), key),
        decreases high - low,
    {
        let mid: usize = low + (high - low) / 2;
        proof {
            assert(list[mid as int].len() > 0);
            assert(list[mid as int][0] == groups@[mid as int]@[0]);
        }
        let first: usize = groups[mid][0];
        proof {
            assert(all[first as int] == file_key(files@[first as int]));
            assert(all[list[mid as int][0]] == Some(group_key(list[mid as int], all)));
        }
        match rank_assets(files, keys, first, e) {
            Rank::Less => {
                low = mid + 1;
            },
            _ => {
                proof {
                    assert forall|g: int| mid <= g < list.len() implies !key_before(
                        group_key(#[trigger] list[g], all),
                        key,
                    ) by {
                        if g > mid && key_before(group_key(list[g], all), key) {
                            lemma_key_transitive(
                                group_key(list[mid as int], all),
                                group_key(list[g], all),
                                key,
                            );
                        }
                    }
                }
                high = mid;
            },
        }
    }
    proof {
        lemma_group_place_found(list, all, key, low as int);
    }
    low
}

/// The assets of a pack, grouped by their keys.
pub(crate) fn group_assets(files: &[PackFile], keys: &[Option<AssetKey>]) -> (res: Vec<Vec<usize>>)
    requires
        are_asset_keys(keys@, files@),
    ensures
        members(res@) == groups_upto(file_keys(files@), files@.len()),
{
    let ghost all = file_keys(files@);
    let mut groups: Vec<Vec<usize>> = Vec::new();
    let mut i: usize = 0;
    proof {
        assert(members(groups@) =~= groups_upto(all, 0));
    }
    while i < files.len()
        invariant
            are_asset_keys(keys@, files@),
            all == file_keys(files@),
            i <= files@.len(),
            members(groups@) == groups_upto(all, i as nat),
        decreases files@.len() - i,
    {
        proof {
            law_groups_are_sorted(all, i as nat);
            assert(all[i as int] == file_key(files@[i as int]));
            assert(keys@[i as int] is Some <==> all[i as int] is Some);
        }
        if keys[i].is_some() {
            let ghost list = members(groups@);
            let ghost key = file_key(files@[i as int])->0;
            let place: usize = find_group(groups.as_slice(), files, keys, i);
            let mut joins = false;
            if place < groups.len() {
                proof {
                    assert(list[place as int].len() > 0);
                    assert(list[place as int][0] == groups@[place as int]@[0]);
                    assert(all[list[place as int][0]] == Some(
                        group_key(list[place as int], all),
                    ));
                }
                let first: usize = groups[place][0];
                proof {
                    assert(all[first as int] == file_key(files@[first as int]));
                }
                match rank_assets(files, keys, first, i) {
                    Rank::Same => {
                        joins = true;
                    },
                    _ => {},
                }
            }
            let ghost before = groups@;
            if joins {
                let mut group: Vec<usize> = Vec::new();
                std::mem::swap(&mut group, &mut groups[place]);
                let ghost old_group = group@;
                group.push(i);
                proof {
                    assert(crate::batch::positions(group@) =~= crate::batch::positions(
                        old_group,
                    ).push(i as int));
                }
                groups.set(place, group);
                proof {
                    assert(members(groups@) =~= list.update(
                        place as int,
                        list[place as int].push(i as int),
                    ));
                }
            } else {
                let group: Vec<usize> = vec![i];
                proof {
                    assert(crate::batch::positions(group@) =~= seq![i as int]);
                }
                groups.insert(place, group);
                proof {
                    assert(members(groups@) =~= list.insert(place as int, seq![i as int]));
                }
            }
        }
        i = i + 1;
    }
    groups
}

// ---------------------------------------------------------------------------
// Numbers in use
// ---------------------------------------------------------------------------

/// The numbers in use, by folder and prefix.
pub type UsedMap = Map<(Seq<Seq<char>>, Seq<char>), Set<u32>>;

/// The numbers in use in a folder for a prefix.
pub open spec fn used_in(used: UsedMap, space: (Seq<Seq<char>>, Seq<char>)) -> Set<u32> {
    if used.contains_key(space) {
        used[space]
    } else {
        Set::empty()
    }
}

/// The folder and prefix of a key.
pub open spec fn space_of(key: GroupKey) -> (Seq<Seq<char>>, Seq<char>) {
    (key.dir, key.prefix)
}

/// What an item that is in use already is renumbered to, and the width of the
/// new number; nothing for an item whose number is free.
pub open spec fn new_number(used: UsedMap, key: GroupKey, width: nat) -> Option<(u32, nat)> {
    if used_in(used, space_of(key)).contains(key.id) {
        Some(free_id(used_in(used, space_of(key)), width))
    } else {
        None
    }
}

/// The number that an item has in the end.
pub open spec fn final_number(key: GroupKey, renumber: Option<(u32, nat)>) -> u32 {
    match renumber {
        Some((id, _)) => id,
        None => key.id,
    }
}

/// The numbers in use after an item was dealt with.
pub open spec fn used_after(used: UsedMap, key: GroupKey, renumber: Option<(u32, nat)>) -> UsedMap {
    used.insert(
        space_of(key),
        used_in(used, space_of(key)).insert(final_number(key, renumber)),
    )
}

struct Namespace {
    dir: Vec<String>,
    prefix: String,
    ids: UsedIds,
}

/// The numbers in use, by folder and prefix.
pub struct Namespaces {
    spaces: Vec<Namespace>,
}

spec fn name_of(space: Namespace) -> (Seq<Seq<char>>, Seq<char>) {
    (texts(space.dir@), space.prefix@)
}

spec fn space_map(spaces: Seq<Namespace>) -> UsedMap
    decreases spaces.len(),
{
    if spaces.len() == 0 {
        Map::empty()
    } else {
        space_map(spaces.drop_last()).insert(name_of(spaces.last()), spaces.last().ids@)
    }
}

spec fn are_distinct(spaces: Seq<Namespace>) -> bool {
    forall|i: int, j: int|
        0 <= i < j < spaces.len() ==> name_of(#[trigger] spaces[i]) != name_of(
            #[trigger] spaces[j],
        )
}

proof fn lemma_space_map(spaces: Seq<Namespace>, name: (Seq<Seq<char>>, Seq<char>))
    requires
        are_distinct(spaces),
    ensures
        forall|i: int|
            0 <= i < spaces.len() && name_of(#[trigger] spaces[i]) == name ==> space_map(
                spaces,
            ).contains_key(name) && space_map(spaces)[name] == spaces[i].ids@,
        (forall|i: int| 0 <= i < spaces.len() ==> name_of(#[trigger] spaces[i]) != name)
            ==> !space_map(spaces).contains_key(name),
    decreases spaces.len(),
{
    if spaces.len() > 0 {
        let front = spaces.drop_last();
        assert forall|i: int| 0 <= i < front.len() implies front[i] == spaces[i] by {}
        assert(are_distinct(front));
        lemma_space_map(front, name);
        assert(spaces[spaces.len() - 1] == spaces.last());
        assert forall|i: int|
            0 <= i < spaces.len() && name_of(#[trigger] spaces[i]) == name implies space_map(
            spaces,
        ).contains_key(name) && space_map(spaces)[name] == spaces[i].ids@ by {
            if i < front.len() {
                assert(front[i] == spaces[i]);
            }
        }
        if forall|i: int| 0 <= i < spaces.len() ==> name_of(#[trigger] spaces[i]) != name {
            assert forall|i: int| 0 <= i < front.len() implies name_of(#[trigger] front[i])
                != name by {
                assert(front[i] == spaces[i]);
            }
        }
    }
}

proof fn lemma_space_map_changed(a: Seq<Namespace>, b: Seq<Namespace>, at: int)
    requires
        are_distinct(a),
        a.len() == b.len(),
        0 <= at < a.len(),
        name_of(a[at]) == name_of(b[at]),
        forall|i: int| 0 <= i < a.len() && i != at ==> #[trigger] a[i] == b[i],
    ensures
        are_distinct(b),
        space_map(b) == space_map(a).insert(name_of(a[at]), b[at].ids@),
    decreases a.len(),
{
    assert forall|i: int, j: int| 0 <= i < j < b.len() implies name_of(#[trigger] b[i]) != name_of(
        #[trigger] b[j],
    ) by {
        assert(name_of(a[i]) != name_of(a[j]));
    }
    let fa = a.drop_last();
    let fb = b.drop_last();
    assert(are_distinct(fa)) by {
        assert forall|i: int, j: int| 0 <= i < j < fa.len() implies name_of(#[trigger] fa[i])
            != name_of(#[trigger] fa[j]) by {
            assert(fa[i] == a[i] && fa[j] == a[j]);
        }
    }
    if at == a.len() - 1 {
        assert forall|i: int| 0 <= i < fa.len() implies fa[i] == fb[i] by {
            assert(fa[i] == a[i] && fb[i] == b[i]);
        }
        assert(fa =~= fb);
        assert(space_map(b) =~= space_map(a).insert(name_of(a[at]), b[at].ids@));
    } else {
        assert forall|i: int| 0 <= i < fa.len() && i != at implies #[trigger] fa[i] == fb[i] by {
            assert(a[i] == b[i]);
        }
        lemma_space_map_changed(fa, fb, at);
        let last = a.len() - 1;
        assert(a[last] == b[last]);
        assert(name_of(a[at]) != name_of(a[last]));
        assert(space_map(b) =~= space_map(a).insert(name_of(a[at]), b[at].ids@));
    }
}

/// A copy of a list of texts.
fn copy_texts(list: &[String]) -> (res: Vec<String>)
    ensures
        texts(res@) == texts(list@),
{
    let mut out: Vec<String> = Vec::new();
    let mut i: usize = 0;
    while i < list.len()
        invariant
            i <= list@.len(),
            out@.len() == i,
            forall|k: int| 0 <= k < i ==> (#[trigger] out@[k])@ == list@[k]@,
        decreases list@.len() - i,
    {
        out.push(list[i].clone());
        i = i + 1;
    }
    proof {
        assert(texts(out@) =~= texts(list@));
    }
    out
}

impl View for Namespaces {
    type V = UsedMap;

    closed spec fn view(&self) -> UsedMap {
        space_map(self.spaces@)
    }
}

impl Namespaces {
    /// No two entries are for the same folder and prefix.
    pub closed spec fn wf(&self) -> bool {
        &&& are_distinct(self.spaces@)
        &&& forall|i: int| 0 <= i < self.spaces@.len() ==> (#[trigger] self.spaces@[i]).ids.wf()
    }

    /// No number is in use.
    pub fn new() -> (res: Self)
        ensures
            res.wf(),
            res@ == Map::<(Seq<Seq<char>>, Seq<char>), Set<u32>>::empty(),
    {
        Namespaces { spaces: Vec::new() }
    }

    fn find(&self, dir: &[String], prefix: &str) -> (res: Option<usize>)
        ensures
            match res {
                Some(i) => i < self.spaces@.len() && name_of(self.spaces@[i as int]) == (
                    texts(dir@),
                    prefix@,
                ),
                None => forall|i: int|
                    0 <= i < self.spaces@.len() ==> name_of(#[trigger] self.spaces@[i]) != (
                        texts(dir@),
                        prefix@,
                    ),
            },
    {
        let mut i: usize = 0;
        while i < self.spaces.len()
            invariant
                i <= self.spaces@.len(),
                forall|k: int|
                    0 <= k < i ==> name_of(#[trigger] self.spaces@[k]) != (texts(dir@), prefix@),
            decreases self.spaces@.len() - i,
        {
            let space = &self.spaces[i];
            let same_prefix = match rank_text(space.prefix.as_str(), prefix) {
                Rank::Same => true,
                _ => false,
            };
            if same_prefix {
                match rank_path(space.dir.as_slice(), dir) {
                    Rank::Same => {
                        return Some(i);
                    },
                    _ => {},
                }
            }
            i = i + 1;
        }
        None
    }

    /// Puts an item's number to use, or gives it a new one of at least the
    /// given width if the number is in use. Fails where a new number is needed
    /// and none can be given out.
    pub fn claim(&mut self, dir: &[String], prefix: &str, id: u32, width: usize) -> (res: Option<
        Option<(u32, usize)>,
    >)
        requires
            old(self).wf(),
        ensures
            final(self).wf(),
            ({
                let key = GroupKey { dir: texts(dir@), prefix: prefix@, id };
                let needed = new_number(old(self)@, key, width as nat);
                match res {
                    Some(renumber) => {
                        &&& needed is Some ==> has_free_id(used_in(old(self)@, space_of(key)))
                        &&& needed == number_model(renumber)
                        &&& final(self)@ == used_after(old(self)@, key, needed)
                    },
                    None => {
                        &&& needed is Some
                        &&& !has_free_id(used_in(old(self)@, space_of(key)))
                        &&& final(self)@ == old(self)@
                    },
                }
            }),
    {
        let ghost name = (texts(dir@), prefix@);
        let ghost before = self.spaces@;
        proof {
            lemma_space_map(before, name);
        }
        match self.find(dir, prefix) {
            None => {
                let mut ids = UsedIds::new();
                ids.insert(id);
                let space = Namespace {
                    dir: copy_texts(dir),
                    prefix: prefix.to_owned(),
                    ids,
                };
                self.spaces.push(space);
                proof {
                    assert(self.spaces@.drop_last() =~= before);
                    assert(name_of(space) == name);
                }
                Some(None)
            },
            Some(i) => {
                if !self.spaces[i].ids.contains(id) {
                    let mut ids = UsedIds::new();
                    std::mem::swap(&mut ids, &mut self.spaces[i].ids);
                    ids.insert(id);
                    self.spaces[i].ids = ids;
                    proof {
                        lemma_space_map_changed(before, self.spaces@, i as int);
                    }
                    return Some(None);
                }
                if !self.spaces[i].ids.can_find_free_id() {
                    return None;
                }
                let mut ids = UsedIds::new();
                std::mem::swap(&mut ids, &mut self.spaces[i].ids);
                let (new_id, new_width) = ids.find_free_id(width);
                self.spaces[i].ids = ids;
                proof {
                    lemma_space_map_changed(before, self.spaces@, i as int);
                }
                Some(Some((new_id, new_width)))
            },
        }
    }
}

/// A new number and its width, as a value.
pub open spec fn number_model(renumber: Option<(u32, usize)>) -> Option<(u32, nat)> {
    match renumber {
        Some((id, width)) => Some((id, width as nat)),
        None => None,
    }
}

} // verus!
