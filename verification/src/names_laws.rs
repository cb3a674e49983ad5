//! What holds of the names of files, and of where they are written.

use crate::batch::{
    is_file_result, is_granted, is_listed, law_files_are_sorted, lemma_place_is_behind,
    output_name, path_order, place_of, planned_writes, taken_after, Claim, DiscoveredFile,
    FoundFile,
};
use crate::names::{
    collision_name, first_root, is_extension, is_under, lemma_path_order, name_extension,
    name_stem, pack_label, path_before, relative_to,
};
use crate::pipeline::ResizeStats;
use crate::progress::FileResult;
use crate::settings::{OutputMode, Settings};
use crate::text::{decimal, last_position, lemma_last_position, lower, texts};
use crate::ytd_io::YtdError;
use vstd::prelude::*;

verus! {

// ---------------------------------------------------------------------------
// Names
// ---------------------------------------------------------------------------

/// A name is its stem, a point and its extension, which has no point in it; one
/// without a point, or with one only at its front, is all stem.
pub proof fn law_names_are_parted(name: Seq<char>)
    ensures
        match name_extension(name) {
            Some(ext) => {
                &&& name == name_stem(name).push('.') + ext
                &&& name_stem(name).len() > 0
                &&& !ext.contains('.')
            },
            None => name_stem(name) == name && forall|i: int|
                0 < i < name.len() ==> name[i] != '.',
        },
{
    lemma_last_position(name, '.');
    if let Some(p) = last_position(name, '.') {
        if p > 0 {
            let ext = name.skip(p + 1);
            assert(name =~= name.take(p).push('.') + ext);
            if ext.contains('.') {
                let k = choose|k: int| 0 <= k < ext.len() && ext[k] == '.';
                assert(name[p + 1 + k] == '.');
            }
        }
    }
}

/// A file has an extension if it is the one asked for, whatever the case of its
/// letters.
pub proof fn law_extensions_ignore_case(ext: Option<Seq<char>>, wanted: Seq<char>)
    ensures
        is_extension(ext, wanted) <==> ext is Some && lower(ext->0) == lower(wanted),
        is_extension(ext, wanted) ==> ext->0.len() == wanted.len(),
{
    if is_extension(ext, wanted) {
        assert(lower(ext->0).len() == ext->0.len());
        assert(lower(wanted).len() == wanted.len());
    }
}

/// The names that are tried for an output file: its own, and then its stem with
/// an underscore and a number behind it, from two on, and its extension.
pub proof fn law_output_names(
    stem: Seq<char>,
    ext: Option<Seq<char>>,
    attempt: nat,
)
    ensures
        output_name(Some(stem), ext, 0) is None,
        attempt > 0 ==> output_name(Some(stem), ext, attempt) == Some(
            match ext {
                Some(e) => stem + "_"@ + decimal(attempt + 1) + "."@ + e,
                None => stem + "_"@ + decimal(attempt + 1),
            },
        ),
        output_name(None, ext, attempt) == output_name(Some("file"@), ext, attempt),
{
    if attempt > 0 {
        let n = decimal(attempt + 1);
        assert(stem + ("_"@ + n) =~= stem + "_"@ + n);
    }
}

/// The names that are tried for a file that collides with an earlier pack's: its
/// stem with the label of its own pack behind it, then with a number behind that
/// too, from one on, and its extension.
pub proof fn law_collision_names(
    stem: Seq<char>,
    ext: Option<Seq<char>>,
    pack_num: nat,
    n: nat,
)
    ensures
        ({
            let tail = match ext {
                Some(e) => "."@ + e,
                None => Seq::<char>::empty(),
            };
            let label = pack_label(pack_num);
            &&& label == "pack"@ + decimal(pack_num)
            &&& collision_name(Some(stem), ext, label, 0) == stem + "_pack"@ + decimal(pack_num)
                + tail
            &&& n > 0 ==> collision_name(Some(stem), ext, label, n) == stem + "_pack"@ + decimal(
                pack_num,
            ) + "_"@ + decimal(n) + tail
            &&& collision_name(None, ext, label, n) == collision_name(Some("file"@), ext, label, n)
        }),
{
    reveal_strlit("_");
    reveal_strlit("pack");
    reveal_strlit("_pack");
    let p = decimal(pack_num);
    let label = pack_label(pack_num);
    assert("_pack"@ =~= "_"@ + "pack"@);
    let tail = match ext {
        Some(e) => "."@ + e,
        None => Seq::<char>::empty(),
    };
    assert(collision_name(Some(stem), ext, label, 0) =~= stem + "_pack"@ + p + tail);
    if n > 0 {
        assert(collision_name(Some(stem), ext, label, n) =~= stem + "_pack"@ + p + "_"@ + decimal(n)
            + tail);
    }
}

// ---------------------------------------------------------------------------
// Places
// ---------------------------------------------------------------------------

proof fn lemma_first_root(path: Seq<Seq<char>>, roots: Seq<Seq<Seq<char>>>)
    ensures
        match first_root(path, roots) {
            Some(i) => {
                &&& 0 <= i < roots.len()
                &&& is_under(path, roots[i])
                &&& forall|k: int| 0 <= k < i ==> !is_under(path, #[trigger] roots[k])
            },
            None => forall|k: int| 0 <= k < roots.len() ==> !is_under(path, #[trigger] roots[k]),
        },
    decreases roots.len(),
{
    if roots.len() > 0 {
        let front = roots.drop_last();
        lemma_first_root(path, front);
        assert forall|k: int| 0 <= k < front.len() implies front[k] == roots[k] by {}
        match first_root(path, front) {
            Some(i) => {
                assert(front[i] == roots[i]);
                assert forall|k: int| 0 <= k < i implies !is_under(path, #[trigger] roots[k]) by {
                    assert(front[k] == roots[k]);
                }
            },
            None => {
                assert forall|k: int| 0 <= k < roots.len() - 1 implies !is_under(
                    path,
                    #[trigger] roots[k],
                ) by {
                    assert(front[k] == roots[k]);
                }
            },
        }
    }
}

/// A file is written to the same place in the output folder that it has in the
/// first input folder that it lies in; where it lies in none, right into the
/// output folder.
pub proof fn law_files_keep_their_place(path: Seq<Seq<char>>, roots: Seq<Seq<Seq<char>>>, i: int)
    requires
        path.len() > 0,
    ensures
        0 <= i < roots.len() && roots[i].is_prefix_of(path) && (forall|k: int|
            0 <= k < i ==> !(#[trigger] roots[k]).is_prefix_of(path)) ==> path == roots[i]
            + relative_to(path, roots),
        (forall|k: int| 0 <= k < roots.len() ==> !(#[trigger] roots[k]).is_prefix_of(path))
            ==> relative_to(path, roots) == seq![path.last()],
{
    lemma_first_root(path, roots);
    assert forall|k: int| 0 <= k < roots.len() implies is_under(path, #[trigger] roots[k])
        == roots[k].is_prefix_of(path) by {
        assert(path.take(roots[k].len() as int) =~= path.subrange(0, roots[k].len() as int));
    }
    if 0 <= i < roots.len() && roots[i].is_prefix_of(path) && (forall|k: int|
        0 <= k < i ==> !(#[trigger] roots[k]).is_prefix_of(path)) {
        assert(is_under(path, roots[i]));
        assert(first_root(path, roots) == Some(i));
        assert(path =~= roots[i] + relative_to(path, roots));
    }
    if forall|k: int| 0 <= k < roots.len() ==> !(#[trigger] roots[k]).is_prefix_of(path) {
        assert(relative_to(path, roots) =~= seq![path.last()]);
    }
}

/// Files are written unless it is a dry run. They are backed up before if and
/// only if they are written over themselves and a backup was asked for. The
/// output folder is made if and only if they are written to one.
pub proof fn law_writes_are_as_asked(settings: Settings)
    ensures
        ({
            let plan = planned_writes(settings);
            &&& plan.write <==> !settings.dry_run
            &&& plan.backup <==> plan.write && settings.output_mode == (
            OutputMode::OverwriteInPlace { backup: true })
            &&& plan.make_output_folder <==> plan.write && settings.output_mode is SeparateFolder
                && settings.output_folder is Some
        }),
{
}

/// A path is given away if and only if no file of the name exists and it was not
/// given away before.
pub proof fn law_free_paths_are_granted(taken: Set<Seq<char>>, path: Seq<char>, on_disk: bool)
    ensures
        is_granted(taken, (path, on_disk)) <==> !on_disk && !taken.contains(path),
{
}

// ---------------------------------------------------------------------------
// Files
// ---------------------------------------------------------------------------

/// A file that was resized is written as it was rebuilt, whatever its size, and
/// reported with the numbers and warnings of its textures. A file that was not
/// is written as it was, byte for byte, with the error as its only warning, and
/// none of its textures counts. The report has the path and the sizes before and
/// after.
pub proof fn law_files_are_written_as_resized(
    path: Seq<char>,
    original: Seq<u8>,
    outcome: Result<(Vec<u8>, ResizeStats), YtdError>,
    result: FileResult,
    bytes: Seq<u8>,
)
    requires
        is_file_result(path, original, outcome, result, bytes),
    ensures
        result.path@ == path,
        result.old_size == original.len(),
        result.new_size == bytes.len(),
        outcome matches Ok((rebuilt, stats)) ==> {
            &&& bytes == rebuilt@
            &&& result.textures_resized == stats.textures_resized
            &&& result.textures_total == stats.textures_total
            &&& texts(result.warnings@) == texts(stats.warnings@)
        },
        outcome matches Err(e) ==> {
            &&& bytes == original
            &&& result.textures_resized == 0
            &&& result.textures_total == 0
            &&& result.warnings@.len() == 1
            &&& result.warnings@[0]@ == "could not parse, copied unresized instead: "@
                + e.spec_message()
        },
{
    if let Err(e) = outcome {
        let w = texts(result.warnings@);
        assert(w.len() == 1);
        assert(w[0] == result.warnings@[0]@);
    }
}

/// A path that is given away is taken from then on, and nothing else changes.
pub proof fn law_given_paths_are_taken(taken: Set<Seq<char>>, claim: Claim, other: Seq<char>)
    ensures
        is_granted(taken, claim) ==> taken_after(taken, claim).contains(claim.0),
        other != claim.0 || !is_granted(taken, claim) ==> taken_after(taken, claim).contains(other)
            == taken.contains(other),
{
}

/// A found file is listed under its path and with its size, and nothing is known
/// of its textures yet.
pub proof fn law_found_files_are_listed(file: DiscoveredFile, found: FoundFile)
    requires
        is_listed(file, found),
    ensures
        file.path@ == found.path@,
        file.size == found.size,
        file.texture_count is None,
        file.parse_error is None,
{
}

/// Found files are listed in the order of their paths, each exactly once; of two
/// with the same path, the one that was found first comes first.
pub proof fn law_listed_in_path_order(keys: Seq<Seq<Seq<char>>>, n: nat, i: int, j: int)
    requires
        n <= keys.len(),
        0 <= i < j < n,
    ensures
        ({
            let order = path_order(keys, n);
            &&& order.len() == n
            &&& 0 <= order[i] < n
            &&& 0 <= order[j] < n
            &&& order[i] != order[j]
            &&& keys[order[i]] == keys[order[j]] || path_before(keys[order[i]], keys[order[j]])
            &&& keys[order[i]] == keys[order[j]] ==> order[i] < order[j]
        }),
{
    law_files_are_sorted(keys, n);
    let order = path_order(keys, n);
    lemma_path_order(keys[order[i]], keys[order[j]]);
    if keys[order[i]] == keys[order[j]] {
        lemma_equal_paths_keep_order(keys, n, i, j);
    }
}

proof fn lemma_equal_paths_keep_order(keys: Seq<Seq<Seq<char>>>, n: nat, i: int, j: int)
    requires
        n <= keys.len(),
        0 <= i < j < n,
        path_order(keys, n).len() == n,
        keys[path_order(keys, n)[i]] == keys[path_order(keys, n)[j]],
    ensures
        path_order(keys, n)[i] < path_order(keys, n)[j],
    decreases n,
{
    let e = n - 1;
    let before = path_order(keys, e as nat);
    law_files_are_sorted(keys, e as nat);
    law_files_are_sorted(keys, n);
    let p = place_of(before, keys, e);
    lemma_place_is_behind(before, keys, e);
    let order = path_order(keys, n);
    assert(order == before.insert(p, e));
    lemma_path_order(keys[e], keys[e]);
    if i == p {
        assert(order[j] == before[j - 1]);
        assert(path_before(keys[e], keys[before[j - 1]]));
    } else if j != p {
        let a = if i < p {
            i
        } else {
            i - 1
        };
        let b = if j < p {
            j
        } else {
            j - 1
        };
        assert(order[i] == before[a] && order[j] == before[b]);
        lemma_equal_paths_keep_order(keys, e as nat, a, b);
    } else {
        assert(order[i] == before[i]);
        assert(0 <= before[i] < e);
    }
}

} // verus!
