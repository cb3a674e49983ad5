//! Working through a list of files.

use crate::names::{
    borrow_text, lemma_path_order, lemma_path_transitive, number_name, numbered_name, opt_string,
    opt_text, own_text, path_before, paths, rank_path, relative_to, relative_to_input_root,
};
use crate::pipeline::{is_resized, resize_ytd_bytes, ResizeStats};
use crate::progress::{FileResult, ProgressMsg};
use crate::settings::{OutputMode, Settings};
use crate::text::{texts, Rank};
use crate::ytd_io::YtdError;
use vstd::hash_set::StringHashSet;
use vstd::prelude::*;

verus! {

// ---------------------------------------------------------------------------
// Discovered files
// ---------------------------------------------------------------------------

/// A file as it was found: its path, as text and name by name, and its size.
pub struct FoundFile {
    pub path: String,
    pub parts: Vec<String>,
    pub size: u64,
}

/// A file that can be resized.
#[derive(Debug, Clone)]
pub struct DiscoveredFile {
    pub path: String,
    pub size: u64,
    pub texture_count: Option<usize>,
    pub parse_error: Option<String>,
}

/// The paths of found files, name by name.
pub open spec fn found_paths(found: Seq<FoundFile>) -> Seq<Seq<Seq<char>>> {
    found.map_values(|f: FoundFile| texts(f.parts@))
}

/// Where `e` goes in a sorted list: behind everything that it does not come
/// before.
pub open spec fn place_of(order: Seq<int>, keys: Seq<Seq<Seq<char>>>, e: int) -> int
    decreases order.len(),
{
    if order.len() == 0 {
        0
    } else if path_before(keys[e], keys[order.last()]) {
        place_of(order.drop_last(), keys, e)
    } else {
        order.len() as int
    }
}

/// The first `n` positions in the order of their paths; of two equal paths the
/// earlier one comes first.
pub open spec fn path_order(keys: Seq<Seq<Seq<char>>>, n: nat) -> Seq<int>
    decreases n,
{
    if n == 0 {
        Seq::empty()
    } else {
        let before = path_order(keys, (n - 1) as nat);
        before.insert(place_of(before, keys, n - 1), n - 1)
    }
}

/// Whether no path in the list comes before one in front of it.
pub open spec fn is_ordered(order: Seq<int>, keys: Seq<Seq<Seq<char>>>) -> bool {
    forall|i: int, j: int|
        0 <= i < j < order.len() ==> !path_before(
            keys[#[trigger] order[j]],
            keys[#[trigger] order[i]],
        )
}

/// The positions as integers.
pub open spec fn positions(order: Seq<usize>) -> Seq<int> {
    order.map_values(|i: usize| i as int)
}

proof fn lemma_before_later(e: Seq<Seq<char>>, a: Seq<Seq<char>>, b: Seq<Seq<char>>)
    requires
        path_before(e, a),
        !path_before(b, a),
    ensures
        path_before(e, b),
{
    lemma_path_order(a, b);
    if a != b {
        lemma_path_transitive(e, a, b);
    }
}

proof fn lemma_place_bounds(order: Seq<int>, keys: Seq<Seq<Seq<char>>>, e: int)
    ensures
        0 <= place_of(order, keys, e) <= order.len(),
    decreases order.len(),
{
    if order.len() > 0 {
        lemma_place_bounds(order.drop_last(), keys, e);
    }
}

proof fn lemma_place_found(order: Seq<int>, keys: Seq<Seq<Seq<char>>>, e: int, p: int)
    requires
        0 <= p <= order.len(),
        forall|i: int| p <= i < order.len() ==> path_before(keys[e], keys[#[trigger] order[i]]),
        p > 0 ==> !path_before(keys[e], keys[order[p - 1]]),
    ensures
        place_of(order, keys, e) == p,
    decreases order.len(),
{
    if order.len() > p {
        lemma_place_found(order.drop_last(), keys, e, p);
    }
}

/// In a sorted list, `e` goes behind everything that it does not come before
/// and in front of everything else.
proof fn lemma_place_splits(order: Seq<int>, keys: Seq<Seq<Seq<char>>>, e: int)
    requires
        is_ordered(order, keys),
    ensures
        forall|i: int|
            0 <= i < place_of(order, keys, e) ==> !path_before(
                keys[e],
                keys[#[trigger] order[i]],
            ),
        forall|i: int|
            place_of(order, keys, e) <= i < order.len() ==> path_before(
                keys[e],
                keys[#[trigger] order[i]],
            ),
    decreases order.len(),
{
    lemma_place_bounds(order, keys, e);
    if order.len() > 0 {
        let front = order.drop_last();
        assert(is_ordered(front, keys)) by {
            assert forall|i: int, j: int| 0 <= i < j < front.len() implies !path_before(
                keys[#[trigger] front[j]],
                keys[#[trigger] front[i]],
            ) by {
                assert(order[i] == front[i] && order[j] == front[j]);
            }
        }
        lemma_place_splits(front, keys, e);
        if path_before(keys[e], keys[order.last()]) {
            assert forall|i: int| 0 <= i < place_of(order, keys, e) implies !path_before(
                keys[e],
                keys[#[trigger] order[i]],
            ) by {
                assert(order[i] == front[i]);
            }
            assert forall|i: int|
                place_of(order, keys, e) <= i < order.len() implies path_before(
                keys[e],
                keys[#[trigger] order[i]],
            ) by {
                if i < front.len() {
                    assert(order[i] == front[i]);
                }
            }
        } else {
            assert forall|i: int| 0 <= i < order.len() implies !path_before(
                keys[e],
                keys[#[trigger] order[i]],
            ) by {
                if path_before(keys[e], keys[order[i]]) && i < order.len() - 1 {
                    lemma_before_later(keys[e], keys[order[i]], keys[order[order.len() - 1]]);
                }
            }
        }
    }
}

/// Files are listed in the order of their paths, each one exactly once.
pub proof fn law_files_are_sorted(keys: Seq<Seq<Seq<char>>>, n: nat)
    requires
        n <= keys.len(),
    ensures
        is_ordered(path_order(keys, n), keys),
        path_order(keys, n).len() == n,
        path_order(keys, n).no_duplicates(),
        forall|j: int| 0 <= j < n ==> 0 <= #[trigger] path_order(keys, n)[j] < n,
    decreases n,
{
    if n > 0 {
        let e = n - 1;
        let before = path_order(keys, e as nat);
        law_files_are_sorted(keys, e as nat);
        lemma_place_bounds(before, keys, e);
        lemma_place_splits(before, keys, e);
        let p = place_of(before, keys, e);
        let order = before.insert(p, e);
        assert forall|j: int| 0 <= j < order.len() implies order[j] == if j < p {
            before[j]
        } else if j == p {
            e
        } else {
            before[j - 1]
        } by {}
        assert forall|i: int, j: int| 0 <= i < j < order.len() implies !path_before(
            keys[#[trigger] order[j]],
            keys[#[trigger] order[i]],
        ) by {
            if i == p {
                lemma_path_order(keys[e], keys[before[j - 1]]);
            }
        }
    }
}

/// Where a path goes among sorted ones.
fn find_place(order: &[usize], found: &[FoundFile], e: usize) -> (res: usize)
    requires
        e < found@.len(),
        forall|j: int| 0 <= j < order@.len() ==> #[trigger] order@[j] < found@.len(),
        is_ordered(positions(order@), found_paths(found@)),
    ensures
        res <= order@.len(),
        res == place_of(positions(order@), found_paths(found@), e as int),
{
    let ghost keys = found_paths(found@);
    let ghost list = positions(order@);
    let mut low: usize = 0;
    let mut high: usize = order.len();
    while low < high
        invariant
            keys == found_paths(found@),
            list == positions(order@),
            e < found@.len(),
            forall|j: int| 0 <= j < order@.len() ==> #[trigger] order@[j] < found@.len(),
            is_ordered(list, keys),
            low <= high <= order@.len(),
            forall|i: int|
                high <= i < list.len() ==> path_before(keys[e as int], keys[#[trigger] list[i]]),
            low > 0 ==> !path_before(keys[e as int], keys[list[low - 1]]),
        decreases high - low,
    {
        let mid: usize = low + (high - low) / 2;
        let at: usize = order[mid];
        proof {
            assert(list[mid as int] == at);
            assert(keys[at as int] == texts(found@[at as int].parts@));
            assert(keys[e as int] == texts(found@[e as int].parts@));
        }
        match rank_path(found[e].parts.as_slice(), found[at].parts.as_slice()) {
            Rank::Less => {
                proof {
                    assert forall|i: int| mid <= i < list.len() implies path_before(
                        keys[e as int],
                        keys[#[trigger] list[i]],
                    ) by {
                        if i > mid {
                            lemma_before_later(
                                keys[e as int],
                                keys[list[mid as int]],
                                keys[list[i]],
                            );
                        }
                    }
                }
                high = mid;
            },
            _ => {
                proof {
                    lemma_path_order(keys[e as int], keys[at as int]);
                }
                low = mid + 1;
            },
        }
    }
    proof {
        lemma_place_found(list, keys, e as int, low as int);
    }
    low
}

/// The file as it is listed before anything is known of its contents.
pub open spec fn is_listed(file: DiscoveredFile, found: FoundFile) -> bool {
    &&& file.path@ == found.path@
    &&& file.size == found.size
    &&& file.texture_count is None
    &&& file.parse_error is None
}

/// The found files, in the order of their paths.
pub fn scan_folders(found: &[FoundFile]) -> (res: Vec<DiscoveredFile>)
    ensures
        res@.len() == found@.len(),
        forall|k: int|
            0 <= k < res@.len() ==> is_listed(
                #[trigger] res@[k],
                found@[path_order(found_paths(found@), found@.len())[k]],
            ),
{
    let ghost keys = found_paths(found@);
    let mut order: Vec<usize> = Vec::new();
    let mut i: usize = 0;
    proof {
        assert(positions(order@) =~= path_order(keys, 0));
    }
    while i < found.len()
        invariant
            keys == found_paths(found@),
            i <= found@.len(),
            positions(order@) == path_order(keys, i as nat),
        decreases found@.len() - i,
    {
        proof {
            law_files_are_sorted(keys, i as nat);
            assert forall|j: int| 0 <= j < order@.len() implies #[trigger] order@[j]
                < found@.len() by {
                assert(positions(order@)[j] == order@[j]);
            }
        }
        let at: usize = find_place(order.as_slice(), found, i);
        let ghost before = order@;
        order.insert(at, i);
        proof {
            assert(positions(order@) =~= positions(before).insert(at as int, i as int));
        }
        i = i + 1;
    }
    let mut out: Vec<DiscoveredFile> = Vec::new();
    let mut k: usize = 0;
    proof {
        law_files_are_sorted(keys, found@.len());
    }
    while k < order.len()
        invariant
            keys == found_paths(found@),
            positions(order@) == path_order(keys, found@.len()),
            order@.len() == found@.len(),
            forall|j: int|
                0 <= j < found@.len() ==> 0 <= #[trigger] path_order(keys, found@.len())[j]
                    < found@.len(),
            k <= order@.len(),
            out@.len() == k,
            forall|j: int|
                0 <= j < k ==> is_listed(
                    #[trigger] out@[j],
                    found@[path_order(keys, found@.len())[j]],
                ),
        decreases order@.len() - k,
    {
        let at: usize = order[k];
        proof {
            assert(positions(order@)[k as int] == at);
        }
        out.push(
            DiscoveredFile {
                path: found[at].path.clone(),
                size: found[at].size,
                texture_count: None,
                parse_error: None,
            },
        );
        k = k + 1;
    }
    out
}

/// What was learned about a file's contents.
#[derive(Debug, Clone)]
pub struct CountUpdate {
    pub path: String,
    pub texture_count: Option<usize>,
    pub parse_error: Option<String>,
}

/// The news about a file whose textures were counted, or could not be.
pub fn count_update(path: String, counted: Result<usize, String>) -> (res: CountUpdate)
    ensures
        res.path == path,
        match counted {
            Ok(count) => res.texture_count == Some(count) && res.parse_error is None,
            Err(e) => res.texture_count is None && res.parse_error == Some(e),
        },
{
    match counted {
        Ok(count) => CountUpdate { path, texture_count: Some(count), parse_error: None },
        Err(e) => CountUpdate { path, texture_count: None, parse_error: Some(e) },
    }
}

// ---------------------------------------------------------------------------
// One file
// ---------------------------------------------------------------------------

/// Whether a file is reported, and written, like this: as it was resized, or
/// unchanged with the reason as its only warning.
pub open spec fn is_file_result(
    path: Seq<char>,
    original: Seq<u8>,
    outcome: Result<(Vec<u8>, ResizeStats), YtdError>,
    result: FileResult,
    bytes: Seq<u8>,
) -> bool {
    &&& result.path@ == path
    &&& result.old_size == original.len()
    &&& result.new_size == bytes.len()
    &&& match outcome {
        Ok((rebuilt, stats)) => {
            &&& bytes == rebuilt@
            &&& result.textures_resized == stats.textures_resized
            &&& result.textures_total == stats.textures_total
            &&& result.warnings == stats.warnings
        },
        Err(e) => {
            &&& bytes == original
            &&& result.textures_resized == 0
            &&& result.textures_total == 0
            &&& texts(result.warnings@) == seq![
                "could not parse, copied unresized instead: "@ + e.spec_message(),
            ]
        },
    }
}

/// The report on a file and the bytes that are written for it.
pub fn file_result(
    path: String,
    original_bytes: Vec<u8>,
    outcome: Result<(Vec<u8>, ResizeStats), YtdError>,
) -> (res: (FileResult, Vec<u8>))
    ensures
        is_file_result(path@, original_bytes@, outcome, res.0, res.1@),
        outcome matches Ok((rebuilt, _)) ==> res.1@ == rebuilt@ && res.0.new_size
            == rebuilt@.len(),
        outcome is Err ==> res.1@ == original_bytes@ && res.0.new_size == original_bytes@.len(),
{
    let old_size: u64 = original_bytes.len() as u64;
    match outcome {
        Ok((rebuilt, stats)) => {
            let new_size: u64 = rebuilt.len() as u64;
            (
                FileResult {
                    path,
                    old_size,
                    new_size,
                    textures_resized: stats.textures_resized,
                    textures_total: stats.textures_total,
                    warnings: stats.warnings,
                },
                rebuilt,
            )
        },
        Err(e) => {
            let mut warning = String::new();
            warning.append("could not parse, copied unresized instead: ");
            warning.append(e.message().as_str());
            let ghost text = warning@;
            let warnings: Vec<String> = vec![warning];
            proof {
                assert(text =~= "could not parse, copied unresized instead: "@
                    + e.spec_message());
                assert(texts(warnings@) =~= seq![text]);
            }
            (
                FileResult {
                    path,
                    old_size,
                    new_size: old_size,
                    textures_resized: 0,
                    textures_total: 0,
                    warnings,
                },
                original_bytes,
            )
        },
    }
}

/// Resizes the textures of a file. A file that cannot be read or dealt with is
/// passed on as it is.
pub fn process_file(path: String, original_bytes: Vec<u8>, settings: &Settings) -> (res: (
    FileResult,
    Vec<u8>,
))
    requires
        usize::MAX == u64::MAX,
    ensures
        exists|outcome: Result<(Vec<u8>, ResizeStats), YtdError>| #[trigger]
            is_resized(original_bytes@, *settings, outcome) && is_file_result(
                path@,
                original_bytes@,
                outcome,
                res.0,
                res.1@,
            ),
{
    let outcome = resize_ytd_bytes(original_bytes.as_slice(), settings);
    file_result(path, original_bytes, outcome)
}

/// What is written besides reporting on a file.
#[derive(Debug, Clone, Copy, PartialEq, Eq, Structural)]
pub struct WritePlan {
    /// The output folder is made before the first file.
    pub make_output_folder: bool,
    /// The file is backed up first, unless there is a backup already.
    pub backup: bool,
    /// The file is written.
    pub write: bool,
}

/// What is written besides reporting on a file.
pub open spec fn planned_writes(settings: Settings) -> WritePlan {
    WritePlan {
        make_output_folder: !settings.dry_run && settings.output_mode is SeparateFolder
            && settings.output_folder is Some,
        backup: !settings.dry_run && settings.output_mode == (OutputMode::OverwriteInPlace {
            backup: true,
        }),
        write: !settings.dry_run,
    }
}

/// What is written besides reporting on a file. A dry run writes nothing, and
/// makes no folder either.
pub fn write_plan(settings: &Settings) -> (res: WritePlan)
    ensures
        res == planned_writes(*settings),
{
    let separate = match settings.output_mode {
        OutputMode::SeparateFolder => true,
        _ => false,
    };
    let keep = match settings.output_mode {
        OutputMode::OverwriteInPlace { backup } => backup,
        _ => false,
    };
    WritePlan {
        make_output_folder: !settings.dry_run && separate && settings.output_folder.is_some(),
        backup: !settings.dry_run && keep,
        write: !settings.dry_run,
    }
}

/// A dry run makes no folder, backs nothing up and writes no file, whatever
/// else the settings say.
pub proof fn law_dry_run_writes_nothing(settings: Settings)
    requires
        settings.dry_run,
    ensures
        planned_writes(settings) == (WritePlan {
            make_output_folder: false,
            backup: false,
            write: false,
        }),
{
}

/// Where a file is written.
#[derive(Debug, Clone, Copy, PartialEq, Eq, Structural)]
pub enum Destination {
    /// Over itself.
    InPlace,
    /// In the output folder, under its own path from the given name on.
    OutputFolder { from: usize },
    /// Nowhere, for want of an output folder.
    NoOutputFolder,
}

/// Where a file is written.
pub fn destination_for(
    path: &[String],
    settings: &Settings,
    input_folders: &[Vec<String>],
) -> (res: Destination)
    ensures
        match res {
            Destination::InPlace => settings.output_mode is OverwriteInPlace,
            Destination::NoOutputFolder => settings.output_mode is SeparateFolder
                && settings.output_folder is None,
            Destination::OutputFolder { from } => {
                &&& settings.output_mode is SeparateFolder
                &&& settings.output_folder is Some
                &&& from <= path@.len()
                &&& texts(path@).skip(from as int) == relative_to(
                    texts(path@),
                    paths(input_folders@),
                )
            },
        },
{
    match settings.output_mode {
        OutputMode::SeparateFolder => {
            if settings.output_folder.is_none() {
                Destination::NoOutputFolder
            } else {
                Destination::OutputFolder { from: relative_to_input_root(path, input_folders) }
            }
        },
        OutputMode::OverwriteInPlace { .. } => Destination::InPlace,
    }
}

/// The error of a file that has nowhere to go.
pub fn no_output_folder() -> (res: &'static str)
    ensures
        res@ == "no output folder set"@,
{
    "no output folder set"
}

/// The message about a file that was dealt with.
pub fn finished_message(path: String, result: Result<FileResult, String>) -> (res: ProgressMsg)
    ensures
        res == match result {
            Ok(result) => ProgressMsg::FileFinished { result },
            Err(error) => ProgressMsg::FileErrored { path, error },
        },
{
    match result {
        Ok(result) => ProgressMsg::FileFinished { result },
        Err(error) => ProgressMsg::FileErrored { path, error },
    }
}

// ---------------------------------------------------------------------------
// Output names
// ---------------------------------------------------------------------------

/// The output paths that were given away in a batch.
pub struct OutputClaims {
    taken: StringHashSet,
}

impl View for OutputClaims {
    type V = Set<Seq<char>>;

    closed spec fn view(&self) -> Set<Seq<char>> {
        self.taken@
    }
}

/// An attempt at taking an output path: the path, and whether a file of that
/// name exists.
pub type Claim = (Seq<char>, bool);

/// Whether an attempt succeeds.
pub open spec fn is_granted(taken: Set<Seq<char>>, claim: Claim) -> bool {
    !claim.1 && !taken.contains(claim.0)
}

/// The paths that are taken after an attempt.
pub open spec fn taken_after(taken: Set<Seq<char>>, claim: Claim) -> Set<Seq<char>> {
    if is_granted(taken, claim) {
        taken.insert(claim.0)
    } else {
        taken
    }
}

/// The paths that are taken after the first `n` attempts of a batch.
pub open spec fn taken_upto(claims: Seq<Claim>, n: nat) -> Set<Seq<char>>
    decreases n,
{
    if n == 0 {
        Set::empty()
    } else {
        taken_after(taken_upto(claims, (n - 1) as nat), claims[n - 1])
    }
}

proof fn lemma_taken_stays(claims: Seq<Claim>, n: nat, m: nat, path: Seq<char>)
    requires
        n <= m,
        taken_upto(claims, n).contains(path),
    ensures
        taken_upto(claims, m).contains(path),
    decreases m,
{
    if n < m {
        lemma_taken_stays(claims, n, (m - 1) as nat, path);
    }
}

/// No two files of a batch get the same output path, and none gets that of a
/// file that exists.
pub proof fn law_output_paths_differ(claims: Seq<Claim>, i: int, j: int)
    requires
        0 <= i < j < claims.len(),
        is_granted(taken_upto(claims, i as nat), claims[i]),
        is_granted(taken_upto(claims, j as nat), claims[j]),
    ensures
        claims[i].0 != claims[j].0,
        !claims[i].1,
        !claims[j].1,
{
    assert(taken_upto(claims, (i + 1) as nat).contains(claims[i].0));
    lemma_taken_stays(claims, (i + 1) as nat, j as nat, claims[i].0);
}

impl OutputClaims {
    /// No path is taken yet.
    pub fn new() -> (res: Self)
        ensures
            res@ == Set::<Seq<char>>::empty(),
    {
        OutputClaims { taken: StringHashSet::new() }
    }

    /// Takes a path, unless it was taken before or a file of that name exists.
    pub fn try_claim(&mut self, path: &str, on_disk: bool) -> (res: bool)
        ensures
            res == is_granted(old(self)@, (path@, on_disk)),
            final(self)@ == taken_after(old(self)@, (path@, on_disk)),
    {
        if on_disk || self.taken.contains(path) {
            return false;
        }
        let _ = self.taken.insert(path.to_owned());
        true
    }
}

/// The name that is tried for an output file: its own at first, then numbered
/// from two on.
pub open spec fn output_name(
    stem: Option<Seq<char>>,
    ext: Option<Seq<char>>,
    attempt: nat,
) -> Option<Seq<char>> {
    if attempt == 0 {
        None
    } else {
        Some(numbered_name(stem, ext, attempt + 1))
    }
}

/// The name that is tried for an output file at an attempt, or nothing where
/// its own is to be tried.
pub fn claim_name(stem: Option<&str>, ext: Option<&str>, attempt: u32) -> (res: Option<String>)
    requires
        attempt < u32::MAX,
    ensures
        match res {
            Some(name) => output_name(opt_text(stem), opt_text(ext), attempt as nat) == Some(
                name@,
            ),
            None => output_name(opt_text(stem), opt_text(ext), attempt as nat) is None,
        },
{
    if attempt == 0 {
        None
    } else {
        Some(number_name(stem, ext, attempt + 1))
    }
}

/// How far the search for a free output name has come.
pub struct SearchModel {
    pub stem: Option<Seq<char>>,
    pub ext: Option<Seq<char>>,
    /// The attempt that is made, or the one that succeeded.
    pub attempt: nat,
    pub found: bool,
}

impl SearchModel {
    /// The start of a search, with the file's own name.
    pub open spec fn start(stem: Option<Seq<char>>, ext: Option<Seq<char>>) -> SearchModel {
        SearchModel { stem, ext, attempt: 0, found: false }
    }

    /// The search after an attempt: it is over, or the next name is tried.
    pub open spec fn answered(self, granted: bool) -> SearchModel {
        if granted {
            SearchModel { found: true, ..self }
        } else {
            SearchModel { attempt: self.attempt + 1, ..self }
        }
    }

    /// The search, and the paths that are taken, after the given attempts. None
    /// is made once a name was found.
    pub open spec fn after(self, taken: Set<Seq<char>>, claims: Seq<Claim>) -> (
        SearchModel,
        Set<Seq<char>>,
    )
        decreases claims.len(),
    {
        if claims.len() == 0 {
            (self, taken)
        } else {
            let (search, now) = self.after(taken, claims.drop_last());
            if search.found {
                (search, now)
            } else {
                (
                    search.answered(is_granted(now, claims.last())),
                    taken_after(now, claims.last()),
                )
            }
        }
    }
}

/// The search for a free output name of a file.
pub struct OutputSearch {
    stem: Option<String>,
    ext: Option<String>,
    attempt: u32,
    found: bool,
}

impl View for OutputSearch {
    type V = SearchModel;

    closed spec fn view(&self) -> SearchModel {
        SearchModel {
            stem: opt_string(self.stem),
            ext: opt_string(self.ext),
            attempt: self.attempt as nat,
            found: self.found,
        }
    }
}

impl OutputSearch {
    /// Starts the search for a file.
    pub fn new(stem: Option<&str>, ext: Option<&str>) -> (res: Self)
        ensures
            res@ == SearchModel::start(opt_text(stem), opt_text(ext)),
    {
        OutputSearch { stem: own_text(stem), ext: own_text(ext), attempt: 0, found: false }
    }

    /// Whether another name can be tried: none was found, and there is another
    /// number.
    pub fn is_waiting(&self) -> (res: bool)
        ensures
            res == (!self@.found && self@.attempt < u32::MAX),
    {
        !self.found && self.attempt < u32::MAX
    }

    /// The name that is tried, or nothing where the file's own is.
    pub fn name(&self) -> (res: Option<String>)
        requires
            self@.attempt < u32::MAX,
        ensures
            opt_string(res) == output_name(self@.stem, self@.ext, self@.attempt),
    {
        claim_name(borrow_text(&self.stem), borrow_text(&self.ext), self.attempt)
    }
}

impl OutputClaims {
    /// Takes the path of the name that is tried, unless it was taken before or
    /// a file of that name exists, and tells whether it did.
    pub fn answer(&mut self, search: &mut OutputSearch, path: &str, on_disk: bool) -> (res: bool)
        requires
            !old(search)@.found,
            old(search)@.attempt < u32::MAX,
        ensures
            res == is_granted(old(self)@, (path@, on_disk)),
            final(self)@ == taken_after(old(self)@, (path@, on_disk)),
            final(search)@ == old(search)@.answered(res),
    {
        let granted = self.try_claim(path, on_disk);
        if granted {
            search.found = true;
        } else {
            search.attempt = search.attempt + 1;
        }
        granted
    }
}

/// Of the names that are tried in order, the first whose path is free is the
/// one that a file gets, and nothing but its path is taken.
pub proof fn law_first_free_name_is_found(
    stem: Option<Seq<char>>,
    ext: Option<Seq<char>>,
    taken: Set<Seq<char>>,
    claims: Seq<Claim>,
)
    ensures
        ({
            let (search, now) = SearchModel::start(stem, ext).after(taken, claims);
            let n = search.attempt as int;
            &&& search.stem == stem
            &&& search.ext == ext
            &&& n <= claims.len()
            &&& forall|j: int| 0 <= j < n ==> !is_granted(taken, #[trigger] claims[j])
            &&& search.found ==> n < claims.len() && is_granted(taken, claims[n]) && now
                == taken.insert(claims[n].0)
            &&& !search.found ==> n == claims.len() && now == taken
        }),
    decreases claims.len(),
{
    if claims.len() > 0 {
        let fewer = claims.drop_last();
        law_first_free_name_is_found(stem, ext, taken, fewer);
        let (search, now) = SearchModel::start(stem, ext).after(taken, fewer);
        assert forall|j: int| 0 <= j < fewer.len() implies #[trigger] claims[j] == fewer[j] by {}
        if search.found {
            assert(claims[search.attempt as int] == fewer[search.attempt as int]);
        } else {
            assert(claims[fewer.len() as int] == claims.last());
        }
    }
}

/// In a sorted list, `e` goes in front of everything that it comes before.
pub proof fn lemma_place_is_behind(order: Seq<int>, keys: Seq<Seq<Seq<char>>>, e: int)
    requires
        is_ordered(order, keys),
    ensures
        0 <= place_of(order, keys, e) <= order.len(),
        forall|i: int|
            place_of(order, keys, e) <= i < order.len() ==> path_before(
                keys[e],
                keys[#[trigger] order[i]],
            ),
{
    lemma_place_bounds(order, keys, e);
    lemma_place_splits(order, keys, e);
}

} // verus!
