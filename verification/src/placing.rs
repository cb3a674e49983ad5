//! Finding the files of a pack their names in the output folder.

use crate::names::{
    borrow_text, collide_name, collision_name, label_pack, name_extension, name_stem, opt_string,
    pack_label, split_name,
};
use crate::squisher::PackFile;
use vstd::prelude::*;

verus! {

/// A file of a pack and the name that it gets, its own where none is given.
pub struct PlacedModel {
    pub index: int,
    pub name: Option<Seq<char>>,
}

/// A file of a pack and the name that it gets, its own where none is given.
pub struct Placed {
    pub index: usize,
    pub name: Option<String>,
}

impl View for Placed {
    type V = PlacedModel;

    open spec fn view(&self) -> PlacedModel {
        PlacedModel { index: self.index as int, name: opt_string(self.name) }
    }
}

/// The values of a list of placed files.
pub open spec fn placed_models(list: Seq<Placed>) -> Seq<PlacedModel> {
    list.map_values(|p: Placed| p@)
}

/// The characters of a list of optional texts.
pub open spec fn opt_texts(list: Seq<Option<String>>) -> Seq<Option<Seq<char>>> {
    list.map_values(|t: Option<String>| opt_string(t))
}

/// What the output folder holds under a name.
pub enum Found {
    /// Nothing.
    Free,
    /// A file with the same contents.
    Same,
    /// A file with other contents.
    Other,
    /// A file that could not be compared.
    Failed { error: String },
}

/// How far the naming of a pack's files has come.
pub struct RunModel {
    pub pack_num: nat,
    /// The files with the names that they are to have, the assets first.
    pub items: Seq<PlacedModel>,
    /// The line that tells of a file's new number, if it got one.
    pub logs: Seq<Option<Seq<char>>>,
    /// How many of the files are assets.
    pub assets: nat,
    /// How many of the files are settled.
    pub at: nat,
    /// The attempt at renaming the next file, if its name was taken.
    pub attempt: Option<nat>,
    /// The files that are to be written.
    pub queue: Seq<PlacedModel>,
}

/// The stem of a file under the given name.
pub open spec fn stem_of(file: PackFile, name: Option<Seq<char>>) -> Option<Seq<char>> {
    match name {
        Some(n) => Some(name_stem(n)),
        None => opt_string(file.stem),
    }
}

/// The extension of a file under the given name.
pub open spec fn extension_of(file: PackFile, name: Option<Seq<char>>) -> Option<Seq<char>> {
    match name {
        Some(n) => name_extension(n),
        None => opt_string(file.ext),
    }
}

/// What is to become of the name that was asked about.
pub enum Outcome {
    /// Another name is tried.
    Retry,
    /// The file is written under the name that it was to have.
    Kept,
    /// The file is written under another name.
    Renamed { name: Seq<char> },
    /// The file is there already.
    Dropped,
    /// The file is left out.
    Failed { error: Seq<char> },
}

impl RunModel {
    /// The start of a pack.
    pub open spec fn start(
        pack_num: nat,
        items: Seq<PlacedModel>,
        logs: Seq<Option<Seq<char>>>,
        assets: nat,
    ) -> RunModel {
        RunModel { pack_num, items, logs, assets, at: 0, attempt: None, queue: Seq::empty() }
    }

    /// Whether all files are settled.
    pub open spec fn is_done(self) -> bool {
        self.at >= self.items.len()
    }

    /// The file and the name that are asked about next.
    pub open spec fn candidate(self, files: Seq<PackFile>) -> PlacedModel {
        let item = self.items[self.at as int];
        let file = files[item.index];
        match self.attempt {
            None => item,
            Some(n) => PlacedModel {
                index: item.index,
                name: Some(
                    collision_name(
                        stem_of(file, item.name),
                        extension_of(file, item.name),
                        pack_label(self.pack_num),
                        n,
                    ),
                ),
            },
        }
    }

    /// What becomes of the name that was asked about.
    pub open spec fn outcome(self, files: Seq<PackFile>, found: Found) -> Outcome {
        match self.attempt {
            None => match found {
                Found::Free => Outcome::Kept,
                Found::Same => Outcome::Dropped,
                Found::Other => Outcome::Retry,
                Found::Failed { error } => Outcome::Failed { error: error@ },
            },
            Some(_) => match found {
                Found::Free => Outcome::Renamed { name: self.candidate(files).name->0 },
                _ => Outcome::Retry,
            },
        }
    }

    /// The state after what was found is known.
    pub open spec fn answered(self, files: Seq<PackFile>, found: Found) -> RunModel {
        if self.is_done() {
            self
        } else {
            match self.outcome(files, found) {
                Outcome::Retry => RunModel {
                    attempt: Some(
                        match self.attempt {
                            None => 0,
                            Some(n) => n + 1,
                        },
                    ),
                    ..self
                },
                Outcome::Kept | Outcome::Renamed { .. } => RunModel {
                    at: self.at + 1,
                    attempt: None,
                    queue: self.queue.push(self.candidate(files)),
                    ..self
                },
                Outcome::Dropped | Outcome::Failed { .. } => RunModel {
                    at: self.at + 1,
                    attempt: None,
                    ..self
                },
            }
        }
    }

    /// The state after the given findings.
    pub open spec fn after(self, files: Seq<PackFile>, findings: Seq<Found>) -> RunModel
        decreases findings.len(),
    {
        if findings.len() == 0 {
            self
        } else {
            self.after(files, findings.drop_last()).answered(files, findings.last())
        }
    }
}

/// The naming of a pack's files.
pub struct PackRun {
    pack_num: usize,
    label: String,
    items: Vec<Placed>,
    logs: Vec<Option<String>>,
    assets: usize,
    at: usize,
    attempt: Option<u32>,
    queue: Vec<Placed>,
}

impl View for PackRun {
    type V = RunModel;

    closed spec fn view(&self) -> RunModel {
        RunModel {
            pack_num: self.pack_num as nat,
            items: placed_models(self.items@),
            logs: opt_texts(self.logs@),
            assets: self.assets as nat,
            at: self.at as nat,
            attempt: match self.attempt {
                Some(n) => Some(n as nat),
                None => None,
            },
            queue: placed_models(self.queue@),
        }
    }
}

/// A question about the output folder: what does it hold under this name?
pub struct Question {
    /// The file and the name.
    pub placed: Placed,
    /// A line to be logged before.
    pub log: Option<String>,
}

/// A copy of an optional text.
pub fn copy_text(t: &Option<String>) -> (res: Option<String>)
    ensures
        opt_string(res) == opt_string(*t),
{
    match t {
        Some(s) => Some(s.as_str().to_owned()),
        None => None,
    }
}

impl PackRun {
    /// The items are files of the pack.
    pub closed spec fn wf(&self, file_count: nat) -> bool {
        &&& self.label@ == pack_label(self.pack_num as nat)
        &&& self.logs@.len() == self.items@.len()
        &&& self.at <= self.items.len()
        &&& forall|i: int| 0 <= i < self.items@.len() ==> (#[trigger] self.items@[i]).index < file_count
    }

    /// Starts the naming of a pack's files.
    pub fn new(
        pack_num: usize,
        items: Vec<Placed>,
        logs: Vec<Option<String>>,
        assets: usize,
        file_count: usize,
    ) -> (res: Self)
        requires
            logs@.len() == items@.len(),
            forall|i: int| 0 <= i < items@.len() ==> (#[trigger] items@[i]).index < file_count,
        ensures
            res.wf(file_count as nat),
            res@ == RunModel::start(
                pack_num as nat,
                placed_models(items@),
                opt_texts(logs@),
                assets as nat,
            ),
    {
        let res = PackRun {
            pack_num,
            label: label_pack(pack_num),
            items,
            logs,
            assets,
            at: 0,
            attempt: None,
            queue: Vec::new(),
        };
        proof {
            assert(placed_models(res.queue@) =~= Seq::<PlacedModel>::empty());
        }
        res
    }

    /// Whether an answer can be taken in: not all files are settled, and there
    /// is another number for the name.
    pub fn is_waiting(&self) -> (res: bool)
        ensures
            res == (!self@.is_done() && self@.attempt != Some(u32::MAX as nat)),
    {
        self.at < self.items.len() && match self.attempt {
            Some(n) => n < u32::MAX,
            None => true,
        }
    }

    /// The number of the pack.
    pub fn pack_num(&self) -> (res: usize)
        ensures
            res == self@.pack_num,
    {
        self.pack_num
    }

    /// Whether the next file is an asset whose name is asked about for the
    /// first time, and if so, whether it got a new number.
    pub(crate) fn new_asset(&self) -> (res: Option<bool>)
        requires
            !self@.is_done(),
        ensures
            res is Some <==> self@.attempt is None && self@.at < self@.assets,
            res matches Some(renumbered) ==> renumbered == (self@.items[self@.at as int].name
                is Some),
    {
        if self.attempt.is_none() && self.at < self.assets {
            Some(self.items[self.at].name.is_some())
        } else {
            None
        }
    }

    /// Whether the next file is an asset.
    pub(crate) fn is_asset(&self) -> (res: bool)
        ensures
            res == (self@.at < self@.assets),
    {
        self.at < self.assets
    }

    /// The next file.
    pub(crate) fn next_file<'a>(&self, files: &'a [PackFile]) -> (res: &'a PackFile)
        requires
            self.wf(files@.len()),
            !self@.is_done(),
        ensures
            *res == files@[self@.items[self@.at as int].index],
    {
        &files[self.items[self.at].index]
    }

    /// Whether the name that the next file is to have is asked about.
    pub(crate) fn is_first(&self) -> (res: bool)
        ensures
            res == (self@.attempt is None),
    {
        self.attempt.is_none()
    }

    /// The other name under which the next file is written, where what was
    /// found leads to one.
    pub(crate) fn new_name(&self, files: &[PackFile], found: &Found) -> (res: Option<String>)
        requires
            self.wf(files@.len()),
            !self@.is_done(),
        ensures
            match res {
                Some(name) => self@.outcome(files@, *found) == (Outcome::Renamed { name: name@ }),
                None => !(self@.outcome(files@, *found) is Renamed),
            },
    {
        match (self.attempt, found) {
            (Some(_), Found::Free) => self.current(files).name,
            _ => None,
        }
    }

    /// The file and the name that are asked about next.
    fn current(&self, files: &[PackFile]) -> (res: Placed)
        requires
            self.wf(files@.len()),
            !self@.is_done(),
        ensures
            res@ == self@.candidate(files@),
    {
        let item = &self.items[self.at];
        let file = &files[item.index];
        match self.attempt {
            None => Placed { index: item.index, name: copy_text(&item.name) },
            Some(n) => {
                let (stem, ext) = match &item.name {
                    Some(name) => {
                        let (stem, ext) = split_name(name.as_str());
                        (Some(stem), ext)
                    },
                    None => (copy_text(&file.stem), copy_text(&file.ext)),
                };
                let name = collide_name(
                    borrow_text(&stem),
                    borrow_text(&ext),
                    self.label.as_str(),
                    n,
                );
                Placed { index: item.index, name: Some(name) }
            },
        }
    }

    /// What is to be looked up in the output folder next, until all files are
    /// settled.
    pub fn question(&self, files: &[PackFile]) -> (res: Option<Question>)
        requires
            self.wf(files@.len()),
        ensures
            res is None <==> self@.is_done(),
            res matches Some(q) ==> q.placed@ == self@.candidate(files@) && opt_string(q.log)
                == if self@.attempt is None {
                self@.logs[self@.at as int]
            } else {
                None
            },
    {
        if self.at >= self.items.len() {
            return None;
        }
        let log = if self.attempt.is_none() {
            copy_text(&self.logs[self.at])
        } else {
            None
        };
        Some(Question { placed: self.current(files), log })
    }

    /// Takes in what was found.
    pub(crate) fn answer(&mut self, files: &[PackFile], found: &Found)
        requires
            old(self).wf(files@.len()),
            !old(self)@.is_done(),
            old(self)@.attempt != Some(u32::MAX as nat),
        ensures
            final(self).wf(files@.len()),
            final(self)@ == old(self)@.answered(files@, *found),
    {
        let is_free = match found {
            Found::Free => true,
            _ => false,
        };
        let is_retry = match (self.attempt, found) {
            (None, Found::Other) => true,
            (None, _) => false,
            (Some(_), _) => !is_free,
        };
        if is_retry {
            self.attempt = match self.attempt {
                None => Some(0),
                Some(n) => Some(n + 1),
            };
        } else {
            if is_free {
                let placed = self.current(files);
                let ghost model = placed@;
                let ghost before = self.queue@;
                self.queue.push(placed);
                proof {
                    assert(placed_models(self.queue@) =~= placed_models(before).push(model));
                }
            }
            self.at = self.at + 1;
            self.attempt = None;
        }
    }

    /// The files that are to be written, and their names.
    pub fn into_queue(self) -> (res: Vec<Placed>)
        ensures
            placed_models(res@) == self@.queue,
    {
        self.queue
    }
}

// ---------------------------------------------------------------------------
// What holds of the names
// ---------------------------------------------------------------------------

/// What does not change while the files of a pack get their names.
proof fn lemma_run_is_kept(start: RunModel, files: Seq<PackFile>, findings: Seq<Found>)
    ensures
        start.after(files, findings).items == start.items,
        start.after(files, findings).pack_num == start.pack_num,
    decreases findings.len(),
{
    if findings.len() > 0 {
        lemma_run_is_kept(start, files, findings.drop_last());
    }
}

/// Whether the `k`-th finding was that a name is free.
pub open spec fn was_free(
    start: RunModel,
    files: Seq<PackFile>,
    findings: Seq<Found>,
    k: int,
    placed: PlacedModel,
) -> bool {
    let before = start.after(files, findings.take(k));
    &&& !before.is_done()
    &&& before.candidate(files) == placed
    &&& findings[k] is Free
}

/// A file is only ever written under a name that the output folder was found
/// not to hold: no file that is there already is overwritten.
pub proof fn law_nothing_is_overwritten(
    start: RunModel,
    files: Seq<PackFile>,
    findings: Seq<Found>,
    j: int,
)
    requires
        start.queue.len() == 0,
        0 <= j < start.after(files, findings).queue.len(),
    ensures
        exists|k: int|
            0 <= k < findings.len() && #[trigger] was_free(
                start,
                files,
                findings,
                k,
                start.after(files, findings).queue[j],
            ),
    decreases findings.len(),
{
    let end = start.after(files, findings);
    if findings.len() > 0 {
        let fewer = findings.drop_last();
        let before = start.after(files, fewer);
        let last = findings.len() - 1;
        assert(findings.take(last) =~= fewer);
        if j < before.queue.len() {
            law_nothing_is_overwritten(start, files, fewer, j);
            let k = choose|k: int|
                0 <= k < fewer.len() && #[trigger] was_free(
                    start,
                    files,
                    fewer,
                    k,
                    before.queue[j],
                );
            assert(findings.take(k) =~= fewer.take(k));
            assert(was_free(start, files, findings, k, end.queue[j]));
        } else {
            assert(was_free(start, files, findings, last, end.queue[j]));
        }
    }
}

/// Whether the `k`-th finding was that the `i`-th file is there already, or
/// cannot be compared with the one that is.
pub open spec fn was_left_out(
    start: RunModel,
    files: Seq<PackFile>,
    findings: Seq<Found>,
    k: int,
    i: int,
) -> bool {
    let before = start.after(files, findings.take(k));
    &&& before.at == i
    &&& before.attempt is None
    &&& findings[k] is Same || findings[k] is Failed
}

/// Whether the `i`-th file is in the queue, or was left out.
pub open spec fn is_settled(
    start: RunModel,
    files: Seq<PackFile>,
    findings: Seq<Found>,
    i: int,
) -> bool {
    let queue = start.after(files, findings).queue;
    ||| exists|j: int| 0 <= j < queue.len() && (#[trigger] queue[j]).index == start.items[i].index
    ||| exists|k: int|
        0 <= k < findings.len() && #[trigger] was_left_out(start, files, findings, k, i)
}

/// A file that is settled is queued, unless the name that it was to have was
/// found to hold the same contents, or the comparison failed.
pub proof fn law_settled_files_are_queued(
    start: RunModel,
    files: Seq<PackFile>,
    findings: Seq<Found>,
    i: int,
)
    requires
        start.at == 0,
        0 <= i < start.after(files, findings).at,
    ensures
        is_settled(start, files, findings, i),
    decreases findings.len(),
{
    if findings.len() > 0 {
        let fewer = findings.drop_last();
        let before = start.after(files, fewer);
        let end = start.after(files, findings);
        let last = findings.len() - 1;
        lemma_run_is_kept(start, files, fewer);
        assert(findings.take(last) =~= fewer);
        if i < before.at {
            law_settled_files_are_queued(start, files, fewer, i);
            if exists|j: int|
                0 <= j < before.queue.len() && (#[trigger] before.queue[j]).index
                    == start.items[i].index {
                let j = choose|j: int|
                    0 <= j < before.queue.len() && (#[trigger] before.queue[j]).index
                        == start.items[i].index;
                assert(end.queue[j] == before.queue[j]);
            } else {
                let k = choose|k: int|
                    0 <= k < fewer.len() && #[trigger] was_left_out(start, files, fewer, k, i);
                assert(findings.take(k) =~= fewer.take(k));
                assert(was_left_out(start, files, findings, k, i));
            }
        } else {
            assert(before.at == i);
            if end.queue.len() > before.queue.len() {
                assert(end.queue[end.queue.len() - 1].index == start.items[i].index);
            } else {
                assert(was_left_out(start, files, findings, last, i));
            }
        }
    }
}

} // verus!
