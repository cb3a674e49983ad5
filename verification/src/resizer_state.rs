//! What the window shows about resizing.

use crate::batch::{CountUpdate, DiscoveredFile};
use crate::progress::{FileResult, FileStatus, ProgressMsg};
use crate::settings::{OutputMode, Settings};
use crate::sizes::{human_size, size_text};
use crate::text::{decimal, push_decimal, texts};
use vstd::hash_map::StringHashMap;
use vstd::prelude::*;

verus! {

/// The files in the list, and how far they have come.
pub struct ResizerState {
    pub discovered: Vec<DiscoveredFile>,
    pub status: StringHashMap<FileStatus>,
    pub log: Vec<String>,
    pub results: Vec<FileResult>,
    /// The files that failed, with their errors.
    pub errors: Vec<(String, String)>,
    pub running: bool,
    pub files_done: usize,
    /// How long the last batch took, once it is over.
    pub elapsed_millis: Option<u64>,
    /// Where in the list a path stands.
    pub count_index: StringHashMap<usize>,
    pub counting: bool,
}

/// The status of the first `n` files set to the same value.
pub open spec fn statuses_upto(
    start: Map<Seq<char>, FileStatus>,
    files: Seq<DiscoveredFile>,
    status: FileStatus,
    n: nat,
) -> Map<Seq<char>, FileStatus>
    decreases n,
{
    if n == 0 {
        start
    } else {
        statuses_upto(start, files, status, (n - 1) as nat).insert(files[n - 1].path@, status)
    }
}

/// Where the paths of the first `n` files stand; of equal paths, the last.
pub open spec fn index_upto(files: Seq<DiscoveredFile>, n: nat) -> Map<Seq<char>, usize>
    decreases n,
{
    if n == 0 {
        Map::empty()
    } else {
        index_upto(files, (n - 1) as nat).insert(files[n - 1].path@, (n - 1) as usize)
    }
}

/// The sizes of files, added up.
pub open spec fn total_size(files: Seq<DiscoveredFile>) -> nat
    decreases files.len(),
{
    if files.len() == 0 {
        0
    } else {
        total_size(files.drop_last()) + files.last().size as nat
    }
}

/// The sizes before and after, added up.
pub open spec fn total_change(results: Seq<FileResult>) -> (nat, nat)
    decreases results.len(),
{
    if results.len() == 0 {
        (0, 0)
    } else {
        let (old_size, new_size) = total_change(results.drop_last());
        (old_size + results.last().old_size as nat, new_size + results.last().new_size as nat)
    }
}

/// The lines of a log, each warning on one of its own.
pub open spec fn warning_lines(warnings: Seq<Seq<char>>) -> Seq<Seq<char>> {
    warnings.map_values(|w: Seq<char>| "  warning: "@ + w)
}

/// The line about a file that was dealt with.
pub open spec fn finished_line(
    name: Seq<char>,
    result: FileResult,
    percent: Seq<char>,
) -> Seq<char> {
    name + ": "@ + size_text(result.old_size) + " -> "@ + size_text(result.new_size) + " ("@
        + percent + "%) ["@ + decimal(result.textures_resized as nat) + "/"@ + decimal(
        result.textures_total as nat,
    ) + " textures resized]"@
}

/// The line about a file that failed.
pub open spec fn error_line(name: Seq<char>, error: Seq<char>) -> Seq<char> {
    name + ": ERROR - "@ + error
}

/// Adds a line for each warning.
pub(crate) fn push_warnings(log: &mut Vec<String>, warnings: &[String])
    ensures
        texts(final(log)@) == texts(old(log)@) + warning_lines(texts(warnings@)),
{
    let ghost start = texts(log@);
    let ghost lines = warning_lines(texts(warnings@));
    let mut i: usize = 0;
    proof {
        assert(start + lines.take(0) =~= start);
    }
    while i < warnings.len()
        invariant
            lines == warning_lines(texts(warnings@)),
            i <= warnings@.len(),
            texts(log@) == start + lines.take(i as int),
        decreases warnings@.len() - i,
    {
        let ghost before = log@;
        let mut line = String::new();
        line.append("  warning: ");
        line.append(warnings[i].as_str());
        let ghost text = line@;
        proof {
            assert(text =~= lines[i as int]);
        }
        log.push(line);
        proof {
            assert(texts(log@) =~= texts(before).push(text));
            assert(start + lines.take(i + 1) =~= (start + lines.take(i as int)).push(text));
        }
        i = i + 1;
    }
    proof {
        assert(lines.take(i as int) =~= lines);
    }
}

/// Adds a line.
pub(crate) fn push_log(log: &mut Vec<String>, line: String)
    ensures
        texts(final(log)@) == texts(old(log)@).push(line@),
{
    let ghost before = log@;
    let ghost text = line@;
    log.push(line);
    proof {
        assert(texts(log@) =~= texts(before).push(text));
    }
}

impl ResizerState {
    /// An empty list.
    pub fn new() -> (res: Self)
        ensures
            res.discovered@.len() == 0,
            res.status@ == Map::<Seq<char>, FileStatus>::empty(),
            res.log@.len() == 0,
            res.results@.len() == 0,
            res.errors@.len() == 0,
            !res.running,
            res.files_done == 0,
            res.elapsed_millis is None,
            res.count_index@ == Map::<Seq<char>, usize>::empty(),
            !res.counting,
    {
        ResizerState {
            discovered: Vec::new(),
            status: StringHashMap::new(),
            log: Vec::new(),
            results: Vec::new(),
            errors: Vec::new(),
            running: false,
            files_done: 0,
            elapsed_millis: None,
            count_index: StringHashMap::new(),
            counting: false,
        }
    }

    fn set_statuses(&mut self, status: FileStatus)
        ensures
            final(self).status@ == statuses_upto(
                old(self).status@,
                old(self).discovered@,
                status,
                old(self).discovered@.len(),
            ),
            final(self).discovered == old(self).discovered,
            final(self).log == old(self).log,
            final(self).results == old(self).results,
            final(self).errors == old(self).errors,
            final(self).running == old(self).running,
            final(self).files_done == old(self).files_done,
            final(self).elapsed_millis == old(self).elapsed_millis,
            final(self).count_index == old(self).count_index,
            final(self).counting == old(self).counting,
    {
        let mut i: usize = 0;
        while i < self.discovered.len()
            invariant
                i <= self.discovered@.len(),
                self.status@ == statuses_upto(
                    old(self).status@,
                    old(self).discovered@,
                    status,
                    i as nat,
                ),
                self.discovered == old(self).discovered,
                self.log == old(self).log,
                self.results == old(self).results,
                self.errors == old(self).errors,
                self.running == old(self).running,
                self.files_done == old(self).files_done,
                self.elapsed_millis == old(self).elapsed_millis,
                self.count_index == old(self).count_index,
                self.counting == old(self).counting,
            decreases self.discovered@.len() - i,
        {
            let path = self.discovered[i].path.clone();
            self.status.insert(path, status);
            i = i + 1;
        }
    }

    /// Shows other files: all are pending, and their textures are about to be
    /// counted.
    pub fn show_files(&mut self, files: Vec<DiscoveredFile>)
        ensures
            final(self).discovered == files,
            final(self).status@ == statuses_upto(
                Map::empty(),
                files@,
                FileStatus::Pending,
                files@.len(),
            ),
            final(self).count_index@ == index_upto(files@, files@.len()),
            final(self).counting,
            final(self).log == old(self).log,
            final(self).results == old(self).results,
            final(self).errors == old(self).errors,
            final(self).running == old(self).running,
            final(self).files_done == old(self).files_done,
            final(self).elapsed_millis == old(self).elapsed_millis,
    {
        self.discovered = files;
        self.status.clear();
        self.set_statuses(FileStatus::Pending);
        let ghost shown = *self;
        self.count_index.clear();
        let mut i: usize = 0;
        while i < self.discovered.len()
            invariant
                i <= self.discovered@.len(),
                self.count_index@ == index_upto(self.discovered@, i as nat),
                self.discovered == shown.discovered,
                self.status == shown.status,
                self.log == shown.log,
                self.results == shown.results,
                self.errors == shown.errors,
                self.running == shown.running,
                self.files_done == shown.files_done,
                self.elapsed_millis == shown.elapsed_millis,
            decreases self.discovered@.len() - i,
        {
            let path = self.discovered[i].path.clone();
            self.count_index.insert(path, i);
            i = i + 1;
        }
        self.counting = true;
    }

    /// Takes note of how many textures a file has, if it is still in the list.
    pub fn apply_count(&mut self, update: CountUpdate)
        ensures
            final(self).discovered@ == match old(self).count_index@.contains_key(update.path@) {
                true => {
                    let i = old(self).count_index@[update.path@] as int;
                    if i < old(self).discovered@.len() {
                        old(self).discovered@.update(
                            i,
                            DiscoveredFile {
                                texture_count: update.texture_count,
                                parse_error: update.parse_error,
                                ..old(self).discovered@[i]
                            },
                        )
                    } else {
                        old(self).discovered@
                    }
                },
                false => old(self).discovered@,
            },
            final(self).status == old(self).status,
            final(self).log == old(self).log,
            final(self).results == old(self).results,
            final(self).errors == old(self).errors,
            final(self).running == old(self).running,
            final(self).files_done == old(self).files_done,
            final(self).elapsed_millis == old(self).elapsed_millis,
            final(self).count_index == old(self).count_index,
            final(self).counting == old(self).counting,
    {
        let at: Option<usize> = match self.count_index.get(update.path.as_str()) {
            Some(i) => Some(*i),
            None => None,
        };
        if let Some(i) = at {
            if i < self.discovered.len() {
                self.discovered[i].texture_count = update.texture_count;
                self.discovered[i].parse_error = update.parse_error;
            }
        }
    }

    /// Takes note of the end of the count.
    pub fn end_count(&mut self)
        ensures
            *final(self) == (ResizerState { counting: false, ..*old(self) }),
    {
        self.counting = false;
    }

    /// The sizes of all files, added up.
    pub fn total_current_size(&self) -> (res: Option<u64>)
        ensures
            match res {
                Some(total) => total == total_size(self.discovered@),
                None => total_size(self.discovered@) > u64::MAX,
            },
    {
        let mut total: u64 = 0;
        let mut i: usize = 0;
        proof {
            assert(self.discovered@.take(0).len() == 0);
        }
        while i < self.discovered.len()
            invariant
                i <= self.discovered@.len(),
                total == total_size(self.discovered@.take(i as int)),
            decreases self.discovered@.len() - i,
        {
            let size: u64 = self.discovered[i].size;
            proof {
                let s = self.discovered@;
                assert(s.take(i + 1).drop_last() =~= s.take(i as int));
                assert(s.take(i + 1).last() == s[i as int]);
                lemma_total_grows(s, i + 1);
            }
            match total.checked_add(size) {
                Some(sum) => {
                    total = sum;
                },
                None => {
                    return None;
                },
            }
            i = i + 1;
        }
        proof {
            assert(self.discovered@.take(i as int) =~= self.discovered@);
        }
        Some(total)
    }

    /// Starts a batch with all files in the list.
    pub fn start_batch(&mut self)
        ensures
            final(self).discovered == old(self).discovered,
            final(self).status@ == statuses_upto(
                old(self).status@,
                old(self).discovered@,
                FileStatus::Processing,
                old(self).discovered@.len(),
            ),
            final(self).log@.len() == 0,
            final(self).results@.len() == 0,
            final(self).errors@.len() == 0,
            final(self).running,
            final(self).files_done == 0,
            final(self).elapsed_millis is None,
            final(self).count_index == old(self).count_index,
            final(self).counting == old(self).counting,
    {
        self.set_statuses(FileStatus::Processing);
        self.results = Vec::new();
        self.errors = Vec::new();
        self.log = Vec::new();
        self.files_done = 0;
        self.elapsed_millis = None;
        self.running = true;
    }

    /// Empties the list.
    pub fn clear(&mut self)
        ensures
            final(self).discovered@.len() == 0,
            final(self).status@ == Map::<Seq<char>, FileStatus>::empty(),
            final(self).log@.len() == 0,
            final(self).results@.len() == 0,
            final(self).errors@.len() == 0,
            final(self).running == old(self).running,
            final(self).files_done == 0,
            final(self).elapsed_millis is None,
            final(self).count_index@ == Map::<Seq<char>, usize>::empty(),
            !final(self).counting,
    {
        let running = self.running;
        *self = ResizerState::new();
        self.running = running;
    }

    /// Takes note of a message of the running batch. `name` is the file name
    /// that is shown, and `percent` how much smaller the file became.
    pub fn apply_progress(&mut self, msg: ProgressMsg, name: &str, percent: &str)
        requires
            old(self).files_done < usize::MAX,
        ensures
            final(self).discovered == old(self).discovered,
            final(self).count_index == old(self).count_index,
            final(self).counting == old(self).counting,
            match msg {
                ProgressMsg::FileStarted { path } => {
                    &&& final(self).status@ == old(self).status@.insert(
                        path@,
                        FileStatus::Processing,
                    )
                    &&& final(self).files_done == old(self).files_done
                    &&& final(self).log == old(self).log
                    &&& final(self).results == old(self).results
                    &&& final(self).errors == old(self).errors
                    &&& final(self).running == old(self).running
                    &&& final(self).elapsed_millis == old(self).elapsed_millis
                },
                ProgressMsg::FileFinished { result } => {
                    &&& final(self).status@ == old(self).status@.insert(
                        result.path@,
                        FileStatus::Done,
                    )
                    &&& final(self).files_done == old(self).files_done + 1
                    &&& texts(final(self).log@) == texts(old(self).log@).push(
                        finished_line(name@, result, percent@),
                    ) + warning_lines(texts(result.warnings@))
                    &&& final(self).results@ == old(self).results@.push(result)
                    &&& final(self).errors == old(self).errors
                    &&& final(self).running == old(self).running
                    &&& final(self).elapsed_millis == old(self).elapsed_millis
                },
                ProgressMsg::FileErrored { path, error } => {
                    &&& final(self).status@ == old(self).status@.insert(path@, FileStatus::Error)
                    &&& final(self).files_done == old(self).files_done + 1
                    &&& texts(final(self).log@) == texts(old(self).log@).push(
                        error_line(name@, error@),
                    )
                    &&& final(self).results == old(self).results
                    &&& final(self).errors@ == old(self).errors@.push((path, error))
                    &&& final(self).running == old(self).running
                    &&& final(self).elapsed_millis == old(self).elapsed_millis
                },
                ProgressMsg::BatchFinished { elapsed_millis } => {
                    &&& final(self).status == old(self).status
                    &&& final(self).files_done == old(self).files_done
                    &&& final(self).log == old(self).log
                    &&& final(self).results == old(self).results
                    &&& final(self).errors == old(self).errors
                    &&& !final(self).running
                    &&& final(self).elapsed_millis == Some(elapsed_millis)
                },
            },
    {
        match msg {
            ProgressMsg::FileStarted { path } => {
                self.status.insert(path, FileStatus::Processing);
            },
            ProgressMsg::FileFinished { result } => {
                self.status.insert(result.path.clone(), FileStatus::Done);
                self.files_done = self.files_done + 1;
                let mut line = String::new();
                line.append(name);
                line.append(": ");
                line.append(human_size(result.old_size).as_str());
                line.append(" -> ");
                line.append(human_size(result.new_size).as_str());
                line.append(" (");
                line.append(percent);
                line.append("%) [");
                push_decimal(&mut line, result.textures_resized as u64);
                line.append("/");
                push_decimal(&mut line, result.textures_total as u64);
                line.append(" textures resized]");
                proof {
                    assert(line@ =~= finished_line(name@, result, percent@));
                }
                push_log(&mut self.log, line);
                push_warnings(&mut self.log, result.warnings.as_slice());
                self.results.push(result);
            },
            ProgressMsg::FileErrored { path, error } => {
                self.status.insert(path.clone(), FileStatus::Error);
                self.files_done = self.files_done + 1;
                let mut line = String::new();
                line.append(name);
                line.append(": ERROR - ");
                line.append(error.as_str());
                proof {
                    assert(line@ =~= error_line(name@, error@));
                }
                push_log(&mut self.log, line);
                self.errors.push((path, error));
            },
            ProgressMsg::BatchFinished { elapsed_millis } => {
                self.running = false;
                self.elapsed_millis = Some(elapsed_millis);
            },
        }
    }

    /// How far a file has come; one that is not known is pending.
    pub fn status_of(&self, path: &str) -> (res: FileStatus)
        ensures
            res == if self.status@.contains_key(path@) {
                self.status@[path@]
            } else {
                FileStatus::Pending
            },
    {
        match self.status.get(path) {
            Some(s) => *s,
            None => FileStatus::Pending,
        }
    }

    /// Whether a batch can be started: there are files, none is running, and
    /// there is a place to write to if anything is written.
    pub fn can_start(&self, settings: &Settings) -> (res: bool)
        ensures
            res == (self.discovered@.len() > 0 && !self.running && (settings.dry_run
                || settings.output_mode is OverwriteInPlace || settings.output_folder is Some)),
    {
        let in_place = match settings.output_mode {
            OutputMode::OverwriteInPlace { .. } => true,
            OutputMode::SeparateFolder => false,
        };
        self.discovered.len() > 0 && !self.running && (settings.dry_run || in_place
            || settings.output_folder.is_some())
    }

    /// Whether there is anything to clear.
    pub fn has_data(&self, settings: &Settings) -> (res: bool)
        ensures
            res == (self.discovered@.len() > 0 || self.log@.len() > 0 || self.results@.len() > 0
                || self.errors@.len() > 0 || settings.output_folder is Some),
    {
        self.discovered.len() > 0 || self.log.len() > 0 || self.results.len() > 0
            || self.errors.len() > 0 || settings.output_folder.is_some()
    }

    /// The sizes of all results before and after, added up.
    pub fn totals(&self) -> (res: Option<(u64, u64)>)
        ensures
            match res {
                Some((old_size, new_size)) => (old_size as nat, new_size as nat) == total_change(
                    self.results@,
                ),
                None => {
                    let (old_size, new_size) = total_change(self.results@);
                    old_size > u64::MAX || new_size > u64::MAX
                },
            },
    {
        let mut old_size: u64 = 0;
        let mut new_size: u64 = 0;
        let mut i: usize = 0;
        proof {
            assert(self.results@.take(0).len() == 0);
        }
        while i < self.results.len()
            invariant
                i <= self.results@.len(),
                (old_size as nat, new_size as nat) == total_change(self.results@.take(i as int)),
            decreases self.results@.len() - i,
        {
            proof {
                let s = self.results@;
                assert(s.take(i + 1).drop_last() =~= s.take(i as int));
                assert(s.take(i + 1).last() == s[i as int]);
                lemma_change_grows(s, i + 1);
            }
            match (
                old_size.checked_add(self.results[i].old_size),
                new_size.checked_add(self.results[i].new_size),
            ) {
                (Some(a), Some(b)) => {
                    old_size = a;
                    new_size = b;
                },
                _ => {
                    return None;
                },
            }
            i = i + 1;
        }
        proof {
            assert(self.results@.take(i as int) =~= self.results@);
        }
        Some((old_size, new_size))
    }
}

/// How much smaller the files became in all; nothing if they grew.
pub fn saved_bytes(old_size: u64, new_size: u64) -> (res: u64)
    ensures
        res == if old_size > new_size {
            old_size - new_size
        } else {
            0
        },
{
    if old_size > new_size {
        old_size - new_size
    } else {
        0
    }
}

/// What a side of 2048 is scaled to, as an example, rounded half up and cut
/// off at 32 bits.
pub fn percent_example(percent: u32) -> (res: u32)
    ensures
        res == if (4096 * percent + 100) / 200 > u32::MAX {
            u32::MAX as int
        } else {
            (4096 * percent + 100) / 200
        },
{
    let side: u64 = (4096 * percent as u64 + 100) / 200;
    if side > u32::MAX as u64 {
        u32::MAX
    } else {
        side as u32
    }
}

proof fn lemma_total_grows(files: Seq<DiscoveredFile>, n: int)
    requires
        0 <= n <= files.len(),
    ensures
        total_size(files.take(n)) <= total_size(files),
    decreases files.len() - n,
{
    if n == files.len() {
        assert(files.take(n) =~= files);
    } else {
        lemma_total_grows(files, n + 1);
        assert(files.take(n + 1).drop_last() =~= files.take(n));
    }
}

proof fn lemma_change_grows(results: Seq<FileResult>, n: int)
    requires
        0 <= n <= results.len(),
    ensures
        total_change(results.take(n)).0 <= total_change(results).0,
        total_change(results.take(n)).1 <= total_change(results).1,
    decreases results.len() - n,
{
    if n == results.len() {
        assert(results.take(n) =~= results);
    } else {
        lemma_change_grows(results, n + 1);
        assert(results.take(n + 1).drop_last() =~= results.take(n));
    }
}

/// In a list without repeated paths, news about a file reach exactly that
/// file.
pub proof fn law_counts_reach_their_file(files: Seq<DiscoveredFile>, n: nat, i: int)
    requires
        0 <= i < n <= files.len(),
        files.len() <= usize::MAX,
        forall|a: int, b: int|
            0 <= a < b < files.len() ==> (#[trigger] files[a]).path@ != (
            #[trigger] files[b]).path@,
    ensures
        index_upto(files, n).contains_key(files[i].path@),
        index_upto(files, n)[files[i].path@] == i,
    decreases n,
{
    if i < n - 1 {
        law_counts_reach_their_file(files, (n - 1) as nat, i);
        assert(files[i].path@ != files[n - 1].path@);
    }
}

} // verus!
