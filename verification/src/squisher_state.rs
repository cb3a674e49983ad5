//! What the window shows about merging packs.

use crate::merge::MergeReport;
use crate::resizer_state::{push_log, push_warnings, warning_lines};
use crate::text::{decimal, push_decimal, texts};
use vstd::prelude::*;

verus! {

/// A message of a running merge.
pub enum SquishMsg {
    Log(String),
    Progress { done: usize, total: usize },
    Done(Result<MergeReport, String>),
}

/// The packs that are to be merged, and how far the merge has come.
pub struct SquisherState {
    pub packs: Vec<String>,
    pub output: Option<String>,
    pub output_not_empty: bool,
    pub also_resize: bool,
    pub running: bool,
    pub log: Vec<String>,
    pub report: Option<MergeReport>,
    /// How many of how many files are done.
    pub progress: (usize, usize),
    /// The warnings that the user has to accept before the merge starts.
    pub pending_overflow: Vec<String>,
}

/// The line at the end of a merge.
pub open spec fn done_line(report: MergeReport) -> Seq<char> {
    "done: "@ + decimal(report.assets_copied as nat) + " assets copied, "@ + decimal(
        report.assets_renumbered as nat,
    ) + " renumbered, "@ + decimal(report.other_files_copied as nat) + " other files copied, "@
        + decimal(report.warnings@.len()) + " warnings"@
}

impl SquisherState {
    /// No packs.
    pub open spec fn is_new(self) -> bool {
        &&& self.packs@.len() == 0
        &&& self.output is None
        &&& !self.output_not_empty
        &&& !self.also_resize
        &&& !self.running
        &&& self.log@.len() == 0
        &&& self.report is None
        &&& self.progress == (0usize, 0usize)
        &&& self.pending_overflow@.len() == 0
    }

    /// Whether there are enough packs and a place to merge them to.
    pub open spec fn is_ready(self) -> bool {
        self.output is Some && self.packs@.len() >= 2
    }

    /// No packs.
    pub fn new() -> (res: Self)
        ensures
            res.is_new(),
    {
        SquisherState {
            packs: Vec::new(),
            output: None,
            output_not_empty: false,
            also_resize: false,
            running: false,
            log: Vec::new(),
            report: None,
            progress: (0, 0),
            pending_overflow: Vec::new(),
        }
    }

    /// Forgets everything.
    pub fn clear(&mut self)
        ensures
            final(self).is_new(),
    {
        *self = SquisherState::new();
    }

    /// Chooses the output folder.
    pub fn set_output(&mut self, dir: String, not_empty: bool)
        ensures
            *final(self) == (SquisherState {
                output: Some(dir),
                output_not_empty: not_empty,
                ..*old(self)
            }),
    {
        self.output_not_empty = not_empty;
        self.output = Some(dir);
    }

    /// Starts the merge if everything is there, and tells whether it starts.
    pub fn start_squish_now(&mut self) -> (res: bool)
        ensures
            res == old(self).is_ready(),
            final(self).pending_overflow@.len() == 0,
            final(self).packs == old(self).packs,
            final(self).output == old(self).output,
            final(self).output_not_empty == old(self).output_not_empty,
            final(self).also_resize == old(self).also_resize,
            res ==> {
                &&& final(self).running
                &&& final(self).log@.len() == 0
                &&& final(self).report is None
                &&& final(self).progress == (0usize, 0usize)
            },
            !res ==> {
                &&& final(self).running == old(self).running
                &&& final(self).log == old(self).log
                &&& final(self).report == old(self).report
                &&& final(self).progress == old(self).progress
            },
    {
        self.pending_overflow = Vec::new();
        if self.output.is_none() || self.packs.len() < 2 {
            return false;
        }
        self.log = Vec::new();
        self.report = None;
        self.progress = (0, 0);
        self.running = true;
        true
    }

    /// Starts the merge, unless there are warnings that the user has to accept
    /// first; tells whether it starts.
    pub fn start_squish(&mut self, warnings: Vec<String>) -> (res: bool)
        ensures
            res == (old(self).is_ready() && warnings@.len() == 0),
            final(self).packs == old(self).packs,
            final(self).output == old(self).output,
            final(self).output_not_empty == old(self).output_not_empty,
            final(self).also_resize == old(self).also_resize,
            res ==> {
                &&& final(self).running
                &&& final(self).log@.len() == 0
                &&& final(self).report is None
                &&& final(self).progress == (0usize, 0usize)
                &&& final(self).pending_overflow@.len() == 0
            },
            !res ==> {
                &&& final(self).running == old(self).running
                &&& final(self).log == old(self).log
                &&& final(self).report == old(self).report
                &&& final(self).progress == old(self).progress
                &&& final(self).pending_overflow == if old(self).is_ready() {
                    warnings
                } else {
                    old(self).pending_overflow
                }
            },
    {
        if self.output.is_none() || self.packs.len() < 2 {
            return false;
        }
        if warnings.len() > 0 {
            self.pending_overflow = warnings;
            return false;
        }
        self.start_squish_now()
    }

    /// Takes note of a message of the running merge.
    pub fn apply(&mut self, msg: SquishMsg)
        ensures
            final(self).packs == old(self).packs,
            final(self).output == old(self).output,
            final(self).output_not_empty == old(self).output_not_empty,
            final(self).also_resize == old(self).also_resize,
            final(self).pending_overflow == old(self).pending_overflow,
            match msg {
                SquishMsg::Log(line) => {
                    &&& texts(final(self).log@) == texts(old(self).log@).push(line@)
                    &&& final(self).progress == old(self).progress
                    &&& final(self).report == old(self).report
                    &&& final(self).running == old(self).running
                },
                SquishMsg::Progress { done, total } => {
                    &&& final(self).log == old(self).log
                    &&& final(self).progress == (done, total)
                    &&& final(self).report == old(self).report
                    &&& final(self).running == old(self).running
                },
                SquishMsg::Done(Ok(report)) => {
                    &&& texts(final(self).log@) == texts(old(self).log@).push(done_line(report))
                        + warning_lines(texts(report.warnings@))
                    &&& final(self).progress == old(self).progress
                    &&& final(self).report == Some(report)
                    &&& !final(self).running
                },
                SquishMsg::Done(Err(e)) => {
                    &&& texts(final(self).log@) == texts(old(self).log@).push("ERROR: "@ + e@)
                    &&& final(self).progress == old(self).progress
                    &&& final(self).report == old(self).report
                    &&& !final(self).running
                },
            },
    {
        match msg {
            SquishMsg::Log(line) => push_log(&mut self.log, line),
            SquishMsg::Progress { done, total } => {
                self.progress = (done, total);
            },
            SquishMsg::Done(Ok(report)) => {
                let mut line = String::new();
                line.append("done: ");
                push_decimal(&mut line, report.assets_copied as u64);
                line.append(" assets copied, ");
                push_decimal(&mut line, report.assets_renumbered as u64);
                line.append(" renumbered, ");
                push_decimal(&mut line, report.other_files_copied as u64);
                line.append(" other files copied, ");
                push_decimal(&mut line, report.warnings.len() as u64);
                line.append(" warnings");
                proof {
                    assert(line@ =~= done_line(report));
                }
                push_log(&mut self.log, line);
                push_warnings(&mut self.log, report.warnings.as_slice());
                self.report = Some(report);
                self.running = false;
            },
            SquishMsg::Done(Err(e)) => {
                let mut line = String::new();
                line.append("ERROR: ");
                line.append(e.as_str());
                proof {
                    assert(line@ =~= "ERROR: "@ + e@);
                }
                push_log(&mut self.log, line);
                self.running = false;
            },
        }
    }

    /// Whether the merge can be asked for.
    pub fn can_start(&self) -> (res: bool)
        ensures
            res == (!self.running && self.is_ready() && self.pending_overflow@.len() == 0),
            res ==> self.packs@.len() > 1 && self.output is Some,
    {
        !self.running && self.packs.len() >= 2 && self.output.is_some()
            && self.pending_overflow.len() == 0
    }

    /// Whether there is anything to clear.
    pub fn has_data(&self) -> (res: bool)
        ensures
            res == (self.packs@.len() > 0 || self.output is Some || self.log@.len() > 0
                || self.report is Some),
    {
        self.packs.len() > 0 || self.output.is_some() || self.log.len() > 0
            || self.report.is_some()
    }
}

/// The message of a merge that was cut short by an internal error.
pub fn internal_error(message: Option<String>) -> (res: String)
    ensures
        res@ == "internal error: "@ + match message {
            Some(m) => m@,
            None => "unknown panic"@,
        },
{
    let mut out = String::new();
    out.append("internal error: ");
    match message {
        Some(m) => out.append(m.as_str()),
        None => out.append("unknown panic"),
    }
    proof {
        assert(out@ =~= "internal error: "@ + match message {
            Some(m) => m@,
            None => "unknown panic"@,
        });
    }
    out
}

} // verus!
