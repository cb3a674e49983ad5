//! What holds of what the window shows, and of the list of exempt names.

use crate::batch::DiscoveredFile;
use crate::merge::MergeReport;
use crate::progress::{FileResult, FileStatus};
use crate::resizer_state::{
    error_line, finished_line, statuses_upto, total_change, total_size, warning_lines,
};
use crate::settings::{skip_entries, Settings};
use crate::sizes::{lemma_size_units, size_text, unit_bytes};
use crate::squisher_state::{done_line, SquisherState};
use crate::text::{decimal, split_on, trimmed, unicode_lowercase};
use vstd::prelude::*;

verus! {

// ---------------------------------------------------------------------------
// Exempt names
// ---------------------------------------------------------------------------

/// The list is made of what stands between the commas, piece by piece: without
/// white space around it and in lower case, and nothing where that leaves
/// nothing.
pub proof fn law_pieces_are_listed(
    settings: Settings,
    first: Seq<Seq<char>>,
    second: Seq<Seq<char>>,
    piece: Seq<char>,
)
    ensures
        settings.spec_skip_list() == skip_entries(split_on(settings.skip_substrings@, ',')),
        skip_entries(first + second) == skip_entries(first) + skip_entries(second),
        skip_entries(seq![piece]) == if unicode_lowercase(trimmed(piece)).len() > 0 {
            seq![unicode_lowercase(trimmed(piece))]
        } else {
            Seq::empty()
        },
    decreases second.len(),
{
    let none = Seq::<Seq<char>>::empty();
    assert(seq![piece].drop_last() =~= none);
    assert(skip_entries(none) =~= none);
    assert(seq![piece].last() == piece);
    let entry = unicode_lowercase(trimmed(piece));
    assert(none.push(entry) =~= seq![entry]);
    if second.len() == 0 {
        assert(first + second =~= first);
        assert(skip_entries(first) + skip_entries(second) =~= skip_entries(first));
    } else {
        law_pieces_are_listed(settings, first, second.drop_last(), piece);
        assert((first + second).drop_last() =~= first + second.drop_last());
        assert((first + second).last() == second.last());
        assert(skip_entries(first + second) =~= skip_entries(first) + skip_entries(second));
    }
}

// ---------------------------------------------------------------------------
// Files
// ---------------------------------------------------------------------------

/// Each file of the list gets the status, and no other file does.
pub proof fn law_statuses_are_set(
    start: Map<Seq<char>, FileStatus>,
    files: Seq<DiscoveredFile>,
    status: FileStatus,
    n: nat,
    path: Seq<char>,
)
    requires
        n <= files.len(),
    ensures
        ({
            let after = statuses_upto(start, files, status, n);
            let listed = exists|i: int| 0 <= i < n && (#[trigger] files[i]).path@ == path;
            &&& listed ==> after.contains_key(path) && after[path] == status
            &&& !listed ==> after.contains_key(path) == start.contains_key(path) && after[path]
                == start[path]
        }),
    decreases n,
{
    if n > 0 {
        law_statuses_are_set(start, files, status, (n - 1) as nat, path);
        let last = n - 1;
        if files[last].path@ == path {
            assert(exists|i: int| 0 <= i < n && (#[trigger] files[i]).path@ == path);
        } else {
            assert((exists|i: int| 0 <= i < n && (#[trigger] files[i]).path@ == path) <==> (
            exists|i: int| 0 <= i < last && (#[trigger] files[i]).path@ == path));
        }
    }
}

/// The sizes of two lists add up to those of both, and that of a single file is
/// its own.
pub proof fn law_sizes_add_up(
    first: Seq<DiscoveredFile>,
    second: Seq<DiscoveredFile>,
    one: DiscoveredFile,
)
    ensures
        total_size(first + second) == total_size(first) + total_size(second),
        total_size(seq![one]) == one.size,
    decreases second.len(),
{
    assert(seq![one].drop_last() =~= Seq::<DiscoveredFile>::empty());
    assert(total_size(Seq::<DiscoveredFile>::empty()) == 0);
    assert(seq![one].last() == one);
    if second.len() == 0 {
        assert(first + second =~= first);
    } else {
        law_sizes_add_up(first, second.drop_last(), one);
        assert((first + second).drop_last() =~= first + second.drop_last());
        assert((first + second).last() == second.last());
    }
}

/// The sizes before and after of two lists of results add up to those of both,
/// and those of a single one are its own.
pub proof fn law_changes_add_up(first: Seq<FileResult>, second: Seq<FileResult>, one: FileResult)
    ensures
        total_change(first + second).0 == total_change(first).0 + total_change(second).0,
        total_change(first + second).1 == total_change(first).1 + total_change(second).1,
        total_change(seq![one]) == (one.old_size as nat, one.new_size as nat),
    decreases second.len(),
{
    assert(seq![one].drop_last() =~= Seq::<FileResult>::empty());
    assert(total_change(Seq::<FileResult>::empty()) == (0nat, 0nat));
    assert(seq![one].last() == one);
    if second.len() == 0 {
        assert(first + second =~= first);
    } else {
        law_changes_add_up(first, second.drop_last(), one);
        assert((first + second).drop_last() =~= first + second.drop_last());
        assert((first + second).last() == second.last());
    }
}

// ---------------------------------------------------------------------------
// Lines
// ---------------------------------------------------------------------------

/// The lines of the log: what they say of a file, of an error, of a warning, and
/// of a whole merge.
pub proof fn law_lines_say_it(
    name: Seq<char>,
    result: FileResult,
    percent: Seq<char>,
    error: Seq<char>,
    report: MergeReport,
    warnings: Seq<Seq<char>>,
    i: int,
)
    requires
        0 <= i < warnings.len(),
    ensures
        finished_line(name, result, percent) == name + ": "@ + size_text(result.old_size) + " -> "@
            + size_text(result.new_size) + " ("@ + percent + "%) ["@ + decimal(
            result.textures_resized as nat,
        ) + "/"@ + decimal(result.textures_total as nat) + " textures resized]"@,
        error_line(name, error) == name + ": ERROR - "@ + error,
        done_line(report) == "done: "@ + decimal(report.assets_copied as nat)
            + " assets copied, "@ + decimal(report.assets_renumbered as nat) + " renumbered, "@
            + decimal(report.other_files_copied as nat) + " other files copied, "@ + decimal(
            report.warnings@.len(),
        ) + " warnings"@,
        warning_lines(warnings).len() == warnings.len(),
        warning_lines(warnings)[i] == "  warning: "@ + warnings[i],
{
}

/// A merge is ready from the second pack on and no sooner, and only with an
/// output folder; nothing else matters. So a new state is not ready, and no
/// further pack makes a ready one unready.
pub proof fn law_merges_need_two_packs(state: SquisherState, later: SquisherState)
    requires
        state.output is Some == later.output is Some,
        state.packs@.len() <= later.packs@.len(),
    ensures
        state.is_ready() ==> later.is_ready(),
        state.output is None ==> !later.is_ready(),
        later.packs@.len() < 2 ==> !later.is_ready(),
        state.packs@.len() > 1 && state.output is Some ==> state.is_ready(),
        state.is_new() ==> state.packs@ =~= Seq::empty() && state.log@ =~= Seq::empty()
            && !state.is_ready() && !state.running,
{
}

/// A size is shown in the largest unit of which there is at least one, up to the
/// fourth, and rounded to the nearest tenth of it. This takes sizes that a
/// double can hold.
pub proof fn law_sizes_are_shown(bytes: u64)
    requires
        bytes < 0x20_0000_0000_0000,
    ensures
        exists|unit: nat, scale: int, tenths: nat|
            {
                &&& size_text(bytes) == #[trigger] shown_tenths(tenths, unit)
                &&& #[trigger] is_unit(unit, scale)
                &&& unit > 0 ==> bytes >= scale
                &&& unit < 4 ==> bytes < 1024 * scale
                &&& -scale <= 2 * (10 * bytes - tenths * scale) <= scale
            },
{
    let (unit, tenths) = lemma_size_units(bytes);
    let scale = unit_bytes(unit) as int;
    assert(is_unit(unit, scale)) by {
        reveal_with_fuel(unit_bytes, 5);
    }
    assert(size_text(bytes) == shown_tenths(tenths, unit));
}

/// Whether a unit has so many bytes.
pub open spec fn is_unit(unit: nat, scale: int) -> bool {
    ||| unit == 0 && scale == 1
    ||| unit == 1 && scale == 0x400
    ||| unit == 2 && scale == 0x10_0000
    ||| unit == 3 && scale == 0x4000_0000
    ||| unit == 4 && scale == 0x100_0000_0000
}

/// So many tenths of a unit, as they are shown.
pub open spec fn shown_tenths(tenths: nat, unit: nat) -> Seq<char> {
    decimal(tenths / 10) + "."@ + decimal(tenths % 10) + " "@ + if unit == 0 {
        "B"@
    } else if unit == 1 {
        "KB"@
    } else if unit == 2 {
        "MB"@
    } else if unit == 3 {
        "GB"@
    } else {
        "TB"@
    }
}

} // verus!
