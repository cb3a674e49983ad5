//! The manifests of packs: reading them, and merging them into one.

use crate::text::{
    from_chars, has_char, has_prefix, split, split_on, starts_with, texts, to_chars, trim, trimmed,
    views,
};
use vstd::hash_set::StringHashSet;
use vstd::prelude::*;

verus! {

// ---------------------------------------------------------------------------
// Reading
// ---------------------------------------------------------------------------

/// What stands between quotes in a line: quotes pair up from left to right,
/// and one that is left over opens nothing.
pub open spec fn quoted(line: Seq<char>) -> Seq<Seq<char>> {
    let pieces = split_on(line, '\'');
    Seq::new(((pieces.len() - 1) / 2) as nat, |k: int| pieces[2 * k + 1])
}

/// What stands between quotes in a line.
pub fn extract_quoted(line: &[char]) -> (res: Vec<String>)
    ensures
        texts(res@) == quoted(line@),
{
    let pieces = split(line, '\'');
    let ghost all = split_on(line@, '\'');
    let size: usize = pieces.len();
    let mut out: Vec<String> = Vec::new();
    let mut i: usize = 1;
    while i < size - 1
        invariant
            views(pieces@) == all,
            size == pieces@.len(),
            size >= 1,
            i % 2 == 1,
            i <= size,
            out@.len() == i / 2,
            forall|k: int| 0 <= k < out@.len() ==> (#[trigger] out@[k])@ == all[2 * k + 1],
        decreases size - i,
    {
        proof {
            assert(all[i as int] == pieces@[i as int]@);
        }
        out.push(from_chars(pieces[i].as_slice()));
        i = i + 2;
    }
    proof {
        assert(texts(out@) =~= quoted(line@));
    }
    out
}

/// What a manifest says.
pub struct ParsedManifest {
    /// The first line about the version.
    pub fx_version: Option<String>,
    /// The first line about the game.
    pub game: Option<String>,
    /// The entries of all blocks of files.
    pub files_entries: Vec<String>,
    /// All other lines.
    pub other_lines: Vec<String>,
}

/// What a manifest says, as values.
#[verifier::ext_equal]
pub struct ManifestModel {
    pub fx_version: Option<Seq<char>>,
    pub game: Option<Seq<char>>,
    pub files_entries: Seq<Seq<char>>,
    pub other_lines: Seq<Seq<char>>,
}

/// The value of an optional text.
pub open spec fn opt_view(t: Option<String>) -> Option<Seq<char>> {
    match t {
        Some(s) => Some(s@),
        None => None,
    }
}

impl View for ParsedManifest {
    type V = ManifestModel;

    open spec fn view(&self) -> ManifestModel {
        ManifestModel {
            fx_version: opt_view(self.fx_version),
            game: opt_view(self.game),
            files_entries: texts(self.files_entries@),
            other_lines: texts(self.other_lines@),
        }
    }
}

/// A manifest that says nothing.
pub open spec fn empty_manifest() -> ManifestModel {
    ManifestModel {
        fx_version: None,
        game: None,
        files_entries: Seq::empty(),
        other_lines: Seq::empty(),
    }
}

/// What was read of a manifest, and whether a block of files is open.
#[verifier::ext_equal]
pub struct ReadState {
    pub manifest: ManifestModel,
    pub in_files_block: bool,
}

/// What is known after a line without white space around it.
pub open spec fn read_line(state: ReadState, line: Seq<char>) -> ReadState {
    let m = state.manifest;
    if line.len() == 0 {
        state
    } else if state.in_files_block {
        ReadState {
            manifest: ManifestModel { files_entries: m.files_entries + quoted(line), ..m },
            in_files_block: !line.contains('}'),
        }
    } else if has_prefix(line, "files"@) {
        ReadState {
            manifest: ManifestModel { files_entries: m.files_entries + quoted(line), ..m },
            in_files_block: !line.contains('}'),
        }
    } else if has_prefix(line, "fx_version"@) {
        ReadState {
            manifest: ManifestModel {
                fx_version: if m.fx_version is None {
                    Some(line)
                } else {
                    m.fx_version
                },
                ..m
            },
            ..state
        }
    } else if has_prefix(line, "game"@) {
        ReadState {
            manifest: ManifestModel {
                game: if m.game is None {
                    Some(line)
                } else {
                    m.game
                },
                ..m
            },
            ..state
        }
    } else {
        ReadState {
            manifest: ManifestModel { other_lines: m.other_lines.push(line), ..m },
            ..state
        }
    }
}

/// What is known after all lines.
pub open spec fn read_lines(state: ReadState, lines: Seq<Seq<char>>) -> ReadState
    decreases lines.len(),
{
    if lines.len() == 0 {
        state
    } else {
        read_line(read_lines(state, lines.drop_last()), trimmed(lines.last()))
    }
}

/// What a manifest says.
pub open spec fn manifest_of(text: Seq<char>) -> ManifestModel {
    read_lines(
        ReadState { manifest: empty_manifest(), in_files_block: false },
        split_on(text, '\n'),
    ).manifest
}

fn append_all(list: &mut Vec<String>, more: Vec<String>)
    ensures
        texts(final(list)@) == texts(old(list)@) + texts(more@),
{
    let mut rest = more;
    let ghost before = list@;
    let ghost added = rest@;
    list.append(&mut rest);
    proof {
        assert(texts(list@) =~= texts(before) + texts(added));
    }
}

fn push_line(list: &mut Vec<String>, line: &[char])
    ensures
        texts(final(list)@) == texts(old(list)@).push(line@),
{
    let ghost before = list@;
    list.push(from_chars(line));
    proof {
        assert(texts(list@) =~= texts(before).push(line@));
    }
}

/// What a manifest says.
pub fn parse_manifest(text: &str) -> (res: ParsedManifest)
    ensures
        res@ == manifest_of(text@),
{
    let chars = to_chars(text);
    let lines = split(chars.as_slice(), '\n');
    let ghost all = split_on(text@, '\n');
    let ghost start = ReadState { manifest: empty_manifest(), in_files_block: false };
    let mut parsed = ParsedManifest {
        fx_version: None,
        game: None,
        files_entries: Vec::new(),
        other_lines: Vec::new(),
    };
    let mut in_files_block = false;
    let mut i: usize = 0;
    proof {
        assert(parsed@ =~= empty_manifest());
        assert(all.take(0).len() == 0);
    }
    while i < lines.len()
        invariant
            views(lines@) == all,
            i <= lines@.len(),
            (ReadState { manifest: parsed@, in_files_block }) == read_lines(
                start,
                all.take(i as int),
            ),
        decreases lines@.len() - i,
    {
        let line = trim(lines[i].as_slice());
        let ghost before = ReadState { manifest: parsed@, in_files_block };
        proof {
            assert(all.take(i + 1).drop_last() =~= all.take(i as int));
            assert(all.take(i + 1).last() == lines@[i as int]@);
        }
        if line.len() == 0 {
            proof {
                assert(read_line(before, line@) == before);
            }
        } else if in_files_block || starts_with(line, "files") {
            append_all(&mut parsed.files_entries, extract_quoted(line));
            in_files_block = !has_char(line, '}');
        } else if starts_with(line, "fx_version") {
            if parsed.fx_version.is_none() {
                parsed.fx_version = Some(from_chars(line));
            }
        } else if starts_with(line, "game") {
            if parsed.game.is_none() {
                parsed.game = Some(from_chars(line));
            }
        } else {
            push_line(&mut parsed.other_lines, line);
        }
        proof {
            assert((ReadState { manifest: parsed@, in_files_block }) =~= read_line(before, line@));
        }
        i = i + 1;
    }
    proof {
        assert(all.take(i as int) =~= all);
    }
    parsed
}

// ---------------------------------------------------------------------------
// Merging
// ---------------------------------------------------------------------------

/// What was merged so far, and whether a pack behind the first has added to it.
#[verifier::ext_equal]
pub struct MergedModel {
    pub manifest: ManifestModel,
    pub any_manifest: bool,
    pub any_extra: bool,
}

/// A list with the entries that it lacks added, each once.
pub open spec fn union_list(list: Seq<Seq<char>>, more: Seq<Seq<char>>) -> Seq<Seq<char>>
    decreases more.len(),
{
    if more.len() == 0 {
        list
    } else {
        let before = union_list(list, more.drop_last());
        if before.contains(more.last()) {
            before
        } else {
            before.push(more.last())
        }
    }
}

/// What is merged after the manifest of the pack in place `idx`, if it has one.
pub open spec fn merge_one(state: MergedModel, idx: int, text: Option<Seq<char>>) -> MergedModel {
    match text {
        None => state,
        Some(t) => {
            let m = state.manifest;
            let other = manifest_of(t);
            let files = union_list(m.files_entries, other.files_entries);
            let lines = union_list(m.other_lines, other.other_lines);
            MergedModel {
                manifest: ManifestModel {
                    fx_version: if m.fx_version is None {
                        other.fx_version
                    } else {
                        m.fx_version
                    },
                    game: if m.game is None {
                        other.game
                    } else {
                        m.game
                    },
                    files_entries: files,
                    other_lines: lines,
                },
                any_manifest: true,
                any_extra: state.any_extra || (idx > 0 && (files.len() > m.files_entries.len()
                    || lines.len() > m.other_lines.len())),
            }
        },
    }
}

/// What is merged from the manifests of the first `n` packs.
pub open spec fn merged_upto(manifests: Seq<Option<Seq<char>>>, n: nat) -> MergedModel
    decreases n,
{
    if n == 0 {
        MergedModel { manifest: empty_manifest(), any_manifest: false, any_extra: false }
    } else {
        merge_one(merged_upto(manifests, (n - 1) as nat), n - 1, manifests[n - 1])
    }
}

/// The views of the manifests of packs.
pub open spec fn opt_views(manifests: Seq<Option<String>>) -> Seq<Option<Seq<char>>> {
    manifests.map_values(|t: Option<String>| opt_view(t))
}

/// Whether a set holds just the entries of a list.
spec fn holds_entries(seen: Set<Seq<char>>, list: Seq<Seq<char>>) -> bool {
    forall|x: Seq<char>| #[trigger] seen.contains(x) <==> list.contains(x)
}

proof fn lemma_union_grows(list: Seq<Seq<char>>, more: Seq<Seq<char>>)
    ensures
        union_list(list, more).len() >= list.len(),
        union_list(list, more).take(list.len() as int) == list,
    decreases more.len(),
{
    if more.len() > 0 {
        lemma_union_grows(list, more.drop_last());
        let before = union_list(list, more.drop_last());
        assert(union_list(list, more).take(list.len() as int) =~= before.take(list.len() as int));
    } else {
        assert(list.take(list.len() as int) =~= list);
    }
}

/// Adds the entries that a list lacks, each once, and tells whether there were
/// any.
fn add_missing(list: &mut Vec<String>, seen: &mut StringHashSet, more: &[String]) -> (res: bool)
    requires
        holds_entries(old(seen)@, texts(old(list)@)),
    ensures
        texts(final(list)@) == union_list(texts(old(list)@), texts(more@)),
        holds_entries(final(seen)@, texts(final(list)@)),
        res == (final(list)@.len() > old(list)@.len()),
{
    let ghost start = texts(list@);
    let ghost all = texts(more@);
    let mut added = false;
    let mut i: usize = 0;
    proof {
        assert(all.take(0).len() == 0);
    }
    while i < more.len()
        invariant
            all == texts(more@),
            start == texts(old(list)@),
            i <= more@.len(),
            texts(list@) == union_list(start, all.take(i as int)),
            holds_entries(seen@, texts(list@)),
            added == (list@.len() > start.len()),
            list@.len() >= start.len(),
        decreases more@.len() - i,
    {
        let ghost before = list@;
        proof {
            assert(all.take(i + 1).drop_last() =~= all.take(i as int));
            assert(all.take(i + 1).last() == more@[i as int]@);
        }
        let entry = more[i].clone();
        if seen.insert(entry) {
            list.push(more[i].clone());
            added = true;
            proof {
                let e = more@[i as int]@;
                assert(texts(list@) =~= texts(before).push(e));
                assert forall|x: Seq<char>| #[trigger] seen@.contains(x) <==> texts(
                    list@,
                ).contains(x) by {
                    let old_list = texts(before);
                    let new_list = texts(list@);
                    if old_list.contains(x) {
                        let k = choose|k: int| 0 <= k < old_list.len() && old_list[k] == x;
                        assert(new_list[k] == x);
                    }
                    if x == e {
                        assert(new_list[old_list.len() as int] == x);
                    }
                    if new_list.contains(x) {
                        let k = choose|k: int| 0 <= k < new_list.len() && new_list[k] == x;
                        if k < old_list.len() {
                            assert(old_list[k] == x);
                        }
                    }
                }
            }
        } else {
            proof {
                let e = more@[i as int]@;
                assert(texts(before).contains(e));
                assert(seen@ =~= seen@.insert(e));
            }
        }
        i = i + 1;
    }
    proof {
        assert(all.take(i as int) =~= all);
    }
    added
}

/// The line about the version where no manifest has one.
pub open spec fn default_version() -> Seq<char> {
    "fx_version 'cerulean'"@
}

/// The line about the game where no manifest has one.
pub open spec fn default_game() -> Seq<char> {
    "game 'gta5'"@
}

/// The lines of a merged manifest's block of files.
pub open spec fn entry_lines(entries: Seq<Seq<char>>) -> Seq<Seq<char>> {
    entries.map_values(|e: Seq<char>| "    '"@ + e + "',"@)
}

/// The lines of a merged manifest: the version, the game, the files in one
/// block, and all other lines.
pub open spec fn merged_lines(m: ManifestModel) -> Seq<Seq<char>> {
    let head = seq![
        match m.fx_version {
            Some(v) => v,
            None => default_version(),
        },
        match m.game {
            Some(g) => g,
            None => default_game(),
        },
    ];
    let files = if m.files_entries.len() > 0 {
        seq![""@, "files {"@] + entry_lines(m.files_entries) + seq!["}"@]
    } else {
        Seq::empty()
    };
    let others = if m.other_lines.len() > 0 {
        seq![""@] + m.other_lines
    } else {
        Seq::empty()
    };
    head + files + others
}

/// Lines as text, each one ended.
pub open spec fn lines_text(lines: Seq<Seq<char>>) -> Seq<char>
    decreases lines.len(),
{
    if lines.len() == 0 {
        Seq::empty()
    } else {
        (lines_text(lines.drop_last()) + lines.last()).push('\n')
    }
}

/// The manifest of a merge without any manifest in it.
pub open spec fn default_manifest() -> Seq<char> {
    lines_text(seq![default_version(), default_game()])
}

/// The text of the merged manifest.
pub open spec fn merged_text(state: MergedModel) -> Seq<char> {
    if state.any_manifest {
        lines_text(merged_lines(state.manifest))
    } else {
        default_manifest()
    }
}

/// The warning about manifests that differ.
pub open spec fn merge_warning() -> Seq<char> {
    "fxmanifest.lua: packs' manifests differ beyond boilerplate; merged (files{} blocks combined into one, other directives deduped by exact line) - review for conflicting exports/dependency/data_file directives before shipping."@
}

fn push_text_line(out: &mut String, line: &str)
    ensures
        final(out)@ == (old(out)@ + line@).push('\n'),
{
    out.append(line);
    out.push('\n');
}

proof fn lemma_lines_push(lines: Seq<Seq<char>>, line: Seq<char>)
    ensures
        lines_text(lines.push(line)) == (lines_text(lines) + line).push('\n'),
{
    assert(lines.push(line).drop_last() =~= lines);
}

/// The text of a merged manifest.
fn render(m: &ParsedManifest) -> (res: String)
    ensures
        res@ == lines_text(merged_lines(m@)),
{
    let mut out = String::new();
    let ghost mut lines: Seq<Seq<char>> = Seq::empty();
    let version = match &m.fx_version {
        Some(v) => v.as_str(),
        None => "fx_version 'cerulean'",
    };
    let game = match &m.game {
        Some(g) => g.as_str(),
        None => "game 'gta5'",
    };
    proof {
        assert(out@ =~= lines_text(lines));
        lemma_lines_push(lines, version@);
        lemma_lines_push(lines.push(version@), game@);
        lines = lines.push(version@).push(game@);
    }
    push_text_line(&mut out, version);
    push_text_line(&mut out, game);
    let ghost head = lines;
    if m.files_entries.len() > 0 {
        proof {
            lemma_lines_push(lines, ""@);
            lemma_lines_push(lines.push(""@), "files {"@);
            lines = lines.push(""@).push("files {"@);
        }
        push_text_line(&mut out, "");
        push_text_line(&mut out, "files {");
        let ghost opened = lines;
        let ghost entries = entry_lines(m@.files_entries);
        let mut i: usize = 0;
        proof {
            assert(opened + entries.take(0) =~= opened);
        }
        while i < m.files_entries.len()
            invariant
                entries == entry_lines(m@.files_entries),
                i <= m.files_entries@.len(),
                lines == opened + entries.take(i as int),
                out@ == lines_text(lines),
            decreases m.files_entries@.len() - i,
        {
            let ghost e = entries[i as int];
            let mut line = String::new();
            line.append("    '");
            line.append(m.files_entries[i].as_str());
            line.append("',");
            proof {
                assert(e == "    '"@ + m.files_entries@[i as int]@ + "',"@);
                assert(line@ =~= e);
                lemma_lines_push(lines, e);
                lines = lines.push(e);
                assert(opened + entries.take(i + 1) =~= lines);
            }
            push_text_line(&mut out, line.as_str());
            i = i + 1;
        }
        proof {
            assert(entries.take(i as int) =~= entries);
            lemma_lines_push(lines, "}"@);
            lines = lines.push("}"@);
        }
        push_text_line(&mut out, "}");
        proof {
            assert(lines =~= head + (seq![""@, "files {"@] + entries + seq!["}"@]));
        }
    }
    let ghost with_files = lines;
    if m.other_lines.len() > 0 {
        proof {
            lemma_lines_push(lines, ""@);
            lines = lines.push(""@);
        }
        push_text_line(&mut out, "");
        let ghost opened = lines;
        let ghost others = m@.other_lines;
        let mut i: usize = 0;
        proof {
            assert(opened + others.take(0) =~= opened);
        }
        while i < m.other_lines.len()
            invariant
                others == m@.other_lines,
                i <= m.other_lines@.len(),
                lines == opened + others.take(i as int),
                out@ == lines_text(lines),
            decreases m.other_lines@.len() - i,
        {
            proof {
                let e = others[i as int];
                assert(e == m.other_lines@[i as int]@);
                lemma_lines_push(lines, e);
                lines = lines.push(e);
                assert(opened + others.take(i + 1) =~= lines);
            }
            push_text_line(&mut out, m.other_lines[i].as_str());
            i = i + 1;
        }
        proof {
            assert(others.take(i as int) =~= others);
            assert(lines =~= with_files + (seq![""@] + others));
        }
    }
    proof {
        assert(lines =~= merged_lines(m@));
    }
    out
}

/// The merged manifest of packs, and the warning about it where a pack behind
/// the first adds anything but the version and the game.
pub fn merge_manifests(manifests: &[Option<String>]) -> (res: (String, Option<String>))
    ensures
        ({
            let state = merged_upto(opt_views(manifests@), manifests@.len());
            &&& res.0@ == merged_text(state)
            &&& match res.1 {
                Some(w) => state.any_extra && w@ == merge_warning(),
                None => !state.any_extra,
            }
        }),
{
    let ghost all = opt_views(manifests@);
    let mut merged = ParsedManifest {
        fx_version: None,
        game: None,
        files_entries: Vec::new(),
        other_lines: Vec::new(),
    };
    let mut seen_files = StringHashSet::new();
    let mut seen_other = StringHashSet::new();
    let mut any_manifest = false;
    let mut any_extra = false;
    let mut idx: usize = 0;
    proof {
        assert(merged@ =~= empty_manifest());
    }
    while idx < manifests.len()
        invariant
            all == opt_views(manifests@),
            idx <= manifests@.len(),
            (MergedModel { manifest: merged@, any_manifest, any_extra }) == merged_upto(
                all,
                idx as nat,
            ),
            holds_entries(seen_files@, texts(merged.files_entries@)),
            holds_entries(seen_other@, texts(merged.other_lines@)),
        decreases manifests@.len() - idx,
    {
        proof {
            assert(all[idx as int] == opt_view(manifests@[idx as int]));
        }
        if let Some(text) = &manifests[idx] {
            let ghost before = MergedModel { manifest: merged@, any_manifest, any_extra };
            any_manifest = true;
            let parsed = parse_manifest(text.as_str());
            let ghost other = parsed@;
            proof {
                lemma_union_grows(before.manifest.files_entries, other.files_entries);
                lemma_union_grows(before.manifest.other_lines, other.other_lines);
            }
            if merged.fx_version.is_none() {
                merged.fx_version = parsed.fx_version;
            }
            if merged.game.is_none() {
                merged.game = parsed.game;
            }
            let more_files = add_missing(
                &mut merged.files_entries,
                &mut seen_files,
                parsed.files_entries.as_slice(),
            );
            let more_lines = add_missing(
                &mut merged.other_lines,
                &mut seen_other,
                parsed.other_lines.as_slice(),
            );
            if idx > 0 && (more_files || more_lines) {
                any_extra = true;
            }
            proof {
                assert((MergedModel { manifest: merged@, any_manifest, any_extra }) =~= merge_one(
                    before,
                    idx as int,
                    Some(text@),
                ));
            }
        }
        idx = idx + 1;
    }
    let text = if any_manifest {
        render(&merged)
    } else {
        let nothing = ParsedManifest {
            fx_version: None,
            game: None,
            files_entries: Vec::new(),
            other_lines: Vec::new(),
        };
        proof {
            assert(merged_lines(nothing@) =~= seq![default_version(), default_game()]);
        }
        render(&nothing)
    };
    let warning = if any_extra {
        Some(
            "fxmanifest.lua: packs' manifests differ beyond boilerplate; merged (files{} blocks combined into one, other directives deduped by exact line) - review for conflicting exports/dependency/data_file directives before shipping.".to_owned(),
        )
    } else {
        None
    };
    (text, warning)
}

} // verus!
