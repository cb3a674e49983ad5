//! What holds of merged manifests.

use crate::assets::{
    join, lemma_join_around, lemma_join_split, lemma_split_append, lemma_split_join, piece_start,
};
use crate::manifest::{
    default_game, default_version, empty_manifest, entry_lines, lines_text, manifest_of,
    merged_lines, merged_text, merged_upto, quoted, read_line, read_lines, union_list,
    ManifestModel, ReadState,
};
use crate::text::{has_prefix, is_white, split_on, trim_end, trim_start, trimmed};
use vstd::prelude::*;

verus! {

// ---------------------------------------------------------------------------
// Merging keeps everything, once
// ---------------------------------------------------------------------------

proof fn lemma_union_list(list: Seq<Seq<char>>, more: Seq<Seq<char>>)
    requires
        list.no_duplicates(),
    ensures
        union_list(list, more).no_duplicates(),
        forall|x: Seq<char>| #[trigger]
            union_list(list, more).contains(x) <==> list.contains(x) || more.contains(x),
    decreases more.len(),
{
    if more.len() > 0 {
        let front = more.drop_last();
        lemma_union_list(list, front);
        let before = union_list(list, front);
        let after = union_list(list, more);
        let e = more.last();
        assert forall|x: Seq<char>| #[trigger] after.contains(x) <==> list.contains(x)
            || more.contains(x) by {
            assert(more.contains(x) <==> front.contains(x) || x == e) by {
                if front.contains(x) {
                    let k = choose|k: int| 0 <= k < front.len() && front[k] == x;
                    assert(more[k] == x);
                }
                if x == e {
                    assert(more[more.len() - 1] == x);
                }
                if more.contains(x) {
                    let k = choose|k: int| 0 <= k < more.len() && more[k] == x;
                    if k < front.len() {
                        assert(front[k] == x);
                    }
                }
            }
            if !before.contains(e) {
                if before.contains(x) {
                    let k = choose|k: int| 0 <= k < before.len() && before[k] == x;
                    assert(after[k] == x);
                }
                if x == e {
                    assert(after[before.len() as int] == x);
                }
                if after.contains(x) {
                    let k = choose|k: int| 0 <= k < after.len() && after[k] == x;
                    if k < before.len() {
                        assert(before[k] == x);
                    }
                }
            }
        }
    } else {
        assert forall|x: Seq<char>| #[trigger]
            union_list(list, more).contains(x) <==> list.contains(x) || more.contains(x) by {}
    }
}

/// No file and no other line occurs twice in a merged manifest.
pub proof fn law_merged_has_no_duplicates(manifests: Seq<Option<Seq<char>>>, n: nat)
    requires
        n <= manifests.len(),
    ensures
        merged_upto(manifests, n).manifest.files_entries.no_duplicates(),
        merged_upto(manifests, n).manifest.other_lines.no_duplicates(),
    decreases n,
{
    if n > 0 {
        law_merged_has_no_duplicates(manifests, (n - 1) as nat);
        let before = merged_upto(manifests, (n - 1) as nat).manifest;
        if let Some(t) = manifests[n - 1] {
            lemma_union_list(before.files_entries, manifest_of(t).files_entries);
            lemma_union_list(before.other_lines, manifest_of(t).other_lines);
        }
    }
}

/// Every file and every other line of every pack's manifest is in the merged
/// one.
pub proof fn law_merged_keeps_all(
    manifests: Seq<Option<Seq<char>>>,
    n: nat,
    i: int,
    entry: Seq<char>,
)
    requires
        0 <= i < n <= manifests.len(),
        manifests[i] is Some,
    ensures
        manifest_of(manifests[i]->0).files_entries.contains(entry) ==> merged_upto(
            manifests,
            n,
        ).manifest.files_entries.contains(entry),
        manifest_of(manifests[i]->0).other_lines.contains(entry) ==> merged_upto(
            manifests,
            n,
        ).manifest.other_lines.contains(entry),
    decreases n,
{
    let before = merged_upto(manifests, (n - 1) as nat).manifest;
    law_merged_has_no_duplicates(manifests, (n - 1) as nat);
    if let Some(t) = manifests[n - 1] {
        let other = manifest_of(t);
        lemma_union_list(before.files_entries, other.files_entries);
        lemma_union_list(before.other_lines, other.other_lines);
        let files = union_list(before.files_entries, other.files_entries);
        let lines = union_list(before.other_lines, other.other_lines);
        assert(files.contains(entry) <==> before.files_entries.contains(entry)
            || other.files_entries.contains(entry));
        assert(lines.contains(entry) <==> before.other_lines.contains(entry)
            || other.other_lines.contains(entry));
    }
    if i < n - 1 {
        law_merged_keeps_all(manifests, (n - 1) as nat, i, entry);
    }
}

/// The version and the game of a merged manifest are those of the first pack
/// that states them.
pub proof fn law_first_version_wins(manifests: Seq<Option<Seq<char>>>, n: nat, m: nat)
    requires
        n <= m <= manifests.len(),
    ensures
        merged_upto(manifests, n).manifest.fx_version is Some ==> merged_upto(
            manifests,
            m,
        ).manifest.fx_version == merged_upto(manifests, n).manifest.fx_version,
        merged_upto(manifests, n).manifest.game is Some ==> merged_upto(
            manifests,
            m,
        ).manifest.game == merged_upto(manifests, n).manifest.game,
    decreases m,
{
    if n < m {
        law_first_version_wins(manifests, n, (m - 1) as nat);
    }
}

// ---------------------------------------------------------------------------
// What is read is well formed
// ---------------------------------------------------------------------------

/// Whether a line has no white space around it, is not empty and is one line.
pub open spec fn is_plain(line: Seq<char>) -> bool {
    &&& line.len() > 0
    &&& trimmed(line) == line
    &&& !line.contains('\n')
}

/// Whether a manifest is one that can come from reading: its lines are plain
/// and of their kinds, and its entries hold no quotes and no line ends.
pub open spec fn is_clean(m: ManifestModel) -> bool {
    &&& m.fx_version matches Some(v) ==> is_plain(v) && has_prefix(v, "fx_version"@)
    &&& m.game matches Some(g) ==> is_plain(g) && has_prefix(g, "game"@)
    &&& forall|i: int|
        0 <= i < m.files_entries.len() ==> is_entry(#[trigger] m.files_entries[i])
    &&& forall|i: int|
        0 <= i < m.other_lines.len() ==> is_other_line(#[trigger] m.other_lines[i])
}

/// Whether an entry holds no quotes and no line ends.
pub open spec fn is_entry(entry: Seq<char>) -> bool {
    !entry.contains('\'') && !entry.contains('\n')
}

/// Whether a line is plain and neither opens a block of files nor states the
/// version or the game.
pub open spec fn is_other_line(line: Seq<char>) -> bool {
    &&& is_plain(line)
    &&& !has_prefix(line, "files"@)
    &&& !has_prefix(line, "fx_version"@)
    &&& !has_prefix(line, "game"@)
}

proof fn lemma_trim_start(s: Seq<char>)
    ensures
        trim_start(s).len() > 0 ==> !is_white(trim_start(s)[0]),
        forall|c: char| trim_start(s).contains(c) ==> s.contains(c),
    decreases s.len(),
{
    if s.len() > 0 && is_white(s[0]) {
        let rest = s.drop_first();
        lemma_trim_start(rest);
        assert forall|c: char| trim_start(s).contains(c) implies s.contains(c) by {
            assert(rest.contains(c));
            let k = choose|k: int| 0 <= k < rest.len() && rest[k] == c;
            assert(s[k + 1] == c);
        }
    }
}

proof fn lemma_trim_end(s: Seq<char>)
    ensures
        trim_end(s).len() <= s.len(),
        trim_end(s) == s.take(trim_end(s).len() as int),
        trim_end(s).len() > 0 ==> !is_white(trim_end(s).last()),
        forall|c: char| trim_end(s).contains(c) ==> s.contains(c),
    decreases s.len(),
{
    if s.len() > 0 && is_white(s.last()) {
        let rest = s.drop_last();
        lemma_trim_end(rest);
        assert(s.take(trim_end(s).len() as int) =~= rest.take(trim_end(s).len() as int));
        assert forall|c: char| trim_end(s).contains(c) implies s.contains(c) by {
            assert(rest.contains(c));
            let k = choose|k: int| 0 <= k < rest.len() && rest[k] == c;
            assert(s[k] == c);
        }
    } else {
        assert(s.take(s.len() as int) =~= s);
    }
}

/// Trimming twice is trimming once, and adds no characters.
pub proof fn lemma_trimmed(s: Seq<char>)
    ensures
        trimmed(trimmed(s)) == trimmed(s),
        forall|c: char| trimmed(s).contains(c) ==> s.contains(c),
{
    let a = trim_start(s);
    let b = trim_end(a);
    lemma_trim_start(s);
    lemma_trim_end(a);
    if b.len() > 0 {
        assert(b[0] == a[0]);
        assert(trim_start(b) == b);
        assert(trim_end(b) == b);
    }
}

proof fn lemma_piece_chars(pieces: Seq<Seq<char>>, sep: char, i: int, c: char)
    requires
        0 <= i < pieces.len(),
        pieces[i].contains(c),
    ensures
        join(pieces, sep).contains(c),
{
    lemma_join_around(pieces, sep, i);
    let same = pieces.update(i, pieces[i]);
    assert(same =~= pieces);
    let start = piece_start(pieces, i);
    let all = join(pieces, sep);
    let again = all.take(start) + pieces[i] + all.skip(start + pieces[i].len());
    assert(join(same, sep) == again);
    let k = choose|k: int| 0 <= k < pieces[i].len() && pieces[i][k] == c;
    assert(again[start + k] == c);
}

proof fn lemma_quoted_entries(line: Seq<char>)
    requires
        !line.contains('\n'),
    ensures
        forall|i: int| 0 <= i < quoted(line).len() ==> is_entry(#[trigger] quoted(line)[i]),
{
    let pieces = split_on(line, '\'');
    lemma_join_split(line, '\'');
    assert forall|i: int| 0 <= i < quoted(line).len() implies is_entry(
        #[trigger] quoted(line)[i],
    ) by {
        let p = pieces[2 * i + 1];
        assert(quoted(line)[i] == p);
        if p.contains('\n') {
            lemma_piece_chars(pieces, '\'', 2 * i + 1, '\n');
        }
    }
}

proof fn lemma_read_is_clean(state: ReadState, lines: Seq<Seq<char>>)
    requires
        is_clean(state.manifest),
        forall|i: int| 0 <= i < lines.len() ==> !(#[trigger] lines[i]).contains('\n'),
    ensures
        is_clean(read_lines(state, lines).manifest),
    decreases lines.len(),
{
    if lines.len() > 0 {
        let front = lines.drop_last();
        assert forall|i: int| 0 <= i < front.len() implies !(#[trigger] front[i]).contains(
            '\n',
        ) by {
            assert(front[i] == lines[i]);
        }
        lemma_read_is_clean(state, front);
        let before = read_lines(state, front);
        assert(lines[lines.len() - 1] == lines.last());
        let line = trimmed(lines.last());
        lemma_trimmed(lines.last());
        assert(!line.contains('\n'));
        lemma_quoted_entries(line);
        let after = read_line(before, line);
        assert(after == read_lines(state, lines));
        assert forall|i: int| 0 <= i < after.manifest.files_entries.len() implies is_entry(
            #[trigger] after.manifest.files_entries[i],
        ) by {
            let k = before.manifest.files_entries.len();
            if i < k {
                assert(after.manifest.files_entries[i] == before.manifest.files_entries[i]);
            } else {
                assert(after.manifest.files_entries[i] == quoted(line)[i - k]);
            }
        }
        assert forall|i: int| 0 <= i < after.manifest.other_lines.len() implies is_other_line(
            #[trigger] after.manifest.other_lines[i],
        ) by {
            if i < before.manifest.other_lines.len() {
                assert(after.manifest.other_lines[i] == before.manifest.other_lines[i]);
            }
        }
    }
}

/// A manifest that was read is well formed: its lines are plain and of their
/// kinds, and its entries hold no quotes and no line ends.
pub proof fn law_manifest_is_clean(text: Seq<char>)
    ensures
        is_clean(manifest_of(text)),
{
    lemma_join_split(text, '\n');
    lemma_read_is_clean(
        ReadState { manifest: empty_manifest(), in_files_block: false },
        split_on(text, '\n'),
    );
}

/// A merged manifest is well formed: in particular, no line outside its block
/// of files opens another one.
pub proof fn law_merged_is_clean(manifests: Seq<Option<Seq<char>>>, n: nat)
    requires
        n <= manifests.len(),
    ensures
        is_clean(merged_upto(manifests, n).manifest),
    decreases n,
{
    if n > 0 {
        law_merged_is_clean(manifests, (n - 1) as nat);
        law_merged_has_no_duplicates(manifests, (n - 1) as nat);
        let before = merged_upto(manifests, (n - 1) as nat).manifest;
        if let Some(t) = manifests[n - 1] {
            law_manifest_is_clean(t);
            let other = manifest_of(t);
            lemma_union_list(before.files_entries, other.files_entries);
            lemma_union_list(before.other_lines, other.other_lines);
            let after = merged_upto(manifests, n).manifest;
            assert forall|i: int| 0 <= i < after.files_entries.len() implies is_entry(
                #[trigger] after.files_entries[i],
            ) by {
                let x = after.files_entries[i];
                assert(after.files_entries.contains(x));
                if before.files_entries.contains(x) {
                    let k = choose|k: int|
                        0 <= k < before.files_entries.len() && before.files_entries[k] == x;
                    assert(is_entry(before.files_entries[k]));
                } else {
                    let k = choose|k: int|
                        0 <= k < other.files_entries.len() && other.files_entries[k] == x;
                    assert(is_entry(other.files_entries[k]));
                }
            }
            assert forall|i: int| 0 <= i < after.other_lines.len() implies is_other_line(
                #[trigger] after.other_lines[i],
            ) by {
                let x = after.other_lines[i];
                assert(after.other_lines.contains(x));
                if before.other_lines.contains(x) {
                    let k = choose|k: int|
                        0 <= k < before.other_lines.len() && before.other_lines[k] == x;
                    assert(is_other_line(before.other_lines[k]));
                } else {
                    let k = choose|k: int|
                        0 <= k < other.other_lines.len() && other.other_lines[k] == x;
                    assert(is_other_line(other.other_lines[k]));
                }
            }
        }
    }
}

// ---------------------------------------------------------------------------
// What is written is read back
// ---------------------------------------------------------------------------

proof fn lemma_split_lines(lines: Seq<Seq<char>>)
    requires
        forall|i: int| 0 <= i < lines.len() ==> !(#[trigger] lines[i]).contains('\n'),
    ensures
        split_on(lines_text(lines), '\n') == lines.push(Seq::<char>::empty()),
    decreases lines.len(),
{
    let none = Seq::<char>::empty();
    if lines.len() > 0 {
        let front = lines.drop_last();
        let last = lines.last();
        assert(lines[lines.len() - 1] == last);
        assert forall|i: int| 0 <= i < front.len() implies !(#[trigger] front[i]).contains(
            '\n',
        ) by {
            assert(front[i] == lines[i]);
        }
        lemma_split_lines(front);
        let t = lines_text(front);
        lemma_split_append(t, last, '\n');
        assert(front.push(none).drop_last() =~= front);
        assert(none + last =~= last);
        assert(split_on(t + last, '\n') == front.push(last));
        let whole = (t + last).push('\n');
        assert(whole.drop_last() =~= t + last);
        assert(front.push(last) =~= lines);
    } else {
        assert(split_on(none, '\n') =~= lines.push(none));
    }
}

proof fn lemma_read_more(state: ReadState, a: Seq<Seq<char>>, b: Seq<Seq<char>>)
    ensures
        read_lines(state, a + b) == read_lines(read_lines(state, a), b),
    decreases b.len(),
{
    if b.len() > 0 {
        lemma_read_more(state, a, b.drop_last());
        assert((a + b).drop_last() =~= a + b.drop_last());
        assert((a + b).last() == b.last());
    } else {
        assert(a + b =~= a);
    }
}

proof fn lemma_read_single(state: ReadState, line: Seq<char>)
    ensures
        read_lines(state, seq![line]) == read_line(state, trimmed(line)),
{
    let front = seq![line].drop_last();
    assert(front.len() == 0);
    assert(read_lines(state, front) == state);
}

proof fn lemma_nothing_quoted(line: Seq<char>)
    requires
        !line.contains('\''),
    ensures
        quoted(line) == Seq::<Seq<char>>::empty(),
{
    let none = Seq::<char>::empty();
    lemma_split_append(none, line, '\'');
    assert(none + line =~= line);
    assert(split_on(none, '\'') =~= seq![none]);
    assert(split_on(line, '\'').len() == 1);
    assert(quoted(line) =~= Seq::<Seq<char>>::empty());
}

/// A line of the block of files stands for its entry.
proof fn lemma_entry_line(entry: Seq<char>)
    requires
        is_entry(entry),
        !entry.contains('}'),
    ensures
        ({
            let line = "    '"@ + entry + "',"@;
            &&& !line.contains('\n')
            &&& trimmed(line).len() > 0
            &&& quoted(trimmed(line)) == seq![entry]
            &&& !trimmed(line).contains('}')
        }),
{
    reveal_strlit("    '");
    reveal_strlit("',");
    let line = "    '"@ + entry + "',"@;
    let none = Seq::<char>::empty();
    let comma = seq![','];
    let short = seq!['\''] + entry + seq!['\'', ','];
    reveal_with_fuel(trim_start, 6);
    assert(line.drop_first().drop_first().drop_first().drop_first() =~= short);
    assert(line[0] == ' ' && line.drop_first()[0] == ' ' && line.drop_first().drop_first()[0]
        == ' ' && line.drop_first().drop_first().drop_first()[0] == ' ');
    assert(short[0] == '\'');
    assert(trim_start(line) == short);
    assert(short.last() == ',');
    assert(trim_end(short) == short);
    assert(trimmed(line) == short);
    let pieces = seq![none, entry, comma];
    assert(join(pieces, '\'') =~= short) by {
        let two = pieces.drop_last();
        let one = two.drop_last();
        assert(two.len() == 2 && one.len() == 1);
        assert(one[0] == none && two.last() == entry && pieces.last() == comma);
        assert(join(one, '\'') == none);
        assert(join(two, '\'') == none.push('\'') + entry);
        assert(join(pieces, '\'') == (none.push('\'') + entry).push('\'') + comma);
    }
    assert forall|i: int| 0 <= i < pieces.len() implies !(#[trigger] pieces[i]).contains(
        '\'',
    ) by {}
    lemma_split_join(pieces, '\'');
    assert(quoted(short) =~= seq![entry]);
    assert(!short.contains('}')) by {
        if short.contains('}') {
            let k = choose|k: int| 0 <= k < short.len() && short[k] == '}';
            assert(entry[k - 1] == '}');
        }
    }
    assert(!line.contains('\n')) by {
        if line.contains('\n') {
            let k = choose|k: int| 0 <= k < line.len() && line[k] == '\n';
            assert(entry[k - 5] == '\n');
        }
    }
}

proof fn lemma_read_entries(state: ReadState, entries: Seq<Seq<char>>)
    requires
        state.in_files_block,
        forall|i: int|
            0 <= i < entries.len() ==> is_entry(#[trigger] entries[i]) && !entries[i].contains(
                '}',
            ),
    ensures
        read_lines(state, entry_lines(entries)) == (ReadState {
            manifest: ManifestModel {
                files_entries: state.manifest.files_entries + entries,
                ..state.manifest
            },
            in_files_block: true,
        }),
    decreases entries.len(),
{
    let lines = entry_lines(entries);
    if entries.len() > 0 {
        let front = entries.drop_last();
        let last = entries.last();
        assert(entries[entries.len() - 1] == last);
        assert forall|i: int| 0 <= i < front.len() implies is_entry(#[trigger] front[i])
            && !front[i].contains('}') by {
            assert(front[i] == entries[i]);
        }
        lemma_read_entries(state, front);
        lemma_entry_line(last);
        assert(lines.drop_last() =~= entry_lines(front));
        assert(lines.last() == "    '"@ + last + "',"@);
        assert(state.manifest.files_entries + front + seq![last]
            =~= state.manifest.files_entries + entries);
    } else {
        assert(state.manifest.files_entries + entries =~= state.manifest.files_entries);
    }
}

proof fn lemma_read_others(state: ReadState, lines: Seq<Seq<char>>)
    requires
        !state.in_files_block,
        forall|i: int| 0 <= i < lines.len() ==> is_other_line(#[trigger] lines[i]),
    ensures
        read_lines(state, lines) == (ReadState {
            manifest: ManifestModel {
                other_lines: state.manifest.other_lines + lines,
                ..state.manifest
            },
            in_files_block: false,
        }),
    decreases lines.len(),
{
    if lines.len() > 0 {
        let front = lines.drop_last();
        assert(lines[lines.len() - 1] == lines.last());
        assert forall|i: int| 0 <= i < front.len() implies is_other_line(#[trigger] front[i]) by {
            assert(front[i] == lines[i]);
        }
        lemma_read_others(state, front);
        assert((state.manifest.other_lines + front).push(lines.last())
            =~= state.manifest.other_lines + lines);
    } else {
        assert(state.manifest.other_lines + lines =~= state.manifest.other_lines);
    }
}

proof fn lemma_kinds_differ(line: Seq<char>)
    ensures
        has_prefix(line, "fx_version"@) ==> !has_prefix(line, "files"@),
        has_prefix(line, "game"@) ==> !has_prefix(line, "files"@) && !has_prefix(
            line,
            "fx_version"@,
        ),
{
    reveal_strlit("files");
    reveal_strlit("fx_version");
    reveal_strlit("game");
    if has_prefix(line, "files"@) {
        assert(line.take(5)[1] == 'i');
        assert(line[1] == 'i');
        assert(line.take(5)[0] == 'f');
    }
    if has_prefix(line, "fx_version"@) {
        assert(line.take(10)[1] == 'x');
        assert(line[1] == 'x');
        assert(line.take(10)[0] == 'f');
    }
    if has_prefix(line, "game"@) {
        assert(line.take(4)[0] == 'g');
        assert(line[0] == 'g');
    }
}

proof fn lemma_default_lines()
    ensures
        is_plain(default_version()),
        has_prefix(default_version(), "fx_version"@),
        is_plain(default_game()),
        has_prefix(default_game(), "game"@),
{
    reveal_strlit("fx_version 'cerulean'");
    reveal_strlit("game 'gta5'");
    reveal_strlit("fx_version");
    reveal_strlit("game");
    let v = default_version();
    let g = default_game();
    assert(v.take(10) =~= "fx_version"@);
    assert(g.take(4) =~= "game"@);
    assert(v[0] == 'f' && v.last() == '\'');
    assert(g[0] == 'g' && g.last() == '\'');
    assert(trim_start(v) == v && trim_end(v) == v);
    assert(trim_start(g) == g && trim_end(g) == g);
    assert(!v.contains('\n'));
    assert(!g.contains('\n'));
}

/// The manifest that a merged one is read back as: the version and the game
/// are stated in any case.
pub open spec fn completed(m: ManifestModel) -> ManifestModel {
    ManifestModel {
        fx_version: Some(
            match m.fx_version {
                Some(v) => v,
                None => default_version(),
            },
        ),
        game: Some(
            match m.game {
                Some(g) => g,
                None => default_game(),
            },
        ),
        ..m
    }
}

/// The head of a merged manifest, read from nothing.
proof fn lemma_read_head(m: ManifestModel)
    requires
        is_clean(m),
    ensures
        ({
            let start = ReadState { manifest: empty_manifest(), in_files_block: false };
            let full = completed(m);
            &&& is_plain(full.fx_version->0)
            &&& is_plain(full.game->0)
            &&& read_lines(start, seq![full.fx_version->0, full.game->0]) == (ReadState {
                manifest: ManifestModel {
                    fx_version: full.fx_version,
                    game: full.game,
                    files_entries: Seq::empty(),
                    other_lines: Seq::empty(),
                },
                in_files_block: false,
            })
        }),
{
    lemma_default_lines();
    let start = ReadState { manifest: empty_manifest(), in_files_block: false };
    let v = completed(m).fx_version->0;
    let g = completed(m).game->0;
    lemma_kinds_differ(v);
    lemma_kinds_differ(g);
    assert(seq![v, g] =~= seq![v] + seq![g]);
    lemma_read_more(start, seq![v], seq![g]);
    lemma_read_single(start, v);
    lemma_read_single(read_lines(start, seq![v]), g);
}

/// The block of files of a merged manifest.
proof fn lemma_read_block(state: ReadState, entries: Seq<Seq<char>>)
    requires
        !state.in_files_block,
        forall|i: int|
            0 <= i < entries.len() ==> is_entry(#[trigger] entries[i]) && !entries[i].contains(
                '}',
            ),
    ensures
        read_lines(state, seq![""@, "files {"@] + entry_lines(entries) + seq!["}"@]) == (
        ReadState {
            manifest: ManifestModel {
                files_entries: state.manifest.files_entries + entries,
                ..state.manifest
            },
            in_files_block: false,
        }),
{
    reveal_strlit("");
    reveal_strlit("files {");
    reveal_strlit("files");
    reveal_strlit("}");
    let open = "files {"@;
    let close = "}"@;
    let lines = entry_lines(entries);
    assert(seq![""@, open] =~= seq![""@] + seq![open]);
    lemma_read_more(state, seq![""@, open] + lines, seq![close]);
    lemma_read_more(state, seq![""@, open], lines);
    lemma_read_more(state, seq![""@], seq![open]);
    lemma_read_single(state, ""@);
    assert(trimmed(""@).len() == 0);
    lemma_read_single(state, open);
    assert(open[0] == 'f' && open.last() == '{');
    assert(trim_start(open) == open && trim_end(open) == open);
    assert(open.take(5) =~= "files"@);
    assert(!open.contains('\'') && !open.contains('}'));
    lemma_nothing_quoted(open);
    let opened = read_lines(state, seq![""@, open]);
    assert(state.manifest.files_entries + Seq::<Seq<char>>::empty()
        =~= state.manifest.files_entries);
    lemma_read_entries(opened, entries);
    let filled = read_lines(opened, lines);
    lemma_read_single(filled, close);
    assert(close[0] == '}' && close.last() == '}');
    assert(trim_start(close) == close && trim_end(close) == close);
    assert(!close.contains('\''));
    lemma_nothing_quoted(close);
    assert(filled.manifest.files_entries + Seq::<Seq<char>>::empty()
        =~= filled.manifest.files_entries);
}

proof fn lemma_merged_lines_plain(m: ManifestModel)
    requires
        is_clean(m),
        forall|i: int|
            0 <= i < m.files_entries.len() ==> !(#[trigger] m.files_entries[i]).contains('}'),
    ensures
        forall|i: int| 0 <= i < merged_lines(m).len() ==> !(#[trigger] merged_lines(m)[i]).contains(
            '\n',
        ),
{
    reveal_strlit("");
    reveal_strlit("files {");
    reveal_strlit("}");
    lemma_read_head(m);
    let lines = merged_lines(m);
    let entries = entry_lines(m.files_entries);
    let files_len: int = if m.files_entries.len() > 0 {
        3 + entries.len() as int
    } else {
        0
    };
    assert forall|i: int| 0 <= i < lines.len() implies !(#[trigger] lines[i]).contains('\n') by {
        if i < 2 {
            assert(lines[i] == completed(m).fx_version->0 || lines[i] == completed(m).game->0);
        } else if i < 2 + files_len {
            if i == 2 {
                assert(lines[i] == ""@);
            } else if i == 3 {
                assert(lines[i] == "files {"@);
            } else if i < 4 + entries.len() {
                assert(lines[i] == entries[i - 4]);
                lemma_entry_line(m.files_entries[i - 4]);
            } else {
                assert(lines[i] == "}"@);
            }
        } else {
            let k = i - 2 - files_len;
            if k == 0 {
                assert(lines[i] == ""@);
            } else {
                assert(lines[i] == m.other_lines[k - 1]);
            }
        }
    }
}

proof fn lemma_read_merged(m: ManifestModel)
    requires
        is_clean(m),
        forall|i: int|
            0 <= i < m.files_entries.len() ==> !(#[trigger] m.files_entries[i]).contains('}'),
    ensures
        manifest_of(lines_text(merged_lines(m))) == completed(m),
{
    reveal_strlit("");
    let start = ReadState { manifest: empty_manifest(), in_files_block: false };
    let full = completed(m);
    let head = seq![full.fx_version->0, full.game->0];
    let none = Seq::<Seq<char>>::empty();
    let files = if m.files_entries.len() > 0 {
        seq![""@, "files {"@] + entry_lines(m.files_entries) + seq!["}"@]
    } else {
        none
    };
    let others = if m.other_lines.len() > 0 {
        seq![""@] + m.other_lines
    } else {
        none
    };
    let lines = merged_lines(m);
    assert(lines == head + files + others);
    lemma_merged_lines_plain(m);
    lemma_split_lines(lines);
    let empty_line = Seq::<char>::empty();
    assert(lines.push(empty_line) =~= lines + seq![empty_line]);
    lemma_read_more(start, lines, seq![empty_line]);
    lemma_read_single(read_lines(start, lines), empty_line);
    assert(trimmed(empty_line).len() == 0);
    lemma_read_more(start, head + files, others);
    lemma_read_more(start, head, files);
    lemma_read_head(m);
    let a = read_lines(start, head);
    let b = read_lines(a, files);
    if m.files_entries.len() > 0 {
        lemma_read_block(a, m.files_entries);
        assert(a.manifest.files_entries + m.files_entries =~= m.files_entries);
    } else {
        assert(m.files_entries =~= none);
    }
    if m.other_lines.len() > 0 {
        lemma_read_more(b, seq![""@], m.other_lines);
        lemma_read_single(b, ""@);
        assert(trimmed(""@).len() == 0);
        lemma_read_others(b, m.other_lines);
        assert(b.manifest.other_lines + m.other_lines =~= m.other_lines);
    } else {
        assert(m.other_lines =~= none);
    }
    assert(read_lines(start, lines).manifest =~= full);
}

/// A merged manifest is read back as what was merged: one block with all the
/// files, and all other lines, with a version and a game in any case. This
/// takes files without closing braces in their names, which would end the
/// block early.
pub proof fn law_merged_is_read_back(manifests: Seq<Option<Seq<char>>>)
    requires
        forall|i: int|
            0 <= i < merged_upto(manifests, manifests.len()).manifest.files_entries.len() ==> !(
            #[trigger] merged_upto(
                manifests,
                manifests.len(),
            ).manifest.files_entries[i]).contains('}'),
    ensures
        manifest_of(merged_text(merged_upto(manifests, manifests.len()))) == completed(
            merged_upto(manifests, manifests.len()).manifest,
        ),
{
    let state = merged_upto(manifests, manifests.len());
    law_merged_is_clean(manifests, manifests.len());
    if state.any_manifest {
        lemma_read_merged(state.manifest);
    } else {
        lemma_nothing_merged(manifests, manifests.len());
        assert(merged_lines(empty_manifest()) =~= seq![default_version(), default_game()]);
        lemma_read_merged(empty_manifest());
    }
}

proof fn lemma_nothing_merged(manifests: Seq<Option<Seq<char>>>, n: nat)
    requires
        !merged_upto(manifests, n).any_manifest,
    ensures
        merged_upto(manifests, n).manifest == empty_manifest(),
    decreases n,
{
    if n > 0 {
        lemma_nothing_merged(manifests, (n - 1) as nat);
    }
}

} // verus!
