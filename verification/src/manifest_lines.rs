//! What holds of the lines of a manifest, and of what packs add to a merged one.

use crate::assets::lemma_split_append;
use crate::manifest::{
    empty_manifest, lines_text, manifest_of, merged_lines, merged_text, merged_upto, quoted,
    read_line, read_lines, union_list, MergedModel, ReadState,
};
use crate::text::{has_prefix, lemma_split_nonempty, split_on, trimmed};
use vstd::prelude::*;

verus! {

// ---------------------------------------------------------------------------
// Quotes
// ---------------------------------------------------------------------------

proof fn lemma_split_first(a: Seq<char>, sep: char, b: Seq<char>)
    requires
        !a.contains(sep),
    ensures
        split_on(a.push(sep) + b, sep) == seq![a] + split_on(b, sep),
    decreases b.len(),
{
    let s = a.push(sep) + b;
    if b.len() == 0 {
        let e = Seq::<char>::empty();
        lemma_split_append(e, a, sep);
        assert(e + a =~= a);
        assert(split_on(e, sep) =~= seq![e]);
        assert(split_on(a, sep) =~= seq![a]);
        assert(s.drop_last() =~= a);
        assert(split_on(s, sep) =~= seq![a] + split_on(b, sep));
    } else {
        let front = b.drop_last();
        lemma_split_first(a, sep, front);
        lemma_split_nonempty(front, sep);
        assert(s.drop_last() =~= a.push(sep) + front);
        assert(s.last() == b.last());
        let before = split_on(front, sep);
        let whole = seq![a] + before;
        assert(whole.last() == before.last());
        assert(whole.drop_last() =~= seq![a] + before.drop_last());
        assert(split_on(s, sep) =~= seq![a] + split_on(b, sep));
    }
}

/// The first text between quotes is what stands between the first two of them,
/// and the others are those behind. Without two quotes there is none.
pub proof fn law_quotes_pair_up(before: Seq<char>, entry: Seq<char>, after: Seq<char>)
    requires
        !before.contains('\''),
        !entry.contains('\''),
    ensures
        quoted(before.push('\'') + entry.push('\'') + after) == seq![entry] + quoted(after),
        quoted(before) == Seq::<Seq<char>>::empty(),
        quoted(before.push('\'') + entry) == Seq::<Seq<char>>::empty(),
{
    let q = '\'';
    let rest = entry.push(q) + after;
    let line = before.push(q) + entry.push(q) + after;
    assert(line =~= before.push(q) + rest);
    lemma_split_first(before, q, rest);
    lemma_split_first(entry, q, after);
    lemma_split_nonempty(after, q);
    let pieces = split_on(after, q);
    let all = split_on(line, q);
    assert(all =~= seq![before, entry] + pieces);
    let res = seq![entry] + quoted(after);
    assert(quoted(line).len() == res.len());
    assert forall|k: int| 0 <= k < res.len() implies quoted(line)[k] == res[k] by {
        if k > 0 {
            assert(all[2 * k + 1] == pieces[2 * (k - 1) + 1]);
        }
    }
    assert(quoted(line) =~= res);
    let e = Seq::<char>::empty();
    lemma_split_append(e, before, q);
    lemma_split_append(e, entry, q);
    assert(e + before =~= before);
    assert(e + entry =~= entry);
    assert(split_on(e, q) =~= seq![e]);
    assert(split_on(before, q) =~= seq![before]);
    assert(split_on(entry, q) =~= seq![entry]);
    lemma_split_first(before, q, entry);
    assert(quoted(before) =~= Seq::<Seq<char>>::empty());
    assert(quoted(before.push(q) + entry) =~= Seq::<Seq<char>>::empty());
}

// ---------------------------------------------------------------------------
// Lines
// ---------------------------------------------------------------------------

/// Whether a block of files that was opened on an earlier line still goes on:
/// no line since then, that one counted, has a closing brace.
pub open spec fn is_open(lines: Seq<Seq<char>>, i: int) -> bool {
    exists|j: int|
        {
            &&& 0 <= j < i
            &&& has_prefix(trimmed(#[trigger] lines[j]), "files"@)
            &&& forall|k: int| j <= k < i ==> !trimmed(#[trigger] lines[k]).contains('}')
        }
}

/// Whether a line holds entries: it opens a block of files or is in an open one.
pub open spec fn holds_entries(lines: Seq<Seq<char>>, i: int) -> bool {
    is_open(lines, i) || has_prefix(trimmed(lines[i]), "files"@)
}

/// Whether a line outside all blocks of files starts with a word.
pub open spec fn states(lines: Seq<Seq<char>>, i: int, word: Seq<char>) -> bool {
    !holds_entries(lines, i) && has_prefix(trimmed(lines[i]), word)
}

/// Whether a line is none of those that are told apart, and not blank.
pub open spec fn is_other(lines: Seq<Seq<char>>, i: int) -> bool {
    &&& !holds_entries(lines, i)
    &&& trimmed(lines[i]).len() > 0
    &&& !has_prefix(trimmed(lines[i]), "fx_version"@)
    &&& !has_prefix(trimmed(lines[i]), "game"@)
}

/// The entries of the first `n` lines, in their order.
pub open spec fn entries_upto(lines: Seq<Seq<char>>, n: nat) -> Seq<Seq<char>>
    decreases n,
{
    if n == 0 {
        Seq::empty()
    } else {
        entries_upto(lines, (n - 1) as nat) + if holds_entries(lines, n - 1) {
            quoted(trimmed(lines[n - 1]))
        } else {
            Seq::empty()
        }
    }
}

/// The other lines among the first `n`, in their order.
pub open spec fn others_upto(lines: Seq<Seq<char>>, n: nat) -> Seq<Seq<char>>
    decreases n,
{
    if n == 0 {
        Seq::empty()
    } else {
        others_upto(lines, (n - 1) as nat) + if is_other(lines, n - 1) {
            seq![trimmed(lines[n - 1])]
        } else {
            Seq::empty()
        }
    }
}

/// Whether `line` is the first of `n` lines that states a word, if there is one.
pub open spec fn is_first_stated(
    lines: Seq<Seq<char>>,
    n: int,
    word: Seq<char>,
    line: Option<Seq<char>>,
) -> bool {
    match line {
        None => forall|i: int| 0 <= i < n ==> !#[trigger] states(lines, i, word),
        Some(l) => exists|i: int|
            {
                &&& 0 <= i < n
                &&& #[trigger] states(lines, i, word)
                &&& l == trimmed(lines[i])
                &&& forall|k: int| 0 <= k < i ==> !#[trigger] states(lines, k, word)
            },
    }
}

proof fn lemma_open_next(lines: Seq<Seq<char>>, i: int)
    requires
        0 <= i < lines.len(),
    ensures
        is_open(lines, i + 1) == (holds_entries(lines, i) && !trimmed(lines[i]).contains('}')),
{
    if is_open(lines, i + 1) {
        let j = choose|j: int|
            {
                &&& 0 <= j < i + 1
                &&& has_prefix(trimmed(#[trigger] lines[j]), "files"@)
                &&& forall|k: int| j <= k < i + 1 ==> !trimmed(#[trigger] lines[k]).contains('}')
            };
        assert(!trimmed(lines[i]).contains('}'));
        if j < i {
            assert(is_open(lines, i));
        }
    }
    if holds_entries(lines, i) && !trimmed(lines[i]).contains('}') {
        if is_open(lines, i) {
            let j = choose|j: int|
                {
                    &&& 0 <= j < i
                    &&& has_prefix(trimmed(#[trigger] lines[j]), "files"@)
                    &&& forall|k: int| j <= k < i ==> !trimmed(#[trigger] lines[k]).contains('}')
                };
            assert(has_prefix(trimmed(lines[j]), "files"@));
            assert forall|k: int| j <= k < i + 1 implies !trimmed(#[trigger] lines[k]).contains(
                '}',
            ) by {}
        } else {
            assert(has_prefix(trimmed(lines[i]), "files"@));
        }
    }
}

proof fn lemma_first_stated(
    lines: Seq<Seq<char>>,
    n: int,
    word: Seq<char>,
    before: Option<Seq<char>>,
    after: Option<Seq<char>>,
)
    requires
        0 <= n < lines.len(),
        is_first_stated(lines, n, word, before),
        after == if before is None && states(lines, n, word) {
            Some(trimmed(lines[n]))
        } else {
            before
        },
    ensures
        is_first_stated(lines, n + 1, word, after),
{
    if before is None && states(lines, n, word) {
        assert(states(lines, n, word));
    } else if let Some(l) = before {
        let i = choose|i: int|
            {
                &&& 0 <= i < n
                &&& #[trigger] states(lines, i, word)
                &&& l == trimmed(lines[i])
                &&& forall|k: int| 0 <= k < i ==> !#[trigger] states(lines, k, word)
            };
        assert(states(lines, i, word));
    }
}

proof fn lemma_read_upto(lines: Seq<Seq<char>>, n: nat)
    requires
        n <= lines.len(),
    ensures
        ({
            let start = ReadState { manifest: empty_manifest(), in_files_block: false };
            let state = read_lines(start, lines.take(n as int));
            &&& state.in_files_block == is_open(lines, n as int)
            &&& state.manifest.files_entries == entries_upto(lines, n)
            &&& state.manifest.other_lines == others_upto(lines, n)
            &&& is_first_stated(lines, n as int, "fx_version"@, state.manifest.fx_version)
            &&& is_first_stated(lines, n as int, "game"@, state.manifest.game)
        }),
    decreases n,
{
    let start = ReadState { manifest: empty_manifest(), in_files_block: false };
    if n == 0 {
        assert(lines.take(0).len() == 0);
    } else {
        let i = n - 1;
        lemma_read_upto(lines, i as nat);
        lemma_open_next(lines, i);
        let before = read_lines(start, lines.take(i));
        let line = trimmed(lines[i]);
        assert(lines.take(n as int).drop_last() =~= lines.take(i));
        assert(lines.take(n as int).last() == lines[i]);
        let after = read_line(before, line);
        assert(read_lines(start, lines.take(n as int)) == after);
        reveal_strlit("files");
        reveal_strlit("fx_version");
        reveal_strlit("game");
        assert(has_prefix(line, "fx_version"@) ==> line[0] == 'f' && line[1] == 'x') by {
            if has_prefix(line, "fx_version"@) {
                assert(line.take(10)[0] == line[0] && line.take(10)[1] == line[1]);
            }
        }
        assert(has_prefix(line, "game"@) ==> line[0] == 'g') by {
            if has_prefix(line, "game"@) {
                assert(line.take(4)[0] == line[0]);
            }
        }
        if line.len() == 0 {
            assert(!line.contains('}'));
            assert(split_on(line, '\'') =~= seq![Seq::<char>::empty()]);
            assert(quoted(line) =~= Seq::<Seq<char>>::empty());
        }
        assert(after.manifest.files_entries =~= entries_upto(lines, n));
        assert(after.manifest.other_lines =~= others_upto(lines, n));
        lemma_first_stated(
            lines,
            i,
            "fx_version"@,
            before.manifest.fx_version,
            after.manifest.fx_version,
        );
        lemma_first_stated(lines, i, "game"@, before.manifest.game, after.manifest.game);
    }
}

/// A manifest says what its lines say, in their order. The entries are the
/// quoted texts of all lines that open a block of files, whether or not they
/// close it, and of all lines up to the one that closes it. The version and the
/// game are the first lines outside of such blocks that start with the word, and
/// all others that are not blank are kept as they are.
pub proof fn law_lines_are_read(text: Seq<char>)
    ensures
        ({
            let lines = split_on(text, '\n');
            let m = manifest_of(text);
            &&& m.files_entries == entries_upto(lines, lines.len())
            &&& m.other_lines == others_upto(lines, lines.len())
            &&& is_first_stated(lines, lines.len() as int, "fx_version"@, m.fx_version)
            &&& is_first_stated(lines, lines.len() as int, "game"@, m.game)
        }),
{
    let lines = split_on(text, '\n');
    lemma_read_upto(lines, lines.len());
    assert(lines.take(lines.len() as int) =~= lines);
}

proof fn lemma_entries_contain(lines: Seq<Seq<char>>, n: nat, entry: Seq<char>)
    requires
        n <= lines.len(),
    ensures
        entries_upto(lines, n).contains(entry) <==> exists|i: int|
            0 <= i < n && #[trigger] holds_entries(lines, i) && quoted(
                trimmed(lines[i]),
            ).contains(entry),
        others_upto(lines, n).contains(entry) <==> exists|i: int|
            0 <= i < n && #[trigger] is_other(lines, i) && trimmed(lines[i]) == entry,
    decreases n,
{
    if n > 0 {
        let e = n - 1;
        lemma_entries_contain(lines, e as nat, entry);
        let before = entries_upto(lines, e as nat);
        let more = if holds_entries(lines, e) {
            quoted(trimmed(lines[e]))
        } else {
            Seq::empty()
        };
        lemma_sum_contains(before, more, entry);
        let plain = others_upto(lines, e as nat);
        let added = if is_other(lines, e) {
            seq![trimmed(lines[e])]
        } else {
            Seq::empty()
        };
        lemma_sum_contains(plain, added, entry);
        assert(added.contains(entry) <==> is_other(lines, e) && trimmed(lines[e]) == entry) by {
            if is_other(lines, e) {
                assert(added[0] == trimmed(lines[e]));
            }
        }
    }
}

proof fn lemma_sum_contains(a: Seq<Seq<char>>, b: Seq<Seq<char>>, x: Seq<char>)
    ensures
        (a + b).contains(x) <==> a.contains(x) || b.contains(x),
{
    let s = a + b;
    if a.contains(x) {
        let k = choose|k: int| 0 <= k < a.len() && a[k] == x;
        assert(s[k] == x);
    }
    if b.contains(x) {
        let k = choose|k: int| 0 <= k < b.len() && b[k] == x;
        assert(s[a.len() + k] == x);
    }
    if s.contains(x) {
        let k = choose|k: int| 0 <= k < s.len() && s[k] == x;
        if k < a.len() {
            assert(a[k] == x);
        } else {
            assert(b[k - a.len()] == x);
        }
    }
}

/// A text is among the entries of a manifest if and only if it is quoted on a
/// line that opens a block of files, or on one in an open block; and a line is
/// among the others if and only if it is one of them.
pub proof fn law_no_entry_is_lost(text: Seq<char>, entry: Seq<char>)
    ensures
        ({
            let lines = split_on(text, '\n');
            &&& manifest_of(text).files_entries.contains(entry) <==> exists|i: int|
                0 <= i < lines.len() && #[trigger] holds_entries(lines, i) && quoted(
                    trimmed(lines[i]),
                ).contains(entry)
            &&& manifest_of(text).other_lines.contains(entry) <==> exists|i: int|
                0 <= i < lines.len() && #[trigger] is_other(lines, i) && trimmed(lines[i]) == entry
        }),
{
    let lines = split_on(text, '\n');
    law_lines_are_read(text);
    lemma_entries_contain(lines, lines.len(), entry);
}

// ---------------------------------------------------------------------------
// Merging
// ---------------------------------------------------------------------------

/// Whether a file or another line stands in the manifest of a pack.
pub open spec fn is_said_by(text: Option<Seq<char>>, entry: Seq<char>, as_file: bool) -> bool {
    text matches Some(t) && if as_file {
        manifest_of(t).files_entries.contains(entry)
    } else {
        manifest_of(t).other_lines.contains(entry)
    }
}

/// Whether a pack behind the first has a file or another line that no pack
/// before it has.
pub open spec fn adds_something(manifests: Seq<Option<Seq<char>>>, i: int) -> bool {
    &&& i > 0
    &&& exists|entry: Seq<char>, as_file: bool| #[trigger]
        is_said_by(manifests[i], entry, as_file) && forall|j: int|
            0 <= j < i ==> !is_said_by(#[trigger] manifests[j], entry, as_file)
}

proof fn lemma_union_kept(list: Seq<Seq<char>>, more: Seq<Seq<char>>)
    ensures
        union_list(list, more).len() >= list.len(),
        union_list(list, more).take(list.len() as int) == list,
        forall|x: Seq<char>| #[trigger]
            union_list(list, more).contains(x) <==> list.contains(x) || more.contains(x),
        union_list(list, more).len() > list.len() <==> exists|x: Seq<char>| #[trigger]
            more.contains(x) && !list.contains(x),
    decreases more.len(),
{
    let all = union_list(list, more);
    if more.len() == 0 {
        assert(list.take(list.len() as int) =~= list);
    } else {
        let front = more.drop_last();
        let e = more.last();
        lemma_union_kept(list, front);
        let before = union_list(list, front);
        assert(more =~= front + seq![e]);
        assert forall|x: Seq<char>| #[trigger] more.contains(x) <==> front.contains(x) || x
            == e by {
            lemma_sum_contains(front, seq![e], x);
            assert(seq![e].contains(x) <==> x == e) by {
                assert(seq![e][0] == e);
            }
        }
        if before.contains(e) {
            assert(all == before);
            if list.contains(e) {
                assert forall|x: Seq<char>| #[trigger] more.contains(x) && !list.contains(x)
                    implies front.contains(x) && !list.contains(x) by {}
            } else {
                assert(front.contains(e));
            }
        } else {
            assert(all =~= before + seq![e]);
            assert(all.take(list.len() as int) =~= before.take(list.len() as int));
            assert(more.contains(e) && !list.contains(e));
            assert forall|x: Seq<char>| #[trigger] all.contains(x) <==> list.contains(x)
                || more.contains(x) by {
                lemma_sum_contains(before, seq![e], x);
                assert(seq![e].contains(x) <==> x == e) by {
                    assert(seq![e][0] == e);
                }
            }
        }
        if exists|x: Seq<char>| #[trigger] front.contains(x) && !list.contains(x) {
            let x = choose|x: Seq<char>| #[trigger] front.contains(x) && !list.contains(x);
            assert(more.contains(x) && !list.contains(x));
        }
        if exists|x: Seq<char>| #[trigger] more.contains(x) && !list.contains(x) {
            let x = choose|x: Seq<char>| #[trigger] more.contains(x) && !list.contains(x);
            if x != e {
                assert(front.contains(x) && !list.contains(x));
            }
        }
    }
}

proof fn lemma_merged_contains(
    manifests: Seq<Option<Seq<char>>>,
    n: nat,
    entry: Seq<char>,
    as_file: bool,
)
    requires
        n <= manifests.len(),
    ensures
        (if as_file {
            merged_upto(manifests, n).manifest.files_entries
        } else {
            merged_upto(manifests, n).manifest.other_lines
        }).contains(entry) <==> exists|i: int|
            0 <= i < n && is_said_by(#[trigger] manifests[i], entry, as_file),
    decreases n,
{
    if n > 0 {
        let e = n - 1;
        lemma_merged_contains(manifests, e as nat, entry, as_file);
        let before = merged_upto(manifests, e as nat).manifest;
        if let Some(t) = manifests[e] {
            let other = manifest_of(t);
            lemma_union_kept(before.files_entries, other.files_entries);
            lemma_union_kept(before.other_lines, other.other_lines);
            let files = union_list(before.files_entries, other.files_entries);
            let lines = union_list(before.other_lines, other.other_lines);
            assert(files.contains(entry) <==> before.files_entries.contains(entry)
                || other.files_entries.contains(entry));
            assert(lines.contains(entry) <==> before.other_lines.contains(entry)
                || other.other_lines.contains(entry));
        }
    }
}

/// A merged manifest has a file, or another line, if and only if one of the
/// packs has it: nothing is lost and nothing made up. What the first packs have
/// stands in front of what the others add.
pub proof fn law_merged_is_the_union(
    manifests: Seq<Option<Seq<char>>>,
    n: nat,
    m: nat,
    entry: Seq<char>,
)
    requires
        n <= m <= manifests.len(),
    ensures
        merged_upto(manifests, m).manifest.files_entries.contains(entry) <==> exists|i: int|
            0 <= i < m && is_said_by(#[trigger] manifests[i], entry, true),
        merged_upto(manifests, m).manifest.other_lines.contains(entry) <==> exists|i: int|
            0 <= i < m && is_said_by(#[trigger] manifests[i], entry, false),
        merged_upto(manifests, n).manifest.files_entries.is_prefix_of(
            merged_upto(manifests, m).manifest.files_entries,
        ),
        merged_upto(manifests, n).manifest.other_lines.is_prefix_of(
            merged_upto(manifests, m).manifest.other_lines,
        ),
    decreases m,
{
    lemma_merged_contains(manifests, m, entry, true);
    lemma_merged_contains(manifests, m, entry, false);
    if n < m {
        law_merged_is_the_union(manifests, n, (m - 1) as nat, entry);
        let start = merged_upto(manifests, n).manifest;
        let before = merged_upto(manifests, (m - 1) as nat).manifest;
        let after = merged_upto(manifests, m).manifest;
        if let Some(t) = manifests[m - 1] {
            let other = manifest_of(t);
            lemma_union_kept(before.files_entries, other.files_entries);
            lemma_union_kept(before.other_lines, other.other_lines);
            lemma_prefix_kept(start.files_entries, before.files_entries, after.files_entries);
            lemma_prefix_kept(start.other_lines, before.other_lines, after.other_lines);
        }
    }
}

proof fn lemma_prefix_kept(a: Seq<Seq<char>>, b: Seq<Seq<char>>, c: Seq<Seq<char>>)
    requires
        a.is_prefix_of(b),
        b.len() <= c.len(),
        c.take(b.len() as int) == b,
    ensures
        a.is_prefix_of(c),
{
    assert forall|k: int| 0 <= k < a.len() implies a[k] == c[k] by {
        assert(a[k] == b[k]);
        assert(c.take(b.len() as int)[k] == c[k]);
    }
    assert(a =~= c.subrange(0, a.len() as int));
}

/// The order within one pack is kept: its files that were not there before
/// follow in the order in which the pack has them.
pub proof fn law_added_entries_keep_their_order(
    list: Seq<Seq<char>>,
    more: Seq<Seq<char>>,
    entry: Seq<char>,
)
    ensures
        union_list(list, more.push(entry)) == if union_list(list, more).contains(entry) {
            union_list(list, more)
        } else {
            union_list(list, more).push(entry)
        },
        union_list(list, Seq::empty()) == list,
{
    assert(more.push(entry).drop_last() =~= more);
    assert(more.push(entry).last() == entry);
}

/// There is a warning about the merged manifest if and only if a pack behind the
/// first adds a file or another line, whatever it says of the version and the
/// game.
pub proof fn law_additions_are_warned_of(manifests: Seq<Option<Seq<char>>>, n: nat)
    requires
        n <= manifests.len(),
    ensures
        merged_upto(manifests, n).any_extra <==> exists|i: int|
            0 <= i < n && #[trigger] adds_something(manifests, i),
        merged_upto(manifests, n).any_manifest <==> exists|i: int|
            0 <= i < n && (#[trigger] manifests[i]) is Some,
    decreases n,
{
    if n > 0 {
        let e = n - 1;
        law_additions_are_warned_of(manifests, e as nat);
        let state = merged_upto(manifests, e as nat);
        let before = state.manifest;
        if let Some(t) = manifests[e] {
            let other = manifest_of(t);
            lemma_union_kept(before.files_entries, other.files_entries);
            lemma_union_kept(before.other_lines, other.other_lines);
            let more_files = exists|x: Seq<char>| #[trigger]
                other.files_entries.contains(x) && !before.files_entries.contains(x);
            let more_lines = exists|x: Seq<char>| #[trigger]
                other.other_lines.contains(x) && !before.other_lines.contains(x);
            if more_files {
                let x = choose|x: Seq<char>| #[trigger]
                    other.files_entries.contains(x) && !before.files_entries.contains(x);
                lemma_merged_contains(manifests, e as nat, x, true);
                assert(is_said_by(manifests[e], x, true));
            }
            if more_lines {
                let x = choose|x: Seq<char>| #[trigger]
                    other.other_lines.contains(x) && !before.other_lines.contains(x);
                lemma_merged_contains(manifests, e as nat, x, false);
                assert(is_said_by(manifests[e], x, false));
            }
            if adds_something(manifests, e) {
                let (x, as_file) = choose|x: Seq<char>, as_file: bool| #[trigger]
                    is_said_by(manifests[e], x, as_file) && forall|j: int|
                        0 <= j < e ==> !is_said_by(#[trigger] manifests[j], x, as_file);
                lemma_merged_contains(manifests, e as nat, x, as_file);
                if as_file {
                    assert(other.files_entries.contains(x));
                } else {
                    assert(other.other_lines.contains(x));
                }
            }
            assert(adds_something(manifests, e) <==> e > 0 && (more_files || more_lines));
        } else {
            assert(!adds_something(manifests, e));
        }
    }
}

/// Whether `line` is the first that one of the manifests has for the version, or
/// for the game.
pub open spec fn is_first_said(
    manifests: Seq<Option<Seq<char>>>,
    n: int,
    of_version: bool,
    line: Option<Seq<char>>,
) -> bool {
    match line {
        None => forall|i: int|
            0 <= i < n ==> said_line(#[trigger] manifests[i], of_version) is None,
        Some(l) => exists|i: int|
            {
                &&& 0 <= i < n
                &&& said_line(#[trigger] manifests[i], of_version) == Some(l)
                &&& forall|k: int|
                    0 <= k < i ==> said_line(#[trigger] manifests[k], of_version) is None
            },
    }
}

/// What a manifest says of the version, or of the game.
pub open spec fn said_line(text: Option<Seq<char>>, of_version: bool) -> Option<Seq<char>> {
    match text {
        None => None,
        Some(t) => if of_version {
            manifest_of(t).fx_version
        } else {
            manifest_of(t).game
        },
    }
}

/// The version and the game of a merged manifest are those of the first pack
/// that states them.
pub proof fn law_first_statement_is_kept(manifests: Seq<Option<Seq<char>>>, n: nat)
    requires
        n <= manifests.len(),
    ensures
        is_first_said(
            manifests,
            n as int,
            true,
            merged_upto(manifests, n).manifest.fx_version,
        ),
        is_first_said(manifests, n as int, false, merged_upto(manifests, n).manifest.game),
    decreases n,
{
    if n > 0 {
        let e = n - 1;
        law_first_statement_is_kept(manifests, e as nat);
        let before = merged_upto(manifests, e as nat).manifest;
        let after = merged_upto(manifests, n).manifest;
        lemma_first_said(manifests, e, true, before.fx_version, after.fx_version);
        lemma_first_said(manifests, e, false, before.game, after.game);
    }
}

proof fn lemma_first_said(
    manifests: Seq<Option<Seq<char>>>,
    n: int,
    of_version: bool,
    before: Option<Seq<char>>,
    after: Option<Seq<char>>,
)
    requires
        0 <= n < manifests.len(),
        is_first_said(manifests, n, of_version, before),
        after == if before is None {
            said_line(manifests[n], of_version)
        } else {
            before
        },
    ensures
        is_first_said(manifests, n + 1, of_version, after),
{
    if before is None {
        if after is Some {
            assert(said_line(manifests[n], of_version) == after);
        }
    } else {
        let l = before->0;
        let i = choose|i: int|
            {
                &&& 0 <= i < n
                &&& said_line(#[trigger] manifests[i], of_version) == Some(l)
                &&& forall|k: int|
                    0 <= k < i ==> said_line(#[trigger] manifests[k], of_version) is None
            };
        assert(said_line(manifests[i], of_version) == Some(l));
    }
}

/// The text of a merged manifest: the version and the game, with a default where
/// none is stated, one block with all the files, each one quoted on a line of
/// its own, and all other lines.
pub proof fn law_merged_text_is_laid_out(state: MergedModel)
    ensures
        ({
            let m = state.manifest;
            let version = match m.fx_version {
                Some(v) => v,
                None => "fx_version 'cerulean'"@,
            };
            let game = match m.game {
                Some(g) => g,
                None => "game 'gta5'"@,
            };
            let lines = merged_lines(m);
            let n = m.files_entries.len() as int;
            let head = if n > 0 {
                n + 5
            } else {
                2
            };
            &&& state.any_manifest ==> merged_text(state) == lines_text(lines)
            &&& !state.any_manifest ==> merged_text(state) == lines_text(
                seq!["fx_version 'cerulean'"@, "game 'gta5'"@],
            )
            &&& lines[0] == version
            &&& lines[1] == game
            &&& n > 0 ==> lines[2] == ""@ && lines[3] == "files {"@ && lines[n + 4] == "}"@
            &&& forall|i: int|
                0 <= i < n ==> #[trigger] lines[4 + i] == "    '"@ + m.files_entries[i] + "',"@
            &&& m.other_lines.len() > 0 ==> lines[head] == ""@
            &&& forall|i: int|
                0 <= i < m.other_lines.len() ==> #[trigger] lines[head + 1 + i]
                    == m.other_lines[i]
            &&& lines.len() == head + if m.other_lines.len() > 0 {
                m.other_lines.len() + 1
            } else {
                0
            }
        }),
{
}

/// The lines of a text are ended one by one.
pub proof fn law_lines_are_ended(lines: Seq<Seq<char>>, more: Seq<Seq<char>>, line: Seq<char>)
    ensures
        lines_text(lines + more) == lines_text(lines) + lines_text(more),
        lines_text(seq![line]) == line.push('\n'),
    decreases more.len(),
{
    assert(seq![line].drop_last() =~= Seq::<Seq<char>>::empty());
    assert(seq![line].last() == line);
    assert(lines_text(Seq::<Seq<char>>::empty()) =~= Seq::<char>::empty());
    assert(lines_text(seq![line]) =~= line.push('\n'));
    if more.len() == 0 {
        assert(lines + more =~= lines);
        assert(lines_text(lines) + lines_text(more) =~= lines_text(lines));
    } else {
        law_lines_are_ended(lines, more.drop_last(), line);
        assert((lines + more).drop_last() =~= lines + more.drop_last());
        assert((lines + more).last() == more.last());
        assert(lines_text(lines + more) =~= lines_text(lines) + lines_text(more));
    }
}

} // verus!
