//! What holds of the names that the files of one pack get.

use crate::assets::{lemma_decimal_digits, lemma_last_position_at};
use crate::names::{
    collision_name, collision_suffix, extended_name, name_extension, name_stem, opt_string,
    pack_label,
};
use crate::placing::{extension_of, stem_of, Found, PlacedModel, RunModel};
use crate::squisher::PackFile;
use crate::text::{all_digits, decimal, is_digit, last_position, lemma_last_position, texts};
use vstd::prelude::*;

verus! {

/// Whether a file's name is text, and its stem and extension are those of the
/// name.
pub open spec fn is_named(file: PackFile) -> bool {
    &&& file.name is Some
    &&& opt_string(file.stem) == Some(name_stem(file.name->0@))
    &&& opt_string(file.ext) == name_extension(file.name->0@)
}

/// The name that a file is written under.
pub open spec fn place_name(files: Seq<PackFile>, placed: PlacedModel) -> Seq<char> {
    match placed.name {
        Some(n) => n,
        None => files[placed.index].name->0@,
    }
}

/// Whether two files are written under the same name into the same folder.
pub open spec fn is_same_place(files: Seq<PackFile>, p: PlacedModel, q: PlacedModel) -> bool {
    &&& texts(files[p.index].dir@) == texts(files[q.index].dir@)
    &&& place_name(files, p) == place_name(files, q)
}

/// Whether `s` ends with `t`.
pub open spec fn ends_with(s: Seq<char>, t: Seq<char>) -> bool {
    s.len() >= t.len() && s.skip(s.len() - t.len()) == t
}

/// What is added to a stem at the first attempt at renaming a file.
pub open spec fn label_suffix(pack_num: nat) -> Seq<char> {
    "_"@ + pack_label(pack_num)
}

/// Whether a stem ends in a pack's label, or in the label and a number.
pub open spec fn is_labelled(stem: Seq<char>, pack_num: nat) -> bool {
    ||| ends_with(stem, label_suffix(pack_num))
    ||| exists|d: Seq<char>| #[trigger]
        all_digits(d) && ends_with(stem, label_suffix(pack_num) + "_"@ + d)
}

// ---------------------------------------------------------------------------
// Suffixes
// ---------------------------------------------------------------------------

/// Digits at the end of a text, up to something that is none, are found in one
/// way only.
pub proof fn lemma_trailing_digits(a: Seq<char>, x: Seq<char>, b: Seq<char>, y: Seq<char>)
    requires
        a + x == b + y,
        a.len() > 0,
        b.len() > 0,
        !is_digit(a.last()),
        !is_digit(b.last()),
        all_digits(x),
        all_digits(y),
    ensures
        a == b,
        x == y,
{
    let s = a + x;
    assert(s.len() == b.len() + y.len());
    if a.len() < b.len() {
        assert(s[b.len() - 1] == b.last());
        assert(s[b.len() - 1] == x[b.len() - 1 - a.len()]);
    } else if b.len() < a.len() {
        assert(s[a.len() - 1] == a.last());
        assert(s[a.len() - 1] == (b + y)[a.len() - 1]);
        assert(s[a.len() - 1] == y[a.len() - 1 - b.len()]);
    }
    assert(a =~= s.take(a.len() as int));
    assert(b =~= s.take(a.len() as int));
    assert(x =~= s.skip(a.len() as int));
    assert(y =~= s.skip(a.len() as int));
}

/// The parts of the suffix that holds a pack's label.
pub proof fn lemma_label_parts(pack_num: nat)
    ensures
        label_suffix(pack_num) == seq!['_', 'p', 'a', 'c', 'k'] + decimal(pack_num),
        all_digits(decimal(pack_num)),
        label_suffix(pack_num).len() > 5,
        label_suffix(pack_num)[0] == '_',
        forall|k: int| 0 < k < label_suffix(pack_num).len() ==> label_suffix(pack_num)[k] != '_',
        !label_suffix(pack_num).contains('.'),
        "_"@ == seq!['_'],
{
    reveal_strlit("_");
    reveal_strlit("pack");
    lemma_decimal_digits(pack_num);
    let head = seq!['_', 'p', 'a', 'c', 'k'];
    let d = decimal(pack_num);
    let s = label_suffix(pack_num);
    assert("_"@ =~= seq!['_']);
    assert("pack"@ =~= seq!['p', 'a', 'c', 'k']);
    assert(s =~= head + d);
    assert forall|k: int| 0 < k < s.len() implies s[k] != '_' && s[k] != '.' by {
        if k >= 5 {
            assert(s[k] == d[k - 5]);
            assert(is_digit(d[k - 5]));
        }
    }
    if s.contains('.') {
        let k = choose|k: int| 0 <= k < s.len() && s[k] == '.';
        assert(k == 0);
    }
}

/// No stem and attempt lead to the same text as another stem or attempt.
proof fn lemma_suffixes_differ(a: Seq<char>, b: Seq<char>, pack_num: nat, n: nat, m: nat)
    requires
        a + collision_suffix(pack_label(pack_num), n) == b + collision_suffix(
            pack_label(pack_num),
            m,
        ),
    ensures
        a == b,
{
    let s = label_suffix(pack_num);
    let d = decimal(pack_num);
    let head = seq!['_', 'p', 'a', 'c', 'k'];
    lemma_label_parts(pack_num);
    lemma_decimal_digits(n);
    lemma_decimal_digits(m);
    let x = collision_suffix(pack_label(pack_num), n);
    let y = collision_suffix(pack_label(pack_num), m);
    if n == 0 {
        assert(x =~= head + d);
    } else {
        assert(x =~= (s + "_"@) + decimal(n));
    }
    if m == 0 {
        assert(y =~= head + d);
    } else {
        assert(y =~= (s + "_"@) + decimal(m));
    }
    let (ha, da) = if n == 0 {
        (a + head, d)
    } else {
        (a + (s + "_"@), decimal(n))
    };
    let (hb, db) = if m == 0 {
        (b + head, d)
    } else {
        (b + (s + "_"@), decimal(m))
    };
    assert(a + x =~= ha + da);
    assert(b + y =~= hb + db);
    assert(n == 0 ==> ha.last() == 'k');
    assert(n > 0 ==> ha.last() == '_');
    assert(m == 0 ==> hb.last() == 'k');
    assert(m > 0 ==> hb.last() == '_');
    lemma_trailing_digits(ha, da, hb, db);
    assert((n == 0) == (m == 0));
    assert(a =~= ha.take(a.len() as int));
    assert(b =~= hb.take(b.len() as int));
}

/// A suffix has no point, is not empty, and makes a stem a labelled one.
proof fn lemma_suffix_is_label(stem: Seq<char>, pack_num: nat, n: nat)
    ensures
        is_labelled(stem + collision_suffix(pack_label(pack_num), n), pack_num),
        !collision_suffix(pack_label(pack_num), n).contains('.'),
{
    let s = label_suffix(pack_num);
    let x = collision_suffix(pack_label(pack_num), n);
    let all = stem + x;
    lemma_label_parts(pack_num);
    lemma_decimal_digits(n);
    if n == 0 {
        assert(x =~= s);
        assert(all.skip(all.len() - s.len()) =~= s);
    } else {
        let d = decimal(n);
        let t = s + "_"@ + d;
        assert(x =~= t);
        assert(all.skip(all.len() - t.len()) =~= t);
        assert(all_digits(d) && ends_with(all, t));
        if x.contains('.') {
            let k = choose|k: int| 0 <= k < x.len() && x[k] == '.';
            if k < s.len() {
                assert(s[k] == '.');
                assert(s.contains('.'));
            } else if k > s.len() {
                assert(x[k] == d[k - s.len() - 1]);
                assert(is_digit(d[k - s.len() - 1]));
            }
        }
    }
}

// ---------------------------------------------------------------------------
// Names
// ---------------------------------------------------------------------------

/// A name is its stem and its extension.
proof fn lemma_name_parts(name: Seq<char>)
    ensures
        extended_name(name_stem(name), Seq::empty(), name_extension(name)) == name,
        name_extension(name) matches Some(e) ==> !e.contains('.') && name_stem(name).len() > 0,
        name_extension(name) is None ==> forall|k: int|
            0 < k < name_stem(name).len() ==> name_stem(name)[k] != '.',
{
    lemma_last_position(name, '.');
    reveal_strlit(".");
    match last_position(name, '.') {
        Some(p) => if p > 0 {
            let e = name.skip(p + 1);
            assert("."@ =~= seq!['.']);
            assert(name.take(p) + Seq::empty() + "."@ + e =~= name);
            if e.contains('.') {
                let k = choose|k: int| 0 <= k < e.len() && e[k] == '.';
                assert(name[p + 1 + k] == '.');
            }
        } else {
            assert(name + Seq::empty() =~= name);
        },
        None => {
            assert(name + Seq::empty() =~= name);
        },
    }
}

/// A name whose stem was extended has the extended stem, and the extension that
/// it had.
proof fn lemma_extended_parts(name: Seq<char>, suffix: Seq<char>)
    requires
        suffix.len() > 0,
        !suffix.contains('.'),
    ensures
        name_stem(extended_name(name_stem(name), suffix, name_extension(name))) == name_stem(name)
            + suffix,
        name_extension(extended_name(name_stem(name), suffix, name_extension(name)))
            == name_extension(name),
{
    let stem = name_stem(name);
    let new = extended_name(stem, suffix, name_extension(name));
    let head = stem + suffix;
    lemma_name_parts(name);
    lemma_last_position(new, '.');
    reveal_strlit(".");
    assert("."@ =~= seq!['.']);
    match name_extension(name) {
        Some(e) => {
            assert(new =~= head.push('.') + e);
            lemma_last_position_at(head, '.', e);
            assert(new.take(head.len() as int) =~= head);
            assert(new.skip(head.len() as int + 1) =~= e);
        },
        None => {
            assert(new == head);
            if let Some(p) = last_position(new, '.') {
                if p > 0 {
                    if p < stem.len() {
                        assert(new[p] == stem[p]);
                    } else {
                        assert(new[p] == suffix[p - stem.len()]);
                        assert(suffix.contains('.'));
                    }
                }
            }
        },
    }
}

/// Whether a file with the name `name` is written under `place`: the name itself,
/// or one that a collision leads to.
pub open spec fn is_place_of(name: Seq<char>, pack_num: nat, place: Seq<char>) -> bool {
    ||| place == name
    ||| exists|n: nat|
        place == #[trigger] collision_name(
            Some(name_stem(name)),
            name_extension(name),
            pack_label(pack_num),
            n,
        )
}

/// Files with different names, neither of which ends in the pack's label, are
/// written under different names.
proof fn lemma_places_differ(
    a: Seq<char>,
    b: Seq<char>,
    pack_num: nat,
    p: Seq<char>,
    q: Seq<char>,
)
    requires
        a != b,
        !is_labelled(name_stem(a), pack_num),
        !is_labelled(name_stem(b), pack_num),
        is_place_of(a, pack_num, p),
        is_place_of(b, pack_num, q),
    ensures
        p != q,
{
    let label = pack_label(pack_num);
    lemma_label_parts(pack_num);
    if p != a {
        let n = choose|n: nat|
            p == #[trigger] collision_name(Some(name_stem(a)), name_extension(a), label, n);
        let x = collision_suffix(label, n);
        lemma_suffix_is_label(name_stem(a), pack_num, n);
        lemma_extended_parts(a, x);
        if q != b {
            let m = choose|m: nat|
                q == #[trigger] collision_name(Some(name_stem(b)), name_extension(b), label, m);
            let y = collision_suffix(label, m);
            lemma_suffix_is_label(name_stem(b), pack_num, m);
            lemma_extended_parts(b, y);
            if p == q {
                lemma_suffixes_differ(name_stem(a), name_stem(b), pack_num, n, m);
                lemma_name_parts(a);
                lemma_name_parts(b);
            }
        }
    } else if q != b {
        let m = choose|m: nat|
            q == #[trigger] collision_name(Some(name_stem(b)), name_extension(b), label, m);
        let y = collision_suffix(label, m);
        lemma_suffix_is_label(name_stem(b), pack_num, m);
        lemma_extended_parts(b, y);
    }
}

// ---------------------------------------------------------------------------
// The queue
// ---------------------------------------------------------------------------

/// For each file in the queue, its place among the items.
spec fn origins(start: RunModel, files: Seq<PackFile>, findings: Seq<Found>) -> Seq<int>
    decreases findings.len(),
{
    if findings.len() == 0 {
        Seq::empty()
    } else {
        let before = start.after(files, findings.drop_last());
        let list = origins(start, files, findings.drop_last());
        if start.after(files, findings).queue.len() > before.queue.len() {
            list.push(before.at as int)
        } else {
            list
        }
    }
}

/// Whether all items of a run are files whose names are text.
pub open spec fn has_named_items(run: RunModel, files: Seq<PackFile>) -> bool {
    forall|i: int|
        0 <= i < run.items.len() ==> 0 <= (#[trigger] run.items[i]).index < files.len()
            && is_named(files[run.items[i].index])
}

proof fn lemma_candidate_is_place(run: RunModel, files: Seq<PackFile>)
    requires
        has_named_items(run, files),
        !run.is_done(),
    ensures
        run.candidate(files).index == run.items[run.at as int].index,
        is_place_of(
            place_name(files, run.items[run.at as int]),
            run.pack_num,
            place_name(files, run.candidate(files)),
        ),
{
    let item = run.items[run.at as int];
    let file = files[item.index];
    let name = place_name(files, item);
    assert(is_named(files[run.items[run.at as int].index]));
    assert(stem_of(file, item.name) == Some(name_stem(name)));
    assert(extension_of(file, item.name) == name_extension(name));
    if let Some(n) = run.attempt {
        assert(place_name(files, run.candidate(files)) == collision_name(
            Some(name_stem(name)),
            name_extension(name),
            pack_label(run.pack_num),
            n,
        ));
    }
}

proof fn lemma_origins(start: RunModel, files: Seq<PackFile>, findings: Seq<Found>)
    requires
        start.at == 0,
        start.queue.len() == 0,
        has_named_items(start, files),
    ensures
        ({
            let end = start.after(files, findings);
            let list = origins(start, files, findings);
            &&& end.items == start.items
            &&& end.pack_num == start.pack_num
            &&& list.len() == end.queue.len()
            &&& forall|a: int, b: int|
                0 <= a < b < list.len() ==> #[trigger] list[a] < #[trigger] list[b]
            &&& forall|a: int|
                0 <= a < list.len() ==> {
                    &&& 0 <= #[trigger] list[a] < start.items.len()
                    &&& list[a] < end.at
                    &&& end.queue[a].index == start.items[list[a]].index
                    &&& is_place_of(
                        place_name(files, start.items[list[a]]),
                        start.pack_num,
                        place_name(files, end.queue[a]),
                    )
                }
        }),
    decreases findings.len(),
{
    if findings.len() > 0 {
        let fewer = findings.drop_last();
        let before = start.after(files, fewer);
        let end = start.after(files, findings);
        let old_list = origins(start, files, fewer);
        let list = origins(start, files, findings);
        lemma_origins(start, files, fewer);
        if !before.is_done() {
            lemma_candidate_is_place(before, files);
            let outcome = before.outcome(files, findings.last());
            if outcome is Kept || outcome is Renamed {
                assert(end.queue == before.queue.push(before.candidate(files)));
                assert(list == old_list.push(before.at as int));
                assert forall|a: int| 0 <= a < list.len() implies {
                    &&& 0 <= #[trigger] list[a] < start.items.len()
                    &&& list[a] < end.at
                    &&& end.queue[a].index == start.items[list[a]].index
                    &&& is_place_of(
                        place_name(files, start.items[list[a]]),
                        start.pack_num,
                        place_name(files, end.queue[a]),
                    )
                } by {
                    if a < old_list.len() {
                        assert(list[a] == old_list[a]);
                        assert(end.queue[a] == before.queue[a]);
                    } else {
                        assert(list[a] == before.at);
                        assert(end.queue[a] == before.candidate(files));
                    }
                }
                assert forall|a: int, b: int| 0 <= a < b < list.len() implies #[trigger] list[a]
                    < #[trigger] list[b] by {
                    assert(list[a] == old_list[a]);
                    if b < old_list.len() {
                        assert(list[b] == old_list[b]);
                    }
                }
            } else {
                assert(end.queue == before.queue);
                assert(list == old_list);
            }
        } else {
            assert(end == before);
            assert(list == old_list);
        }
    }
}

/// Where the names that the files of a pack are to have are text, differ, and do
/// not end in the pack's own label, with a number or without, no two files are
/// queued under the same name in the same folder.
pub proof fn law_queued_names_differ(
    start: RunModel,
    files: Seq<PackFile>,
    findings: Seq<Found>,
    a: int,
    b: int,
)
    requires
        start.at == 0,
        start.queue.len() == 0,
        has_named_items(start, files),
        forall|i: int, j: int|
            0 <= i < j < start.items.len() ==> !is_same_place(
                files,
                #[trigger] start.items[i],
                #[trigger] start.items[j],
            ),
        forall|i: int|
            0 <= i < start.items.len() ==> !is_labelled(
                name_stem(place_name(files, #[trigger] start.items[i])),
                start.pack_num,
            ),
        0 <= a < b < start.after(files, findings).queue.len(),
    ensures
        !is_same_place(
            files,
            start.after(files, findings).queue[a],
            start.after(files, findings).queue[b],
        ),
{
    let queue = start.after(files, findings).queue;
    let list = origins(start, files, findings);
    lemma_origins(start, files, findings);
    let x = start.items[list[a]];
    let y = start.items[list[b]];
    assert(list[a] < list[b]);
    assert(!is_same_place(files, x, y));
    if texts(files[queue[a].index].dir@) == texts(files[queue[b].index].dir@) {
        lemma_places_differ(
            place_name(files, x),
            place_name(files, y),
            start.pack_num,
            place_name(files, queue[a]),
            place_name(files, queue[b]),
        );
    }
}

} // verus!
