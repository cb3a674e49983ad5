//! What holds of the list of texts that exempt a texture.

use crate::assets::{join, lemma_join_split, lemma_split_join};
use crate::manifest_laws::lemma_trimmed;
use crate::settings::{ascii_entries, ascii_skip_list};
use crate::text::{
    ascii_only, is_white, lower, lower_char, split_on, trim_end, trim_start, trimmed,
};
use vstd::prelude::*;

verus! {

/// The pieces of an ASCII text are ASCII texts.
pub proof fn lemma_ascii_pieces(s: Seq<char>, sep: char)
    requires
        ascii_only(s),
    ensures
        forall|i: int| 0 <= i < split_on(s, sep).len() ==> ascii_only(#[trigger] split_on(s, sep)[i]),
    decreases s.len(),
{
    if s.len() > 0 {
        let front = s.drop_last();
        let before = split_on(front, sep);
        assert forall|k: int| 0 <= k < front.len() implies (#[trigger] front[k] as u32) < 128 by {
            assert(front[k] == s[k]);
        }
        lemma_ascii_pieces(front, sep);
        crate::text::lemma_split_nonempty(front, sep);
        assert(ascii_only(before[before.len() - 1]));
        assert((s[s.len() - 1] as u32) < 128);
        assert forall|i: int| 0 <= i < split_on(s, sep).len() implies ascii_only(
            #[trigger] split_on(s, sep)[i],
        ) by {
            if i < before.len() - 1 {
                assert(split_on(s, sep)[i] == before[i]);
            } else if s.last() == sep && i == before.len() - 1 {
                assert(split_on(s, sep)[i] == before[i]);
            }
        }
    }
}

/// An ASCII text stays one when it is trimmed.
pub proof fn lemma_ascii_trimmed(s: Seq<char>)
    requires
        ascii_only(s),
    ensures
        ascii_only(trimmed(s)),
{
    lemma_trimmed(s);
    let t = trimmed(s);
    assert forall|k: int| 0 <= k < t.len() implies (#[trigger] t[k] as u32) < 128 by {
        let c = t[k];
        assert(t.contains(c));
        assert(s.contains(c));
        let i = choose|i: int| 0 <= i < s.len() && s[i] == c;
        assert((s[i] as u32) < 128);
    }
}

/// Whether a text is made of white space.
pub open spec fn all_white(s: Seq<char>) -> bool {
    forall|i: int| 0 <= i < s.len() ==> is_white(#[trigger] s[i])
}

proof fn lemma_trim_start_white(s: Seq<char>)
    ensures
        (trim_start(s).len() == 0) == all_white(s),
        trim_start(s).len() > 0 ==> !is_white(trim_start(s)[0]),
    decreases s.len(),
{
    if s.len() > 0 && is_white(s[0]) {
        let rest = s.drop_first();
        lemma_trim_start_white(rest);
        if all_white(rest) {
            assert forall|i: int| 0 <= i < s.len() implies is_white(#[trigger] s[i]) by {
                if i > 0 {
                    assert(s[i] == rest[i - 1]);
                }
            }
        }
        if all_white(s) {
            assert forall|i: int| 0 <= i < rest.len() implies is_white(#[trigger] rest[i]) by {
                assert(rest[i] == s[i + 1]);
            }
        }
    }
}

proof fn lemma_trim_end_keeps(s: Seq<char>)
    requires
        s.len() > 0,
        !is_white(s[0]),
    ensures
        trim_end(s).len() > 0,
    decreases s.len(),
{
    if is_white(s.last()) {
        assert(s.len() > 1);
        lemma_trim_end_keeps(s.drop_last());
    }
}

/// Nothing is left of a text exactly where it is all white space.
proof fn lemma_trimmed_away(s: Seq<char>)
    ensures
        (trimmed(s).len() == 0) == all_white(s),
{
    lemma_trim_start_white(s);
    if trim_start(s).len() > 0 {
        lemma_trim_end_keeps(trim_start(s));
    }
}

proof fn lemma_lower_white(c: char)
    ensures
        is_white(lower_char(c)) == is_white(c),
        lower_char(lower_char(c)) == lower_char(c),
        !('A' <= lower_char(c) && lower_char(c) <= 'Z'),
        (c as u32) < 128 ==> (lower_char(c) as u32) < 128,
        c != ',' ==> lower_char(c) != ',',
{
}

proof fn lemma_lower_trim_start(s: Seq<char>)
    ensures
        trim_start(lower(s)) == lower(trim_start(s)),
    decreases s.len(),
{
    if s.len() > 0 {
        lemma_lower_white(s[0]);
        if is_white(s[0]) {
            lemma_lower_trim_start(s.drop_first());
            assert(lower(s).drop_first() =~= lower(s.drop_first()));
        }
    }
}

proof fn lemma_lower_trim_end(s: Seq<char>)
    ensures
        trim_end(lower(s)) == lower(trim_end(s)),
    decreases s.len(),
{
    if s.len() > 0 {
        lemma_lower_white(s.last());
        if is_white(s.last()) {
            lemma_lower_trim_end(s.drop_last());
            assert(lower(s).drop_last() =~= lower(s.drop_last()));
        }
    }
}

/// Whether an entry of the list is as it should be: not empty, without commas,
/// without white space around it and without upper case letters.
pub open spec fn is_clean_entry(e: Seq<char>) -> bool {
    &&& e.len() > 0
    &&& !e.contains(',')
    &&& trimmed(e) == e
    &&& forall|k: int| 0 <= k < e.len() ==> !('A' <= #[trigger] e[k] && e[k] <= 'Z')
}

proof fn lemma_entry_is_clean(piece: Seq<char>)
    requires
        ascii_only(piece),
        !piece.contains(','),
        trimmed(piece).len() > 0,
    ensures
        is_clean_entry(lower(trimmed(piece))),
        ascii_only(lower(trimmed(piece))),
{
    let t = trimmed(piece);
    let e = lower(t);
    lemma_trimmed(piece);
    lemma_ascii_trimmed(piece);
    lemma_lower_trim_start(t);
    lemma_lower_trim_end(trim_start(t));
    assert(trimmed(e) == lower(trimmed(t)));
    assert forall|k: int| 0 <= k < e.len() implies !('A' <= #[trigger] e[k] && e[k] <= 'Z') && (
    e[k] as u32) < 128 && e[k] != ',' by {
        lemma_lower_white(t[k]);
        assert((t[k] as u32) < 128);
        let c = t[k];
        assert(t.contains(c));
    }
}

/// How many pieces are not all white space.
pub open spec fn written_count(pieces: Seq<Seq<char>>) -> nat
    decreases pieces.len(),
{
    if pieces.len() == 0 {
        0
    } else {
        written_count(pieces.drop_last()) + if all_white(pieces.last()) {
            0nat
        } else {
            1nat
        }
    }
}

proof fn lemma_entries_are_clean(pieces: Seq<Seq<char>>)
    requires
        forall|i: int|
            0 <= i < pieces.len() ==> ascii_only(#[trigger] pieces[i]) && !pieces[i].contains(','),
    ensures
        forall|i: int|
            0 <= i < ascii_entries(pieces).len() ==> is_clean_entry(
                #[trigger] ascii_entries(pieces)[i],
            ) && ascii_only(ascii_entries(pieces)[i]),
        ascii_entries(pieces).len() == written_count(pieces),
    decreases pieces.len(),
{
    if pieces.len() > 0 {
        let front = pieces.drop_last();
        assert forall|i: int| 0 <= i < front.len() implies ascii_only(#[trigger] front[i])
            && !front[i].contains(',') by {
            assert(front[i] == pieces[i]);
        }
        lemma_entries_are_clean(front);
        let last = pieces[pieces.len() - 1];
        lemma_trimmed_away(last);
        if trimmed(last).len() > 0 {
            lemma_entry_is_clean(last);
        }
    }
}

proof fn lemma_lower_is_kept(e: Seq<char>)
    requires
        is_clean_entry(e),
    ensures
        lower(trimmed(e)) == e,
{
    assert forall|k: int| 0 <= k < e.len() implies lower(e)[k] == e[k] by {
        assert(!('A' <= e[k] && e[k] <= 'Z'));
    }
    assert(lower(e) =~= e);
}

proof fn lemma_entries_are_kept(list: Seq<Seq<char>>)
    requires
        forall|i: int| 0 <= i < list.len() ==> is_clean_entry(#[trigger] list[i]),
    ensures
        ascii_entries(list) == list,
    decreases list.len(),
{
    if list.len() > 0 {
        let front = list.drop_last();
        assert forall|i: int| 0 <= i < front.len() implies is_clean_entry(#[trigger] front[i]) by {
            assert(front[i] == list[i]);
        }
        lemma_entries_are_kept(front);
        lemma_lower_is_kept(list[list.len() - 1]);
        assert(front.push(list.last()) =~= list);
    } else {
        assert(ascii_entries(list) =~= list);
    }
}

proof fn lemma_join_ascii(list: Seq<Seq<char>>)
    requires
        forall|i: int| 0 <= i < list.len() ==> ascii_only(#[trigger] list[i]),
    ensures
        ascii_only(join(list, ',')),
    decreases list.len(),
{
    if list.len() > 1 {
        let front = list.drop_last();
        assert forall|i: int| 0 <= i < front.len() implies ascii_only(#[trigger] front[i]) by {
            assert(front[i] == list[i]);
        }
        lemma_join_ascii(front);
        assert(ascii_only(list[list.len() - 1]));
        let head = join(front, ',').push(',');
        let all = join(list, ',');
        assert forall|k: int| 0 <= k < all.len() implies (#[trigger] all[k] as u32) < 128 by {
            if k < head.len() - 1 {
                assert(all[k] == join(front, ',')[k]);
            } else if k >= head.len() {
                assert(all[k] == list.last()[k - head.len()]);
            }
        }
    } else if list.len() == 1 {
        assert(ascii_only(list[0]));
    }
}

/// Of an ASCII text, every entry of the list is not empty, holds no comma, has
/// no white space around it and no upper case letter, and there is one for each
/// piece between the commas that is not all white space.
pub proof fn law_skip_list_is_clean(text: Seq<char>)
    requires
        ascii_only(text),
    ensures
        forall|i: int|
            0 <= i < ascii_skip_list(text).len() ==> is_clean_entry(
                #[trigger] ascii_skip_list(text)[i],
            ) && ascii_only(ascii_skip_list(text)[i]),
        ascii_skip_list(text).len() == written_count(split_on(text, ',')),
{
    lemma_ascii_pieces(text, ',');
    lemma_join_split(text, ',');
    lemma_entries_are_clean(split_on(text, ','));
}

/// The entries, joined by commas, give the same list again.
pub proof fn law_skip_list_is_read_back(text: Seq<char>)
    requires
        ascii_only(text),
    ensures
        ascii_only(join(ascii_skip_list(text), ',')),
        ascii_skip_list(join(ascii_skip_list(text), ',')) == ascii_skip_list(text),
{
    let list = ascii_skip_list(text);
    law_skip_list_is_clean(text);
    assert forall|i: int| 0 <= i < list.len() implies ascii_only(#[trigger] list[i])
        && is_clean_entry(list[i]) && !list[i].contains(',') by {
        assert(is_clean_entry(ascii_skip_list(text)[i]));
    }
    lemma_join_ascii(list);
    if list.len() > 0 {
        lemma_split_join(list, ',');
        lemma_entries_are_kept(list);
    } else {
        let nothing = Seq::<char>::empty();
        assert(join(list, ',') =~= nothing);
        assert(split_on(nothing, ',') =~= seq![nothing]);
        let pieces = seq![nothing];
        assert(pieces.drop_last() =~= Seq::<Seq<char>>::empty());
        assert(pieces.last() == nothing);
        assert(trimmed(nothing).len() == 0);
        assert(lower(trimmed(nothing)).len() == 0);
        assert(ascii_entries(pieces.drop_last()) =~= Seq::<Seq<char>>::empty());
        assert(ascii_entries(pieces) =~= list);
    }
}

} // verus!
