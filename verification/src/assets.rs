//! The names of numbered assets: finding the number, and replacing it.

use crate::text::{
    all_digits, decimal, digits_value, from_chars, is_all_digits, is_digit, last_position,
    lemma_last_position, lemma_split_nonempty, lower, lower_char, parse_u32, push_zero_padded,
    rfind, spells, split, split_on, to_ascii_lowercase, views, zero_padded, zeros,
};
use vstd::prelude::*;
use vstd::slice::slice_subrange;

verus! {

// ---------------------------------------------------------------------------
// What an asset's name says
// ---------------------------------------------------------------------------

/// The pieces with the separator between each two of them.
pub open spec fn join(pieces: Seq<Seq<char>>, sep: char) -> Seq<char>
    decreases pieces.len(),
{
    if pieces.len() == 0 {
        Seq::empty()
    } else if pieces.len() == 1 {
        pieces[0]
    } else {
        join(pieces.drop_last(), sep).push(sep) + pieces.last()
    }
}

/// Where the piece in place `i` starts when the pieces are joined.
pub open spec fn piece_start(pieces: Seq<Seq<char>>, i: int) -> int
    decreases i,
{
    if i <= 0 {
        0
    } else {
        piece_start(pieces, i - 1) + pieces[i - 1].len() + 1
    }
}

/// The place of the first piece that reads `word`.
pub open spec fn first_place(pieces: Seq<Seq<char>>, word: Seq<char>) -> Option<int>
    decreases pieces.len(),
{
    if pieces.len() == 0 {
        None
    } else {
        match first_place(pieces.drop_last(), word) {
            Some(i) => Some(i),
            None => if pieces.last() == word {
                Some(pieces.len() - 1)
            } else {
                None
            },
        }
    }
}

/// The place of the last piece that is made of digits.
pub open spec fn last_number(pieces: Seq<Seq<char>>) -> Option<int>
    decreases pieces.len(),
{
    if pieces.len() == 0 {
        None
    } else if all_digits(pieces.last()) {
        Some(pieces.len() - 1)
    } else {
        last_number(pieces.drop_last())
    }
}

/// What an asset's name says: which kind of asset it is, its number, and
/// where in the name the number stands.
#[verifier::ext_equal]
pub struct AssetModel {
    pub prefix: Seq<char>,
    pub id: u32,
    pub start: int,
    pub end: int,
}

/// The pieces that decide: where the prefix ends, and where the number is. The
/// number of a texture follows the word `diff`; that of a model is the last
/// one of its name.
pub open spec fn number_places(pieces: Seq<Seq<char>>, texture: bool) -> Option<(int, int)> {
    if texture {
        match first_place(pieces, "diff"@) {
            Some(i) => Some((i, i + 1)),
            None => None,
        }
    } else {
        match last_number(pieces) {
            Some(i) => Some((i, i)),
            None => None,
        }
    }
}

/// The asset whose lower-case pieces are given, its number counted from
/// `from` on.
pub open spec fn asset_in(pieces: Seq<Seq<char>>, texture: bool, from: int) -> Option<AssetModel> {
    match number_places(pieces, texture) {
        None => None,
        Some((prefix_end, at)) => if at >= pieces.len() || !all_digits(pieces[at]) || digits_value(
            pieces[at],
        ) > u32::MAX || prefix_end == 0 {
            None
        } else {
            Some(
                AssetModel {
                    prefix: join(pieces.take(prefix_end), '_'),
                    id: digits_value(pieces[at]) as u32,
                    start: from + piece_start(pieces, at),
                    end: from + piece_start(pieces, at) + pieces[at].len(),
                },
            )
        },
    }
}

/// Where the part of a stem that names the asset starts: behind the last `^`.
pub open spec fn component_start(stem: Seq<char>) -> int {
    match last_position(stem, '^') {
        Some(i) => i + 1,
        None => 0,
    }
}

/// What a file name says about the asset in the file, if it holds one.
pub open spec fn asset_of(name: Seq<char>) -> Option<AssetModel> {
    match last_position(name, '.') {
        None => None,
        Some(dot) => {
            let stem = name.take(dot);
            let ext = lower(name.skip(dot + 1));
            let from = component_start(stem);
            if ext != "ydd"@ && ext != "ytd"@ {
                None
            } else {
                asset_in(split_on(lower(stem.skip(from)), '_'), ext == "ytd"@, from)
            }
        },
    }
}

/// What an asset's name says. The prefix is in lower case.
pub struct AssetKey {
    pub prefix: String,
    pub id: u32,
    /// Where the digits of the number start in the name.
    pub start: usize,
    /// Where they end.
    pub end: usize,
}

impl View for AssetKey {
    type V = AssetModel;

    open spec fn view(&self) -> AssetModel {
        AssetModel {
            prefix: self.prefix@,
            id: self.id,
            start: self.start as int,
            end: self.end as int,
        }
    }
}

impl AssetModel {
    /// How many digits the number has in the name.
    pub open spec fn width(self) -> int {
        self.end - self.start
    }
}

fn find_first(pieces: &[Vec<char>], word: &str) -> (res: Option<usize>)
    ensures
        match res {
            Some(i) => first_place(views(pieces@), word@) == Some(i as int) && i < pieces@.len(),
            None => first_place(views(pieces@), word@) is None,
        },
{
    let ghost all = views(pieces@);
    let mut i: usize = 0;
    while i < pieces.len()
        invariant
            all == views(pieces@),
            i <= pieces@.len(),
            first_place(all.take(i as int), word@) is None,
        decreases pieces@.len() - i,
    {
        proof {
            assert(all.take(i + 1).drop_last() =~= all.take(i as int));
            assert(all.take(i + 1).last() == pieces@[i as int]@);
        }
        if spells(pieces[i].as_slice(), word) {
            proof {
                lemma_first_place_stays(all, word@, i + 1);
            }
            return Some(i);
        }
        i = i + 1;
    }
    proof {
        assert(all.take(i as int) =~= all);
    }
    None
}

proof fn lemma_first_place_stays(pieces: Seq<Seq<char>>, word: Seq<char>, n: int)
    requires
        0 <= n <= pieces.len(),
        first_place(pieces.take(n), word) is Some,
    ensures
        first_place(pieces, word) == first_place(pieces.take(n), word),
    decreases pieces.len() - n,
{
    if n == pieces.len() {
        assert(pieces.take(n) =~= pieces);
    } else {
        assert(pieces.take(n + 1).drop_last() =~= pieces.take(n));
        lemma_first_place_stays(pieces, word, n + 1);
    }
}

fn find_last_number(pieces: &[Vec<char>]) -> (res: Option<usize>)
    ensures
        match res {
            Some(i) => last_number(views(pieces@)) == Some(i as int) && i < pieces@.len(),
            None => last_number(views(pieces@)) is None,
        },
{
    let ghost all = views(pieces@);
    let mut n: usize = pieces.len();
    proof {
        assert(all.take(n as int) =~= all);
    }
    while n > 0
        invariant
            all == views(pieces@),
            n <= pieces@.len(),
            last_number(all.take(n as int)) == last_number(all),
        decreases n,
    {
        proof {
            assert(all.take(n as int).last() == pieces@[n - 1]@);
            assert(all.take(n as int).drop_last() =~= all.take(n - 1));
        }
        if is_all_digits(pieces[n - 1].as_slice()) {
            return Some(n - 1);
        }
        n = n - 1;
    }
    None
}

/// The pieces with the separator between each two of them.
fn join_pieces(pieces: &[Vec<char>], sep: char) -> (res: String)
    ensures
        res@ == join(views(pieces@), sep),
{
    let ghost all = views(pieces@);
    let mut out = String::new();
    let mut i: usize = 0;
    proof {
        assert(out@ =~= join(all.take(0), sep));
    }
    while i < pieces.len()
        invariant
            all == views(pieces@),
            i <= pieces@.len(),
            out@ == join(all.take(i as int), sep),
        decreases pieces@.len() - i,
    {
        let ghost before = out@;
        if i > 0 {
            out.push(sep);
        }
        let piece = from_chars(pieces[i].as_slice());
        out.append(piece.as_str());
        proof {
            assert(all.take(i + 1).drop_last() =~= all.take(i as int));
            assert(all.take(i + 1).last() == pieces@[i as int]@);
            assert(out@ =~= join(all.take(i + 1), sep));
        }
        i = i + 1;
    }
    proof {
        assert(all.take(i as int) =~= all);
    }
    out
}

proof fn lemma_piece_start_bounds(pieces: Seq<Seq<char>>, i: int, s: Seq<char>)
    requires
        pieces == split_on(s, '_'),
        0 <= i < pieces.len(),
    ensures
        0 <= piece_start(pieces, i),
        piece_start(pieces, i) + pieces[i].len() <= s.len(),
{
    lemma_join_split(s, '_');
    lemma_join_around(pieces, '_', i);
}

/// What a file name says about the asset in the file, if it holds one.
pub fn parse_asset(name: &[char]) -> (res: Option<AssetKey>)
    ensures
        match res {
            Some(key) => asset_of(name@) == Some(key@) && key.start <= key.end <= name@.len(),
            None => asset_of(name@) is None,
        },
{
    let size: usize = name.len();
    let dot: usize = match rfind(name, '.') {
        Some(dot) => dot,
        None => {
            return None;
        },
    };
    let stem = slice_subrange(name, 0, dot);
    let ext = to_ascii_lowercase(slice_subrange(name, dot + 1, size));
    proof {
        assert(stem@ =~= name@.take(dot as int));
        assert(name@.subrange(dot + 1, size as int) =~= name@.skip(dot + 1));
    }
    let texture = spells(ext.as_slice(), "ytd");
    if !texture && !spells(ext.as_slice(), "ydd") {
        return None;
    }
    let from: usize = match rfind(stem, '^') {
        Some(i) => i + 1,
        None => 0,
    };
    let component = slice_subrange(stem, from, dot);
    proof {
        assert(component@ =~= stem@.skip(from as int));
    }
    let small = to_ascii_lowercase(component);
    let pieces = split(small.as_slice(), '_');
    let ghost all = views(pieces@);
    let (prefix_end, at): (usize, usize) = if texture {
        match find_first(pieces.as_slice(), "diff") {
            Some(i) => (i, i + 1),
            None => {
                return None;
            },
        }
    } else {
        match find_last_number(pieces.as_slice()) {
            Some(i) => (i, i),
            None => {
                return None;
            },
        }
    };
    if at >= pieces.len() || !is_all_digits(pieces[at].as_slice()) {
        return None;
    }
    let id: u32 = match parse_u32(pieces[at].as_slice()) {
        Some(id) => id,
        None => {
            return None;
        },
    };
    if prefix_end == 0 {
        return None;
    }
    let prefix = join_pieces(slice_subrange(pieces.as_slice(), 0, prefix_end), '_');
    proof {
        assert(views(pieces@.subrange(0, prefix_end as int)) =~= all.take(prefix_end as int));
        lemma_piece_start_bounds(all, at as int, small@);
    }
    let mut cursor: usize = 0;
    let mut i: usize = 0;
    while i < at
        invariant
            all == views(pieces@),
            all == split_on(small@, '_'),
            small@.len() == component@.len(),
            i <= at < pieces@.len(),
            cursor == piece_start(all, i as int),
            cursor <= small@.len(),
            small@.len() <= size,
        decreases at - i,
    {
        proof {
            lemma_piece_start_bounds(all, i as int, small@);
            lemma_piece_start_bounds(all, i + 1, small@);
        }
        cursor = cursor + pieces[i].len() + 1;
        i = i + 1;
    }
    let start: usize = from + cursor;
    let end: usize = start + pieces[at].len();
    Some(AssetKey { prefix, id, start, end })
}

/// A name with the number at the given place replaced.
pub open spec fn renumbered(name: Seq<char>, key: AssetModel, id: nat, width: nat) -> Seq<char> {
    name.take(key.start) + zero_padded(id, width) + name.skip(key.end)
}

/// The digits of the number in an asset's name.
pub open spec fn spelled_number(name: Seq<char>) -> Seq<char> {
    name.subrange(asset_of(name)->0.start, asset_of(name)->0.end)
}

/// The file name of an asset with another number, zero-padded to `new_width`.
pub fn rename_with_id(name: &[char], key: &AssetKey, new_id: u32, new_width: usize) -> (res: String)
    requires
        key.start <= key.end <= name@.len(),
    ensures
        res@ == renumbered(name@, key@, new_id as nat, new_width as nat),
{
    let mut out = from_chars(slice_subrange(name, 0, key.start));
    push_zero_padded(&mut out, new_id as u64, new_width);
    let rest = from_chars(slice_subrange(name, key.end, name.len()));
    out.append(rest.as_str());
    proof {
        assert(name@.subrange(0, key.start as int) =~= name@.take(key.start as int));
        assert(name@.subrange(key.end as int, name@.len() as int) =~= name@.skip(key.end as int));
        assert(out@ =~= renumbered(name@, key@, new_id as nat, new_width as nat));
    }
    out
}

// ---------------------------------------------------------------------------
// Splitting and joining
// ---------------------------------------------------------------------------

/// What is appended without separators lengthens the last piece.
pub proof fn lemma_split_append(s: Seq<char>, t: Seq<char>, sep: char)
    requires
        !t.contains(sep),
    ensures
        split_on(s + t, sep) == split_on(s, sep).drop_last().push(split_on(s, sep).last() + t),
    decreases t.len(),
{
    lemma_split_nonempty(s, sep);
    let before = split_on(s, sep);
    if t.len() == 0 {
        assert(s + t =~= s);
        assert(before.last() + t =~= before.last());
        assert(before.drop_last().push(before.last()) =~= before);
    } else {
        let u = t.drop_last();
        assert(!u.contains(sep)) by {
            if u.contains(sep) {
                let k = choose|k: int| 0 <= k < u.len() && u[k] == sep;
                assert(t[k] == sep);
            }
        }
        lemma_split_append(s, u, sep);
        assert((s + t).drop_last() =~= s + u);
        assert((s + t).last() == t.last());
        assert(t.last() != sep) by {
            assert(t[t.len() - 1] == t.last());
        }
        let mid = split_on(s + u, sep);
        assert(mid.drop_last() =~= before.drop_last());
        assert(mid.last() == before.last() + u);
        assert((before.last() + u).push(t.last()) =~= before.last() + t);
    }
}

/// Pieces without separators are found again when they are joined and split.
pub proof fn lemma_split_join(pieces: Seq<Seq<char>>, sep: char)
    requires
        pieces.len() > 0,
        forall|i: int| 0 <= i < pieces.len() ==> !(#[trigger] pieces[i]).contains(sep),
    ensures
        split_on(join(pieces, sep), sep) == pieces,
    decreases pieces.len(),
{
    if pieces.len() == 1 {
        let e = Seq::<char>::empty();
        lemma_split_append(e, pieces[0], sep);
        assert(e + pieces[0] =~= pieces[0]);
        assert(split_on(e, sep) =~= seq![e]);
        assert(split_on(pieces[0], sep) =~= pieces);
    } else {
        let front = pieces.drop_last();
        assert forall|i: int| 0 <= i < front.len() implies !(#[trigger] front[i]).contains(sep) by {
            assert(front[i] == pieces[i]);
        }
        lemma_split_join(front, sep);
        let s = join(front, sep).push(sep);
        assert(s.drop_last() =~= join(front, sep));
        assert(split_on(s, sep) == front.push(Seq::<char>::empty()));
        lemma_split_append(s, pieces.last(), sep);
        assert(Seq::<char>::empty() + pieces.last() =~= pieces.last());
        assert(split_on(join(pieces, sep), sep) =~= pieces);
    }
}

/// A text is the join of its pieces, none of which holds the separator.
pub proof fn lemma_join_split(s: Seq<char>, sep: char)
    ensures
        join(split_on(s, sep), sep) == s,
        forall|i: int|
            0 <= i < split_on(s, sep).len() ==> !(#[trigger] split_on(s, sep)[i]).contains(sep),
    decreases s.len(),
{
    let pieces = split_on(s, sep);
    if s.len() == 0 {
        assert(join(pieces, sep) =~= s);
    } else {
        let front = s.drop_last();
        lemma_join_split(front, sep);
        lemma_split_nonempty(front, sep);
        let before = split_on(front, sep);
        if s.last() == sep {
            assert(pieces.drop_last() =~= before);
            assert(join(pieces, sep) =~= s);
        } else {
            let last = before.last().push(s.last());
            assert(pieces.drop_last() =~= before.drop_last());
            assert(pieces.last() == last);
            assert(!last.contains(sep)) by {
                if last.contains(sep) {
                    let k = choose|k: int| 0 <= k < last.len() && last[k] == sep;
                    assert(before[before.len() - 1] == before.last());
                    assert(k < before.last().len());
                    assert(before.last()[k] == sep);
                }
            }
            assert forall|i: int| 0 <= i < pieces.len() implies !(#[trigger] pieces[i]).contains(
                sep,
            ) by {
                if i < pieces.len() - 1 {
                    assert(pieces[i] == before[i]);
                }
            }
            assert(front.push(s.last()) =~= s);
            if pieces.len() == 1 {
                assert(join(before, sep) == before[0]);
                assert(join(pieces, sep) == last);
            } else {
                let head = join(before.drop_last(), sep).push(sep);
                assert(join(before, sep) == head + before.last());
                assert(join(pieces, sep) == head + last);
                assert(head + last =~= (head + before.last()).push(s.last()));
            }
        }
    }
}

/// A joined text is what comes before a piece, the piece, and what follows it;
/// replacing the piece replaces just that.
pub proof fn lemma_join_around(pieces: Seq<Seq<char>>, sep: char, i: int)
    requires
        0 <= i < pieces.len(),
    ensures
        0 <= piece_start(pieces, i),
        piece_start(pieces, i) + pieces[i].len() <= join(pieces, sep).len(),
        forall|word: Seq<char>|
            #![trigger pieces.update(i, word)]
            join(pieces.update(i, word), sep) == join(pieces, sep).take(piece_start(pieces, i))
                + word + join(pieces, sep).skip(piece_start(pieces, i) + pieces[i].len()),
    decreases pieces.len(),
{
    let all = join(pieces, sep);
    let front = pieces.drop_last();
    if i == pieces.len() - 1 {
        lemma_join_len(pieces, sep);
        let start = piece_start(pieces, i);
        assert forall|word: Seq<char>|
            #![trigger pieces.update(i, word)]
            join(pieces.update(i, word), sep) == all.take(start) + word + all.skip(
                start + pieces[i].len(),
            ) by {
            let other = pieces.update(i, word);
            assert(other.drop_last() =~= front);
            assert(other.last() == word);
            if pieces.len() > 1 {
                assert(join(other, sep) == join(front, sep).push(sep) + word);
                assert(all == join(front, sep).push(sep) + pieces.last());
                assert(all.take(start) =~= join(front, sep).push(sep));
            } else {
                assert(all.take(start) =~= Seq::<char>::empty());
            }
            assert(all.skip(start + pieces[i].len()) =~= Seq::<char>::empty());
            assert(join(other, sep) =~= all.take(start) + word + all.skip(
                start + pieces[i].len(),
            ));
        }
    } else {
        lemma_join_around(front, sep, i);
        lemma_piece_start_front(pieces, i);
        let start = piece_start(pieces, i);
        assert(front[i] == pieces[i]);
        assert forall|word: Seq<char>|
            #![trigger pieces.update(i, word)]
            join(pieces.update(i, word), sep) == all.take(start) + word + all.skip(
                start + pieces[i].len(),
            ) by {
            let other = pieces.update(i, word);
            assert(other.drop_last() =~= front.update(i, word));
            assert(other.last() == pieces.last());
            let f = join(front, sep);
            assert(join(front.update(i, word), sep) == f.take(start) + word + f.skip(
                start + pieces[i].len(),
            ));
            assert(all == f.push(sep) + pieces.last());
            assert(all.take(start) =~= f.take(start));
            assert(all.skip(start + pieces[i].len()) =~= f.skip(start + pieces[i].len()).push(sep)
                + pieces.last());
            assert(join(other, sep) =~= all.take(start) + word + all.skip(
                start + pieces[i].len(),
            ));
        }
    }
}

proof fn lemma_piece_start_front(pieces: Seq<Seq<char>>, i: int)
    requires
        0 <= i < pieces.len(),
    ensures
        piece_start(pieces.drop_last(), i) == piece_start(pieces, i),
    decreases i,
{
    if i > 0 {
        lemma_piece_start_front(pieces, i - 1);
    }
}

proof fn lemma_join_len(pieces: Seq<Seq<char>>, sep: char)
    requires
        pieces.len() > 0,
    ensures
        join(pieces, sep).len() == piece_start(pieces, pieces.len() - 1) + pieces.last().len(),
        piece_start(pieces, pieces.len() - 1) >= 0,
    decreases pieces.len(),
{
    if pieces.len() > 1 {
        let front = pieces.drop_last();
        lemma_join_len(front, sep);
        lemma_piece_start_front(pieces, pieces.len() - 2);
        assert(front.last() == pieces[pieces.len() - 2]);
    }
}

// ---------------------------------------------------------------------------
// Renumbering
// ---------------------------------------------------------------------------

/// A decimal notation is made of digits, and stands for its number.
pub proof fn lemma_decimal_digits(n: nat)
    ensures
        all_digits(decimal(n)),
        digits_value(decimal(n)) == n,
    decreases n,
{
    let d = decimal(n);
    assert(d.last() as int == 48 + n % 10);
    if n < 10 {
        assert(d.drop_last() =~= Seq::<char>::empty());
        assert(digits_value(Seq::<char>::empty()) == 0);
    } else {
        lemma_decimal_digits(n / 10);
        assert(d.drop_last() =~= decimal(n / 10));
        assert forall|i: int| 0 <= i < d.len() implies is_digit(#[trigger] d[i]) by {
            if i < d.len() - 1 {
                assert(d[i] == decimal(n / 10)[i]);
            }
        }
    }
}

proof fn lemma_leading_zeros(k: int, d: Seq<char>)
    requires
        forall|i: int| 0 <= i < d.len() ==> is_digit(#[trigger] d[i]),
    ensures
        digits_value(zeros(k) + d) == digits_value(d),
    decreases d.len(), k,
{
    let s = zeros(k) + d;
    if d.len() > 0 {
        lemma_leading_zeros(k, d.drop_last());
        assert(s.drop_last() =~= zeros(k) + d.drop_last());
        assert(s.last() == d.last());
    } else if k > 0 {
        lemma_leading_zeros(k - 1, d);
        assert(s.drop_last() =~= zeros(k - 1) + d);
        assert(s.last() == '0');
    } else {
        assert(s =~= d);
    }
}

/// A zero-padded number is made of digits and stands for the number.
pub proof fn lemma_padded_digits(n: nat, width: nat)
    ensures
        all_digits(zero_padded(n, width)),
        digits_value(zero_padded(n, width)) == n,
{
    let d = decimal(n);
    lemma_decimal_digits(n);
    lemma_leading_zeros(width - d.len(), d);
    let s = zero_padded(n, width);
    assert forall|i: int| 0 <= i < s.len() implies is_digit(#[trigger] s[i]) by {
        let k = zeros(width - d.len()).len();
        if i >= k {
            assert(s[i] == d[i - k]);
        }
    }
}

/// What follows the last occurrence does not matter to its place.
pub proof fn lemma_last_position_at(a: Seq<char>, c: char, b: Seq<char>)
    requires
        !b.contains(c),
    ensures
        last_position(a.push(c) + b, c) == Some(a.len() as int),
    decreases b.len(),
{
    let s = a.push(c) + b;
    if b.len() > 0 {
        let front = b.drop_last();
        assert(!front.contains(c)) by {
            if front.contains(c) {
                let k = choose|k: int| 0 <= k < front.len() && front[k] == c;
                assert(b[k] == c);
            }
        }
        lemma_last_position_at(a, c, front);
        assert(s.drop_last() =~= a.push(c) + front);
        assert(b[b.len() - 1] == s.last());
    } else {
        assert(s.drop_last() =~= a);
    }
}

proof fn lemma_no_position(s: Seq<char>, c: char)
    requires
        !s.contains(c),
    ensures
        last_position(s, c) is None,
{
    lemma_last_position(s, c);
    if let Some(i) = last_position(s, c) {
        assert(s[i] == c);
    }
}

proof fn lemma_first_place_found(pieces: Seq<Seq<char>>, word: Seq<char>, i: int)
    requires
        first_place(pieces, word) == Some(i),
    ensures
        0 <= i < pieces.len(),
        pieces[i] == word,
        first_place(pieces.take(i + 1), word) == Some(i),
    decreases pieces.len(),
{
    if pieces.len() > 0 {
        let front = pieces.drop_last();
        if first_place(front, word) is Some {
            lemma_first_place_found(front, word, i);
            assert(front.take(i + 1) =~= pieces.take(i + 1));
        } else {
            assert(pieces.take(i + 1) =~= pieces);
        }
    }
}

proof fn lemma_last_number(pieces: Seq<Seq<char>>)
    ensures
        match last_number(pieces) {
            Some(i) => {
                &&& 0 <= i < pieces.len()
                &&& all_digits(pieces[i])
                &&& forall|j: int| i < j < pieces.len() ==> !all_digits(#[trigger] pieces[j])
            },
            None => forall|j: int| 0 <= j < pieces.len() ==> !all_digits(#[trigger] pieces[j]),
        },
    decreases pieces.len(),
{
    if pieces.len() > 0 && !all_digits(pieces.last()) {
        let front = pieces.drop_last();
        lemma_last_number(front);
        assert forall|j: int| 0 <= j < front.len() implies pieces[j] == front[j] by {}
        match last_number(front) {
            Some(i) => {
                assert forall|j: int| i < j < pieces.len() implies !all_digits(
                    #[trigger] pieces[j],
                ) by {
                    if j < front.len() {
                        assert(pieces[j] == front[j]);
                    }
                }
            },
            None => {
                assert forall|j: int| 0 <= j < pieces.len() implies !all_digits(
                    #[trigger] pieces[j],
                ) by {
                    if j < front.len() {
                        assert(pieces[j] == front[j]);
                    }
                }
            },
        }
    }
}

proof fn lemma_piece_start_same(a: Seq<Seq<char>>, b: Seq<Seq<char>>, i: int)
    requires
        forall|j: int| 0 <= j < i ==> #[trigger] a[j] == b[j],
    ensures
        piece_start(a, i) == piece_start(b, i),
    decreases i,
{
    if i > 0 {
        lemma_piece_start_same(a, b, i - 1);
        assert(a[i - 1] == b[i - 1]);
    }
}

/// The pieces with another number in the place of the number say the same of
/// the asset, but for the number.
proof fn lemma_asset_renumbered(
    pieces: Seq<Seq<char>>,
    texture: bool,
    from: int,
    at: int,
    word: Seq<char>,
)
    requires
        asset_in(pieces, texture, from) is Some,
        number_places(pieces, texture) matches Some((_, place)) && place == at,
        all_digits(word),
        digits_value(word) <= u32::MAX,
    ensures
        asset_in(pieces.update(at, word), texture, from) == Some(
            AssetModel {
                prefix: asset_in(pieces, texture, from)->0.prefix,
                id: digits_value(word) as u32,
                start: asset_in(pieces, texture, from)->0.start,
                end: asset_in(pieces, texture, from)->0.start + word.len(),
            },
        ),
{
    let other = pieces.update(at, word);
    let (prefix_end, _) = number_places(pieces, texture)->0;
    if texture {
        lemma_first_place_found(pieces, "diff"@, prefix_end);
        assert(other.take(prefix_end + 1) =~= pieces.take(prefix_end + 1));
        lemma_first_place_stays(other, "diff"@, prefix_end + 1);
    } else {
        lemma_last_number(pieces);
        lemma_last_number(other);
        let found = last_number(other);
        assert(all_digits(other[at]));
        assert(found is Some);
        let k = found->0;
        if k < at {
            assert(!all_digits(other[at]));
        } else if k > at {
            assert(other[k] == pieces[k]);
        }
    }
    assert(other.take(prefix_end) =~= pieces.take(prefix_end));
    lemma_piece_start_same(other, pieces, at);
}

proof fn lemma_digits_hold(word: Seq<char>, c: char)
    requires
        all_digits(word),
        !is_digit(c),
    ensures
        !word.contains(c),
        lower(word) == word,
{
    assert(lower(word) =~= word) by {
        assert forall|i: int| 0 <= i < word.len() implies lower_char(#[trigger] word[i])
            == word[i] by {
            assert(is_digit(word[i]));
        }
    }
    if word.contains(c) {
        let k = choose|k: int| 0 <= k < word.len() && word[k] == c;
        assert(is_digit(word[k]));
    }
}

/// A name made of a stem, a dot and an extension without dots is read as such.
proof fn lemma_asset_of_parts(stem: Seq<char>, ext: Seq<char>)
    requires
        !ext.contains('.'),
        lower(ext) == "ydd"@ || lower(ext) == "ytd"@,
    ensures
        asset_of(stem.push('.') + ext) == asset_in(
            split_on(lower(stem.skip(component_start(stem))), '_'),
            lower(ext) == "ytd"@,
            component_start(stem),
        ),
{
    let name = stem.push('.') + ext;
    lemma_last_position_at(stem, '.', ext);
    assert(name.take(stem.len() as int) =~= stem);
    assert(name.skip(stem.len() as int + 1) =~= ext);
}

/// Replacing what follows the last `^` keeps its place.
proof fn lemma_component_replaced(stem: Seq<char>, renamed: Seq<char>)
    requires
        !renamed.contains('^'),
    ensures
        0 <= component_start(stem) <= stem.len(),
        component_start(stem.take(component_start(stem)) + renamed) == component_start(stem),
        !stem.skip(component_start(stem)).contains('^'),
{
    lemma_last_position(stem, '^');
    let from = component_start(stem);
    let new_stem = stem.take(from) + renamed;
    let component = stem.skip(from);
    if component.contains('^') {
        let k = choose|k: int| 0 <= k < component.len() && component[k] == '^';
        assert(stem[from + k] == '^');
    }
    if from > 0 {
        assert(new_stem =~= stem.take(from - 1).push('^') + renamed);
        lemma_last_position_at(stem.take(from - 1), '^', renamed);
    } else {
        assert(new_stem =~= renamed);
        lemma_no_position(new_stem, '^');
    }
}

proof fn lemma_spliced_lacks(s: Seq<char>, a: int, b: int, word: Seq<char>, c: char)
    requires
        0 <= a <= b <= s.len(),
        !s.contains(c),
        !word.contains(c),
    ensures
        !(s.take(a) + word + s.skip(b)).contains(c),
{
    let t = s.take(a) + word + s.skip(b);
    if t.contains(c) {
        let k = choose|k: int| 0 <= k < t.len() && t[k] == c;
        if k < a {
            assert(s[k] == c);
        } else if k < a + word.len() {
            assert(word[k - a] == c);
        } else {
            assert(s[b + (k - a - word.len())] == c);
        }
    }
}

/// The pieces of a component in which the number was replaced.
proof fn lemma_pieces_renumbered(component: Seq<char>, at: int, word: Seq<char>)
    requires
        0 <= at < split_on(lower(component), '_').len(),
        all_digits(word),
    ensures
        ({
            let pieces = split_on(lower(component), '_');
            let start = piece_start(pieces, at);
            let end = start + pieces[at].len();
            &&& 0 <= start <= end <= component.len()
            &&& split_on(lower(component.take(start) + word + component.skip(end)), '_')
                == pieces.update(at, word)
        }),
{
    let small = lower(component);
    let pieces = split_on(small, '_');
    let start = piece_start(pieces, at);
    let end = start + pieces[at].len();
    lemma_digits_hold(word, '_');
    lemma_join_split(small, '_');
    lemma_join_around(pieces, '_', at);
    let other = pieces.update(at, word);
    assert(lower(component.take(start) + word + component.skip(end)) =~= small.take(start) + lower(
        word,
    ) + small.skip(end));
    assert forall|i: int| 0 <= i < other.len() implies !(#[trigger] other[i]).contains('_') by {
        if i != at {
            assert(other[i] == pieces[i]);
        }
    }
    lemma_split_join(other, '_');
}

/// An asset that was renumbered is recognised as the same kind of asset, under
/// the new number.
pub proof fn law_renumbered_is_read_back(name: Seq<char>, id: u32, width: nat)
    requires
        asset_of(name) is Some,
    ensures
        ({
            let key = asset_of(name)->0;
            asset_of(renumbered(name, key, id as nat, width)) == Some(
                AssetModel {
                    prefix: key.prefix,
                    id,
                    start: key.start,
                    end: key.start + zero_padded(id as nat, width).len(),
                },
            )
        }),
{
    let key = asset_of(name)->0;
    let word = zero_padded(id as nat, width);
    lemma_padded_digits(id as nat, width);
    lemma_digits_hold(word, '^');
    lemma_last_position(name, '.');
    let dot = last_position(name, '.')->0;
    let stem = name.take(dot);
    let tail = name.skip(dot + 1);
    let texture = lower(tail) == "ytd"@;
    let from = component_start(stem);
    lemma_component_replaced(stem, Seq::empty());
    let component = stem.skip(from);
    let pieces = split_on(lower(component), '_');
    let (_, at) = number_places(pieces, texture)->0;
    if texture {
        lemma_first_place_found(pieces, "diff"@, at - 1);
    } else {
        lemma_last_number(pieces);
    }
    lemma_pieces_renumbered(component, at, word);
    let start = piece_start(pieces, at);
    let end = start + pieces[at].len();
    let renamed = component.take(start) + word + component.skip(end);
    lemma_spliced_lacks(component, start, end, word, '^');
    lemma_component_replaced(stem, renamed);
    let new_stem = stem.take(from) + renamed;
    assert(new_stem.skip(from) =~= renamed);
    assert(!tail.contains('.')) by {
        if tail.contains('.') {
            let k = choose|k: int| 0 <= k < tail.len() && tail[k] == '.';
            assert(name[dot + 1 + k] == '.');
        }
    }
    lemma_asset_of_parts(new_stem, tail);
    assert(renumbered(name, key, id as nat, width) =~= new_stem.push('.') + tail);
    lemma_asset_renumbered(pieces, texture, from, at, word);
}

/// The number of an asset stands within its name.
proof fn lemma_asset_bounds(name: Seq<char>)
    requires
        asset_of(name) is Some,
    ensures
        0 <= asset_of(name)->0.start <= asset_of(name)->0.end <= name.len(),
{
    lemma_last_position(name, '.');
    let dot = last_position(name, '.')->0;
    let stem = name.take(dot);
    let texture = lower(name.skip(dot + 1)) == "ytd"@;
    let from = component_start(stem);
    lemma_component_replaced(stem, Seq::empty());
    let small = lower(stem.skip(from));
    let pieces = split_on(small, '_');
    let (_, at) = number_places(pieces, texture)->0;
    if texture {
        lemma_first_place_found(pieces, "diff"@, at - 1);
    } else {
        lemma_last_number(pieces);
    }
    lemma_piece_start_bounds(pieces, at, small);
}

/// A piece stands in the joined text between separators.
pub proof fn lemma_join_borders(pieces: Seq<Seq<char>>, sep: char, i: int)
    requires
        0 <= i < pieces.len(),
    ensures
        ({
            let all = join(pieces, sep);
            let start = piece_start(pieces, i);
            let end = start + pieces[i].len();
            &&& 0 <= start
            &&& end <= all.len()
            &&& all.subrange(start, end) == pieces[i]
            &&& i > 0 ==> start > 0 && all[start - 1] == sep
            &&& i < pieces.len() - 1 ==> end < all.len() && all[end] == sep
            &&& i == pieces.len() - 1 ==> end == all.len()
        }),
    decreases pieces.len(),
{
    let all = join(pieces, sep);
    let front = pieces.drop_last();
    let start = piece_start(pieces, i);
    let end = start + pieces[i].len();
    lemma_join_len(pieces, sep);
    if pieces.len() == 1 {
        assert(all.subrange(start, end) =~= pieces[i]);
    } else {
        let head = join(front, sep);
        lemma_join_len(front, sep);
        lemma_piece_start_front(pieces, pieces.len() - 2);
        assert(front.last() == pieces[pieces.len() - 2]);
        assert(all == head.push(sep) + pieces.last());
        if i == pieces.len() - 1 {
            assert(start == head.len() + 1);
            assert(all.subrange(start, end) =~= pieces[i]);
        } else {
            lemma_join_borders(front, sep, i);
            lemma_piece_start_front(pieces, i);
            assert(all.subrange(start, end) =~= head.subrange(start, end));
        }
    }
}

/// The number of an asset is made of digits, and stands between an underscore
/// and another one or the end of the stem.
pub proof fn lemma_number_stands_apart(name: Seq<char>)
    requires
        asset_of(name) is Some,
    ensures
        ({
            let key = asset_of(name)->0;
            &&& last_position(name, '.') is Some
            &&& {
                let dot = last_position(name, '.')->0;
                &&& 0 < key.start < key.end <= dot < name.len()
                &&& name[key.start - 1] == '_'
                &&& key.end < dot ==> name[key.end] == '_'
                &&& all_digits(spelled_number(name))
            }
        }),
{
    lemma_last_position(name, '.');
    let dot = last_position(name, '.')->0;
    let stem = name.take(dot);
    let texture = lower(name.skip(dot + 1)) == "ytd"@;
    let from = component_start(stem);
    lemma_component_replaced(stem, Seq::empty());
    let component = stem.skip(from);
    let small = lower(component);
    let pieces = split_on(small, '_');
    let (_, at) = number_places(pieces, texture)->0;
    if texture {
        lemma_first_place_found(pieces, "diff"@, at - 1);
    } else {
        lemma_last_number(pieces);
    }
    lemma_join_split(small, '_');
    lemma_join_borders(pieces, '_', at);
    let start = piece_start(pieces, at);
    let end = start + pieces[at].len();
    let word = spelled_number(name);
    assert(small.len() == component.len());
    assert forall|k: int| 0 <= k < small.len() implies lower_char(name[from + k])
        == #[trigger] small[k] by {
        assert(component[k] == name[from + k]);
    }
    assert(small[start - 1] == '_');
    assert(lower_char(name[from + start - 1]) == small[start - 1]);
    if from + end < dot {
        assert(small[end] == '_');
        assert(lower_char(name[from + end]) == small[end]);
    }
    assert forall|k: int| 0 <= k < word.len() implies is_digit(#[trigger] word[k]) by {
        assert(small.subrange(start, end)[k] == pieces[at][k]);
        assert(is_digit(pieces[at][k]));
        assert(lower_char(name[from + start + k]) == small[start + k]);
    }
}

/// Two names whose numbers are spelled alike stay different when both get the
/// same new number.
pub proof fn law_renumbered_names_differ(a: Seq<char>, b: Seq<char>, id: u32, width: nat)
    requires
        asset_of(a) is Some,
        asset_of(b) is Some,
        spelled_number(a) == spelled_number(b),
        a != b,
    ensures
        renumbered(a, asset_of(a)->0, id as nat, width) != renumbered(
            b,
            asset_of(b)->0,
            id as nat,
            width,
        ),
{
    let ka = asset_of(a)->0;
    let kb = asset_of(b)->0;
    let word = zero_padded(id as nat, width);
    let x = renumbered(a, ka, id as nat, width);
    let y = renumbered(b, kb, id as nat, width);
    law_renumbered_is_read_back(a, id, width);
    law_renumbered_is_read_back(b, id, width);
    lemma_asset_bounds(a);
    lemma_asset_bounds(b);
    if x == y {
        assert(ka.start == kb.start);
        assert(ka.end == kb.end) by {
            assert(spelled_number(a).len() == ka.end - ka.start);
            assert(spelled_number(b).len() == kb.end - kb.start);
        }
        let rest = ka.start + word.len();
        assert(x.take(ka.start) =~= a.take(ka.start));
        assert(y.take(ka.start) =~= b.take(ka.start));
        assert(x.skip(rest) =~= a.skip(ka.end));
        assert(y.skip(rest) =~= b.skip(ka.end));
        assert(a =~= a.take(ka.start) + a.subrange(ka.start, ka.end) + a.skip(ka.end));
        assert(b =~= b.take(ka.start) + b.subrange(ka.start, ka.end) + b.skip(ka.end));
    }
}

} // verus!
