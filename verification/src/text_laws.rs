//! What holds of texts: white space, letters, numbers and order.

use crate::assets::{join, lemma_decimal_digits, lemma_join_split, lemma_padded_digits};
use crate::names::path_before;
use crate::text::{
    all_digits, decimal, digits_value, is_digit, is_white, lower, split_on, text_before, trim_end,
    trim_start, trimmed, zero_padded, zeros,
};
use vstd::prelude::*;

verus! {

// ---------------------------------------------------------------------------
// White space and letters
// ---------------------------------------------------------------------------

/// Spaces, tabs and line ends are white space, and no visible ASCII character
/// is.
pub proof fn law_white_space(c: char)
    ensures
        is_white(' ') && is_white('\t') && is_white('\n') && is_white('\r'),
        '!' <= c <= '~' ==> !is_white(c),
{
}

/// Whether a text is all white space.
pub open spec fn all_white(s: Seq<char>) -> bool {
    forall|i: int| 0 <= i < s.len() ==> is_white(#[trigger] s[i])
}

proof fn lemma_start_trimmed(s: Seq<char>) -> (a: Seq<char>)
    ensures
        all_white(a),
        s == a + trim_start(s),
        trim_start(s).len() > 0 ==> !is_white(trim_start(s)[0]),
    decreases s.len(),
{
    if s.len() > 0 && is_white(s[0]) {
        let b = lemma_start_trimmed(s.drop_first());
        let a = seq![s[0]] + b;
        assert(s =~= a + trim_start(s)) by {
            assert(s =~= seq![s[0]] + s.drop_first());
        }
        assert forall|i: int| 0 <= i < a.len() implies is_white(#[trigger] a[i]) by {
            if i > 0 {
                assert(a[i] == b[i - 1]);
            }
        }
        a
    } else {
        assert(s =~= Seq::<char>::empty() + s);
        Seq::empty()
    }
}

proof fn lemma_end_trimmed(s: Seq<char>) -> (b: Seq<char>)
    ensures
        all_white(b),
        s == trim_end(s) + b,
        trim_end(s).len() > 0 ==> !is_white(trim_end(s).last()),
    decreases s.len(),
{
    if s.len() > 0 && is_white(s.last()) {
        let a = lemma_end_trimmed(s.drop_last());
        let b = a.push(s.last());
        assert(s =~= trim_end(s) + b) by {
            assert(s =~= s.drop_last().push(s.last()));
        }
        assert forall|i: int| 0 <= i < b.len() implies is_white(#[trigger] b[i]) by {
            if i < a.len() {
                assert(b[i] == a[i]);
            }
        }
        b
    } else {
        assert(s =~= s + Seq::<char>::empty());
        Seq::empty()
    }
}

/// Trimming takes away white space at both ends and nothing else, and leaves
/// none there.
pub proof fn law_trimmed(s: Seq<char>)
    ensures
        exists|a: Seq<char>, b: Seq<char>|
            all_white(a) && all_white(b) && s == #[trigger] (a + trimmed(s) + b),
        trimmed(s).len() > 0 ==> !is_white(trimmed(s)[0]) && !is_white(trimmed(s).last()),
{
    let a = lemma_start_trimmed(s);
    let rest = trim_start(s);
    let b = lemma_end_trimmed(rest);
    assert(s =~= a + trimmed(s) + b);
    if trimmed(s).len() > 0 {
        assert(trimmed(s)[0] == rest[0]);
    }
}

/// The letters from `A` to `Z` become those from `a` to `z`, and every other
/// character stays.
pub proof fn law_lower(s: Seq<char>, i: int)
    requires
        0 <= i < s.len(),
    ensures
        lower(s).len() == s.len(),
        'A' <= s[i] <= 'Z' ==> lower(s)[i] as int == s[i] as int + 32,
        !('A' <= s[i] <= 'Z') ==> lower(s)[i] == s[i],
{
}

/// Splitting at a character cuts there and nowhere else: no piece holds it, and
/// with it in between the pieces make up the text.
pub proof fn law_split(s: Seq<char>, sep: char, i: int)
    requires
        0 <= i < split_on(s, sep).len(),
    ensures
        !split_on(s, sep)[i].contains(sep),
        join(split_on(s, sep), sep) == s,
{
    lemma_join_split(s, sep);
}

/// Joining puts the separator between two pieces.
pub proof fn law_join(pieces: Seq<Seq<char>>, last: Seq<char>, sep: char)
    ensures
        join(seq![last], sep) == last,
        pieces.len() > 0 ==> join(pieces.push(last), sep) == join(pieces, sep).push(sep) + last,
{
    assert(pieces.push(last).drop_last() =~= pieces);
    assert(pieces.push(last).last() == last);
}

// ---------------------------------------------------------------------------
// Numbers
// ---------------------------------------------------------------------------

/// A digit more on the right counts ten times what was there, and itself.
pub proof fn law_digits_count(s: Seq<char>, c: char)
    requires
        is_digit(c),
    ensures
        '0' <= c <= '9',
        digits_value(s.push(c)) == 10 * digits_value(s) + (c as int - '0' as int),
        digits_value(Seq::<char>::empty()) == 0,
{
    assert(s.push(c).drop_last() =~= s);
}

/// A number is written with the digits that stand for it, as few as possible.
pub proof fn law_decimal(n: nat)
    ensures
        all_digits(decimal(n)),
        digits_value(decimal(n)) == n,
        n < 10 <==> decimal(n).len() == 1,
        n > 0 ==> decimal(n)[0] != '0',
    decreases n,
{
    lemma_decimal_digits(n);
    if n >= 10 {
        law_decimal(n / 10);
        assert(decimal(n)[0] == decimal(n / 10)[0]);
    } else if n > 0 {
        assert(decimal(n)[0] as int == 48 + n);
    }
}

/// A padded number has at least the width asked for, and no more zeros in front
/// than that takes.
pub proof fn law_zero_padded(n: nat, width: nat)
    ensures
        digits_value(zero_padded(n, width)) == n,
        all_digits(zero_padded(n, width)),
        zero_padded(n, width).len() == if decimal(n).len() < width {
            width
        } else {
            decimal(n).len()
        },
{
    lemma_padded_digits(n, width);
    assert(zeros(width - decimal(n).len()).len() == if decimal(n).len() < width {
        width - decimal(n).len()
    } else {
        0
    });
}

// ---------------------------------------------------------------------------
// Order
// ---------------------------------------------------------------------------

/// Of two texts the one with the lower character in the first place where they
/// differ comes first, and a text comes before all that go on where it ends.
pub proof fn law_texts_are_ordered(head: Seq<char>, a: Seq<char>, b: Seq<char>)
    ensures
        a.len() > 0 && b.len() > 0 && a[0] < b[0] ==> text_before(head + a, head + b),
        b.len() > 0 ==> text_before(head, head + b),
        !text_before(head, head),
    decreases head.len(),
{
    if head.len() > 0 {
        let rest = head.drop_first();
        law_texts_are_ordered(rest, a, b);
        assert((head + a).drop_first() =~= rest + a);
        assert((head + b).drop_first() =~= rest + b);
        assert((head + a)[0] == head[0] && (head + b)[0] == head[0]);
    } else {
        assert(head + a =~= a);
        assert(head + b =~= b);
    }
}

/// Of two paths the one with the lower name in the first place where they differ
/// comes first, and a folder comes before what is in it.
pub proof fn law_paths_are_ordered(
    head: Seq<Seq<char>>,
    a: Seq<Seq<char>>,
    b: Seq<Seq<char>>,
)
    ensures
        a.len() > 0 && b.len() > 0 && a[0] != b[0] && text_before(a[0], b[0]) ==> path_before(
            head + a,
            head + b,
        ),
        b.len() > 0 ==> path_before(head, head + b),
        !path_before(head, head),
    decreases head.len(),
{
    if head.len() > 0 {
        let rest = head.drop_first();
        law_paths_are_ordered(rest, a, b);
        assert((head + a).drop_first() =~= rest + a);
        assert((head + b).drop_first() =~= rest + b);
        assert((head + a)[0] == head[0] && (head + b)[0] == head[0]);
    } else {
        assert(head + a =~= a);
        assert(head + b =~= b);
    }
}

} // verus!
