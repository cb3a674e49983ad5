//! Paths as lists of names: their order, prefixes and extensions.

use crate::text::{
    decimal, from_chars, last_position, lemma_text_order, lemma_text_transitive, lower,
    push_decimal, rank_text, rfind, same_ignoring_case, text_before, texts, to_chars, Rank,
};
use vstd::prelude::*;
use vstd::slice::slice_subrange;

verus! {

// ---------------------------------------------------------------------------
// Order
// ---------------------------------------------------------------------------

/// Whether path `a` comes before path `b`: the first names in which they
/// differ decide, and a path comes before those inside it.
pub open spec fn path_before(a: Seq<Seq<char>>, b: Seq<Seq<char>>) -> bool
    decreases a.len(),
{
    if b.len() == 0 {
        false
    } else if a.len() == 0 {
        true
    } else if a[0] != b[0] {
        text_before(a[0], b[0])
    } else {
        path_before(a.drop_first(), b.drop_first())
    }
}

/// `path_before` orders any two different paths, one way only.
pub proof fn lemma_path_order(a: Seq<Seq<char>>, b: Seq<Seq<char>>)
    ensures
        path_before(a, b) ==> !path_before(b, a) && a != b,
        a != b ==> path_before(a, b) || path_before(b, a),
    decreases a.len(),
{
    if a.len() > 0 && b.len() > 0 {
        lemma_text_order(a[0], b[0]);
        lemma_path_order(a.drop_first(), b.drop_first());
        if a[0] == b[0] && a.drop_first() == b.drop_first() {
            assert(a =~= seq![a[0]] + a.drop_first());
            assert(b =~= seq![b[0]] + b.drop_first());
        }
    } else if a.len() == 0 && b.len() == 0 {
        assert(a =~= b);
    }
}

/// `path_before` is transitive.
pub proof fn lemma_path_transitive(a: Seq<Seq<char>>, b: Seq<Seq<char>>, c: Seq<Seq<char>>)
    requires
        path_before(a, b),
        path_before(b, c),
    ensures
        path_before(a, c),
    decreases a.len(),
{
    if a.len() > 0 && b.len() > 0 && c.len() > 0 {
        if a[0] == b[0] && b[0] == c[0] {
            lemma_path_transitive(a.drop_first(), b.drop_first(), c.drop_first());
        } else if a[0] != b[0] && b[0] != c[0] {
            lemma_text_transitive(a[0], b[0], c[0]);
            lemma_text_order(a[0], c[0]);
        }
    }
}

/// Compares two paths.
pub fn rank_path(a: &[String], b: &[String]) -> (res: Rank)
    ensures
        res is Same <==> texts(a@) == texts(b@),
        res is Less <==> path_before(texts(a@), texts(b@)),
        res is Greater <==> path_before(texts(b@), texts(a@)),
{
    let ghost x = texts(a@);
    let ghost y = texts(b@);
    let mut i: usize = 0;
    proof {
        lemma_path_order(x, y);
        lemma_path_order(y, x);
        assert(x.skip(0) =~= x);
        assert(y.skip(0) =~= y);
    }
    while i < a.len() && i < b.len()
        invariant
            x == texts(a@),
            y == texts(b@),
            i <= x.len(),
            i <= y.len(),
            x.take(i as int) == y.take(i as int),
            path_before(x.skip(i as int), y.skip(i as int)) == path_before(x, y),
            path_before(y.skip(i as int), x.skip(i as int)) == path_before(y, x),
            path_before(x, y) ==> !path_before(y, x) && x != y,
            path_before(y, x) ==> !path_before(x, y) && x != y,
            x != y ==> path_before(x, y) || path_before(y, x),
        decreases x.len() - i,
    {
        proof {
            assert(x.skip(i as int)[0] == a@[i as int]@);
            assert(y.skip(i as int)[0] == b@[i as int]@);
            assert(x.skip(i as int).drop_first() =~= x.skip(i + 1));
            assert(y.skip(i as int).drop_first() =~= y.skip(i + 1));
            lemma_text_order(a@[i as int]@, b@[i as int]@);
        }
        match rank_text(a[i].as_str(), b[i].as_str()) {
            Rank::Less => {
                return Rank::Less;
            },
            Rank::Greater => {
                return Rank::Greater;
            },
            Rank::Same => {},
        }
        proof {
            assert(x.take(i + 1) =~= x.take(i as int).push(x[i as int]));
            assert(y.take(i + 1) =~= y.take(i as int).push(y[i as int]));
        }
        i = i + 1;
    }
    if i < b.len() {
        return Rank::Less;
    }
    if i < a.len() {
        return Rank::Greater;
    }
    proof {
        assert(x.take(i as int) =~= x);
        assert(y.take(i as int) =~= y);
    }
    Rank::Same
}

// ---------------------------------------------------------------------------
// Prefixes
// ---------------------------------------------------------------------------

/// Whether `path` lies under `root`, or is it.
pub open spec fn is_under(path: Seq<Seq<char>>, root: Seq<Seq<char>>) -> bool {
    root.len() <= path.len() && path.take(root.len() as int) == root
}

/// The first of the roots that `path` lies under.
pub open spec fn first_root(path: Seq<Seq<char>>, roots: Seq<Seq<Seq<char>>>) -> Option<int>
    decreases roots.len(),
{
    if roots.len() == 0 {
        None
    } else {
        match first_root(path, roots.drop_last()) {
            Some(i) => Some(i),
            None => if is_under(path, roots.last()) {
                Some(roots.len() - 1)
            } else {
                None
            },
        }
    }
}

/// The names of `path` that follow the first root that it lies under; its last
/// name where there is no such root.
pub open spec fn relative_to(path: Seq<Seq<char>>, roots: Seq<Seq<Seq<char>>>) -> Seq<Seq<char>> {
    match first_root(path, roots) {
        Some(i) => path.skip(roots[i].len() as int),
        None => if path.len() > 0 {
            path.skip(path.len() - 1)
        } else {
            path
        },
    }
}

/// The views of a list of paths.
pub open spec fn paths(list: Seq<Vec<String>>) -> Seq<Seq<Seq<char>>> {
    list.map_values(|p: Vec<String>| texts(p@))
}

/// Whether `path` lies under `root`, or is it.
pub fn lies_under(path: &[String], root: &[String]) -> (res: bool)
    ensures
        res == is_under(texts(path@), texts(root@)),
{
    let ghost x = texts(path@);
    let ghost y = texts(root@);
    if root.len() > path.len() {
        return false;
    }
    let mut i: usize = 0;
    while i < root.len()
        invariant
            x == texts(path@),
            y == texts(root@),
            y.len() <= x.len(),
            i <= y.len(),
            forall|j: int| 0 <= j < i ==> x[j] == y[j],
        decreases y.len() - i,
    {
        match rank_text(path[i].as_str(), root[i].as_str()) {
            Rank::Same => {},
            _ => {
                proof {
                    assert(x.take(y.len() as int)[i as int] == path@[i as int]@);
                    assert(y[i as int] == root@[i as int]@);
                }
                return false;
            },
        }
        i = i + 1;
    }
    proof {
        assert(x.take(y.len() as int) =~= y);
    }
    true
}

/// How many names of `path` come before those that `relative_to` leaves.
pub fn relative_to_input_root(path: &[String], input_folders: &[Vec<String>]) -> (res: usize)
    ensures
        res <= path@.len(),
        texts(path@).skip(res as int) == relative_to(texts(path@), paths(input_folders@)),
{
    let ghost x = texts(path@);
    let ghost roots = paths(input_folders@);
    let mut i: usize = 0;
    proof {
        assert(roots.take(0).len() == 0);
    }
    while i < input_folders.len()
        invariant
            x == texts(path@),
            roots == paths(input_folders@),
            i <= roots.len(),
            first_root(x, roots.take(i as int)) is None,
        decreases roots.len() - i,
    {
        proof {
            assert(roots.take(i + 1).drop_last() =~= roots.take(i as int));
            assert(roots.take(i + 1).last() == texts(input_folders@[i as int]@));
        }
        if lies_under(path, input_folders[i].as_slice()) {
            proof {
                lemma_first_root_stays(x, roots, i + 1);
            }
            return input_folders[i].len();
        }
        i = i + 1;
    }
    proof {
        assert(roots.take(i as int) =~= roots);
        assert(x.skip(0) =~= x);
    }
    if path.len() > 0 {
        path.len() - 1
    } else {
        0
    }
}

proof fn lemma_first_root_stays(path: Seq<Seq<char>>, roots: Seq<Seq<Seq<char>>>, n: int)
    requires
        0 <= n <= roots.len(),
        first_root(path, roots.take(n)) is Some,
    ensures
        first_root(path, roots) == first_root(path, roots.take(n)),
    decreases roots.len() - n,
{
    if n == roots.len() {
        assert(roots.take(n) =~= roots);
    } else {
        assert(roots.take(n + 1).drop_last() =~= roots.take(n));
        lemma_first_root_stays(path, roots, n + 1);
    }
}

// ---------------------------------------------------------------------------
// Extensions and numbered names
// ---------------------------------------------------------------------------

/// Whether a file name has the given extension, case aside.
pub open spec fn is_extension(ext: Option<Seq<char>>, wanted: Seq<char>) -> bool {
    ext matches Some(e) && lower(e) == lower(wanted)
}

/// The characters of an optional text.
pub open spec fn opt_text(t: Option<&str>) -> Option<Seq<char>> {
    match t {
        Some(s) => Some(s@),
        None => None,
    }
}

/// The characters of an optional text.
pub open spec fn opt_string(t: Option<String>) -> Option<Seq<char>> {
    match t {
        Some(s) => Some(s@),
        None => None,
    }
}

/// An optional text, owned.
pub fn own_text(t: Option<&str>) -> (res: Option<String>)
    ensures
        opt_string(res) == opt_text(t),
{
    match t {
        Some(s) => Some(s.to_owned()),
        None => None,
    }
}

/// An optional text, borrowed.
pub fn borrow_text(t: &Option<String>) -> (res: Option<&str>)
    ensures
        opt_text(res) == opt_string(*t),
{
    match t {
        Some(s) => Some(s.as_str()),
        None => None,
    }
}

/// Whether a file name has the given extension, case aside.
pub fn has_extension(ext: Option<&str>, wanted: &str) -> (res: bool)
    ensures
        res == is_extension(opt_text(ext), wanted@),
{
    match ext {
        Some(e) => same_ignoring_case(e, wanted),
        None => false,
    }
}

/// Whether a file name is that of a texture dictionary.
pub fn is_ytd_file(ext: Option<&str>) -> (res: bool)
    ensures
        res == is_extension(opt_text(ext), "ytd"@),
{
    has_extension(ext, "ytd")
}

/// A file name without its extension. A point at the very front does not start
/// one.
pub open spec fn name_stem(name: Seq<char>) -> Seq<char> {
    match last_position(name, '.') {
        Some(p) => if p > 0 {
            name.take(p)
        } else {
            name
        },
        None => name,
    }
}

/// The extension of a file name, if it has one.
pub open spec fn name_extension(name: Seq<char>) -> Option<Seq<char>> {
    match last_position(name, '.') {
        Some(p) => if p > 0 {
            Some(name.skip(p + 1))
        } else {
            None
        },
        None => None,
    }
}

/// Parts a file name into its stem and its extension.
pub fn split_name(name: &str) -> (res: (String, Option<String>))
    ensures
        res.0@ == name_stem(name@),
        opt_string(res.1) == name_extension(name@),
{
    let chars = to_chars(name);
    let size: usize = chars.len();
    match rfind(chars.as_slice(), '.') {
        Some(p) if p > 0 => {
            let stem = from_chars(slice_subrange(chars.as_slice(), 0, p));
            let ext = from_chars(slice_subrange(chars.as_slice(), p + 1, size));
            proof {
                assert(stem@ =~= name_stem(name@));
                assert(ext@ =~= name@.skip(p + 1));
            }
            (stem, Some(ext))
        },
        _ => (name.to_owned(), None),
    }
}

/// A file name made of a stem, what is added to it, and an extension.
pub open spec fn extended_name(
    stem: Seq<char>,
    suffix: Seq<char>,
    ext: Option<Seq<char>>,
) -> Seq<char> {
    match ext {
        Some(e) => stem + suffix + "."@ + e,
        None => stem + suffix,
    }
}

/// A file name made of a stem, what is added to it, and an extension.
pub fn extend_name(stem: &str, suffix: &str, ext: Option<&str>) -> (res: String)
    ensures
        res@ == extended_name(stem@, suffix@, opt_text(ext)),
{
    let mut out = String::new();
    out.append(stem);
    out.append(suffix);
    if let Some(e) = ext {
        out.append(".");
        out.append(e);
    }
    proof {
        assert(out@ =~= extended_name(stem@, suffix@, opt_text(ext)));
    }
    out
}

/// The stem of a file name, `"file"` where it has none that is text.
pub open spec fn stem_or_file(stem: Option<Seq<char>>) -> Seq<char> {
    match stem {
        Some(s) => s,
        None => "file"@,
    }
}

/// The `n`-th name that is tried for an output file whose own name is taken.
pub open spec fn numbered_name(
    stem: Option<Seq<char>>,
    ext: Option<Seq<char>>,
    n: nat,
) -> Seq<char> {
    extended_name(stem_or_file(stem), "_"@ + decimal(n), ext)
}

/// The `n`-th name that is tried for an output file whose own name is taken.
pub fn number_name(stem: Option<&str>, ext: Option<&str>, n: u32) -> (res: String)
    ensures
        res@ == numbered_name(opt_text(stem), opt_text(ext), n as nat),
{
    let mut suffix = String::new();
    suffix.append("_");
    push_decimal(&mut suffix, n as u64);
    proof {
        assert(suffix@ =~= "_"@ + decimal(n as nat));
    }
    extend_name(
        match stem {
            Some(s) => s,
            None => "file",
        },
        suffix.as_str(),
        ext,
    )
}

/// The label of a pack.
pub open spec fn pack_label(pack_num: nat) -> Seq<char> {
    "pack"@ + decimal(pack_num)
}

/// The label of a pack.
pub fn label_pack(pack_num: usize) -> (res: String)
    ensures
        res@ == pack_label(pack_num as nat),
{
    let mut out = String::new();
    out.append("pack");
    push_decimal(&mut out, pack_num as u64);
    proof {
        assert(out@ =~= pack_label(pack_num as nat));
    }
    out
}

/// What is added to a name that collides with an earlier pack's, at the
/// `n`-th attempt.
pub open spec fn collision_suffix(label: Seq<char>, n: nat) -> Seq<char> {
    if n == 0 {
        "_"@ + label
    } else {
        "_"@ + label + "_"@ + decimal(n)
    }
}

/// The name that is tried at the `n`-th attempt for a file that collides with
/// an earlier pack's.
pub open spec fn collision_name(
    stem: Option<Seq<char>>,
    ext: Option<Seq<char>>,
    label: Seq<char>,
    n: nat,
) -> Seq<char> {
    extended_name(stem_or_file(stem), collision_suffix(label, n), ext)
}

/// The name that is tried at the `n`-th attempt for a file that collides with
/// an earlier pack's.
pub fn collide_name(stem: Option<&str>, ext: Option<&str>, label: &str, n: u32) -> (res: String)
    ensures
        res@ == collision_name(opt_text(stem), opt_text(ext), label@, n as nat),
{
    let mut suffix = String::new();
    suffix.append("_");
    suffix.append(label);
    if n > 0 {
        suffix.append("_");
        push_decimal(&mut suffix, n as u64);
    }
    proof {
        assert(suffix@ =~= collision_suffix(label@, n as nat));
    }
    extend_name(
        match stem {
            Some(s) => s,
            None => "file",
        },
        suffix.as_str(),
        ext,
    )
}

/// Different numbers have different decimal notations.
pub proof fn lemma_decimal_injective(n: nat, m: nat)
    requires
        decimal(n) == decimal(m),
    ensures
        n == m,
    decreases n,
{
    lemma_decimal_len(n);
    lemma_decimal_len(m);
    assert(decimal(n).last() == decimal(m).last());
    assert(decimal(n).last() as int == 48 + n % 10);
    assert(decimal(m).last() as int == 48 + m % 10);
    if n >= 10 && m >= 10 {
        assert(decimal(n).drop_last() =~= decimal(n / 10));
        assert(decimal(m).drop_last() =~= decimal(m / 10));
        lemma_decimal_injective(n / 10, m / 10);
    } else if n < 10 && m >= 10 {
        lemma_decimal_len(m / 10);
    } else if n >= 10 && m < 10 {
        lemma_decimal_len(n / 10);
    }
}

/// A decimal notation has at least one digit.
pub proof fn lemma_decimal_len(n: nat)
    ensures
        decimal(n).len() > 0,
{
}

proof fn lemma_extended_injective(
    stem: Seq<char>,
    a: Seq<char>,
    b: Seq<char>,
    ext: Option<Seq<char>>,
)
    requires
        extended_name(stem, a, ext) == extended_name(stem, b, ext),
    ensures
        a == b,
{
    let x = extended_name(stem, a, ext);
    let y = extended_name(stem, b, ext);
    assert(x.len() == y.len());
    assert(a.len() == b.len());
    assert(x.subrange(stem.len() as int, (stem.len() + a.len()) as int) =~= a);
    assert(y.subrange(stem.len() as int, (stem.len() + b.len()) as int) =~= b);
}

/// No two attempts at naming an output file try the same name, so a free one
/// is found.
pub proof fn law_numbered_names_differ(
    stem: Option<Seq<char>>,
    ext: Option<Seq<char>>,
    n: nat,
    m: nat,
)
    requires
        n != m,
    ensures
        numbered_name(stem, ext, n) != numbered_name(stem, ext, m),
{
    if numbered_name(stem, ext, n) == numbered_name(stem, ext, m) {
        let a = "_"@ + decimal(n);
        let b = "_"@ + decimal(m);
        lemma_extended_injective(stem_or_file(stem), a, b, ext);
        assert(a.skip("_"@.len() as int) =~= decimal(n));
        assert(b.skip("_"@.len() as int) =~= decimal(m));
        lemma_decimal_injective(n, m);
    }
}

/// No two attempts at renaming a colliding file try the same name, so a free
/// one is found.
pub proof fn law_collision_names_differ(
    stem: Option<Seq<char>>,
    ext: Option<Seq<char>>,
    label: Seq<char>,
    n: nat,
    m: nat,
)
    requires
        n != m,
    ensures
        collision_name(stem, ext, label, n) != collision_name(stem, ext, label, m),
{
    if collision_name(stem, ext, label, n) == collision_name(stem, ext, label, m) {
        let a = collision_suffix(label, n);
        let b = collision_suffix(label, m);
        lemma_extended_injective(stem_or_file(stem), a, b, ext);
        reveal_strlit("_");
        lemma_decimal_len(n);
        lemma_decimal_len(m);
        if n > 0 && m > 0 {
            let head = ("_"@ + label + "_"@).len() as int;
            assert(a.skip(head) =~= decimal(n));
            assert(b.skip(head) =~= decimal(m));
            lemma_decimal_injective(n, m);
        }
    }
}

} // verus!
