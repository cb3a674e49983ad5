//! The numbers that are in use for one kind of asset.

use std::collections::HashSet;
use vstd::prelude::*;

verus! {

broadcast use vstd::std_specs::hash::group_hash_axioms;

/// Ten to the power of `n`.
pub open spec fn power_of_ten(n: nat) -> nat
    decreases n,
{
    if n == 0 {
        1
    } else {
        10 * power_of_ten((n - 1) as nat)
    }
}

/// The largest number that is given out at a width: the largest of so many
/// digits, as far as 32 bits reach.
pub open spec fn widest_id(width: nat) -> nat {
    if width >= 10 {
        (u32::MAX - 1) as nat
    } else {
        (power_of_ten(width) - 1) as nat
    }
}

/// Whether `n` is the number after all that are in use, zero where none is.
pub open spec fn is_after_all(used: Set<u32>, n: int) -> bool {
    &&& 0 <= n <= 0x1_0000_0000
    &&& forall|x: u32| used.contains(x) ==> x < n
    &&& n > 0 ==> used.contains((n - 1) as u32)
}

/// The number after all that are in use.
pub open spec fn after_all(used: Set<u32>) -> int {
    choose|n: int| is_after_all(used, n)
}

/// Whether `c` is the least number that is not in use.
pub open spec fn is_first_gap(used: Set<u32>, c: u32) -> bool {
    &&& !used.contains(c)
    &&& forall|x: u32| x < c ==> used.contains(x)
}

/// The least number that is not in use.
pub open spec fn first_gap(used: Set<u32>) -> u32 {
    choose|c: u32| is_first_gap(used, c)
}

/// Whether a number below `n` is not in use.
pub open spec fn has_gap_below(used: Set<u32>, n: int) -> bool {
    exists|c: u32| c < n && !#[trigger] used.contains(c)
}

/// The least width from `width` on at which `n` can be given out.
pub open spec fn width_for(n: int, width: nat) -> nat
    decreases 10 - width,
{
    if width >= 10 || n <= widest_id(width) {
        width
    } else {
        width_for(n, width + 1)
    }
}

/// The number that is given out next, and its width: the one after all that
/// are in use if the width allows it, else the least free one, else the one
/// after all at the least width that allows it.
pub open spec fn free_id(used: Set<u32>, digit_width: nat) -> (u32, nat) {
    let width = if digit_width == 0 {
        1
    } else {
        digit_width
    };
    let next = after_all(used);
    if next <= widest_id(width) {
        (next as u32, width)
    } else if has_gap_below(used, next) {
        (first_gap(used), width)
    } else {
        (next as u32, width_for(next, width))
    }
}

/// Whether a number can be given out: the largest of 32 bits is not in use,
/// and another one is free.
pub open spec fn has_free_id(used: Set<u32>) -> bool {
    !used.contains(u32::MAX) && has_gap_below(used, u32::MAX as int)
}

proof fn lemma_after_all(used: Set<u32>, n: int)
    requires
        is_after_all(used, n),
    ensures
        after_all(used) == n,
{
    let m = after_all(used);
    assert(is_after_all(used, m));
    if m > 0 && n < m {
        assert(used.contains((m - 1) as u32));
    }
    if n > 0 && m < n {
        assert(used.contains((n - 1) as u32));
    }
}

proof fn lemma_first_gap(used: Set<u32>, c: u32)
    requires
        is_first_gap(used, c),
    ensures
        first_gap(used) == c,
{
    let d = first_gap(used);
    assert(is_first_gap(used, d));
    assert(!(c < d) && !(d < c));
}

proof fn lemma_powers_of_ten()
    ensures
        power_of_ten(1) == 10,
        power_of_ten(2) == 100,
        power_of_ten(3) == 1000,
        power_of_ten(4) == 10000,
        power_of_ten(5) == 100000,
        power_of_ten(6) == 1000000,
        power_of_ten(7) == 10000000,
        power_of_ten(8) == 100000000,
        power_of_ten(9) == 1000000000,
{
    reveal_with_fuel(power_of_ten, 10);
}

/// The largest number that is given out at a width.
fn widest(width: usize) -> (res: u64)
    requires
        width >= 1,
    ensures
        res == widest_id(width as nat),
{
    proof {
        lemma_powers_of_ten();
    }
    match width {
        1 => 9,
        2 => 99,
        3 => 999,
        4 => 9999,
        5 => 99999,
        6 => 999999,
        7 => 9999999,
        8 => 99999999,
        9 => 999999999,
        _ => 4294967294,
    }
}

/// The numbers in use for one kind of asset.
pub struct UsedIds {
    ids: HashSet<u32>,
    next: u64,
}

impl View for UsedIds {
    type V = Set<u32>;

    closed spec fn view(&self) -> Set<u32> {
        self.ids@
    }
}

impl UsedIds {
    /// The number after all in use is kept up to date.
    pub closed spec fn wf(&self) -> bool {
        is_after_all(self.ids@, self.next as int)
    }

    /// No number is in use.
    pub fn new() -> (res: Self)
        ensures
            res.wf(),
            res@ == Set::<u32>::empty(),
    {
        UsedIds { ids: HashSet::new(), next: 0 }
    }

    /// Whether a number is in use.
    pub fn contains(&self, id: u32) -> (res: bool)
        ensures
            res == self@.contains(id),
    {
        self.ids.contains(&id)
    }

    /// Puts a number to use.
    pub fn insert(&mut self, id: u32)
        requires
            old(self).wf(),
        ensures
            final(self).wf(),
            final(self)@ == old(self)@.insert(id),
    {
        let _ = self.ids.insert(id);
        if id as u64 >= self.next {
            self.next = id as u64 + 1;
        }
    }

    /// The least number below `self.next` that is not in use.
    fn find_gap(&self) -> (res: Option<u32>)
        requires
            self.wf(),
        ensures
            match res {
                Some(c) => is_first_gap(self@, c) && c < self.next,
                None => !has_gap_below(self@, self.next as int),
            },
    {
        let mut c: u64 = 0;
        while c < self.next
            invariant
                self.wf(),
                c <= self.next,
                forall|x: u32| x < c ==> self@.contains(x),
            decreases self.next - c,
        {
            if !self.ids.contains(&(c as u32)) {
                return Some(c as u32);
            }
            c = c + 1;
        }
        None
    }

    /// Whether a number can be given out.
    pub fn can_find_free_id(&self) -> (res: bool)
        requires
            self.wf(),
        ensures
            res == has_free_id(self@),
    {
        if self.next < u32::MAX as u64 {
            proof {
                let c = self.next as u32;
                assert(c < u32::MAX && !self@.contains(c));
            }
            return true;
        }
        if self.next > u32::MAX as u64 {
            proof {
                assert(self@.contains((self.next - 1) as u32));
            }
            return false;
        }
        match self.find_gap() {
            Some(c) => {
                proof {
                    assert(!self@.contains(c));
                }
                true
            },
            None => false,
        }
    }

    /// Gives out a number of at least the given width and puts it to use.
    pub fn find_free_id(&mut self, digit_width: usize) -> (res: (u32, usize))
        requires
            old(self).wf(),
            has_free_id(old(self)@),
        ensures
            final(self).wf(),
            (res.0, res.1 as nat) == free_id(old(self)@, digit_width as nat),
            final(self)@ == old(self)@.insert(res.0),
            !old(self)@.contains(res.0),
    {
        let mut width: usize = if digit_width == 0 {
            1
        } else {
            digit_width
        };
        let start: u64 = self.next;
        let ghost used = self@;
        proof {
            lemma_after_all(used, start as int);
            if start > u32::MAX as u64 {
                assert(used.contains((start - 1) as u32));
            }
        }
        if start > widest(width) {
            if let Some(c) = self.find_gap() {
                proof {
                    lemma_first_gap(used, c);
                    assert(!used.contains(c));
                    assert(has_gap_below(used, start as int));
                }
                self.insert(c);
                return (c, width);
            }
            proof {
                // All numbers below are in use, so the free one is not below.
                let c = choose|c: u32| c < u32::MAX && !#[trigger] used.contains(c);
                assert(start <= c);
            }
            while start > widest(width)
                invariant
                    1 <= width <= 10,
                    start <= u32::MAX - 1,
                    width_for(start as int, width as nat) == width_for(
                        start as int,
                        (if digit_width == 0 {
                            1
                        } else {
                            digit_width
                        }) as nat,
                    ),
                decreases 10 - width,
            {
                width = width + 1;
            }
        }
        let id: u32 = start as u32;
        proof {
            assert(!used.contains(id));
        }
        self.insert(id);
        (id, width)
    }
}

/// A number that is given out was free, and no wider than asked for unless all
/// numbers of that width are taken.
pub proof fn law_free_id_is_free(used: Set<u32>, digit_width: nat)
    requires
        has_free_id(used),
    ensures
        ({
            let (id, width) = free_id(used, digit_width);
            let asked = if digit_width == 0 {
                1
            } else {
                digit_width
            };
            &&& !used.contains(id)
            &&& width >= asked
            &&& width > asked ==> forall|x: u32| x <= widest_id(asked) ==> used.contains(x)
        }),
{
    lemma_after_all_exists(used, 0x1_0000_0000);
    let n = choose|n: int| is_after_all(used, n);
    lemma_after_all(used, n);
    let asked = if digit_width == 0 {
        1
    } else {
        digit_width
    };
    if n > widest_id(asked) {
        if has_gap_below(used, n) {
            let c = choose|c: u32| c < n && !#[trigger] used.contains(c);
            lemma_gap_exists(used, c);
            let g = first_gap(used);
            assert(is_first_gap(used, g));
        } else {
            let c = choose|c: u32| c < u32::MAX && !#[trigger] used.contains(c);
            assert(n <= c);
            lemma_width_for(n, asked);
            assert forall|x: u32| x <= widest_id(asked) implies used.contains(x) by {
                assert(x < n);
            }
        }
    } else {
        assert(!used.contains(n as u32));
    }
}

proof fn lemma_after_all_exists(used: Set<u32>, k: int)
    requires
        0 <= k <= 0x1_0000_0000,
        forall|x: u32| used.contains(x) ==> x < k,
    ensures
        exists|n: int| is_after_all(used, n),
    decreases k,
{
    if k == 0 || used.contains((k - 1) as u32) {
        assert(is_after_all(used, k));
    } else {
        lemma_after_all_exists(used, k - 1);
    }
}

proof fn lemma_width_for(n: int, width: nat)
    ensures
        width_for(n, width) >= width,
    decreases 10 - width,
{
    if width < 10 && n > widest_id(width) {
        lemma_width_for(n, width + 1);
    }
}

proof fn lemma_gap_exists(used: Set<u32>, c: u32)
    requires
        !used.contains(c),
    ensures
        exists|d: u32| is_first_gap(used, d),
    decreases c,
{
    if exists|x: u32| x < c && !used.contains(x) {
        let x = choose|x: u32| x < c && !used.contains(x);
        lemma_gap_exists(used, x);
    } else {
        assert(is_first_gap(used, c));
    }
}

/// Which number is given out, by cases.
pub proof fn lemma_free_id_cases(used: Set<u32>, digit_width: nat, largest: u32)
    requires
        has_free_id(used),
        used.contains(largest),
        forall|x: u32| used.contains(x) ==> x <= largest,
    ensures
        ({
            let (id, width) = free_id(used, digit_width);
            let asked = if digit_width == 0 {
                1
            } else {
                digit_width
            };
            let fits = largest + 1 <= widest_id(asked);
            let full = forall|x: u32| x < largest ==> used.contains(x);
            &&& fits ==> id == largest + 1 && width == asked
            &&& !fits && !full ==> !used.contains(id) && width == asked && forall|x: u32|
                x < id ==> used.contains(x)
            &&& !fits && full ==> id == largest + 1 && width > asked && largest + 1 <= widest_id(
                width,
            ) && largest + 1 > widest_id((width - 1) as nat)
        }),
{
    let n = largest + 1;
    assert(is_after_all(used, n));
    lemma_after_all(used, n);
    let asked = if digit_width == 0 {
        1
    } else {
        digit_width
    };
    let full = forall|x: u32| x < largest ==> used.contains(x);
    if n > widest_id(asked) {
        if has_gap_below(used, n) {
            let c = choose|c: u32| c < n && !#[trigger] used.contains(c);
            assert(c < largest);
            lemma_gap_exists(used, c);
            assert(is_first_gap(used, first_gap(used)));
        } else {
            assert forall|x: u32| x < largest implies used.contains(x) by {
                if !used.contains(x) {
                    assert(has_gap_below(used, n));
                }
            }
            let c = choose|c: u32| c < u32::MAX && !#[trigger] used.contains(c);
            assert(n <= c);
            lemma_width_is_least(n, asked);
        }
        if !full {
            let x = choose|x: u32| x < largest && !used.contains(x);
            assert(!used.contains(x));
            assert(has_gap_below(used, n));
        }
    }
}

proof fn lemma_width_is_least(n: int, width: nat)
    requires
        n > widest_id(width),
        n <= u32::MAX - 1,
    ensures
        width_for(n, width) > width,
        n <= widest_id(width_for(n, width)),
        n > widest_id((width_for(n, width) - 1) as nat),
    decreases 10 - width,
{
    assert(width < 10);
    if n > widest_id(width + 1) {
        lemma_width_is_least(n, width + 1);
    } else {
        assert(width_for(n, width + 1) == width + 1);
    }
}

/// The first number that is given out.
pub proof fn lemma_first_id(digit_width: nat)
    ensures
        free_id(Set::<u32>::empty(), digit_width) == (0u32, if digit_width == 0 {
            1nat
        } else {
            digit_width
        }),
{
    assert(is_after_all(Set::<u32>::empty(), 0));
    lemma_after_all(Set::<u32>::empty(), 0);
}

/// Powers of ten.
pub proof fn lemma_power_of_ten(n: nat)
    ensures
        power_of_ten(n) == vstd::arithmetic::power::pow(10, n),
    decreases n,
{
    if n == 0 {
        vstd::arithmetic::power::lemma_pow0(10);
    } else {
        lemma_power_of_ten((n - 1) as nat);
        reveal(vstd::arithmetic::power::pow);
    }
}

} // verus!
