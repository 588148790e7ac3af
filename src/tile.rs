//! One cell of the board: either a digit, or the set of digits still open to
//! it together with the size of that set.
use vstd::prelude::*;

use crate::grid::BOARD_SIZE;

verus! {

/// The number of `true` entries of `s`.
pub open spec fn count_true(s: Seq<bool>) -> nat
    decreases s.len(),
{
    if s.len() == 0 {
        0
    } else {
        count_true(s.drop_last()) + if s.last() { 1nat } else { 0nat }
    }
}

proof fn lemma_count_true_bound(s: Seq<bool>)
    ensures
        count_true(s) <= s.len(),
    decreases s.len(),
{
    if s.len() > 0 {
        lemma_count_true_bound(s.drop_last());
    }
}

proof fn lemma_count_true_clear(s: Seq<bool>, i: int)
    requires
        0 <= i < s.len(),
        s[i],
    ensures
        count_true(s.update(i, false)) + 1 == count_true(s),
    decreases s.len(),
{
    let t = s.update(i, false);
    if i == s.len() - 1 {
        assert(t.drop_last() =~= s.drop_last());
    } else {
        assert(t.drop_last() =~= s.drop_last().update(i, false));
        lemma_count_true_clear(s.drop_last(), i);
    }
}

/// A `true` entry makes the count positive, and a count of one leaves room
/// for a single `true` entry.
proof fn lemma_count_true_entries(s: Seq<bool>, a: int, b: int)
    requires
        0 <= a < s.len(),
        0 <= b < s.len(),
        s[a],
    ensures
        count_true(s) >= 1,
        count_true(s) == 1 && s[b] ==> a == b,
    decreases s.len(),
{
    let n = s.len() - 1;
    let t = s.drop_last();
    if a == n {
        if b != n {
            if s[b] {
                lemma_count_true_entries(t, b, b);
            }
        }
    } else {
        assert(t[a] == s[a]);
        if b == n {
            lemma_count_true_entries(t, a, a);
        } else {
            assert(t[b] == s[b]);
            lemma_count_true_entries(t, a, b);
        }
    }
}

proof fn lemma_count_true_all(s: Seq<bool>)
    requires
        forall|i: int| 0 <= i < s.len() ==> #[trigger] s[i],
    ensures
        count_true(s) == s.len(),
    decreases s.len(),
{
    if s.len() > 0 {
        lemma_count_true_all(s.drop_last());
    }
}

#[derive(Debug, Clone, Copy, Eq)]
pub struct Tile {
    /// The digit held by the tile, between 1 and 9; `None` while it is empty.
    value: Option<u8>,
    /// Entry `d - 1` is true while digit `d` may still be placed on the tile.
    possible_values: [bool; BOARD_SIZE],
    /// The number of true entries of `possible_values`.
    possible_count: usize,
}

impl Tile {
    /// The digit held by the tile, or 0 while it is empty.
    pub closed spec fn digit(self) -> u8 {
        match self.value {
            Some(v) => v,
            None => 0,
        }
    }

    /// Digit `d` is still open to the tile. Meaningful only while it is empty.
    pub closed spec fn allows(self, d: int) -> bool {
        1 <= d <= 9 && self.possible_values@[d - 1]
    }

    /// The number of digits still open to the tile.
    pub closed spec fn count(self) -> nat {
        self.possible_count as nat
    }

    pub closed spec fn wf(self) -> bool {
        &&& self.value != Some(0u8)
        &&& self.digit() <= 9
        &&& self.possible_count == count_true(self.possible_values@)
    }

    /// A well-formed tile holds 0 (empty) or a digit.
    pub proof fn lemma_digit(self)
        requires
            self.wf(),
        ensures
            self.digit() <= 9,
            forall|d: int| #[trigger] self.allows(d) ==> 1 <= d <= 9,
    {
    }

    /// The count of open digits is the number of digits that `allows` admits:
    /// zero exactly when none is open, and one only when a single one is.
    pub proof fn lemma_count(self)
        requires
            self.wf(),
        ensures
            self.count() <= 9,
            self.count() == 0 <==> (forall|d: int| !#[trigger] self.allows(d)),
            self.count() == 1 ==> (forall|a: int, b: int|
                #[trigger] self.allows(a) && #[trigger] self.allows(b) ==> a == b),
    {
        let s = self.possible_values@;
        lemma_count_true_bound(s);
        if exists|d: int| #[trigger] self.allows(d) {
            let d = choose|d: int| #[trigger] self.allows(d);
            lemma_count_true_entries(s, d - 1, d - 1);
        }
        if self.count() == 0 {
            assert forall|d: int| !#[trigger] self.allows(d) by {
                if self.allows(d) {
                    lemma_count_true_entries(s, d - 1, d - 1);
                }
            }
        } else {
            if forall|d: int| !#[trigger] self.allows(d) {
                assert forall|i: int| 0 <= i < s.len() implies !#[trigger] s[i] by {
                    assert(!self.allows(i + 1));
                }
                lemma_count_true_none(s);
            }
        }
        if self.count() == 1 {
            assert forall|a: int, b: int|
                #[trigger] self.allows(a) && #[trigger] self.allows(b) implies a == b by {
                lemma_count_true_entries(s, a - 1, b - 1);
            }
        }
    }

    /// True when no digit is held by the tile.
    pub fn is_empty(&self) -> (r: bool)
        requires
            self.wf(),
        ensures
            r == (self.digit() == 0),
    {
        self.value.is_none()
    }

    /// The digit held by the tile, if any.
    pub fn value(&self) -> (r: Option<u8>)
        requires
            self.wf(),
        ensures
            r == (if self.digit() == 0 { None } else { Some(self.digit()) }),
    {
        self.value
    }

    /// Puts `value` on the tile. The open digits are left as they are: once
    /// the tile holds a digit they are no longer consulted.
    pub fn set(&mut self, value: u8)
        requires
            old(self).wf(),
            1 <= value <= 9,
        ensures
            final(self).wf(),
            final(self).digit() == value,
            final(self).count() == old(self).count(),
            forall|d: int| #[trigger] final(self).allows(d) == old(self).allows(d),
    {
        self.value = Some(value);
    }

    /// Marks `value` as no longer open to the tile. Does nothing on a tile
    /// that holds a digit, or to which `value` was already closed.
    pub fn mark_unavailable(&mut self, value: u8)
        requires
            old(self).wf(),
            1 <= value <= 9,
        ensures
            final(self).wf(),
            final(self).digit() == old(self).digit(),
            old(self).digit() != 0 ==> *final(self) == *old(self),
            old(self).digit() == 0 ==> forall|d: int|
                #[trigger] final(self).allows(d) == (old(self).allows(d) && d != value),
            old(self).digit() == 0 ==> final(self).count() == if old(self).allows(value as int) {
                old(self).count() - 1
            } else {
                old(self).count() as int
            },
    {
        if self.value.is_some() {
            return;
        }
        let value_index = (value - 1) as usize;
        if self.possible_values[value_index] {
            proof {
                lemma_count_true_clear(self.possible_values@, value_index as int);
            }
            self.possible_values[value_index] = false;
            self.possible_count = self.possible_count - 1;
        }
    }

    /// The number of digits still open to the tile.
    pub fn candidate_count(&self) -> (r: usize)
        ensures
            r == self.count(),
    {
        self.possible_count
    }

    /// The smallest digit still open to the tile, if any.
    pub fn first_candidate(&self) -> (r: Option<u8>)
        ensures
            r matches Some(d) ==> self.allows(d as int) && forall|e: int|
                e < d ==> !#[trigger] self.allows(e),
            r is None ==> forall|e: int| !#[trigger] self.allows(e),
    {
        let mut i: usize = 0;
        while i < BOARD_SIZE
            invariant
                i <= 9,
                forall|e: int| e < i + 1 ==> !#[trigger] self.allows(e),
            decreases 9 - i,
        {
            if self.possible_values[i] {
                return Some((i + 1) as u8);
            }
            i = i + 1;
        }
        None
    }

    /// The digits still open to the tile, in increasing order.
    pub fn candidates(&self) -> (r: Vec<u8>)
        ensures
            forall|k: int| 0 <= k < r.len() ==> #[trigger] self.allows(r@[k] as int),
            forall|d: int| #[trigger] self.allows(d) ==> r@.contains(d as u8),
            forall|j: int, k: int| 0 <= j < k < r.len() ==> r@[j] < r@[k],
    {
        let mut r: Vec<u8> = Vec::new();
        let mut i: usize = 0;
        while i < BOARD_SIZE
            invariant
                i <= 9,
                forall|k: int| 0 <= k < r.len() ==> #[trigger] self.allows(r@[k] as int),
                forall|k: int| 0 <= k < r.len() ==> #[trigger] r@[k] <= i,
                forall|d: int| #[trigger] self.allows(d) && d <= i ==> r@.contains(d as u8),
                forall|j: int, k: int| 0 <= j < k < r.len() ==> r@[j] < r@[k],
            decreases 9 - i,
        {
            if self.possible_values[i] {
                let d = (i + 1) as u8;
                let ghost before = r@;
                r.push(d);
                assert(r@ == before.push(d));
                assert forall|e: int| #[trigger] self.allows(e) && e <= i + 1 implies r@.contains(
                    e as u8,
                ) by {
                    if e == i + 1 {
                        assert(r@[r.len() - 1] == e as u8);
                    } else {
                        let k = choose|k: int| 0 <= k < before.len() && before[k] == e as u8;
                        assert(r@[k] == e as u8);
                    }
                }
            }
            i = i + 1;
        }
        r
    }
}

proof fn lemma_count_true_none(s: Seq<bool>)
    requires
        forall|i: int| 0 <= i < s.len() ==> !#[trigger] s[i],
    ensures
        count_true(s) == 0,
    decreases s.len(),
{
    if s.len() > 0 {
        lemma_count_true_none(s.drop_last());
    }
}

impl Default for Tile {
    /// An empty tile to which every digit is open.
    fn default() -> (r: Self)
        ensures
            r.wf(),
            r.digit() == 0,
            r.count() == 9,
            forall|d: int| #[trigger] r.allows(d) == (1 <= d <= 9),
    {
        let t = Tile {
            value: None,
            possible_values: [true; BOARD_SIZE],
            possible_count: BOARD_SIZE,
        };
        proof {
            lemma_count_true_all(t.possible_values@);
        }
        t
    }
}

impl PartialEq for Tile {
    /// Two tiles are equal when they hold the same digit, or are both empty.
    fn eq(&self, other: &Self) -> (r: bool)
        ensures
            r == (self.digit() == other.digit()),
    {
        let a: u8 = match self.value {
            Some(v) => v,
            None => 0,
        };
        let b: u8 = match other.value {
            Some(v) => v,
            None => 0,
        };
        a == b
    }
}

impl vstd::std_specs::cmp::PartialEqSpecImpl for Tile {
    open spec fn obeys_eq_spec() -> bool {
        true
    }

    open spec fn eq_spec(&self, other: &Tile) -> bool {
        self.digit() == other.digit()
    }
}

} // verus!
