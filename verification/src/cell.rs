//! One square of the board: the set of digits that may still stand in it.
//!
//! A cell is a bit vector of width nine. Bit `k` is set while digit `k + 1` is
//! still possible. The mathematical model of a cell is the sequence of its
//! nine bits; the functions in the first half of this module speak about such
//! sequences, the second half is the executable cell.

use crate::bits::{
    bits, bits_clone, bits_difference, bits_fill, bits_from_elem, bits_iter, bits_negate,
    bits_none, bits_or, bits_set, push_char,
};
use bit_vec::BitVec;
use vstd::prelude::*;

verus! {

/// One for a set bit, zero for a clear one.
pub open spec fn unit(b: bool) -> int {
    if b {
        1
    } else {
        0
    }
}

/// How many of the nine bits are set.
pub open spec fn count(c: Seq<bool>) -> int {
    unit(c[0]) + unit(c[1]) + unit(c[2]) + unit(c[3]) + unit(c[4]) + unit(c[5]) + unit(c[6])
        + unit(c[7]) + unit(c[8])
}

/// The index of the lowest set bit, or nine when no bit is set.
pub open spec fn lowest(c: Seq<bool>) -> int {
    if c[0] {
        0
    } else if c[1] {
        1
    } else if c[2] {
        2
    } else if c[3] {
        3
    } else if c[4] {
        4
    } else if c[5] {
        5
    } else if c[6] {
        6
    } else if c[7] {
        7
    } else if c[8] {
        8
    } else {
        9
    }
}

/// Exactly one digit is left.
pub open spec fn solved(c: Seq<bool>) -> bool {
    count(c) == 1
}

/// No digit is left: a contradiction.
pub open spec fn invalid(c: Seq<bool>) -> bool {
    count(c) == 0
}

/// The cell in which only bit `k` is set.
pub open spec fn single(k: int) -> Seq<bool> {
    Seq::new(9, |i: int| i == k)
}

/// The cell with every bit set.
pub open spec fn full() -> Seq<bool> {
    Seq::new(9, |i: int| true)
}

/// The cell with no bit set.
pub open spec fn vacant() -> Seq<bool> {
    Seq::new(9, |i: int| false)
}

/// The bits of `a` that are not bits of `b`.
pub open spec fn minus(a: Seq<bool>, b: Seq<bool>) -> Seq<bool> {
    Seq::new(9, |i: int| a[i] && !b[i])
}

/// The bits of `a` together with those of `b`.
pub open spec fn join(a: Seq<bool>, b: Seq<bool>) -> Seq<bool> {
    Seq::new(9, |i: int| a[i] || b[i])
}

/// Every bit of `a` is a bit of `b`.
pub open spec fn within(a: Seq<bool>, b: Seq<bool>) -> bool {
    forall|i: int| 0 <= i < 9 ==> (#[trigger] a[i] ==> b[i])
}

/// How many of the bits below index `n` are set.
pub open spec fn count_below(c: Seq<bool>, n: int) -> int
    decreases n,
{
    if n <= 0 {
        0
    } else {
        count_below(c, n - 1) + unit(c[n - 1])
    }
}

/// The indices of the set bits below index `n`, in increasing order.
pub open spec fn set_below(c: Seq<bool>, n: int) -> Seq<int>
    decreases n,
{
    if n <= 0 {
        Seq::empty()
    } else if c[n - 1] {
        set_below(c, n - 1).push(n - 1)
    } else {
        set_below(c, n - 1)
    }
}

/// The indices of the set bits, in increasing order.
pub open spec fn candidates(c: Seq<bool>) -> Seq<int> {
    set_below(c, 9)
}

/// The character that stands for the number `d`, for `d` below ten.
pub open spec fn decimal(d: int) -> char {
    if d == 0 {
        '0'
    } else if d == 1 {
        '1'
    } else if d == 2 {
        '2'
    } else if d == 3 {
        '3'
    } else if d == 4 {
        '4'
    } else if d == 5 {
        '5'
    } else if d == 6 {
        '6'
    } else if d == 7 {
        '7'
    } else if d == 8 {
        '8'
    } else {
        '9'
    }
}

/// The digits that a cell still allows, written out in increasing order.
pub open spec fn listing(c: Seq<bool>) -> Seq<char> {
    Seq::new(candidates(c).len(), |j: int| decimal(candidates(c)[j] + 1))
}

/// The recursive count agrees with the count of all nine bits.
pub proof fn lemma_count_below_all(c: Seq<bool>)
    ensures
        count_below(c, 9) == count(c),
{
    reveal_with_fuel(count_below, 10);
}

/// What `set_below` holds: indices of set bits below `n`, strictly
/// increasing, as many as `count_below` says, and none is missing.
pub proof fn lemma_set_below(c: Seq<bool>, n: int)
    requires
        0 <= n <= c.len(),
    ensures
        set_below(c, n).len() == count_below(c, n),
        forall|j: int|
            0 <= j < set_below(c, n).len() ==> 0 <= #[trigger] set_below(c, n)[j] < n && c[set_below(
                c,
                n,
            )[j]],
        forall|i: int, j: int|
            0 <= i < j < set_below(c, n).len() ==> #[trigger] set_below(c, n)[i] < #[trigger] set_below(c, n)[j],
        forall|k: int|
            0 <= k < n && #[trigger] c[k] ==> exists|j: int|
                0 <= j < set_below(c, n).len() && #[trigger] set_below(c, n)[j] == k,
    decreases n,
{
    if n > 0 {
        lemma_set_below(c, n - 1);
        let prev = set_below(c, n - 1);
        let cur = set_below(c, n);
        assert forall|k: int| 0 <= k < n && #[trigger] c[k] implies exists|j: int|
            0 <= j < cur.len() && #[trigger] cur[j] == k by {
            if k == n - 1 {
                assert(cur[cur.len() - 1] == k);
            } else {
                let j = choose|j: int| 0 <= j < prev.len() && #[trigger] prev[j] == k;
                assert(cur[j] == k);
            }
        }
    }
}

/// What `candidates` holds: the indices of the set bits, strictly increasing.
pub proof fn lemma_candidates(c: Seq<bool>)
    requires
        c.len() == 9,
    ensures
        candidates(c).len() == count(c),
        forall|j: int|
            0 <= j < candidates(c).len() ==> 0 <= #[trigger] candidates(c)[j] < 9 && c[candidates(
                c,
            )[j]],
        forall|i: int, j: int|
            0 <= i < j < candidates(c).len() ==> #[trigger] candidates(c)[i] < #[trigger] candidates(c)[j],
        forall|k: int|
            0 <= k < 9 && #[trigger] c[k] ==> exists|j: int|
                0 <= j < candidates(c).len() && #[trigger] candidates(c)[j] == k,
{
    lemma_set_below(c, 9);
    lemma_count_below_all(c);
    let s = set_below(c, 9);
    assert(candidates(c) == s);
    assert forall|k: int| 0 <= k < 9 && #[trigger] c[k] implies exists|j: int|
        0 <= j < candidates(c).len() && #[trigger] candidates(c)[j] == k by {
        let j = choose|j: int| 0 <= j < s.len() && #[trigger] s[j] == k;
        assert(candidates(c)[j] == k);
    }
}

/// An index into a cell is one of nine.
pub proof fn lemma_nine(k: int)
    requires
        0 <= k < 9,
    ensures
        k == 0 || k == 1 || k == 2 || k == 3 || k == 4 || k == 5 || k == 6 || k == 7 || k == 8,
{
}

/// A solved cell is the single cell of its lowest bit.
pub proof fn lemma_solved_is_single(c: Seq<bool>)
    requires
        c.len() == 9,
        solved(c),
    ensures
        0 <= lowest(c) < 9,
        c == single(lowest(c)),
{
    assert(c =~= single(lowest(c)));
}

/// A single cell is solved, and its lowest bit is the one that is set.
pub proof fn lemma_single(k: int)
    requires
        0 <= k < 9,
    ensures
        solved(single(k)),
        lowest(single(k)) == k,
        single(k).len() == 9,
{
    lemma_nine(k);
}

/// A cell within another has no more digits left than the other.
pub proof fn lemma_within_count(a: Seq<bool>, b: Seq<bool>)
    requires
        within(a, b),
    ensures
        count(a) <= count(b),
{
    assert(a[0] ==> b[0]);
    assert(a[1] ==> b[1]);
    assert(a[2] ==> b[2]);
    assert(a[3] ==> b[3]);
    assert(a[4] ==> b[4]);
    assert(a[5] ==> b[5]);
    assert(a[6] ==> b[6]);
    assert(a[7] ==> b[7]);
    assert(a[8] ==> b[8]);
}

/// A cell within another that lacks one of the other's digits has fewer
/// digits left.
pub proof fn lemma_within_count_less(a: Seq<bool>, b: Seq<bool>, k: int)
    requires
        within(a, b),
        0 <= k < 9,
        b[k],
        !a[k],
    ensures
        count(a) < count(b),
{
    assert(a[0] ==> b[0]);
    assert(a[1] ==> b[1]);
    assert(a[2] ==> b[2]);
    assert(a[3] ==> b[3]);
    assert(a[4] ==> b[4]);
    assert(a[5] ==> b[5]);
    assert(a[6] ==> b[6]);
    assert(a[7] ==> b[7]);
    assert(a[8] ==> b[8]);
    lemma_nine(k);
}

/// In a solved cell the only set bit is the lowest.
pub proof fn lemma_solved_bit(c: Seq<bool>, k: int)
    requires
        solved(c),
        0 <= k < 9,
        c[k],
    ensures
        lowest(c) == k,
{
    lemma_nine(k);
}

/// The candidate set of one square.
pub struct Cell {
    bits: BitVec,
}

impl View for Cell {
    type V = Seq<bool>;

    /// The nine bits, bit `k` standing for digit `k + 1`.
    closed spec fn view(&self) -> Seq<bool> {
        bits(self.bits)
    }
}

impl Cell {
    /// A cell always has width nine.
    pub open spec fn wf(&self) -> bool {
        self@.len() == 9
    }

    /// Is this square solved? A solved square has exactly one digit left.
    pub fn is_solved(&self) -> (r: bool)
        requires
            self.wf(),
        ensures
            r == solved(self@),
    {
        let b = bits_iter(&self.bits);
        let mut n: usize = 0;
        let mut i: usize = 0;
        while i < 9
            invariant
                i <= 9,
                b@.len() == 9,
                n == count_below(b@, i as int),
                n <= i,
            decreases 9 - i,
        {
            if b[i] {
                n = n + 1;
            }
            i = i + 1;
        }
        proof {
            lemma_count_below_all(b@);
        }
        n == 1
    }

    /// Is this square a contradiction? It is when no digit is left.
    pub fn is_invalid(&self) -> (r: bool)
        requires
            self.wf(),
        ensures
            r == invalid(self@),
    {
        let r = bits_none(&self.bits);
        proof {
            let c = self@;
            if !r {
                let k = choose|k: int| 0 <= k < c.len() && c[k];
                assert(c[k]);
            }
        }
        r
    }

    /// Which digits are left? One single cell for each of them, in
    /// increasing order of the digit.
    pub fn solutions(&self) -> (r: Vec<Cell>)
        requires
            self.wf(),
        ensures
            r@.len() == candidates(self@).len(),
            forall|j: int|
                0 <= j < r@.len() ==> (#[trigger] r@[j]).wf() && r@[j]@ == single(
                    candidates(self@)[j],
                ),
    {
        let b = bits_iter(&self.bits);
        let mut r: Vec<Cell> = Vec::new();
        let mut i: usize = 0;
        while i < 9
            invariant
                i <= 9,
                b@ == self@,
                b@.len() == 9,
                r@.len() == set_below(b@, i as int).len(),
                forall|j: int|
                    0 <= j < r@.len() ==> (#[trigger] r@[j]).wf() && r@[j]@ == single(
                        set_below(b@, i as int)[j],
                    ),
            decreases 9 - i,
        {
            if b[i] {
                let mut a = bits_from_elem(9, false);
                bits_set(&mut a, i, true);
                let cell = Cell { bits: a };
                assert(cell@ =~= single(i as int));
                r.push(cell);
            }
            i = i + 1;
        }
        r
    }

    /// Appends to `out` the digits that are left: one character for each, in
    /// increasing order.
    pub fn write_to(&self, out: &mut String)
        requires
            self.wf(),
        ensures
            final(out)@ == old(out)@ + listing(self@),
    {
        let b = bits_iter(&self.bits);
        let ghost before = out@;
        let mut i: usize = 0;
        while i < 9
            invariant
                i <= 9,
                b@ == self@,
                b@.len() == 9,
                out@.len() == before.len() + set_below(b@, i as int).len(),
                forall|j: int| 0 <= j < before.len() ==> out@[j] == before[j],
                forall|p: int|
                    before.len() <= p < out@.len() ==> #[trigger] out@[p] == decimal(
                        set_below(b@, i as int)[p - before.len()] + 1,
                    ),
            decreases 9 - i,
        {
            if b[i] {
                push_char(out, decimal_char(i + 1));
            }
            i = i + 1;
        }
        assert(out@ =~= before + listing(self@));
    }

    /// The digits that are left, as text: one character for each, in
    /// increasing order.
    pub fn print(&self) -> (r: String)
        requires
            self.wf(),
        ensures
            r@ == listing(self@),
    {
        let mut r = String::new();
        self.write_to(&mut r);
        assert(r@ =~= listing(self@));
        r
    }

    /// The least digit that is left, or ten when none is. For a solved cell
    /// this is its digit.
    pub fn digit(&self) -> (d: usize)
        requires
            self.wf(),
        ensures
            d == lowest(self@) + 1,
    {
        let b = bits_iter(&self.bits);
        let mut i: usize = 0;
        while i < 9 && !b[i]
            invariant
                i <= 9,
                b@ == self@,
                b@.len() == 9,
                forall|j: int| 0 <= j < i ==> !b@[j],
            decreases 9 - i,
        {
            i = i + 1;
        }
        assert(i < 9 ==> b@[i as int]);
        i + 1
    }

    /// Removes from this cell every digit that `mask` holds, and says whether
    /// the cell changed.
    pub fn restrict(&mut self, mask: &Cell) -> (changed: bool)
        requires
            old(self).wf(),
            mask.wf(),
        ensures
            final(self).wf(),
            final(self)@ == minus(old(self)@, mask@),
            changed == (final(self)@ != old(self)@),
    {
        let changed = bits_difference(&mut self.bits, &mask.bits);
        assert(self@ =~= minus(old(self)@, mask@));
        changed
    }

    /// Adds to this cell every digit that `other` holds.
    pub fn merge(&mut self, other: &Cell)
        requires
            old(self).wf(),
            other.wf(),
        ensures
            final(self).wf(),
            final(self)@ == join(old(self)@, other@),
    {
        let _ = bits_or(&mut self.bits, &other.bits);
        assert(self@ =~= join(old(self)@, other@));
    }

    /// Leaves no digit: the cell becomes a contradiction.
    pub fn clear(&mut self)
        requires
            old(self).wf(),
        ensures
            final(self).wf(),
            final(self)@ == vacant(),
    {
        bits_fill(&mut self.bits, false);
        assert(self@ =~= vacant());
    }

    /// A cell with no digit, to collect digits in.
    pub fn vacant() -> (r: Cell)
        ensures
            r.wf(),
            r@ == vacant(),
    {
        let r = Cell { bits: bits_from_elem(9, false) };
        assert(r@ =~= vacant());
        r
    }

}

impl Clone for Cell {
    /// A copy that holds the same digits.
    fn clone(&self) -> (r: Self)
        ensures
            r@ == self@,
    {
        Cell { bits: bits_clone(&self.bits) }
    }
}

/// The cell for one number of the input: zero is a blank, in which any digit
/// may stand; a digit from one to nine is a clue.
pub fn build_elem(num: usize) -> (r: Cell)
    requires
        num <= 9,
    ensures
        r.wf(),
        num == 0 ==> r@ == full(),
        num != 0 ==> r@ == single(num - 1),
{
    let mut bv = bits_from_elem(9, false);
    if num == 0 {
        bits_negate(&mut bv);
    } else {
        bits_set(&mut bv, num - 1, true);
    }
    let r = Cell { bits: bv };
    assert(num == 0 ==> r@ =~= full());
    assert(num != 0 ==> r@ =~= single(num - 1));
    r
}

/// The character for a number below ten.
pub fn decimal_char(d: usize) -> (c: char)
    requires
        d < 10,
    ensures
        c == decimal(d as int),
{
    if d == 0 {
        '0'
    } else if d == 1 {
        '1'
    } else if d == 2 {
        '2'
    } else if d == 3 {
        '3'
    } else if d == 4 {
        '4'
    } else if d == 5 {
        '5'
    } else if d == 6 {
        '6'
    } else if d == 7 {
        '7'
    } else if d == 8 {
        '8'
    } else {
        '9'
    }
}

} // verus!
