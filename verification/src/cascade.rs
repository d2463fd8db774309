//! Constraint propagation.
//!
//! One pass over a group takes from every open cell the digits that the
//! solved cells of the group have claimed, and empties a solved cell whose
//! digit an earlier cell of the group already holds. `cascade` repeats the
//! pass on one group until no digit is taken away, `cascade_over_sets`
//! repeats that over all groups until nothing moves.
//!
//! The first half of this module is the mathematical model of these steps on
//! boards, with the facts proved about it; the second half is the executable
//! code, which is proved to compute the model.

use crate::cell::{
    join, lemma_solved_bit, lemma_solved_is_single, lemma_within_count_less, lowest, minus,
    solved, vacant, within, Cell,
};
use crate::grid::{
    board, complete, lemma_total_below_nonnegative, lemma_total_le, lemma_total_lt, refines,
    total, Grid,
};
use crate::groups::{group_ok, groups_of, groups_ok};
use std::collections::HashSet;
use vstd::prelude::*;

verus! {

/// The digits claimed by the solved cells among the first `n` cells of the
/// group.
pub open spec fn mask_below(g: Seq<Seq<bool>>, grp: Seq<usize>, n: int) -> Seq<bool>
    decreases n,
{
    if n <= 0 {
        vacant()
    } else if solved(g[grp[n - 1] as int]) {
        join(mask_below(g, grp, n - 1), g[grp[n - 1] as int])
    } else {
        mask_below(g, grp, n - 1)
    }
}

/// The digits claimed by the solved cells of the group.
pub open spec fn solved_mask(g: Seq<Seq<bool>>, grp: Seq<usize>) -> Seq<bool> {
    mask_below(g, grp, grp.len() as int)
}

/// The cell at position `k` of the group after the claimed digits have been
/// taken from it. A solved cell keeps its digit.
pub open spec fn restricted(g: Seq<Seq<bool>>, grp: Seq<usize>, k: int) -> Seq<bool> {
    if solved(g[grp[k] as int]) {
        g[grp[k] as int]
    } else {
        minus(g[grp[k] as int], solved_mask(g, grp))
    }
}

/// The digits of the cells that are solved, once restricted, among the first
/// `n` cells of the group.
pub open spec fn seen_below(g: Seq<Seq<bool>>, grp: Seq<usize>, n: int) -> Set<usize>
    decreases n,
{
    if n <= 0 {
        Set::empty()
    } else if solved(restricted(g, grp, n - 1)) {
        seen_below(g, grp, n - 1).insert((lowest(restricted(g, grp, n - 1)) + 1) as usize)
    } else {
        seen_below(g, grp, n - 1)
    }
}

/// The cell at position `k` of the group after one pass: restricted, and
/// emptied if it is then solved with a digit that an earlier cell of the group
/// holds.
pub open spec fn settled(g: Seq<Seq<bool>>, grp: Seq<usize>, k: int) -> Seq<bool> {
    if solved(restricted(g, grp, k)) && seen_below(g, grp, k).contains(
        (lowest(restricted(g, grp, k)) + 1) as usize,
    ) {
        vacant()
    } else {
        restricted(g, grp, k)
    }
}

/// The board after the pass has settled the first `n` cells of the group.
pub open spec fn pass_below(g: Seq<Seq<bool>>, grp: Seq<usize>, n: int) -> Seq<Seq<bool>>
    decreases n,
{
    if n <= 0 {
        g
    } else {
        pass_below(g, grp, n - 1).update(grp[n - 1] as int, settled(g, grp, n - 1))
    }
}

/// The board after one pass over the group.
pub open spec fn pass(g: Seq<Seq<bool>>, grp: Seq<usize>) -> Seq<Seq<bool>> {
    pass_below(g, grp, grp.len() as int)
}

/// Whether restriction takes a digit from one of the first `n` cells of the
/// group.
pub open spec fn trimmed_below(g: Seq<Seq<bool>>, grp: Seq<usize>, n: int) -> bool
    decreases n,
{
    if n <= 0 {
        false
    } else {
        trimmed_below(g, grp, n - 1) || restricted(g, grp, n - 1) != g[grp[n - 1] as int]
    }
}

/// Whether a pass over the group takes a digit from an open cell.
pub open spec fn trimmed(g: Seq<Seq<bool>>, grp: Seq<usize>) -> bool {
    trimmed_below(g, grp, grp.len() as int)
}

/// The board after the pass over one group has been repeated until it takes
/// no digit from an open cell.
pub open spec fn cascaded(g: Seq<Seq<bool>>, grp: Seq<usize>) -> Seq<Seq<bool>>
    decreases total(g),
    when board(g) && group_ok(grp)
    via cascaded_decreases
{
    if trimmed(g, grp) {
        cascaded(pass(g, grp), grp)
    } else {
        pass(g, grp)
    }
}

#[via_fn]
proof fn cascaded_decreases(g: Seq<Seq<bool>>, grp: Seq<usize>) {
    if trimmed(g, grp) {
        lemma_pass_lowers_total(g, grp);
    }
}

/// The solved cells of the group hold different digits.
pub open spec fn unique(g: Seq<Seq<bool>>, grp: Seq<usize>) -> bool {
    forall|j: int, k: int|
        0 <= j < k < grp.len() && solved(g[#[trigger] grp[j] as int]) && solved(
            g[#[trigger] grp[k] as int],
        ) ==> lowest(g[grp[j] as int]) != lowest(g[grp[k] as int])
}

/// Every cell of `b` is the cell of `a` at the same place, or is empty where
/// that of `a` was solved.
pub open spec fn only_cleared(a: Seq<Seq<bool>>, b: Seq<Seq<bool>>) -> bool {
    forall|i: int|
        0 <= i < 81 ==> #[trigger] b[i] == a[i] || (solved(a[i]) && b[i] == vacant())
}

/// The mask has width nine.
pub proof fn lemma_mask_width(g: Seq<Seq<bool>>, grp: Seq<usize>, n: int)
    ensures
        mask_below(g, grp, n).len() == 9,
    decreases n,
{
    if n > 0 {
        lemma_mask_width(g, grp, n - 1);
    }
}

/// A digit of the mask is the digit of a solved cell of the group: the lemma
/// returns the position of such a cell.
pub proof fn lemma_mask_claimed(g: Seq<Seq<bool>>, grp: Seq<usize>, n: int, d: int) -> (j: int)
    requires
        0 <= d < 9,
        mask_below(g, grp, n)[d],
    ensures
        0 <= j < n,
        solved(g[grp[j] as int]),
        g[grp[j] as int][d],
    decreases n,
{
    if n <= 0 {
        arbitrary()
    } else if solved(g[grp[n - 1] as int]) && g[grp[n - 1] as int][d] {
        n - 1
    } else {
        lemma_mask_width(g, grp, n - 1);
        lemma_mask_claimed(g, grp, n - 1, d)
    }
}

/// The digit of a solved cell of the group is in the mask.
pub proof fn lemma_mask_holds(g: Seq<Seq<bool>>, grp: Seq<usize>, n: int, j: int, d: int)
    requires
        0 <= j < n,
        0 <= d < 9,
        solved(g[grp[j] as int]),
        g[grp[j] as int][d],
    ensures
        mask_below(g, grp, n)[d],
    decreases n,
{
    lemma_mask_width(g, grp, n - 1);
    if j < n - 1 {
        lemma_mask_holds(g, grp, n - 1, j, d);
    }
}

/// A digit that has been seen is the digit of an earlier cell that is solved
/// once restricted: the lemma returns the position of such a cell.
pub proof fn lemma_seen_from(g: Seq<Seq<bool>>, grp: Seq<usize>, n: int, x: usize) -> (j: int)
    requires
        seen_below(g, grp, n).contains(x),
    ensures
        0 <= j < n,
        solved(restricted(g, grp, j)),
        lowest(restricted(g, grp, j)) + 1 == x,
    decreases n,
{
    if n <= 0 {
        arbitrary()
    } else if solved(restricted(g, grp, n - 1)) && lowest(restricted(g, grp, n - 1)) + 1 == x {
        n - 1
    } else {
        lemma_seen_from(g, grp, n - 1, x)
    }
}

/// The digit of an earlier cell that is solved once restricted has been seen.
pub proof fn lemma_seen_holds(g: Seq<Seq<bool>>, grp: Seq<usize>, n: int, j: int)
    requires
        0 <= j < n,
        solved(restricted(g, grp, j)),
    ensures
        seen_below(g, grp, n).contains((lowest(restricted(g, grp, j)) + 1) as usize),
    decreases n,
{
    if j < n - 1 {
        lemma_seen_holds(g, grp, n - 1, j);
    }
}

/// Where restriction takes a digit, it takes it from a cell of the group: the
/// lemma returns the position of such a cell.
pub proof fn lemma_trimmed_at(g: Seq<Seq<bool>>, grp: Seq<usize>, n: int) -> (j: int)
    requires
        trimmed_below(g, grp, n),
    ensures
        0 <= j < n,
        restricted(g, grp, j) != g[grp[j] as int],
    decreases n,
{
    if n <= 0 {
        arbitrary()
    } else if restricted(g, grp, n - 1) != g[grp[n - 1] as int] {
        n - 1
    } else {
        lemma_trimmed_at(g, grp, n - 1)
    }
}

/// Where restriction takes no digit, every cell of the group is left as it
/// was by it.
pub proof fn lemma_untrimmed(g: Seq<Seq<bool>>, grp: Seq<usize>, n: int, j: int)
    requires
        !trimmed_below(g, grp, n),
        0 <= j < n,
    ensures
        restricted(g, grp, j) == g[grp[j] as int],
    decreases n,
{
    if j < n - 1 {
        lemma_untrimmed(g, grp, n - 1, j);
    }
}

/// A settled cell has width nine and lies within the restricted cell, which
/// lies within the cell as it was.
pub proof fn lemma_settled_within(g: Seq<Seq<bool>>, grp: Seq<usize>, k: int)
    requires
        board(g),
        group_ok(grp),
        0 <= k < grp.len(),
    ensures
        settled(g, grp, k).len() == 9,
        restricted(g, grp, k).len() == 9,
        within(settled(g, grp, k), restricted(g, grp, k)),
        within(restricted(g, grp, k), g[grp[k] as int]),
        within(settled(g, grp, k), g[grp[k] as int]),
{
    assert(g[grp[k] as int].len() == 9);
}

/// The board in the middle of a pass: the cells settled so far hold their
/// settled value, the others are as they were.
pub proof fn lemma_pass_below(g: Seq<Seq<bool>>, grp: Seq<usize>, n: int)
    requires
        board(g),
        group_ok(grp),
        0 <= n <= grp.len(),
    ensures
        board(pass_below(g, grp, n)),
        refines(pass_below(g, grp, n), g),
        forall|j: int|
            0 <= j < n ==> pass_below(g, grp, n)[#[trigger] grp[j] as int] == settled(g, grp, j),
        forall|j: int|
            n <= j < grp.len() ==> pass_below(g, grp, n)[#[trigger] grp[j] as int] == g[grp[j] as int],
        forall|i: int|
            0 <= i < 81 ==> #[trigger] pass_below(g, grp, n)[i] == g[i] || exists|j: int|
                0 <= j < n && #[trigger] grp[j] == i && pass_below(g, grp, n)[i] == settled(
                    g,
                    grp,
                    j,
                ),
    decreases n,
{
    if n > 0 {
        lemma_pass_below(g, grp, n - 1);
        lemma_settled_within(g, grp, n - 1);
        let prev = pass_below(g, grp, n - 1);
        let cur = pass_below(g, grp, n);
        let at = grp[n - 1] as int;
        assert(cur == prev.update(at, settled(g, grp, n - 1)));
        assert forall|i: int| 0 <= i < 81 implies (#[trigger] cur[i]).len() == 9 by {
            assert(prev[i].len() == 9);
        }
        assert forall|i: int| 0 <= i < 81 implies within(#[trigger] cur[i], g[i]) by {
            assert(within(prev[i], g[i]));
        }
        assert forall|j: int| 0 <= j < n implies cur[#[trigger] grp[j] as int] == settled(
            g,
            grp,
            j,
        ) by {
            if j < n - 1 {
                assert(grp[j] != grp[n - 1]);
            }
        }
        assert forall|j: int| n <= j < grp.len() implies cur[#[trigger] grp[j] as int]
            == g[grp[j] as int] by {
            assert(grp[n - 1] != grp[j]);
        }
        assert forall|i: int| 0 <= i < 81 implies #[trigger] cur[i] == g[i] || exists|j: int|
            0 <= j < n && #[trigger] grp[j] == i && cur[i] == settled(g, grp, j) by {
            if i == at {
                assert(grp[n - 1] == i && cur[i] == settled(g, grp, n - 1));
            } else if prev[i] != g[i] {
                let j = choose|j: int|
                    0 <= j < n - 1 && #[trigger] grp[j] == i && prev[i] == settled(g, grp, j);
                assert(grp[j] == i && cur[i] == settled(g, grp, j));
            }
        }
    }
}

/// Two different cells of width nine differ in one of their bits: the lemma
/// returns its index.
pub proof fn lemma_differ(a: Seq<bool>, b: Seq<bool>) -> (d: int)
    requires
        a.len() == 9,
        b.len() == 9,
        a != b,
    ensures
        0 <= d < 9,
        a[d] != b[d],
{
    if forall|i: int| 0 <= i < 9 ==> a[i] == b[i] {
        assert(a =~= b);
    }
    choose|d: int| 0 <= d < 9 && a[d] != b[d]
}

/// A pass that takes a digit from an open cell lowers the total of the board.
pub proof fn lemma_pass_lowers_total(g: Seq<Seq<bool>>, grp: Seq<usize>)
    requires
        board(g),
        group_ok(grp),
        trimmed(g, grp),
    ensures
        0 <= total(pass(g, grp)) < total(g),
{
    let n = grp.len() as int;
    let j = lemma_trimmed_at(g, grp, n);
    lemma_pass_below(g, grp, n);
    lemma_settled_within(g, grp, j);
    let at = grp[j] as int;
    let d = lemma_differ(restricted(g, grp, j), g[at]);
    assert(pass(g, grp)[at] == settled(g, grp, j));
    assert(within(settled(g, grp, j), g[at]));
    assert(restricted(g, grp, j)[d] ==> g[at][d]);
    assert(settled(g, grp, j)[d] ==> restricted(g, grp, j)[d]);
    lemma_within_count_less(settled(g, grp, j), g[at], d);
    lemma_total_lt(pass(g, grp), g, at);
    lemma_total_below_nonnegative(pass(g, grp), 81);
}

/// After a pass the solved cells of the group hold different digits.
pub proof fn lemma_pass_unique(g: Seq<Seq<bool>>, grp: Seq<usize>)
    requires
        board(g),
        group_ok(grp),
    ensures
        unique(pass(g, grp), grp),
{
    let n = grp.len() as int;
    let p = pass(g, grp);
    lemma_pass_below(g, grp, n);
    assert forall|j: int, k: int|
        0 <= j < k < grp.len() && solved(p[#[trigger] grp[j] as int]) && solved(
            p[#[trigger] grp[k] as int],
        ) implies lowest(p[grp[j] as int]) != lowest(p[grp[k] as int]) by {
        assert(p[grp[j] as int] == settled(g, grp, j));
        assert(p[grp[k] as int] == settled(g, grp, k));
        assert(settled(g, grp, j) == restricted(g, grp, j));
        assert(settled(g, grp, k) == restricted(g, grp, k));
        lemma_seen_holds(g, grp, k, j);
        lemma_settled_within(g, grp, j);
        lemma_settled_within(g, grp, k);
    }
}

/// A pass that takes no digit from an open cell only empties solved cells.
pub proof fn lemma_pass_only_clears(g: Seq<Seq<bool>>, grp: Seq<usize>)
    requires
        board(g),
        group_ok(grp),
        !trimmed(g, grp),
    ensures
        only_cleared(g, pass(g, grp)),
{
    let n = grp.len() as int;
    let p = pass(g, grp);
    lemma_pass_below(g, grp, n);
    assert forall|i: int| 0 <= i < 81 implies #[trigger] p[i] == g[i] || (solved(g[i]) && p[i]
        == vacant()) by {
        if p[i] != g[i] {
            let j = choose|j: int|
                0 <= j < n && #[trigger] grp[j] == i && p[i] == settled(g, grp, j);
            lemma_untrimmed(g, grp, n, j);
        }
    }
}

/// Emptying solved cells leaves the solved cells of a group with different
/// digits, if they had different digits before.
pub proof fn lemma_only_cleared_unique(a: Seq<Seq<bool>>, b: Seq<Seq<bool>>, grp: Seq<usize>)
    requires
        group_ok(grp),
        only_cleared(a, b),
        unique(a, grp),
    ensures
        unique(b, grp),
{
    assert forall|j: int, k: int|
        0 <= j < k < grp.len() && solved(b[#[trigger] grp[j] as int]) && solved(
            b[#[trigger] grp[k] as int],
        ) implies lowest(b[grp[j] as int]) != lowest(b[grp[k] as int]) by {
        let x = grp[j] as int;
        let y = grp[k] as int;
        assert(b[x] == a[x] || (solved(a[x]) && b[x] == vacant()));
        assert(b[y] == a[y] || (solved(a[y]) && b[y] == vacant()));
    }
}

/// What holds of the board after `cascade`: it is a board, it refines the
/// board as it was, and the solved cells of the group hold different digits.
/// If the first pass takes no digit from an open cell, only solved cells were
/// emptied.
pub proof fn lemma_cascaded(g: Seq<Seq<bool>>, grp: Seq<usize>)
    requires
        board(g),
        group_ok(grp),
    ensures
        board(cascaded(g, grp)),
        refines(cascaded(g, grp), g),
        unique(cascaded(g, grp), grp),
        trimmed(g, grp) ==> total(cascaded(g, grp)) < total(g),
        !trimmed(g, grp) ==> only_cleared(g, cascaded(g, grp)),
    decreases total(g),
{
    let p = pass(g, grp);
    lemma_pass_below(g, grp, grp.len() as int);
    if trimmed(g, grp) {
        lemma_pass_lowers_total(g, grp);
        lemma_cascaded(p, grp);
        let c = cascaded(p, grp);
        assert(cascaded(g, grp) == c);
        assert forall|i: int| 0 <= i < 81 implies within(#[trigger] c[i], g[i]) by {
            assert(within(c[i], p[i]));
            assert(within(p[i], g[i]));
        }
        lemma_total_le(c, p);
    } else {
        lemma_pass_unique(g, grp);
        lemma_pass_only_clears(g, grp);
    }
}

/// The board after `cascade` has run on the first `n` groups of the list, one
/// after the other.
pub open spec fn sweep_below(g: Seq<Seq<bool>>, groups: Seq<Seq<usize>>, n: int) -> Seq<
    Seq<bool>,
>
    decreases n,
{
    if n <= 0 {
        g
    } else {
        cascaded(sweep_below(g, groups, n - 1), groups[n - 1])
    }
}

/// The board after `cascade` has run on every group of the list.
pub open spec fn sweep(g: Seq<Seq<bool>>, groups: Seq<Seq<usize>>) -> Seq<Seq<bool>> {
    sweep_below(g, groups, groups.len() as int)
}

/// Whether `cascade` takes a digit from an open cell in one of the first `n`
/// groups of the list.
pub open spec fn moved_below(g: Seq<Seq<bool>>, groups: Seq<Seq<usize>>, n: int) -> bool
    decreases n,
{
    if n <= 0 {
        false
    } else {
        moved_below(g, groups, n - 1) || trimmed(sweep_below(g, groups, n - 1), groups[n - 1])
    }
}

/// Whether a sweep over all groups takes a digit from an open cell.
pub open spec fn moved(g: Seq<Seq<bool>>, groups: Seq<Seq<usize>>) -> bool {
    moved_below(g, groups, groups.len() as int)
}

/// The board after sweeps over all groups have been repeated until one takes
/// no digit from an open cell.
pub open spec fn propagated(g: Seq<Seq<bool>>, groups: Seq<Seq<usize>>) -> Seq<Seq<bool>>
    decreases total(g),
    when board(g) && groups_ok(groups)
    via propagated_decreases
{
    if moved(g, groups) {
        propagated(sweep(g, groups), groups)
    } else {
        sweep(g, groups)
    }
}

#[via_fn]
proof fn propagated_decreases(g: Seq<Seq<bool>>, groups: Seq<Seq<usize>>) {
    if moved(g, groups) {
        lemma_sweep_below(g, groups, groups.len() as int);
        lemma_total_below_nonnegative(sweep(g, groups), 81);
    }
}

/// In every group of the list the solved cells hold different digits.
pub open spec fn consistent(g: Seq<Seq<bool>>, groups: Seq<Seq<usize>>) -> bool {
    forall|n: int| 0 <= n < groups.len() ==> unique(g, #[trigger] groups[n])
}

/// Emptying solved cells twice is emptying solved cells.
pub proof fn lemma_only_cleared_twice(a: Seq<Seq<bool>>, b: Seq<Seq<bool>>, c: Seq<Seq<bool>>)
    requires
        only_cleared(a, b),
        only_cleared(b, c),
    ensures
        only_cleared(a, c),
{
    assert forall|i: int| 0 <= i < 81 implies #[trigger] c[i] == a[i] || (solved(a[i]) && c[i]
        == vacant()) by {
        assert(b[i] == a[i] || (solved(a[i]) && b[i] == vacant()));
        assert(c[i] == b[i] || (solved(b[i]) && c[i] == vacant()));
    }
}

/// What holds of the board in the middle of a sweep: it is a board and
/// refines the board as it was. If a digit was taken from an open cell, the
/// total is lower; if none was, only solved cells were emptied, and in each
/// group done the solved cells hold different digits.
pub proof fn lemma_sweep_below(g: Seq<Seq<bool>>, groups: Seq<Seq<usize>>, n: int)
    requires
        board(g),
        groups_ok(groups),
        0 <= n <= groups.len(),
    ensures
        board(sweep_below(g, groups, n)),
        refines(sweep_below(g, groups, n), g),
        0 <= total(sweep_below(g, groups, n)),
        moved_below(g, groups, n) ==> total(sweep_below(g, groups, n)) < total(g),
        !moved_below(g, groups, n) ==> only_cleared(g, sweep_below(g, groups, n)),
        !moved_below(g, groups, n) ==> forall|m: int|
            0 <= m < n ==> unique(sweep_below(g, groups, n), #[trigger] groups[m]),
    decreases n,
{
    lemma_total_below_nonnegative(sweep_below(g, groups, n), 81);
    if n > 0 {
        lemma_sweep_below(g, groups, n - 1);
        let prev = sweep_below(g, groups, n - 1);
        let grp = groups[n - 1];
        let cur = sweep_below(g, groups, n);
        assert(group_ok(grp));
        lemma_cascaded(prev, grp);
        assert forall|i: int| 0 <= i < 81 implies within(#[trigger] cur[i], g[i]) by {
            assert(within(cur[i], prev[i]));
            assert(within(prev[i], g[i]));
        }
        lemma_total_le(cur, prev);
        lemma_total_le(prev, g);
        if !moved_below(g, groups, n) {
            lemma_only_cleared_twice(g, prev, cur);
            assert forall|m: int| 0 <= m < n implies unique(cur, #[trigger] groups[m]) by {
                if m < n - 1 {
                    assert(group_ok(groups[m]));
                    lemma_only_cleared_unique(prev, cur, groups[m]);
                }
            }
        }
    }
}

/// What holds of the board after `cascade_over_sets`: it is a board, it
/// refines the board as it was, and in every group the solved cells hold
/// different digits.
pub proof fn lemma_propagated(g: Seq<Seq<bool>>, groups: Seq<Seq<usize>>)
    requires
        board(g),
        groups_ok(groups),
    ensures
        board(propagated(g, groups)),
        refines(propagated(g, groups), g),
        consistent(propagated(g, groups), groups),
    decreases total(g),
{
    let w = sweep(g, groups);
    lemma_sweep_below(g, groups, groups.len() as int);
    if moved(g, groups) {
        lemma_propagated(w, groups);
        let r = propagated(w, groups);
        assert(propagated(g, groups) == r);
        assert forall|i: int| 0 <= i < 81 implies within(#[trigger] r[i], g[i]) by {
            assert(within(r[i], w[i]));
            assert(within(w[i], g[i]));
        }
    }
}

/// A completed board in which every cell holds one of the digits that `g`
/// allows there, and in which no group holds a digit twice.
pub open spec fn solves(s: Seq<Seq<bool>>, g: Seq<Seq<bool>>, groups: Seq<Seq<usize>>) -> bool {
    &&& board(s)
    &&& complete(s)
    &&& refines(s, g)
    &&& consistent(s, groups)
}

/// Restriction keeps the digit that a solution has in the cell.
pub proof fn lemma_restricted_keeps(
    s: Seq<Seq<bool>>,
    g: Seq<Seq<bool>>,
    grp: Seq<usize>,
    k: int,
)
    requires
        board(g),
        board(s),
        complete(s),
        refines(s, g),
        unique(s, grp),
        group_ok(grp),
        0 <= k < grp.len(),
    ensures
        0 <= lowest(s[grp[k] as int]) < 9,
        restricted(g, grp, k)[lowest(s[grp[k] as int])],
{
    let at = grp[k] as int;
    let d = lowest(s[at]);
    assert(s[at].len() == 9 && g[at].len() == 9);
    lemma_solved_is_single(s[at]);
    assert(s[at][d]);
    assert(within(s[at], g[at]));
    assert(g[at][d]);
    if !solved(g[at]) {
        let mask = solved_mask(g, grp);
        lemma_mask_width(g, grp, grp.len() as int);
        if mask[d] {
            let j = lemma_mask_claimed(g, grp, grp.len() as int, d);
            let other = grp[j] as int;
            assert(j != k);
            assert(s[other].len() == 9 && g[other].len() == 9);
            lemma_solved_is_single(s[other]);
            let e = lowest(s[other]);
            assert(s[other][e]);
            assert(within(s[other], g[other]));
            assert(g[other][e]);
            lemma_solved_bit(g[other], e);
            lemma_solved_bit(g[other], d);
            assert(e == d);
            if j < k {
                assert(lowest(s[grp[j] as int]) != lowest(s[grp[k] as int]));
            } else {
                assert(lowest(s[grp[k] as int]) != lowest(s[grp[j] as int]));
            }
        }
    }
}

/// A pass keeps in each cell of the group the digit that a solution has
/// there.
pub proof fn lemma_settled_keeps(s: Seq<Seq<bool>>, g: Seq<Seq<bool>>, grp: Seq<usize>, k: int)
    requires
        board(g),
        board(s),
        complete(s),
        refines(s, g),
        unique(s, grp),
        group_ok(grp),
        0 <= k < grp.len(),
    ensures
        within(s[grp[k] as int], settled(g, grp, k)),
{
    let at = grp[k] as int;
    let d = lowest(s[at]);
    let r = restricted(g, grp, k);
    lemma_restricted_keeps(s, g, grp, k);
    lemma_settled_within(g, grp, k);
    assert(s[at].len() == 9);
    lemma_solved_is_single(s[at]);
    if solved(r) && seen_below(g, grp, k).contains((lowest(r) + 1) as usize) {
        lemma_solved_bit(r, d);
        let j = lemma_seen_from(g, grp, k, (lowest(r) + 1) as usize);
        let q = restricted(g, grp, j);
        lemma_restricted_keeps(s, g, grp, j);
        lemma_solved_bit(q, lowest(s[grp[j] as int]));
        assert(lowest(s[grp[j] as int]) != lowest(s[grp[k] as int]));
    }
    assert(settled(g, grp, k) == r);
}

/// A pass takes no solution away.
pub proof fn lemma_pass_keeps(s: Seq<Seq<bool>>, g: Seq<Seq<bool>>, grp: Seq<usize>)
    requires
        board(g),
        board(s),
        complete(s),
        refines(s, g),
        unique(s, grp),
        group_ok(grp),
    ensures
        refines(s, pass(g, grp)),
{
    let n = grp.len() as int;
    let p = pass(g, grp);
    lemma_pass_below(g, grp, n);
    assert forall|i: int| 0 <= i < 81 implies within(#[trigger] s[i], p[i]) by {
        assert(within(s[i], g[i]));
        if p[i] != g[i] {
            let j = choose|j: int|
                0 <= j < n && #[trigger] grp[j] == i && p[i] == settled(g, grp, j);
            lemma_settled_keeps(s, g, grp, j);
        }
    }
}

/// `cascade` takes no solution away.
pub proof fn lemma_cascaded_keeps(s: Seq<Seq<bool>>, g: Seq<Seq<bool>>, grp: Seq<usize>)
    requires
        board(g),
        board(s),
        complete(s),
        refines(s, g),
        unique(s, grp),
        group_ok(grp),
    ensures
        refines(s, cascaded(g, grp)),
    decreases total(g),
{
    lemma_pass_keeps(s, g, grp);
    if trimmed(g, grp) {
        lemma_pass_below(g, grp, grp.len() as int);
        lemma_pass_lowers_total(g, grp);
        lemma_cascaded_keeps(s, pass(g, grp), grp);
    }
}

/// A sweep takes no solution away.
pub proof fn lemma_sweep_keeps(
    s: Seq<Seq<bool>>,
    g: Seq<Seq<bool>>,
    groups: Seq<Seq<usize>>,
    n: int,
)
    requires
        board(g),
        groups_ok(groups),
        solves(s, g, groups),
        0 <= n <= groups.len(),
    ensures
        refines(s, sweep_below(g, groups, n)),
    decreases n,
{
    if n > 0 {
        lemma_sweep_keeps(s, g, groups, n - 1);
        lemma_sweep_below(g, groups, n - 1);
        assert(group_ok(groups[n - 1]));
        assert(unique(s, groups[n - 1]));
        lemma_cascaded_keeps(s, sweep_below(g, groups, n - 1), groups[n - 1]);
    }
}

/// Propagation takes no solution away: whatever solves the board as it was
/// solves the board that `cascade_over_sets` leaves.
pub proof fn lemma_propagated_keeps(s: Seq<Seq<bool>>, g: Seq<Seq<bool>>, groups: Seq<Seq<usize>>)
    requires
        board(g),
        groups_ok(groups),
        solves(s, g, groups),
    ensures
        solves(s, propagated(g, groups), groups),
    decreases total(g),
{
    lemma_sweep_keeps(s, g, groups, groups.len() as int);
    if moved(g, groups) {
        lemma_sweep_below(g, groups, groups.len() as int);
        lemma_propagated_keeps(s, sweep(g, groups), groups);
    }
}

impl Grid {
    /// The digits that the solved cells of the group have claimed.
    pub fn solved_mask(&self, idx: &Vec<usize>) -> (mask: Cell)
        requires
            self.wf(),
            group_ok(idx@),
        ensures
            mask.wf(),
            mask@ == solved_mask(self@, idx@),
    {
        let mut mask = Cell::vacant();
        let mut k: usize = 0;
        while k < idx.len()
            invariant
                k <= idx@.len(),
                self.wf(),
                group_ok(idx@),
                mask.wf(),
                mask@ == mask_below(self@, idx@, k as int),
            decreases idx@.len() - k,
        {
            let e = self.cell(idx[k]);
            if e.is_solved() {
                mask.merge(e);
            }
            k = k + 1;
        }
        mask
    }

    /// Propagates within one group until no digit is taken from an open cell,
    /// and says whether any was. Digits are only ever taken away; afterwards
    /// the solved cells of the group hold different digits.
    pub fn cascade(&mut self, idx: &Vec<usize>) -> (changed_ever: bool)
        requires
            old(self).wf(),
            group_ok(idx@),
        ensures
            final(self).wf(),
            final(self)@ == cascaded(old(self)@, idx@),
            changed_ever == trimmed(old(self)@, idx@),
            refines(final(self)@, old(self)@),
            unique(final(self)@, idx@),
    {
        broadcast use vstd::std_specs::hash::group_hash_axioms;

        let mut changed_ever = false;
        loop
            invariant_except_break
                self.wf(),
                group_ok(idx@),
                cascaded(self@, idx@) == cascaded(old(self)@, idx@),
                changed_ever ==> trimmed(old(self)@, idx@),
                !changed_ever ==> self@ == old(self)@,
            ensures
                self.wf(),
                self@ == cascaded(old(self)@, idx@),
                changed_ever == trimmed(old(self)@, idx@),
            decreases total(self@),
        {
            let ghost g0 = self@;
            let mut changed = false;
            let mask = self.solved_mask(idx);
            let mut set: HashSet<usize> = HashSet::with_capacity(9);
            let mut k: usize = 0;
            while k < idx.len()
                invariant
                    k <= idx@.len(),
                    self.wf(),
                    board(g0),
                    group_ok(idx@),
                    mask.wf(),
                    mask@ == solved_mask(g0, idx@),
                    self@ == pass_below(g0, idx@, k as int),
                    set@ == seen_below(g0, idx@, k as int),
                    changed == trimmed_below(g0, idx@, k as int),
                decreases idx@.len() - k,
            {
                let i = idx[k];
                let ghost before = self@;
                proof {
                    lemma_pass_below(g0, idx@, k as int);
                    lemma_settled_within(g0, idx@, k as int);
                    assert(before[i as int] == g0[i as int]);
                }
                // If it is not solved, take the claimed digits from it.
                if !self.cell(i).is_solved() {
                    if self.restrict_cell(i, &mask) {
                        changed = true;
                    }
                }
                assert(self@ =~= before.update(i as int, restricted(g0, idx@, k as int)));
                // Then, if it is now solved, its digit must be new to the group.
                if self.cell(i).is_solved() {
                    let d = self.cell(i).digit();
                    if !set.insert(d) {
                        self.clear_cell(i);
                    }
                }
                assert(self@ =~= before.update(i as int, settled(g0, idx@, k as int)));
                k = k + 1;
            }
            if changed {
                changed_ever = true;
                proof {
                    lemma_pass_lowers_total(g0, idx@);
                }
            } else {
                break ;
            }
        }
        proof {
            lemma_cascaded(old(self)@, idx@);
        }
        changed_ever
    }

    /// Propagates within every group of the list, again and again, until a
    /// whole sweep takes no digit from an open cell. Digits are only ever
    /// taken away, no solution is lost, and afterwards no group holds the
    /// digit of a solved cell twice.
    pub fn cascade_over_sets(&mut self, unique_sets: &Vec<Vec<usize>>)
        requires
            old(self).wf(),
            groups_ok(groups_of(unique_sets@)),
        ensures
            final(self).wf(),
            final(self)@ == propagated(old(self)@, groups_of(unique_sets@)),
            refines(final(self)@, old(self)@),
            consistent(final(self)@, groups_of(unique_sets@)),
            forall|s: Seq<Seq<bool>>|
                solves(s, old(self)@, groups_of(unique_sets@)) ==> #[trigger] solves(
                    s,
                    final(self)@,
                    groups_of(unique_sets@),
                ),
    {
        let ghost groups = groups_of(unique_sets@);
        loop
            invariant_except_break
                self.wf(),
                groups == groups_of(unique_sets@),
                groups_ok(groups),
                propagated(self@, groups) == propagated(old(self)@, groups),
            ensures
                self.wf(),
                self@ == propagated(old(self)@, groups_of(unique_sets@)),
            decreases total(self@),
        {
            let ghost g0 = self@;
            let mut any = false;
            let mut n: usize = 0;
            while n < unique_sets.len()
                invariant
                    n <= unique_sets@.len(),
                    self.wf(),
                    board(g0),
                    groups == groups_of(unique_sets@),
                    groups_ok(groups),
                    self@ == sweep_below(g0, groups, n as int),
                    any == moved_below(g0, groups, n as int),
                decreases unique_sets@.len() - n,
            {
                assert(group_ok(groups[n as int]));
                if self.cascade(&unique_sets[n]) {
                    any = true;
                }
                n = n + 1;
            }
            proof {
                lemma_sweep_below(g0, groups, groups.len() as int);
            }
            if !any {
                break ;
            }
        }
        proof {
            lemma_propagated(old(self)@, groups);
            assert forall|s: Seq<Seq<bool>>| solves(s, old(self)@, groups) implies #[trigger] solves(
                s,
                self@,
                groups,
            ) by {
                lemma_propagated_keeps(s, old(self)@, groups);
            }
        }
    }
}

} // verus!
