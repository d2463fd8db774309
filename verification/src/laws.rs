//! What holds of propagation and search, beyond the contracts of the
//! functions: each law below is proved from the models that those contracts
//! are stated over.

use crate::cascade::{
    cascaded, consistent, lemma_cascaded, lemma_mask_claimed, lemma_mask_holds, lemma_mask_width,
    lemma_pass_below, lemma_pass_lowers_total, lemma_pass_unique, lemma_seen_from,
    lemma_settled_within, lemma_untrimmed, pass, restricted, seen_below, settled, solved_mask,
    solves, trimmed, trimmed_below, unique,
};
use crate::cell::{lemma_single, lemma_solved_is_single, lowest, minus, single, solved, within};
use crate::grid::{board, clues, complete, refines, total};
use crate::groups::group_ok;
use crate::search::{lemma_complete_is_least, lemma_solved_within, least_solution, solvable};
use vstd::prelude::*;

verus! {

/// Where restriction leaves every one of the first `n` cells of the group as
/// it was, it takes no digit from them.
proof fn lemma_none_trimmed(g: Seq<Seq<bool>>, grp: Seq<usize>, n: int)
    requires
        forall|j: int| 0 <= j < n ==> #[trigger] restricted(g, grp, j) == g[grp[j] as int],
    ensures
        !trimmed_below(g, grp, n),
    decreases n,
{
    if n > 0 {
        lemma_none_trimmed(g, grp, n - 1);
        assert(restricted(g, grp, n - 1) == g[grp[n - 1] as int]);
    }
}

/// A pass that takes no digit from an open cell leaves a board on which a
/// second pass changes nothing.
proof fn lemma_pass_stable(g: Seq<Seq<bool>>, grp: Seq<usize>)
    requires
        board(g),
        group_ok(grp),
        !trimmed(g, grp),
    ensures
        !trimmed(pass(g, grp), grp),
        pass(pass(g, grp), grp) == pass(g, grp),
{
    let n = grp.len() as int;
    let p = pass(g, grp);
    lemma_pass_below(g, grp, n);
    lemma_pass_unique(g, grp);
    lemma_mask_width(g, grp, n);
    lemma_mask_width(p, grp, n);
    assert forall|k: int| 0 <= k < n implies #[trigger] restricted(p, grp, k) == p[grp[k] as int] by {
        let at = grp[k] as int;
        lemma_untrimmed(g, grp, n, k);
        lemma_settled_within(g, grp, k);
        assert(p[at] == settled(g, grp, k));
        assert(p[at].len() == 9);
        if !solved(p[at]) {
            assert forall|d: int| 0 <= d < 9 implies minus(p[at], solved_mask(p, grp))[d]
                == p[at][d] by {
                if p[at][d] && solved_mask(p, grp)[d] {
                    let j = lemma_mask_claimed(p, grp, n, d);
                    lemma_untrimmed(g, grp, n, j);
                    assert(p[grp[j] as int] == settled(g, grp, j));
                    assert(settled(g, grp, j) == g[grp[j] as int]);
                    lemma_mask_holds(g, grp, n, j, d);
                    assert(p[at] == g[at]);
                    assert(minus(g[at], solved_mask(g, grp))[d] == g[at][d]);
                }
            }
            assert(minus(p[at], solved_mask(p, grp)) =~= p[at]);
        }
    }
    lemma_none_trimmed(p, grp, n);
    lemma_pass_below(p, grp, n);
    let q = pass(p, grp);
    assert forall|i: int| 0 <= i < 81 implies #[trigger] q[i] == p[i] by {
        if q[i] != p[i] {
            let k = choose|k: int|
                0 <= k < n && #[trigger] grp[k] == i && q[i] == settled(p, grp, k);
            let r = restricted(p, grp, k);
            assert(r == p[grp[k] as int]);
            if solved(r) && seen_below(p, grp, k).contains((lowest(r) + 1) as usize) {
                let j = lemma_seen_from(p, grp, k, (lowest(r) + 1) as usize);
                assert(restricted(p, grp, j) == p[grp[j] as int]);
                assert(lowest(p[grp[j] as int]) != lowest(p[grp[k] as int]));
            }
        }
    }
    assert(q =~= p);
}

/// Propagation within a group is idempotent: on the board that `cascade`
/// leaves, a second `cascade` on the same group takes no digit away and
/// changes no cell.
pub proof fn lemma_cascade_idempotent(g: Seq<Seq<bool>>, grp: Seq<usize>)
    requires
        board(g),
        group_ok(grp),
    ensures
        !trimmed(cascaded(g, grp), grp),
        cascaded(cascaded(g, grp), grp) == cascaded(g, grp),
    decreases total(g),
{
    lemma_pass_below(g, grp, grp.len() as int);
    if trimmed(g, grp) {
        lemma_pass_lowers_total(g, grp);
        lemma_cascade_idempotent(pass(g, grp), grp);
    } else {
        lemma_pass_stable(g, grp);
    }
}

/// Propagation within a group only ever takes digits away: every cell of the
/// board that `cascade` leaves lies within the cell as it was.
pub proof fn lemma_cascade_monotone(g: Seq<Seq<bool>>, grp: Seq<usize>)
    requires
        board(g),
        group_ok(grp),
    ensures
        refines(cascaded(g, grp), g),
{
    lemma_cascaded(g, grp);
}

/// Distinct values below `m` are at most `m` in number.
proof fn lemma_pigeonhole(f: Seq<int>, m: int)
    requires
        0 <= m,
        forall|k: int| 0 <= k < f.len() ==> 0 <= #[trigger] f[k] < m,
        forall|j: int, k: int| 0 <= j < k < f.len() ==> #[trigger] f[j] != #[trigger] f[k],
    ensures
        f.len() <= m,
    decreases m,
{
    if f.len() > 0 {
        if m == 0 {
            assert(0 <= f[0] < m);
        } else if exists|k: int| 0 <= k < f.len() && #[trigger] f[k] == m - 1 {
            let k0 = choose|k: int| 0 <= k < f.len() && #[trigger] f[k] == m - 1;
            let rest = f.remove(k0);
            assert forall|k: int| 0 <= k < rest.len() implies 0 <= #[trigger] rest[k] < m - 1 by {
                if k < k0 {
                    assert(rest[k] == f[k]);
                    assert(f[k] != f[k0]);
                } else {
                    assert(rest[k] == f[k + 1]);
                    assert(f[k0] != f[k + 1]);
                }
            }
            assert forall|j: int, k: int| 0 <= j < k < rest.len() implies #[trigger] rest[j]
                != #[trigger] rest[k] by {
                let a = if j < k0 {
                    j
                } else {
                    j + 1
                };
                let b = if k < k0 {
                    k
                } else {
                    k + 1
                };
                assert(rest[j] == f[a] && rest[k] == f[b]);
                assert(f[a] != f[b]);
            }
            lemma_pigeonhole(rest, m - 1);
        } else {
            assert forall|k: int| 0 <= k < f.len() implies 0 <= #[trigger] f[k] < m - 1 by {}
            lemma_pigeonhole(f, m - 1);
        }
    }
}

/// A group of nine cells of a completed board that holds no digit twice
/// holds every digit: the lemma returns the position of digit `d + 1`. That
/// no other position holds it is what `unique` says.
pub proof fn lemma_every_digit_once(s: Seq<Seq<bool>>, grp: Seq<usize>, d: int) -> (k: int)
    requires
        board(s),
        complete(s),
        group_ok(grp),
        grp.len() == 9,
        unique(s, grp),
        0 <= d < 9,
    ensures
        0 <= k < 9,
        s[grp[k] as int] == single(d),
{
    let digits = Seq::new(9, |k: int| lowest(s[grp[k] as int]));
    assert forall|k: int| 0 <= k < 9 implies 0 <= #[trigger] digits[k] < 9 && s[grp[k] as int]
        == single(digits[k]) by {
        assert(s[grp[k] as int].len() == 9);
        lemma_solved_is_single(s[grp[k] as int]);
    }
    if forall|k: int| 0 <= k < 9 ==> #[trigger] digits[k] != d {
        let shifted = Seq::new(
            9,
            |k: int|
                if digits[k] > d {
                    digits[k] - 1
                } else {
                    digits[k]
                },
        );
        assert forall|k: int| 0 <= k < shifted.len() implies 0 <= #[trigger] shifted[k] < 8 by {
            assert(digits[k] != d);
        }
        assert forall|j: int, k: int| 0 <= j < k < shifted.len() implies #[trigger] shifted[j]
            != #[trigger] shifted[k] by {
            assert(digits[j] != d && digits[k] != d);
            assert(solved(s[grp[j] as int]) && solved(s[grp[k] as int]));
            assert(lowest(s[grp[j] as int]) != lowest(s[grp[k] as int]));
        }
        lemma_pigeonhole(shifted, 8);
    }
    let k = choose|k: int| 0 <= k < 9 && #[trigger] digits[k] == d;
    k
}

/// Where a board has one solution only, that solution is what the search
/// returns: whatever is a least solution of the board is that solution.
pub proof fn lemma_only_solution(
    s: Seq<Seq<bool>>,
    r: Seq<Seq<bool>>,
    g: Seq<Seq<bool>>,
    groups: Seq<Seq<usize>>,
)
    requires
        solves(s, g, groups),
        forall|t: Seq<Seq<bool>>| #[trigger] solves(t, g, groups) ==> t == s,
        least_solution(r, g, groups),
    ensures
        r == s,
{
}

/// The search leaves a solved board as it is: a completed board that holds
/// no digit twice in a group has a solution, and its least solution is the
/// board itself.
pub proof fn lemma_solved_input(g: Seq<Seq<bool>>, r: Seq<Seq<bool>>, groups: Seq<Seq<usize>>)
    requires
        board(g),
        complete(g),
        consistent(g, groups),
    ensures
        solvable(g, groups),
        least_solution(r, g, groups) ==> r == g,
{
    lemma_complete_is_least(g, groups);
    assert(solves(g, g, groups));
}

/// Clues are kept: in every solution of the board that the input numbers
/// describe, the cell of a clue holds the clue's digit.
pub proof fn lemma_clues_kept(
    nums: Seq<usize>,
    s: Seq<Seq<bool>>,
    groups: Seq<Seq<usize>>,
    i: int,
)
    requires
        nums.len() == 81,
        0 <= i < 81,
        1 <= nums[i] <= 9,
        solves(s, clues(nums), groups),
    ensures
        s[i] == single(nums[i] - 1),
        lowest(s[i]) + 1 == nums[i],
{
    let c = clues(nums)[i];
    assert(c == single(nums[i] - 1));
    lemma_single(nums[i] - 1);
    assert(within(s[i], c));
    assert(s[i].len() == 9);
    lemma_solved_within(s[i], c);
    lemma_solved_is_single(s[i]);
}

} // verus!
