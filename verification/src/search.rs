//! The search: propagate, and where propagation leaves a cell open, try each
//! of its digits in turn on a copy of the board.
//!
//! The result is stated over solutions. A solution of a board is a completed
//! board that keeps to the digits the board allows and holds no digit twice in
//! a group. Solutions are ordered cell by cell, the first cell counting most;
//! the search returns the least solution, or nothing when there is none.

use crate::cascade::{consistent, solves};
use crate::cell::{
    candidates, count, invalid, lemma_candidates, lemma_single, lemma_solved_bit,
    lemma_solved_is_single, lemma_within_count, lowest, single, solved, within,
};
use crate::grid::{
    board, complete, lemma_total_below_nonnegative, lemma_total_le, lemma_total_lt, refines,
    total, Grid,
};
use crate::groups::{groups_of, groups_ok};
use vstd::prelude::*;

verus! {

/// The order of completed boards: at the first cell where the two differ,
/// `a` holds the lower digit.
pub open spec fn precedes(a: Seq<Seq<bool>>, b: Seq<Seq<bool>>) -> bool {
    forall|i: int|
        0 <= i < 81 && (forall|j: int| 0 <= j < i ==> lowest(#[trigger] a[j]) == lowest(b[j]))
            ==> lowest(#[trigger] a[i]) <= lowest(b[i])
}

/// `s` solves the board, and no solution comes before it.
pub open spec fn least_solution(
    s: Seq<Seq<bool>>,
    g: Seq<Seq<bool>>,
    groups: Seq<Seq<usize>>,
) -> bool {
    &&& solves(s, g, groups)
    &&& forall|t: Seq<Seq<bool>>| #[trigger] solves(t, g, groups) ==> precedes(s, t)
}

/// The board has a solution.
pub open spec fn solvable(g: Seq<Seq<bool>>, groups: Seq<Seq<usize>>) -> bool {
    exists|s: Seq<Seq<bool>>| solves(s, g, groups)
}

/// A solved cell of a solution agrees with a solved cell that it lies within.
pub proof fn lemma_solved_within(a: Seq<bool>, b: Seq<bool>)
    requires
        a.len() == 9,
        solved(a),
        solved(b),
        within(a, b),
    ensures
        lowest(a) == lowest(b),
{
    lemma_solved_is_single(a);
    assert(a[lowest(a)]);
    lemma_solved_bit(b, lowest(a));
}

/// A board with a contradiction has no solution.
pub proof fn lemma_contradiction_unsolvable(g: Seq<Seq<bool>>, groups: Seq<Seq<usize>>, i: int)
    requires
        0 <= i < 81,
        invalid(g[i]),
    ensures
        !solvable(g, groups),
{
    if solvable(g, groups) {
        let s = choose|s: Seq<Seq<bool>>| solves(s, g, groups);
        assert(within(s[i], g[i]));
        lemma_within_count(s[i], g[i]);
        assert(solved(s[i]));
    }
}

/// A completed board in which no group holds a digit twice is its own least
/// solution, and its only one.
pub proof fn lemma_complete_is_least(g: Seq<Seq<bool>>, groups: Seq<Seq<usize>>)
    requires
        board(g),
        complete(g),
        consistent(g, groups),
    ensures
        least_solution(g, g, groups),
        forall|t: Seq<Seq<bool>>| #[trigger] solves(t, g, groups) ==> t == g,
{
    assert forall|i: int| 0 <= i < 81 implies within(#[trigger] g[i], g[i]) by {}
    assert forall|t: Seq<Seq<bool>>| #[trigger] solves(t, g, groups) implies t == g && precedes(
        g,
        t,
    ) by {
        assert forall|i: int| 0 <= i < 81 implies #[trigger] t[i] == g[i] by {
            assert(within(t[i], g[i]));
            assert(t[i].len() == 9 && g[i].len() == 9);
            lemma_solved_within(t[i], g[i]);
            lemma_solved_is_single(t[i]);
            lemma_solved_is_single(g[i]);
        }
        assert(t =~= g);
    }
}

/// A solution of a board is a solution of the board with one cell narrowed
/// to the digit that the solution holds there.
pub proof fn lemma_narrowed(
    s: Seq<Seq<bool>>,
    g: Seq<Seq<bool>>,
    groups: Seq<Seq<usize>>,
    n: int,
)
    requires
        board(g),
        0 <= n < 81,
        solves(s, g, groups),
    ensures
        solves(s, g.update(n, single(lowest(s[n]))), groups),
{
    let h = g.update(n, single(lowest(s[n])));
    assert(s[n].len() == 9);
    lemma_solved_is_single(s[n]);
    assert forall|i: int| 0 <= i < 81 implies within(#[trigger] s[i], h[i]) by {
        assert(within(s[i], g[i]));
    }
}

/// A board that refines another has its solutions among the other's.
pub proof fn lemma_refined_solves(
    s: Seq<Seq<bool>>,
    a: Seq<Seq<bool>>,
    b: Seq<Seq<bool>>,
    groups: Seq<Seq<usize>>,
)
    requires
        solves(s, a, groups),
        refines(a, b),
    ensures
        solves(s, b, groups),
{
    assert forall|i: int| 0 <= i < 81 implies within(#[trigger] s[i], b[i]) by {
        assert(within(s[i], a[i]));
        assert(within(a[i], b[i]));
    }
}

/// Of two solutions of a board whose cells before `n` are solved, the one
/// with the lower digit in cell `n` comes first.
pub proof fn lemma_lower_digit_first(
    a: Seq<Seq<bool>>,
    b: Seq<Seq<bool>>,
    g: Seq<Seq<bool>>,
    groups: Seq<Seq<usize>>,
    n: int,
)
    requires
        board(g),
        0 <= n < 81,
        forall|i: int| 0 <= i < n ==> solved(#[trigger] g[i]),
        solves(a, g, groups),
        solves(b, g, groups),
        lowest(a[n]) < lowest(b[n]),
    ensures
        precedes(a, b),
{
    assert forall|i: int| 0 <= i < n implies lowest(#[trigger] a[i]) == lowest(b[i]) by {
        assert(within(a[i], g[i]));
        assert(within(b[i], g[i]));
        assert(a[i].len() == 9 && b[i].len() == 9);
        lemma_solved_within(a[i], g[i]);
        lemma_solved_within(b[i], g[i]);
    }
    assert forall|i: int|
        0 <= i < 81 && (forall|j: int|
            0 <= j < i ==> lowest(#[trigger] a[j]) == lowest(b[j])) implies lowest(
        #[trigger] a[i],
    ) <= lowest(b[i]) by {
        if i > n {
            assert(lowest(a[n]) == lowest(b[n]));
        }
    }
}

/// Two solutions each of which comes before the other hold the same digits
/// in their first `n` cells.
proof fn lemma_agree_below(a: Seq<Seq<bool>>, b: Seq<Seq<bool>>, n: int)
    requires
        precedes(a, b),
        precedes(b, a),
        0 <= n <= 81,
    ensures
        forall|j: int| 0 <= j < n ==> lowest(#[trigger] a[j]) == lowest(b[j]),
    decreases n,
{
    if n > 0 {
        lemma_agree_below(a, b, n - 1);
        assert(forall|j: int| 0 <= j < n - 1 ==> lowest(#[trigger] b[j]) == lowest(a[j]));
        assert(lowest(a[n - 1]) <= lowest(b[n - 1]));
        assert(lowest(b[n - 1]) <= lowest(a[n - 1]));
    }
}

/// A board has one least solution at most, so the result of the search is
/// determined.
pub proof fn lemma_least_solution_is_one(
    a: Seq<Seq<bool>>,
    b: Seq<Seq<bool>>,
    g: Seq<Seq<bool>>,
    groups: Seq<Seq<usize>>,
)
    requires
        least_solution(a, g, groups),
        least_solution(b, g, groups),
    ensures
        a == b,
{
    lemma_agree_below(a, b, 81);
    assert forall|i: int| 0 <= i < 81 implies #[trigger] a[i] == b[i] by {
        assert(a[i].len() == 9 && b[i].len() == 9);
        lemma_solved_is_single(a[i]);
        lemma_solved_is_single(b[i]);
    }
    assert(a =~= b);
}

/// Searches for a solution of the board, looking for open cells from index
/// `idx` on; the cells before `idx` must hold one digit at most. Returns the
/// least solution, or nothing if the board has none.
pub fn try_solutions(sudoku: Grid, idx: usize, unique_sets: &Vec<Vec<usize>>) -> (r: Option<
    Grid,
>)
    requires
        sudoku.wf(),
        groups_ok(groups_of(unique_sets@)),
        forall|i: int| 0 <= i < idx && i < 81 ==> count(#[trigger] sudoku@[i]) <= 1,
    ensures
        r.is_some() <==> solvable(sudoku@, groups_of(unique_sets@)),
        r matches Some(s) ==> s.wf() && least_solution(s@, sudoku@, groups_of(unique_sets@)),
    decreases total(sudoku@),
{
    let ghost g0 = sudoku@;
    let ghost groups = groups_of(unique_sets@);
    let mut grid = sudoku;
    grid.cascade_over_sets(unique_sets);
    let ghost g1 = grid@;
    proof {
        lemma_total_le(g1, g0);
        assert forall|s: Seq<Seq<bool>>| solves(s, g1, groups) implies #[trigger] solves(
            s,
            g0,
            groups,
        ) by {
            lemma_refined_solves(s, g1, g0, groups);
        }
    }
    if grid.is_invalid() {
        proof {
            let i = choose|i: int| 0 <= i < 81 && invalid(#[trigger] g1[i]);
            lemma_contradiction_unsolvable(g1, groups, i);
            if solvable(g0, groups) {
                let s = choose|s: Seq<Seq<bool>>| solves(s, g0, groups);
                assert(solves(s, g1, groups));
            }
        }
        return None;
    }
    assert forall|i: int| 0 <= i < idx && i < 81 implies solved(#[trigger] g1[i]) by {
        assert(within(g1[i], g0[i]));
        lemma_within_count(g1[i], g0[i]);
        assert(!invalid(g1[i]));
        assert(count(g0[i]) <= 1);
    }
    let mut n: usize = idx;
    while n < 81 && grid.cell(n).is_solved()
        invariant
            idx <= n,
            grid.wf(),
            grid@ == g1,
            forall|i: int| 0 <= i < n && i < 81 ==> solved(#[trigger] g1[i]),
        decreases 81 - n,
    {
        n = n + 1;
    }
    if n >= 81 {
        proof {
            lemma_complete_is_least(g1, groups);
            assert forall|i: int| 0 <= i < 81 implies within(#[trigger] g1[i], g0[i]) by {}
            assert forall|t: Seq<Seq<bool>>| #[trigger] solves(t, g0, groups) implies precedes(
                g1,
                t,
            ) by {
                assert(solves(t, g1, groups));
            }
            assert(solves(g1, g0, groups));
        }
        return Some(grid);
    }
    let options = grid.cell(n).solutions();
    let ghost digits = candidates(g1[n as int]);
    proof {
        lemma_candidates(g1[n as int]);
    }
    let mut j: usize = 0;
    while j < options.len()
        invariant
            j <= options@.len(),
            n < 81,
            grid.wf(),
            grid@ == g1,
            g0 == sudoku@,
            groups == groups_of(unique_sets@),
            groups_ok(groups),
            digits == candidates(g1[n as int]),
            options@.len() == digits.len(),
            forall|m: int|
                0 <= m < options@.len() ==> (#[trigger] options@[m]).wf() && options@[m]@
                    == single(digits[m]),
            forall|m: int| 0 <= m < digits.len() ==> 0 <= #[trigger] digits[m] < 9,
            forall|l: int, m: int|
                0 <= l < m < digits.len() ==> #[trigger] digits[l] < #[trigger] digits[m],
            !solved(g1[n as int]),
            !invalid(g1[n as int]),
            forall|i: int| 0 <= i < n ==> solved(#[trigger] g1[i]),
            total(g1) <= total(g0),
            forall|s: Seq<Seq<bool>>| solves(s, g0, groups) <==> #[trigger] solves(s, g1, groups),
            forall|s: Seq<Seq<bool>>, m: int|
                #[trigger] solves(s, g1, groups) && 0 <= m < j ==> lowest(s[n as int])
                    != #[trigger] digits[m],
        decreases options@.len() - j,
    {
        let ghost d = digits[j as int];
        let mut test = grid.clone();
        test.set_cell(n, options[j].clone());
        let ghost h = test@;
        proof {
            assert(h == g1.update(n as int, single(d)));
            lemma_single(d);
            assert(count(h[n as int]) < count(g1[n as int]));
            assert forall|i: int| 0 <= i < 81 implies within(#[trigger] h[i], g1[i]) by {
                if i == n {
                    lemma_candidates(g1[n as int]);
                    assert(g1[n as int][digits[j as int]]);
                }
            }
            lemma_total_lt(h, g1, n as int);
            lemma_total_below_nonnegative(h, 81);
            assert forall|i: int| 0 <= i < n && i < 81 implies count(#[trigger] h[i]) <= 1 by {
                assert(solved(g1[i]));
            }
        }
        match try_solutions(test, n, unique_sets) {
            Some(s) => {
                proof {
                    let r = s@;
                    lemma_refined_solves(r, h, g1, groups);
                    assert(within(r[n as int], h[n as int]));
                    assert(r[n as int].len() == 9);
                    lemma_solved_within(r[n as int], h[n as int]);
                    assert forall|t: Seq<Seq<bool>>| #[trigger]
                        solves(t, g0, groups) implies precedes(r, t) by {
                        assert(solves(t, g1, groups));
                        let e = lowest(t[n as int]);
                        assert(t[n as int].len() == 9);
                        lemma_solved_is_single(t[n as int]);
                        if e == d {
                            lemma_narrowed(t, g1, groups, n as int);
                            assert(solves(t, h, groups));
                        } else {
                            assert(within(t[n as int], g1[n as int]));
                            lemma_candidates(g1[n as int]);
                            let m = choose|m: int|
                                0 <= m < digits.len() && #[trigger] digits[m] == e;
                            assert(lowest(t[n as int]) != digits[j as int]);
                            assert(d < e);
                            lemma_lower_digit_first(r, t, g1, groups, n as int);
                        }
                    }
                    assert(solves(r, g0, groups));
                }
                return Some(s);
            },
            None => {
                proof {
                    assert forall|s: Seq<Seq<bool>>, m: int| #[trigger]
                        solves(s, g1, groups) && 0 <= m < j + 1 implies lowest(s[n as int])
                        != #[trigger] digits[m] by {
                        if m == j && lowest(s[n as int]) == d {
                            lemma_narrowed(s, g1, groups, n as int);
                            assert(solves(s, h, groups));
                        }
                    }
                }
            },
        }
        j = j + 1;
    }
    proof {
        if solvable(g0, groups) {
            let s = choose|s: Seq<Seq<bool>>| solves(s, g0, groups);
            assert(solves(s, g1, groups));
            let e = lowest(s[n as int]);
            assert(s[n as int].len() == 9);
            lemma_solved_is_single(s[n as int]);
            assert(within(s[n as int], g1[n as int]));
            assert(g1[n as int][e]);
            lemma_candidates(g1[n as int]);
            let m = choose|m: int| 0 <= m < digits.len() && #[trigger] digits[m] == e;
            assert(lowest(s[n as int]) != digits[m]);
        }
    }
    None
}

} // verus!
