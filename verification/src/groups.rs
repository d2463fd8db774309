//! Constraint groups: the rows, columns and boxes of the board.
//!
//! A group is a sequence of cell indices in which every digit may stand only
//! once. The board has twenty-seven of them, nine of each kind.

use vstd::prelude::*;

verus! {

/// A group names cells of the board, and names no cell twice.
pub open spec fn group_ok(grp: Seq<usize>) -> bool {
    &&& forall|k: int| 0 <= k < grp.len() ==> #[trigger] grp[k] < 81
    &&& forall|j: int, k: int| 0 <= j < k < grp.len() ==> #[trigger] grp[j] != #[trigger] grp[k]
}

/// A list of groups as sequences of cell indices.
pub open spec fn groups_of(v: Seq<Vec<usize>>) -> Seq<Seq<usize>> {
    Seq::new(v.len(), |n: int| v[n]@)
}

/// Every group of the list is a group.
pub open spec fn groups_ok(groups: Seq<Seq<usize>>) -> bool {
    forall|n: int| 0 <= n < groups.len() ==> group_ok(#[trigger] groups[n])
}

/// The cells of row `r`, left to right.
pub open spec fn row_group(r: int) -> Seq<usize> {
    Seq::new(9, |k: int| (9 * r + k) as usize)
}

/// The cells of column `c`, top to bottom.
pub open spec fn column_group(c: int) -> Seq<usize> {
    Seq::new(9, |k: int| (9 * k + c) as usize)
}

/// The cells of box `b`, row by row. Boxes are counted row by row too.
pub open spec fn box_group(b: int) -> Seq<usize> {
    Seq::new(9, |k: int| (27 * (b / 3) + 3 * (b % 3) + 9 * (k / 3) + k % 3) as usize)
}

/// The twenty-seven groups of the board: the rows, then the columns, then the
/// boxes.
pub open spec fn standard_groups() -> Seq<Seq<usize>> {
    Seq::new(
        27,
        |n: int|
            if n < 9 {
                row_group(n)
            } else if n < 18 {
                column_group(n - 9)
            } else {
                box_group(n - 18)
            },
    )
}

/// The standard groups are groups.
pub proof fn lemma_standard_groups_ok()
    ensures
        groups_ok(standard_groups()),
{
    assert forall|n: int| 0 <= n < 27 implies group_ok(#[trigger] standard_groups()[n]) by {
        let grp = standard_groups()[n];
        assert(grp.len() == 9);
        assert forall|k: int| 0 <= k < grp.len() implies #[trigger] grp[k] < 81 by {}
        assert forall|j: int, k: int| 0 <= j < k < grp.len() implies #[trigger] grp[j]
            != #[trigger] grp[k] by {}
    }
}

/// The groups of the board: nine rows, nine columns, nine boxes.
pub fn unique_sets() -> (r: Vec<Vec<usize>>)
    ensures
        groups_of(r@) == standard_groups(),
        groups_ok(groups_of(r@)),
{
    let mut r: Vec<Vec<usize>> = Vec::new();
    let mut n: usize = 0;
    while n < 9
        invariant
            n <= 9,
            r@.len() == n,
            forall|m: int| 0 <= m < n ==> (#[trigger] r@[m])@ == row_group(m),
        decreases 9 - n,
    {
        let mut grp: Vec<usize> = Vec::new();
        let mut k: usize = 0;
        while k < 9
            invariant
                n < 9,
                k <= 9,
                grp@.len() == k,
                forall|j: int| 0 <= j < k ==> #[trigger] grp@[j] == 9 * n + j,
            decreases 9 - k,
        {
            grp.push(9 * n + k);
            k = k + 1;
        }
        assert(grp@ =~= row_group(n as int));
        r.push(grp);
        n = n + 1;
    }
    n = 0;
    while n < 9
        invariant
            n <= 9,
            r@.len() == 9 + n,
            forall|m: int| 0 <= m < 9 ==> (#[trigger] r@[m])@ == row_group(m),
            forall|m: int| 9 <= m < 9 + n ==> (#[trigger] r@[m])@ == column_group(m - 9),
        decreases 9 - n,
    {
        let mut grp: Vec<usize> = Vec::new();
        let mut k: usize = 0;
        while k < 9
            invariant
                n < 9,
                k <= 9,
                grp@.len() == k,
                forall|j: int| 0 <= j < k ==> #[trigger] grp@[j] == 9 * j + n,
            decreases 9 - k,
        {
            grp.push(9 * k + n);
            k = k + 1;
        }
        assert(grp@ =~= column_group(n as int));
        r.push(grp);
        n = n + 1;
    }
    n = 0;
    while n < 9
        invariant
            n <= 9,
            r@.len() == 18 + n,
            forall|m: int| 0 <= m < 9 ==> (#[trigger] r@[m])@ == row_group(m),
            forall|m: int| 9 <= m < 18 ==> (#[trigger] r@[m])@ == column_group(m - 9),
            forall|m: int| 18 <= m < 18 + n ==> (#[trigger] r@[m])@ == box_group(m - 18),
        decreases 9 - n,
    {
        let corner: usize = 27 * (n / 3) + 3 * (n % 3);
        let mut grp: Vec<usize> = Vec::new();
        let mut k: usize = 0;
        while k < 9
            invariant
                n < 9,
                k <= 9,
                corner == 27 * (n / 3) + 3 * (n % 3),
                grp@.len() == k,
                forall|j: int| 0 <= j < k ==> #[trigger] grp@[j] == corner + 9 * (j / 3) + j % 3,
            decreases 9 - k,
        {
            grp.push(corner + 9 * (k / 3) + k % 3);
            k = k + 1;
        }
        assert(grp@ =~= box_group(n as int));
        r.push(grp);
        n = n + 1;
    }
    assert(groups_of(r@) =~= standard_groups());
    proof {
        lemma_standard_groups_ok();
    }
    r
}

} // verus!
