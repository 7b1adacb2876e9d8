use vstd::prelude::*;
use vstd::set_lib::{lemma_int_range, lemma_map_size, lemma_subset_equality, set_int_range};

use crate::board::{
    Cells, complete, consistent, empty_grid, extends, in_grid, is_candidate, is_solution, same_unit, solvable,
    well_formed, with_cell,
};

verus! {

/// Row of the `k`-th cell (0..16, row-major) of block `b` (0..16, row-major).
pub open spec fn block_row(b: int, k: int) -> int {
    (b / 4) * 4 + k / 4
}

/// Column of the `k`-th cell (0..16, row-major) of block `b` (0..16, row-major).
pub open spec fn block_col(b: int, k: int) -> int {
    (b % 4) * 4 + k % 4
}

/// Exactly one of `f(0)`, ..., `f(15)` equals `v`.
pub open spec fn occurs_once(f: spec_fn(int) -> int, v: int) -> bool {
    exists|k: int|
        0 <= k < 16 && #[trigger] f(k) == v && forall|k2: int|
            0 <= k2 < 16 && #[trigger] f(k2) == v ==> k2 == k
}

/// The 16 cells `f(0)`, ..., `f(15)` of a unit hold every value 1..=16, each
/// exactly once.
pub open spec fn holds_each_once(f: spec_fn(int) -> int) -> bool {
    forall|v: int| 1 <= v <= 16 ==> #[trigger] occurs_once(f, v)
}

/// Sixteen distinct values in 1..=16 take every value of that range.
proof fn lemma_distinct_covers(f: spec_fn(int) -> int)
    requires
        forall|k: int| 0 <= k < 16 ==> 1 <= #[trigger] f(k) <= 16,
        forall|k1: int, k2: int|
            0 <= k1 < 16 && 0 <= k2 < 16 && k1 != k2 ==> #[trigger] f(k1) != #[trigger] f(k2),
    ensures
        holds_each_once(f),
{
    let x = set_int_range(0, 16);
    let y = x.map(f);
    let z = set_int_range(1, 17);
    lemma_int_range(0, 16);
    lemma_int_range(1, 17);
    lemma_map_size(x, y, f);
    assert(y.subset_of(z)) by {
        assert forall|v: int| y.contains(v) implies z.contains(v) by {
            let k = choose|k: int| x.contains(k) && f(k) == v;
        }
    }
    lemma_subset_equality(y, z);
    assert forall|v: int| 1 <= v <= 16 implies #[trigger] occurs_once(f, v) by {
        assert(z.contains(v));
        assert(y.contains(v));
        let k = choose|k: int| x.contains(k) && f(k) == v;
        assert(0 <= k < 16 && f(k) == v);
    }
}

/// In a solution every row, every column and every block holds each value
/// 1..=16 exactly once.
pub proof fn lemma_solution_units(s: Cells)
    requires
        is_solution(s),
    ensures
        forall|r: int| #![auto] in_grid(r) ==> holds_each_once(|k: int| s[r][k] as int),
        forall|c: int| #![auto] in_grid(c) ==> holds_each_once(|k: int| s[k][c] as int),
        forall|b: int|
            #![auto]
            in_grid(b) ==> holds_each_once(|k: int| s[block_row(b, k)][block_col(b, k)] as int),
{
    assert forall|r: int| #![auto] in_grid(r) implies holds_each_once(|k: int| s[r][k] as int) by {
        let f = |k: int| s[r][k] as int;
        assert forall|k1: int, k2: int|
            0 <= k1 < 16 && 0 <= k2 < 16 && k1 != k2 implies #[trigger] f(k1) != #[trigger] f(k2) by {
            assert(s[r][k1] != 0);
        }
        lemma_distinct_covers(f);
    }
    assert forall|c: int| #![auto] in_grid(c) implies holds_each_once(|k: int| s[k][c] as int) by {
        let f = |k: int| s[k][c] as int;
        assert forall|k1: int, k2: int|
            0 <= k1 < 16 && 0 <= k2 < 16 && k1 != k2 implies #[trigger] f(k1) != #[trigger] f(k2) by {
            assert(s[k1][c] != 0);
        }
        lemma_distinct_covers(f);
    }
    assert forall|b: int| #![auto] in_grid(b) implies holds_each_once(
        |k: int| s[block_row(b, k)][block_col(b, k)] as int,
    ) by {
        let f = |k: int| s[block_row(b, k)][block_col(b, k)] as int;
        assert forall|k: int| 0 <= k < 16 implies 1 <= #[trigger] f(k) <= 16 by {
            lemma_block_cell(b, k);
        }
        assert forall|k1: int, k2: int|
            0 <= k1 < 16 && 0 <= k2 < 16 && k1 != k2 implies #[trigger] f(k1) != #[trigger] f(k2) by {
            lemma_block_cell(b, k1);
            lemma_block_cell(b, k2);
            assert(s[block_row(b, k1)][block_col(b, k1)] != 0);
        }
        lemma_distinct_covers(f);
    }
}

/// The `k`-th cell of block `b` lies in the grid and in that block, and
/// different `k` give different cells.
proof fn lemma_block_cell(b: int, k: int)
    requires
        in_grid(b),
        in_grid(k),
    ensures
        in_grid(block_row(b, k)),
        in_grid(block_col(b, k)),
        block_row(b, k) / 4 == b / 4,
        block_col(b, k) / 4 == b % 4,
        block_row(b, k) % 4 == k / 4,
        block_col(b, k) % 4 == k % 4,
{
}

/// Filling an empty cell only takes candidates away from the other cells:
/// every candidate of a cell afterwards was one before.
pub proof fn lemma_fill_shrinks_candidates(g: Cells, r: int, c: int, v: int)
    requires
        well_formed(g),
        in_grid(r),
        in_grid(c),
        g[r][c] == 0,
    ensures
        forall|r2: int, c2: int, w: int|
            #![trigger is_candidate(with_cell(g, r, c, v), r2, c2, w)]
            in_grid(r2) && in_grid(c2) && is_candidate(with_cell(g, r, c, v), r2, c2, w)
                ==> is_candidate(g, r2, c2, w),
{
    let h = with_cell(g, r, c, v);
    assert forall|r2: int, c2: int, w: int|
        in_grid(r2) && in_grid(c2) && is_candidate(h, r2, c2, w) implies is_candidate(
        g,
        r2,
        c2,
        w,
    ) by {
        assert forall|r3: int, c3: int|
            in_grid(r3) && in_grid(c3) && same_unit(r2, c2, r3, c3) implies g[r3][c3]
            != w by {
            if r3 != r || c3 != c {
                assert(h[r3][c3] == g[r3][c3]);
            }
        }
    }
}

/// A filled grid: cell (r, c) holds the shifted pattern
/// (4 * (r % 4) + r / 4 + c) % 16 + 1.
pub open spec fn pattern_grid() -> Cells {
    Seq::new(16, |r: int| Seq::new(16, |c: int| pattern_value(r, c) as u8))
}

pub open spec fn pattern_value(r: int, c: int) -> int {
    (4 * (r % 4) + r / 4 + c) % 16 + 1
}

proof fn lemma_split4(x: int)
    requires
        in_grid(x),
    ensures
        x == 4 * (x / 4) + x % 4,
        0 <= x / 4 < 4,
        0 <= x % 4 < 4,
{
}

proof fn lemma_mod16_differ(t1: int, t2: int)
    requires
        0 <= t1 < 32,
        0 <= t2 < 32,
        t1 != t2,
        t1 - t2 != 16,
        t2 - t1 != 16,
    ensures
        t1 % 16 != t2 % 16,
{
}

proof fn lemma_pattern_distinct(r1: int, c1: int, r2: int, c2: int)
    requires
        in_grid(r1),
        in_grid(c1),
        in_grid(r2),
        in_grid(c2),
        r1 != r2 || c1 != c2,
        same_unit(r1, c1, r2, c2),
    ensures
        pattern_value(r1, c1) != pattern_value(r2, c2),
{
    lemma_split4(r1);
    lemma_split4(r2);
    lemma_split4(c1);
    lemma_split4(c2);
    let (a1, i1, a2, i2) = (r1 / 4, r1 % 4, r2 / 4, r2 % 4);
    let (b1, j1, b2, j2) = (c1 / 4, c1 % 4, c2 / 4, c2 % 4);
    let t1 = 4 * i1 + a1 + c1;
    let t2 = 4 * i2 + a2 + c2;
    if r1 == r2 {
        assert(t1 - t2 == c1 - c2);
    } else if c1 == c2 {
        assert(t1 - t2 == 4 * (i1 - i2) + (a1 - a2));
        assert(i1 != i2 || a1 != a2);
    } else {
        assert(a1 == a2 && b1 == b2);
        assert(t1 - t2 == 4 * (i1 - i2) + (j1 - j2));
        assert(i1 != i2 || j1 != j2);
    }
    lemma_mod16_differ(t1, t2);
}

/// The empty grid has a solution, so `solve` on an empty board succeeds, and
/// so does one of the branches that `plan_root` makes of it.
pub proof fn lemma_empty_grid_solvable()
    ensures
        well_formed(empty_grid()),
        consistent(empty_grid()),
        solvable(empty_grid()),
{
    let s = pattern_grid();
    assert forall|r1: int, c1: int, r2: int, c2: int|
        #![trigger s[r1][c1], s[r2][c2]]
        in_grid(r1) && in_grid(c1) && in_grid(r2) && in_grid(c2) && (r1 != r2 || c1 != c2)
            && same_unit(r1, c1, r2, c2) && s[r1][c1] != 0 implies s[r1][c1] != s[r2][c2] by {
        lemma_pattern_distinct(r1, c1, r2, c2);
    }
    assert(is_solution(s));
    assert(extends(empty_grid(), s));
}

} // verus!
