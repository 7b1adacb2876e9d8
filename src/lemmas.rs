use vstd::prelude::*;

use crate::board::{
    Cells, candidate_values, candidates_below, consistent, empty_below, empty_count,
    extends, in_grid, is_candidate, is_solution, same_unit, solvable, well_formed, with_cell,
};

verus! {

/// The list of candidates holds exactly the candidates, each once and ascending.
pub proof fn lemma_candidates_below(g: Cells, r: int, c: int, n: int)
    requires
        0 <= n <= 16,
    ensures
        candidates_below(g, r, c, n).len() <= n,
        forall|j: int|
            #![trigger candidates_below(g, r, c, n)[j]]
            0 <= j < candidates_below(g, r, c, n).len() ==> {
                &&& is_candidate(g, r, c, candidates_below(g, r, c, n)[j] as int)
                &&& 1 <= candidates_below(g, r, c, n)[j] <= n
            },
        forall|v: int|
            #![trigger is_candidate(g, r, c, v)]
            1 <= v <= n && is_candidate(g, r, c, v) ==> candidates_below(g, r, c, n).contains(
                v as u8,
            ),
    decreases n,
{
    if n > 0 {
        lemma_candidates_below(g, r, c, n - 1);
        let prev = candidates_below(g, r, c, n - 1);
        let cur = candidates_below(g, r, c, n);
        assert forall|v: int| 1 <= v <= n && is_candidate(g, r, c, v) implies cur.contains(
            v as u8,
        ) by {
            if v < n {
                assert(prev.contains(v as u8));
                let j = choose|j: int| 0 <= j < prev.len() && prev[j] == v as u8;
                assert(cur[j] == v as u8);
            } else {
                assert(cur[prev.len() as int] == v as u8);
            }
        }
        assert forall|j: int| 0 <= j < cur.len() implies {
            &&& is_candidate(g, r, c, cur[j] as int)
            &&& 1 <= cur[j] <= n
        } by {
            if j < prev.len() {
                assert(cur[j] == prev[j]);
            }
        }
    }
}

/// The list of candidates of a cell holds exactly its candidates.
pub proof fn lemma_candidate_values(g: Cells, r: int, c: int)
    ensures
        candidate_values(g, r, c).len() <= 16,
        forall|j: int|
            #![trigger candidate_values(g, r, c)[j]]
            0 <= j < candidate_values(g, r, c).len() ==> is_candidate(
                g,
                r,
                c,
                candidate_values(g, r, c)[j] as int,
            ),
        forall|v: int|
            #![trigger is_candidate(g, r, c, v)]
            is_candidate(g, r, c, v) ==> candidate_values(g, r, c).contains(v as u8),
{
    lemma_candidates_below(g, r, c, 16);
}

/// In a solution that keeps the filled cells of `g`, each empty cell of `g`
/// holds one of its candidates.
pub proof fn lemma_solution_picks_candidate(g: Cells, s: Cells, r: int, c: int)
    requires
        is_solution(s),
        extends(g, s),
        in_grid(r),
        in_grid(c),
        g[r][c] == 0,
    ensures
        is_candidate(g, r, c, s[r][c] as int),
        candidate_values(g, r, c).contains(s[r][c]),
{
    let v = s[r][c];
    assert forall|r2: int, c2: int|
        in_grid(r2) && in_grid(c2) && same_unit(r, c, r2, c2) implies g[r2][c2] != v by {
        if g[r2][c2] != 0 && (r2 != r || c2 != c) {
            assert(s[r2][c2] == g[r2][c2]);
            assert(s[r][c] != s[r2][c2]);
        }
    }
    lemma_candidate_values(g, r, c);
}

/// An empty cell without candidates leaves no solution.
pub proof fn lemma_no_candidate_unsolvable(g: Cells, r: int, c: int)
    requires
        in_grid(r),
        in_grid(c),
        g[r][c] == 0,
        candidate_values(g, r, c).len() == 0,
    ensures
        !solvable(g),
{
    if solvable(g) {
        let s = choose|s: Cells| is_solution(s) && extends(g, s);
        lemma_solution_picks_candidate(g, s, r, c);
    }
}

/// Writing the only candidate of an empty cell keeps every solution.
pub proof fn lemma_forced_keeps_solutions(g: Cells, r: int, c: int)
    requires
        well_formed(g),
        in_grid(r),
        in_grid(c),
        g[r][c] == 0,
        candidate_values(g, r, c).len() == 1,
    ensures
        forall|s: Cells|
            #![trigger is_solution(s), extends(g, s)]
            is_solution(s) ==> (extends(g, s) <==> extends(
                with_cell(g, r, c, candidate_values(g, r, c)[0] as int),
                s,
            )),
{
    let v = candidate_values(g, r, c)[0];
    let h = with_cell(g, r, c, v as int);
    assert forall|s: Cells| is_solution(s) implies (extends(g, s) <==> extends(h, s)) by {
        if extends(g, s) {
            lemma_solution_picks_candidate(g, s, r, c);
            assert(s[r][c] == v);
        }
        if extends(h, s) {
            assert forall|r2: int, c2: int|
                in_grid(r2) && in_grid(c2) && g[r2][c2] != 0 implies s[r2][c2] == g[r2][c2] by {
                assert(h[r2][c2] == g[r2][c2]);
            }
        }
    }
}

/// Writing a candidate into an empty cell keeps a grid free of repeats.
pub proof fn lemma_candidate_keeps_consistent(g: Cells, r: int, c: int, v: int)
    requires
        well_formed(g),
        in_grid(r),
        in_grid(c),
        g[r][c] == 0,
        is_candidate(g, r, c, v),
        consistent(g),
    ensures
        consistent(with_cell(g, r, c, v)),
        well_formed(with_cell(g, r, c, v)),
{
    let h = with_cell(g, r, c, v);
    assert forall|r1: int, c1: int, r2: int, c2: int|
        in_grid(r1) && in_grid(c1) && in_grid(r2) && in_grid(c2) && (r1 != r2 || c1 != c2)
            && same_unit(r1, c1, r2, c2) && h[r1][c1] != 0 implies h[r1][c1] != h[r2][c2] by {
        if r1 == r && c1 == c {
            assert(g[r2][c2] != v);
        } else if r2 == r && c2 == c {
            assert(same_unit(r, c, r1, c1));
            assert(g[r1][c1] != v);
        } else {
            assert(h[r1][c1] == g[r1][c1] && h[r2][c2] == g[r2][c2]);
        }
    }
}

/// Filling one empty cell lowers the count of empty cells by one.
pub proof fn lemma_fill_counts(g: Cells, r: int, c: int, v: int, n: int)
    requires
        well_formed(g),
        in_grid(r),
        in_grid(c),
        g[r][c] == 0,
        1 <= v <= 16,
        0 <= n <= 256,
    ensures
        empty_below(with_cell(g, r, c, v), n) + (if r * 16 + c < n {
            1nat
        } else {
            0nat
        }) == empty_below(g, n),
    decreases n,
{
    if n > 0 {
        lemma_fill_counts(g, r, c, v, n - 1);
        let k = n - 1;
        assert(0 <= k / 16 < 16 && 0 <= k % 16 < 16);
        assert((k / 16 == r && k % 16 == c) <==> k == r * 16 + c);
    }
}

/// Filling one empty cell lowers the count of empty cells by one.
pub proof fn lemma_fill_count(g: Cells, r: int, c: int, v: int)
    requires
        well_formed(g),
        in_grid(r),
        in_grid(c),
        g[r][c] == 0,
        1 <= v <= 16,
    ensures
        empty_count(with_cell(g, r, c, v)) + 1 == empty_count(g),
{
    lemma_fill_counts(g, r, c, v, 256);
}

/// Keeping the filled cells of a grid is transitive.
pub proof fn lemma_extends_trans(a: Cells, b: Cells, c: Cells)
    requires
        extends(a, b),
        extends(b, c),
    ensures
        extends(a, c),
{
    assert forall|r: int, k: int| in_grid(r) && in_grid(k) && a[r][k] != 0 implies c[r][k]
        == a[r][k] by {
        assert(b[r][k] == a[r][k]);
    }
}

/// Filling an empty cell keeps every filled cell.
pub proof fn lemma_fill_extends(g: Cells, r: int, c: int, v: int)
    requires
        well_formed(g),
        in_grid(r),
        in_grid(c),
        g[r][c] == 0,
    ensures
        extends(g, with_cell(g, r, c, v)),
{
}

/// A grid that keeps the filled cells of `g` also keeps those of `g` with
/// one of its own values written in.
pub proof fn lemma_extends_with_cell(g: Cells, s: Cells, r: int, c: int)
    requires
        well_formed(g),
        extends(g, s),
        in_grid(r),
        in_grid(c),
    ensures
        extends(with_cell(g, r, c, s[r][c] as int), s),
{
    let h = with_cell(g, r, c, s[r][c] as int);
    assert forall|r2: int, c2: int| in_grid(r2) && in_grid(c2) && h[r2][c2] != 0 implies s[r2][c2]
        == h[r2][c2] by {
        if r2 != r || c2 != c {
            assert(h[r2][c2] == g[r2][c2]);
        }
    }
}

} // verus!
