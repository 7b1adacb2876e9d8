use vstd::prelude::*;

use crate::board::{
    Board, Cells, candidate_values, complete, consistent, empty_count, extends, in_grid,
    is_candidate, is_solution, mask_values, solvable, stuck, well_formed, with_cell, SIZE,
};
use crate::lemmas::{
    lemma_candidate_keeps_consistent, lemma_candidate_values, lemma_extends_trans,
    lemma_extends_with_cell, lemma_fill_count, lemma_fill_extends, lemma_no_candidate_unsolvable,
    lemma_solution_picks_candidate,
};

verus! {

/// What the minimum-remaining-values scan found.
pub enum Choice {
    /// No cell is empty.
    Filled,
    /// An empty cell has no candidate.
    DeadEnd,
    /// Branch on this cell (row, column) with this candidate mask.
    Cell(usize, usize, u16),
}

/// Cell (r, c) is empty, has a candidate, and no empty cell has fewer
/// candidates, unless (r, c) has a single one (taken at once).
pub open spec fn is_mrv_cell(g: Cells, r: int, c: int) -> bool {
    &&& in_grid(r) && in_grid(c)
    &&& g[r][c] == 0
    &&& candidate_values(g, r, c).len() >= 1
    &&& forall|r2: int, c2: int|
        in_grid(r2) && in_grid(c2) && g[r2][c2] == 0 ==> candidate_values(g, r2, c2).len()
            >= candidate_values(g, r, c).len() || candidate_values(g, r, c).len() == 1
}

/// Scans the empty cells in row-major order for the one with the fewest
/// candidates, keeping the first of equal ones; a cell with one candidate is
/// taken at once, a cell with none ends the scan.
pub fn choose_branch_cell(board: &Board) -> (res: Choice)
    requires
        well_formed(board@),
    ensures
        res is Filled <==> complete(board@),
        res is DeadEnd ==> stuck(board@),
        res matches Choice::Cell(r, c, m) ==> is_mrv_cell(board@, r as int, c as int) && mask_values(
            m,
        ) == candidate_values(board@, r as int, c as int),
{
    let ghost g = board@;
    let mut best: Option<(usize, usize, u16)> = None;
    let mut best_count: usize = SIZE + 1;
    let mut r: usize = 0;
    while r < SIZE
        invariant
            g == board@,
            well_formed(g),
            r <= 16,
            best is None ==> best_count == 17 && forall|r2: int, c2: int|
                0 <= r2 < r && in_grid(c2) ==> g[r2][c2] != 0,
            best matches Some((br, bc, m)) ==> {
                &&& in_grid(br as int) && in_grid(bc as int)
                &&& g[br as int][bc as int] == 0
                &&& mask_values(m) == candidate_values(g, br as int, bc as int)
                &&& best_count == candidate_values(g, br as int, bc as int).len()
                &&& best_count >= 2
            },
            forall|r2: int, c2: int|
                0 <= r2 < r && in_grid(c2) && g[r2][c2] == 0 ==> candidate_values(g, r2, c2).len()
                    >= best_count,
        decreases 16 - r,
    {
        let mut c: usize = 0;
        while c < SIZE
            invariant
                g == board@,
                well_formed(g),
                r < 16,
                c <= 16,
                best is None ==> best_count == 17 && forall|r2: int, c2: int|
                    in_grid(r2) && in_grid(c2) && (r2 < r || (r2 == r && c2 < c)) ==> g[r2][c2]
                        != 0,
                best matches Some((br, bc, m)) ==> {
                    &&& in_grid(br as int) && in_grid(bc as int)
                    &&& g[br as int][bc as int] == 0
                    &&& mask_values(m) == candidate_values(g, br as int, bc as int)
                    &&& best_count == candidate_values(g, br as int, bc as int).len()
                    &&& best_count >= 2
                },
                forall|r2: int, c2: int|
                    in_grid(r2) && in_grid(c2) && (r2 < r || (r2 == r && c2 < c)) && g[r2][c2]
                        == 0 ==> candidate_values(g, r2, c2).len() >= best_count,
            decreases 16 - c,
        {
            if board.grid[r][c] == 0 {
                let mask = board.candidates_mask(r, c);
                let cnt = Board::mask_to_vec(mask).len();
                proof {
                    lemma_candidate_values(g, r as int, c as int);
                }
                if cnt == 0 {
                    return Choice::DeadEnd;
                }
                if cnt < best_count {
                    best_count = cnt;
                    best = Some((r, c, mask));
                    if cnt == 1 {
                        return Choice::Cell(r, c, mask);
                    }
                }
            }
            c += 1;
        }
        r += 1;
    }
    match best {
        None => Choice::Filled,
        Some((r, c, mask)) => Choice::Cell(r, c, mask),
    }
}

/// Backtracking search: propagate, then branch on the cell that the
/// minimum-remaining-values scan picks, trying its candidates in ascending
/// order on copies of the board. On success the board holds the completed
/// grid; on failure it may hold the propagated one.
pub fn solve(board: &mut Board) -> (solved: bool)
    requires
        well_formed(old(board)@),
    ensures
        well_formed(final(board)@),
        extends(old(board)@, final(board)@),
        solved ==> complete(final(board)@),
        solved && consistent(old(board)@) ==> is_solution(final(board)@),
        !solved ==> !solvable(old(board)@),
        consistent(old(board)@) ==> (solved <==> solvable(old(board)@)),
    decreases empty_count(old(board)@),
{
    let ghost start = board@;
    if !board.reduce_constraints() {
        return false;
    }
    if board.find_empty().is_none() {
        proof {
            lemma_solved_is_witness(start, board@);
        }
        return true;
    }
    let ghost g = board@;
    match choose_branch_cell(board) {
        Choice::Filled => {
            proof {
                lemma_solved_is_witness(start, board@);
            }
            true
        },
        Choice::DeadEnd => {
            proof {
                let (r, c) = choose|r: int, c: int|
                    in_grid(r) && in_grid(c) && g[r][c] == 0 && candidate_values(g, r, c).len()
                        == 0;
                lemma_no_candidate_unsolvable(g, r, c);
                lemma_unsolvable_back(start, g);
            }
            false
        },
        Choice::Cell(r, c, mask) => {
            let candidates = Board::mask_to_vec(mask);
            proof {
                lemma_candidate_values(g, r as int, c as int);
            }
            let mut i: usize = 0;
            while i < candidates.len()
                invariant
                    board@ == g,
                    start == old(board)@,
                    well_formed(g),
                    r < 16,
                    c < 16,
                    g[r as int][c as int] == 0,
                    candidates@ == candidate_values(g, r as int, c as int),
                    empty_count(g) <= empty_count(start),
                    extends(start, g),
                    consistent(start) ==> consistent(g),
                    forall|s: Cells|
                        #![trigger is_solution(s), extends(g, s)]
                        is_solution(s) ==> (extends(start, s) <==> extends(g, s)),
                    i <= candidates.len(),
                    forall|j: int|
                        0 <= j < i ==> !solvable(
                            #[trigger] with_cell(g, r as int, c as int, candidates@[j] as int),
                        ),
                decreases candidates.len() - i,
            {
                let val = candidates[i];
                let mut next = *board;
                proof {
                    lemma_candidate_values(g, r as int, c as int);
                    assert(candidate_values(g, r as int, c as int)[i as int] == val);
                    assert(is_candidate(g, r as int, c as int, val as int));
                    lemma_fill_count(g, r as int, c as int, val as int);
                }
                next.grid[r][c] = val;
                proof {
                    assert(next@ =~= with_cell(g, r as int, c as int, val as int));
                }
                if solve(&mut next) {
                    proof {
                        let w = with_cell(g, r as int, c as int, val as int);
                        lemma_fill_extends(g, r as int, c as int, val as int);
                        lemma_extends_trans(g, w, next@);
                        lemma_extends_trans(start, g, next@);
                        if consistent(start) {
                            lemma_candidate_keeps_consistent(g, r as int, c as int, val as int);
                            lemma_solved_is_witness(start, next@);
                        }
                    }
                    *board = next;
                    return true;
                }
                i += 1;
            }
            proof {
                if solvable(g) {
                    let s = choose|s: Cells| is_solution(s) && extends(g, s);
                    lemma_solution_picks_candidate(g, s, r as int, c as int);
                    let j = choose|j: int|
                        0 <= j < candidates@.len() && candidates@[j] == s[r as int][c as int];
                    lemma_extends_with_cell(g, s, r as int, c as int);
                    assert(solvable(with_cell(g, r as int, c as int, candidates@[j] as int)));
                }
                lemma_unsolvable_back(start, g);
            }
            false
        },
    }
}

/// A complete grid free of repeats that keeps the filled cells of `g` shows
/// that `g` is solvable.
proof fn lemma_solved_is_witness(g: Cells, s: Cells)
    requires
        well_formed(s),
        complete(s),
        extends(g, s),
    ensures
        consistent(g) ==> consistent(s) ==> solvable(g),
{
    if consistent(g) && consistent(s) {
        assert(is_solution(s));
    }
}

/// Propagation keeps the solutions, so a propagated grid without solutions
/// comes from one without solutions.
proof fn lemma_unsolvable_back(g: Cells, h: Cells)
    requires
        !solvable(h),
        forall|s: Cells|
            #![trigger is_solution(s), extends(h, s)]
            is_solution(s) ==> (extends(g, s) <==> extends(h, s)),
    ensures
        !solvable(g),
{
    if solvable(g) {
        let s = choose|s: Cells| is_solution(s) && extends(g, s);
        assert(extends(h, s));
    }
}

} // verus!
