use vstd::prelude::*;

use crate::board::{
    Board, Cells, candidate_values, complete, consistent, extends, in_grid,
    is_solution, solvable, well_formed, with_cell,
};
use crate::lemmas::{
    lemma_candidate_keeps_consistent, lemma_candidate_values, lemma_extends_with_cell,
    lemma_fill_extends, lemma_extends_trans, lemma_no_candidate_unsolvable,
    lemma_solution_picks_candidate,
};
use crate::solver::{choose_branch_cell, is_mrv_cell, solve, Choice};

verus! {

/// How a search is split at its root into independent branches.
pub enum RootPlan {
    /// The board has no empty cell: it is its own result.
    Solved,
    /// An empty cell has no candidate: no branch can succeed.
    Unsolvable,
    /// One branch per candidate of the cell (row, column), ascending.
    Branch(usize, usize, Vec<u8>),
}

/// Plans the root split: the branching cell is the one that the
/// minimum-remaining-values scan picks, and each of its candidates is one
/// branch.
pub fn plan_root(board: &Board) -> (plan: RootPlan)
    requires
        well_formed(board@),
    ensures
        plan is Solved <==> complete(board@),
        plan is Unsolvable ==> !solvable(board@),
        plan matches RootPlan::Branch(r, c, cands) ==> {
            &&& is_mrv_cell(board@, r as int, c as int)
            &&& cands@ == candidate_values(board@, r as int, c as int)
        },
{
    if board.find_empty().is_none() {
        return RootPlan::Solved;
    }
    match choose_branch_cell(board) {
        Choice::Filled => RootPlan::Solved,
        Choice::DeadEnd => {
            proof {
                let g = board@;
                let (r, c) = choose|r: int, c: int|
                    in_grid(r) && in_grid(c) && g[r][c] == 0 && candidate_values(g, r, c).len()
                        == 0;
                lemma_no_candidate_unsolvable(g, r, c);
            }
            RootPlan::Unsolvable
        },
        Choice::Cell(r, c, mask) => RootPlan::Branch(r, c, Board::mask_to_vec(mask)),
    }
}

/// One branch of the root split: a copy of the board with `val` written
/// into cell (row, col), searched to the end by `solve`.
pub fn solve_branch(board: &Board, row: usize, col: usize, val: u8) -> (res: Option<Board>)
    requires
        well_formed(board@),
        row < 16,
        col < 16,
        1 <= val <= 16,
    ensures
        res matches Some(b) ==> {
            &&& well_formed(b@)
            &&& complete(b@)
            &&& extends(with_cell(board@, row as int, col as int, val as int), b@)
            &&& consistent(with_cell(board@, row as int, col as int, val as int)) ==> is_solution(
                b@,
            )
        },
        res is None ==> !solvable(with_cell(board@, row as int, col as int, val as int)),
        consistent(with_cell(board@, row as int, col as int, val as int)) ==> (res is Some
            <==> solvable(with_cell(board@, row as int, col as int, val as int))),
{
    let mut next = *board;
    next.grid[row][col] = val;
    proof {
        assert(next@ =~= with_cell(board@, row as int, col as int, val as int));
    }
    if solve(&mut next) {
        Some(next)
    } else {
        None
    }
}

/// Splitting at an empty cell of a board free of repeats loses no solution
/// and invents none: the board is solvable exactly when one of its branches,
/// the board with that cell set to one of its candidates, is solvable; and
/// each branch is itself free of repeats. Since `solve_branch` succeeds
/// exactly on solvable branches of such a board and `solve` exactly on
/// solvable boards, the split search and the sequential one agree on whether
/// a solution exists, whichever branch finishes first.
pub proof fn lemma_split_keeps_outcome(g: Cells, r: int, c: int)
    requires
        well_formed(g),
        consistent(g),
        in_grid(r),
        in_grid(c),
        g[r][c] == 0,
    ensures
        solvable(g) <==> exists|j: int|
            0 <= j < candidate_values(g, r, c).len() && solvable(
                #[trigger] with_cell(g, r, c, candidate_values(g, r, c)[j] as int),
            ),
        forall|j: int|
            0 <= j < candidate_values(g, r, c).len() ==> consistent(
                #[trigger] with_cell(g, r, c, candidate_values(g, r, c)[j] as int),
            ),
{
    let cands = candidate_values(g, r, c);
    lemma_candidate_values(g, r, c);
    assert forall|j: int| 0 <= j < cands.len() implies consistent(
        #[trigger] with_cell(g, r, c, cands[j] as int),
    ) by {
        lemma_candidate_keeps_consistent(g, r, c, cands[j] as int);
    }
    if solvable(g) {
        let s = choose|s: Cells| is_solution(s) && extends(g, s);
        lemma_solution_picks_candidate(g, s, r, c);
        let j = choose|j: int| 0 <= j < cands.len() && cands[j] == s[r][c];
        lemma_extends_with_cell(g, s, r, c);
        assert(solvable(with_cell(g, r, c, cands[j] as int)));
    }
    if exists|j: int|
        0 <= j < cands.len() && solvable(#[trigger] with_cell(g, r, c, cands[j] as int)) {
        let j = choose|j: int|
            0 <= j < cands.len() && solvable(#[trigger] with_cell(g, r, c, cands[j] as int));
        let w = with_cell(g, r, c, cands[j] as int);
        let s = choose|s: Cells| is_solution(s) && extends(w, s);
        lemma_fill_extends(g, r, c, cands[j] as int);
        lemma_extends_trans(g, w, s);
    }
}

} // verus!
