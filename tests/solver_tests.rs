use sudoku_par::board::{Board, SIZE};
use sudoku_par::metrics::{measure_time, parallel_efficiency, parallel_speedup, Ratio};
use sudoku_par::parallel::{plan_root, solve_branch, RootPlan};
use sudoku_par::parse::{parse_char, parse_token};
use sudoku_par::solver::{choose_branch_cell, solve, Choice};

fn solved_board() -> Board {
    let mut b = Board::new();
    for r in 0..SIZE {
        for c in 0..SIZE {
            b.grid[r][c] = ((4 * (r % 4) + r / 4 + c) % 16 + 1) as u8;
        }
    }
    b
}

fn is_valid_solution(b: &Board) -> bool {
    for i in 0..SIZE {
        let mut row = [false; 17];
        let mut col = [false; 17];
        let mut blk = [false; 17];
        for k in 0..SIZE {
            let vr = b.grid[i][k] as usize;
            let vc = b.grid[k][i] as usize;
            let vb = b.grid[(i / 4) * 4 + k / 4][(i % 4) * 4 + k % 4] as usize;
            for v in [vr, vc, vb] {
                if v == 0 || v > 16 {
                    return false;
                }
            }
            if row[vr] || col[vc] || blk[vb] {
                return false;
            }
            row[vr] = true;
            col[vc] = true;
            blk[vb] = true;
        }
    }
    true
}

fn keeps_givens(given: &Board, result: &Board) -> bool {
    for r in 0..SIZE {
        for c in 0..SIZE {
            if given.grid[r][c] != 0 && given.grid[r][c] != result.grid[r][c] {
                return false;
            }
        }
    }
    true
}

/// Row 0 lacks 1 and 2; columns 0 and 1 both hold a 2 further down, so both
/// empty cells of row 0 can only take 1.
fn contradiction_board() -> Board {
    let mut b = Board::new();
    for c in 2..SIZE {
        b.grid[0][c] = (c + 1) as u8;
    }
    b.grid[4][0] = 2;
    b.grid[8][1] = 2;
    b
}

fn parallel_outcome(board: &Board) -> Option<Board> {
    match plan_root(board) {
        RootPlan::Solved => Some(*board),
        RootPlan::Unsolvable => None,
        RootPlan::Branch(r, c, cands) => {
            cands.iter().find_map(|&v| solve_branch(board, r, c, v))
        }
    }
}

#[test]
fn new_board_is_empty() {
    let b = Board::new();
    assert!(b.grid.iter().all(|row| row.iter().all(|&v| v == 0)));
    assert_eq!(b.find_empty(), Some((0, 0)));
}

#[test]
fn find_empty_first_in_row_major_order() {
    let mut b = solved_board();
    assert_eq!(b.find_empty(), None);
    b.grid[3][7] = 0;
    b.grid[9][1] = 0;
    assert_eq!(b.find_empty(), Some((3, 7)));
}

#[test]
fn values_in_range_rejects_large_values() {
    let mut b = solved_board();
    assert!(b.values_in_range());
    b.grid[5][5] = 17;
    assert!(!b.values_in_range());
}

#[test]
fn mask_to_vec_lists_set_bits_ascending() {
    assert_eq!(Board::mask_to_vec(0), Vec::<u8>::new());
    assert_eq!(Board::mask_to_vec(0b101), vec![1, 3]);
    assert_eq!(Board::mask_to_vec(0x8001), vec![1, 16]);
    assert_eq!(Board::mask_to_vec(0xffff), (1..=16).collect::<Vec<u8>>());
}

#[test]
fn candidates_mask_excludes_row_column_and_block() {
    let mut b = Board::new();
    assert_eq!(b.candidates_mask(0, 0), 0xffff);
    b.grid[0][5] = 1; // same row
    b.grid[9][0] = 2; // same column
    b.grid[3][3] = 3; // same block
    b.grid[4][4] = 4; // unrelated
    assert_eq!(b.candidates_mask(0, 0), 0xffff & !0b111);
    assert_eq!(b.candidates_mask(0, 5), 0);
}

#[test]
fn candidates_mask_single_missing_value() {
    let mut b = solved_board();
    let v = b.grid[6][11];
    b.grid[6][11] = 0;
    assert_eq!(b.candidates_mask(6, 11), 1u16 << (v - 1));
}

#[test]
fn reduce_on_solved_grid_changes_nothing() {
    let mut b = solved_board();
    let before = b.grid;
    assert!(b.reduce_constraints());
    assert_eq!(b.grid, before);
    assert_eq!(b.find_empty(), None);
}

#[test]
fn solve_on_solved_grid_keeps_it() {
    let mut b = solved_board();
    let before = b.grid;
    assert!(solve(&mut b));
    assert_eq!(b.grid, before);
}

#[test]
fn reduce_restores_one_cleared_cell() {
    let full = solved_board();
    let mut b = full;
    b.grid[10][13] = 0;
    assert_eq!(Board::mask_to_vec(b.candidates_mask(10, 13)).len(), 1);
    assert!(b.reduce_constraints());
    assert_eq!(b.grid, full.grid);
}

#[test]
fn solve_restores_one_cleared_cell() {
    let full = solved_board();
    let mut b = full;
    b.grid[0][0] = 0;
    assert!(solve(&mut b));
    assert_eq!(b.grid, full.grid);
}

#[test]
fn reduce_reports_contradiction() {
    let mut b = contradiction_board();
    assert_eq!(b.candidates_mask(0, 0), 1);
    assert_eq!(b.candidates_mask(0, 1), 1);
    assert!(!b.reduce_constraints());
    assert_eq!(b.grid[0][0], 1);
    assert_eq!(b.candidates_mask(0, 1), 0);
}

#[test]
fn solve_fails_on_contradiction() {
    let mut b = contradiction_board();
    assert!(!solve(&mut b));
}

#[test]
fn parallel_plan_fails_on_contradiction() {
    let b = contradiction_board();
    assert!(parallel_outcome(&b).is_none());
}

#[test]
fn solve_fills_empty_grid() {
    let mut b = Board::new();
    assert!(solve(&mut b));
    assert!(is_valid_solution(&b));
}

#[test]
fn parallel_plan_fills_empty_grid() {
    let b = Board::new();
    let sol = parallel_outcome(&b).expect("a solution");
    assert!(is_valid_solution(&sol));
}

#[test]
fn plan_root_on_empty_grid_branches_on_all_values() {
    match plan_root(&Board::new()) {
        RootPlan::Branch(r, c, cands) => {
            assert_eq!((r, c), (0, 0));
            assert_eq!(cands, (1..=16).collect::<Vec<u8>>());
        }
        _ => panic!("expected a branch"),
    }
    assert!(matches!(plan_root(&solved_board()), RootPlan::Solved));
}

#[test]
fn plan_root_reports_dead_end() {
    let mut b = Board::new();
    for c in 1..SIZE {
        b.grid[0][c] = (c + 1) as u8;
    }
    b.grid[5][0] = 1;
    assert!(matches!(plan_root(&b), RootPlan::Unsolvable));
    assert!(matches!(choose_branch_cell(&b), Choice::DeadEnd));
}

#[test]
fn choose_branch_cell_prefers_fewest_candidates() {
    let mut b = Board::new();
    for c in 0..14 {
        b.grid[7][c] = (c + 1) as u8;
    }
    match choose_branch_cell(&b) {
        Choice::Cell(r, c, mask) => {
            assert_eq!((r, c), (7, 14));
            assert_eq!(Board::mask_to_vec(mask), vec![15, 16]);
        }
        _ => panic!("expected a cell"),
    }
    assert!(matches!(choose_branch_cell(&solved_board()), Choice::Filled));
}

#[test]
fn solve_branch_applies_value_then_solves() {
    let full = solved_board();
    let mut b = full;
    b.grid[2][2] = 0;
    b.grid[2][3] = 0;
    let right = full.grid[2][2];
    let sol = solve_branch(&b, 2, 2, right).expect("a solution");
    assert_eq!(sol.grid, full.grid);
    let wrong = full.grid[2][3];
    assert!(solve_branch(&b, 2, 2, wrong).is_none());
}

#[test]
fn solved_grid_rows_columns_blocks_hold_each_value_once() {
    let mut b = Board::new();
    b.grid[0][0] = 16;
    b.grid[15][15] = 1;
    assert!(solve(&mut b));
    assert!(is_valid_solution(&b));
    assert_eq!(b.grid[0][0], 16);
    assert_eq!(b.grid[15][15], 1);
}

#[test]
fn assignment_only_shrinks_other_masks() {
    let mut b = contradiction_board();
    let before: Vec<u16> = (0..256).map(|i| b.candidates_mask(i / 16, i % 16)).collect();
    b.grid[5][5] = 7;
    for i in 0..256 {
        let (r, c) = (i / 16, i % 16);
        if b.grid[r][c] == 0 {
            let after = b.candidates_mask(r, c);
            assert_eq!(after & !before[i], 0);
        }
    }
}

#[test]
fn reduce_twice_is_reduce_once() {
    let mut b = solved_board();
    for i in 0..40 {
        b.grid[(i * 7) % 16][(i * 5) % 16] = 0;
    }
    assert!(b.reduce_constraints());
    let once = b.grid;
    assert!(b.reduce_constraints());
    assert_eq!(b.grid, once);
}

#[test]
fn parallel_and_sequential_agree() {
    let full = solved_board();
    let mut b = full;
    for i in 0..60 {
        b.grid[(i * 3) % 16][(i * 11 + i / 16) % 16] = 0;
    }
    let mut seq = b;
    let s = solve(&mut seq);
    let p = parallel_outcome(&b);
    assert!(s);
    assert_eq!(s, p.is_some());
    assert!(keeps_givens(&b, &p.unwrap()));
    let bad = contradiction_board();
    let mut seq_bad = bad;
    assert_eq!(solve(&mut seq_bad), parallel_outcome(&bad).is_some());
}

#[test]
fn parse_char_values() {
    assert_eq!(parse_char('.'), Some(0));
    assert_eq!(parse_char('0'), Some(0));
    assert_eq!(parse_char('7'), Some(7));
    assert_eq!(parse_char('A'), Some(10));
    assert_eq!(parse_char('g'), Some(16));
    assert_eq!(parse_char('H'), None);
    assert_eq!(parse_char('#'), None);
}

#[test]
fn parse_token_values() {
    assert_eq!(parse_token("."), Some(0));
    assert_eq!(parse_token("0"), Some(0));
    assert_eq!(parse_token("F"), Some(15));
    assert_eq!(parse_token("12"), Some(12));
    assert_eq!(parse_token("16"), Some(16));
    assert_eq!(parse_token("+9"), Some(9));
    assert_eq!(parse_token("17"), None);
    assert_eq!(parse_token("300"), None);
    assert_eq!(parse_token("1x"), None);
    assert_eq!(parse_token(""), None);
}

#[test]
fn speedup_ratio() {
    assert_eq!(parallel_speedup(300, 100), Ratio { num: 300, den: 100 });
    assert_eq!(parallel_speedup(300, 0), Ratio { num: 0, den: 1 });
}

#[test]
fn efficiency_ratio_and_bounds() {
    assert_eq!(parallel_efficiency(300, 100, 4), Ratio { num: 300, den: 400 });
    assert_eq!(parallel_efficiency(500, 100, 4), Ratio { num: 1, den: 1 });
    assert_eq!(parallel_efficiency(300, 0, 4), Ratio { num: 0, den: 1 });
    assert_eq!(parallel_efficiency(300, 100, 0), Ratio { num: 0, den: 1 });
    for (s, p, k) in [(1u64, 1u64, 1u64), (10, 3, 2), (u64::MAX, 1, 1), (7, u64::MAX, u64::MAX)] {
        let e = parallel_efficiency(s, p, k);
        assert!(e.den > 0 && e.num <= e.den);
    }
}

#[test]
fn measure_time_returns_result() {
    let (v, _elapsed) = measure_time(|| 6 * 7);
    assert_eq!(v, 42);
}
