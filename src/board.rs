use vstd::prelude::*;

use crate::lemmas::{
    lemma_candidate_keeps_consistent, lemma_candidate_values, lemma_fill_count,
    lemma_forced_keeps_solutions, lemma_no_candidate_unsolvable,
};

verus! {

/// Side length of the grid.
pub const SIZE: usize = 16;

/// Side length of one block.
pub const BLOCK: usize = 4;

/// The cells of a grid, row by row; 0 marks an empty cell.
pub type Cells = Seq<Seq<u8>>;

pub open spec fn in_grid(i: int) -> bool {
    0 <= i < 16
}

/// Two cells share a row, a column or a block.
pub open spec fn same_unit(r1: int, c1: int, r2: int, c2: int) -> bool {
    r1 == r2 || c1 == c2 || (r1 / 4 == r2 / 4 && c1 / 4 == c2 / 4)
}

/// 16 rows of 16 cells, each holding 0 or a value in 1..=16.
pub open spec fn well_formed(g: Cells) -> bool {
    &&& g.len() == 16
    &&& forall|r: int| #![trigger g[r]] in_grid(r) ==> g[r].len() == 16
    &&& forall|r: int, c: int| in_grid(r) && in_grid(c) ==> g[r][c] <= 16
}

/// `v` is absent from the row, the column and the block of cell (r, c).
pub open spec fn is_candidate(g: Cells, r: int, c: int, v: int) -> bool {
    &&& 1 <= v <= 16
    &&& forall|r2: int, c2: int|
        in_grid(r2) && in_grid(c2) && same_unit(r, c, r2, c2) ==> g[r2][c2] != v
}

/// No nonzero value repeats within a row, a column or a block.
pub open spec fn consistent(g: Cells) -> bool {
    forall|r1: int, c1: int, r2: int, c2: int|
        #![trigger g[r1][c1], g[r2][c2]]
        in_grid(r1) && in_grid(c1) && in_grid(r2) && in_grid(c2) && (r1 != r2 || c1 != c2)
            && same_unit(r1, c1, r2, c2) && g[r1][c1] != 0 ==> g[r1][c1] != g[r2][c2]
}

/// No cell is empty.
pub open spec fn complete(g: Cells) -> bool {
    forall|r: int, c: int| in_grid(r) && in_grid(c) ==> g[r][c] != 0
}

/// A filled grid that breaks no row, column or block rule.
pub open spec fn is_solution(s: Cells) -> bool {
    well_formed(s) && complete(s) && consistent(s)
}

/// `s` keeps every filled cell of `g`.
pub open spec fn extends(g: Cells, s: Cells) -> bool {
    forall|r: int, c: int| in_grid(r) && in_grid(c) && g[r][c] != 0 ==> s[r][c] == g[r][c]
}

/// Some solution keeps every filled cell of `g`.
pub open spec fn solvable(g: Cells) -> bool {
    exists|s: Cells| is_solution(s) && extends(g, s)
}

/// `g` with value `v` written into cell (r, c).
pub open spec fn with_cell(g: Cells, r: int, c: int, v: int) -> Cells {
    g.update(r, g[r].update(c, v as u8))
}

/// The candidates of cell (r, c) among 1..=n, ascending.
pub open spec fn candidates_below(g: Cells, r: int, c: int, n: int) -> Seq<u8>
    decreases n,
{
    if n <= 0 {
        seq![]
    } else {
        candidates_below(g, r, c, n - 1) + if is_candidate(g, r, c, n) {
            seq![n as u8]
        } else {
            seq![]
        }
    }
}

/// The candidates of cell (r, c), ascending.
pub open spec fn candidate_values(g: Cells, r: int, c: int) -> Seq<u8> {
    candidates_below(g, r, c, 16)
}

/// Every empty cell has at least two candidates: propagation has nothing to do.
pub open spec fn settled(g: Cells) -> bool {
    forall|r: int, c: int|
        in_grid(r) && in_grid(c) && g[r][c] == 0 ==> candidate_values(g, r, c).len() >= 2
}

/// Some empty cell has no candidate left.
pub open spec fn stuck(g: Cells) -> bool {
    exists|r: int, c: int|
        in_grid(r) && in_grid(c) && g[r][c] == 0 && candidate_values(g, r, c).len() == 0
}

/// The number of empty cells among the first `n` cells in row-major order.
pub open spec fn empty_below(g: Cells, n: int) -> nat
    decreases n,
{
    if n <= 0 {
        0
    } else {
        empty_below(g, n - 1) + if g[(n - 1) / 16][(n - 1) % 16] == 0 {
            1nat
        } else {
            0nat
        }
    }
}

/// The number of empty cells.
pub open spec fn empty_count(g: Cells) -> nat {
    empty_below(g, 256)
}

/// Bit `i` of `m` is set.
pub open spec fn has_bit(m: u16, i: u16) -> bool {
    (m >> i) & 1u16 == 1u16
}

/// The values v in 1..=n whose bit v - 1 is set in `m`, ascending.
pub open spec fn mask_values_below(m: u16, n: int) -> Seq<u8>
    decreases n,
{
    if n <= 0 {
        seq![]
    } else {
        mask_values_below(m, n - 1) + if has_bit(m, (n - 1) as u16) {
            seq![n as u8]
        } else {
            seq![]
        }
    }
}

/// The values that mask `m` holds, ascending.
pub open spec fn mask_values(m: u16) -> Seq<u8> {
    mask_values_below(m, 16)
}

/// The grid with no value in any cell.
pub open spec fn empty_grid() -> Cells {
    Seq::new(16, |r: int| Seq::new(16, |c: int| 0u8))
}

/// A 16x16 grid; 0 marks an empty cell.
#[derive(Clone, Copy, Debug)]
pub struct Board {
    pub grid: [[u8; SIZE]; SIZE],
}

impl View for Board {
    type V = Cells;

    open spec fn view(&self) -> Cells {
        Seq::new(16, |r: int| self.grid[r]@)
    }
}

impl Board {
    /// An empty board.
    pub fn new() -> (b: Self)
        ensures
            b@ == empty_grid(),
            well_formed(b@),
            forall|r: int, c: int| in_grid(r) && in_grid(c) ==> b@[r][c] == 0,
    {
        let b = Self { grid: [[0u8; SIZE]; SIZE] };
        assert(b@ =~= empty_grid()) by {
            assert forall|r: int| 0 <= r < 16 implies b@[r] =~= empty_grid()[r] by {}
        }
        b
    }

    /// Every cell holds 0 or a value in 1..=16.
    pub fn values_in_range(&self) -> (ok: bool)
        ensures
            ok == well_formed(self@),
    {
        let mut r: usize = 0;
        while r < SIZE
            invariant
                r <= 16,
                forall|r2: int, c2: int| 0 <= r2 < r && in_grid(c2) ==> self@[r2][c2] <= 16,
            decreases 16 - r,
        {
            let mut c: usize = 0;
            while c < SIZE
                invariant
                    r < 16,
                    c <= 16,
                    forall|r2: int, c2: int| 0 <= r2 < r && in_grid(c2) ==> self@[r2][c2] <= 16,
                    forall|c2: int| 0 <= c2 < c ==> self@[r as int][c2] <= 16,
                decreases 16 - c,
            {
                if self.grid[r][c] > 16 {
                    assert(self@[r as int][c as int] > 16);
                    return false;
                }
                c += 1;
            }
            r += 1;
        }
        true
    }

    /// The first empty cell in row-major order, or `None` when every cell is filled.
    pub fn find_empty(&self) -> (res: Option<(usize, usize)>)
        ensures
            res is None ==> complete(self@),
            res matches Some((r, c)) ==> {
                &&& r < 16 && c < 16
                &&& self@[r as int][c as int] == 0
                &&& forall|r2: int, c2: int|
                    in_grid(r2) && in_grid(c2) && (r2 < r || (r2 == r && c2 < c))
                        ==> self@[r2][c2] != 0
            },
    {
        let mut r: usize = 0;
        while r < SIZE
            invariant
                r <= 16,
                forall|r2: int, c2: int| 0 <= r2 < r && in_grid(c2) ==> self@[r2][c2] != 0,
            decreases 16 - r,
        {
            let mut c: usize = 0;
            while c < SIZE
                invariant
                    r < 16,
                    c <= 16,
                    forall|r2: int, c2: int| 0 <= r2 < r && in_grid(c2) ==> self@[r2][c2] != 0,
                    forall|c2: int| 0 <= c2 < c ==> self@[r as int][c2] != 0,
                decreases 16 - c,
            {
                if self.grid[r][c] == 0 {
                    return Some((r, c));
                }
                c += 1;
            }
            r += 1;
        }
        None
    }

    /// The mask of the candidates of cell (row, col): bit v - 1 is set when
    /// value v is absent from the cell's row, column and block. A filled cell
    /// gets the empty mask.
    pub fn candidates_mask(&self, row: usize, col: usize) -> (m: u16)
        requires
            well_formed(self@),
            row < 16,
            col < 16,
        ensures
            self@[row as int][col as int] != 0 ==> m == 0,
            self@[row as int][col as int] == 0 ==> {
                &&& forall|i: u16|
                    i < 16 ==> (has_bit(m, i) <==> is_candidate(
                        self@,
                        row as int,
                        col as int,
                        i + 1,
                    ))
                &&& mask_values(m) == candidate_values(self@, row as int, col as int)
            },
    {
        if self.grid[row][col] != 0 {
            return 0;
        }
        let ghost g = self@;
        let mut used: u16 = 0;
        proof {
            lemma_no_bits();
        }
        let mut c: usize = 0;
        while c < SIZE
            invariant
                well_formed(g),
                g == self@,
                row < 16,
                c <= 16,
                forall|i: u16|
                    i < 16 ==> (has_bit(used, i) <==> exists|k: int|
                        0 <= k < c && g[row as int][k] == i + 1),
            decreases 16 - c,
        {
            let v = self.grid[row][c];
            assert(g[row as int][c as int] == v);
            if v != 0 {
                let k: u16 = (v - 1) as u16;
                let ghost prev = used;
                used = used | (1u16 << k);
                proof {
                    lemma_set_bit(prev, k, used);
                }
            }
            c += 1;
        }
        let mut r: usize = 0;
        while r < SIZE
            invariant
                well_formed(g),
                g == self@,
                row < 16,
                col < 16,
                r <= 16,
                forall|i: u16|
                    i < 16 ==> (has_bit(used, i) <==> (exists|k: int|
                        0 <= k < 16 && g[row as int][k] == i + 1) || (exists|k: int|
                        0 <= k < r && g[k][col as int] == i + 1)),
            decreases 16 - r,
        {
            let v = self.grid[r][col];
            assert(g[r as int][col as int] == v);
            if v != 0 {
                let k: u16 = (v - 1) as u16;
                let ghost prev = used;
                used = used | (1u16 << k);
                proof {
                    lemma_set_bit(prev, k, used);
                }
            }
            r += 1;
        }
        let br = (row / BLOCK) * BLOCK;
        let bc = (col / BLOCK) * BLOCK;
        let mut r: usize = br;
        while r < br + BLOCK
            invariant
                well_formed(g),
                g == self@,
                row < 16,
                col < 16,
                br == (row / 4) * 4,
                bc == (col / 4) * 4,
                br + 4 <= 16,
                bc + 4 <= 16,
                br <= r <= br + 4,
                forall|i: u16|
                    i < 16 ==> (has_bit(used, i) <==> (exists|k: int|
                        0 <= k < 16 && g[row as int][k] == i + 1) || (exists|k: int|
                        0 <= k < 16 && g[k][col as int] == i + 1) || (exists|r2: int, c2: int|
                        br <= r2 < r && bc <= c2 < bc + 4 && g[r2][c2] == i + 1)),
            decreases br + 4 - r,
        {
            let mut c: usize = bc;
            while c < bc + BLOCK
                invariant
                    well_formed(g),
                    g == self@,
                    row < 16,
                    col < 16,
                    br == (row / 4) * 4,
                    bc == (col / 4) * 4,
                    br + 4 <= 16,
                    bc + 4 <= 16,
                    br <= r < br + 4,
                    bc <= c <= bc + 4,
                    forall|i: u16|
                        i < 16 ==> (has_bit(used, i) <==> (exists|k: int|
                            0 <= k < 16 && g[row as int][k] == i + 1) || (exists|k: int|
                            0 <= k < 16 && g[k][col as int] == i + 1) || (exists|
                            r2: int,
                            c2: int,
                        |
                            br <= r2 < r && bc <= c2 < bc + 4 && g[r2][c2] == i + 1) || (exists|
                            c2: int,
                        |
                            bc <= c2 < c && g[r as int][c2] == i + 1)),
                decreases bc + 4 - c,
            {
                let v = self.grid[r][c];
                assert(g[r as int][c as int] == v);
                if v != 0 {
                    let k: u16 = (v - 1) as u16;
                    let ghost prev = used;
                    used = used | (1u16 << k);
                    proof {
                        lemma_set_bit(prev, k, used);
                    }
                }
                c += 1;
            }
            r += 1;
        }
        let m = !used;
        proof {
            lemma_block_member(row as int);
            lemma_block_member(col as int);
            assert forall|i: u16| i < 16 implies (has_bit(m, i) <==> is_candidate(
                g,
                row as int,
                col as int,
                i + 1,
            )) by {
                lemma_not_bit(used, i);
                let v = i + 1;
                if has_bit(m, i) {
                    assert forall|r2: int, c2: int|
                        in_grid(r2) && in_grid(c2) && same_unit(
                            row as int,
                            col as int,
                            r2,
                            c2,
                        ) implies g[r2][c2] != v by {
                        if r2 == row {
                            assert(!(0 <= c2 < 16 && g[row as int][c2] == v));
                        } else if c2 == col {
                            assert(!(0 <= r2 < 16 && g[r2][col as int] == v));
                        } else {
                            assert(br <= r2 < br + 4 && bc <= c2 < bc + 4);
                            assert(!(br <= r2 < br + 4 && bc <= c2 < bc + 4 && g[r2][c2] == v));
                        }
                    }
                } else {
                    if exists|k: int| 0 <= k < 16 && g[row as int][k] == v {
                        let k = choose|k: int| 0 <= k < 16 && g[row as int][k] == v;
                        assert(same_unit(row as int, col as int, row as int, k));
                    } else if exists|k: int| 0 <= k < 16 && g[k][col as int] == v {
                        let k = choose|k: int| 0 <= k < 16 && g[k][col as int] == v;
                        assert(same_unit(row as int, col as int, k, col as int));
                    } else {
                        let (r2, c2) = choose|r2: int, c2: int|
                            br <= r2 < br + 4 && bc <= c2 < bc + 4 && g[r2][c2] == v;
                        assert(same_unit(row as int, col as int, r2, c2));
                    }
                }
            }
            lemma_mask_matches(m, g, row as int, col as int, 16);
        }
        m
    }

    /// The values held by `mask`, ascending: value v for each set bit v - 1.
    pub fn mask_to_vec(mask: u16) -> (v: Vec<u8>)
        ensures
            v@ == mask_values(mask),
    {
        let mut v: Vec<u8> = Vec::new();
        let mut i: usize = 0;
        while i < SIZE
            invariant
                i <= 16,
                v@ == mask_values_below(mask, i as int),
            decreases 16 - i,
        {
            let k: u16 = i as u16;
            proof {
                lemma_test_bit(mask, k);
            }
            if (mask & (1u16 << k)) != 0 {
                v.push((i + 1) as u8);
            }
            proof {
                assert(v@ =~= mask_values_below(mask, i + 1));
            }
            i += 1;
        }
        v
    }

    /// Propagation to a fixed point: fills, pass after pass in row-major
    /// order, each empty cell that has exactly one candidate. Returns false
    /// as soon as an empty cell without candidates is met, and true once a
    /// full pass changes nothing. Every fill is forced, so the solutions that
    /// keep the board's filled cells are the same before and after.
    pub fn reduce_constraints(&mut self) -> (ok: bool)
        requires
            well_formed(old(self)@),
        ensures
            well_formed(final(self)@),
            extends(old(self)@, final(self)@),
            forall|s: Cells|
                #![trigger is_solution(s), extends(final(self)@, s)]
                is_solution(s) ==> (extends(old(self)@, s) <==> extends(final(self)@, s)),
            consistent(old(self)@) ==> consistent(final(self)@),
            empty_count(final(self)@) <= empty_count(old(self)@),
            ok ==> settled(final(self)@),
            !ok ==> stuck(final(self)@),
            !ok ==> !solvable(old(self)@),
            settled(old(self)@) ==> ok && final(self)@ == old(self)@,
    {
        let ghost start = self@;
        loop
            invariant
                well_formed(self@),
                start == old(self)@,
                extends(start, self@),
                forall|s: Cells|
                    #![trigger is_solution(s), extends(self@, s)]
                    is_solution(s) ==> (extends(start, s) <==> extends(self@, s)),
                consistent(start) ==> consistent(self@),
                empty_count(self@) <= empty_count(start),
                settled(start) ==> self@ == start,
            ensures
                well_formed(self@),
                extends(start, self@),
                forall|s: Cells|
                    #![trigger is_solution(s), extends(self@, s)]
                    is_solution(s) ==> (extends(start, s) <==> extends(self@, s)),
                consistent(start) ==> consistent(self@),
                empty_count(self@) <= empty_count(start),
                settled(self@),
                settled(start) ==> self@ == start,
            decreases empty_count(self@),
        {
            let ghost pass_start = self@;
            let mut changed = false;
            let mut r: usize = 0;
            while r < SIZE
                invariant
                    r <= 16,
                    well_formed(self@),
                    start == old(self)@,
                    extends(start, self@),
                    forall|s: Cells|
                        #![trigger is_solution(s), extends(self@, s)]
                        is_solution(s) ==> (extends(start, s) <==> extends(self@, s)),
                    consistent(start) ==> consistent(self@),
                    empty_count(self@) <= empty_count(pass_start),
                    empty_count(pass_start) <= empty_count(start),
                    changed ==> empty_count(self@) < empty_count(pass_start),
                    !changed ==> self@ == pass_start,
                    !changed ==> forall|r2: int, c2: int|
                        0 <= r2 < r && in_grid(c2) && self@[r2][c2] == 0 ==> candidate_values(
                            self@,
                            r2,
                            c2,
                        ).len() >= 2,
                    settled(start) ==> self@ == start && pass_start == start && !changed,
                decreases 16 - r,
            {
                let mut c: usize = 0;
                while c < SIZE
                    invariant
                        r < 16,
                        c <= 16,
                        well_formed(self@),
                        start == old(self)@,
                        extends(start, self@),
                        forall|s: Cells|
                            #![trigger is_solution(s), extends(self@, s)]
                            is_solution(s) ==> (extends(start, s) <==> extends(self@, s)),
                        consistent(start) ==> consistent(self@),
                        empty_count(self@) <= empty_count(pass_start),
                        empty_count(pass_start) <= empty_count(start),
                        changed ==> empty_count(self@) < empty_count(pass_start),
                        !changed ==> self@ == pass_start,
                        !changed ==> forall|r2: int, c2: int|
                            in_grid(r2) && in_grid(c2) && (r2 < r || (r2 == r && c2 < c))
                                && self@[r2][c2] == 0 ==> candidate_values(self@, r2, c2).len()
                                >= 2,
                        settled(start) ==> self@ == start && pass_start == start && !changed,
                    decreases 16 - c,
                {
                    if self.grid[r][c] == 0 {
                        let mask = self.candidates_mask(r, c);
                        let vals = Board::mask_to_vec(mask);
                        if vals.len() == 0 {
                            proof {
                                lemma_no_candidate_unsolvable(self@, r as int, c as int);
                                if solvable(start) {
                                    let s = choose|s: Cells| is_solution(s) && extends(start, s);
                                    assert(extends(self@, s));
                                }
                            }
                            return false;
                        }
                        if vals.len() == 1 {
                            let val = vals[0];
                            let ghost before = self@;
                            proof {
                                lemma_candidate_values(before, r as int, c as int);
                                assert(is_candidate(before, r as int, c as int, val as int));
                                lemma_forced_keeps_solutions(before, r as int, c as int);
                                lemma_fill_count(before, r as int, c as int, val as int);
                                if consistent(start) {
                                    lemma_candidate_keeps_consistent(
                                        before,
                                        r as int,
                                        c as int,
                                        val as int,
                                    );
                                }
                            }
                            self.grid[r][c] = val;
                            proof {
                                assert(self@ =~= with_cell(before, r as int, c as int, val as int));
                                lemma_candidate_keeps_wf(before, r as int, c as int, val as int);
                                assert forall|s: Cells| is_solution(s) implies (extends(start, s)
                                    <==> extends(self@, s)) by {
                                    assert(extends(start, s) <==> extends(before, s));
                                    assert(extends(before, s) <==> extends(self@, s));
                                }
                            }
                            changed = true;
                        }
                    }
                    c += 1;
                }
                r += 1;
            }
            if !changed {
                break;
            }
        }
        true
    }
}

/// Writing a value in 1..=16 keeps the grid's shape and range.
proof fn lemma_candidate_keeps_wf(g: Cells, r: int, c: int, v: int)
    requires
        well_formed(g),
        in_grid(r),
        in_grid(c),
        1 <= v <= 16,
    ensures
        well_formed(with_cell(g, r, c, v)),
{
}

proof fn lemma_no_bits()
    ensures
        forall|i: u16| i < 16 ==> !has_bit(0u16, i),
{
    assert forall|i: u16| i < 16 implies !has_bit(0u16, i) by {
        assert(((0u16 >> i) & 1u16) != 1u16) by (bit_vector);
    }
}

proof fn lemma_set_bit_at(m: u16, k: u16, m2: u16, i: u16)
    by (bit_vector)
    requires
        k < 16,
        i < 16,
        m2 == m | (1u16 << k),
    ensures
        ((m2 >> i) & 1u16 == 1u16) <==> (((m >> i) & 1u16 == 1u16) || i == k),
{
}

/// Setting bit `k` of `m` gives `m2`.
proof fn lemma_set_bit(m: u16, k: u16, m2: u16)
    requires
        k < 16,
        m2 == m | (1u16 << k),
    ensures
        forall|i: u16| i < 16 ==> (has_bit(m2, i) <==> (has_bit(m, i) || i == k)),
{
    assert forall|i: u16| i < 16 implies (has_bit(m2, i) <==> (has_bit(m, i) || i == k)) by {
        lemma_set_bit_at(m, k, m2, i);
    }
}

proof fn lemma_not_bit(m: u16, i: u16)
    requires
        i < 16,
    ensures
        has_bit(!m, i) <==> !has_bit(m, i),
{
    assert(((!m >> i) & 1u16 == 1u16) <==> !((m >> i) & 1u16 == 1u16)) by (bit_vector)
        requires
            i < 16,
    ;
}

proof fn lemma_test_bit(m: u16, i: u16)
    requires
        i < 16,
    ensures
        ((m & (1u16 << i)) != 0) <==> has_bit(m, i),
{
    assert(((m & (1u16 << i)) != 0) <==> ((m >> i) & 1u16 == 1u16)) by (bit_vector)
        requires
            i < 16,
    ;
}

/// The block of index `x` spans (x / 4) * 4 up to four more.
proof fn lemma_block_member(x: int)
    requires
        in_grid(x),
    ensures
        0 <= (x / 4) * 4 <= x < (x / 4) * 4 + 4 <= 16,
        forall|y: int| in_grid(y) ==> ((x / 4 == y / 4) <==> ((x / 4) * 4 <= y < (x / 4) * 4 + 4)),
{
}

/// A mask that holds exactly the candidates of a cell lists them in the same order.
proof fn lemma_mask_matches(m: u16, g: Cells, r: int, c: int, n: int)
    requires
        0 <= n <= 16,
        forall|i: u16| i < 16 ==> (has_bit(m, i) <==> is_candidate(g, r, c, i + 1)),
    ensures
        mask_values_below(m, n) == candidates_below(g, r, c, n),
    decreases n,
{
    if n > 0 {
        lemma_mask_matches(m, g, r, c, n - 1);
        assert(has_bit(m, (n - 1) as u16) <==> is_candidate(g, r, c, n));
    }
}

} // verus!
