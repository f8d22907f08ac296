//! The board engine: construction, deferred mine placement, flag toggling,
//! the flood-fill reveal with chording, and win/loss detection.

use vstd::prelude::*;

use rand::seq::SliceRandom;

use crate::cells::{
    adjacent, all_safe_revealed, clamped_mines, counts_correct, eligible_cells, eligible_index,
    flag_at, has_openable_mine_nbr, idx, in_grid, in_zone, lemma_counts_correct_preserved,
    lemma_idx_bounds, lemma_idx_injective, lemma_nbr_mines_congruence,
    lemma_no_adjacent_mine, lemma_openable_mine_nbr_elim, lemma_openable_mine_nbr_intro, mine_at,
    nbr_flags, nbr_mines, openable_mine_at, zone_hi, zone_lo, Cell, GameState, Visibility,
    cascade_source, closed_cells_upto, in_zero_region, in_zero_region_n,
    lemma_closed_cells_bounds, lemma_closed_cells_update, lemma_zero_region_open,
    lemma_zero_region_step, zero_cascade_opens,
};
use crate::counting::{
    count_upto, lemma_count_bounds, lemma_count_distinct_seq, lemma_count_equiv,
    lemma_count_update, lemma_count_zero, span_below,
};

verus! {

/// A Minesweeper board: a flat `size * size` grid of cells plus the game
/// counters and lifecycle state.
pub struct Board {
    pub cells: Vec<Cell>,
    pub size: usize,
    pub mine_count: usize,
    pub flags_placed: usize,
    pub state: GameState,
}

impl Board {
    /// The number of flagged cells on the grid.
    pub open spec fn flags_total(self) -> int {
        count_upto(
            |k: int| self.cells@[k].visibility == Visibility::Flagged,
            self.cells@.len() as int,
        )
    }

    /// Every cell's stored neighbor count matches the true count of adjacent
    /// mines.
    pub open spec fn counts_ok(self) -> bool {
        counts_correct(self.cells@, self.size as int)
    }

    /// A board fresh out of construction: closed everywhere, no mines.
    pub open spec fn pristine(self) -> bool {
        forall|k: int|
            0 <= k < self.cells@.len() ==> (!self.cells@[k].is_mine && self.cells@[k].visibility
                == Visibility::Closed && self.cells@[k].neighbor_mine_count == 0)
    }

    /// The board invariant every public operation preserves.
    pub open spec fn wf(self) -> bool {
        &&& 1 <= self.size
        &&& self.size * self.size <= usize::MAX
        &&& self.cells@.len() == self.size * self.size
        &&& self.flags_placed == self.flags_total()
        &&& self.flags_placed <= self.mine_count
        &&& self.counts_ok()
    }

    /// The cell at `(r, c)`.
    pub open spec fn cell_at(self, r: int, c: int) -> Cell {
        self.cells@[idx(self.size as int, r, c)]
    }

    /// A fresh board: everything closed, no mines yet, counters at zero.
    pub fn new(size: usize, mine_count: usize) -> (board: Board)
        requires
            1 <= size,
            size * size <= usize::MAX,
        ensures
            board.wf(),
            board.size == size,
            board.mine_count == mine_count,
            board.flags_placed == 0,
            board.state == GameState::Init,
            board.pristine(),
    {
        let total = size * size;
        let mut cells: Vec<Cell> = Vec::new();
        let mut i: usize = 0;
        while i < total
            invariant
                i <= total,
                cells@.len() == i,
                forall|k: int|
                    0 <= k < i ==> (!cells@[k].is_mine && cells@[k].visibility
                        == Visibility::Closed && cells@[k].neighbor_mine_count == 0),
            decreases total - i,
        {
            cells.push(
                Cell { is_mine: false, visibility: Visibility::Closed, neighbor_mine_count: 0 },
            );
            i = i + 1;
        }
        let board = Board { cells, size, mine_count, flags_placed: 0, state: GameState::Init };
        proof {
            lemma_count_zero(
                |k: int| board.cells@[k].visibility == Visibility::Flagged,
                board.cells@.len() as int,
            );
            assert forall|r: int, c: int| true implies #[trigger] mine_at(
                board.cells@,
                size as int,
                r,
                c,
            ) == 0 by {
                if in_grid(size as int, r, c) {
                    lemma_idx_bounds(size as int, r, c);
                }
            }
            assert forall|r: int, c: int| in_grid(size as int, r, c) implies #[trigger] board.cells@[idx(
                size as int,
                r,
                c,
            )].neighbor_mine_count == nbr_mines(board.cells@, size as int, r, c) by {
                lemma_idx_bounds(size as int, r, c);
            }
        }
        board
    }

    /// The number of mined cells on the grid.
    pub open spec fn mines_total(self) -> int {
        count_upto(|k: int| self.cells@[k].is_mine, self.cells@.len() as int)
    }

    /// One when the cell at `(r, c)` holds a mine, zero otherwise.
    fn mine_term(&self, r: usize, c: usize) -> (m: usize)
        requires
            1 <= self.size,
            self.size * self.size <= usize::MAX,
            self.cells@.len() == self.size * self.size,
            r < self.size,
            c < self.size,
        ensures
            m as int == mine_at(self.cells@, self.size as int, r as int, c as int),
    {
        proof {
            lemma_idx_bounds(self.size as int, r as int, c as int);
        }
        if self.cells[r * self.size + c].is_mine {
            1
        } else {
            0
        }
    }

    /// The number of mines among the up-to-eight neighbors of `(r, c)`.
    fn count_adjacent_mines(&self, r: usize, c: usize) -> (n: usize)
        requires
            1 <= self.size,
            self.size * self.size <= usize::MAX,
            self.cells@.len() == self.size * self.size,
            r < self.size,
            c < self.size,
        ensures
            n as int == nbr_mines(self.cells@, self.size as int, r as int, c as int),
    {
        let size = self.size;
        let mut n: usize = 0;
        if r > 0 {
            if c > 0 {
                n = n + self.mine_term(r - 1, c - 1);
            }
            n = n + self.mine_term(r - 1, c);
            if c + 1 < size {
                n = n + self.mine_term(r - 1, c + 1);
            }
        }
        if c > 0 {
            n = n + self.mine_term(r, c - 1);
        }
        if c + 1 < size {
            n = n + self.mine_term(r, c + 1);
        }
        if r + 1 < size {
            if c > 0 {
                n = n + self.mine_term(r + 1, c - 1);
            }
            n = n + self.mine_term(r + 1, c);
            if c + 1 < size {
                n = n + self.mine_term(r + 1, c + 1);
            }
        }
        n
    }

    /// Derive every cell's neighbor-mine count from the mine layout.
    fn compute_counts(&mut self)
        requires
            1 <= old(self).size,
            old(self).size * old(self).size <= usize::MAX,
            old(self).cells@.len() == old(self).size * old(self).size,
        ensures
            final(self).size == old(self).size,
            final(self).mine_count == old(self).mine_count,
            final(self).flags_placed == old(self).flags_placed,
            final(self).state == old(self).state,
            final(self).cells@.len() == old(self).cells@.len(),
            forall|k: int|
                0 <= k < final(self).cells@.len() ==> #[trigger] final(self).cells@[k].is_mine
                    == old(self).cells@[k].is_mine,
            forall|k: int|
                0 <= k < final(self).cells@.len() ==> #[trigger] final(self).cells@[k].visibility
                    == old(self).cells@[k].visibility,
            final(self).counts_ok(),
    {
        let size = self.size;
        let mut r: usize = 0;
        while r < size
            invariant
                r <= size,
                size == self.size,
                1 <= size,
                size * size <= usize::MAX,
                self.mine_count == old(self).mine_count,
                self.flags_placed == old(self).flags_placed,
                self.state == old(self).state,
                self.cells@.len() == old(self).cells@.len(),
                self.cells@.len() == size * size,
                forall|k: int|
                    0 <= k < self.cells@.len() ==> #[trigger] self.cells@[k].is_mine == old(
                        self,
                    ).cells@[k].is_mine,
                forall|k: int|
                    0 <= k < self.cells@.len() ==> #[trigger] self.cells@[k].visibility == old(
                        self,
                    ).cells@[k].visibility,
                forall|r2: int, c2: int|
                    in_grid(size as int, r2, c2) && r2 < r ==> #[trigger] self.cells@[idx(
                        size as int,
                        r2,
                        c2,
                    )].neighbor_mine_count == nbr_mines(self.cells@, size as int, r2, c2),
            decreases size - r,
        {
            let mut c: usize = 0;
            while c < size
                invariant
                    r < size,
                    c <= size,
                    size == self.size,
                    1 <= size,
                    size * size <= usize::MAX,
                    self.mine_count == old(self).mine_count,
                    self.flags_placed == old(self).flags_placed,
                    self.state == old(self).state,
                    self.cells@.len() == old(self).cells@.len(),
                    self.cells@.len() == size * size,
                    forall|k: int|
                        0 <= k < self.cells@.len() ==> #[trigger] self.cells@[k].is_mine == old(
                            self,
                        ).cells@[k].is_mine,
                    forall|k: int|
                        0 <= k < self.cells@.len() ==> #[trigger] self.cells@[k].visibility == old(
                            self,
                        ).cells@[k].visibility,
                    forall|r2: int, c2: int|
                        in_grid(size as int, r2, c2) && (r2 < r || (r2 == r && c2 < c))
                            ==> #[trigger] self.cells@[idx(size as int, r2, c2)].neighbor_mine_count
                            == nbr_mines(self.cells@, size as int, r2, c2),
                decreases size - c,
            {
                let n = self.count_adjacent_mines(r, c);
                proof {
                    lemma_idx_bounds(size as int, r as int, c as int);
                }
                let k = r * size + c;
                let ghost before = self.cells@;
                let mut cell = self.cells[k];
                cell.neighbor_mine_count = n;
                self.cells.set(k, cell);
                proof {
                    assert forall|k2: int|
                        0 <= k2 < self.cells@.len() implies #[trigger] self.cells@[k2].is_mine
                        == old(self).cells@[k2].is_mine by {
                        if k2 != k {
                            assert(self.cells@[k2] == before[k2]);
                        }
                        assert(before[k2].is_mine == old(self).cells@[k2].is_mine);
                    }
                    assert forall|k2: int|
                        0 <= k2 < self.cells@.len() implies #[trigger] self.cells@[k2].visibility
                        == old(self).cells@[k2].visibility by {
                        if k2 != k {
                            assert(self.cells@[k2] == before[k2]);
                        }
                        assert(before[k2].visibility == old(self).cells@[k2].visibility);
                    }
                    assert forall|r2: int, c2: int| in_grid(size as int, r2, c2) implies nbr_mines(
                        self.cells@,
                        size as int,
                        r2,
                        c2,
                    ) == nbr_mines(before, size as int, r2, c2) by {
                        lemma_nbr_mines_congruence(self.cells@, before, size as int, r2, c2);
                    }
                    assert forall|r2: int, c2: int|
                        in_grid(size as int, r2, c2) && (r2 < r || (r2 == r && c2 < c
                            + 1)) implies #[trigger] self.cells@[idx(
                        size as int,
                        r2,
                        c2,
                    )].neighbor_mine_count == nbr_mines(self.cells@, size as int, r2, c2) by {
                        lemma_idx_bounds(size as int, r2, c2);
                        lemma_idx_injective(size as int, r2, c2, r as int, c as int);
                        if r2 == r && c2 == c {
                        } else {
                            assert(idx(size as int, r2, c2) != k);
                            assert(self.cells@[idx(size as int, r2, c2)] == before[idx(
                                size as int,
                                r2,
                                c2,
                            )]);
                        }
                    }
                }
                c = c + 1;
            }
            r = r + 1;
        }
    }

    /// Adopt the given duplicate-free list of flat indices as the exact mine
    /// layout and derive every neighbor count.
    ///
    /// This is the deterministic half of generation; `generate` feeds it a
    /// random layout, and tests may feed it a fixed one.
    pub fn place_mines(&mut self, mines: &Vec<usize>)
        requires
            old(self).wf(),
            old(self).state == GameState::Init,
            old(self).pristine(),
            forall|i: int, j: int| 0 <= i < j < mines@.len() ==> mines@[i] != mines@[j],
            forall|i: int|
                0 <= i < mines@.len() ==> (mines@[i] as int) < old(self).size * old(self).size,
        ensures
            final(self).wf(),
            final(self).state == old(self).state,
            final(self).size == old(self).size,
            final(self).flags_placed == 0,
            final(self).mine_count == mines@.len(),
            final(self).cells@.len() == old(self).cells@.len(),
            final(self).mines_total() == mines@.len(),
            forall|k: int|
                0 <= k < final(self).cells@.len() ==> (#[trigger] final(self).cells@[k].is_mine
                    <==> mines@.contains(k as usize)),
            forall|k: int|
                0 <= k < final(self).cells@.len() ==> #[trigger] final(self).cells@[k].visibility
                    == Visibility::Closed,
    {
        proof {
            lemma_count_zero(
                |k: int| old(self).cells@[k].visibility == Visibility::Flagged,
                old(self).cells@.len() as int,
            );
        }
        let mut i: usize = 0;
        while i < mines.len()
            invariant
                i <= mines@.len(),
                self.size == old(self).size,
                self.mine_count == old(self).mine_count,
                self.flags_placed == old(self).flags_placed,
                self.state == old(self).state,
                self.cells@.len() == old(self).cells@.len(),
                1 <= self.size,
                self.size * self.size <= usize::MAX,
                self.cells@.len() == self.size * self.size,
                forall|i2: int|
                    0 <= i2 < mines@.len() ==> (#[trigger] mines@[i2] as int) < self.cells@.len(),
                forall|k: int|
                    0 <= k < self.cells@.len() ==> (#[trigger] self.cells@[k].is_mine
                        <==> mines@.subrange(0, i as int).contains(k as usize)),
                forall|k: int|
                    0 <= k < self.cells@.len() ==> #[trigger] self.cells@[k].visibility
                        == Visibility::Closed,
            decreases mines@.len() - i,
        {
            let m = mines[i];
            let ghost before = self.cells@;
            let mut cell = self.cells[m];
            cell.is_mine = true;
            self.cells.set(m, cell);
            proof {
                assert(mines@.subrange(0, i as int + 1) =~= mines@.subrange(0, i as int).push(m));
                assert forall|k: int|
                    0 <= k < self.cells@.len() implies (#[trigger] self.cells@[k].is_mine
                        <==> mines@.subrange(0, i as int + 1).contains(k as usize)) by {
                    vstd::seq_lib::lemma_seq_contains_after_push(
                        mines@.subrange(0, i as int),
                        m,
                        k as usize,
                    );
                    if k != m as int {
                        assert(self.cells@[k] == before[k]);
                    }
                }
                assert forall|k: int|
                    0 <= k < self.cells@.len() implies #[trigger] self.cells@[k].visibility
                    == Visibility::Closed by {
                    if k != m as int {
                        assert(self.cells@[k] == before[k]);
                    }
                }
            }
            i = i + 1;
        }
        proof {
            assert(mines@.subrange(0, mines@.len() as int) =~= mines@);
        }
        self.compute_counts();
        self.mine_count = mines.len();
        proof {
            lemma_count_zero(
                |k: int| self.cells@[k].visibility == Visibility::Flagged,
                self.cells@.len() as int,
            );
            lemma_count_distinct_seq(
                mines@,
                |k: int| self.cells@[k].is_mine,
                self.cells@.len() as int,
            );
        }
    }

    /// Leave `Init` and start accepting play commands.  The driver performs
    /// this transition itself, once, after the deferred generation.
    pub fn begin_play(&mut self)
        requires
            old(self).wf(),
            old(self).state == GameState::Init,
        ensures
            final(self).wf(),
            final(self).state == GameState::Playing,
            final(self).size == old(self).size,
            final(self).mine_count == old(self).mine_count,
            final(self).flags_placed == old(self).flags_placed,
            final(self).cells@ == old(self).cells@,
    {
        self.state = GameState::Playing;
    }

    /// Place mines at random, keeping the 3x3 safety zone around
    /// `(safe_row, safe_col)` free of mines, and derive every neighbor count.
    /// A request for more mines than there are eligible cells is silently
    /// clamped.  The lifecycle is untouched: entering play is the caller's
    /// move, through `begin_play`.
    pub fn generate(&mut self, safe_row: usize, safe_col: usize)
        requires
            old(self).wf(),
            old(self).state == GameState::Init,
            old(self).pristine(),
            safe_row < old(self).size,
            safe_col < old(self).size,
        ensures
            final(self).wf(),
            final(self).state == old(self).state,
            final(self).size == old(self).size,
            final(self).flags_placed == 0,
            final(self).mine_count == clamped_mines(
                old(self).mine_count as int,
                old(self).size as int,
                safe_row as int,
                safe_col as int,
            ),
            final(self).mines_total() == final(self).mine_count,
            forall|r: int, c: int|
                in_grid(final(self).size as int, r, c) && in_zone(
                    safe_row as int,
                    safe_col as int,
                    r,
                    c,
                ) ==> !#[trigger] final(self).cell_at(r, c).is_mine,
            forall|k: int|
                0 <= k < final(self).cells@.len() ==> #[trigger] final(self).cells@[k].visibility
                    == Visibility::Closed,
    {
        let size = self.size;
        let ghost sr = safe_row as int;
        let ghost sc = safe_col as int;
        proof {
            assert(size >= 2 ==> size * size >= 2 * size) by (nonlinear_arith);
        }
        let rlo = if safe_row == 0 { 0 } else { safe_row - 1 };
        let rhi = if safe_row + 2 <= size { safe_row + 2 } else { size };
        let clo = if safe_col == 0 { 0 } else { safe_col - 1 };
        let chi = if safe_col + 2 <= size { safe_col + 2 } else { size };
        let mut pool: Vec<usize> = Vec::new();
        let mut r: usize = 0;
        while r < size
            invariant
                r <= size,
                size == self.size,
                1 <= size,
                size * size <= usize::MAX,
                rlo as int == zone_lo(sr),
                rhi as int == zone_hi(size as int, sr),
                clo as int == zone_lo(sc),
                chi as int == zone_hi(size as int, sc),
                0 <= sr < size,
                0 <= sc < size,
                pool@.len() == r as int * size as int - span_below(rlo as int, rhi as int, r as int)
                    * (chi as int - clo as int),
                forall|j: int| 0 <= j < pool@.len() ==> (#[trigger] pool@[j] as int) < r as int
                    * size as int,
                forall|j1: int, j2: int| 0 <= j1 < j2 < pool@.len() ==> pool@[j1] < pool@[j2],
                forall|j: int|
                    0 <= j < pool@.len() ==> eligible_index(size as int, sr, sc, #[trigger] pool@[j] as int),
            decreases size - r,
        {
            let mut c: usize = 0;
            while c < size
                invariant
                    r < size,
                    c <= size,
                    size == self.size,
                    1 <= size,
                    size * size <= usize::MAX,
                    rlo as int == zone_lo(sr),
                    rhi as int == zone_hi(size as int, sr),
                    clo as int == zone_lo(sc),
                    chi as int == zone_hi(size as int, sc),
                    0 <= sr < size,
                    0 <= sc < size,
                    pool@.len() == r as int * size as int + c as int - (span_below(
                        rlo as int,
                        rhi as int,
                        r as int,
                    ) * (chi as int - clo as int) + if rlo as int <= r as int && (r as int)
                        < rhi as int {
                        span_below(clo as int, chi as int, c as int)
                    } else {
                        0
                    }),
                    forall|j: int| 0 <= j < pool@.len() ==> (#[trigger] pool@[j] as int) < r as int
                        * size as int + c as int,
                    forall|j1: int, j2: int| 0 <= j1 < j2 < pool@.len() ==> pool@[j1] < pool@[j2],
                    forall|j: int|
                        0 <= j < pool@.len() ==> eligible_index(
                            size as int,
                            sr,
                            sc,
                            #[trigger] pool@[j] as int,
                        ),
                decreases size - c,
            {
                proof {
                    lemma_idx_bounds(size as int, r as int, c as int);
                }
                let k = r * size + c;
                if !(rlo <= r && r < rhi && clo <= c && c < chi) {
                    pool.push(k);
                    proof {
                        assert(!in_zone(sr, sc, r as int, c as int));
                        assert(eligible_index(size as int, sr, sc, k as int)) by {
                            assert(in_grid(size as int, r as int, c as int) && !in_zone(
                                sr,
                                sc,
                                r as int,
                                c as int,
                            ) && k as int == idx(size as int, r as int, c as int));
                        }
                    }
                }
                c = c + 1;
            }
            proof {
                assert((r as int + 1) * size as int == r as int * size as int + size as int)
                    by (nonlinear_arith);
                let s = span_below(rlo as int, rhi as int, r as int);
                assert((s + 1) * (chi as int - clo as int) == s * (chi as int - clo as int) + (
                chi as int - clo as int)) by (nonlinear_arith);
                assert(span_below(clo as int, chi as int, size as int) == chi as int - clo as int);
                if rlo as int <= r as int && (r as int) < rhi as int {
                    assert(span_below(rlo as int, rhi as int, r as int + 1) == s + 1);
                } else {
                    assert(span_below(rlo as int, rhi as int, r as int + 1) == s);
                }
            }
            r = r + 1;
        }
        proof {
            assert(pool@.len() == eligible_cells(size as int, sr, sc));
        }
        let m = if self.mine_count <= pool.len() {
            self.mine_count
        } else {
            pool.len()
        };
        let mines = choose_distinct(&pool, m);
        proof {
            assert forall|i: int|
                0 <= i < mines@.len() implies (#[trigger] mines@[i] as int) < self.size as int
                * self.size as int by {
                assert(pool@.contains(mines@[i]));
                let j = choose|j: int| 0 <= j < pool@.len() && pool@[j] == mines@[i];
                assert((pool@[j] as int) < size as int * size as int);
            }
        }
        self.place_mines(&mines);
        proof {
            assert forall|r2: int, c2: int|
                in_grid(self.size as int, r2, c2) && in_zone(sr, sc, r2, c2) implies !#[trigger] self.cell_at(
                r2,
                c2,
            ).is_mine by {
                lemma_idx_bounds(self.size as int, r2, c2);
                if self.cell_at(r2, c2).is_mine {
                    let k2 = idx(self.size as int, r2, c2);
                    assert(mines@.contains(k2 as usize));
                    let i = choose|i: int| 0 <= i < mines@.len() && mines@[i] == k2 as usize;
                    assert(pool@.contains(mines@[i]));
                    let j = choose|j: int| 0 <= j < pool@.len() && pool@[j] == mines@[i];
                    assert(eligible_index(size as int, sr, sc, pool@[j] as int));
                    let (r3, c3) = choose|r3: int, c3: int|
                        in_grid(size as int, r3, c3) && !in_zone(sr, sc, r3, c3) && pool@[j] as int
                            == idx(size as int, r3, c3);
                    lemma_idx_injective(size as int, r2, c2, r3, c3);
                }
            }
        }
    }

    /// One when the cell at `(r, c)` is flagged, zero otherwise.
    fn flag_term(&self, r: usize, c: usize) -> (f: usize)
        requires
            1 <= self.size,
            self.size * self.size <= usize::MAX,
            self.cells@.len() == self.size * self.size,
            r < self.size,
            c < self.size,
        ensures
            f as int == flag_at(self.cells@, self.size as int, r as int, c as int),
    {
        proof {
            lemma_idx_bounds(self.size as int, r as int, c as int);
        }
        if self.cells[r * self.size + c].visibility == Visibility::Flagged {
            1
        } else {
            0
        }
    }

    /// The number of flags among the up-to-eight neighbors of `(r, c)`,
    /// the target itself not counted.
    fn count_adjacent_flags(&self, r: usize, c: usize) -> (n: usize)
        requires
            1 <= self.size,
            self.size * self.size <= usize::MAX,
            self.cells@.len() == self.size * self.size,
            r < self.size,
            c < self.size,
        ensures
            n as int == nbr_flags(self.cells@, self.size as int, r as int, c as int),
    {
        let size = self.size;
        let mut n: usize = 0;
        if r > 0 {
            if c > 0 {
                n = n + self.flag_term(r - 1, c - 1);
            }
            n = n + self.flag_term(r - 1, c);
            if c + 1 < size {
                n = n + self.flag_term(r - 1, c + 1);
            }
        }
        if c > 0 {
            n = n + self.flag_term(r, c - 1);
        }
        if c + 1 < size {
            n = n + self.flag_term(r, c + 1);
        }
        if r + 1 < size {
            if c > 0 {
                n = n + self.flag_term(r + 1, c - 1);
            }
            n = n + self.flag_term(r + 1, c);
            if c + 1 < size {
                n = n + self.flag_term(r + 1, c + 1);
            }
        }
        n
    }

    /// Toggle the flag on `(row, col)`.  Returns whether anything changed:
    /// the toggle is silently ignored outside play, on an open cell, and
    /// when it would raise `flags_placed` beyond `mine_count`.
    pub fn toggle_flag(&mut self, row: usize, col: usize) -> (applied: bool)
        requires
            old(self).wf(),
            row < old(self).size,
            col < old(self).size,
        ensures
            final(self).wf(),
            final(self).size == old(self).size,
            final(self).mine_count == old(self).mine_count,
            final(self).state == old(self).state,
            final(self).cells@.len() == old(self).cells@.len(),
            applied <==> (old(self).state == GameState::Playing && (old(self).cell_at(
                row as int,
                col as int,
            ).visibility == Visibility::Flagged || (old(self).cell_at(
                row as int,
                col as int,
            ).visibility == Visibility::Closed && old(self).flags_placed < old(
                self,
            ).mine_count))),
            !applied ==> *final(self) == *old(self),
            forall|k: int|
                0 <= k < final(self).cells@.len() && k != idx(
                    old(self).size as int,
                    row as int,
                    col as int,
                ) ==> #[trigger] final(self).cells@[k] == old(self).cells@[k],
            applied && old(self).cell_at(row as int, col as int).visibility == Visibility::Closed
                ==> (final(self).cell_at(row as int, col as int).visibility == Visibility::Flagged
                && final(self).flags_placed == old(self).flags_placed + 1),
            applied && old(self).cell_at(row as int, col as int).visibility == Visibility::Flagged
                ==> (final(self).cell_at(row as int, col as int).visibility == Visibility::Closed
                && final(self).flags_placed == old(self).flags_placed - 1),
            final(self).cell_at(row as int, col as int).is_mine == old(self).cell_at(
                row as int,
                col as int,
            ).is_mine,
            final(self).cell_at(row as int, col as int).neighbor_mine_count == old(self).cell_at(
                row as int,
                col as int,
            ).neighbor_mine_count,
    {
        proof {
            lemma_idx_bounds(self.size as int, row as int, col as int);
        }
        if !(self.state == GameState::Playing) {
            return false;
        }
        let t = row * self.size + col;
        let cell = self.cells[t];
        match cell.visibility {
            Visibility::Open => false,
            Visibility::Closed => {
                if self.flags_placed == self.mine_count {
                    return false;
                }
                let mut cell2 = cell;
                cell2.visibility = Visibility::Flagged;
                let ghost prev = *self;
                self.cells.set(t, cell2);
                self.flags_placed = self.flags_placed + 1;
                proof {
                    lemma_count_update(
                        |k: int| prev.cells@[k].visibility == Visibility::Flagged,
                        |k: int| self.cells@[k].visibility == Visibility::Flagged,
                        self.cells@.len() as int,
                        t as int,
                    );
                    lemma_counts_correct_preserved(prev.cells@, self.cells@, self.size as int);
                }
                true
            },
            Visibility::Flagged => {
                let mut cell2 = cell;
                cell2.visibility = Visibility::Closed;
                let ghost prev = *self;
                proof {
                    lemma_count_update(
                        |k: int| prev.cells@[k].visibility == Visibility::Flagged,
                        |k: int| prev.cells@.update(t as int, cell2)[k].visibility
                            == Visibility::Flagged,
                        prev.cells@.len() as int,
                        t as int,
                    );
                    lemma_count_bounds(
                        |k: int| prev.cells@.update(t as int, cell2)[k].visibility
                            == Visibility::Flagged,
                        prev.cells@.len() as int,
                    );
                }
                self.cells.set(t, cell2);
                self.flags_placed = self.flags_placed - 1;
                proof {
                    lemma_count_equiv(
                        |k: int| prev.cells@.update(t as int, cell2)[k].visibility
                            == Visibility::Flagged,
                        |k: int| self.cells@[k].visibility == Visibility::Flagged,
                        self.cells@.len() as int,
                    );
                    lemma_counts_correct_preserved(prev.cells@, self.cells@, self.size as int);
                }
                true
            },
        }
    }

    /// The grid width.
    pub fn size(&self) -> (s: usize)
        ensures
            s == self.size,
    {
        self.size
    }

    /// The (possibly clamped) number of mines the board plays with.
    pub fn mine_count(&self) -> (m: usize)
        ensures
            m == self.mine_count,
    {
        self.mine_count
    }

    /// How many flags stand on the grid.
    pub fn flags_placed(&self) -> (f: usize)
        ensures
            f == self.flags_placed,
    {
        self.flags_placed
    }

    /// Where the game stands in its lifecycle.
    pub fn state(&self) -> (s: GameState)
        ensures
            s == self.state,
    {
        self.state
    }

    /// Everything a renderer needs to know of the cell at `(row, col)`.
    pub fn cell(&self, row: usize, col: usize) -> (c: Cell)
        requires
            self.wf(),
            row < self.size,
            col < self.size,
        ensures
            c == self.cell_at(row as int, col as int),
    {
        proof {
            lemma_idx_bounds(self.size as int, row as int, col as int);
        }
        self.cells[row * self.size + col]
    }

    /// Append `(r, c)` to the worklist when its cell is still closed.
    fn enqueue_if_closed(&self, queue: &mut Vec<(usize, usize)>, r: usize, c: usize)
        requires
            1 <= self.size,
            self.size * self.size <= usize::MAX,
            self.cells@.len() == self.size * self.size,
            r < self.size,
            c < self.size,
        ensures
            final(queue)@ == if self.cell_at(r as int, c as int).visibility == Visibility::Closed {
                old(queue)@.push((r, c))
            } else {
                old(queue)@
            },
            self.cell_at(r as int, c as int).visibility == Visibility::Closed
                ==> final(queue)@.contains((r, c)),
            forall|x: (usize, usize)|
                old(queue)@.contains(x) ==> #[trigger] final(queue)@.contains(x),
            forall|j: int| 0 <= j < old(queue)@.len() ==> final(queue)@[j] == old(queue)@[j],
            old(queue)@.len() <= final(queue)@.len(),
    {
        broadcast use vstd::seq_lib::lemma_seq_contains_after_push;

        proof {
            lemma_idx_bounds(self.size as int, r as int, c as int);
        }
        if self.cells[r * self.size + c].visibility == Visibility::Closed {
            queue.push((r, c));
        }
    }

    /// Append every still-closed neighbor of `(r, c)` to the worklist.
    #[verifier::rlimit(50)]
    fn enqueue_closed_neighbors(&self, queue: &mut Vec<(usize, usize)>, r: usize, c: usize)
        requires
            1 <= self.size,
            self.size * self.size <= usize::MAX,
            self.cells@.len() == self.size * self.size,
            r < self.size,
            c < self.size,
        ensures
            old(queue)@.len() <= final(queue)@.len(),
            forall|j: int| 0 <= j < old(queue)@.len() ==> final(queue)@[j] == old(queue)@[j],
            forall|x: (usize, usize)|
                old(queue)@.contains(x) ==> #[trigger] final(queue)@.contains(x),
            forall|j: int|
                old(queue)@.len() <= j < final(queue)@.len() ==> ((#[trigger] final(queue)@[j].0 as int) < self.size as int && (final(queue)@[j].1 as int)
                    < self.size as int && self.cell_at(
                    final(queue)@[j].0 as int,
                    final(queue)@[j].1 as int,
                ).visibility == Visibility::Closed && adjacent(
                    r as int,
                    c as int,
                    final(queue)@[j].0 as int,
                    final(queue)@[j].1 as int,
                )),
            forall|nr: int, nc: int|
                in_grid(self.size as int, nr, nc) && adjacent(r as int, c as int, nr, nc)
                    && #[trigger] self.cell_at(nr, nc).visibility == Visibility::Closed
                    ==> final(queue)@.contains((nr as usize, nc as usize)),
    {
        let size = self.size;
        if r > 0 {
            if c > 0 {
                self.enqueue_if_closed(queue, r - 1, c - 1);
            }
            self.enqueue_if_closed(queue, r - 1, c);
            if c + 1 < size {
                self.enqueue_if_closed(queue, r - 1, c + 1);
            }
        }
        if c > 0 {
            self.enqueue_if_closed(queue, r, c - 1);
        }
        if c + 1 < size {
            self.enqueue_if_closed(queue, r, c + 1);
        }
        if r + 1 < size {
            if c > 0 {
                self.enqueue_if_closed(queue, r + 1, c - 1);
            }
            self.enqueue_if_closed(queue, r + 1, c);
            if c + 1 < size {
                self.enqueue_if_closed(queue, r + 1, c + 1);
            }
        }
        proof {
            assert forall|nr: int, nc: int|
                in_grid(self.size as int, nr, nc) && adjacent(r as int, c as int, nr, nc)
                    && #[trigger] self.cell_at(nr, nc).visibility == Visibility::Closed implies queue@.contains(
                (nr as usize, nc as usize),
            ) by {
                assert(nr == r - 1 || nr == r || nr == r + 1);
                assert(nc == c - 1 || nc == c || nc == c + 1);
            }
        }
    }

    /// Whether some safe (mine-free) cell is still closed.
    fn has_hidden_safe_cell(&self) -> (found: bool)
        ensures
            found <==> !all_safe_revealed(self.cells@),
    {
        let n = self.cells.len();
        let mut k: usize = 0;
        while k < n
            invariant
                k <= n,
                n == self.cells@.len(),
                forall|j: int|
                    0 <= j < k ==> (self.cells@[j].is_mine || #[trigger] self.cells@[j].visibility
                        != Visibility::Closed),
            decreases n - k,
        {
            let cell = self.cells[k];
            if !cell.is_mine && cell.visibility == Visibility::Closed {
                return true;
            }
            k = k + 1;
        }
        false
    }

    /// Whether a user reveal at an already-open `(r, c)` chords: the flags
    /// beside the cell cover its whole adjacent-mine count, so the player
    /// vouches for the rest of the neighborhood.
    pub open spec fn chords(self, r: int, c: int, by_user: bool) -> bool {
        by_user && self.cell_at(r, c).visibility == Visibility::Open && nbr_flags(
            self.cells@,
            self.size as int,
            r,
            c,
        ) >= nbr_mines(self.cells@, self.size as int, r, c)
    }

    /// Whether a reveal at `(r, c)` fans out into the neighbors: always from
    /// a cell with no adjacent mines, and otherwise by chording.
    pub open spec fn cascades(self, r: int, c: int, by_user: bool) -> bool {
        nbr_mines(self.cells@, self.size as int, r, c) == 0 || self.chords(r, c, by_user)
    }

    /// Reveal the cell at `(row, col)`.  A flagged target is ignored; a mined
    /// target loses the game on the spot; a safe target is opened, fanning
    /// out over the zero-count region and over chorded neighborhoods, with a
    /// win check once the fan-out settles.  Returns every position whose
    /// visibility changed.
    #[verifier::rlimit(100)]
    #[verifier::spinoff_prover]
    pub fn open(&mut self, row: usize, col: usize, by_user: bool) -> (delta: Vec<(usize, usize)>)
        requires
            old(self).wf(),
            old(self).state == GameState::Playing,
            row < old(self).size,
            col < old(self).size,
        ensures
            final(self).wf(),
            final(self).size == old(self).size,
            final(self).mine_count == old(self).mine_count,
            final(self).flags_placed == old(self).flags_placed,
            final(self).cells@.len() == old(self).cells@.len(),
            forall|k: int|
                0 <= k < final(self).cells@.len() ==> #[trigger] final(self).cells@[k].is_mine
                    == old(self).cells@[k].is_mine,
            forall|k: int|
                0 <= k < final(self).cells@.len() ==> #[trigger] final(self).cells@[k].neighbor_mine_count == old(self).cells@[k].neighbor_mine_count,
            forall|k: int|
                0 <= k < final(self).cells@.len() ==> (#[trigger] final(self).cells@[k].visibility
                    == old(self).cells@[k].visibility || (old(self).cells@[k].visibility
                    == Visibility::Closed && final(self).cells@[k].visibility == Visibility::Open
                    && !old(self).cells@[k].is_mine)),
            forall|j: int|
                0 <= j < delta@.len() ==> ((#[trigger] delta@[j].0 as int) < old(self).size as int
                    && (delta@[j].1 as int) < old(self).size as int && old(self).cells@[idx(
                    old(self).size as int,
                    delta@[j].0 as int,
                    delta@[j].1 as int,
                )].visibility == Visibility::Closed && final(self).cells@[idx(
                    old(self).size as int,
                    delta@[j].0 as int,
                    delta@[j].1 as int,
                )].visibility == Visibility::Open),
            forall|j1: int, j2: int| 0 <= j1 < j2 < delta@.len() ==> delta@[j1] != delta@[j2],
            forall|r2: int, c2: int|
                in_grid(old(self).size as int, r2, c2) && (#[trigger] final(self).cells@[idx(
                    old(self).size as int,
                    r2,
                    c2,
                )]).visibility != old(self).cells@[idx(
                    old(self).size as int,
                    r2,
                    c2,
                )].visibility ==> delta@.contains((r2 as usize, c2 as usize)),
            old(self).cell_at(row as int, col as int).visibility == Visibility::Flagged ==> (
            *final(self) == *old(self) && delta@.len() == 0),
            (old(self).cell_at(row as int, col as int).visibility != Visibility::Flagged && old(
                self,
            ).cell_at(row as int, col as int).is_mine) ==> (final(self).state == GameState::Lost
                && delta@.len() == 0 && forall|k: int|
                0 <= k < final(self).cells@.len() ==> #[trigger] final(self).cells@[k] == old(
                    self,
                ).cells@[k]),
            (old(self).cell_at(row as int, col as int).visibility != Visibility::Flagged && !old(
                self,
            ).cell_at(row as int, col as int).is_mine) ==> (final(self).cell_at(
                row as int,
                col as int,
            ).visibility == Visibility::Open && (final(self).state == GameState::Lost <==> (old(
                self,
            ).cascades(row as int, col as int, by_user) && has_openable_mine_nbr(
                old(self).cells@,
                old(self).size as int,
                row as int,
                col as int,
            ))) && (final(self).state != GameState::Lost ==> final(self).state == (
            if all_safe_revealed(final(self).cells@) {
                GameState::Won
            } else {
                GameState::Playing
            }))),
            (old(self).cell_at(row as int, col as int).visibility != Visibility::Flagged && !old(
                self,
            ).cell_at(row as int, col as int).is_mine && old(self).cascades(
                row as int,
                col as int,
                by_user,
            ) && final(self).state != GameState::Lost) ==> forall|nr: int, nc: int|
                in_grid(old(self).size as int, nr, nc) && adjacent(row as int, col as int, nr, nc)
                    && old(self).cells@[#[trigger] idx(old(self).size as int, nr, nc)].visibility
                    == Visibility::Closed && !old(self).cells@[idx(
                    old(self).size as int,
                    nr,
                    nc,
                )].is_mine ==> final(self).cells@[idx(
                    old(self).size as int,
                    nr,
                    nc,
                )].visibility == Visibility::Open,
            (old(self).cell_at(row as int, col as int).visibility != Visibility::Flagged && !old(
                self,
            ).cell_at(row as int, col as int).is_mine && nbr_mines(
                old(self).cells@,
                old(self).size as int,
                row as int,
                col as int,
            ) == 0) ==> forall|r2: int, c2: int|
                in_grid(old(self).size as int, r2, c2) ==> final(self).cells@[#[trigger] idx(
                    old(self).size as int,
                    r2,
                    c2,
                )].visibility == (if zero_cascade_opens(
                    old(self).cells@,
                    old(self).size as int,
                    row as int,
                    col as int,
                    r2,
                    c2,
                ) {
                    Visibility::Open
                } else {
                    old(self).cells@[idx(old(self).size as int, r2, c2)].visibility
                }),
            !old(self).cascades(row as int, col as int, by_user) ==> forall|k: int|
                0 <= k < final(self).cells@.len() && k != idx(
                    old(self).size as int,
                    row as int,
                    col as int,
                ) ==> #[trigger] final(self).cells@[k].visibility == old(self).cells@[k].visibility,
            (old(self).cell_at(row as int, col as int).visibility == Visibility::Open && !old(
                self,
            ).cascades(row as int, col as int, by_user)) ==> (delta@.len() == 0 && forall|k: int|
                0 <= k < final(self).cells@.len() ==> #[trigger] final(self).cells@[k].visibility
                    == old(self).cells@[k].visibility),
    {
        broadcast use vstd::seq_lib::lemma_seq_contains_after_push;

        let size = self.size;
        let ghost sz = size as int;
        proof {
            lemma_idx_bounds(sz, row as int, col as int);
        }
        let t = row * size + col;
        let mut delta: Vec<(usize, usize)> = Vec::new();
        let target = self.cells[t];
        if target.visibility == Visibility::Flagged {
            return delta;
        }
        if target.is_mine {
            self.state = GameState::Lost;
            return delta;
        }
        let flags = self.count_adjacent_flags(row, col);
        let nbm = target.neighbor_mine_count;
        let was_open = target.visibility == Visibility::Open;
        let ghost casc = old(self).cascades(row as int, col as int, by_user);
        let ghost zcase = nbr_mines(old(self).cells@, sz, row as int, col as int) == 0;
        proof {
            assert(nbm as int == nbr_mines(old(self).cells@, sz, row as int, col as int));
        }
        if !was_open {
            let mut cell2 = target;
            cell2.visibility = Visibility::Open;
            let ghost prev = *self;
            self.cells.set(t, cell2);
            delta.push((row, col));
            proof {
                lemma_count_update(
                    |k: int| prev.cells@[k].visibility == Visibility::Flagged,
                    |k: int| self.cells@[k].visibility == Visibility::Flagged,
                    self.cells@.len() as int,
                    t as int,
                );
                lemma_counts_correct_preserved(prev.cells@, self.cells@, sz);
            }
        }
        proof {
            assert forall|r2: int, c2: int|
                in_grid(sz, r2, c2) && (#[trigger] self.cells@[idx(sz, r2, c2)]).visibility != old(
                    self,
                ).cells@[idx(sz, r2, c2)].visibility implies delta@.contains(
                (r2 as usize, c2 as usize),
            ) by {
                lemma_idx_bounds(sz, r2, c2);
                lemma_idx_injective(sz, r2, c2, row as int, col as int);
                assert(idx(sz, r2, c2) == t as int);
                assert(delta@[0] == (row, col));
            }
        }
        let mut queue: Vec<(usize, usize)> = Vec::new();
        let do_cascade = nbm == 0 || (by_user && was_open && flags >= nbm);
        proof {
            assert(do_cascade == casc);
        }
        if do_cascade {
            let ghost qpre0 = queue@;
            self.enqueue_closed_neighbors(&mut queue, row, col);
            proof {
                assert forall|j: int|
                    0 <= j < queue@.len() implies (self.cells@[idx(
                    sz,
                    #[trigger] queue@[j].0 as int,
                    queue@[j].1 as int,
                )].is_mine ==> (casc && adjacent(
                    row as int,
                    col as int,
                    queue@[j].0 as int,
                    queue@[j].1 as int,
                ) && openable_mine_at(
                    old(self).cells@,
                    sz,
                    queue@[j].0 as int,
                    queue@[j].1 as int,
                ))) by {
                    let nr = queue@[j].0 as int;
                    let nc = queue@[j].1 as int;
                    lemma_idx_bounds(sz, nr, nc);
                    lemma_idx_injective(sz, nr, nc, row as int, col as int);
                    assert(idx(sz, nr, nc) != t as int);
                }
                assert forall|nr: int, nc: int|
                    in_grid(sz, nr, nc) && adjacent(row as int, col as int, nr, nc) && old(
                        self,
                    ).cells@[#[trigger] idx(sz, nr, nc)].visibility == Visibility::Closed && !old(
                        self,
                    ).cells@[idx(sz, nr, nc)].is_mine implies (self.cells@[idx(
                    sz,
                    nr,
                    nc,
                )].visibility == Visibility::Open || exists|j: int|
                    0 <= j < queue@.len() && queue@[j] == (nr as usize, nc as usize)) by {
                    lemma_idx_bounds(sz, nr, nc);
                    lemma_idx_injective(sz, nr, nc, row as int, col as int);
                    if self.cells@[idx(sz, nr, nc)].visibility == Visibility::Closed {
                        assert(self.cell_at(nr, nc).visibility == Visibility::Closed);
                        assert(queue@.contains((nr as usize, nc as usize)));
                    }
                }
                if zcase {
                    assert(cascade_source(old(self).cells@, sz, row as int, col as int, row as int, col as int));
                    assert(in_zero_region_n(
                        old(self).cells@,
                        sz,
                        row as int,
                        col as int,
                        row as int,
                        col as int,
                        0,
                    ));
                    assert(in_zero_region(old(self).cells@, sz, row as int, col as int, row as int, col as int));
                    assert forall|j: int|
                        0 <= j < queue@.len() implies (old(self).cells@[idx(
                        sz,
                        #[trigger] queue@[j].0 as int,
                        queue@[j].1 as int,
                    )].visibility == Visibility::Closed && exists|r1: int, c1: int|
                        #[trigger] in_zero_region(old(self).cells@, sz, row as int, col as int, r1, c1)
                            && adjacent(r1, c1, queue@[j].0 as int, queue@[j].1 as int)) by {
                        lemma_idx_bounds(sz, queue@[j].0 as int, queue@[j].1 as int);
                        lemma_idx_injective(
                            sz,
                            queue@[j].0 as int,
                            queue@[j].1 as int,
                            row as int,
                            col as int,
                        );
                    }
                    assert forall|r2: int, c2: int|
                        in_grid(sz, r2, c2) && (#[trigger] self.cells@[idx(sz, r2, c2)]).visibility
                            != old(self).cells@[idx(sz, r2, c2)].visibility implies zero_cascade_opens(
                        old(self).cells@,
                        sz,
                        row as int,
                        col as int,
                        r2,
                        c2,
                    ) by {
                        lemma_idx_bounds(sz, r2, c2);
                        lemma_idx_injective(sz, r2, c2, row as int, col as int);
                    }
                    assert forall|yr: int, yc: int, xr: int, xc: int|
                        in_grid(sz, yr, yc) && in_grid(sz, xr, xc) && ((yr == row as int && yc
                            == col as int) || (old(self).cells@[#[trigger] idx(sz, yr, yc)].visibility
                            == Visibility::Closed && self.cells@[idx(sz, yr, yc)].visibility
                            == Visibility::Open)) && nbr_mines(old(self).cells@, sz, yr, yc) == 0
                            && adjacent(yr, yc, xr, xc) && old(self).cells@[#[trigger] idx(
                            sz,
                            xr,
                            xc,
                        )].visibility == Visibility::Closed implies (self.cells@[idx(
                        sz,
                        xr,
                        xc,
                    )].visibility == Visibility::Open || exists|j: int|
                        0 <= j < queue@.len() && queue@[j] == (xr as usize, xc as usize)) by {
                        lemma_idx_bounds(sz, yr, yc);
                        lemma_idx_injective(sz, yr, yc, row as int, col as int);
                        lemma_idx_bounds(sz, xr, xc);
                        lemma_idx_injective(sz, xr, xc, row as int, col as int);
                        if self.cells@[idx(sz, xr, xc)].visibility != Visibility::Open {
                            assert(yr == row as int && yc == col as int);
                            assert(self.cell_at(xr, xc).visibility == Visibility::Closed);
                            assert(queue@.contains((xr as usize, xc as usize)));
                        }
                    }
                }
                if has_openable_mine_nbr(old(self).cells@, sz, row as int, col as int) {
                    let w = lemma_openable_mine_nbr_elim(
                        old(self).cells@,
                        sz,
                        row as int,
                        col as int,
                    );
                    lemma_idx_bounds(sz, w.0, w.1);
                    lemma_idx_injective(sz, w.0, w.1, row as int, col as int);
                    assert(self.cell_at(w.0, w.1).visibility == Visibility::Closed);
                    assert(queue@.contains((w.0 as usize, w.1 as usize)));
                    let j = choose|j: int|
                        0 <= j < queue@.len() && queue@[j] == (w.0 as usize, w.1 as usize);
                    assert(openable_mine_at(old(self).cells@, sz, queue@[j].0 as int, queue@[j].1 as int));
                }
            }
        }
        let mut alive: bool = true;
        while queue.len() > 0 && alive
            invariant
                old(self).wf(),
                old(self).state == GameState::Playing,
                row < old(self).size,
                col < old(self).size,
                size == old(self).size,
                sz == size as int,
                t as int == idx(sz, row as int, col as int),
                casc == old(self).cascades(row as int, col as int, by_user),
                !old(self).cell_at(row as int, col as int).is_mine,
                self.size == old(self).size,
                self.mine_count == old(self).mine_count,
                self.flags_placed == old(self).flags_placed,
                self.cells@.len() == old(self).cells@.len(),
                alive ==> self.state == GameState::Playing,
                !alive ==> self.state == GameState::Lost,
                self.flags_placed == self.flags_total(),
                self.counts_ok(),
                forall|k: int|
                    0 <= k < self.cells@.len() ==> #[trigger] self.cells@[k].is_mine == old(
                        self,
                    ).cells@[k].is_mine,
                forall|k: int|
                    0 <= k < self.cells@.len() ==> #[trigger] self.cells@[k].neighbor_mine_count
                        == old(self).cells@[k].neighbor_mine_count,
                forall|k: int|
                    0 <= k < self.cells@.len() ==> (#[trigger] self.cells@[k].visibility == old(
                        self,
                    ).cells@[k].visibility || (old(self).cells@[k].visibility == Visibility::Closed
                        && self.cells@[k].visibility == Visibility::Open
                        && !old(self).cells@[k].is_mine)),
                self.cells@[t as int].visibility == Visibility::Open,
                forall|j: int|
                    0 <= j < queue@.len() ==> ((#[trigger] queue@[j].0 as int) < sz && (
                    queue@[j].1 as int) < sz),
                forall|j: int|
                    0 <= j < queue@.len() ==> (self.cells@[idx(
                        sz,
                        #[trigger] queue@[j].0 as int,
                        queue@[j].1 as int,
                    )].is_mine ==> (casc && adjacent(
                        row as int,
                        col as int,
                        queue@[j].0 as int,
                        queue@[j].1 as int,
                    ) && openable_mine_at(
                        old(self).cells@,
                        sz,
                        queue@[j].0 as int,
                        queue@[j].1 as int,
                    ))),
                queue@.len() > 0 ==> casc,
                self.state == GameState::Lost ==> (casc && has_openable_mine_nbr(
                    old(self).cells@,
                    sz,
                    row as int,
                    col as int,
                )),
                (casc && has_openable_mine_nbr(old(self).cells@, sz, row as int, col as int))
                    ==> (self.state == GameState::Lost || exists|j: int|
                    0 <= j < queue@.len() && openable_mine_at(
                        old(self).cells@,
                        sz,
                        #[trigger] queue@[j].0 as int,
                        queue@[j].1 as int,
                    )),
                self.state == GameState::Playing && casc ==> forall|nr: int, nc: int|
                    in_grid(sz, nr, nc) && adjacent(row as int, col as int, nr, nc) && old(
                        self,
                    ).cells@[#[trigger] idx(sz, nr, nc)].visibility == Visibility::Closed && !old(
                        self,
                    ).cells@[idx(sz, nr, nc)].is_mine ==> (self.cells@[idx(sz, nr, nc)].visibility
                        == Visibility::Open || exists|j: int|
                        0 <= j < queue@.len() && queue@[j] == (nr as usize, nc as usize)),
                zcase == (nbr_mines(old(self).cells@, sz, row as int, col as int) == 0),
                zcase ==> forall|j: int|
                    0 <= j < queue@.len() ==> (old(self).cells@[idx(
                        sz,
                        #[trigger] queue@[j].0 as int,
                        queue@[j].1 as int,
                    )].visibility == Visibility::Closed && exists|r1: int, c1: int|
                        #[trigger] in_zero_region(old(self).cells@, sz, row as int, col as int, r1, c1)
                            && adjacent(r1, c1, queue@[j].0 as int, queue@[j].1 as int)),
                zcase ==> forall|r2: int, c2: int|
                    in_grid(sz, r2, c2) && (#[trigger] self.cells@[idx(sz, r2, c2)]).visibility
                        != old(self).cells@[idx(sz, r2, c2)].visibility ==> zero_cascade_opens(
                        old(self).cells@,
                        sz,
                        row as int,
                        col as int,
                        r2,
                        c2,
                    ),
                self.state == GameState::Playing && zcase ==> forall|yr: int, yc: int, xr: int, xc: int|
                    in_grid(sz, yr, yc) && in_grid(sz, xr, xc) && ((yr == row as int && yc
                        == col as int) || (old(self).cells@[#[trigger] idx(sz, yr, yc)].visibility
                        == Visibility::Closed && self.cells@[idx(sz, yr, yc)].visibility
                        == Visibility::Open)) && nbr_mines(old(self).cells@, sz, yr, yc) == 0
                        && adjacent(yr, yc, xr, xc) && old(self).cells@[#[trigger] idx(
                        sz,
                        xr,
                        xc,
                    )].visibility == Visibility::Closed ==> (self.cells@[idx(sz, xr, xc)].visibility
                        == Visibility::Open || exists|j: int|
                        0 <= j < queue@.len() && queue@[j] == (xr as usize, xc as usize)),
                !casc ==> forall|k: int|
                    0 <= k < self.cells@.len() && k != t as int
                        ==> #[trigger] self.cells@[k].visibility == old(self).cells@[k].visibility,
                forall|j: int|
                    0 <= j < delta@.len() ==> ((#[trigger] delta@[j].0 as int) < sz && (
                    delta@[j].1 as int) < sz && old(self).cells@[idx(
                        sz,
                        delta@[j].0 as int,
                        delta@[j].1 as int,
                    )].visibility == Visibility::Closed && self.cells@[idx(
                        sz,
                        delta@[j].0 as int,
                        delta@[j].1 as int,
                    )].visibility == Visibility::Open),
                forall|j1: int, j2: int| 0 <= j1 < j2 < delta@.len() ==> delta@[j1] != delta@[j2],
                forall|r2: int, c2: int|
                    in_grid(sz, r2, c2) && (#[trigger] self.cells@[idx(sz, r2, c2)]).visibility
                        != old(self).cells@[idx(sz, r2, c2)].visibility ==> delta@.contains(
                        (r2 as usize, c2 as usize),
                    ),
            decreases closed_cells_upto(self.cells@, self.cells@.len() as int), queue.len(),
        {
            let ghost q0 = queue@;
            let ghost s0 = *self;
            let p = queue.pop().unwrap();
            let (qr, qc) = p;
            proof {
                lemma_idx_bounds(sz, qr as int, qc as int);
                lemma_idx_bounds(sz, row as int, col as int);
            }
            let k2 = qr * size + qc;
            let cell = self.cells[k2];
            if cell.visibility == Visibility::Closed {
                if cell.is_mine {
                    proof {
                        lemma_openable_mine_nbr_intro(
                            old(self).cells@,
                            sz,
                            row as int,
                            col as int,
                            qr as int,
                            qc as int,
                        );
                    }
                    self.state = GameState::Lost;
                    alive = false;
                } else {
                    let mut cell2 = cell;
                    cell2.visibility = Visibility::Open;
                    let ghost prev = *self;
                    let ghost dpre = delta@;
                    self.cells.set(k2, cell2);
                    delta.push((qr, qc));
                    proof {
                        assert(self.cells@ == prev.cells@.update(k2 as int, cell2));
                        assert(t as int != k2 as int);
                        assert(self.cells@[t as int] == prev.cells@[t as int]);
                        assert(delta@ == dpre.push((qr, qc)));
                        lemma_count_update(
                            |k: int| prev.cells@[k].visibility == Visibility::Flagged,
                            |k: int| self.cells@[k].visibility == Visibility::Flagged,
                            self.cells@.len() as int,
                            k2 as int,
                        );
                        lemma_closed_cells_update(
                            prev.cells@,
                            self.cells@,
                            self.cells@.len() as int,
                            k2 as int,
                        );
                        lemma_counts_correct_preserved(prev.cells@, self.cells@, sz);
                        assert forall|r2: int, c2: int|
                            in_grid(sz, r2, c2) && (#[trigger] self.cells@[idx(
                            sz,
                            r2,
                            c2,
                        )]).visibility != old(self).cells@[idx(
                            sz,
                            r2,
                            c2,
                        )].visibility implies delta@.contains((r2 as usize, c2 as usize)) by {
                            lemma_idx_bounds(sz, r2, c2);
                            lemma_idx_injective(sz, r2, c2, qr as int, qc as int);
                            vstd::seq_lib::lemma_seq_contains_after_push(
                                dpre,
                                (qr, qc),
                                (r2 as usize, c2 as usize),
                            );
                            if idx(sz, r2, c2) == k2 as int {
                                assert((r2 as usize, c2 as usize) == (qr, qc));
                            } else {
                                assert(self.cells@[idx(sz, r2, c2)] == prev.cells@[idx(
                                    sz,
                                    r2,
                                    c2,
                                )]);
                            }
                        }
                        assert forall|j: int|
                            0 <= j < delta@.len() implies ((#[trigger] delta@[j].0 as int) < sz
                            && (delta@[j].1 as int) < sz && old(self).cells@[idx(
                            sz,
                            delta@[j].0 as int,
                            delta@[j].1 as int,
                        )].visibility == Visibility::Closed && self.cells@[idx(
                            sz,
                            delta@[j].0 as int,
                            delta@[j].1 as int,
                        )].visibility == Visibility::Open) by {
                            if j < dpre.len() {
                                assert(delta@[j] == dpre[j]);
                                lemma_idx_bounds(sz, delta@[j].0 as int, delta@[j].1 as int);
                            } else {
                                assert(delta@[j] == (qr, qc));
                                lemma_idx_bounds(sz, qr as int, qc as int);
                                assert(prev.cells@[k2 as int].visibility == Visibility::Closed);
                            }
                        }
                        assert forall|j1: int, j2: int|
                            0 <= j1 < j2 < delta@.len() implies delta@[j1] != delta@[j2] by {
                            if j2 == delta@.len() - 1 {
                                assert(delta@[j1] == dpre[j1]);
                                lemma_idx_bounds(sz, delta@[j1].0 as int, delta@[j1].1 as int);
                                assert(prev.cells@[idx(
                                    sz,
                                    delta@[j1].0 as int,
                                    delta@[j1].1 as int,
                                )].visibility == Visibility::Open);
                                assert(prev.cells@[k2 as int].visibility == Visibility::Closed);
                            }
                        }
                    }
                    if cell.neighbor_mine_count == 0 {
                        let ghost qpre = queue@;
                        proof {
                            assert(self.cells@[idx(sz, qr as int, qc as int)].neighbor_mine_count
                                == 0);
                            assert(nbr_mines(self.cells@, sz, qr as int, qc as int) == 0);
                            if zcase {
                                assert(q0[q0.len() - 1] == p);
                                let (mr, mc) = choose|r1: int, c1: int|
                                    #[trigger] in_zero_region(
                                        old(self).cells@,
                                        sz,
                                        row as int,
                                        col as int,
                                        r1,
                                        c1,
                                    ) && adjacent(r1, c1, qr as int, qc as int);
                                assert(nbr_mines(old(self).cells@, sz, qr as int, qc as int) == 0)
                                    by {
                                    lemma_nbr_mines_congruence(
                                        self.cells@,
                                        old(self).cells@,
                                        sz,
                                        qr as int,
                                        qc as int,
                                    );
                                }
                                assert(cascade_source(
                                    old(self).cells@,
                                    sz,
                                    row as int,
                                    col as int,
                                    qr as int,
                                    qc as int,
                                ));
                                lemma_zero_region_step(
                                    old(self).cells@,
                                    sz,
                                    row as int,
                                    col as int,
                                    mr,
                                    mc,
                                    qr as int,
                                    qc as int,
                                );
                            }
                        }
                        self.enqueue_closed_neighbors(&mut queue, qr, qc);
                        proof {
                            assert forall|j: int|
                                0 <= j < queue@.len() implies (self.cells@[idx(
                                sz,
                                #[trigger] queue@[j].0 as int,
                                queue@[j].1 as int,
                            )].is_mine ==> (casc && adjacent(
                                row as int,
                                col as int,
                                queue@[j].0 as int,
                                queue@[j].1 as int,
                            ) && openable_mine_at(
                                old(self).cells@,
                                sz,
                                queue@[j].0 as int,
                                queue@[j].1 as int,
                            ))) by {
                                lemma_idx_bounds(sz, queue@[j].0 as int, queue@[j].1 as int);
                                if j >= qpre.len() {
                                    lemma_no_adjacent_mine(
                                        self.cells@,
                                        sz,
                                        qr as int,
                                        qc as int,
                                        queue@[j].0 as int,
                                        queue@[j].1 as int,
                                    );
                                } else {
                                    assert(queue@[j] == qpre[j]);
                                }
                            }
                        }
                    }
                }
            }
            proof {
                lemma_closed_cells_bounds(self.cells@, self.cells@.len() as int);
                assert forall|j: int|
                    0 <= j < queue@.len() implies ((#[trigger] queue@[j].0 as int) < sz && (
                    queue@[j].1 as int) < sz) by {
                    if j < q0.len() - 1 {
                        assert(queue@[j] == q0[j]);
                    }
                }
                assert forall|j: int|
                    0 <= j < queue@.len() implies (self.cells@[idx(
                    sz,
                    #[trigger] queue@[j].0 as int,
                    queue@[j].1 as int,
                )].is_mine ==> (casc && adjacent(
                    row as int,
                    col as int,
                    queue@[j].0 as int,
                    queue@[j].1 as int,
                ) && openable_mine_at(
                    old(self).cells@,
                    sz,
                    queue@[j].0 as int,
                    queue@[j].1 as int,
                ))) by {
                    if j < q0.len() - 1 {
                        assert(queue@[j] == q0[j]);
                    }
                    lemma_idx_bounds(sz, queue@[j].0 as int, queue@[j].1 as int);
                }
                if self.state == GameState::Playing && casc {
                    assert forall|nr: int, nc: int|
                        in_grid(sz, nr, nc) && adjacent(row as int, col as int, nr, nc) && old(
                            self,
                        ).cells@[#[trigger] idx(sz, nr, nc)].visibility == Visibility::Closed
                            && !old(self).cells@[idx(sz, nr, nc)].is_mine implies (self.cells@[idx(
                        sz,
                        nr,
                        nc,
                    )].visibility == Visibility::Open || exists|j: int|
                        0 <= j < queue@.len() && queue@[j] == (nr as usize, nc as usize)) by {
                        lemma_idx_bounds(sz, nr, nc);
                        if self.cells@[idx(sz, nr, nc)].visibility != Visibility::Open {
                            let j = choose|j: int|
                                0 <= j < q0.len() && q0[j] == (nr as usize, nc as usize);
                            if j < q0.len() - 1 {
                                assert(queue@[j] == q0[j]);
                            } else {
                                assert(p == (nr as usize, nc as usize));
                                assert(k2 as int == idx(sz, nr, nc));
                                assert(!cell.is_mine);
                                assert(self.cells@[k2 as int].visibility == Visibility::Open);
                                assert(false);
                            }
                        }
                    }
                }
                if casc && has_openable_mine_nbr(old(self).cells@, sz, row as int, col as int)
                    && self.state == GameState::Playing {
                    let j = choose|j: int|
                        0 <= j < q0.len() && openable_mine_at(
                            old(self).cells@,
                            sz,
                            #[trigger] q0[j].0 as int,
                            q0[j].1 as int,
                        );
                    lemma_idx_bounds(sz, q0[j].0 as int, q0[j].1 as int);
                    if j == q0.len() - 1 {
                        assert(q0[j] == p);
                        assert(old(self).cells@[idx(sz, qr as int, qc as int)].is_mine);
                        assert(cell.is_mine);
                        assert(cell.visibility == Visibility::Closed);
                        assert(false);
                    } else {
                        assert(queue@[j] == q0[j]);
                        assert(openable_mine_at(
                            old(self).cells@,
                            sz,
                            queue@[j].0 as int,
                            queue@[j].1 as int,
                        ));
                    }
                }
                if zcase {
                    assert forall|j: int|
                        0 <= j < queue@.len() implies (old(self).cells@[idx(
                        sz,
                        #[trigger] queue@[j].0 as int,
                        queue@[j].1 as int,
                    )].visibility == Visibility::Closed && exists|r1: int, c1: int|
                        #[trigger] in_zero_region(old(self).cells@, sz, row as int, col as int, r1, c1)
                            && adjacent(r1, c1, queue@[j].0 as int, queue@[j].1 as int)) by {
                        lemma_idx_bounds(sz, queue@[j].0 as int, queue@[j].1 as int);
                        if j < q0.len() - 1 {
                            assert(queue@[j] == q0[j]);
                        }
                    }
                    assert forall|r2: int, c2: int|
                        in_grid(sz, r2, c2) && (#[trigger] self.cells@[idx(sz, r2, c2)]).visibility
                            != old(self).cells@[idx(sz, r2, c2)].visibility implies zero_cascade_opens(
                        old(self).cells@,
                        sz,
                        row as int,
                        col as int,
                        r2,
                        c2,
                    ) by {
                        lemma_idx_bounds(sz, r2, c2);
                        lemma_idx_injective(sz, r2, c2, qr as int, qc as int);
                        if idx(sz, r2, c2) == k2 as int {
                            assert(q0[q0.len() - 1] == p);
                            assert(old(self).cells@[idx(sz, r2, c2)].visibility
                                == Visibility::Closed);
                        } else {
                            assert(self.cells@[idx(sz, r2, c2)] == s0.cells@[idx(sz, r2, c2)]);
                        }
                    }
                    if self.state == GameState::Playing {
                        assert forall|yr: int, yc: int, xr: int, xc: int|
                            in_grid(sz, yr, yc) && in_grid(sz, xr, xc) && ((yr == row as int && yc
                                == col as int) || (old(self).cells@[#[trigger] idx(
                                sz,
                                yr,
                                yc,
                            )].visibility == Visibility::Closed && self.cells@[idx(
                                sz,
                                yr,
                                yc,
                            )].visibility == Visibility::Open)) && nbr_mines(
                            old(self).cells@,
                            sz,
                            yr,
                            yc,
                        ) == 0 && adjacent(yr, yc, xr, xc) && old(self).cells@[#[trigger] idx(
                            sz,
                            xr,
                            xc,
                        )].visibility == Visibility::Closed implies (self.cells@[idx(
                            sz,
                            xr,
                            xc,
                        )].visibility == Visibility::Open || exists|j: int|
                            0 <= j < queue@.len() && queue@[j] == (xr as usize, xc as usize)) by {
                            lemma_idx_bounds(sz, yr, yc);
                            lemma_idx_bounds(sz, xr, xc);
                            lemma_idx_injective(sz, yr, yc, qr as int, qc as int);
                            lemma_idx_injective(sz, xr, xc, qr as int, qc as int);
                            if self.cells@[idx(sz, xr, xc)].visibility != Visibility::Open {
                                assert(self.cells@[idx(sz, xr, xc)].visibility
                                    == Visibility::Closed);
                                if (yr == row as int && yc == col as int) || s0.cells@[idx(
                                    sz,
                                    yr,
                                    yc,
                                )].visibility == Visibility::Open {
                                    assert(s0.cells@[idx(sz, xr, xc)].visibility
                                        == Visibility::Closed);
                                    if s0.cells@[idx(sz, xr, xc)].visibility != Visibility::Open {
                                        let j = choose|j: int|
                                            0 <= j < q0.len() && q0[j] == (xr as usize, xc as usize);
                                        if j < q0.len() - 1 {
                                            assert(queue@[j] == q0[j]);
                                        } else {
                                            assert(p == (xr as usize, xc as usize));
                                            assert(k2 as int == idx(sz, xr, xc));
                                            assert(cell == s0.cells@[idx(sz, xr, xc)]);
                                            assert(self.cells@[k2 as int].visibility
                                                == Visibility::Open);
                                            assert(false);
                                        }
                                    }
                                } else {
                                    assert(idx(sz, yr, yc) == k2 as int);
                                    assert(yr == qr as int && yc == qc as int);
                                    assert(cell.neighbor_mine_count as int == nbr_mines(
                                        old(self).cells@,
                                        sz,
                                        yr,
                                        yc,
                                    ));
                                    assert(self.cell_at(xr, xc).visibility == Visibility::Closed);
                                    assert(queue@.contains((xr as usize, xc as usize)));
                                }
                            }
                        }
                    }
                }
            }
        }
        if alive {
            proof {
                if casc && has_openable_mine_nbr(old(self).cells@, sz, row as int, col as int) {
                    assert(false);
                }
            }
            let found = self.has_hidden_safe_cell();
            if !found {
                self.state = GameState::Won;
            }
        }
        proof {
            lemma_idx_bounds(sz, row as int, col as int);
            if zcase {
                if self.state == GameState::Lost {
                    let w = lemma_openable_mine_nbr_elim(
                        old(self).cells@,
                        sz,
                        row as int,
                        col as int,
                    );
                    lemma_no_adjacent_mine(
                        old(self).cells@,
                        sz,
                        row as int,
                        col as int,
                        w.0,
                        w.1,
                    );
                    assert(false);
                }
                assert(queue@.len() == 0);
                assert forall|r2: int, c2: int| in_grid(sz, r2, c2) implies #[trigger] self.cells@[idx(
                    sz,
                    r2,
                    c2,
                )].visibility == (if zero_cascade_opens(
                    old(self).cells@,
                    sz,
                    row as int,
                    col as int,
                    r2,
                    c2,
                ) {
                    Visibility::Open
                } else {
                    old(self).cells@[idx(sz, r2, c2)].visibility
                }) by {
                    lemma_idx_bounds(sz, r2, c2);
                    if zero_cascade_opens(old(self).cells@, sz, row as int, col as int, r2, c2) {
                        if !(r2 == row as int && c2 == col as int) {
                            let (r1, c1) = choose|r1: int, c1: int|
                                #[trigger] in_zero_region(
                                    old(self).cells@,
                                    sz,
                                    row as int,
                                    col as int,
                                    r1,
                                    c1,
                                ) && adjacent(r1, c1, r2, c2);
                            let n = choose|n: nat|
                                in_zero_region_n(
                                    old(self).cells@,
                                    sz,
                                    row as int,
                                    col as int,
                                    r1,
                                    c1,
                                    n,
                                );
                            assert(in_zero_region_n(
                                old(self).cells@,
                                sz,
                                row as int,
                                col as int,
                                r1,
                                c1,
                                n,
                            ));
                            assert(cascade_source(
                                old(self).cells@,
                                sz,
                                row as int,
                                col as int,
                                r1,
                                c1,
                            ));
                            lemma_idx_bounds(sz, r1, c1);
                            lemma_zero_region_open(
                                old(self).cells@,
                                self.cells@,
                                sz,
                                row as int,
                                col as int,
                                r1,
                                c1,
                                n,
                            );
                        }
                    }
                }
            }
            if old(self).cell_at(row as int, col as int).visibility == Visibility::Open && !casc {
                assert forall|k: int|
                    0 <= k < self.cells@.len() implies #[trigger] self.cells@[k].visibility == old(
                    self,
                ).cells@[k].visibility by {
                    if k == t as int {
                        assert(self.cells@[t as int].visibility == Visibility::Open);
                    }
                }
                if delta@.len() > 0 {
                    lemma_idx_bounds(sz, delta@[0].0 as int, delta@[0].1 as int);
                    assert(false);
                }
            }
        }
        delta
    }

    /// On every well-formed board the flag counter agrees with the number of
    /// flagged cells on the grid.
    pub proof fn lemma_flag_counter_accurate(self)
        requires
            self.wf(),
        ensures
            self.flags_placed == self.flags_total(),
            self.flags_placed <= self.mine_count,
    {
    }

    /// On every well-formed board each cell's stored neighbor count equals
    /// the exact number of mines among its up-to-eight grid neighbors.
    pub proof fn lemma_neighbor_counts_accurate(self, r: int, c: int)
        requires
            self.wf(),
            in_grid(self.size as int, r, c),
        ensures
            self.cell_at(r, c).neighbor_mine_count == nbr_mines(self.cells@, self.size as int, r, c),
    {
    }
}

/// Relies on rand's `SliceRandom::choose_multiple` (driven by `thread_rng`):
/// it draws `amount` elements of the slice at random without repetition,
/// clamping `amount` to the slice length, so a duplicate-free pool yields
/// that many distinct values from the pool.
#[verifier::external_body]
fn choose_distinct(pool: &Vec<usize>, amount: usize) -> (picked: Vec<usize>)
    requires
        forall|j1: int, j2: int| 0 <= j1 < j2 < pool@.len() ==> pool@[j1] != pool@[j2],
    ensures
        picked@.len() == if amount <= pool@.len() {
            amount as int
        } else {
            pool@.len() as int
        },
        forall|i: int| 0 <= i < picked@.len() ==> pool@.contains(#[trigger] picked@[i]),
        forall|i: int, j: int| 0 <= i < j < picked@.len() ==> picked@[i] != picked@[j],
{
    let mut rng = rand::thread_rng();
    pool.as_slice().choose_multiple(&mut rng, amount).copied().collect()
}

} // verus!
