//! Cell-level data model and the grid-geometry spec functions: indexing,
//! the eight-neighborhood, the safety zone, and the win condition.

use vstd::prelude::*;

verus! {

/// What the player sees of a single cell.
#[derive(Clone, Copy, PartialEq, Eq, Structural, Debug)]
pub enum Visibility {
    Closed,
    Open,
    Flagged,
}

/// The overall lifecycle of a board.
#[derive(Clone, Copy, PartialEq, Eq, Structural, Debug)]
pub enum GameState {
    Init,
    Playing,
    Lost,
    Won,
}

/// One cell of the grid.
#[derive(Clone, Copy, PartialEq, Eq, Structural, Debug)]
pub struct Cell {
    pub is_mine: bool,
    pub visibility: Visibility,
    pub neighbor_mine_count: usize,
}

/// The flat index of the cell at `(r, c)` on a `size`-wide grid.
pub open spec fn idx(size: int, r: int, c: int) -> int {
    r * size + c
}

/// Whether `(r, c)` lies on the grid.
pub open spec fn in_grid(size: int, r: int, c: int) -> bool {
    0 <= r < size && 0 <= c < size
}

/// One when the cell at `(r, c)` exists and holds a mine, zero otherwise.
pub open spec fn mine_at(cells: Seq<Cell>, size: int, r: int, c: int) -> int {
    if in_grid(size, r, c) && cells[idx(size, r, c)].is_mine {
        1
    } else {
        0
    }
}

/// One when the cell at `(r, c)` exists and is flagged, zero otherwise.
pub open spec fn flag_at(cells: Seq<Cell>, size: int, r: int, c: int) -> int {
    if in_grid(size, r, c) && cells[idx(size, r, c)].visibility == Visibility::Flagged {
        1
    } else {
        0
    }
}

/// The exact number of mines among the up-to-eight neighbors of `(r, c)`.
pub open spec fn nbr_mines(cells: Seq<Cell>, size: int, r: int, c: int) -> int {
    mine_at(cells, size, r - 1, c - 1) + mine_at(cells, size, r - 1, c) + mine_at(
        cells,
        size,
        r - 1,
        c + 1,
    ) + mine_at(cells, size, r, c - 1) + mine_at(cells, size, r, c + 1) + mine_at(
        cells,
        size,
        r + 1,
        c - 1,
    ) + mine_at(cells, size, r + 1, c) + mine_at(cells, size, r + 1, c + 1)
}

/// The exact number of flags among the up-to-eight neighbors of `(r, c)`.
pub open spec fn nbr_flags(cells: Seq<Cell>, size: int, r: int, c: int) -> int {
    flag_at(cells, size, r - 1, c - 1) + flag_at(cells, size, r - 1, c) + flag_at(
        cells,
        size,
        r - 1,
        c + 1,
    ) + flag_at(cells, size, r, c - 1) + flag_at(cells, size, r, c + 1) + flag_at(
        cells,
        size,
        r + 1,
        c - 1,
    ) + flag_at(cells, size, r + 1, c) + flag_at(cells, size, r + 1, c + 1)
}

/// Whether the cell at `(r, c)` exists, holds a mine, and is still closed
/// (neither open nor flagged), so a reveal could step on it.
pub open spec fn openable_mine_at(cells: Seq<Cell>, size: int, r: int, c: int) -> bool {
    in_grid(size, r, c) && cells[idx(size, r, c)].is_mine && cells[idx(size, r, c)].visibility
        == Visibility::Closed
}

/// Whether some neighbor of `(r, c)` is a closed, unflagged mine.
pub open spec fn has_openable_mine_nbr(cells: Seq<Cell>, size: int, r: int, c: int) -> bool {
    ||| openable_mine_at(cells, size, r - 1, c - 1)
    ||| openable_mine_at(cells, size, r - 1, c)
    ||| openable_mine_at(cells, size, r - 1, c + 1)
    ||| openable_mine_at(cells, size, r, c - 1)
    ||| openable_mine_at(cells, size, r, c + 1)
    ||| openable_mine_at(cells, size, r + 1, c - 1)
    ||| openable_mine_at(cells, size, r + 1, c)
    ||| openable_mine_at(cells, size, r + 1, c + 1)
}

/// Whether `(r2, c2)` is one of the up-to-eight neighbors of `(r1, c1)`.
pub open spec fn adjacent(r1: int, c1: int, r2: int, c2: int) -> bool {
    r1 - 1 <= r2 <= r1 + 1 && c1 - 1 <= c2 <= c1 + 1 && !(r2 == r1 && c2 == c1)
}

/// Every cell's stored neighbor count matches the true adjacent-mine count.
pub open spec fn counts_correct(cells: Seq<Cell>, size: int) -> bool {
    forall|r: int, c: int|
        in_grid(size, r, c) ==> #[trigger] cells[idx(size, r, c)].neighbor_mine_count == nbr_mines(
            cells,
            size,
            r,
            c,
        )
}

/// An edit that keeps every mine field and every stored count also keeps the
/// stored counts correct.
pub proof fn lemma_counts_correct_preserved(a: Seq<Cell>, b: Seq<Cell>, size: int)
    requires
        a.len() == b.len(),
        a.len() == size * size,
        0 <= size,
        forall|k: int| 0 <= k < a.len() ==> a[k].is_mine == b[k].is_mine,
        forall|k: int| 0 <= k < a.len() ==> a[k].neighbor_mine_count == b[k].neighbor_mine_count,
        counts_correct(a, size),
    ensures
        counts_correct(b, size),
{
    assert forall|r: int, c: int| in_grid(size, r, c) implies #[trigger] b[idx(
        size,
        r,
        c,
    )].neighbor_mine_count == nbr_mines(b, size, r, c) by {
        lemma_idx_bounds(size, r, c);
        lemma_nbr_mines_congruence(a, b, size, r, c);
    }
}

/// A closed, unflagged mine beside `(r, c)` witnesses `has_openable_mine_nbr`.
pub proof fn lemma_openable_mine_nbr_intro(
    cells: Seq<Cell>,
    size: int,
    r: int,
    c: int,
    nr: int,
    nc: int,
)
    requires
        adjacent(r, c, nr, nc),
        openable_mine_at(cells, size, nr, nc),
    ensures
        has_openable_mine_nbr(cells, size, r, c),
{
}

/// A witness pick for `has_openable_mine_nbr`.
pub proof fn lemma_openable_mine_nbr_elim(cells: Seq<Cell>, size: int, r: int, c: int) -> (w: (
    int,
    int,
))
    requires
        has_openable_mine_nbr(cells, size, r, c),
    ensures
        adjacent(r, c, w.0, w.1),
        openable_mine_at(cells, size, w.0, w.1),
{
    if openable_mine_at(cells, size, r - 1, c - 1) {
        (r - 1, c - 1)
    } else if openable_mine_at(cells, size, r - 1, c) {
        (r - 1, c)
    } else if openable_mine_at(cells, size, r - 1, c + 1) {
        (r - 1, c + 1)
    } else if openable_mine_at(cells, size, r, c - 1) {
        (r, c - 1)
    } else if openable_mine_at(cells, size, r, c + 1) {
        (r, c + 1)
    } else if openable_mine_at(cells, size, r + 1, c - 1) {
        (r + 1, c - 1)
    } else if openable_mine_at(cells, size, r + 1, c) {
        (r + 1, c)
    } else {
        (r + 1, c + 1)
    }
}

/// Beside a cell whose true adjacent-mine count is zero there is no mine.
pub proof fn lemma_no_adjacent_mine(
    cells: Seq<Cell>,
    size: int,
    r: int,
    c: int,
    nr: int,
    nc: int,
)
    requires
        nbr_mines(cells, size, r, c) == 0,
        adjacent(r, c, nr, nc),
        in_grid(size, nr, nc),
    ensures
        !cells[idx(size, nr, nc)].is_mine,
{
    assert(mine_at(cells, size, nr, nc) == 0);
}

/// Whether `(r, c)` can carry the flood started at `(r0, c0)`: it sits on
/// the grid, borders no mine, and is either the start itself or still closed
/// (so the reveal engine steps onto it and keeps going).
pub open spec fn cascade_source(
    cells: Seq<Cell>,
    size: int,
    r0: int,
    c0: int,
    r: int,
    c: int,
) -> bool {
    in_grid(size, r, c) && nbr_mines(cells, size, r, c) == 0 && ((r == r0 && c == c0)
        || cells[idx(size, r, c)].visibility == Visibility::Closed)
}

/// Whether the flood started at `(r0, c0)` reaches `(r, c)` within `n` hops,
/// each hop moving to an adjacent zero-count cell.
pub open spec fn in_zero_region_n(
    cells: Seq<Cell>,
    size: int,
    r0: int,
    c0: int,
    r: int,
    c: int,
    n: nat,
) -> bool
    decreases n,
{
    cascade_source(cells, size, r0, c0, r, c) && ((r == r0 && c == c0) || (n > 0 && {
        let m = (n - 1) as nat;
        ||| in_zero_region_n(cells, size, r0, c0, r - 1, c - 1, m)
        ||| in_zero_region_n(cells, size, r0, c0, r - 1, c, m)
        ||| in_zero_region_n(cells, size, r0, c0, r - 1, c + 1, m)
        ||| in_zero_region_n(cells, size, r0, c0, r, c - 1, m)
        ||| in_zero_region_n(cells, size, r0, c0, r, c + 1, m)
        ||| in_zero_region_n(cells, size, r0, c0, r + 1, c - 1, m)
        ||| in_zero_region_n(cells, size, r0, c0, r + 1, c, m)
        ||| in_zero_region_n(cells, size, r0, c0, r + 1, c + 1, m)
    }))
}

/// The 8-connected region of zero-count cells that the reveal at `(r0, c0)`
/// floods over.
pub open spec fn in_zero_region(cells: Seq<Cell>, size: int, r0: int, c0: int, r: int, c: int) -> bool {
    exists|n: nat| in_zero_region_n(cells, size, r0, c0, r, c, n)
}

/// Which cells a reveal at a zero-count `(r0, c0)` opens: the closed cells of
/// the region itself together with its numbered boundary, one step beyond.
pub open spec fn zero_cascade_opens(
    cells: Seq<Cell>,
    size: int,
    r0: int,
    c0: int,
    r: int,
    c: int,
) -> bool {
    in_grid(size, r, c) && cells[idx(size, r, c)].visibility == Visibility::Closed && ((r == r0 && c
        == c0) || exists|r1: int, c1: int|
        #[trigger] in_zero_region(cells, size, r0, c0, r1, c1) && adjacent(r1, c1, r, c))
}

/// The region grows by one adjacent zero-count closed cell at a time.
pub proof fn lemma_zero_region_step(
    cells: Seq<Cell>,
    size: int,
    r0: int,
    c0: int,
    r1: int,
    c1: int,
    r: int,
    c: int,
)
    requires
        in_zero_region(cells, size, r0, c0, r1, c1),
        adjacent(r1, c1, r, c),
        cascade_source(cells, size, r0, c0, r, c),
    ensures
        in_zero_region(cells, size, r0, c0, r, c),
{
    let n = choose|n: nat| in_zero_region_n(cells, size, r0, c0, r1, c1, n);
    assert(in_zero_region_n(cells, size, r0, c0, r1, c1, n));
    let m = (n + 1) as nat;
    assert((m - 1) as nat == n);
    if r1 == r - 1 && c1 == c - 1 {
        assert(in_zero_region_n(cells, size, r0, c0, r - 1, c - 1, n));
    } else if r1 == r - 1 && c1 == c {
        assert(in_zero_region_n(cells, size, r0, c0, r - 1, c, n));
    } else if r1 == r - 1 && c1 == c + 1 {
        assert(in_zero_region_n(cells, size, r0, c0, r - 1, c + 1, n));
    } else if r1 == r && c1 == c - 1 {
        assert(in_zero_region_n(cells, size, r0, c0, r, c - 1, n));
    } else if r1 == r && c1 == c + 1 {
        assert(in_zero_region_n(cells, size, r0, c0, r, c + 1, n));
    } else if r1 == r + 1 && c1 == c - 1 {
        assert(in_zero_region_n(cells, size, r0, c0, r + 1, c - 1, n));
    } else if r1 == r + 1 && c1 == c {
        assert(in_zero_region_n(cells, size, r0, c0, r + 1, c, n));
    } else {
        assert(in_zero_region_n(cells, size, r0, c0, r + 1, c + 1, n));
    }
    assert(in_zero_region_n(cells, size, r0, c0, r, c, m));
    assert(in_zero_region(cells, size, r0, c0, r, c));
}

/// Once the flood has settled -- the start is open, and beside every
/// zero-count cell that the call opened (or started from) no closed cell is
/// left -- every region cell stands open.  Proved by walking the hops back
/// to the start.
pub proof fn lemma_zero_region_open(
    before: Seq<Cell>,
    after: Seq<Cell>,
    size: int,
    r0: int,
    c0: int,
    r: int,
    c: int,
    n: nat,
)
    requires
        before.len() == size * size,
        after.len() == before.len(),
        0 <= size,
        in_grid(size, r0, c0),
        after[idx(size, r0, c0)].visibility == Visibility::Open,
        forall|yr: int, yc: int, xr: int, xc: int|
            in_grid(size, yr, yc) && in_grid(size, xr, xc) && ((yr == r0 && yc == c0) || (before[
                #[trigger] idx(size, yr, yc)
            ].visibility == Visibility::Closed && after[idx(size, yr, yc)].visibility
                == Visibility::Open)) && nbr_mines(before, size, yr, yc) == 0 && adjacent(
                yr,
                yc,
                xr,
                xc,
            ) && before[#[trigger] idx(size, xr, xc)].visibility == Visibility::Closed ==> after[idx(
                size,
                xr,
                xc,
            )].visibility == Visibility::Open,
        in_zero_region_n(before, size, r0, c0, r, c, n),
    ensures
        after[idx(size, r, c)].visibility == Visibility::Open,
    decreases n,
{
    assert(cascade_source(before, size, r0, c0, r, c));
    lemma_idx_bounds(size, r, c);
    if !(r == r0 && c == c0) {
        let m = (n - 1) as nat;
        let (r1, c1): (int, int) = if in_zero_region_n(before, size, r0, c0, r - 1, c - 1, m) {
            (r - 1, c - 1)
        } else if in_zero_region_n(before, size, r0, c0, r - 1, c, m) {
            (r - 1, c)
        } else if in_zero_region_n(before, size, r0, c0, r - 1, c + 1, m) {
            (r - 1, c + 1)
        } else if in_zero_region_n(before, size, r0, c0, r, c - 1, m) {
            (r, c - 1)
        } else if in_zero_region_n(before, size, r0, c0, r, c + 1, m) {
            (r, c + 1)
        } else if in_zero_region_n(before, size, r0, c0, r + 1, c - 1, m) {
            (r + 1, c - 1)
        } else if in_zero_region_n(before, size, r0, c0, r + 1, c, m) {
            (r + 1, c)
        } else {
            (r + 1, c + 1)
        };
        assert(in_zero_region_n(before, size, r0, c0, r1, c1, m));
        assert(adjacent(r1, c1, r, c));
        assert(cascade_source(before, size, r0, c0, r1, c1));
        lemma_zero_region_open(before, after, size, r0, c0, r1, c1, m);
        lemma_idx_bounds(size, r1, c1);
    }
}

/// Whether `(r, c)` lies in the 3x3 safety zone centered on `(sr, sc)`.
pub open spec fn in_zone(sr: int, sc: int, r: int, c: int) -> bool {
    sr - 1 <= r <= sr + 1 && sc - 1 <= c <= sc + 1
}

/// The first row (or column) of the safety zone around `s`, clipped at zero.
pub open spec fn zone_lo(s: int) -> int {
    if s == 0 {
        0
    } else {
        s - 1
    }
}

/// One past the last row (or column) of the safety zone around `s`, clipped
/// at the grid edge.
pub open spec fn zone_hi(size: int, s: int) -> int {
    if s + 2 <= size {
        s + 2
    } else {
        size
    }
}

/// How many cells of a `size`-wide grid escape the safety zone around
/// `(sr, sc)` and so may receive a mine.
pub open spec fn eligible_cells(size: int, sr: int, sc: int) -> int {
    size * size - (zone_hi(size, sr) - zone_lo(sr)) * (zone_hi(size, sc) - zone_lo(sc))
}

/// The mine count actually used: the requested one, silently clamped to the
/// number of eligible cells.
pub open spec fn clamped_mines(requested: int, size: int, sr: int, sc: int) -> int {
    if requested <= eligible_cells(size, sr, sc) {
        requested
    } else {
        eligible_cells(size, sr, sc)
    }
}

/// Whether the flat index `v` denotes some grid cell outside the safety zone.
pub open spec fn eligible_index(size: int, sr: int, sc: int, v: int) -> bool {
    exists|r: int, c: int|
        in_grid(size, r, c) && !in_zone(sr, sc, r, c) && v == idx(size, r, c)
}

/// How many of the first `n` cells are still closed.
pub open spec fn closed_cells_upto(cells: Seq<Cell>, n: int) -> int
    decreases n,
{
    if n <= 0 {
        0
    } else {
        closed_cells_upto(cells, n - 1) + if cells[n - 1].visibility == Visibility::Closed {
            1int
        } else {
            0int
        }
    }
}

/// Opening one closed cell lowers the closed-cell tally by exactly one.
pub proof fn lemma_closed_cells_update(a: Seq<Cell>, b: Seq<Cell>, n: int, j: int)
    requires
        0 <= j < n,
        forall|k: int| 0 <= k < n && k != j ==> a[k].visibility == b[k].visibility,
        a[j].visibility == Visibility::Closed,
        b[j].visibility != Visibility::Closed,
    ensures
        closed_cells_upto(b, n) == closed_cells_upto(a, n) - 1,
    decreases n,
{
    if j == n - 1 {
        lemma_closed_cells_same(a, b, n - 1);
    } else {
        lemma_closed_cells_update(a, b, n - 1, j);
    }
}

/// A closed-cell tally never leaves `[0, n]`.
pub proof fn lemma_closed_cells_bounds(cells: Seq<Cell>, n: int)
    requires
        0 <= n,
    ensures
        0 <= closed_cells_upto(cells, n) <= n,
    decreases n,
{
    if n > 0 {
        lemma_closed_cells_bounds(cells, n - 1);
    }
}

/// Cells with pointwise equal visibility have equal closed-cell tallies.
pub proof fn lemma_closed_cells_same(a: Seq<Cell>, b: Seq<Cell>, n: int)
    requires
        forall|k: int| 0 <= k < n ==> a[k].visibility == b[k].visibility,
    ensures
        closed_cells_upto(b, n) == closed_cells_upto(a, n),
    decreases n,
{
    if n > 0 {
        lemma_closed_cells_same(a, b, n - 1);
    }
}

/// The win condition: no safe (mine-free) cell is still closed.
pub open spec fn all_safe_revealed(cells: Seq<Cell>) -> bool {
    forall|k: int|
        0 <= k < cells.len() ==> (cells[k].is_mine || cells[k].visibility != Visibility::Closed)
}

/// Two flat indices on the grid agree only when their coordinates agree.
pub proof fn lemma_idx_injective(size: int, r1: int, c1: int, r2: int, c2: int)
    by (nonlinear_arith)
    requires
        in_grid(size, r1, c1),
        in_grid(size, r2, c2),
    ensures
        idx(size, r1, c1) == idx(size, r2, c2) ==> (r1 == r2 && c1 == c2),
{
}

/// Flat indices of grid positions stay below `size * size`.
pub proof fn lemma_idx_bounds(size: int, r: int, c: int)
    by (nonlinear_arith)
    requires
        in_grid(size, r, c),
    ensures
        0 <= idx(size, r, c) < size * size,
{
}

/// Neighbor-mine counts only read the mine fields, so they survive any edit
/// that keeps every mine field as it was.
pub proof fn lemma_nbr_mines_congruence(a: Seq<Cell>, b: Seq<Cell>, size: int, r: int, c: int)
    requires
        a.len() == b.len(),
        forall|k: int| 0 <= k < a.len() ==> a[k].is_mine == b[k].is_mine,
        a.len() == size * size,
        0 <= size,
    ensures
        nbr_mines(a, size, r, c) == nbr_mines(b, size, r, c),
{
    assert forall|r2: int, c2: int| true implies mine_at(a, size, r2, c2) == mine_at(
        b,
        size,
        r2,
        c2,
    ) by {
        if in_grid(size, r2, c2) {
            lemma_idx_bounds(size, r2, c2);
        }
    }
}






} // verus!
