//! Conway's Game of Life on a wrapping (toroidal) grid of `u8`
//! cells that are either 0 (dead) or 1 (alive).

use vstd::prelude::*;
use vstd::arithmetic::div_mod::lemma_small_mod;
use vstd::arithmetic::div_mod::lemma_mod_add_multiples_vanish;
use vstd::arithmetic::div_mod::lemma_mod_self_0;
use vstd::arithmetic::div_mod::lemma_add_mod_noop;

verus! {

/// A grid of `NR` rows and `NC` columns; each cell is 0 (dead) or 1 (alive).
pub type Grid<const NR: usize, const NC: usize> = [[u8; NC]; NR];

/// The value of the cell at row `r`, column `c`.
pub open spec fn cell<const NR: usize, const NC: usize>(g: [[u8; NC]; NR], r: int, c: int) -> int {
    g[r][c] as int
}

/// The row (or column) before `i` on a ring of `n` positions.
pub open spec fn ring_prev(i: int, n: int) -> int {
    (i + n - 1) % n
}

/// The row (or column) after `i` on a ring of `n` positions.
pub open spec fn ring_next(i: int, n: int) -> int {
    (i + 1) % n
}

/// The sum of the eight cells around (`r`, `c`), with rows and columns
/// wrapping around the grid's edges.
pub open spec fn live_neighbors<const NR: usize, const NC: usize>(
    g: [[u8; NC]; NR],
    r: int,
    c: int,
) -> int {
    let pr = ring_prev(r, NR as int);
    let nr = ring_next(r, NR as int);
    let pc = ring_prev(c, NC as int);
    let nc = ring_next(c, NC as int);
    cell(g, pr, pc) + cell(g, pr, c) + cell(g, pr, nc) + cell(g, r, pc) + cell(g, r, nc)
        + cell(g, nr, pc) + cell(g, nr, c) + cell(g, nr, nc)
}

/// The rule of the game for one cell: a live cell with fewer than two or
/// more than three live neighbours dies; a dead cell with exactly three is
/// born; every other cell keeps its value.
pub open spec fn next_cell(v: u8, n: int) -> u8 {
    if v == 1 && (n < 2 || n > 3) {
        0
    } else if v == 0 && n == 3 {
        1
    } else {
        v
    }
}

/// Every cell of the grid is 0 or 1.
pub open spec fn is_binary<const NR: usize, const NC: usize>(g: [[u8; NC]; NR]) -> bool {
    forall|r: int, c: int| 0 <= r < NR && 0 <= c < NC ==> #[trigger] g[r][c] <= 1
}

/// Every cell of the grid is 0.
pub open spec fn is_empty<const NR: usize, const NC: usize>(g: [[u8; NC]; NR]) -> bool {
    forall|r: int, c: int| 0 <= r < NR && 0 <= c < NC ==> #[trigger] g[r][c] == 0
}

/// `next` is the generation that follows `prev`.
pub open spec fn is_next_generation<const NR: usize, const NC: usize>(
    prev: [[u8; NC]; NR],
    next: [[u8; NC]; NR],
) -> bool {
    forall|r: int, c: int|
        0 <= r < NR && 0 <= c < NC ==> #[trigger] next[r][c] == next_cell(
            prev[r][c],
            live_neighbors(prev, r, c),
        )
}

fn prev_index(i: usize, n: usize) -> (p: usize)
    requires
        i < n,
    ensures
        p == ring_prev(i as int, n as int),
        p < n,
{
    proof {
        lemma_ring_values(i as int, n as int);
    }
    if i == 0 {
        n - 1
    } else {
        i - 1
    }
}

fn next_index(i: usize, n: usize) -> (p: usize)
    requires
        i < n,
    ensures
        p == ring_next(i as int, n as int),
        p < n,
{
    proof {
        lemma_ring_values(i as int, n as int);
    }
    if i + 1 < n {
        i + 1
    } else {
        0
    }
}

/// Make a step according to the Game of Life rules.
pub fn life<const NR: usize, const NC: usize>(fb: &mut [[u8; NC]; NR])
    requires
        is_binary(*old(fb)),
    ensures
        is_next_generation(*old(fb), *final(fb)),
        is_binary(*final(fb)),
{
    let prev = *fb;
    let mut row: usize = 0;
    while row < NR
        invariant
            0 <= row <= NR,
            is_binary(prev),
            prev == *old(fb),
            forall|r: int, c: int|
                0 <= r < row && 0 <= c < NC ==> #[trigger] fb[r][c] == next_cell(
                    prev[r][c],
                    live_neighbors(prev, r, c),
                ),
            forall|r: int, c: int| row <= r < NR && 0 <= c < NC ==> #[trigger] fb[r][c] == prev[r][c],
        decreases NR - row,
    {
        let prev_row = prev_index(row, NR);
        let next_row = next_index(row, NR);
        let mut line = fb[row];
        let mut col: usize = 0;
        while col < NC
            invariant
                0 <= row < NR,
                0 <= col <= NC,
                is_binary(prev),
                prev_row == ring_prev(row as int, NR as int),
                next_row == ring_next(row as int, NR as int),
                prev_row < NR,
                next_row < NR,
                forall|c: int|
                    0 <= c < col ==> #[trigger] line[c] == next_cell(
                        prev[row as int][c],
                        live_neighbors(prev, row as int, c),
                    ),
                forall|c: int| col <= c < NC ==> #[trigger] line[c] == prev[row as int][c],
            decreases NC - col,
        {
            let prev_col = prev_index(col, NC);
            let next_col = next_index(col, NC);
            let coords: [(usize, usize); 8] = [
                (prev_row, prev_col),
                (prev_row, col),
                (prev_row, next_col),
                (row, prev_col),
                (row, next_col),
                (next_row, prev_col),
                (next_row, col),
                (next_row, next_col),
            ];
            let mut neighbors: u8 = 0;
            let mut k: usize = 0;
            while k < 8
                invariant
                    0 <= k <= 8,
                    is_binary(prev),
                    forall|j: int| 0 <= j < 8 ==> #[trigger] coords[j].0 < NR && coords[j].1 < NC,
                    neighbors <= k,
                    neighbors == partial_sum(prev, coords@, k as int),
                decreases 8 - k,
            {
                let (r, c) = coords[k];
                let v = prev[r][c];
                neighbors = neighbors + v;
                k = k + 1;
            }
            proof {
                reveal_with_fuel(partial_sum, 9);
            }
            assert(neighbors == live_neighbors(prev, row as int, col as int));
            let cur = prev[row][col];
            if cur == 1 && (neighbors < 2 || neighbors > 3) {
                line[col] = 0;
            } else if cur == 0 && neighbors == 3 {
                line[col] = 1;
            }
            col = col + 1;
        }
        fb[row] = line;
        row = row + 1;
    }
}

/// A generation that follows an empty grid is empty: nothing is born
/// where nothing lives.
pub proof fn lemma_empty_grid_stays_empty<const NR: usize, const NC: usize>(
    prev: [[u8; NC]; NR],
    next: [[u8; NC]; NR],
)
    requires
        is_empty(prev),
        is_next_generation(prev, next),
    ensures
        is_empty(next),
{
    assert forall|r: int, c: int| 0 <= r < NR && 0 <= c < NC implies #[trigger] next[r][c] == 0 by {
        assert(next[r][c] == next_cell(prev[r][c], live_neighbors(prev, r, c)));
        assert(prev[r][c] == 0);
        let pr = ring_prev(r, NR as int);
        let nr = ring_next(r, NR as int);
        let pc = ring_prev(c, NC as int);
        let nc = ring_next(c, NC as int);
        lemma_ring_bounds(r, NR as int);
        lemma_ring_bounds(c, NC as int);
        assert(prev[pr][pc] == 0 && prev[pr][c] == 0 && prev[pr][nc] == 0);
        assert(prev[r][pc] == 0 && prev[r][nc] == 0);
        assert(prev[nr][pc] == 0 && prev[nr][c] == 0 && prev[nr][nc] == 0);
    }
}

/// The rule of the game is B3/S23: in the generation that follows a grid
/// of 0s and 1s, a cell is alive exactly when it was dead with exactly three
/// live neighbours (birth) or alive with two or three (survival); every
/// other cell is dead.
pub proof fn lemma_birth_three_survival_two_three<const NR: usize, const NC: usize>(
    prev: [[u8; NC]; NR],
    next: [[u8; NC]; NR],
    r: int,
    c: int,
)
    requires
        is_binary(prev),
        is_next_generation(prev, next),
        0 <= r < NR,
        0 <= c < NC,
    ensures
        next[r][c] == 0 || next[r][c] == 1,
        next[r][c] == 1 <==> (prev[r][c] == 0 && live_neighbors(prev, r, c) == 3) || (prev[r][c]
            == 1 && (live_neighbors(prev, r, c) == 2 || live_neighbors(prev, r, c) == 3)),
        prev[r][c] == 0 && live_neighbors(prev, r, c) != 3 ==> next[r][c] == 0,
        prev[r][c] == 1 && live_neighbors(prev, r, c) < 2 ==> next[r][c] == 0,
        prev[r][c] == 1 && live_neighbors(prev, r, c) > 3 ==> next[r][c] == 0,
{
    assert(next[r][c] == next_cell(prev[r][c], live_neighbors(prev, r, c)));
    assert(prev[r][c] <= 1);
}

/// A generation that follows a grid of 0s and 1s again holds only 0s
/// and 1s.
pub proof fn lemma_next_generation_is_binary<const NR: usize, const NC: usize>(
    prev: [[u8; NC]; NR],
    next: [[u8; NC]; NR],
)
    requires
        is_binary(prev),
        is_next_generation(prev, next),
    ensures
        is_binary(next),
{
    assert forall|r: int, c: int| 0 <= r < NR && 0 <= c < NC implies #[trigger] next[r][c] <= 1 by {
        assert(next[r][c] == next_cell(prev[r][c], live_neighbors(prev, r, c)));
        assert(prev[r][c] <= 1);
    }
}

proof fn lemma_ring_bounds(i: int, n: int)
    requires
        0 <= i < n,
    ensures
        0 <= ring_prev(i, n) < n,
        0 <= ring_next(i, n) < n,
{
    vstd::arithmetic::div_mod::lemma_mod_bound(i + n - 1, n);
    vstd::arithmetic::div_mod::lemma_mod_bound(i + 1, n);
}

/// `h` is `g` shifted cyclically: cell (`r`, `c`) of `h` is cell
/// (`r + a`, `c + b`) of `g`, wrapping around the edges.
pub open spec fn is_shift<const NR: usize, const NC: usize>(
    g: [[u8; NC]; NR],
    h: [[u8; NC]; NR],
    a: int,
    b: int,
) -> bool {
    forall|r: int, c: int|
        0 <= r < NR && 0 <= c < NC ==> #[trigger] h[r][c] == g[(r + a) % (NR as int)][(c + b) % (
        NC as int)]
}

/// `h` is `g` mirrored along the diagonal.
pub open spec fn is_transpose<const N: usize>(g: [[u8; N]; N], h: [[u8; N]; N]) -> bool {
    forall|r: int, c: int| 0 <= r < N && 0 <= c < N ==> #[trigger] h[r][c] == g[c][r]
}

/// `h` is `g` with the order of its rows reversed.
pub open spec fn is_row_reversal<const NR: usize, const NC: usize>(
    g: [[u8; NC]; NR],
    h: [[u8; NC]; NR],
) -> bool {
    forall|r: int, c: int| 0 <= r < NR && 0 <= c < NC ==> #[trigger] h[r][c] == g[NR - 1 - r][c]
}

/// `h` is `g` with the order of its columns reversed.
pub open spec fn is_column_reversal<const NR: usize, const NC: usize>(
    g: [[u8; NC]; NR],
    h: [[u8; NC]; NR],
) -> bool {
    forall|r: int, c: int| 0 <= r < NR && 0 <= c < NC ==> #[trigger] h[r][c] == g[r][NC - 1 - c]
}

proof fn lemma_ring_values(i: int, n: int)
    requires
        0 <= i < n,
    ensures
        ring_prev(i, n) == (if i == 0 { n - 1 } else { i - 1 }),
        ring_next(i, n) == (if i == n - 1 { 0 } else { i + 1 }),
{
    if i == 0 {
        lemma_small_mod((n - 1) as nat, n as nat);
    } else {
        lemma_mod_add_multiples_vanish(i - 1, n);
        lemma_small_mod((i - 1) as nat, n as nat);
    }
    if i + 1 < n {
        lemma_small_mod((i + 1) as nat, n as nat);
    } else {
        lemma_mod_self_0(n);
    }
}

proof fn lemma_ring_shift(i: int, a: int, n: int)
    requires
        0 <= i < n,
        0 <= a < n,
    ensures
        (ring_prev(i, n) + a) % n == ring_prev((i + a) % n, n),
        (ring_next(i, n) + a) % n == ring_next((i + a) % n, n),
        0 <= (i + a) % n < n,
{
    vstd::arithmetic::div_mod::lemma_mod_bound(i + a, n);
    lemma_small_mod(a as nat, n as nat);
    lemma_small_mod((n - 1) as nat, n as nat);
    lemma_add_mod_noop(i + n - 1, a, n);
    lemma_add_mod_noop(i + a, n - 1, n);
    assert(i + n - 1 + a == i + a + (n - 1));
    if n > 1 {
        lemma_small_mod(1, n as nat);
        lemma_add_mod_noop(i + 1, a, n);
        lemma_add_mod_noop(i + a, 1, n);
        assert(i + 1 + a == i + a + 1);
    } else {
        assert(i == 0 && a == 0);
        lemma_mod_self_0(1);
    }
}

/// A generation commutes with cyclic shifts of the grid: shifting and then
/// stepping gives the same grid as stepping and then shifting.
pub proof fn lemma_shift_commutes<const NR: usize, const NC: usize>(
    g: [[u8; NC]; NR],
    g2: [[u8; NC]; NR],
    h: [[u8; NC]; NR],
    h2: [[u8; NC]; NR],
    a: int,
    b: int,
)
    requires
        0 <= a < NR,
        0 <= b < NC,
        is_shift(g, h, a, b),
        is_next_generation(g, g2),
        is_next_generation(h, h2),
    ensures
        is_shift(g2, h2, a, b),
{
    let nr = NR as int;
    let nc = NC as int;
    assert forall|r: int, c: int| 0 <= r < NR && 0 <= c < NC implies #[trigger] h2[r][c]
        == g2[(r + a) % nr][(c + b) % nc] by {
        let rr = (r + a) % nr;
        let cc = (c + b) % nc;
        lemma_ring_shift(r, a, nr);
        lemma_ring_shift(c, b, nc);
        lemma_ring_bounds(r, nr);
        lemma_ring_bounds(c, nc);
        let pr = ring_prev(r, nr);
        let xr = ring_next(r, nr);
        let pc = ring_prev(c, nc);
        let xc = ring_next(c, nc);
        assert(h[pr][pc] == g[(pr + a) % nr][(pc + b) % nc]);
        assert(h[pr][c] == g[(pr + a) % nr][(c + b) % nc]);
        assert(h[pr][xc] == g[(pr + a) % nr][(xc + b) % nc]);
        assert(h[r][pc] == g[(r + a) % nr][(pc + b) % nc]);
        assert(h[r][c] == g[(r + a) % nr][(c + b) % nc]);
        assert(h[r][xc] == g[(r + a) % nr][(xc + b) % nc]);
        assert(h[xr][pc] == g[(xr + a) % nr][(pc + b) % nc]);
        assert(h[xr][c] == g[(xr + a) % nr][(c + b) % nc]);
        assert(h[xr][xc] == g[(xr + a) % nr][(xc + b) % nc]);
        assert(live_neighbors(h, r, c) == live_neighbors(g, rr, cc));
        assert(h2[r][c] == next_cell(h[r][c], live_neighbors(h, r, c)));
        assert(g2[rr][cc] == next_cell(g[rr][cc], live_neighbors(g, rr, cc)));
    }
}

/// A generation commutes with mirroring a square grid along its diagonal.
pub proof fn lemma_transpose_commutes<const N: usize>(
    g: [[u8; N]; N],
    g2: [[u8; N]; N],
    h: [[u8; N]; N],
    h2: [[u8; N]; N],
)
    requires
        is_transpose(g, h),
        is_next_generation(g, g2),
        is_next_generation(h, h2),
    ensures
        is_transpose(g2, h2),
{
    let n = N as int;
    assert forall|r: int, c: int| 0 <= r < N && 0 <= c < N implies #[trigger] h2[r][c] == g2[c][r] by {
        lemma_ring_bounds(r, n);
        lemma_ring_bounds(c, n);
        let pr = ring_prev(r, n);
        let xr = ring_next(r, n);
        let pc = ring_prev(c, n);
        let xc = ring_next(c, n);
        assert(h[pr][pc] == g[pc][pr]);
        assert(h[pr][c] == g[c][pr]);
        assert(h[pr][xc] == g[xc][pr]);
        assert(h[r][pc] == g[pc][r]);
        assert(h[r][c] == g[c][r]);
        assert(h[r][xc] == g[xc][r]);
        assert(h[xr][pc] == g[pc][xr]);
        assert(h[xr][c] == g[c][xr]);
        assert(h[xr][xc] == g[xc][xr]);
        assert(live_neighbors(h, r, c) == live_neighbors(g, c, r));
        assert(h2[r][c] == next_cell(h[r][c], live_neighbors(h, r, c)));
        assert(g2[c][r] == next_cell(g[c][r], live_neighbors(g, c, r)));
    }
}

/// A generation commutes with reversing the order of the rows.
pub proof fn lemma_row_reversal_commutes<const NR: usize, const NC: usize>(
    g: [[u8; NC]; NR],
    g2: [[u8; NC]; NR],
    h: [[u8; NC]; NR],
    h2: [[u8; NC]; NR],
)
    requires
        is_row_reversal(g, h),
        is_next_generation(g, g2),
        is_next_generation(h, h2),
    ensures
        is_row_reversal(g2, h2),
{
    let nr = NR as int;
    let nc = NC as int;
    assert forall|r: int, c: int| 0 <= r < NR && 0 <= c < NC implies #[trigger] h2[r][c]
        == g2[nr - 1 - r][c] by {
        let m = nr - 1 - r;
        lemma_ring_values(r, nr);
        lemma_ring_values(m, nr);
        lemma_ring_bounds(c, nc);
        let pr = ring_prev(r, nr);
        let xr = ring_next(r, nr);
        let pc = ring_prev(c, nc);
        let xc = ring_next(c, nc);
        assert(nr - 1 - pr == ring_next(m, nr));
        assert(nr - 1 - xr == ring_prev(m, nr));
        assert(h[pr][pc] == g[nr - 1 - pr][pc]);
        assert(h[pr][c] == g[nr - 1 - pr][c]);
        assert(h[pr][xc] == g[nr - 1 - pr][xc]);
        assert(h[r][pc] == g[m][pc]);
        assert(h[r][c] == g[m][c]);
        assert(h[r][xc] == g[m][xc]);
        assert(h[xr][pc] == g[nr - 1 - xr][pc]);
        assert(h[xr][c] == g[nr - 1 - xr][c]);
        assert(h[xr][xc] == g[nr - 1 - xr][xc]);
        assert(live_neighbors(h, r, c) == live_neighbors(g, m, c));
        assert(h2[r][c] == next_cell(h[r][c], live_neighbors(h, r, c)));
        assert(g2[m][c] == next_cell(g[m][c], live_neighbors(g, m, c)));
    }
}

/// A generation commutes with reversing the order of the columns.
pub proof fn lemma_column_reversal_commutes<const NR: usize, const NC: usize>(
    g: [[u8; NC]; NR],
    g2: [[u8; NC]; NR],
    h: [[u8; NC]; NR],
    h2: [[u8; NC]; NR],
)
    requires
        is_column_reversal(g, h),
        is_next_generation(g, g2),
        is_next_generation(h, h2),
    ensures
        is_column_reversal(g2, h2),
{
    let nr = NR as int;
    let nc = NC as int;
    assert forall|r: int, c: int| 0 <= r < NR && 0 <= c < NC implies #[trigger] h2[r][c]
        == g2[r][nc - 1 - c] by {
        let m = nc - 1 - c;
        lemma_ring_values(c, nc);
        lemma_ring_values(m, nc);
        lemma_ring_bounds(r, nr);
        let pr = ring_prev(r, nr);
        let xr = ring_next(r, nr);
        let pc = ring_prev(c, nc);
        let xc = ring_next(c, nc);
        assert(nc - 1 - pc == ring_next(m, nc));
        assert(nc - 1 - xc == ring_prev(m, nc));
        assert(h[pr][pc] == g[pr][nc - 1 - pc]);
        assert(h[pr][c] == g[pr][m]);
        assert(h[pr][xc] == g[pr][nc - 1 - xc]);
        assert(h[r][pc] == g[r][nc - 1 - pc]);
        assert(h[r][c] == g[r][m]);
        assert(h[r][xc] == g[r][nc - 1 - xc]);
        assert(h[xr][pc] == g[xr][nc - 1 - pc]);
        assert(h[xr][c] == g[xr][m]);
        assert(h[xr][xc] == g[xr][nc - 1 - xc]);
        assert(live_neighbors(h, r, c) == live_neighbors(g, r, m));
        assert(h2[r][c] == next_cell(h[r][c], live_neighbors(h, r, c)));
        assert(g2[r][m] == next_cell(g[r][m], live_neighbors(g, r, m)));
    }
}

/// The sum of the cells at the first `k` of the given coordinates.
spec fn partial_sum<const NR: usize, const NC: usize>(
    g: [[u8; NC]; NR],
    coords: Seq<(usize, usize)>,
    k: int,
) -> int
    decreases k,
{
    if k <= 0 {
        0
    } else {
        partial_sum(g, coords, k - 1) + cell(g, coords[k - 1].0 as int, coords[k - 1].1 as int)
    }
}

} // verus!
