use vstd::prelude::*;
use crate::cell::{
    Cell, cell_wf, contrib_b, contrib_g, contrib_r, dead_cell, derive_cell, fresh_color, is_parent,
    newborn_color,
};
use crate::rng::random_jitter;

verus! {

/// The cell at (x, y) of a flat row-major grid of width `w`.
pub open spec fn grid_cell(g: Seq<Cell>, w: nat, x: int, y: int) -> Cell {
    g[y * w + x]
}

/// A grid's shape: `w * h` cells in the flat vector, neither side empty.
pub open spec fn grid_dims(g: Seq<Cell>, w: nat, h: nat) -> bool {
    g.len() == w * h && 1 <= w && 1 <= h
}

/// The coordinate one step towards zero on a torus of size `n`.
pub open spec fn coord_dec(v: int, n: nat) -> int {
    if v == 0 {
        n - 1
    } else {
        v - 1
    }
}

/// The coordinate one step away from zero on a torus of size `n`.
pub open spec fn coord_inc(v: int, n: nat) -> int {
    if v == n - 1 {
        0
    } else {
        v + 1
    }
}

pub open spec fn b2i(b: bool) -> int {
    if b {
        1
    } else {
        0
    }
}

/// One where the cell is a parent (alive and colored), zero otherwise.
pub open spec fn p2i(c: Cell) -> int {
    if is_parent(c) {
        1
    } else {
        0
    }
}

/// How many of the eight toroidally wrapped neighbors of (x, y) are alive.
/// On a torus of width or height one a cell is among its own neighbors, and
/// a cell seen through two different wrapped offsets counts twice.
pub open spec fn neighbor_count(g: Seq<Cell>, w: nat, h: nat, x: int, y: int) -> int {
    let xm = coord_dec(x, w);
    let xp = coord_inc(x, w);
    let ym = coord_dec(y, h);
    let yp = coord_inc(y, h);
    b2i(grid_cell(g, w, xm, ym).alive) + b2i(grid_cell(g, w, x, ym).alive) + b2i(
        grid_cell(g, w, xp, ym).alive,
    ) + b2i(grid_cell(g, w, xm, y).alive) + b2i(grid_cell(g, w, xp, y).alive) + b2i(
        grid_cell(g, w, xm, yp).alive,
    ) + b2i(grid_cell(g, w, x, yp).alive) + b2i(grid_cell(g, w, xp, yp).alive)
}

/// How many of the eight neighbors of (x, y) contribute a color: alive and
/// colored, with the same multiplicity as `neighbor_count`.
pub open spec fn parent_count_at(g: Seq<Cell>, w: nat, h: nat, x: int, y: int) -> int {
    let xm = coord_dec(x, w);
    let xp = coord_inc(x, w);
    let ym = coord_dec(y, h);
    let yp = coord_inc(y, h);
    p2i(grid_cell(g, w, xm, ym)) + p2i(grid_cell(g, w, x, ym)) + p2i(grid_cell(g, w, xp, ym))
        + p2i(grid_cell(g, w, xm, y)) + p2i(grid_cell(g, w, xp, y)) + p2i(
        grid_cell(g, w, xm, yp),
    ) + p2i(grid_cell(g, w, x, yp)) + p2i(grid_cell(g, w, xp, yp))
}

/// The summed red channel over the parents among the eight neighbors.
pub open spec fn parent_sum_r(g: Seq<Cell>, w: nat, h: nat, x: int, y: int) -> int {
    let xm = coord_dec(x, w);
    let xp = coord_inc(x, w);
    let ym = coord_dec(y, h);
    let yp = coord_inc(y, h);
    contrib_r(grid_cell(g, w, xm, ym)) + contrib_r(grid_cell(g, w, x, ym)) + contrib_r(
        grid_cell(g, w, xp, ym),
    ) + contrib_r(grid_cell(g, w, xm, y)) + contrib_r(grid_cell(g, w, xp, y)) + contrib_r(
        grid_cell(g, w, xm, yp),
    ) + contrib_r(grid_cell(g, w, x, yp)) + contrib_r(grid_cell(g, w, xp, yp))
}

/// The summed green channel over the parents among the eight neighbors.
pub open spec fn parent_sum_g(g: Seq<Cell>, w: nat, h: nat, x: int, y: int) -> int {
    let xm = coord_dec(x, w);
    let xp = coord_inc(x, w);
    let ym = coord_dec(y, h);
    let yp = coord_inc(y, h);
    contrib_g(grid_cell(g, w, xm, ym)) + contrib_g(grid_cell(g, w, x, ym)) + contrib_g(
        grid_cell(g, w, xp, ym),
    ) + contrib_g(grid_cell(g, w, xm, y)) + contrib_g(grid_cell(g, w, xp, y)) + contrib_g(
        grid_cell(g, w, xm, yp),
    ) + contrib_g(grid_cell(g, w, x, yp)) + contrib_g(grid_cell(g, w, xp, yp))
}

/// The summed blue channel over the parents among the eight neighbors.
pub open spec fn parent_sum_b(g: Seq<Cell>, w: nat, h: nat, x: int, y: int) -> int {
    let xm = coord_dec(x, w);
    let xp = coord_inc(x, w);
    let ym = coord_dec(y, h);
    let yp = coord_inc(y, h);
    contrib_b(grid_cell(g, w, xm, ym)) + contrib_b(grid_cell(g, w, x, ym)) + contrib_b(
        grid_cell(g, w, xp, ym),
    ) + contrib_b(grid_cell(g, w, xm, y)) + contrib_b(grid_cell(g, w, xp, y)) + contrib_b(
        grid_cell(g, w, xm, yp),
    ) + contrib_b(grid_cell(g, w, x, yp)) + contrib_b(grid_cell(g, w, xp, yp))
}

/// The transition rule: a cell is alive next generation iff it is alive with
/// exactly two alive neighbors, or has exactly three alive neighbors.
pub open spec fn next_alive_spec(alive: bool, neighbors: int) -> bool {
    (alive && neighbors == 2) || neighbors == 3
}

/// The rule as executable code.
pub fn next_alive(alive: bool, neighbors: u8) -> (r: bool)
    ensures
        r == next_alive_spec(alive, neighbors as int),
{
    (alive && neighbors == 2) || neighbors == 3
}

/// What the transition yields as the next state `c` of the cell at (x, y).
/// A survivor keeps its color unchanged; a newborn (dead, with exactly three
/// alive neighbors) takes a color derived from its parents, or a fresh random
/// one in the defensive case that no neighbor carries a color; every other
/// cell is reset to the dead state.
pub open spec fn cell_step(g: Seq<Cell>, w: nat, h: nat, x: int, y: int, c: Cell) -> bool {
    let cur = grid_cell(g, w, x, y);
    let n = neighbor_count(g, w, h, x, y);
    if next_alive_spec(cur.alive, n) {
        if cur.alive {
            c == Cell { alive: true, color: cur.color }
        } else {
            c.alive && if parent_count_at(g, w, h, x, y) == 0 {
                fresh_color(c.color)
            } else {
                newborn_color(
                    parent_sum_r(g, w, h, x, y),
                    parent_sum_g(g, w, h, x, y),
                    parent_sum_b(g, w, h, x, y),
                    parent_count_at(g, w, h, x, y),
                    c.color,
                )
            }
        }
    } else {
        c == dead_cell()
    }
}

/// A coordinate pair inside the grid addresses a cell of the flat vector.
pub proof fn lemma_idx_bounds(w: nat, h: nat, x: int, y: int)
    requires
        0 <= x < w,
        0 <= y < h,
    ensures
        0 <= y * w + x < w * h,
        y * w >= 0,
{
    assert(y * w + x < w * h) by (nonlinear_arith)
        requires
            0 <= x < w && 0 <= y < h,
    ;
    assert(y * w >= 0) by (nonlinear_arith)
        requires
            y >= 0 && w >= 0,
    ;
}


/// Folds one neighbor into the running tallies: the alive count, the parent
/// count and the per-channel color sums.
fn scan_neighbor(c: Cell, t: (u8, u32, u32, u32, u32)) -> (u: (u8, u32, u32, u32, u32))
    requires
        t.0 <= 7,
        t.1 <= t.0,
        t.2 <= 255 * t.1,
        t.3 <= 255 * t.1,
        t.4 <= 255 * t.1,
    ensures
        u.0 == t.0 + b2i(c.alive),
        u.1 == t.1 + p2i(c),
        u.2 == t.2 + contrib_r(c),
        u.3 == t.3 + contrib_g(c),
        u.4 == t.4 + contrib_b(c),
        u.0 <= t.0 + 1,
        u.1 <= u.0,
        u.2 <= 255 * u.1,
        u.3 <= 255 * u.1,
        u.4 <= 255 * u.1,
{
    if c.alive {
        match c.color {
            Some(col) => (
                t.0 + 1,
                t.1 + 1,
                t.2 + col.r as u32,
                t.3 + col.g as u32,
                t.4 + col.b as u32,
            ),
            None => (t.0 + 1, t.1, t.2, t.3, t.4),
        }
    } else {
        t
    }
}

/// One cell of the snapshot, read by flat index.
fn read_cell(grid: &Vec<Cell>, i: usize) -> (c: Cell)
    requires
        i < grid@.len(),
    ensures
        c == grid@[i as int],
{
    grid[i]
}

/// The alive count, parent count and parent channel sums over the eight
/// neighbors of (x, y).
#[verifier::rlimit(100)]
#[verifier::spinoff_prover]
fn tally_neighbors(grid: &Vec<Cell>, width: usize, height: usize, x: usize, y: usize) -> (t: (
    u8,
    u32,
    u32,
    u32,
    u32,
))
    requires
        grid_dims(grid@, width as nat, height as nat),
        x < width,
        y < height,
    ensures
        t.0 as int == neighbor_count(grid@, width as nat, height as nat, x as int, y as int),
        t.1 as int == parent_count_at(grid@, width as nat, height as nat, x as int, y as int),
        t.2 as int == parent_sum_r(grid@, width as nat, height as nat, x as int, y as int),
        t.3 as int == parent_sum_g(grid@, width as nat, height as nat, x as int, y as int),
        t.4 as int == parent_sum_b(grid@, width as nat, height as nat, x as int, y as int),
        t.2 <= 255 * t.1 && t.3 <= 255 * t.1 && t.4 <= 255 * t.1,
        t.1 <= t.0,
{
    // the vector length bounds width * height by usize::MAX
    let total: usize = grid.len();
    let xm: usize = if x == 0 {
        width - 1
    } else {
        x - 1
    };
    let xp: usize = if x == width - 1 {
        0
    } else {
        x + 1
    };
    let ym: usize = if y == 0 {
        height - 1
    } else {
        y - 1
    };
    let yp: usize = if y == height - 1 {
        0
    } else {
        y + 1
    };
    proof {
        lemma_idx_bounds(width as nat, height as nat, xm as int, ym as int);
        lemma_idx_bounds(width as nat, height as nat, x as int, ym as int);
        lemma_idx_bounds(width as nat, height as nat, xp as int, ym as int);
        lemma_idx_bounds(width as nat, height as nat, xm as int, y as int);
        lemma_idx_bounds(width as nat, height as nat, x as int, y as int);
        lemma_idx_bounds(width as nat, height as nat, xp as int, y as int);
        lemma_idx_bounds(width as nat, height as nat, xm as int, yp as int);
        lemma_idx_bounds(width as nat, height as nat, x as int, yp as int);
        lemma_idx_bounds(width as nat, height as nat, xp as int, yp as int);
    }
    let c0 = read_cell(grid, ym * width + xm);
    let c1 = read_cell(grid, ym * width + x);
    let c2 = read_cell(grid, ym * width + xp);
    let c3 = read_cell(grid, y * width + xm);
    let c4 = read_cell(grid, y * width + xp);
    let c5 = read_cell(grid, yp * width + xm);
    let c6 = read_cell(grid, yp * width + x);
    let c7 = read_cell(grid, yp * width + xp);
    proof {
        let g = grid@;
        let w = width as nat;
        let h = height as nat;
        let xi = x as int;
        let yi = y as int;
        assert(xm as int == coord_dec(xi, w) && xp as int == coord_inc(xi, w));
        assert(ym as int == coord_dec(yi, h) && yp as int == coord_inc(yi, h));
        assert(c0 == grid_cell(g, w, coord_dec(xi, w), coord_dec(yi, h)));
        assert(c1 == grid_cell(g, w, xi, coord_dec(yi, h)));
        assert(c2 == grid_cell(g, w, coord_inc(xi, w), coord_dec(yi, h)));
        assert(c3 == grid_cell(g, w, coord_dec(xi, w), yi));
        assert(c4 == grid_cell(g, w, coord_inc(xi, w), yi));
        assert(c5 == grid_cell(g, w, coord_dec(xi, w), coord_inc(yi, h)));
        assert(c6 == grid_cell(g, w, xi, coord_inc(yi, h)));
        assert(c7 == grid_cell(g, w, coord_inc(xi, w), coord_inc(yi, h)));
    }
    let mut t: (u8, u32, u32, u32, u32) = (0, 0, 0, 0, 0);
    t = scan_neighbor(c0, t);
    t = scan_neighbor(c1, t);
    t = scan_neighbor(c2, t);
    t = scan_neighbor(c3, t);
    t = scan_neighbor(c4, t);
    t = scan_neighbor(c5, t);
    t = scan_neighbor(c6, t);
    t = scan_neighbor(c7, t);
    t
}

/// The next state of the cell at (x, y), computed from a snapshot of the
/// previous generation.
pub fn next_cell(grid: &Vec<Cell>, width: usize, height: usize, x: usize, y: usize) -> (c: Cell)
    requires
        grid_dims(grid@, width as nat, height as nat),
        x < width,
        y < height,
    ensures
        cell_step(grid@, width as nat, height as nat, x as int, y as int, c),
{
    let (n, cnt, sr, sg, sb) = tally_neighbors(grid, width, height, x, y);
    // the vector length bounds width * height by usize::MAX
    let total: usize = grid.len();
    proof {
        lemma_idx_bounds(width as nat, height as nat, x as int, y as int);
    }
    let cur = read_cell(grid, y * width + x);
    if next_alive(cur.alive, n) {
        if cur.alive {
            Cell { alive: true, color: cur.color }
        } else {
            if cnt == 0 {
                Cell::random_alive()
            } else {
                let jr = random_jitter();
                let jg = random_jitter();
                let jb = random_jitter();
                let c = derive_cell(sr, sg, sb, cnt, jr, jg, jb);
                proof {
                    assert(newborn_color(sr as int, sg as int, sb as int, cnt as int, c.color)) by {
                        assert(c.color == Some(
                            crate::color::derived_color(
                                sr as int,
                                sg as int,
                                sb as int,
                                cnt as int,
                                jr as int,
                                jg as int,
                                jb as int,
                            ),
                        ));
                    }
                }
                c
            }
        }
    } else {
        Cell::dead()
    }
}


/// The cell that a band covering rows from `from` holds for (x, y).
pub open spec fn band_cell(band: Seq<Cell>, w: nat, from: int, x: int, y: int) -> Cell {
    band[(y - from) * w + x]
}

/// What one step yields for every cell of the row band [from, to): the band
/// is row-major, rows `from` up to `to`, and each cell steps by `cell_step`.
pub open spec fn band_step(
    g: Seq<Cell>,
    w: nat,
    h: nat,
    from: int,
    to: int,
    band: Seq<Cell>,
) -> bool {
    band.len() == (to - from) * w && forall|x: int, y: int|
        0 <= x < w && from <= y < to ==> cell_step(
            g,
            w,
            h,
            x,
            y,
            #[trigger] band_cell(band, w, from, x, y),
        )
}

/// Row-major order: a cell of an earlier row, or of the same row and an
/// earlier column, sits at a smaller flat index.
pub proof fn lemma_row_major(w: nat, from: int, x: int, y: int, x2: int, y2: int)
    requires
        0 <= x < w,
        0 <= x2 < w,
        from <= y,
        from <= y2,
        y < y2 || (y == y2 && x < x2),
    ensures
        0 <= (y - from) * w + x < (y2 - from) * w + x2,
{
    assert((y - from) * w + x < (y2 - from) * w + x2) by (nonlinear_arith)
        requires
            0 <= x < w && 0 <= x2 < w && from <= y && from <= y2 && (y < y2 || (y == y2 && x
                < x2)),
    ;
    assert((y - from) * w >= 0) by (nonlinear_arith)
        requires
            y >= from && w >= 0,
    ;
}

/// The next generation of the rows [from, to), computed sequentially from a
/// snapshot of the previous generation.
pub fn compute_band(grid: &Vec<Cell>, width: usize, height: usize, from: usize, to: usize) -> (band:
    Vec<Cell>)
    requires
        grid_dims(grid@, width as nat, height as nat),
        from <= to <= height,
    ensures
        band_step(grid@, width as nat, height as nat, from as int, to as int, band@),
{
    let mut band: Vec<Cell> = Vec::new();
    let mut y: usize = from;
    while y < to
        invariant
            grid_dims(grid@, width as nat, height as nat),
            from <= y <= to,
            to <= height,
            band@.len() == (y - from) * width,
            forall|xx: int, yy: int|
                0 <= xx < width && from <= yy < y ==> cell_step(
                    grid@,
                    width as nat,
                    height as nat,
                    xx,
                    yy,
                    #[trigger] band_cell(band@, width as nat, from as int, xx, yy),
                ),
        decreases to - y,
    {
        let mut x: usize = 0;
        while x < width
            invariant
                grid_dims(grid@, width as nat, height as nat),
                from <= y < to,
                to <= height,
                x <= width,
                band@.len() == (y - from) * width + x,
                forall|xx: int, yy: int|
                    0 <= xx < width && from <= yy < y ==> cell_step(
                        grid@,
                        width as nat,
                        height as nat,
                        xx,
                        yy,
                        #[trigger] band_cell(band@, width as nat, from as int, xx, yy),
                    ),
                forall|xx: int|
                    0 <= xx < x ==> cell_step(
                        grid@,
                        width as nat,
                        height as nat,
                        xx,
                        y as int,
                        #[trigger] band_cell(band@, width as nat, from as int, xx, y as int),
                    ),
            decreases width - x,
        {
            let c = next_cell(grid, width, height, x, y);
            proof {
                lemma_row_major(
                    width as nat,
                    from as int,
                    x as int,
                    y as int,
                    0,
                    y as int + 1,
                );
            }
            let ghost prev = band@;
            band.push(c);
            proof {
                let w = width as nat;
                let h = height as nat;
                let fr = from as int;
                assert forall|xx: int, yy: int|
                    0 <= xx < width && from <= yy < y implies cell_step(
                    grid@,
                    w,
                    h,
                    xx,
                    yy,
                    #[trigger] band_cell(band@, w, fr, xx, yy),
                ) by {
                    lemma_row_major(w, fr, xx, yy, x as int, y as int);
                    assert(band_cell(band@, w, fr, xx, yy) == band_cell(prev, w, fr, xx, yy));
                }
                assert forall|xx: int| 0 <= xx < x + 1 implies cell_step(
                    grid@,
                    w,
                    h,
                    xx,
                    y as int,
                    #[trigger] band_cell(band@, w, fr, xx, y as int),
                ) by {
                    if xx < x {
                        lemma_row_major(w, fr, xx, y as int, x as int, y as int);
                        assert(band_cell(band@, w, fr, xx, y as int) == band_cell(
                            prev,
                            w,
                            fr,
                            xx,
                            y as int,
                        ));
                    } else {
                        lemma_row_major(w, fr, x as int, y as int, 0, y as int + 1);
                        assert(band_cell(band@, w, fr, xx, y as int) == c);
                    }
                }
            }
            x = x + 1;
        }
        proof {
            assert((y + 1 - from as int) * width == (y - from as int) * width + width)
                by (nonlinear_arith);
        }
        y = y + 1;
    }
    band
}


/// What one full step yields: a grid of the same shape whose every cell
/// steps by `cell_step` from the previous generation.
pub open spec fn step_post(g: Seq<Cell>, g2: Seq<Cell>, w: nat, h: nat) -> bool {
    g2.len() == w * h && forall|x: int, y: int|
        0 <= x < w && 0 <= y < h ==> cell_step(g, w, h, x, y, #[trigger] grid_cell(g2, w, x, y))
}

/// The band bounds partition the rows [0, h): they start at zero, end at h,
/// and each band begins where the previous one ends.
pub open spec fn bands_chain(bs: Seq<(usize, usize)>, h: nat) -> bool {
    &&& bs.len() > 0
    &&& bs[0].0 == 0
    &&& bs[bs.len() - 1].1 == h
    &&& forall|i: int| 0 <= i < bs.len() ==> (#[trigger] bs[i]).0 <= bs[i].1 <= h
    &&& forall|i: int| 0 < i < bs.len() ==> (#[trigger] bs[i]).0 == bs[i - 1].1
}

/// A flat index inside an appended band: row y of the grid sits at the
/// band-local row y - from, offset by the `from` completed rows.
pub proof fn lemma_offset_index(w: nat, from: int, x: int, y: int)
    requires
        0 <= x,
        0 <= from <= y,
    ensures
        y * w + x == from * w + ((y - from) * w + x),
{
    assert(y * w == from * w + (y - from) * w) by (nonlinear_arith);
}

/// Relies on rayon's `scope` and `Scope::spawn`: the scope returns only once
/// every spawned task has finished, each task fills a distinct slot of the
/// output, and what it stores there is the return value of the verified
/// `compute_band` for that slot's bounds.
#[verifier::external_body]
fn compute_bands_parallel(
    grid: &Vec<Cell>,
    width: usize,
    height: usize,
    bounds: &Vec<(usize, usize)>,
) -> (bands: Vec<Vec<Cell>>)
    requires
        grid_dims(grid@, width as nat, height as nat),
        forall|i: int|
            0 <= i < bounds@.len() ==> (#[trigger] bounds@[i]).0 <= bounds@[i].1 && bounds@[i].1
                <= height,
    ensures
        bands@.len() == bounds@.len(),
        forall|i: int|
            0 <= i < bounds@.len() ==> band_step(
                grid@,
                width as nat,
                height as nat,
                bounds@[i].0 as int,
                bounds@[i].1 as int,
                (#[trigger] bands@[i])@,
            ),
{
    let mut bands: Vec<Vec<Cell>> = bounds.iter().map(|_| Vec::new()).collect();
    rayon::scope(|s| {
        for (slot, bd) in bands.iter_mut().zip(bounds.iter()) {
            let (from, to) = *bd;
            s.spawn(move |_| {
                *slot = compute_band(grid, width, height, from, to);
            });
        }
    });
    bands
}

/// A seeded cell: dead, or alive with a fresh random color.
pub open spec fn seeded_cell(c: Cell) -> bool {
    c == dead_cell() || (c.alive && fresh_color(c.color))
}

/// The number of row bands a step is split into when none is given.
pub const WORKERS: usize = 4;

/// The simulator: a toroidal grid of colored cells, replaced wholesale by
/// each step.
pub struct GameOfLife {
    grid: Vec<Cell>,
    width: usize,
    height: usize,
}

impl GameOfLife {
    /// The cells of the current generation, row-major.
    pub closed spec fn cells(self) -> Seq<Cell> {
        self.grid@
    }

    /// The grid width.
    pub closed spec fn w(self) -> nat {
        self.width as nat
    }

    /// The grid height.
    pub closed spec fn h(self) -> nat {
        self.height as nat
    }

    /// Well-formed: the grid holds width times height cells, neither side is
    /// zero, and every alive cell carries a color.
    pub open spec fn wf(self) -> bool {
        grid_dims(self.cells(), self.w(), self.h()) && forall|x: int, y: int|
            0 <= x < self.w() && 0 <= y < self.h() ==> cell_wf(
                #[trigger] grid_cell(self.cells(), self.w(), x, y),
            )
    }

    /// A width times height grid, every cell independently dead or alive on
    /// one random bit, alive cells freshly colored.
    pub fn new(width: usize, height: usize) -> (game: GameOfLife)
        requires
            1 <= width,
            1 <= height,
            width * height <= usize::MAX,
        ensures
            game.wf(),
            game.w() == width,
            game.h() == height,
            forall|x: int, y: int|
                0 <= x < width && 0 <= y < height ==> seeded_cell(
                    #[trigger] grid_cell(game.cells(), width as nat, x, y),
                ),
    {
        let total: usize = width * height;
        let mut grid: Vec<Cell> = Vec::new();
        let mut i: usize = 0;
        while i < total
            invariant
                i <= total,
                grid@.len() == i,
                forall|j: int| 0 <= j < i ==> seeded_cell(#[trigger] grid@[j]),
            decreases total - i,
        {
            if crate::rng::random_binary() > 0 {
                grid.push(Cell::random_alive());
            } else {
                grid.push(Cell::dead());
            }
            i = i + 1;
        }
        let game = GameOfLife { grid, width, height };
        proof {
            assert forall|x: int, y: int| 0 <= x < width && 0 <= y < height implies seeded_cell(
                #[trigger] grid_cell(game.cells(), width as nat, x, y),
            ) && cell_wf(grid_cell(game.cells(), width as nat, x, y)) by {
                lemma_idx_bounds(width as nat, height as nat, x, y);
                assert(grid_cell(game.cells(), width as nat, x, y) == game.cells()[y * width + x]);
            }
        }
        game
    }

    /// A simulator over a given starting grid; where `new` seeds the cells
    /// randomly, this pins every one of them.
    pub fn from_cells(width: usize, height: usize, cells: Vec<Cell>) -> (game: GameOfLife)
        requires
            1 <= width,
            1 <= height,
            cells@.len() == width * height,
            forall|i: int| 0 <= i < cells@.len() ==> cell_wf(#[trigger] cells@[i]),
        ensures
            game.wf(),
            game.w() == width,
            game.h() == height,
            game.cells() == cells@,
    {
        let game = GameOfLife { grid: cells, width, height };
        proof {
            assert forall|x: int, y: int| 0 <= x < width && 0 <= y < height implies cell_wf(
                #[trigger] grid_cell(game.cells(), width as nat, x, y),
            ) by {
                lemma_idx_bounds(width as nat, height as nat, x, y);
            }
        }
        game
    }

    /// The grid width.
    pub fn width(&self) -> (w: usize)
        ensures
            w == self.w(),
    {
        self.width
    }

    /// The grid height.
    pub fn height(&self) -> (h: usize)
        ensures
            h == self.h(),
    {
        self.height
    }

    /// The cell at (x, y) of the current generation.
    pub fn cell_at(&self, x: usize, y: usize) -> (c: Cell)
        requires
            self.wf(),
            x < self.w(),
            y < self.h(),
        ensures
            c == grid_cell(self.cells(), self.w(), x as int, y as int),
    {
        // the vector length bounds width * height by usize::MAX
        let total: usize = self.grid.len();
        proof {
            lemma_idx_bounds(self.w(), self.h(), x as int, y as int);
        }
        self.grid[y * self.width + x]
    }

    /// Advances the grid one generation with the default worker count.
    pub fn step(&mut self)
        requires
            old(self).wf(),
        ensures
            final(self).wf(),
            final(self).w() == old(self).w(),
            final(self).h() == old(self).h(),
            step_post(old(self).cells(), final(self).cells(), old(self).w(), old(self).h()),
    {
        self.step_with_workers(WORKERS)
    }

    /// Advances the grid one generation. The rows are cut into `workers`
    /// contiguous bands of height / workers rows each, the last absorbing
    /// the remainder; every band is computed from the same snapshot of the
    /// previous generation and written to its own region of the new grid.
    /// The worker count does not appear in what the step yields.
    pub fn step_with_workers(&mut self, workers: usize)
        requires
            old(self).wf(),
            1 <= workers,
        ensures
            final(self).wf(),
            final(self).w() == old(self).w(),
            final(self).h() == old(self).h(),
            step_post(old(self).cells(), final(self).cells(), old(self).w(), old(self).h()),
    {
        let width = self.width;
        let height = self.height;
        let chunk: usize = height / workers;
        let mut bounds: Vec<(usize, usize)> = Vec::new();
        let mut t: usize = 0;
        let mut start: usize = 0;
        while t < workers
            invariant
                t <= workers,
                1 <= workers,
                chunk == height as int / workers as int,
                bounds@.len() == t,
                t < workers ==> start as int == t * chunk,
                t == workers ==> start == height,
                start <= height,
                t > 0 ==> bounds@[0].0 == 0,
                t > 0 ==> bounds@[t - 1].1 == start,
                forall|i: int| 0 <= i < t ==> (#[trigger] bounds@[i]).0 <= bounds@[i].1 <= height,
                forall|i: int| 0 < i < t ==> (#[trigger] bounds@[i]).0 == bounds@[i - 1].1,
            decreases workers - t,
        {
            let from = start;
            let to: usize = if t == workers - 1 {
                height
            } else {
                proof {
                    vstd::arithmetic::div_mod::lemma_fundamental_div_mod(
                        height as int,
                        workers as int,
                    );
                    vstd::arithmetic::div_mod::lemma_mod_bound(height as int, workers as int);
                    assert((t + 1) * chunk <= workers * chunk) by (nonlinear_arith)
                        requires
                            t + 1 <= workers && chunk >= 0,
                    ;
                    assert((t + 1) * chunk == t * chunk + chunk) by (nonlinear_arith);
                }
                start + chunk
            };
            proof {
                if t + 1 < workers {
                    vstd::arithmetic::div_mod::lemma_fundamental_div_mod(
                        height as int,
                        workers as int,
                    );
                    vstd::arithmetic::div_mod::lemma_mod_bound(height as int, workers as int);
                    assert((t + 1) * chunk == t * chunk + chunk) by (nonlinear_arith);
                }
            }
            bounds.push((from, to));
            start = to;
            t = t + 1;
        }
        proof {
            assert(bands_chain(bounds@, height as nat));
        }
        let bands = compute_bands_parallel(&self.grid, width, height, &bounds);
        let mut bands = bands;
        let ghost gold = self.grid@;
        let ghost bnds = bounds@;
        let ghost mut k: int = 0;
        let ghost mut done: int = 0;
        let mut new_grid: Vec<Cell> = Vec::new();
        while bands.len() > 0
            invariant
                grid_dims(gold, width as nat, height as nat),
                bands_chain(bnds, height as nat),
                0 <= k <= bnds.len(),
                bands@.len() == bnds.len() - k,
                done == if k == 0 {
                    0int
                } else {
                    bnds[k - 1].1 as int
                },
                0 <= done <= height,
                new_grid@.len() == done * width,
                forall|i: int|
                    0 <= i < bands@.len() ==> band_step(
                        gold,
                        width as nat,
                        height as nat,
                        bnds[k + i].0 as int,
                        bnds[k + i].1 as int,
                        (#[trigger] bands@[i])@,
                    ),
                forall|x: int, y: int|
                    0 <= x < width && 0 <= y < done ==> cell_step(
                        gold,
                        width as nat,
                        height as nat,
                        x,
                        y,
                        #[trigger] grid_cell(new_grid@, width as nat, x, y),
                    ),
            decreases bands@.len(),
        {
            let mut b = bands.remove(0);
            let ghost bb = b@;
            let ghost prev = new_grid@;
            let ghost from = bnds[k].0 as int;
            let ghost to = bnds[k].1 as int;
            new_grid.append(&mut b);
            proof {
                let w = width as nat;
                let h = height as nat;
                assert(done == from);
                assert(band_step(gold, w, h, from, to, bb));
                assert(from * width + (to - from) * width == to * width) by (nonlinear_arith);
                assert(new_grid@.len() == to * width);
                assert forall|x: int, y: int| 0 <= x < width && 0 <= y < to implies cell_step(
                    gold,
                    w,
                    h,
                    x,
                    y,
                    #[trigger] grid_cell(new_grid@, w, x, y),
                ) by {
                    if y < from {
                        lemma_row_major(w, 0, x, y, 0, from);
                        assert(grid_cell(new_grid@, w, x, y) == grid_cell(prev, w, x, y));
                    } else {
                        lemma_offset_index(w, from, x, y);
                        lemma_row_major(w, from, x, y, 0, to);
                        assert(grid_cell(new_grid@, w, x, y) == band_cell(bb, w, from, x, y));
                        assert(cell_step(gold, w, h, x, y, band_cell(bb, w, from, x, y)));
                    }
                }
                k = k + 1;
                done = to;
            }
        }
        proof {
            assert(k == bnds.len());
            assert(done == height);
            assert(height * width == width * height) by (nonlinear_arith);
        }
        self.grid = new_grid;
        proof {
            let w = width as nat;
            let h = height as nat;
            assert(step_post(gold, self.grid@, w, h));
            assert forall|x: int, y: int| 0 <= x < w && 0 <= y < h implies cell_wf(
                #[trigger] grid_cell(self.grid@, w, x, y),
            ) by {
                assert(cell_step(gold, w, h, x, y, grid_cell(self.grid@, w, x, y)));
                assert(cell_wf(grid_cell(gold, w, x, y)));
            }
        }
    }
}

} // verus!
