use vstd::prelude::*;
use crate::cell::{Cell, dead_cell};
use crate::grid::{
    b2i, cell_step, coord_dec, coord_inc, grid_cell, grid_dims, neighbor_count, step_post,
};

verus! {

/// Neighbor counting is toroidal: the eight neighbors of the corner cell
/// (0, 0) are the cells at the wrapped coordinates, among them the three
/// cells of the opposite row h - 1 and the two of the opposite column w - 1.
pub proof fn lemma_neighbors_wrap_at_origin(g: Seq<Cell>, w: nat, h: nat)
    requires
        grid_dims(g, w, h),
        2 <= w,
        2 <= h,
    ensures
        neighbor_count(g, w, h, 0, 0) == b2i(g[(h - 1) * w + (w - 1)].alive) + b2i(
            g[(h - 1) * w].alive,
        ) + b2i(g[(h - 1) * w + 1].alive) + b2i(g[w - 1].alive) + b2i(g[1].alive) + b2i(
            g[w + (w - 1)].alive,
        ) + b2i(g[w as int].alive) + b2i(g[w + 1int].alive),
{
    assert(coord_dec(0, w) == w - 1 && coord_inc(0, w) == 1);
    assert(coord_dec(0, h) == h - 1 && coord_inc(0, h) == 1);
}

/// A surviving cell keeps its color: if a cell is alive before and after a
/// step, its color after the step is its color before it.
pub proof fn lemma_survivor_keeps_color(
    g: Seq<Cell>,
    g2: Seq<Cell>,
    w: nat,
    h: nat,
    x: int,
    y: int,
)
    requires
        step_post(g, g2, w, h),
        0 <= x < w,
        0 <= y < h,
        grid_cell(g, w, x, y).alive,
        grid_cell(g2, w, x, y).alive,
    ensures
        grid_cell(g2, w, x, y).color == grid_cell(g, w, x, y).color,
{
    assert(cell_step(g, w, h, x, y, grid_cell(g2, w, x, y)));
}

/// The worker count cannot change the outcome: any two grids that a step
/// may yield from the same previous generation agree on every alive flag,
/// and agree entirely on every cell that was alive before or is dead after.
/// Only the randomly jittered color of a newborn cell may differ.
pub proof fn lemma_worker_count_immaterial(g: Seq<Cell>, a: Seq<Cell>, b: Seq<Cell>, w: nat, h: nat)
    requires
        step_post(g, a, w, h),
        step_post(g, b, w, h),
    ensures
        a.len() == b.len(),
        forall|x: int, y: int|
            0 <= x < w && 0 <= y < h ==> (#[trigger] grid_cell(a, w, x, y)).alive == (
            #[trigger] grid_cell(b, w, x, y)).alive,
        forall|x: int, y: int|
            0 <= x < w && 0 <= y < h && grid_cell(g, w, x, y).alive ==> #[trigger] grid_cell(
                a,
                w,
                x,
                y,
            ) == #[trigger] grid_cell(b, w, x, y),
        forall|x: int, y: int|
            0 <= x < w && 0 <= y < h && !grid_cell(a, w, x, y).alive ==> #[trigger] grid_cell(
                a,
                w,
                x,
                y,
            ) == #[trigger] grid_cell(b, w, x, y),
{
    assert forall|x: int, y: int| 0 <= x < w && 0 <= y < h implies {
        &&& (#[trigger] grid_cell(a, w, x, y)).alive == (#[trigger] grid_cell(b, w, x, y)).alive
        &&& (grid_cell(g, w, x, y).alive ==> grid_cell(a, w, x, y) == grid_cell(b, w, x, y))
        &&& (!grid_cell(a, w, x, y).alive ==> grid_cell(a, w, x, y) == grid_cell(b, w, x, y))
    } by {
        assert(cell_step(g, w, h, x, y, grid_cell(a, w, x, y)));
        assert(cell_step(g, w, h, x, y, grid_cell(b, w, x, y)));
    }
}

/// Two row-major grids of the same shape that agree on every coordinate are
/// the same sequence.
pub proof fn lemma_cellwise_eq(a: Seq<Cell>, b: Seq<Cell>, w: nat, h: nat)
    requires
        a.len() == w * h,
        b.len() == w * h,
        1 <= w,
        1 <= h,
        forall|x: int, y: int|
            0 <= x < w && 0 <= y < h ==> #[trigger] grid_cell(a, w, x, y) == grid_cell(b, w, x, y),
    ensures
        a == b,
{
    assert forall|i: int| 0 <= i < a.len() implies a[i] == b[i] by {
        let x = i % (w as int);
        let y = i / (w as int);
        vstd::arithmetic::div_mod::lemma_fundamental_div_mod(i, w as int);
        vstd::arithmetic::div_mod::lemma_mod_bound(i, w as int);
        vstd::arithmetic::div_mod::lemma_div_pos_is_pos(i, w as int);
        if y >= h {
            assert(y * w + x >= h * w) by (nonlinear_arith)
                requires
                    y >= h && x >= 0 && w >= 0,
            ;
            assert(h * w == w * h) by (nonlinear_arith);
        }
        assert(y * w == w * y) by (nonlinear_arith);
        assert(grid_cell(a, w, x, y) == grid_cell(b, w, x, y));
    }
    assert(a =~= b);
}

/// Alive exactly on the 2 by 2 block with corner (1, 1); every other cell
/// is in the reset dead state.
pub open spec fn block_pattern(g: Seq<Cell>, w: nat, h: nat) -> bool {
    grid_dims(g, w, h) && forall|x: int, y: int|
        0 <= x < w && 0 <= y < h ==> if 1 <= x <= 2 && 1 <= y <= 2 {
            (#[trigger] grid_cell(g, w, x, y)).alive
        } else {
            grid_cell(g, w, x, y) == dead_cell()
        }
}

/// Still-life stability: a grid holding a single 2 by 2 block of alive
/// cells is left entirely unchanged by a step, colors included; since the
/// grid does not change, it stays unchanged under any number of steps.
#[verifier::rlimit(100)]
pub proof fn lemma_block_still_life(g: Seq<Cell>, g2: Seq<Cell>, w: nat, h: nat)
    requires
        4 <= w,
        4 <= h,
        block_pattern(g, w, h),
        step_post(g, g2, w, h),
    ensures
        g2 == g,
{
    assert forall|x: int, y: int| 0 <= x < w && 0 <= y < h implies #[trigger] grid_cell(
        g2,
        w,
        x,
        y,
    ) == grid_cell(g, w, x, y) by {
        assert(cell_step(g, w, h, x, y, grid_cell(g2, w, x, y)));
        let xm = coord_dec(x, w);
        let xp = coord_inc(x, w);
        let ym = coord_dec(y, h);
        let yp = coord_inc(y, h);
        assert(0 <= xm < w && 0 <= xp < w && 0 <= ym < h && 0 <= yp < h);
        // naming the eight neighbor cells lets the pattern quantifier
        // describe each of them
        assert(grid_cell(g, w, xm, ym) == grid_cell(g, w, xm, ym));
        assert(grid_cell(g, w, x, ym) == grid_cell(g, w, x, ym));
        assert(grid_cell(g, w, xp, ym) == grid_cell(g, w, xp, ym));
        assert(grid_cell(g, w, xm, y) == grid_cell(g, w, xm, y));
        assert(grid_cell(g, w, xp, y) == grid_cell(g, w, xp, y));
        assert(grid_cell(g, w, xm, yp) == grid_cell(g, w, xm, yp));
        assert(grid_cell(g, w, x, yp) == grid_cell(g, w, x, yp));
        assert(grid_cell(g, w, xp, yp) == grid_cell(g, w, xp, yp));
    }
    lemma_cellwise_eq(g2, g, w, h);
}

/// Alive exactly on the horizontal three-cell bar (1, 2), (2, 2), (3, 2);
/// every other cell is in the reset dead state.
pub open spec fn blinker_pattern(g: Seq<Cell>, w: nat, h: nat) -> bool {
    grid_dims(g, w, h) && forall|x: int, y: int|
        0 <= x < w && 0 <= y < h ==> if 1 <= x <= 3 && y == 2 {
            (#[trigger] grid_cell(g, w, x, y)).alive
        } else {
            grid_cell(g, w, x, y) == dead_cell()
        }
}

/// Oscillation with period two: one step turns the horizontal blinker into
/// a vertical bar (so the configuration does change), and a second step
/// restores the starting alive configuration everywhere.
#[verifier::rlimit(100)]
pub proof fn lemma_blinker_period_two(
    g: Seq<Cell>,
    g1: Seq<Cell>,
    g2: Seq<Cell>,
    w: nat,
    h: nat,
)
    requires
        5 <= w,
        5 <= h,
        blinker_pattern(g, w, h),
        step_post(g, g1, w, h),
        step_post(g1, g2, w, h),
    ensures
        forall|x: int, y: int|
            0 <= x < w && 0 <= y < h ==> (#[trigger] grid_cell(g1, w, x, y)).alive == (x == 2 && 1
                <= y <= 3),
        forall|x: int, y: int|
            0 <= x < w && 0 <= y < h ==> (#[trigger] grid_cell(g2, w, x, y)).alive == grid_cell(
                g,
                w,
                x,
                y,
            ).alive,
{
    assert forall|x: int, y: int| 0 <= x < w && 0 <= y < h implies (#[trigger] grid_cell(
        g1,
        w,
        x,
        y,
    )).alive == (x == 2 && 1 <= y <= 3) by {
        assert(cell_step(g, w, h, x, y, grid_cell(g1, w, x, y)));
        let xm = coord_dec(x, w);
        let xp = coord_inc(x, w);
        let ym = coord_dec(y, h);
        let yp = coord_inc(y, h);
        assert(0 <= xm < w && 0 <= xp < w && 0 <= ym < h && 0 <= yp < h);
        // naming the eight neighbor cells lets the pattern quantifier
        // describe each of them
        assert(grid_cell(g, w, xm, ym) == grid_cell(g, w, xm, ym));
        assert(grid_cell(g, w, x, ym) == grid_cell(g, w, x, ym));
        assert(grid_cell(g, w, xp, ym) == grid_cell(g, w, xp, ym));
        assert(grid_cell(g, w, xm, y) == grid_cell(g, w, xm, y));
        assert(grid_cell(g, w, xp, y) == grid_cell(g, w, xp, y));
        assert(grid_cell(g, w, xm, yp) == grid_cell(g, w, xm, yp));
        assert(grid_cell(g, w, x, yp) == grid_cell(g, w, x, yp));
        assert(grid_cell(g, w, xp, yp) == grid_cell(g, w, xp, yp));
    }
    assert forall|x: int, y: int| 0 <= x < w && 0 <= y < h implies (#[trigger] grid_cell(
        g2,
        w,
        x,
        y,
    )).alive == grid_cell(g, w, x, y).alive by {
        assert(cell_step(g1, w, h, x, y, grid_cell(g2, w, x, y)));
        let xm = coord_dec(x, w);
        let xp = coord_inc(x, w);
        let ym = coord_dec(y, h);
        let yp = coord_inc(y, h);
        assert(0 <= xm < w && 0 <= xp < w && 0 <= ym < h && 0 <= yp < h);
        // naming the eight neighbor cells lets the characterization of the
        // intermediate generation describe each of them
        assert(grid_cell(g1, w, xm, ym) == grid_cell(g1, w, xm, ym));
        assert(grid_cell(g1, w, x, ym) == grid_cell(g1, w, x, ym));
        assert(grid_cell(g1, w, xp, ym) == grid_cell(g1, w, xp, ym));
        assert(grid_cell(g1, w, xm, y) == grid_cell(g1, w, xm, y));
        assert(grid_cell(g1, w, xp, y) == grid_cell(g1, w, xp, y));
        assert(grid_cell(g1, w, xm, yp) == grid_cell(g1, w, xm, yp));
        assert(grid_cell(g1, w, x, yp) == grid_cell(g1, w, x, yp));
        assert(grid_cell(g1, w, xp, yp) == grid_cell(g1, w, xp, yp));
        assert(grid_cell(g, w, x, y) == grid_cell(g, w, x, y));
    }
}

} // verus!
