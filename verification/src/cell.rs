use vstd::prelude::*;
use crate::color::{Rgb, derived_color, saturate, shift_channel};
use crate::rng::{random_jitter, random_rgb};

verus! {

/// One cell of the grid: an alive flag, and the cell's color when alive.
/// A dead cell is shown as black.
#[derive(Clone, Copy, Debug, PartialEq)]
pub struct Cell {
    pub alive: bool,
    pub color: Option<Rgb>,
}

/// A well-formed cell: an alive cell always carries a color.
pub open spec fn cell_wf(c: Cell) -> bool {
    c.alive ==> c.color is Some
}

/// The dead cell.
pub open spec fn dead_cell() -> Cell {
    Cell { alive: false, color: Some(Rgb { r: 0, g: 0, b: 0 }) }
}

/// A freshly randomized color: present, with every channel at least 50.
pub open spec fn fresh_color(c: Option<Rgb>) -> bool {
    match c {
        Some(col) => 50 <= col.r && 50 <= col.g && 50 <= col.b,
        None => false,
    }
}

/// Whether a cell contributes its color to a newborn: alive and colored.
pub open spec fn is_parent(c: Cell) -> bool {
    c.alive && c.color is Some
}

/// The red contribution of one cell to a newborn's average.
pub open spec fn contrib_r(c: Cell) -> int {
    match c.color {
        Some(col) => if c.alive {
            col.r as int
        } else {
            0
        },
        None => 0,
    }
}

/// The green contribution of one cell to a newborn's average.
pub open spec fn contrib_g(c: Cell) -> int {
    match c.color {
        Some(col) => if c.alive {
            col.g as int
        } else {
            0
        },
        None => 0,
    }
}

/// The blue contribution of one cell to a newborn's average.
pub open spec fn contrib_b(c: Cell) -> int {
    match c.color {
        Some(col) => if c.alive {
            col.b as int
        } else {
            0
        },
        None => 0,
    }
}

/// How many cells of the list are parents: alive and colored.
pub open spec fn parent_count(s: Seq<Cell>) -> int
    decreases s.len(),
{
    if s.len() == 0 {
        0
    } else {
        parent_count(s.drop_last()) + (if is_parent(s.last()) {
            1int
        } else {
            0int
        })
    }
}

/// The summed red channel over the parents of the list.
pub open spec fn sum_r(s: Seq<Cell>) -> int
    decreases s.len(),
{
    if s.len() == 0 {
        0
    } else {
        sum_r(s.drop_last()) + contrib_r(s.last())
    }
}

/// The summed green channel over the parents of the list.
pub open spec fn sum_g(s: Seq<Cell>) -> int
    decreases s.len(),
{
    if s.len() == 0 {
        0
    } else {
        sum_g(s.drop_last()) + contrib_g(s.last())
    }
}

/// The summed blue channel over the parents of the list.
pub open spec fn sum_b(s: Seq<Cell>) -> int
    decreases s.len(),
{
    if s.len() == 0 {
        0
    } else {
        sum_b(s.drop_last()) + contrib_b(s.last())
    }
}

/// The channel sums count at most 255 per parent, and the parents are at
/// most the whole list.
pub proof fn lemma_sums_bounded(s: Seq<Cell>)
    ensures
        0 <= parent_count(s) <= s.len(),
        0 <= sum_r(s) <= 255 * parent_count(s),
        0 <= sum_g(s) <= 255 * parent_count(s),
        0 <= sum_b(s) <= 255 * parent_count(s),
    decreases s.len(),
{
    if s.len() > 0 {
        lemma_sums_bounded(s.drop_last());
    }
}

impl Cell {
    /// The dead state a cell is reset to when it dies or stays dead.
    pub fn dead() -> (c: Cell)
        ensures
            c == dead_cell(),
    {
        Cell { alive: false, color: Some(Rgb { r: 0, g: 0, b: 0 }) }
    }

    /// An alive cell with a fresh random color, as seeded at construction.
    pub fn random_alive() -> (c: Cell)
        ensures
            c.alive,
            fresh_color(c.color),
    {
        Cell { alive: true, color: Some(random_rgb()) }
    }

    /// The newborn cell derived from a parent list with the given jitter
    /// offsets: the channel-wise truncating average over the alive, colored
    /// parents, each channel moved by its offset and clamped, then
    /// re-saturated. Without any such parent the cell falls back to a fresh
    /// random color.
    pub fn from_parents_with(parents: &[Cell], jr: i8, jg: i8, jb: i8) -> (c: Cell)
        requires
            parents@.len() * 255 <= u32::MAX,
        ensures
            c.alive,
            parent_count(parents@) == 0 ==> fresh_color(c.color),
            parent_count(parents@) > 0 ==> c.color == Some(
                derived_color(
                    sum_r(parents@),
                    sum_g(parents@),
                    sum_b(parents@),
                    parent_count(parents@),
                    jr as int,
                    jg as int,
                    jb as int,
                ),
            ),
    {
        let mut acc_r: u32 = 0;
        let mut acc_g: u32 = 0;
        let mut acc_b: u32 = 0;
        let mut count: u32 = 0;
        let mut i: usize = 0;
        while i < parents.len()
            invariant
                i <= parents@.len(),
                parents@.len() * 255 <= u32::MAX,
                count == parent_count(parents@.subrange(0, i as int)),
                acc_r == sum_r(parents@.subrange(0, i as int)),
                acc_g == sum_g(parents@.subrange(0, i as int)),
                acc_b == sum_b(parents@.subrange(0, i as int)),
                count <= i,
                acc_r <= 255 * count,
                acc_g <= 255 * count,
                acc_b <= 255 * count,
            decreases parents@.len() - i,
        {
            let c = parents[i];
            proof {
                let pre = parents@.subrange(0, i as int);
                let post = parents@.subrange(0, i as int + 1);
                assert(post.drop_last() =~= pre);
                assert(post.last() == parents@[i as int]);
            }
            if c.alive {
                match c.color {
                    Some(col) => {
                        acc_r = acc_r + col.r as u32;
                        acc_g = acc_g + col.g as u32;
                        acc_b = acc_b + col.b as u32;
                        count = count + 1;
                    },
                    None => {},
                }
            }
            i = i + 1;
        }
        proof {
            assert(parents@.subrange(0, parents@.len() as int) =~= parents@);
        }
        if count == 0 {
            Cell::random_alive()
        } else {
            derive_cell(acc_r, acc_g, acc_b, count, jr, jg, jb)
        }
    }

    /// A newborn cell inheriting from `parents` with fresh random jitter.
    pub fn from_parents(parents: &[Cell]) -> (c: Cell)
        requires
            parents@.len() * 255 <= u32::MAX,
        ensures
            c.alive,
            parent_count(parents@) == 0 ==> fresh_color(c.color),
            parent_count(parents@) > 0 ==> newborn_color(
                sum_r(parents@),
                sum_g(parents@),
                sum_b(parents@),
                parent_count(parents@),
                c.color,
            ),
    {
        let jr = random_jitter();
        let jg = random_jitter();
        let jb = random_jitter();
        let c = Cell::from_parents_with(parents, jr, jg, jb);
        proof {
            if parent_count(parents@) > 0 {
                assert(c.color == Some(
                    derived_color(
                        sum_r(parents@),
                        sum_g(parents@),
                        sum_b(parents@),
                        parent_count(parents@),
                        jr as int,
                        jg as int,
                        jb as int,
                    ),
                ));
            }
        }
        c
    }
}

/// The newborn color pipeline once the parent channel sums are known: the
/// truncating channel averages, each moved by its jitter offset and clamped,
/// then re-saturated.
pub(crate) fn derive_cell(sr: u32, sg: u32, sb: u32, cnt: u32, jr: i8, jg: i8, jb: i8) -> (c:
    Cell)
    requires
        1 <= cnt,
        sr <= 255 * cnt,
        sg <= 255 * cnt,
        sb <= 255 * cnt,
    ensures
        c.alive,
        c.color == Some(
            derived_color(
                sr as int,
                sg as int,
                sb as int,
                cnt as int,
                jr as int,
                jg as int,
                jb as int,
            ),
        ),
{
    proof {
        vstd::arithmetic::div_mod::lemma_div_is_ordered(sr as int, 255 * cnt, cnt as int);
        vstd::arithmetic::div_mod::lemma_div_is_ordered(sg as int, 255 * cnt, cnt as int);
        vstd::arithmetic::div_mod::lemma_div_is_ordered(sb as int, 255 * cnt, cnt as int);
        vstd::arithmetic::div_mod::lemma_div_by_multiple(255, cnt as int);
        assert(cnt as int * 255 == 255 * cnt) by (nonlinear_arith);
        vstd::arithmetic::div_mod::lemma_div_pos_is_pos(sr as int, cnt as int);
        vstd::arithmetic::div_mod::lemma_div_pos_is_pos(sg as int, cnt as int);
        vstd::arithmetic::div_mod::lemma_div_pos_is_pos(sb as int, cnt as int);
    }
    let avg_r: u8 = (sr / cnt) as u8;
    let avg_g: u8 = (sg / cnt) as u8;
    let avg_b: u8 = (sb / cnt) as u8;
    let jittered = Rgb {
        r: shift_channel(avg_r, jr),
        g: shift_channel(avg_g, jg),
        b: shift_channel(avg_b, jb),
    };
    Cell { alive: true, color: Some(saturate(jittered)) }
}

/// What holds of a newborn's color once the jitter has been drawn: for some
/// per-channel offsets within the jitter bound, the color is the derived one.
pub open spec fn newborn_color(sr: int, sg: int, sb: int, cnt: int, color: Option<Rgb>) -> bool {
    exists|jr: int, jg: int, jb: int|
        -9 <= jr <= 9 && -9 <= jg <= 9 && -9 <= jb <= 9 && color == Some(
            #[trigger] derived_color(sr, sg, sb, cnt, jr, jg, jb),
        )
}

} // verus!
