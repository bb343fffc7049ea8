//! Page layout and perturbation.
//!
//! A filled grid is turned into one `Paper` per page: a list of
//! `Transform`s, one per real sample, placed at the centre of its grid
//! cell. Two perturbers then randomise a paper in place: `alter`
//! jitters every placement a little, `obfuscate` bends one row along a
//! logarithmic curve.
//!
//! All geometry is integer valued: positions are pixels, rotations are
//! thousandths of a degree, scale factors are thousandths of one.

use crate::arranger::Table;
use crate::curve::{spec_atan_inv_milli, spec_ln_1p_milli};
use vstd::prelude::*;

verus! {

/// The pose of one sample image on a paper.
///
/// - `id`: the sample the pose places.
/// - `position`: the pixel coordinates of the image centre.
/// - `rotation`: a signed angle in millidegrees.
/// - `scale`: a size ratio in thousandths, `1000` being full size.
/// - `row`, `column`: the grid cell the pose came from.
#[derive(Debug, Clone, Copy, PartialEq)]
pub struct Transform {
    pub id: usize,
    pub position: [usize; 2],
    pub rotation: i64,
    pub scale: u64,
    pub row: usize,
    pub column: usize,
}

/// The direction of a row skew.
#[derive(Debug, Clone, Copy)]
pub enum PaperObfuscation {
    Upward,
    Downward,
}

/// Common paper formats, as pixel sizes at the engine's resolution.
#[derive(Debug, Clone, Copy)]
pub enum PaperSize {
    A4,
    A5,
    B5,
}

/// Why a paper could not be laid out.
#[derive(Debug, PartialEq, Eq)]
pub enum MakePaperError {
    /// The requested page index is at or past the grid's page count.
    PageOutOfIndex,
}

impl PaperSize {
    /// The pixel dimensions of this paper format.
    pub fn pixels(&self) -> (r: [usize; 2])
        ensures
            *self is A4 ==> r@ == seq![2480usize, 3508usize],
            *self is A5 ==> r@ == seq![1240usize, 1754usize],
            *self is B5 ==> r@ == seq![1624usize, 1075usize],
    {
        let r = match self {
            PaperSize::A4 => [2480, 3508],
            PaperSize::A5 => [1240, 1754],
            PaperSize::B5 => [1624, 1075],
        };
        proof {
            match self {
                PaperSize::A4 => assert(r@ =~= seq![2480usize, 3508usize]),
                PaperSize::A5 => assert(r@ =~= seq![1240usize, 1754usize]),
                PaperSize::B5 => assert(r@ =~= seq![1624usize, 1075usize]),
            }
        }
        r
    }
}

/// Clamp the result of a signed offset computation to zero.
pub fn i32_to_usize(x: i32) -> (r: usize)
    ensures
        r == if x < 0 {
            0int
        } else {
            x as int
        },
{
    if x < 0 {
        0
    } else {
        x as usize
    }
}

/// Pixel inset of the table border from each page edge.
pub const BORDER_INSET: usize = 38;

/// Subtraction on pixel coordinates, saturating at zero.
pub open spec fn sat_sub(a: int, b: int) -> int {
    if a >= b {
        a - b
    } else {
        0
    }
}

/// The pixel extent of the table area along one page axis.
pub open spec fn inner_extent(extent: int) -> int {
    sat_sub(sat_sub(extent, BORDER_INSET as int), BORDER_INSET as int)
}

/// The pixel footprint of one cell along an axis divided into `count`
/// cells.
pub open spec fn unit_len(extent: int, count: int) -> int
    recommends
        count > 0,
{
    inner_extent(extent) / count
}

/// The centre coordinate of the `idx`-th cell (counted from 1) along an
/// axis of the given pixel extent divided into `count` cells.
pub open spec fn cell_center(extent: int, count: int, idx: int) -> int {
    BORDER_INSET + unit_len(extent, count) / 2 + (idx - 1) * unit_len(extent, count)
}

/// The pose planned for interior cell `(x, y)` of page `z` on a
/// `w x h` pixel page: the sample's id, the centre of the cell, no
/// rotation and full scale.
pub open spec fn transform_matches(
    tr: Transform,
    t: Table,
    z: int,
    w: int,
    h: int,
    x: int,
    y: int,
) -> bool {
    &&& tr.id == t.cell(x, y, z).id
    &&& tr.position@[0] == cell_center(w, t.columns as int, y)
    &&& tr.position@[1] == cell_center(h, t.rows as int, x)
    &&& tr.rotation == 0
    &&& tr.scale == 1000
    &&& tr.row == x
    &&& tr.column == y
}

/// The interior cells of page `z` with first index `x` and second index
/// up to `yc` that hold a real sample, in fill order.
pub open spec fn planned_row(t: Table, z: int, x: int, yc: int) -> Seq<(int, int)>
    decreases yc,
{
    if yc <= 0 {
        Seq::empty()
    } else {
        planned_row(t, z, x, yc - 1) + if t.cell(x, yc, z).dummy {
            Seq::<(int, int)>::empty()
        } else {
            seq![(x, yc)]
        }
    }
}

/// The interior cells of page `z` with first index up to `xc` that hold
/// a real sample, in fill order.
pub open spec fn planned_page(t: Table, z: int, xc: int) -> Seq<(int, int)>
    decreases xc,
{
    if xc <= 0 {
        Seq::empty()
    } else {
        planned_page(t, z, xc - 1) + planned_row(t, z, xc, t.columns as int)
    }
}

/// The samples of one page, resolved to poses on a pixel canvas.
///
/// - `img_size`: the pixel size of the page.
/// - `border`: the four corners of the table area, inset from the page
///   edges by a fixed margin.
/// - `unit_size`: the pixel footprint of one grid cell.
/// - `table`: one `Transform` per real sample of the page.
#[derive(Clone)]
pub struct Paper {
    pub img_size: [usize; 2],
    pub border: [[usize; 2]; 4],
    pub unit_size: [usize; 2],
    pub table: Vec<Transform>,
}

/// The paper `p` is the planned layout of page `z` of grid `t` on a
/// `w x h` pixel page: the border corners are inset by the fixed
/// margin, the unit size is the cell footprint, and the pose list
/// carries exactly the real samples of the page, in fill order, each at
/// the centre of its cell.
pub open spec fn page_plan_ok(p: Paper, t: Table, z: int, w: int, h: int) -> bool {
    &&& p.img_size@[0] == w
    &&& p.img_size@[1] == h
    &&& p.border@[0]@[0] == BORDER_INSET as int
    &&& p.border@[0]@[1] == BORDER_INSET as int
    &&& p.border@[1]@[0] == sat_sub(w, BORDER_INSET as int)
    &&& p.border@[1]@[1] == BORDER_INSET as int
    &&& p.border@[2]@[0] == BORDER_INSET as int
    &&& p.border@[2]@[1] == sat_sub(h, BORDER_INSET as int)
    &&& p.border@[3]@[0] == sat_sub(w, BORDER_INSET as int)
    &&& p.border@[3]@[1] == sat_sub(h, BORDER_INSET as int)
    &&& p.unit_size@[0] == unit_len(w, t.columns as int)
    &&& p.unit_size@[1] == unit_len(h, t.rows as int)
    &&& p.table@.len() == planned_page(t, z, t.rows as int).len()
    &&& forall|i: int|
        0 <= i < p.table@.len() ==> transform_matches(
            #[trigger] p.table@[i],
            t,
            z,
            w,
            h,
            planned_page(t, z, t.rows as int)[i].0,
            planned_page(t, z, t.rows as int)[i].1,
        )
}

impl Paper {
    /// Lay out one page of a filled grid on a `paper_size` pixel
    /// canvas: one pose per real sample of the page, at the centre of
    /// its cell, unrotated and at full scale. Placeholder cells emit
    /// nothing. A page index at or past the grid's page count is
    /// rejected.
    pub fn make(table: Table, page_index: usize, paper_size: [usize; 2]) -> (r: Result<
        Paper,
        MakePaperError,
    >)
        requires
            table.wf(),
        ensures
            r matches Err(MakePaperError::PageOutOfIndex) <==> page_index >= table.pages,
            r matches Ok(p) ==> page_plan_ok(
                p,
                table,
                page_index as int,
                paper_size@[0] as int,
                paper_size@[1] as int,
            ),
    {
        if page_index >= table.pages {
            return Err(MakePaperError::PageOutOfIndex);
        }
        let w = paper_size[0];
        let h = paper_size[1];
        let bw = w.saturating_sub(BORDER_INSET);
        let bh = h.saturating_sub(BORDER_INSET);
        let border: [[usize; 2]; 4] = [[BORDER_INSET, BORDER_INSET], [bw, BORDER_INSET], [
            BORDER_INSET,
            bh,
        ], [bw, bh]];
        let us0 = bw.saturating_sub(BORDER_INSET) / table.columns;
        let us1 = bh.saturating_sub(BORDER_INSET) / table.rows;
        let unit_size: [usize; 2] = [us0, us1];
        let uh0 = us0 / 2;
        let uh1 = us1 / 2;
        proof {
            assert(us0 == unit_len(w as int, table.columns as int));
            assert(us1 == unit_len(h as int, table.rows as int));
        }
        let padded_rows = table.table.len();
        let padded_columns = table.table[0].len();
        proof {
            assert(table.rows + 2 <= usize::MAX);
            assert(table.columns + 1 <= usize::MAX);
        }
        let mut transforms: Vec<Transform> = Vec::new();
        let mut x: usize = 1;
        while x <= table.rows
            invariant
                table.wf(),
                table.rows + 2 <= usize::MAX,
                table.columns + 1 <= usize::MAX,
                page_index < table.pages,
                1 <= x <= table.rows + 1,
                w == paper_size@[0],
                h == paper_size@[1],
                us0 == unit_len(w as int, table.columns as int),
                us1 == unit_len(h as int, table.rows as int),
                uh0 == us0 / 2,
                uh1 == us1 / 2,
                transforms@.len() == planned_page(table, page_index as int, x - 1).len(),
                forall|i: int|
                    0 <= i < transforms@.len() ==> transform_matches(
                        #[trigger] transforms@[i],
                        table,
                        page_index as int,
                        w as int,
                        h as int,
                        planned_page(table, page_index as int, x - 1)[i].0,
                        planned_page(table, page_index as int, x - 1)[i].1,
                    ),
            decreases table.rows + 1 - x,
        {
            let ghost done = planned_page(table, page_index as int, x - 1);
            let mut y: usize = 1;
            while y <= table.columns
                invariant
                    table.wf(),
                    table.rows + 2 <= usize::MAX,
                    table.columns + 1 <= usize::MAX,
                    page_index < table.pages,
                    1 <= x <= table.rows,
                    1 <= y <= table.columns + 1,
                    w == paper_size@[0],
                    h == paper_size@[1],
                    us0 == unit_len(w as int, table.columns as int),
                    us1 == unit_len(h as int, table.rows as int),
                    uh0 == us0 / 2,
                    uh1 == us1 / 2,
                    done == planned_page(table, page_index as int, x - 1),
                    transforms@.len() == (done + planned_row(
                        table,
                        page_index as int,
                        x as int,
                        y - 1,
                    )).len(),
                    forall|i: int|
                        0 <= i < transforms@.len() ==> transform_matches(
                            #[trigger] transforms@[i],
                            table,
                            page_index as int,
                            w as int,
                            h as int,
                            (done + planned_row(table, page_index as int, x as int, y - 1))[i].0,
                            (done + planned_row(table, page_index as int, x as int, y - 1))[i].1,
                        ),
                decreases table.columns + 1 - y,
            {
                let current = crate::arranger::grid_get(&table.table, x, y, page_index);
                let ghost cov0 = done + planned_row(table, page_index as int, x as int, y - 1);
                let ghost cov1 = done + planned_row(table, page_index as int, x as int, y as int);
                if !current.dummy {
                    proof {
                        lemma_center_bounded(w as int, table.columns as int, y as int);
                        lemma_center_bounded(h as int, table.rows as int, x as int);
                    }
                    let px = BORDER_INSET + uh0 + (y - 1) * us0;
                    let py = BORDER_INSET + uh1 + (x - 1) * us1;
                    let tr = Transform {
                        id: current.id,
                        position: [px, py],
                        rotation: 0,
                        scale: 1000,
                        row: x,
                        column: y,
                    };
                    transforms.push(tr);
                    proof {
                        assert(cov1 =~= cov0.push((x as int, y as int)));
                    }
                } else {
                    proof {
                        assert(cov1 =~= cov0);
                    }
                }
                y = y + 1;
            }
            proof {
                assert(planned_page(table, page_index as int, x as int) == done + planned_row(
                    table,
                    page_index as int,
                    x as int,
                    table.columns as int,
                ));
            }
            x = x + 1;
        }
        let p = Paper { img_size: paper_size, border, unit_size, table: transforms };
        proof {
            assert(p.border@[0]@ =~= seq![BORDER_INSET, BORDER_INSET]);
            assert(p.border@[1]@ =~= seq![bw, BORDER_INSET]);
            assert(p.border@[2]@ =~= seq![BORDER_INSET, bh]);
            assert(p.border@[3]@ =~= seq![bw, bh]);
        }
        Ok(p)
    }
}

/// Clamp an integer to the usize range.
pub open spec fn clamp_usize(v: int) -> int {
    if v < 0 {
        0
    } else if v > usize::MAX {
        usize::MAX as int
    } else {
        v
    }
}

/// Clamp an integer to the i64 range.
pub open spec fn clamp_i64(v: int) -> int {
    if v < i64::MIN {
        i64::MIN as int
    } else if v > i64::MAX {
        i64::MAX as int
    } else {
        v
    }
}

/// `post` is `pre` jittered by the rotation `dr`, the position offsets
/// `dx` and `dy` and the scale `sc`: the rotation and scale are set
/// outright, the position is shifted and clamped, and everything else
/// is kept.
pub open spec fn jitter_with(
    pre: Transform,
    post: Transform,
    dr: int,
    dx: int,
    dy: int,
    sc: int,
) -> bool {
    &&& post.id == pre.id
    &&& post.row == pre.row
    &&& post.column == pre.column
    &&& post.rotation == dr
    &&& post.scale == sc
    &&& post.position@.len() == 2
    &&& post.position@[0] == clamp_usize(pre.position@[0] + dx)
    &&& post.position@[1] == clamp_usize(pre.position@[1] + dy)
}

/// `post` is `pre` jittered within the documented bands: rotation
/// within three degrees of zero, position within eleven pixels per
/// axis, scale within three percent of full size.
pub open spec fn jitter_applies(pre: Transform, post: Transform) -> bool {
    exists|dr: int, dx: int, dy: int, sc: int|
        {
            &&& -3000 <= dr <= 3000
            &&& -11 <= dx <= 11
            &&& -11 <= dy <= 11
            &&& 970 <= sc <= 1030
            &&& jitter_with(pre, post, dr, dx, dy, sc)
        }
}

/// Shift a pixel coordinate by a small signed offset, clamping at the
/// ends of the usize range.
fn offset_coord(p: usize, d: i64) -> (r: usize)
    requires
        -11 <= d <= 11,
    ensures
        r == clamp_usize(p + d),
{
    if d >= 0 {
        p.saturating_add(d as usize)
    } else {
        p.saturating_sub((-d) as usize)
    }
}

/// The column index fed to the skew curves, clamped so that the
/// fixed-point computation stays in range.
pub open spec fn curve_column(column: int) -> int {
    if column > 999999 {
        999999
    } else {
        column
    }
}

/// The skew's vertical displacement in pixels, always non-negative:
/// the strength times the entropy (thousandths) times the logarithmic
/// curve (thousandths).
pub open spec fn skew_delta_y(coeff: int, mag: int, column: int) -> int {
    coeff * mag * spec_ln_1p_milli(curve_column(column) + 1) / 1000000
}

/// The skew's rotation displacement in millidegrees, always
/// non-negative: the strength times the entropy (thousandths) times
/// the arc-tangent curve (thousandths of a radian).
pub open spec fn skew_delta_deg(coeff: int, mag: int, column: int) -> int {
    coeff * mag * spec_atan_inv_milli(curve_column(column) + 1) / 1000
}

/// The sign of a skew direction: an upward skew draws a positive
/// entropy, a downward skew a negative one.
pub open spec fn skew_sign(dir: PaperObfuscation) -> int {
    match dir {
        PaperObfuscation::Upward => 1,
        PaperObfuscation::Downward => -1,
    }
}

/// The signed vertical displacement of a skew: subtracted from the
/// vertical position, so an upward skew lifts the placement.
pub open spec fn skew_shift_y(dir: PaperObfuscation, coeff: int, mag: int, column: int) -> int {
    skew_sign(dir) * skew_delta_y(coeff, mag, column)
}

/// The signed rotation displacement of a skew.
pub open spec fn skew_shift_deg(dir: PaperObfuscation, coeff: int, mag: int, column: int) -> int {
    skew_sign(dir) * skew_delta_deg(coeff, mag, column)
}

/// `post` is `pre` displaced by the skew of direction `dir`, entropy
/// magnitude `mag` (thousandths) and strength `coeff`: the vertical
/// position and the rotation move by the curve displacements of the
/// placement's column, clamped to their ranges; everything else is
/// kept.
pub open spec fn skew_applies(
    pre: Transform,
    post: Transform,
    dir: PaperObfuscation,
    mag: int,
    coeff: int,
) -> bool {
    &&& post.id == pre.id
    &&& post.row == pre.row
    &&& post.column == pre.column
    &&& post.scale == pre.scale
    &&& post.position@.len() == 2
    &&& post.position@[0] == pre.position@[0]
    &&& post.position@[1] == clamp_usize(
        pre.position@[1] - skew_shift_y(dir, coeff, mag, pre.column as int),
    )
    &&& post.rotation == clamp_i64(
        pre.rotation - skew_shift_deg(dir, coeff, mag, pre.column as int),
    )
}

/// The two skew directions are mirror images: for the same entropy
/// magnitude, strength and column they displace the vertical position
/// and the rotation by exactly opposite amounts.
pub proof fn lemma_skew_mirror(coeff: int, mag: int, column: int)
    ensures
        skew_shift_y(PaperObfuscation::Upward, coeff, mag, column) == -skew_shift_y(
            PaperObfuscation::Downward,
            coeff,
            mag,
            column,
        ),
        skew_shift_deg(PaperObfuscation::Upward, coeff, mag, column) == -skew_shift_deg(
            PaperObfuscation::Downward,
            coeff,
            mag,
            column,
        ),
{
}

/// Two skews of the same placement with the same entropy magnitude but
/// opposite directions land symmetrically around the original pose,
/// wherever neither displacement runs into the ends of the coordinate
/// ranges.
pub proof fn lemma_skew_opposite_displacement(
    pre: Transform,
    up: Transform,
    down: Transform,
    mag: int,
    coeff: int,
)
    requires
        skew_applies(pre, up, PaperObfuscation::Upward, mag, coeff),
        skew_applies(pre, down, PaperObfuscation::Downward, mag, coeff),
        0 <= pre.position@[1] - skew_delta_y(coeff, mag, pre.column as int) <= usize::MAX,
        0 <= pre.position@[1] + skew_delta_y(coeff, mag, pre.column as int) <= usize::MAX,
        i64::MIN <= pre.rotation - skew_delta_deg(coeff, mag, pre.column as int) <= i64::MAX,
        i64::MIN <= pre.rotation + skew_delta_deg(coeff, mag, pre.column as int) <= i64::MAX,
    ensures
        up.position@[1] + down.position@[1] == 2 * pre.position@[1],
        up.rotation + down.rotation == 2 * pre.rotation,
{
    let dy = skew_delta_y(coeff, mag, pre.column as int);
    let dd = skew_delta_deg(coeff, mag, pre.column as int);
    assert(skew_sign(PaperObfuscation::Upward) == 1);
    assert(skew_sign(PaperObfuscation::Downward) == -1);
    assert((-1) * dy == -dy) by (nonlinear_arith);
    assert((-1) * dd == -dd) by (nonlinear_arith);
    assert(skew_shift_y(PaperObfuscation::Downward, coeff, mag, pre.column as int) == skew_sign(
        PaperObfuscation::Downward,
    ) * skew_delta_y(coeff, mag, pre.column as int));
    assert(skew_shift_y(PaperObfuscation::Upward, coeff, mag, pre.column as int) == dy);
    assert(skew_shift_y(PaperObfuscation::Downward, coeff, mag, pre.column as int) == -dy);
    assert(skew_shift_deg(PaperObfuscation::Upward, coeff, mag, pre.column as int) == dd);
    assert(skew_shift_deg(PaperObfuscation::Downward, coeff, mag, pre.column as int) == -dd);
    assert(up.position@[1] == pre.position@[1] - dy);
    assert(down.position@[1] == pre.position@[1] + dy);
    assert(up.rotation == pre.rotation - dd);
    assert(down.rotation == pre.rotation + dd);
}

impl Paper {
    /// Jitter every placement of the paper: resample its rotation
    /// within three degrees of zero, shift its position by up to
    /// eleven pixels per axis, and resample its scale within three
    /// percent of full size. Which placements exist, and their ids,
    /// rows and columns, never change.
    pub fn alter(&mut self)
        ensures
            final(self).img_size == old(self).img_size,
            final(self).border == old(self).border,
            final(self).unit_size == old(self).unit_size,
            final(self).table@.len() == old(self).table@.len(),
            forall|i: int|
                0 <= i < old(self).table@.len() ==> jitter_applies(
                    old(self).table@[i],
                    #[trigger] final(self).table@[i],
                ),
    {
        let n = self.table.len();
        let mut i: usize = 0;
        while i < n
            invariant
                i <= n,
                n == old(self).table@.len(),
                self.table@.len() == n,
                self.img_size == old(self).img_size,
                self.border == old(self).border,
                self.unit_size == old(self).unit_size,
                forall|j: int|
                    0 <= j < i ==> jitter_applies(
                        old(self).table@[j],
                        #[trigger] self.table@[j],
                    ),
                forall|j: int| i <= j < n ==> self.table@[j] == old(self).table@[j],
            decreases n - i,
        {
            let t = self.table[i];
            let dr = crate::rng::rand_in_i64(-3000, 3000);
            let dx = crate::rng::rand_in_i64(-11, 11);
            let dy = crate::rng::rand_in_i64(-11, 11);
            let sc = crate::rng::rand_in_i64(970, 1030);
            let nt = Transform {
                id: t.id,
                position: [offset_coord(t.position[0], dx), offset_coord(t.position[1], dy)],
                rotation: dr,
                scale: sc as u64,
                row: t.row,
                column: t.column,
            };
            self.table.set(i, nt);
            proof {
                assert(jitter_with(t, nt, dr as int, dx as int, dy as int, sc as int));
            }
            i = i + 1;
        }
    }

    /// Bend one row of the paper: for every placement of the targeted
    /// row, draw an entropy, displace the vertical position along a
    /// logarithmic curve of the column and the rotation along an
    /// arc-tangent curve, signed by the direction. Every other
    /// placement is left exactly as it was.
    #[verifier::loop_isolation(false)]
    pub fn obfuscate(&mut self, obfuscation: PaperObfuscation, row: usize, coefficient: u64)
        ensures
            final(self).img_size == old(self).img_size,
            final(self).border == old(self).border,
            final(self).unit_size == old(self).unit_size,
            final(self).table@.len() == old(self).table@.len(),
            forall|i: int|
                0 <= i < old(self).table@.len() && old(self).table@[i].row != row
                    ==> final(self).table@[i] == old(self).table@[i],
            forall|i: int|
                #![trigger old(self).table@[i]]
                0 <= i < old(self).table@.len() && old(self).table@[i].row == row
                    ==> exists|mag: int|
                    800 <= mag <= 1000 && skew_applies(
                        old(self).table@[i],
                        final(self).table@[i],
                        obfuscation,
                        mag,
                        coefficient as int,
                    ),
    {
        let n = self.table.len();
        let mut i: usize = 0;
        while i < n
            invariant
                i <= n,
                n == old(self).table@.len(),
                self.table@.len() == n,
                self.img_size == old(self).img_size,
                self.border == old(self).border,
                self.unit_size == old(self).unit_size,
                forall|j: int|
                    0 <= j < i && old(self).table@[j].row != row
                        ==> self.table@[j] == old(self).table@[j],
                forall|j: int|
                    #![trigger old(self).table@[j]]
                    0 <= j < i && old(self).table@[j].row == row ==> exists|mag: int|
                        800 <= mag <= 1000 && skew_applies(
                            old(self).table@[j],
                            self.table@[j],
                            obfuscation,
                            mag,
                            coefficient as int,
                        ),
                forall|j: int| i <= j < n ==> self.table@[j] == old(self).table@[j],
            decreases n - i,
        {
            let ghost snap = *self;
            let t = self.table[i];
            if t.row == row {
                let magd = crate::rng::rand_in_i64(800, 1000);
                let c = if t.column > 999999 {
                    999999
                } else {
                    t.column
                };
                let lnv = crate::curve::ln_1p_milli(c + 1);
                let atv = crate::curve::atan_inv_milli(c + 1);
                proof {
                    assert((coefficient as int) * (magd as int) <= 0xffff_ffff_ffff_ffff * 1000)
                        by (nonlinear_arith)
                        requires
                            coefficient <= 0xffff_ffff_ffff_ffff,
                            0 <= magd <= 1000,
                    ;
                    assert((coefficient as int) * (magd as int) * (lnv as int)
                        <= 0xffff_ffff_ffff_ffff * 1000 * 45000) by (nonlinear_arith)
                        requires
                            0 <= (coefficient as int) * (magd as int) <= 0xffff_ffff_ffff_ffff
                                * 1000,
                            0 <= lnv <= 45000,
                    ;
                    assert((coefficient as int) * (magd as int) * (atv as int)
                        <= 0xffff_ffff_ffff_ffff * 1000 * 45000) by (nonlinear_arith)
                        requires
                            0 <= (coefficient as int) * (magd as int) <= 0xffff_ffff_ffff_ffff
                                * 1000,
                            0 <= atv <= 45000,
                    ;
                }
                let dy128 = (coefficient as u128) * (magd as u128) * (lnv as u128) / 1000000;
                let dd128 = (coefficient as u128) * (magd as u128) * (atv as u128) / 1000;
                let y128 = t.position[1] as i128;
                let r128 = t.rotation as i128;
                let (ny128, nr128) = match obfuscation {
                    PaperObfuscation::Upward => (y128 - dy128 as i128, r128 - dd128 as i128),
                    PaperObfuscation::Downward => (y128 + dy128 as i128, r128 + dd128 as i128),
                };
                let ny = if ny128 < 0 {
                    0
                } else if ny128 > usize::MAX as i128 {
                    usize::MAX
                } else {
                    ny128 as usize
                };
                let nr = if nr128 < i64::MIN as i128 {
                    i64::MIN
                } else if nr128 > i64::MAX as i128 {
                    i64::MAX
                } else {
                    nr128 as i64
                };
                let nt = Transform {
                    id: t.id,
                    position: [t.position[0], ny],
                    rotation: nr,
                    scale: t.scale,
                    row: t.row,
                    column: t.column,
                };
                self.table.set(i, nt);
                proof {
                    assert(nt.position@[0] == t.position@[0]);
                    assert(nt.position@[1] == ny);
                    assert(curve_column(t.column as int) == c);
                    assert(lnv == spec_ln_1p_milli(c as int + 1));
                    assert(atv == spec_atan_inv_milli(c as int + 1));
                    assert(dy128 == skew_delta_y(coefficient as int, magd as int, t.column as int));
                    assert(dd128 == skew_delta_deg(
                        coefficient as int,
                        magd as int,
                        t.column as int,
                    ));
                    assert(ny == clamp_usize(
                        t.position@[1] - skew_shift_y(
                            obfuscation,
                            coefficient as int,
                            magd as int,
                            t.column as int,
                        ),
                    ));
                    assert(nr == clamp_i64(
                        t.rotation - skew_shift_deg(
                            obfuscation,
                            coefficient as int,
                            magd as int,
                            t.column as int,
                        ),
                    ));
                    assert(skew_applies(t, nt, obfuscation, magd as int, coefficient as int));
                    assert forall|j: int|
                        #![trigger old(self).table@[j]]
                        0 <= j < i + 1 && old(self).table@[j].row == row implies exists|mag: int|
                        800 <= mag <= 1000 && skew_applies(
                            old(self).table@[j],
                            self.table@[j],
                            obfuscation,
                            mag,
                            coefficient as int,
                        ) by {
                        if j < i {
                            assert(self.table@[j] == snap.table@[j]);
                            let m = choose|mag: int|
                                800 <= mag <= 1000 && skew_applies(
                                    old(self).table@[j],
                                    snap.table@[j],
                                    obfuscation,
                                    mag,
                                    coefficient as int,
                                );
                            assert(skew_applies(
                                old(self).table@[j],
                                self.table@[j],
                                obfuscation,
                                m,
                                coefficient as int,
                            ));
                        } else {
                            assert(self.table@[j] == nt);
                            assert(old(self).table@[j] == t);
                            assert(skew_applies(
                                old(self).table@[j],
                                self.table@[j],
                                obfuscation,
                                magd as int,
                                coefficient as int,
                            ));
                        }
                    }
                }
            }
            i = i + 1;
        }
    }
}

/// Shape of one planned row: every entry stands in that row, entries
/// come in increasing column order, and the entries are exactly the
/// real cells of the row.
proof fn lemma_planned_row_props(t: Table, z: int, x: int, yc: int)
    ensures
        forall|i: int|
            0 <= i < planned_row(t, z, x, yc).len() ==> {
                let e = #[trigger] planned_row(t, z, x, yc)[i];
                e.0 == x && 1 <= e.1 <= yc && !t.cell(x, e.1, z).dummy
            },
        forall|i: int, j: int|
            0 <= i < j < planned_row(t, z, x, yc).len() ==> #[trigger] planned_row(
                t,
                z,
                x,
                yc,
            )[i].1 < #[trigger] planned_row(t, z, x, yc)[j].1,
        forall|y: int|
            1 <= y <= yc && !(#[trigger] t.cell(x, y, z)).dummy ==> exists|i: int|
                0 <= i < planned_row(t, z, x, yc).len() && planned_row(t, z, x, yc)[i] == (x, y),
    decreases yc,
{
    if yc > 0 {
        lemma_planned_row_props(t, z, x, yc - 1);
        let s0 = planned_row(t, z, x, yc - 1);
        let s = planned_row(t, z, x, yc);
        if t.cell(x, yc, z).dummy {
            assert(s =~= s0);
        } else {
            assert(s == s0 + seq![(x, yc)]);
            assert(s[s.len() - 1] == (x, yc));
            assert(forall|i: int| 0 <= i < s0.len() ==> #[trigger] s[i] == s0[i]);
        }
        assert forall|y: int|
            1 <= y <= yc && !(#[trigger] t.cell(x, y, z)).dummy implies exists|i: int|
            0 <= i < s.len() && s[i] == (x, y) by {
            if y < yc {
                let i = choose|i: int| 0 <= i < s0.len() && s0[i] == (x, y);
                assert(s[i] == (x, y));
            } else {
                assert(s[s.len() - 1] == (x, y));
            }
        }
    }
}

/// Shape of one planned page: every entry is a real interior cell, the
/// entries come in fill order (first index, then second), and the
/// entries are exactly the real cells of the page.
proof fn lemma_planned_page_props(t: Table, z: int, xc: int)
    ensures
        forall|i: int|
            0 <= i < planned_page(t, z, xc).len() ==> {
                let e = #[trigger] planned_page(t, z, xc)[i];
                1 <= e.0 <= xc && 1 <= e.1 <= t.columns && !t.cell(e.0, e.1, z).dummy
            },
        forall|i: int, j: int|
            0 <= i < j < planned_page(t, z, xc).len() ==> (#[trigger] planned_page(t, z, xc)[i]).0
                < (#[trigger] planned_page(t, z, xc)[j]).0 || ((planned_page(t, z, xc)[i]).0 == (
            planned_page(t, z, xc)[j]).0 && (planned_page(t, z, xc)[i]).1 < (planned_page(
                t,
                z,
                xc,
            )[j]).1),
        forall|x: int, y: int|
            1 <= x <= xc && 1 <= y <= t.columns && !(#[trigger] t.cell(x, y, z)).dummy
                ==> exists|i: int|
                0 <= i < planned_page(t, z, xc).len() && planned_page(t, z, xc)[i] == (x, y),
    decreases xc,
{
    if xc > 0 {
        lemma_planned_page_props(t, z, xc - 1);
        lemma_planned_row_props(t, z, xc, t.columns as int);
        let s0 = planned_page(t, z, xc - 1);
        let r = planned_row(t, z, xc, t.columns as int);
        let s = planned_page(t, z, xc);
        assert(s == s0 + r);
        assert(forall|i: int| 0 <= i < s0.len() ==> #[trigger] s[i] == s0[i]);
        assert(forall|i: int|
            s0.len() <= i < s.len() ==> #[trigger] s[i] == r[i - s0.len()]);
        assert forall|x: int, y: int|
            1 <= x <= xc && 1 <= y <= t.columns && !(#[trigger] t.cell(x, y, z)).dummy implies exists|
            i: int,
        | 0 <= i < s.len() && s[i] == (x, y) by {
            if x < xc {
                let i = choose|i: int| 0 <= i < s0.len() && s0[i] == (x, y);
                assert(s[i] == (x, y));
            } else {
                let i = choose|i: int| 0 <= i < r.len() && r[i] == (x, y);
                assert(s[s0.len() + i] == (x, y));
            }
        }
    }
}

/// A planned paper carries exactly one pose per real interior cell of
/// its page: every pose stands on a real interior cell, no two poses
/// share a cell, and every real interior cell has a pose.
pub proof fn lemma_page_plan_exact(p: Paper, t: Table, z: int, w: int, h: int)
    requires
        t.wf(),
        page_plan_ok(p, t, z, w, h),
    ensures
        forall|i: int|
            0 <= i < p.table@.len() ==> {
                let tr = #[trigger] p.table@[i];
                &&& t.interior(tr.row as int, tr.column as int)
                &&& !t.cell(tr.row as int, tr.column as int, z).dummy
                &&& tr.id == t.cell(tr.row as int, tr.column as int, z).id
            },
        forall|i: int, j: int|
            0 <= i < j < p.table@.len() ==> !((#[trigger] p.table@[i]).row == (
            #[trigger] p.table@[j]).row && p.table@[i].column == p.table@[j].column),
        forall|x: int, y: int|
            t.interior(x, y) && !(#[trigger] t.cell(x, y, z)).dummy ==> exists|i: int|
                0 <= i < p.table@.len() && p.table@[i].row == x && p.table@[i].column == y,
{
    let plan = planned_page(t, z, t.rows as int);
    lemma_planned_page_props(t, z, t.rows as int);
    assert forall|i: int|
        0 <= i < p.table@.len() implies {
        let tr = #[trigger] p.table@[i];
        &&& t.interior(tr.row as int, tr.column as int)
        &&& !t.cell(tr.row as int, tr.column as int, z).dummy
        &&& tr.id == t.cell(tr.row as int, tr.column as int, z).id
    } by {
        assert(transform_matches(p.table@[i], t, z, w, h, plan[i].0, plan[i].1));
    }
    assert forall|i: int, j: int|
        0 <= i < j < p.table@.len() implies !((#[trigger] p.table@[i]).row == (
    #[trigger] p.table@[j]).row && p.table@[i].column == p.table@[j].column) by {
        assert(transform_matches(p.table@[i], t, z, w, h, plan[i].0, plan[i].1));
        assert(transform_matches(p.table@[j], t, z, w, h, plan[j].0, plan[j].1));
    }
    assert forall|x: int, y: int|
        t.interior(x, y) && !(#[trigger] t.cell(x, y, z)).dummy implies exists|i: int|
        0 <= i < p.table@.len() && p.table@[i].row == x && p.table@[i].column == y by {
        let i = choose|i: int| 0 <= i < plan.len() && plan[i] == (x, y);
        assert(transform_matches(p.table@[i], t, z, w, h, plan[i].0, plan[i].1));
        assert(p.table@[i].row == x && p.table@[i].column == y);
    }
}

/// The centre of every cell lies within the page: the border inset plus
/// at most the whole inner extent.
proof fn lemma_center_bounded(extent: int, count: int, idx: int)
    requires
        0 <= extent <= usize::MAX,
        1 <= count,
        1 <= idx <= count,
    ensures
        BORDER_INSET <= cell_center(extent, count, idx) <= usize::MAX,
{
    let ie = inner_extent(extent);
    let ul = unit_len(extent, count);
    vstd::arithmetic::div_mod::lemma_fundamental_div_mod(ie, count);
    vstd::arithmetic::div_mod::lemma_mod_bound(ie, count);
    assert(count * ul <= ie);
    assert(ul >= 0) by {
        vstd::arithmetic::div_mod::lemma_div_pos_is_pos(ie, count);
    }
    assert((idx - 1) * ul <= (count - 1) * ul) by (nonlinear_arith)
        requires
            idx <= count,
            ul >= 0,
    ;
    assert((count - 1) * ul == count * ul - ul) by (nonlinear_arith);
    assert((idx - 1) * ul >= 0) by (nonlinear_arith)
        requires
            idx >= 1,
            ul >= 0,
    ;
    if ie > 0 {
        assert(extent >= 2 * BORDER_INSET);
        assert(BORDER_INSET + ul / 2 + (idx - 1) * ul <= BORDER_INSET + ie);
    }
}

} // verus!
