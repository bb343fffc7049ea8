//! Constrained random arrangement of samples into a padded grid.

use vstd::prelude::*;

verus! {

/// One distinct content unit, identified by `id`.
///
/// A sample with `dummy` set is a placeholder: it pads the border of a
/// grid and stands in cells that are not filled yet. A placeholder never
/// compares equal to anything, not even to another placeholder.
#[derive(Clone, Copy, Debug)]
pub struct Sample {
    pub id: usize,
    pub dummy: bool,
}

/// Asymmetric sample equality: two samples match exactly when neither is
/// a placeholder and their ids agree.
pub open spec fn sample_eq(a: Sample, b: Sample) -> bool {
    !a.dummy && !b.dummy && a.id == b.id
}

impl PartialEq for Sample {
    fn eq(&self, other: &Self) -> (r: bool)
        ensures
            r == sample_eq(*self, *other),
    {
        if self.dummy || other.dummy {
            false
        } else {
            self.id == other.id
        }
    }
}

impl vstd::std_specs::cmp::PartialEqSpecImpl for Sample {
    open spec fn obeys_eq_spec() -> bool {
        true
    }

    open spec fn eq_spec(&self, other: &Self) -> bool {
        sample_eq(*self, *other)
    }
}

/// Why an arrangement request was rejected.
#[derive(Debug, PartialEq, Eq)]
pub enum MakeTableError {
    /// The sample pool is too small for the requested page count or for
    /// the fixed floor of nine samples.
    NotEnoughSamples,
    /// A zero row, column or page count, or an empty sample pool.
    InvalidParameter,
    /// The greedy fill found a cell whose neighbour constraints exclude
    /// every sample in the pool; this can only happen when the pool
    /// holds placeholders or repeated ids.
    ArrangementExhausted,
    /// Reserved for conditions not otherwise classified.
    Other,
}

/// A grid of samples, indexed `[x][y][z]` with `z` the page. The first
/// axis is padded with one border cell on each side, the second with one
/// border cell at index 0, so interior cells are `1 <= x <= rows`,
/// `1 <= y <= columns`. Border cells always hold placeholders.
#[derive(Clone, Debug)]
pub struct Table {
    pub rows: usize,
    pub columns: usize,
    pub pages: usize,
    pub table: Vec<Vec<Vec<Sample>>>,
}

/// The sample at grid position `(x, y, z)`.
pub open spec fn grid_at(g: Vec<Vec<Vec<Sample>>>, x: int, y: int, z: int) -> Sample {
    g@[x]@[y]@[z]
}

/// The padded storage has shape `(rows + 2) x (columns + 1) x pages`.
pub open spec fn grid_dims(g: Vec<Vec<Vec<Sample>>>, rows: int, columns: int, pages: int) -> bool {
    &&& g@.len() == rows + 2
    &&& forall|x: int| 0 <= x < g@.len() ==> (#[trigger] g@[x])@.len() == columns + 1
    &&& forall|x: int, y: int|
        0 <= x < g@.len() && 0 <= y < columns + 1 ==> (#[trigger] g@[x]@[y])@.len() == pages
}

/// Interior positions of a `rows x columns` grid; everything else in the
/// padded storage is border.
pub open spec fn grid_interior(x: int, y: int, rows: int, columns: int) -> bool {
    1 <= x <= rows && 1 <= y <= columns
}

/// The adjacency constraint for interior cell `(x, y)` on page `z`: its
/// sample matches none of the four neighbours that surround it towards
/// lower `y` — `(x-1, y)`, `(x, y-1)`, `(x-1, y-1)` and `(x+1, y-1)`,
/// the left, top, top-left and top-right neighbours of the cell when the
/// first axis runs along a printed row and the second from row to row.
pub open spec fn grid_cell_ok(g: Vec<Vec<Vec<Sample>>>, x: int, y: int, z: int) -> bool {
    &&& !sample_eq(grid_at(g, x, y, z), grid_at(g, x - 1, y, z))
    &&& !sample_eq(grid_at(g, x, y, z), grid_at(g, x, y - 1, z))
    &&& !sample_eq(grid_at(g, x, y, z), grid_at(g, x - 1, y - 1, z))
    &&& !sample_eq(grid_at(g, x, y, z), grid_at(g, x + 1, y - 1, z))
}

/// `u` is one of the samples of the pool `s`.
pub open spec fn in_pool(s: Seq<Sample>, u: Sample) -> bool {
    exists|i: int| 0 <= i < s.len() && s[i] == u
}

impl Table {
    /// Well-formed padded storage for the stated dimensions.
    pub open spec fn wf(self) -> bool {
        &&& self.rows >= 1
        &&& self.columns >= 1
        &&& self.pages >= 1
        &&& grid_dims(self.table, self.rows as int, self.columns as int, self.pages as int)
    }

    /// The sample at `(x, y, z)`.
    pub open spec fn cell(self, x: int, y: int, z: int) -> Sample {
        grid_at(self.table, x, y, z)
    }

    /// `(x, y)` is an interior position of this grid.
    pub open spec fn interior(self, x: int, y: int) -> bool {
        grid_interior(x, y, self.rows as int, self.columns as int)
    }

    /// Every interior cell of every page satisfies the adjacency
    /// constraint.
    pub open spec fn arranged(self) -> bool {
        forall|x: int, y: int, z: int|
            self.interior(x, y) && 0 <= z < self.pages ==> #[trigger] grid_cell_ok(
                self.table,
                x,
                y,
                z,
            )
    }

    /// Every interior cell of every page holds a sample of the pool `s`.
    pub open spec fn filled_from(self, s: Seq<Sample>) -> bool {
        forall|x: int, y: int, z: int|
            self.interior(x, y) && 0 <= z < self.pages ==> in_pool(
                s,
                #[trigger] self.cell(x, y, z),
            )
    }

    /// Every border cell of every page holds a placeholder.
    pub open spec fn border_dummy(self) -> bool {
        forall|x: int, y: int, z: int|
            0 <= x < self.rows + 2 && 0 <= y < self.columns + 1 && 0 <= z < self.pages
                && !self.interior(x, y) ==> (#[trigger] self.cell(x, y, z)).dummy
    }
}

/// A zero dimension or an empty pool: the request is rejected outright.
pub open spec fn degenerate_request(
    samples: Seq<Sample>,
    pages: int,
    rows: int,
    columns: int,
) -> bool {
    rows == 0 || columns == 0 || pages == 0 || samples.len() == 0
}

/// The heuristic floor on the pool size: at least nine samples and at
/// least four per page.
pub open spec fn pool_too_small(samples: Seq<Sample>, pages: int) -> bool {
    samples.len() < 9 || samples.len() < pages * 4
}

/// A clean pool: no placeholders and pairwise distinct ids.
pub open spec fn pool_clean(samples: Seq<Sample>) -> bool {
    &&& forall|i: int| 0 <= i < samples.len() ==> !(#[trigger] samples[i]).dummy
    &&& forall|i: int, j: int|
        0 <= i < j < samples.len() ==> (#[trigger] samples[i]).id != (#[trigger] samples[j]).id
}

/// How many entries of `s` match `n` under sample equality.
spec fn count_matches(s: Seq<Sample>, n: Sample) -> int
    decreases s.len(),
{
    if s.len() == 0 {
        0
    } else {
        count_matches(s.drop_last(), n) + if sample_eq(s.last(), n) {
            1int
        } else {
            0int
        }
    }
}

proof fn lemma_count_matches_push(s: Seq<Sample>, u: Sample, n: Sample)
    ensures
        count_matches(s.push(u), n) == count_matches(s, n) + if sample_eq(u, n) {
            1int
        } else {
            0int
        },
{
    assert(s.push(u).drop_last() =~= s);
}

proof fn lemma_count_matches_none(s: Seq<Sample>, n: Sample)
    requires
        forall|k: int| 0 <= k < s.len() ==> !sample_eq(#[trigger] s[k], n),
    ensures
        count_matches(s, n) == 0,
    decreases s.len(),
{
    if s.len() > 0 {
        lemma_count_matches_none(s.drop_last(), n);
    }
}

proof fn lemma_count_matches_nonneg(s: Seq<Sample>, n: Sample)
    ensures
        count_matches(s, n) >= 0,
    decreases s.len(),
{
    if s.len() > 0 {
        lemma_count_matches_nonneg(s.drop_last(), n);
    }
}

/// In a clean pool at most one sample matches any given value.
proof fn lemma_count_matches_at_most_one(s: Seq<Sample>, n: Sample)
    requires
        pool_clean(s),
    ensures
        count_matches(s, n) <= 1,
    decreases s.len(),
{
    if s.len() > 0 {
        let s0 = s.drop_last();
        assert(pool_clean(s0));
        lemma_count_matches_at_most_one(s0, n);
        if sample_eq(s.last(), n) {
            assert forall|k: int| 0 <= k < s0.len() implies !sample_eq(#[trigger] s0[k], n) by {
                if sample_eq(s0[k], n) {
                    assert(s[k].id == s[s.len() - 1].id);
                }
            }
            lemma_count_matches_none(s0, n);
        } else {
            lemma_count_matches_nonneg(s0, n);
        }
    }
}

/// Grid positions already filled when the fill stands at page `z`,
/// column `y`, position `x`: all earlier pages, and on page `z` the
/// interior cells that precede `(x, y)` in fill order (`y` outermost,
/// then `x`).
spec fn placed_before(
    a: int,
    b: int,
    c: int,
    x: int,
    y: int,
    z: int,
    rows: int,
    columns: int,
) -> bool {
    grid_interior(a, b, rows, columns) && 0 <= c && (c < z || (c == z && (b < y || (b == y && a
        < x))))
}

/// The working state of the greedy fill: already placed cells satisfy
/// the adjacency constraint and come from the pool; everything else in
/// the padded storage still holds a placeholder.
spec fn fill_state(
    g: Vec<Vec<Vec<Sample>>>,
    samples: Seq<Sample>,
    rows: int,
    columns: int,
    pages: int,
    x: int,
    y: int,
    z: int,
) -> bool {
    &&& grid_dims(g, rows, columns, pages)
    &&& forall|a: int, b: int, c: int|
        placed_before(a, b, c, x, y, z, rows, columns) && c < pages ==> #[trigger] grid_cell_ok(
            g,
            a,
            b,
            c,
        )
    &&& forall|a: int, b: int, c: int|
        placed_before(a, b, c, x, y, z, rows, columns) && c < pages ==> in_pool(
            samples,
            #[trigger] grid_at(g, a, b, c),
        )
    &&& forall|a: int, b: int, c: int|
        0 <= a < rows + 2 && 0 <= b < columns + 1 && 0 <= c < pages && !placed_before(
            a,
            b,
            c,
            x,
            y,
            z,
            rows,
            columns,
        ) ==> (#[trigger] grid_at(g, a, b, c)).dummy
}

/// A fully placeholder-filled padded grid of the given dimensions.
fn empty_grid(rows: usize, columns: usize, pages: usize) -> (g: Vec<Vec<Vec<Sample>>>)
    requires
        rows + 2 <= usize::MAX,
        columns + 1 <= usize::MAX,
    ensures
        grid_dims(g, rows as int, columns as int, pages as int),
        forall|a: int, b: int, c: int|
            0 <= a < rows + 2 && 0 <= b < columns + 1 && 0 <= c < pages ==> (#[trigger] grid_at(
                g,
                a,
                b,
                c,
            )).dummy,
{
    let mut g: Vec<Vec<Vec<Sample>>> = Vec::new();
    let mut xi: usize = 0;
    while xi < rows + 2
        invariant
            rows + 2 <= usize::MAX,
            columns + 1 <= usize::MAX,
            xi <= rows + 2,
            g@.len() == xi,
            forall|a: int| 0 <= a < xi ==> (#[trigger] g@[a])@.len() == columns + 1,
            forall|a: int, b: int|
                0 <= a < xi && 0 <= b < columns + 1 ==> (#[trigger] g@[a]@[b])@.len() == pages,
            forall|a: int, b: int, c: int|
                0 <= a < xi && 0 <= b < columns + 1 && 0 <= c < pages ==> (#[trigger] grid_at(
                    g,
                    a,
                    b,
                    c,
                )).dummy,
        decreases rows + 2 - xi,
    {
        let ghost g0 = g;
        let mut row: Vec<Vec<Sample>> = Vec::new();
        let mut yi: usize = 0;
        while yi < columns + 1
            invariant
                columns + 1 <= usize::MAX,
                yi <= columns + 1,
                row@.len() == yi,
                forall|b: int| 0 <= b < yi ==> (#[trigger] row@[b])@.len() == pages,
                forall|b: int, c: int|
                    0 <= b < yi && 0 <= c < pages ==> (#[trigger] row@[b]@[c]).dummy,
            decreases columns + 1 - yi,
        {
            let mut cell: Vec<Sample> = Vec::new();
            let mut zi: usize = 0;
            while zi < pages
                invariant
                    zi <= pages,
                    cell@.len() == zi,
                    forall|c: int| 0 <= c < zi ==> (#[trigger] cell@[c]).dummy,
                decreases pages - zi,
            {
                cell.push(Sample { id: 0, dummy: true });
                zi = zi + 1;
            }
            row.push(cell);
            yi = yi + 1;
        }
        let ghost rowv = row;
        g.push(row);
        proof {
            assert forall|a: int, b: int, c: int|
                0 <= a < xi + 1 && 0 <= b < columns + 1 && 0 <= c < pages implies (
            #[trigger] grid_at(g, a, b, c)).dummy by {
                if a < xi {
                    assert(grid_at(g0, a, b, c).dummy);
                    assert(g@[a] == g0@[a]);
                } else {
                    assert(g@[a] == rowv);
                }
            }
        }
        xi = xi + 1;
    }
    g
}

/// Read one cell of the padded grid.
pub(crate) fn grid_get(g: &Vec<Vec<Vec<Sample>>>, x: usize, y: usize, z: usize) -> (s: Sample)
    requires
        x < g@.len(),
        y < g@[x as int]@.len(),
        z < g@[x as int]@[y as int]@.len(),
    ensures
        s == grid_at(*g, x as int, y as int, z as int),
{
    g[x][y][z]
}

/// Overwrite one cell of the padded grid, leaving every other cell as
/// it was.
fn grid_set(g: &mut Vec<Vec<Vec<Sample>>>, x: usize, y: usize, z: usize, s: Sample)
    requires
        x < old(g)@.len(),
        y < old(g)@[x as int]@.len(),
        z < old(g)@[x as int]@[y as int]@.len(),
    ensures
        final(g)@.len() == old(g)@.len(),
        forall|a: int| 0 <= a < old(g)@.len() && a != x ==> final(g)@[a] == old(g)@[a],
        final(g)@[x as int]@.len() == old(g)@[x as int]@.len(),
        forall|b: int|
            0 <= b < old(g)@[x as int]@.len() && b != y ==> final(g)@[x as int]@[b] == old(
                g,
            )@[x as int]@[b],
        final(g)@[x as int]@[y as int]@ == old(g)@[x as int]@[y as int]@.update(z as int, s),
{
    let row = &mut g[x];
    let cell = &mut row[y];
    cell.set(z, s);
}

/// `u` is excluded by none of the four neighbour values nor by the
/// current content of the cell itself.
spec fn cand_admissible(
    u: Sample,
    n_left: Sample,
    n_top: Sample,
    n_tl: Sample,
    n_tr: Sample,
    cur: Sample,
) -> bool {
    &&& !sample_eq(u, n_left)
    &&& !sample_eq(u, n_top)
    &&& !sample_eq(u, n_tl)
    &&& !sample_eq(u, n_tr)
    &&& !sample_eq(u, cur)
}

/// Writing an admissible sample into the next cell of the fill order
/// preserves the working state and advances it by one position.
proof fn lemma_fill_step(
    g0: Vec<Vec<Vec<Sample>>>,
    g1: Vec<Vec<Vec<Sample>>>,
    samples: Seq<Sample>,
    rows: int,
    columns: int,
    pages: int,
    x: int,
    y: int,
    z: int,
    chosen: Sample,
)
    requires
        fill_state(g0, samples, rows, columns, pages, x, y, z),
        1 <= x <= rows,
        1 <= y <= columns,
        0 <= z < pages,
        g1@.len() == g0@.len(),
        forall|a: int| 0 <= a < g0@.len() && a != x ==> g1@[a] == g0@[a],
        g1@[x]@.len() == g0@[x]@.len(),
        forall|b: int| 0 <= b < g0@[x]@.len() && b != y ==> g1@[x]@[b] == g0@[x]@[b],
        g1@[x]@[y]@ == g0@[x]@[y]@.update(z, chosen),
        cand_admissible(
            chosen,
            grid_at(g0, x - 1, y, z),
            grid_at(g0, x, y - 1, z),
            grid_at(g0, x - 1, y - 1, z),
            grid_at(g0, x + 1, y - 1, z),
            grid_at(g0, x, y, z),
        ),
        in_pool(samples, chosen),
    ensures
        fill_state(g1, samples, rows, columns, pages, x + 1, y, z),
{
    assert forall|a: int, b: int, c: int|
        0 <= a < rows + 2 && 0 <= b < columns + 1 && 0 <= c < pages && !(a == x && b == y && c
            == z) implies grid_at(g1, a, b, c) == grid_at(g0, a, b, c) by {
        if a != x {
            assert(g1@[a] == g0@[a]);
        } else if b != y {
            assert(g1@[x]@[b] == g0@[x]@[b]);
        } else {
            assert(g1@[x]@[y]@[c] == g0@[x]@[y]@.update(z, chosen)[c]);
        }
    }
    assert(grid_at(g1, x, y, z) == chosen);
    assert forall|a: int| 0 <= a < rows + 2 implies (#[trigger] g1@[a])@.len() == columns + 1 by {
        if a != x {
            assert(g1@[a] == g0@[a]);
        }
    }
    assert forall|a: int, b: int|
        0 <= a < rows + 2 && 0 <= b < columns + 1 implies (#[trigger] g1@[a]@[b])@.len()
        == pages by {
        if a != x {
            assert(g1@[a] == g0@[a]);
        } else if b != y {
            assert(g1@[x]@[b] == g0@[x]@[b]);
        }
    }
    assert forall|a: int, b: int, c: int|
        placed_before(a, b, c, x + 1, y, z, rows, columns) && c < pages implies #[trigger] grid_cell_ok(
        g1,
        a,
        b,
        c,
    ) by {
        if a == x && b == y && c == z {
            assert(grid_at(g1, x - 1, y, z) == grid_at(g0, x - 1, y, z));
            assert(grid_at(g1, x, y - 1, z) == grid_at(g0, x, y - 1, z));
            assert(grid_at(g1, x - 1, y - 1, z) == grid_at(g0, x - 1, y - 1, z));
            assert(grid_at(g1, x + 1, y - 1, z) == grid_at(g0, x + 1, y - 1, z));
        } else {
            assert(placed_before(a, b, c, x, y, z, rows, columns));
            assert(grid_cell_ok(g0, a, b, c));
            assert(grid_at(g1, a, b, c) == grid_at(g0, a, b, c));
            assert(grid_at(g1, a - 1, b, c) == grid_at(g0, a - 1, b, c));
            assert(grid_at(g1, a, b - 1, c) == grid_at(g0, a, b - 1, c));
            assert(grid_at(g1, a - 1, b - 1, c) == grid_at(g0, a - 1, b - 1, c));
            assert(grid_at(g1, a + 1, b - 1, c) == grid_at(g0, a + 1, b - 1, c));
        }
    }
    assert forall|a: int, b: int, c: int|
        placed_before(a, b, c, x + 1, y, z, rows, columns) && c < pages implies in_pool(
        samples,
        #[trigger] grid_at(g1, a, b, c),
    ) by {
        if !(a == x && b == y && c == z) {
            assert(placed_before(a, b, c, x, y, z, rows, columns));
            assert(in_pool(samples, grid_at(g0, a, b, c)));
            assert(grid_at(g1, a, b, c) == grid_at(g0, a, b, c));
        }
    }
    assert forall|a: int, b: int, c: int|
        0 <= a < rows + 2 && 0 <= b < columns + 1 && 0 <= c < pages && !placed_before(
            a,
            b,
            c,
            x + 1,
            y,
            z,
            rows,
            columns,
        ) implies (#[trigger] grid_at(g1, a, b, c)).dummy by {
        assert(!placed_before(a, b, c, x, y, z, rows, columns));
        assert(grid_at(g0, a, b, c).dummy);
        assert(grid_at(g1, a, b, c) == grid_at(g0, a, b, c));
    }
}

/// Fill a `rows x columns x pages` grid with samples of the pool so
/// that no interior cell matches its left, top, top-left or top-right
/// neighbour on the same page, choosing uniformly at random among the
/// admissible samples of each cell.
///
/// A degenerate request is rejected with `InvalidParameter`; a pool
/// below the documented floor with `NotEnoughSamples`. On a clean pool
/// — no placeholders, pairwise distinct ids — the fill always succeeds;
/// otherwise a cell whose constraints exclude the whole pool surfaces
/// as `ArrangementExhausted`.
pub fn make_table(
    samples: Vec<Sample>,
    pages: usize,
    rows: usize,
    columns: usize,
) -> (r: Result<Table, MakeTableError>)
    requires
        rows + 2 <= usize::MAX,
        columns + 1 <= usize::MAX,
    ensures
        r matches Err(MakeTableError::InvalidParameter) <==> degenerate_request(
            samples@,
            pages as int,
            rows as int,
            columns as int,
        ),
        r matches Err(MakeTableError::NotEnoughSamples) <==> (!degenerate_request(
            samples@,
            pages as int,
            rows as int,
            columns as int,
        ) && pool_too_small(samples@, pages as int)),
        r matches Err(MakeTableError::ArrangementExhausted) ==> !degenerate_request(
            samples@,
            pages as int,
            rows as int,
            columns as int,
        ) && !pool_too_small(samples@, pages as int) && !pool_clean(samples@),
        !(r matches Err(MakeTableError::Other)),
        r matches Ok(t) ==> {
            &&& !degenerate_request(samples@, pages as int, rows as int, columns as int)
            &&& !pool_too_small(samples@, pages as int)
            &&& t.rows == rows
            &&& t.columns == columns
            &&& t.pages == pages
            &&& t.wf()
            &&& t.arranged()
            &&& t.filled_from(samples@)
            &&& t.border_dummy()
        },
        !degenerate_request(samples@, pages as int, rows as int, columns as int)
            && !pool_too_small(samples@, pages as int) && pool_clean(samples@) ==> r matches Ok(_),
{
    if rows == 0 || columns == 0 || pages == 0 || samples.len() == 0 {
        return Err(MakeTableError::InvalidParameter);
    }
    proof {
        vstd::arithmetic::div_mod::lemma_fundamental_div_mod(samples@.len() as int, 4);
        vstd::arithmetic::div_mod::lemma_mod_bound(samples@.len() as int, 4);
    }
    if samples.len() < 9 || samples.len() / 4 < pages {
        return Err(MakeTableError::NotEnoughSamples);
    }
    let mut g = empty_grid(rows, columns, pages);
    let mut z: usize = 0;
    while z < pages
        invariant
            samples@.len() >= 9,
            samples@.len() >= (pages as int) * 4,
            rows >= 1,
            columns >= 1,
            pages >= 1,
            rows + 2 <= usize::MAX,
            columns + 1 <= usize::MAX,
            z <= pages,
            fill_state(
                g,
                samples@,
                rows as int,
                columns as int,
                pages as int,
                1,
                1,
                z as int,
            ),
        decreases pages - z,
    {
        let mut y: usize = 1;
        while y <= columns
            invariant
                samples@.len() >= 9,
                samples@.len() >= (pages as int) * 4,
                rows >= 1,
                columns >= 1,
                pages >= 1,
                rows + 2 <= usize::MAX,
                columns + 1 <= usize::MAX,
                z < pages,
                1 <= y <= columns + 1,
                fill_state(
                    g,
                    samples@,
                    rows as int,
                    columns as int,
                    pages as int,
                    1,
                    y as int,
                    z as int,
                ),
            decreases columns + 1 - y,
        {
            let mut x: usize = 1;
            while x <= rows
                invariant
                    samples@.len() >= 9,
                    samples@.len() >= (pages as int) * 4,
                    rows >= 1,
                    columns >= 1,
                    pages >= 1,
                    rows + 2 <= usize::MAX,
                    columns + 1 <= usize::MAX,
                    z < pages,
                    1 <= y <= columns,
                    1 <= x <= rows + 1,
                    fill_state(
                        g,
                        samples@,
                        rows as int,
                        columns as int,
                        pages as int,
                        x as int,
                        y as int,
                        z as int,
                    ),
                decreases rows + 1 - x,
            {
                let n_left = grid_get(&g, x - 1, y, z);
                let n_top = grid_get(&g, x, y - 1, z);
                let n_tl = grid_get(&g, x - 1, y - 1, z);
                let n_tr = grid_get(&g, x + 1, y - 1, z);
                let cur = grid_get(&g, x, y, z);
                let mut cands: Vec<Sample> = Vec::new();
                let mut i: usize = 0;
                while i < samples.len()
                    invariant
                        i <= samples@.len(),
                        forall|j: int|
                            0 <= j < cands@.len() ==> cand_admissible(
                                #[trigger] cands@[j],
                                n_left,
                                n_top,
                                n_tl,
                                n_tr,
                                cur,
                            ),
                        forall|j: int|
                            0 <= j < cands@.len() ==> in_pool(samples@, #[trigger] cands@[j]),
                        cands@.len() + count_matches(samples@.take(i as int), n_left)
                            + count_matches(samples@.take(i as int), n_top) + count_matches(
                            samples@.take(i as int),
                            n_tl,
                        ) + count_matches(samples@.take(i as int), n_tr) + count_matches(
                            samples@.take(i as int),
                            cur,
                        ) >= i,
                    decreases samples@.len() - i,
                {
                    let u = samples[i];
                    proof {
                        assert(samples@.take(i + 1) =~= samples@.take(i as int).push(
                            samples@[i as int],
                        ));
                        lemma_count_matches_push(samples@.take(i as int), samples@[i as int], n_left);
                        lemma_count_matches_push(samples@.take(i as int), samples@[i as int], n_top);
                        lemma_count_matches_push(samples@.take(i as int), samples@[i as int], n_tl);
                        lemma_count_matches_push(samples@.take(i as int), samples@[i as int], n_tr);
                        lemma_count_matches_push(samples@.take(i as int), samples@[i as int], cur);
                        assert(in_pool(samples@, samples@[i as int]));
                    }
                    if !(u == n_left) && !(u == n_top) && !(u == n_tl) && !(u == n_tr) && !(u
                        == cur) {
                        cands.push(u);
                    }
                    i = i + 1;
                }
                proof {
                    assert(samples@.take(samples@.len() as int) =~= samples@);
                }
                if cands.len() == 0 {
                    proof {
                        if pool_clean(samples@) {
                            lemma_count_matches_at_most_one(samples@, n_left);
                            lemma_count_matches_at_most_one(samples@, n_top);
                            lemma_count_matches_at_most_one(samples@, n_tl);
                            lemma_count_matches_at_most_one(samples@, n_tr);
                            assert(!placed_before(
                                x as int,
                                y as int,
                                z as int,
                                x as int,
                                y as int,
                                z as int,
                                rows as int,
                                columns as int,
                            ));
                            assert(grid_at(g, x as int, y as int, z as int).dummy);
                            lemma_count_matches_none(samples@, cur);
                            assert(false);
                        }
                    }
                    return Err(MakeTableError::ArrangementExhausted);
                }
                let k = crate::rng::rand_below(cands.len());
                let chosen = cands[k];
                let ghost g_before = g;
                grid_set(&mut g, x, y, z, chosen);
                proof {
                    lemma_fill_step(
                        g_before,
                        g,
                        samples@,
                        rows as int,
                        columns as int,
                        pages as int,
                        x as int,
                        y as int,
                        z as int,
                        chosen,
                    );
                }
                x = x + 1;
            }
            y = y + 1;
        }
        z = z + 1;
    }
    let t = Table { rows, columns, pages, table: g };
    proof {
        assert forall|a: int, b: int, c: int|
            t.interior(a, b) && 0 <= c < t.pages implies #[trigger] grid_cell_ok(
            t.table,
            a,
            b,
            c,
        ) by {
            assert(placed_before(
                a,
                b,
                c,
                1,
                1,
                pages as int,
                rows as int,
                columns as int,
            ));
        }
        assert forall|a: int, b: int, c: int|
            t.interior(a, b) && 0 <= c < t.pages implies in_pool(
            samples@,
            #[trigger] t.cell(a, b, c),
        ) by {
            assert(placed_before(
                a,
                b,
                c,
                1,
                1,
                pages as int,
                rows as int,
                columns as int,
            ));
        }
        assert forall|a: int, b: int, c: int|
            0 <= a < t.rows + 2 && 0 <= b < t.columns + 1 && 0 <= c < t.pages && !t.interior(
                a,
                b,
            ) implies (#[trigger] t.cell(a, b, c)).dummy by {
            assert(!placed_before(
                a,
                b,
                c,
                1,
                1,
                pages as int,
                rows as int,
                columns as int,
            ));
        }
    }
    Ok(t)
}

/// Strip the padding off a grid and reindex it by page: the result
/// holds the interior cells as `[page][x - 1][y - 1]`.
pub fn generate_vector(table: Table) -> (v: Vec<Vec<Vec<Sample>>>)
    requires
        table.wf(),
    ensures
        v@.len() == table.pages,
        forall|p: int| 0 <= p < table.pages ==> (#[trigger] v@[p])@.len() == table.rows,
        forall|p: int, a: int|
            0 <= p < table.pages && 0 <= a < table.rows ==> (#[trigger] v@[p]@[a])@.len()
                == table.columns,
        forall|p: int, a: int, b: int|
            0 <= p < table.pages && 0 <= a < table.rows && 0 <= b < table.columns
                ==> #[trigger] grid_at(v, p, a, b) == table.cell(a + 1, b + 1, p),
{
    let mut v: Vec<Vec<Vec<Sample>>> = Vec::new();
    let mut p: usize = 0;
    while p < table.pages
        invariant
            table.wf(),
            p <= table.pages,
            v@.len() == p,
            forall|pp: int| 0 <= pp < p ==> (#[trigger] v@[pp])@.len() == table.rows,
            forall|pp: int, a: int|
                0 <= pp < p && 0 <= a < table.rows ==> (#[trigger] v@[pp]@[a])@.len()
                    == table.columns,
            forall|pp: int, a: int, b: int|
                0 <= pp < p && 0 <= a < table.rows && 0 <= b < table.columns ==> #[trigger] grid_at(
                    v,
                    pp,
                    a,
                    b,
                ) == table.cell(a + 1, b + 1, pp),
        decreases table.pages - p,
    {
        let ghost v0 = v;
        let mut page: Vec<Vec<Sample>> = Vec::new();
        let mut a: usize = 0;
        while a < table.rows
            invariant
                table.wf(),
                p < table.pages,
                a <= table.rows,
                page@.len() == a,
                forall|aa: int| 0 <= aa < a ==> (#[trigger] page@[aa])@.len() == table.columns,
                forall|aa: int, b: int|
                    0 <= aa < a && 0 <= b < table.columns ==> #[trigger] page@[aa]@[b]
                        == table.cell(aa + 1, b + 1, p as int),
            decreases table.rows - a,
        {
            let mut line: Vec<Sample> = Vec::new();
            let mut b: usize = 0;
            while b < table.columns
                invariant
                    table.wf(),
                    p < table.pages,
                    a < table.rows,
                    b <= table.columns,
                    line@.len() == b,
                    forall|bb: int|
                        0 <= bb < b ==> #[trigger] line@[bb] == table.cell(
                            a + 1,
                            bb + 1,
                            p as int,
                        ),
                decreases table.columns - b,
            {
                let s = grid_get(&table.table, a + 1, b + 1, p);
                line.push(s);
                b = b + 1;
            }
            page.push(line);
            a = a + 1;
        }
        let ghost pagev = page;
        v.push(page);
        proof {
            assert forall|pp: int, a2: int, b2: int|
                0 <= pp < p + 1 && 0 <= a2 < table.rows && 0 <= b2
                    < table.columns implies #[trigger] grid_at(v, pp, a2, b2) == table.cell(
                a2 + 1,
                b2 + 1,
                pp,
            ) by {
                if pp < p {
                    assert(grid_at(v0, pp, a2, b2) == table.cell(a2 + 1, b2 + 1, pp));
                    assert(v@[pp] == v0@[pp]);
                } else {
                    assert(v@[pp] == pagev);
                }
            }
        }
        p = p + 1;
    }
    v
}

/// In a grid filled from a clean pool every interior cell holds a real
/// sample: the pool has no placeholders to hand out.
pub proof fn lemma_filled_from_clean(t: Table, samples: Seq<Sample>)
    requires
        t.filled_from(samples),
        pool_clean(samples),
    ensures
        forall|x: int, y: int, z: int|
            t.interior(x, y) && 0 <= z < t.pages ==> !(#[trigger] t.cell(x, y, z)).dummy,
{
    assert forall|x: int, y: int, z: int|
        t.interior(x, y) && 0 <= z < t.pages implies !(#[trigger] t.cell(x, y, z)).dummy by {
        assert(in_pool(samples, t.cell(x, y, z)));
        let i = choose|i: int| 0 <= i < samples.len() && samples[i] == t.cell(x, y, z);
        assert(!samples[i].dummy);
    }
}

} // verus!
