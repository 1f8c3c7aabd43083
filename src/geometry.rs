//! The occupancy grid: one cell per unit of container volume, stored flat in
//! x-major order, each cell holding `-1` (empty) or the index of an object.

use vstd::prelude::*;
use vstd::arithmetic::div_mod::{lemma_fundamental_div_mod, lemma_fundamental_div_mod_converse};

use crate::Limit;

verus! {

/// The sentinel of an empty cell.
pub const EMPTY: isize = -1;

/// Number of unit cells of the container.
pub open spec fn capacity(lim: Limit) -> int {
    lim.x * lim.y * lim.z
}

/// Every extent of the container is positive.
pub open spec fn limit_wf(lim: Limit) -> bool {
    lim.x >= 1 && lim.y >= 1 && lim.z >= 1
}

/// Flat position of the cell `(a, b, c)`.
pub open spec fn cell_index(lim: Limit, a: int, b: int, c: int) -> int {
    (a * lim.y + b) * lim.z + c
}

/// x coordinate of the cell at flat position `i`.
pub open spec fn cell_x(lim: Limit, i: int) -> int {
    i / (lim.z as int) / (lim.y as int)
}

/// y coordinate of the cell at flat position `i`.
pub open spec fn cell_y(lim: Limit, i: int) -> int {
    i / (lim.z as int) % (lim.y as int)
}

/// z coordinate of the cell at flat position `i`.
pub open spec fn cell_z(lim: Limit, i: int) -> int {
    i % (lim.z as int)
}

/// The cell at flat position `i` lies in the box with origin `o` and extents `e`.
pub open spec fn in_box(lim: Limit, i: int, o: (int, int, int), e: (int, int, int)) -> bool {
    &&& o.0 <= cell_x(lim, i) < o.0 + e.0
    &&& o.1 <= cell_y(lim, i) < o.1 + e.1
    &&& o.2 <= cell_z(lim, i) < o.2 + e.2
}

/// The box with origin `o` and extents `e` lies inside the container.
pub open spec fn box_fits(lim: Limit, o: (int, int, int), e: (int, int, int)) -> bool {
    &&& 0 <= o.0 && 0 <= o.1 && 0 <= o.2
    &&& o.0 + e.0 <= lim.x && o.1 + e.1 <= lim.y && o.2 + e.2 <= lim.z
}

/// Every cell of the box is empty in `g`.
pub open spec fn box_empty(lim: Limit, g: Seq<isize>, o: (int, int, int), e: (int, int, int)) -> bool {
    forall|i: int| 0 <= i < g.len() && in_box(lim, i, o, e) ==> g[i] == EMPTY
}

/// `g` with every cell of the box set to `v`.
pub open spec fn fill(lim: Limit, g: Seq<isize>, o: (int, int, int), e: (int, int, int), v: isize) -> Seq<isize> {
    Seq::new(g.len(), |i: int| if in_box(lim, i, o, e) { v } else { g[i] })
}

/// A cell given by coordinates inside the container has a flat position
/// inside the grid, and that position decodes back to the coordinates.
pub proof fn lemma_cell_decode(lim: Limit, a: int, b: int, c: int)
    requires
        0 <= a < lim.x,
        0 <= b < lim.y,
        0 <= c < lim.z,
    ensures
        0 <= a * lim.y + b < lim.x * lim.y,
        a * lim.y + b <= cell_index(lim, a, b, c),
        0 <= cell_index(lim, a, b, c) < capacity(lim),
        cell_x(lim, cell_index(lim, a, b, c)) == a,
        cell_y(lim, cell_index(lim, a, b, c)) == b,
        cell_z(lim, cell_index(lim, a, b, c)) == c,
{
    let (lx, ly, lz) = (lim.x as int, lim.y as int, lim.z as int);
    let q = a * ly + b;
    let i = q * lz + c;
    assert(0 <= q < lx * ly) by (nonlinear_arith)
        requires 0 <= a < lx, 0 <= b < ly, q == a * ly + b;
    assert(0 <= i < lx * ly * lz && q <= i) by (nonlinear_arith)
        requires 0 <= q < lx * ly, 0 <= c < lz, i == q * lz + c;
    lemma_fundamental_div_mod_converse(i, lz, q, c);
    lemma_fundamental_div_mod_converse(q, ly, a, b);
}

/// Every flat position inside the grid decodes to coordinates inside the
/// container, which encode back to the same position.
pub proof fn lemma_cell_encode(lim: Limit, i: int)
    requires
        limit_wf(lim),
        0 <= i < capacity(lim),
    ensures
        0 <= cell_x(lim, i) < lim.x,
        0 <= cell_y(lim, i) < lim.y,
        0 <= cell_z(lim, i) < lim.z,
        cell_index(lim, cell_x(lim, i), cell_y(lim, i), cell_z(lim, i)) == i,
{
    let (lx, ly, lz) = (lim.x as int, lim.y as int, lim.z as int);
    let q = i / lz;
    let c = i % lz;
    let a = q / ly;
    let b = q % ly;
    lemma_fundamental_div_mod(i, lz);
    lemma_fundamental_div_mod(q, ly);
    assert(0 <= c < lz && 0 <= b < ly) by {
        vstd::arithmetic::div_mod::lemma_mod_bound(i, lz);
        vstd::arithmetic::div_mod::lemma_mod_bound(q, ly);
    }
    assert(0 <= q < lx * ly) by (nonlinear_arith)
        requires 0 <= i < lx * ly * lz, i == lz * q + c, 0 <= c < lz, lz >= 1;
    assert(0 <= a < lx) by (nonlinear_arith)
        requires 0 <= q < lx * ly, q == ly * a + b, 0 <= b < ly, ly >= 1;
    assert((a * ly + b) * lz + c == i) by (nonlinear_arith)
        requires i == lz * q + c, q == ly * a + b;
}

/// The cell at `i` comes before the cell `(a, b, c)` in the order in which
/// the grid is walked: x, then y, then z.
pub open spec fn walked_before(lim: Limit, i: int, a: int, b: int, c: int) -> bool {
    ||| cell_x(lim, i) < a
    ||| cell_x(lim, i) == a && cell_y(lim, i) < b
    ||| cell_x(lim, i) == a && cell_y(lim, i) == b && cell_z(lim, i) < c
}

/// Sets every cell of the box with origin `(ox, oy, oz)` and extents
/// `(ex, ey, ez)` to `v`, leaving every other cell as it was.
pub fn fill_box(
    grid: &mut Vec<isize>,
    lim: &Limit,
    ox: usize,
    oy: usize,
    oz: usize,
    ex: usize,
    ey: usize,
    ez: usize,
    v: isize,
)
    requires
        limit_wf(*lim),
        capacity(*lim) <= usize::MAX,
        old(grid).len() == capacity(*lim),
        box_fits(*lim, (ox as int, oy as int, oz as int), (ex as int, ey as int, ez as int)),
    ensures
        final(grid)@ == fill(*lim, old(grid)@, (ox as int, oy as int, oz as int), (ex as int, ey as int, ez as int), v),
{
    let ghost g0 = grid@;
    let ghost o = (ox as int, oy as int, oz as int);
    let ghost e = (ex as int, ey as int, ez as int);
    let mut cx: usize = ox;
    while cx < ox + ex
        invariant
            limit_wf(*lim),
            capacity(*lim) <= usize::MAX,
            box_fits(*lim, o, e),
            o == (ox as int, oy as int, oz as int),
            e == (ex as int, ey as int, ez as int),
            ox <= cx <= ox + ex,
            grid.len() == g0.len(),
            g0.len() == capacity(*lim),
            forall|i: int| 0 <= i < g0.len() ==> #[trigger] grid@[i] == if in_box(*lim, i, o, e) && walked_before(*lim, i, cx as int, oy as int, oz as int) { v } else { g0[i] },
        decreases ox + ex - cx,
    {
        let mut cy: usize = oy;
        while cy < oy + ey
            invariant
                limit_wf(*lim),
                capacity(*lim) <= usize::MAX,
                box_fits(*lim, o, e),
                o == (ox as int, oy as int, oz as int),
                e == (ex as int, ey as int, ez as int),
                ox <= cx < ox + ex,
                oy <= cy <= oy + ey,
                grid.len() == g0.len(),
                g0.len() == capacity(*lim),
                forall|i: int| 0 <= i < g0.len() ==> #[trigger] grid@[i] == if in_box(*lim, i, o, e) && walked_before(*lim, i, cx as int, cy as int, oz as int) { v } else { g0[i] },
            decreases oy + ey - cy,
        {
            let mut cz: usize = oz;
            while cz < oz + ez
                invariant
                    limit_wf(*lim),
                    capacity(*lim) <= usize::MAX,
                    box_fits(*lim, o, e),
                    o == (ox as int, oy as int, oz as int),
                    e == (ex as int, ey as int, ez as int),
                    ox <= cx < ox + ex,
                    oy <= cy < oy + ey,
                    oz <= cz <= oz + ez,
                    grid.len() == g0.len(),
                    g0.len() == capacity(*lim),
                    forall|i: int| 0 <= i < g0.len() ==> #[trigger] grid@[i] == if in_box(*lim, i, o, e) && walked_before(*lim, i, cx as int, cy as int, cz as int) { v } else { g0[i] },
                decreases oz + ez - cz,
            {
                proof {
                    lemma_cell_decode(*lim, cx as int, cy as int, cz as int);
                }
                let k = (cx * lim.y + cy) * lim.z + cz;
                let ghost before = grid@;
                grid.set(k, v);
                proof {
                    assert forall|i: int| 0 <= i < g0.len() implies #[trigger] grid@[i] == if in_box(*lim, i, o, e) && walked_before(*lim, i, cx as int, cy as int, cz + 1) { v } else { g0[i] } by {
                        lemma_cell_encode(*lim, i);
                        if i != k {
                            assert(before[i] == grid@[i]);
                        }
                    }
                }
                cz = cz + 1;
            }
            cy = cy + 1;
        }
        cx = cx + 1;
    }
    proof {
        assert forall|i: int| 0 <= i < g0.len() implies #[trigger] grid@[i] == fill(*lim, g0, o, e, v)[i] by {
            lemma_cell_encode(*lim, i);
        }
    }
    assert(grid@ =~= fill(*lim, g0, o, e, v));
}

/// Whether the box with origin `(ox, oy, oz)` and extents `(ex, ey, ez)`
/// lies inside the container with every one of its cells empty.
pub fn box_vacant(
    grid: &Vec<isize>,
    lim: &Limit,
    ox: usize,
    oy: usize,
    oz: usize,
    ex: usize,
    ey: usize,
    ez: usize,
) -> (r: bool)
    requires
        limit_wf(*lim),
        capacity(*lim) <= usize::MAX,
        grid.len() == capacity(*lim),
    ensures
        r == (box_fits(*lim, (ox as int, oy as int, oz as int), (ex as int, ey as int, ez as int))
            && box_empty(*lim, grid@, (ox as int, oy as int, oz as int), (ex as int, ey as int, ez as int))),
{
    if ex > lim.x || ey > lim.y || ez > lim.z || ox > lim.x - ex || oy > lim.y - ey || oz > lim.z - ez {
        return false;
    }
    let ghost g = grid@;
    let ghost o = (ox as int, oy as int, oz as int);
    let ghost e = (ex as int, ey as int, ez as int);
    let mut cx: usize = ox;
    while cx < ox + ex
        invariant
            limit_wf(*lim),
            capacity(*lim) <= usize::MAX,
            box_fits(*lim, o, e),
            o == (ox as int, oy as int, oz as int),
            e == (ex as int, ey as int, ez as int),
            ox <= cx <= ox + ex,
            g == grid@,
            g.len() == capacity(*lim),
            forall|i: int| 0 <= i < g.len() && in_box(*lim, i, o, e) && walked_before(*lim, i, cx as int, oy as int, oz as int) ==> #[trigger] g[i] == EMPTY,
        decreases ox + ex - cx,
    {
        let mut cy: usize = oy;
        while cy < oy + ey
            invariant
                limit_wf(*lim),
                capacity(*lim) <= usize::MAX,
                box_fits(*lim, o, e),
                o == (ox as int, oy as int, oz as int),
                e == (ex as int, ey as int, ez as int),
                ox <= cx < ox + ex,
                oy <= cy <= oy + ey,
                g == grid@,
                g.len() == capacity(*lim),
                forall|i: int| 0 <= i < g.len() && in_box(*lim, i, o, e) && walked_before(*lim, i, cx as int, cy as int, oz as int) ==> #[trigger] g[i] == EMPTY,
            decreases oy + ey - cy,
        {
            let mut cz: usize = oz;
            while cz < oz + ez
                invariant
                    limit_wf(*lim),
                    capacity(*lim) <= usize::MAX,
                    box_fits(*lim, o, e),
                    o == (ox as int, oy as int, oz as int),
                    e == (ex as int, ey as int, ez as int),
                    ox <= cx < ox + ex,
                    oy <= cy < oy + ey,
                    oz <= cz <= oz + ez,
                    g == grid@,
                    g.len() == capacity(*lim),
                    forall|i: int| 0 <= i < g.len() && in_box(*lim, i, o, e) && walked_before(*lim, i, cx as int, cy as int, cz as int) ==> #[trigger] g[i] == EMPTY,
                decreases oz + ez - cz,
            {
                proof {
                    lemma_cell_decode(*lim, cx as int, cy as int, cz as int);
                }
                let k = (cx * lim.y + cy) * lim.z + cz;
                if grid[k] != EMPTY {
                    assert(in_box(*lim, k as int, o, e));
                    return false;
                }
                proof {
                    assert forall|i: int| 0 <= i < g.len() && in_box(*lim, i, o, e) && walked_before(*lim, i, cx as int, cy as int, cz + 1) implies #[trigger] g[i] == EMPTY by {
                        lemma_cell_encode(*lim, i);
                    }
                }
                cz = cz + 1;
            }
            cy = cy + 1;
        }
        cx = cx + 1;
    }
    true
}

/// Number of non-empty cells among the first `n` of `g`.
pub open spec fn occupied_upto(g: Seq<isize>, n: int) -> nat
    decreases n,
{
    if n <= 0 {
        0
    } else {
        occupied_upto(g, n - 1) + if g[n - 1] != EMPTY { 1nat } else { 0nat }
    }
}

/// Number of non-empty cells of `g`.
pub open spec fn occupied(g: Seq<isize>) -> nat {
    occupied_upto(g, g.len() as int)
}

/// Number of positions in `[lo, hi)` whose cell lies in the box.
pub open spec fn box_cells_between(lim: Limit, o: (int, int, int), e: (int, int, int), lo: int, hi: int) -> nat
    decreases hi - lo,
{
    if hi <= lo {
        0
    } else {
        box_cells_between(lim, o, e, lo, hi - 1) + if in_box(lim, hi - 1, o, e) { 1nat } else { 0nat }
    }
}

/// Number of values `c` in `[0, n)` with `o <= c < o + e`.
pub open spec fn overlap(n: int, o: int, e: int) -> int {
    if n <= o {
        0
    } else if n >= o + e {
        e
    } else {
        n - o
    }
}

pub proof fn lemma_occupied_bound(g: Seq<isize>, n: int)
    requires
        0 <= n <= g.len(),
    ensures
        occupied_upto(g, n) <= n,
        occupied_upto(g, n) == n ==> forall|i: int| 0 <= i < n ==> #[trigger] g[i] != EMPTY,
    decreases n,
{
    if n > 0 {
        lemma_occupied_bound(g, n - 1);
    }
}

proof fn lemma_box_cells_split(lim: Limit, o: (int, int, int), e: (int, int, int), lo: int, mid: int, hi: int)
    requires
        lo <= mid <= hi,
    ensures
        box_cells_between(lim, o, e, lo, hi) == box_cells_between(lim, o, e, lo, mid) + box_cells_between(lim, o, e, mid, hi),
    decreases hi - mid,
{
    if hi > mid {
        lemma_box_cells_split(lim, o, e, lo, mid, hi - 1);
    }
}

/// The cells of one row `(a, b, 0..c)` that lie in the box.
proof fn lemma_box_cells_row(lim: Limit, o: (int, int, int), e: (int, int, int), a: int, b: int, c: int)
    requires
        0 <= a < lim.x,
        0 <= b < lim.y,
        0 <= c <= lim.z,
        o.2 >= 0,
        e.2 >= 0,
    ensures
        box_cells_between(lim, o, e, cell_index(lim, a, b, 0), cell_index(lim, a, b, 0) + c) == if o.0 <= a < o.0 + e.0 && o.1 <= b < o.1 + e.1 {
            overlap(c, o.2, e.2)
        } else {
            0
        },
    decreases c,
{
    if c > 0 {
        lemma_box_cells_row(lim, o, e, a, b, c - 1);
        lemma_cell_decode(lim, a, b, c - 1);
        let base = cell_index(lim, a, b, 0);
        assert(base + c - 1 == cell_index(lim, a, b, c - 1));
        assert(box_cells_between(lim, o, e, base, base + c) == box_cells_between(lim, o, e, base, base + c - 1) + if in_box(lim, base + c - 1, o, e) { 1nat } else { 0nat });
    }
}

/// The cells of one plane `(a, 0..b, *)` that lie in the box.
proof fn lemma_box_cells_plane(lim: Limit, o: (int, int, int), e: (int, int, int), a: int, b: int)
    requires
        0 <= a < lim.x,
        0 <= b <= lim.y,
        e.1 >= 0,
        e.2 >= 0,
        o.1 >= 0,
        o.2 >= 0,
        o.2 + e.2 <= lim.z,
    ensures
        box_cells_between(lim, o, e, cell_index(lim, a, 0, 0), cell_index(lim, a, 0, 0) + b * lim.z) == if o.0 <= a < o.0 + e.0 {
            overlap(b, o.1, e.1) * e.2
        } else {
            0
        },
    decreases b,
{
    if b > 0 {
        let lz = lim.z as int;
        let base = cell_index(lim, a, 0, 0);
        lemma_box_cells_plane(lim, o, e, a, b - 1);
        lemma_box_cells_row(lim, o, e, a, b - 1, lz);
        let mid = base + (b - 1) * lz;
        let hi = base + b * lz;
        assert(cell_index(lim, a, b - 1, 0) == mid) by (nonlinear_arith)
            requires base == cell_index(lim, a, 0, 0), lz == lim.z, mid == base + (b - 1) * lz;
        assert(mid + lz == hi) by (nonlinear_arith)
            requires mid == base + (b - 1) * lz, hi == base + b * lz;
        lemma_box_cells_split(lim, o, e, base, mid, hi);
        let r = if o.0 <= a < o.0 + e.0 && o.1 <= b - 1 < o.1 + e.1 { e.2 } else { 0 };
        assert(box_cells_between(lim, o, e, mid, hi) == r);
        let ov = overlap(b, o.1, e.1);
        let ov1 = overlap(b - 1, o.1, e.1);
        assert(ov == ov1 + if o.1 <= b - 1 < o.1 + e.1 { 1int } else { 0int });
        assert(ov * e.2 == ov1 * e.2 + if o.1 <= b - 1 < o.1 + e.1 { e.2 } else { 0 }) by (nonlinear_arith)
            requires ov == ov1 + if o.1 <= b - 1 < o.1 + e.1 { 1int } else { 0int };
        assert(box_cells_between(lim, o, e, base, mid) == if o.0 <= a < o.0 + e.0 { ov1 * e.2 } else { 0 });
        assert(box_cells_between(lim, o, e, base, hi) == if o.0 <= a < o.0 + e.0 { ov * e.2 } else { 0 });
    } else {
        assert(0 * (lim.z as int) == 0);
        assert(box_cells_between(lim, o, e, cell_index(lim, a, 0, 0), cell_index(lim, a, 0, 0) + b * lim.z) == 0);
    }
}

/// The cells of the first `a` planes that lie in the box.
proof fn lemma_box_cells_prefix(lim: Limit, o: (int, int, int), e: (int, int, int), a: int)
    requires
        0 <= a <= lim.x,
        box_fits(lim, o, e),
        e.0 >= 0 && e.1 >= 0 && e.2 >= 0,
    ensures
        box_cells_between(lim, o, e, 0, a * lim.y * lim.z) == overlap(a, o.0, e.0) * e.1 * e.2,
    decreases a,
{
    if a > 0 {
        let (ly, lz) = (lim.y as int, lim.z as int);
        lemma_box_cells_prefix(lim, o, e, a - 1);
        lemma_box_cells_plane(lim, o, e, a - 1, ly);
        let base = cell_index(lim, a - 1, 0, 0);
        let lo = (a - 1) * ly * lz;
        let hi = a * ly * lz;
        assert(base == lo) by (nonlinear_arith)
            requires ly == lim.y, lz == lim.z, base == cell_index(lim, a - 1, 0, 0), lo == (a - 1) * ly * lz;
        assert(lo + ly * lz == hi) by (nonlinear_arith)
            requires lo == (a - 1) * ly * lz, hi == a * ly * lz;
        lemma_box_cells_split(lim, o, e, 0, lo, hi);
        assert(overlap(ly, o.1, e.1) == e.1);
        let ov = overlap(a, o.0, e.0);
        let ov1 = overlap(a - 1, o.0, e.0);
        assert(ov == ov1 + if o.0 <= a - 1 < o.0 + e.0 { 1int } else { 0int });
        assert(ov * e.1 * e.2 == ov1 * e.1 * e.2 + if o.0 <= a - 1 < o.0 + e.0 { e.1 * e.2 } else { 0 }) by (nonlinear_arith)
            requires ov == ov1 + if o.0 <= a - 1 < o.0 + e.0 { 1int } else { 0int };
        assert(box_cells_between(lim, o, e, lo, hi) == if o.0 <= a - 1 < o.0 + e.0 { e.1 * e.2 } else { 0 });
        assert(box_cells_between(lim, o, e, 0, hi) == ov * e.1 * e.2);
        assert(hi == a * lim.y * lim.z);
    } else {
        assert(0 * (lim.y as int) * (lim.z as int) == 0);
        assert(overlap(0, o.0, e.0) == 0);
        assert(0 * e.1 * e.2 == 0);
    }
}

/// A box inside the container covers as many cells as the product of its extents.
pub proof fn lemma_box_cells(lim: Limit, o: (int, int, int), e: (int, int, int))
    requires
        box_fits(lim, o, e),
        e.0 >= 0 && e.1 >= 0 && e.2 >= 0,
    ensures
        box_cells_between(lim, o, e, 0, capacity(lim)) == e.0 * e.1 * e.2,
{
    lemma_box_cells_prefix(lim, o, e, lim.x as int);
}

/// Filling an empty box with an object adds its cells to the occupied ones.
pub proof fn lemma_fill_occupied(lim: Limit, g: Seq<isize>, o: (int, int, int), e: (int, int, int), v: isize, n: int)
    requires
        box_empty(lim, g, o, e),
        v != EMPTY,
        0 <= n <= g.len(),
    ensures
        occupied_upto(fill(lim, g, o, e, v), n) == occupied_upto(g, n) + box_cells_between(lim, o, e, 0, n),
    decreases n,
{
    if n > 0 {
        lemma_fill_occupied(lim, g, o, e, v, n - 1);
    }
}

/// A grid with every cell empty has no occupied cell.
pub proof fn lemma_empty_unoccupied(g: Seq<isize>, n: int)
    requires
        0 <= n <= g.len(),
        forall|i: int| 0 <= i < g.len() ==> #[trigger] g[i] == EMPTY,
    ensures
        occupied_upto(g, n) == 0,
    decreases n,
{
    if n > 0 {
        lemma_empty_unoccupied(g, n - 1);
    }
}

} // verus!
