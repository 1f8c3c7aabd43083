//! The branch-and-bound search over the ordered candidates.

use vstd::prelude::*;

use crate::geometry::{
    box_empty, box_fits, box_vacant, capacity, fill, fill_box, lemma_box_cells, lemma_empty_unoccupied,
    lemma_fill_occupied, lemma_occupied_bound, limit_wf, occupied, EMPTY,
};
use crate::ordering::{
    candidate_order, candidate_volumes, fitting_value, is_candidate_order, lemma_value_sum_step,
    order_candidates, suffix_values, value_sum, volume,
};
use crate::soundness::{lemma_search_sound, sound, state_sound};
use crate::{Limit, Object};

verus! {

/// The best complete assignment seen so far: its value, the grid it left
/// and the input positions of the objects it selected, in selection order.
pub struct Best {
    pub value: nat,
    pub grid: Seq<isize>,
    pub selected: Seq<usize>,
}

/// Every extent of the object is positive.
pub open spec fn object_wf(o: Object) -> bool {
    o.x >= 1 && o.y >= 1 && o.z >= 1
}

/// Every cell of `g` is empty or holds the position of one of `n` objects.
pub open spec fn cells_valid(g: Seq<isize>, n: nat) -> bool {
    forall|i: int| 0 <= i < g.len() ==> #[trigger] g[i] == EMPTY || 0 <= g[i] < n
}

/// Extents of an object as a triple.
pub open spec fn extents(o: Object) -> (int, int, int) {
    (o.x as int, o.y as int, o.z as int)
}

/// Every way to go on from candidate `pos`, without pruning: each candidate
/// in turn is placed at every origin where it fits (origins in x, then y,
/// then z order, placing before skipping) or skipped, and an assignment
/// that reaches the end of the list replaces `best` only when it is worth
/// strictly more. So the result is the first assignment of highest value
/// met in that order.
pub open spec fn explore(
    lim: Limit,
    objs: Seq<Object>,
    ord: Seq<usize>,
    grid: Seq<isize>,
    sel: Seq<usize>,
    pos: int,
    acc: int,
    best: Best,
) -> Best
    decreases ord.len() - pos, 1int, 0int, 0int, 0int,
{
    if pos < 0 || pos > ord.len() {
        best
    } else if pos == ord.len() {
        if acc > best.value {
            Best { value: acc as nat, grid, selected: sel }
        } else {
            best
        }
    } else {
        let placed = explore_origins(lim, objs, ord, grid, sel, pos, acc, 0, 0, 0, best);
        explore(lim, objs, ord, grid, sel, pos + 1, acc, placed)
    }
}

/// Every placement of candidate `pos` from origin `(x, y, z)` on, each
/// followed by every way to go on, without pruning.
pub open spec fn explore_origins(
    lim: Limit,
    objs: Seq<Object>,
    ord: Seq<usize>,
    grid: Seq<isize>,
    sel: Seq<usize>,
    pos: int,
    acc: int,
    x: int,
    y: int,
    z: int,
    best: Best,
) -> Best
    decreases ord.len() - pos, 0int, lim.x - objs[ord[pos] as int].x + 1 - x, lim.y - objs[ord[pos] as int].y + 1 - y, lim.z - objs[ord[pos] as int].z + 1 - z,
{
    let k = ord[pos];
    let o = objs[k as int];
    if pos < 0 || pos >= ord.len() {
        best
    } else if x >= lim.x - o.x + 1 {
        best
    } else if y >= lim.y - o.y + 1 {
        explore_origins(lim, objs, ord, grid, sel, pos, acc, x + 1, 0, 0, best)
    } else if z >= lim.z - o.z + 1 {
        explore_origins(lim, objs, ord, grid, sel, pos, acc, x, y + 1, 0, best)
    } else {
        let after = if box_fits(lim, (x, y, z), extents(o)) && box_empty(lim, grid, (x, y, z), extents(o)) {
            explore(
                lim,
                objs,
                ord,
                fill(lim, grid, (x, y, z), extents(o), k as isize),
                sel.push(k),
                pos + 1,
                acc + o.value,
                best,
            )
        } else {
            best
        };
        explore_origins(lim, objs, ord, grid, sel, pos, acc, x, y, z + 1, after)
    }
}

/// The first assignment of highest value in the order of `explore`, from
/// the empty grid.
pub open spec fn first_best(lim: Limit, objs: Seq<Object>) -> Best {
    explore(lim, objs, candidate_order(lim, objs), empty_grid(lim), Seq::empty(), 0, 0, initial_best(lim))
}

/// The search from candidate `pos` on, with `acc` the value placed so far,
/// `grid` the cells taken so far, `used` their number and `sel` the objects
/// placed; `best` is the best assignment before this call, and the result
/// the best one after it.
pub open spec fn search(
    lim: Limit,
    objs: Seq<Object>,
    ord: Seq<usize>,
    grid: Seq<isize>,
    used: int,
    sel: Seq<usize>,
    pos: int,
    acc: int,
    best: Best,
) -> Best
    decreases ord.len() - pos, 1int, 0int, 0int, 0int,
{
    if pos < 0 || pos > ord.len() {
        best
    } else if acc + value_sum(objs, ord.skip(pos)) <= best.value {
        best
    } else if used == capacity(lim) || pos == ord.len() {
        if acc > best.value {
            Best { value: acc as nat, grid, selected: sel }
        } else {
            best
        }
    } else {
        let o = objs[ord[pos] as int];
        let placed = if volume(o) <= capacity(lim) - used {
            try_origins(lim, objs, ord, grid, used, sel, pos, acc, 0, 0, 0, best)
        } else {
            best
        };
        search(lim, objs, ord, grid, used, sel, pos + 1, acc, placed)
    }
}

/// The place branch of candidate `pos`, from origin `(x, y, z)` on in the
/// order x, then y, then z; `best` is the best assignment before that origin.
pub open spec fn try_origins(
    lim: Limit,
    objs: Seq<Object>,
    ord: Seq<usize>,
    grid: Seq<isize>,
    used: int,
    sel: Seq<usize>,
    pos: int,
    acc: int,
    x: int,
    y: int,
    z: int,
    best: Best,
) -> Best
    decreases ord.len() - pos, 0int, lim.x - objs[ord[pos] as int].x + 1 - x, lim.y - objs[ord[pos] as int].y + 1 - y, lim.z - objs[ord[pos] as int].z + 1 - z,
{
    let k = ord[pos];
    let o = objs[k as int];
    if pos < 0 || pos >= ord.len() {
        best
    } else if x >= lim.x - o.x + 1 {
        best
    } else if y >= lim.y - o.y + 1 {
        try_origins(lim, objs, ord, grid, used, sel, pos, acc, x + 1, 0, 0, best)
    } else if z >= lim.z - o.z + 1 {
        try_origins(lim, objs, ord, grid, used, sel, pos, acc, x, y + 1, 0, best)
    } else {
        let after = if box_fits(lim, (x, y, z), extents(o)) && box_empty(lim, grid, (x, y, z), extents(o)) {
            search(
                lim,
                objs,
                ord,
                fill(lim, grid, (x, y, z), extents(o), k as isize),
                used + volume(o),
                sel.push(k),
                pos + 1,
                acc + o.value,
                best,
            )
        } else {
            best
        };
        try_origins(lim, objs, ord, grid, used, sel, pos, acc, x, y, z + 1, after)
    }
}

/// What a solve accepts: positive extents everywhere, a container whose
/// cells can be counted in a `usize`, positions of objects that fit in an
/// `isize`, and a total value of the fitting objects that fits in a `usize`.
pub open spec fn input_ok(lim: Limit, objs: Seq<Object>) -> bool {
    &&& limit_wf(lim)
    &&& capacity(lim) <= usize::MAX
    &&& forall|j: int| 0 <= j < objs.len() ==> #[trigger] object_wf(objs[j])
    &&& objs.len() <= isize::MAX
    &&& fitting_value(lim, objs) <= usize::MAX
}

/// The grid with every cell empty.
pub open spec fn empty_grid(lim: Limit) -> Seq<isize> {
    Seq::new(capacity(lim) as nat, |i: int| EMPTY)
}

/// The best assignment before the search starts: nothing selected, value zero.
pub open spec fn initial_best(lim: Limit) -> Best {
    Best { value: 0, grid: empty_grid(lim), selected: Seq::empty() }
}

/// The assignment that a solve returns: the first one of highest value met
/// in the search from the empty grid.
pub open spec fn solution(lim: Limit, objs: Seq<Object>) -> Best {
    search(lim, objs, candidate_order(lim, objs), empty_grid(lim), 0, Seq::empty(), 0, 0, initial_best(lim))
}

/// Placing an object in an empty box takes exactly its volume of free cells.
pub proof fn lemma_place_count(lim: Limit, g: Seq<isize>, w: (int, int, int), o: Object, v: isize)
    requires
        g.len() == capacity(lim),
        box_fits(lim, w, extents(o)),
        box_empty(lim, g, w, extents(o)),
        v != EMPTY,
    ensures
        occupied(fill(lim, g, w, extents(o), v)) == occupied(g) + volume(o),
        occupied(g) + volume(o) <= capacity(lim),
{
    let g2 = fill(lim, g, w, extents(o), v);
    lemma_fill_occupied(lim, g, w, extents(o), v, g.len() as int);
    lemma_box_cells(lim, w, extents(o));
    lemma_occupied_bound(g2, g2.len() as int);
}

/// Setting the cells of an empty box and then clearing them again gives
/// back the grid.
proof fn lemma_fill_undo(lim: Limit, g: Seq<isize>, o: (int, int, int), e: (int, int, int), v: isize)
    requires
        box_empty(lim, g, o, e),
    ensures
        fill(lim, fill(lim, g, o, e, v), o, e, EMPTY) == g,
{
    assert(fill(lim, fill(lim, g, o, e, v), o, e, EMPTY) =~= g);
}

/// The state of one search: the candidates with their bounds, the grid being
/// filled, and the best assignment found.
pub struct Solver {
    pub limit: Limit,
    pub objects: Vec<Object>,
    pub order: Vec<usize>,
    pub suffix: Vec<usize>,
    pub volumes: Vec<usize>,
    pub capacity: usize,
    pub grid: Vec<isize>,
    pub used: usize,
    pub selected: Vec<usize>,
    pub best_grid: Vec<isize>,
    pub best_selected: Vec<usize>,
    pub best_value: usize,
}

impl Solver {
    /// The candidates and their bounds agree with the input, and the grid
    /// has one cell per unit of the container.
    pub open spec fn wf(&self) -> bool {
        &&& limit_wf(self.limit)
        &&& self.capacity == capacity(self.limit)
        &&& self.objects.len() <= isize::MAX
        &&& forall|j: int| 0 <= j < self.objects.len() ==> #[trigger] object_wf(self.objects@[j])
        &&& is_candidate_order(self.limit, self.objects@, self.order@)
        &&& self.suffix.len() == self.order.len() + 1
        &&& forall|p: int| 0 <= p <= self.order.len() ==> #[trigger] self.suffix@[p] == value_sum(self.objects@, self.order@.skip(p))
        &&& self.volumes.len() == self.order.len()
        &&& forall|p: int| 0 <= p < self.order.len() ==> #[trigger] self.volumes@[p] == volume(self.objects@[self.order@[p] as int])
        &&& self.grid.len() == self.capacity
        &&& self.used <= self.capacity
        &&& self.used == occupied(self.grid@)
        &&& cells_valid(self.grid@, self.objects@.len())
        &&& self.best_grid.len() == self.capacity
        &&& cells_valid(self.best_grid@, self.objects@.len())
        &&& forall|p: int| 0 <= p < self.selected.len() ==> #[trigger] self.selected@[p] < self.objects.len()
        &&& forall|p: int| 0 <= p < self.best_selected.len() ==> #[trigger] self.best_selected@[p] < self.objects.len()
    }

    /// The parts that the search never changes.
    pub open spec fn same_plan(&self, other: &Solver) -> bool {
        &&& self.limit == other.limit
        &&& self.objects@ == other.objects@
        &&& self.order@ == other.order@
        &&& self.suffix@ == other.suffix@
        &&& self.volumes@ == other.volumes@
        &&& self.capacity == other.capacity
    }

    /// The best assignment recorded.
    pub open spec fn best(&self) -> Best {
        Best { value: self.best_value as nat, grid: self.best_grid@, selected: self.best_selected@ }
    }

    /// Orders the candidates, computes their bounds and sets up an empty grid.
    pub fn new(limit: Limit, objects: Vec<Object>) -> (r: Solver)
        requires
            input_ok(limit, objects@),
        ensures
            r.wf(),
            r.limit == limit,
            r.objects@ == objects@,
            r.order@ == candidate_order(limit, objects@),
            r.grid@ == empty_grid(limit),
            r.used == 0,
            r.selected@ == Seq::<usize>::empty(),
            r.best() == initial_best(limit),
    {
        let order = order_candidates(&limit, &objects);
        let suffix = suffix_values(&objects, &order);
        let volumes = candidate_volumes(&limit, &objects, &order);
        proof {
            let (lx, ly, lz) = (limit.x as int, limit.y as int, limit.z as int);
            assert(lx * ly <= lx * ly * lz) by (nonlinear_arith)
                requires lx >= 0, ly >= 0, lz >= 1;
        }
        let cap = limit.x * limit.y * limit.z;
        let grid: Vec<isize> = vec![EMPTY; cap];
        let best_grid: Vec<isize> = vec![EMPTY; cap];
        assert(grid@ =~= empty_grid(limit));
        assert(best_grid@ =~= empty_grid(limit));
        proof {
            lemma_empty_unoccupied(grid@, grid@.len() as int);
        }
        let r = Solver {
            limit,
            objects,
            order,
            suffix,
            volumes,
            capacity: cap,
            grid,
            used: 0,
            selected: Vec::new(),
            best_grid,
            best_selected: Vec::new(),
            best_value: 0,
        };
        assert(r.selected@ =~= Seq::<usize>::empty());
        assert(r.best_selected@ =~= Seq::<usize>::empty());
        r
    }

    /// Records the current assignment as the best one.
    fn record(&mut self, acc: usize)
        requires
            old(self).wf(),
        ensures
            final(self).wf(),
            final(self).same_plan(old(self)),
            final(self).grid@ == old(self).grid@,
            final(self).used == old(self).used,
            final(self).selected@ == old(self).selected@,
            final(self).best() == (Best { value: acc as nat, grid: old(self).grid@, selected: old(self).selected@ }),
    {
        self.best_value = acc;
        self.best_grid = self.grid.clone();
        self.best_selected = self.selected.clone();
        assert(self.best_grid@ =~= self.grid@);
        assert(self.best_selected@ =~= self.selected@);
    }

    /// Searches from candidate `pos` on, with `acc` the value placed so far:
    /// the best assignment afterwards is the one `search` gives, and the grid,
    /// the used volume and the selection are as they were.
    pub fn dfs(&mut self, pos: usize, acc: usize)
        requires
            old(self).wf(),
            pos <= old(self).order.len(),
            acc + old(self).suffix@[pos as int] <= old(self).suffix@[0],
        ensures
            final(self).wf(),
            final(self).same_plan(old(self)),
            final(self).grid@ == old(self).grid@,
            final(self).used == old(self).used,
            final(self).selected@ == old(self).selected@,
            final(self).best() == search(
                old(self).limit,
                old(self).objects@,
                old(self).order@,
                old(self).grid@,
                old(self).used as int,
                old(self).selected@,
                pos as int,
                acc as int,
                old(self).best(),
            ),
            sound(old(self).limit, old(self).objects@, old(self).best())
                && state_sound(old(self).limit, old(self).objects@, old(self).order@, old(self).grid@, old(self).selected@, pos as int, acc as int)
                ==> sound(old(self).limit, old(self).objects@, final(self).best()),
        decreases old(self).order.len() - pos,
    {
        proof {
            if sound(self.limit, self.objects@, self.best())
                && state_sound(self.limit, self.objects@, self.order@, self.grid@, self.selected@, pos as int, acc as int) {
                lemma_search_sound(
                    self.limit,
                    self.objects@,
                    self.order@,
                    self.grid@,
                    self.used as int,
                    self.selected@,
                    pos as int,
                    acc as int,
                    self.best(),
                );
            }
        }
        if acc + self.suffix[pos] <= self.best_value {
            return;
        }
        if self.used == self.capacity || pos == self.order.len() {
            if acc > self.best_value {
                self.record(acc);
            }
            return;
        }
        let ghost lim = self.limit;
        let ghost objs = self.objects@;
        let ghost ord = self.order@;
        let ghost g0 = self.grid@;
        let ghost used0 = self.used as int;
        let ghost sel0 = self.selected@;
        let ghost best0 = self.best();
        let ghost start = *self;
        let k = self.order[pos];
        let vol = self.volumes[pos];
        proof {
            lemma_value_sum_step(objs, ord, pos as int);
        }
        if vol <= self.capacity - self.used {
            let ex = self.objects[k].x;
            let ey = self.objects[k].y;
            let ez = self.objects[k].z;
            let v = self.objects[k].value;
            let ghost o = objs[k as int];
            let ghost total = try_origins(lim, objs, ord, g0, used0, sel0, pos as int, acc as int, 0, 0, 0, best0);
            assert(o.x <= lim.x && o.y <= lim.y && o.z <= lim.z);
            assert(object_wf(objs[k as int]));
            let mx = self.limit.x - ex + 1;
            let my = self.limit.y - ey + 1;
            let mz = self.limit.z - ez + 1;
            let mut x: usize = 0;
            while x < mx
                invariant
                    self.wf(),
                    self.same_plan(&start),
                    self.grid@ == g0,
                    self.used == used0,
                    self.selected@ == sel0,
                    lim == self.limit,
                    objs == self.objects@,
                    ord == self.order@,
                    ord.len() == old(self).order.len(),
                    pos < ord.len(),
                    k == ord[pos as int],
                    o == objs[k as int],
                    ex == o.x && ey == o.y && ez == o.z && v == o.value,
                    vol == volume(o),
                    vol <= self.capacity - used0,
                    mx == lim.x - o.x + 1 && my == lim.y - o.y + 1 && mz == lim.z - o.z + 1,
                    acc + self.suffix@[pos as int] <= self.suffix@[0],
                    self.suffix@[pos as int] == v + self.suffix@[pos + 1],
                    0 <= x <= mx,
                    try_origins(lim, objs, ord, g0, used0, sel0, pos as int, acc as int, x as int, 0, 0, self.best()) == total,
                decreases mx - x,
            {
                let mut y: usize = 0;
                while y < my
                    invariant
                        self.wf(),
                        self.same_plan(&start),
                        self.grid@ == g0,
                        self.used == used0,
                        self.selected@ == sel0,
                        lim == self.limit,
                        objs == self.objects@,
                        ord == self.order@,
                    ord.len() == old(self).order.len(),
                        pos < ord.len(),
                        k == ord[pos as int],
                        o == objs[k as int],
                        ex == o.x && ey == o.y && ez == o.z && v == o.value,
                        vol == volume(o),
                        vol <= self.capacity - used0,
                        mx == lim.x - o.x + 1 && my == lim.y - o.y + 1 && mz == lim.z - o.z + 1,
                        acc + self.suffix@[pos as int] <= self.suffix@[0],
                        self.suffix@[pos as int] == v + self.suffix@[pos + 1],
                        0 <= x < mx,
                        0 <= y <= my,
                        try_origins(lim, objs, ord, g0, used0, sel0, pos as int, acc as int, x as int, y as int, 0, self.best()) == total,
                    decreases my - y,
                {
                    let mut z: usize = 0;
                    while z < mz
                        invariant
                            self.wf(),
                            self.same_plan(&start),
                            self.grid@ == g0,
                            self.used == used0,
                            self.selected@ == sel0,
                            lim == self.limit,
                            objs == self.objects@,
                            ord == self.order@,
                    ord.len() == old(self).order.len(),
                            pos < ord.len(),
                            k == ord[pos as int],
                            o == objs[k as int],
                            ex == o.x && ey == o.y && ez == o.z && v == o.value,
                            vol == volume(o),
                            vol <= self.capacity - used0,
                            mx == lim.x - o.x + 1 && my == lim.y - o.y + 1 && mz == lim.z - o.z + 1,
                            acc + self.suffix@[pos as int] <= self.suffix@[0],
                            self.suffix@[pos as int] == v + self.suffix@[pos + 1],
                            0 <= x < mx,
                            0 <= y < my,
                            0 <= z <= mz,
                            try_origins(lim, objs, ord, g0, used0, sel0, pos as int, acc as int, x as int, y as int, z as int, self.best()) == total,
                        decreases mz - z,
                    {
                        let ghost b = self.best();
                        if box_vacant(&self.grid, &self.limit, x, y, z, ex, ey, ez) {
                            proof {
                                lemma_place_count(lim, g0, (x as int, y as int, z as int), o, k as isize);
                            }
                            fill_box(&mut self.grid, &self.limit, x, y, z, ex, ey, ez, k as isize);
                            self.used = self.used + vol;
                            self.selected.push(k);
                            self.dfs(pos + 1, acc + v);
                            self.selected.pop();
                            self.used = self.used - vol;
                            fill_box(&mut self.grid, &self.limit, x, y, z, ex, ey, ez, EMPTY);
                            proof {
                                lemma_fill_undo(lim, g0, (x as int, y as int, z as int), extents(o), k as isize);
                                assert(self.selected@ =~= sel0);
                            }
                        }
                        z = z + 1;
                    }
                    y = y + 1;
                }
                x = x + 1;
            }
        }
        self.dfs(pos + 1, acc);
    }
}

} // verus!
