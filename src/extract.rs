//! Turning the best assignment into its external form: the names of the
//! objects placed, a grid indexed `[z][x][y]` of positions in that list of
//! names, the objects selected and the total value.

use vstd::prelude::*;

use crate::geometry::{capacity, cell_index, lemma_cell_decode, limit_wf, EMPTY};
use crate::search::{cells_valid, input_ok, solution, Solver};
use crate::{Limit, Object};

verus! {

/// Some cell of `g` holds object `j`.
pub open spec fn occupies(g: Seq<isize>, j: int) -> bool {
    exists|i: int| 0 <= i < g.len() && g[i] == j
}

/// The positions below `n` of the objects that occupy a cell of `g`, in
/// ascending order.
pub open spec fn present_objects(g: Seq<isize>, n: nat) -> Seq<usize>
    decreases n,
{
    if n == 0 {
        Seq::empty()
    } else {
        present_objects(g, (n - 1) as nat) + if occupies(g, n - 1) {
            seq![(n - 1) as usize]
        } else {
            Seq::empty()
        }
    }
}

/// `out` is what the external grid shows for a cell holding `v`: `-1` for an
/// empty cell, else the place of `v` in `names`.
pub open spec fn shown_as(names: Seq<usize>, v: isize, out: isize) -> bool {
    if v == EMPTY {
        out == -1
    } else {
        0 <= out < names.len() && names[out as int] == v
    }
}

/// `out` is where `j` stands in `list` when `j` is marked, and `-1` when not.
pub open spec fn place_in(list: Seq<usize>, mark: bool, j: int, out: isize) -> bool {
    if mark {
        0 <= out < list.len() && list[out as int] == j
    } else {
        out == -1
    }
}

/// Marks, for each of `n` objects, whether it occupies a cell of the grid.
fn present_marks(grid: &Vec<isize>, n: usize) -> (marks: Vec<bool>)
    requires
        cells_valid(grid@, n as nat),
    ensures
        marks.len() == n,
        forall|j: int| 0 <= j < n ==> #[trigger] marks@[j] == occupies(grid@, j),
{
    let mut marks: Vec<bool> = vec![false; n];
    let mut i: usize = 0;
    while i < grid.len()
        invariant
            cells_valid(grid@, n as nat),
            0 <= i <= grid.len(),
            marks.len() == n,
            forall|j: int| 0 <= j < n ==> #[trigger] marks@[j] == exists|q: int| 0 <= q < i && grid@[q] == j,
        decreases grid.len() - i,
    {
        let v = grid[i];
        if v != EMPTY {
            marks.set(v as usize, true);
        }
        assert forall|j: int| 0 <= j < n implies #[trigger] marks@[j] == exists|q: int| 0 <= q < i + 1 && grid@[q] == j by {
            if grid@[i as int] == j {
                assert(0 <= i < i + 1 && grid@[i as int] == j);
            }
        }
        i = i + 1;
    }
    marks
}

/// The positions below `n` whose mark is set, in ascending order.
pub open spec fn marked(marks: Seq<bool>, n: nat) -> Seq<usize>
    decreases n,
{
    if n == 0 {
        Seq::empty()
    } else {
        marked(marks, (n - 1) as nat) + if marks[n - 1] {
            seq![(n - 1) as usize]
        } else {
            Seq::empty()
        }
    }
}

proof fn lemma_marked_present(marks: Seq<bool>, g: Seq<isize>, n: nat)
    requires
        n <= marks.len(),
        forall|j: int| 0 <= j < n ==> #[trigger] marks[j] == occupies(g, j),
    ensures
        marked(marks, n) == present_objects(g, n),
    decreases n,
{
    if n > 0 {
        lemma_marked_present(marks, g, (n - 1) as nat);
    }
}

proof fn lemma_marked_bounds(marks: Seq<bool>, n: nat)
    requires
        n <= marks.len(),
        n <= usize::MAX,
    ensures
        marked(marks, n).len() <= n,
        forall|k: int| 0 <= k < marked(marks, n).len() ==> #[trigger] marked(marks, n)[k] < n && marks[marked(marks, n)[k] as int],
    decreases n,
{
    if n > 0 {
        lemma_marked_bounds(marks, (n - 1) as nat);
        let prev = marked(marks, (n - 1) as nat);
        assert forall|k: int| 0 <= k < marked(marks, n).len() implies #[trigger] marked(marks, n)[k] < n && marks[marked(marks, n)[k] as int] by {
            if k < prev.len() {
                assert(marked(marks, n)[k] == prev[k]);
            }
        }
    }
}

/// The names of the marked objects in ascending order of position, and for
/// each object its place in that list, or `-1` where it is not marked.
fn names_and_places(objects: &Vec<Object>, marks: &Vec<bool>) -> (r: (Vec<String>, Vec<isize>))
    requires
        marks.len() == objects.len(),
        objects.len() <= isize::MAX,
    ensures
        r.0.len() == marked(marks@, marks.len() as nat).len(),
        forall|k: int| 0 <= k < r.0.len() ==> #[trigger] r.0@[k] == objects@[marked(marks@, marks.len() as nat)[k] as int].name,
        r.1.len() == objects.len(),
        forall|j: int| 0 <= j < objects.len() ==> place_in(marked(marks@, marks.len() as nat), marks@[j], j, #[trigger] r.1@[j]),
{
    let mut names: Vec<String> = Vec::new();
    let mut places: Vec<isize> = Vec::new();
    let mut j: usize = 0;
    while j < objects.len()
        invariant
            marks.len() == objects.len(),
            objects.len() <= isize::MAX,
            0 <= j <= objects.len(),
            names.len() == marked(marks@, j as nat).len(),
            names.len() <= j,
            forall|k: int| 0 <= k < names.len() ==> #[trigger] names@[k] == objects@[marked(marks@, j as nat)[k] as int].name,
            places.len() == j,
            forall|q: int| 0 <= q < j ==> place_in(marked(marks@, j as nat), marks@[q], q, #[trigger] places@[q]),
        decreases objects.len() - j,
    {
        let ghost before = marked(marks@, j as nat);
        assert(marked(marks@, (j + 1) as nat).take(before.len() as int) =~= before);
        if marks[j] {
            places.push(names.len() as isize);
            names.push(objects[j].name.clone());
        } else {
            places.push(-1);
        }
        proof {
            let after = marked(marks@, (j + 1) as nat);
            lemma_marked_bounds(marks@, j as nat);
            assert(after == before + if marks@[j as int] { seq![j] } else { Seq::<usize>::empty() });
            assert forall|q: int| 0 <= q < j + 1 implies place_in(after, marks@[q], q, #[trigger] places@[q]) by {
                if q < j {
                    assert(place_in(before, marks@[q], q, places@[q]));
                    if marks@[q] {
                        assert(after[places@[q] as int] == before[places@[q] as int]);
                    }
                } else if marks@[q] {
                    assert(places@[q] == before.len());
                    assert(after[before.len() as int] == j);
                }
            }
        }
        j = j + 1;
    }
    (names, places)
}

/// What the external grid shows for a cell holding `v`, given the place of
/// each object in the list of names.
pub open spec fn relabel(places: Seq<isize>, v: isize) -> isize {
    if v == EMPTY {
        -1isize
    } else {
        places[v as int]
    }
}

/// The grid indexed `[z][x][y]`, each cell relabelled through `places`.
fn grid_zxy(lim: &Limit, grid: &Vec<isize>, places: &Vec<isize>) -> (r: Vec<Vec<Vec<isize>>>)
    requires
        limit_wf(*lim),
        capacity(*lim) <= usize::MAX,
        grid.len() == capacity(*lim),
        cells_valid(grid@, places@.len()),
    ensures
        r.len() == lim.z,
        forall|c: int| 0 <= c < lim.z ==> (#[trigger] r@[c]).len() == lim.x,
        forall|c: int, a: int| 0 <= c < lim.z && 0 <= a < lim.x ==> (#[trigger] r@[c]@[a]).len() == lim.y,
        forall|c: int, a: int, b: int| 0 <= c < lim.z && 0 <= a < lim.x && 0 <= b < lim.y ==>
            #[trigger] r@[c]@[a]@[b] == relabel(places@, grid@[cell_index(*lim, a, b, c)]),
{
    let mut out: Vec<Vec<Vec<isize>>> = Vec::new();
    let mut z: usize = 0;
    while z < lim.z
        invariant
            limit_wf(*lim),
            capacity(*lim) <= usize::MAX,
            grid.len() == capacity(*lim),
            cells_valid(grid@, places@.len()),
            0 <= z <= lim.z,
            out.len() == z,
            forall|c: int| 0 <= c < z ==> (#[trigger] out@[c]).len() == lim.x,
            forall|c: int, a: int| 0 <= c < z && 0 <= a < lim.x ==> (#[trigger] out@[c]@[a]).len() == lim.y,
            forall|c: int, a: int, b: int| 0 <= c < z && 0 <= a < lim.x && 0 <= b < lim.y ==>
                #[trigger] out@[c]@[a]@[b] == relabel(places@, grid@[cell_index(*lim, a, b, c)]),
        decreases lim.z - z,
    {
        let mut plane: Vec<Vec<isize>> = Vec::new();
        let mut x: usize = 0;
        while x < lim.x
            invariant
                limit_wf(*lim),
                capacity(*lim) <= usize::MAX,
                grid.len() == capacity(*lim),
                cells_valid(grid@, places@.len()),
                0 <= z < lim.z,
                0 <= x <= lim.x,
                plane.len() == x,
                forall|a: int| 0 <= a < x ==> (#[trigger] plane@[a]).len() == lim.y,
                forall|a: int, b: int| 0 <= a < x && 0 <= b < lim.y ==>
                    #[trigger] plane@[a]@[b] == relabel(places@, grid@[cell_index(*lim, a, b, z as int)]),
            decreases lim.x - x,
        {
            let mut row: Vec<isize> = Vec::new();
            let mut y: usize = 0;
            while y < lim.y
                invariant
                    limit_wf(*lim),
                    capacity(*lim) <= usize::MAX,
                    grid.len() == capacity(*lim),
                    cells_valid(grid@, places@.len()),
                    0 <= z < lim.z,
                    0 <= x < lim.x,
                    0 <= y <= lim.y,
                    row.len() == y,
                    forall|b: int| 0 <= b < y ==>
                        #[trigger] row@[b] == relabel(places@, grid@[cell_index(*lim, x as int, b, z as int)]),
                decreases lim.y - y,
            {
                proof {
                    lemma_cell_decode(*lim, x as int, y as int, z as int);
                }
                let v = grid[(x * lim.y + y) * lim.z + z];
                if v == EMPTY {
                    row.push(-1);
                } else {
                    row.push(places[v as usize]);
                }
                y = y + 1;
            }
            plane.push(row);
            x = x + 1;
        }
        out.push(plane);
        z = z + 1;
    }
    out
}

/// Solves the instance and returns, in this order: the names of the objects
/// placed in the best assignment, in ascending order of input position; the
/// grid indexed `[z][x][y]`, where `-1` is an empty cell and any other
/// number the place of the cell's object in that list of names; the objects
/// selected, in the order in which the search selected them; and the best
/// total value.
pub fn solve_to_grid_zxy(limit: Limit, objects: Vec<Object>) -> (r: (Vec<String>, Vec<Vec<Vec<isize>>>, Vec<Object>, usize))
    requires
        input_ok(limit, objects@),
    ensures
        r.3 == solution(limit, objects@).value,
        r.0.len() == present_objects(solution(limit, objects@).grid, objects@.len()).len(),
        forall|k: int| 0 <= k < r.0.len() ==>
            #[trigger] r.0@[k] == objects@[present_objects(solution(limit, objects@).grid, objects@.len())[k] as int].name,
        r.1.len() == limit.z,
        forall|c: int| 0 <= c < limit.z ==> (#[trigger] r.1@[c]).len() == limit.x,
        forall|c: int, a: int| 0 <= c < limit.z && 0 <= a < limit.x ==> (#[trigger] r.1@[c]@[a]).len() == limit.y,
        forall|c: int, a: int, b: int| 0 <= c < limit.z && 0 <= a < limit.x && 0 <= b < limit.y ==>
            shown_as(
                present_objects(solution(limit, objects@).grid, objects@.len()),
                solution(limit, objects@).grid[cell_index(limit, a, b, c)],
                #[trigger] r.1@[c]@[a]@[b],
            ),
        r.2.len() == solution(limit, objects@).selected.len(),
        forall|p: int| 0 <= p < r.2.len() ==> #[trigger] r.2@[p] == objects@[solution(limit, objects@).selected[p] as int],
{
    let ghost objs = objects@;
    let mut solver = Solver::new(limit, objects);
    solver.dfs(0, 0);
    let ghost best = solver.best();
    assert(best == solution(limit, objs));
    let n = solver.objects.len();
    let marks = present_marks(&solver.best_grid, n);
    let (names, places) = names_and_places(&solver.objects, &marks);
    let grid = grid_zxy(&solver.limit, &solver.best_grid, &places);
    proof {
        lemma_marked_present(marks@, best.grid, n as nat);
        let list = present_objects(best.grid, n as nat);
        assert forall|c: int, a: int, b: int| 0 <= c < limit.z && 0 <= a < limit.x && 0 <= b < limit.y implies
            shown_as(list, best.grid[cell_index(limit, a, b, c)], #[trigger] grid@[c]@[a]@[b]) by {
            lemma_cell_decode(limit, a, b, c);
            let i = cell_index(limit, a, b, c);
            let v = best.grid[i];
            if v != EMPTY {
                assert(occupies(best.grid, v as int));
                assert(place_in(list, marks@[v as int], v as int, places@[v as int]));
            }
        }
    }
    let mut selected: Vec<Object> = Vec::new();
    let mut p: usize = 0;
    while p < solver.best_selected.len()
        invariant
            solver.wf(),
            solver.objects@ == objs,
            0 <= p <= solver.best_selected.len(),
            selected.len() == p,
            forall|q: int| 0 <= q < p ==> #[trigger] selected@[q] == objs[solver.best_selected@[q] as int],
        decreases solver.best_selected.len() - p,
    {
        let o = &solver.objects[solver.best_selected[p]];
        selected.push(Object { name: o.name.clone(), x: o.x, y: o.y, z: o.z, value: o.value });
        p = p + 1;
    }
    (names, grid, selected, solver.best_value)
}

} // verus!
