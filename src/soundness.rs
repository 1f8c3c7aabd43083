//! What holds of every assignment that a solve returns: each object placed
//! fills exactly one box inside the container, no cell is shared, and the
//! value reported is the sum of the values of the objects selected.

use vstd::prelude::*;

use crate::extract::{occupies, present_objects};
use crate::geometry::{box_empty, box_fits, capacity, fill, in_box, lemma_empty_unoccupied, limit_wf, occupied, EMPTY};
use crate::ordering::{
    candidate_order, is_candidate_order, lemma_candidate_order, lemma_value_sum_insert, lemma_volume_sum_push, ranked, ranks_before, value_sum,
    volume, volume_sum,
};
use crate::search::{
    empty_grid, extents, initial_best, input_ok, lemma_place_count, object_wf, search, solution, try_origins, Best,
};
use crate::{Limit, Object};

verus! {

/// The cells of `g` that hold object `j` are exactly the cells of the box
/// with origin `o` and extents `e`, and that box lies inside the container.
pub open spec fn holds_box(lim: Limit, g: Seq<isize>, j: usize, o: (int, int, int), e: (int, int, int)) -> bool {
    &&& box_fits(lim, o, e)
    &&& forall|i: int| 0 <= i < g.len() ==> (#[trigger] g[i] == j as isize <==> in_box(lim, i, o, e))
}

/// The cells of `g` that hold object `j` form one box of its extents
/// inside the container.
pub open spec fn boxed(lim: Limit, objs: Seq<Object>, g: Seq<isize>, j: usize) -> bool {
    exists|o: (int, int, int)| #[trigger] holds_box(lim, g, j, o, extents(objs[j as int]))
}

/// `g` is a packing of the objects listed in `sel`: each is listed once, each
/// fills exactly one box of its own extents, and every non-empty cell holds
/// one of them.
pub open spec fn packing(lim: Limit, objs: Seq<Object>, g: Seq<isize>, sel: Seq<usize>) -> bool {
    &&& g.len() == capacity(lim)
    &&& sel.no_duplicates()
    &&& forall|p: int| 0 <= p < sel.len() ==> #[trigger] sel[p] < objs.len()
    &&& forall|p: int| 0 <= p < sel.len() ==> boxed(lim, objs, g, #[trigger] sel[p])
    &&& forall|i: int| 0 <= i < g.len() && #[trigger] g[i] != EMPTY ==> 0 <= g[i] && sel.contains(g[i] as usize)
}

/// An assignment that is a packing of its selection, worth the sum of the
/// values of the objects selected.
pub open spec fn sound(lim: Limit, objs: Seq<Object>, b: Best) -> bool {
    &&& packing(lim, objs, b.grid, b.selected)
    &&& b.value == value_sum(objs, b.selected)
    &&& occupied(b.grid) == volume_sum(objs, b.selected)
    &&& ranked(objs, b.selected)
}

/// A state of the search that is a packing of objects taken from the first
/// `pos` candidates, with `acc` the sum of their values.
pub open spec fn state_sound(lim: Limit, objs: Seq<Object>, ord: Seq<usize>, g: Seq<isize>, sel: Seq<usize>, pos: int, acc: int) -> bool {
    &&& packing(lim, objs, g, sel)
    &&& acc == value_sum(objs, sel)
    &&& occupied(g) == volume_sum(objs, sel)
    &&& ranked(objs, sel)
    &&& forall|p: int| 0 <= p < sel.len() ==> exists|q: int| 0 <= q < pos && #[trigger] sel[p] == ord[q]
}

/// The setting in which the search runs.
pub open spec fn setting_ok(lim: Limit, objs: Seq<Object>, ord: Seq<usize>) -> bool {
    &&& limit_wf(lim)
    &&& capacity(lim) <= usize::MAX
    &&& forall|j: int| 0 <= j < objs.len() ==> #[trigger] object_wf(objs[j])
    &&& objs.len() <= isize::MAX
    &&& is_candidate_order(lim, objs, ord)
}

proof fn lemma_place_sound(
    lim: Limit,
    objs: Seq<Object>,
    ord: Seq<usize>,
    g: Seq<isize>,
    sel: Seq<usize>,
    pos: int,
    acc: int,
    o: (int, int, int),
)
    requires
        setting_ok(lim, objs, ord),
        0 <= pos < ord.len(),
        state_sound(lim, objs, ord, g, sel, pos, acc),
        box_fits(lim, o, extents(objs[ord[pos] as int])),
        box_empty(lim, g, o, extents(objs[ord[pos] as int])),
    ensures
        state_sound(
            lim,
            objs,
            ord,
            fill(lim, g, o, extents(objs[ord[pos] as int]), ord[pos] as isize),
            sel.push(ord[pos]),
            pos + 1,
            acc + objs[ord[pos] as int].value,
        ),
{
    let k = ord[pos];
    let e = extents(objs[k as int]);
    let g2 = fill(lim, g, o, e, k as isize);
    let sel2 = sel.push(k);
    assert(k < objs.len());
    assert(!sel.contains(k)) by {
        if sel.contains(k) {
            let p = choose|p: int| 0 <= p < sel.len() && sel[p] == k;
            let q = choose|q: int| 0 <= q < pos && #[trigger] sel[p] == ord[q];
            assert(ranks_before(objs, ord[q] as int, ord[pos] as int));
        }
    }
    assert forall|i: int| 0 <= i < g.len() implies #[trigger] g[i] != k as isize by {
        if g[i] == k as isize {
            assert(g[i] != EMPTY);
            assert(sel.contains(g[i] as usize));
        }
    }
    assert(sel2.no_duplicates()) by {
        assert forall|a: int, b: int| 0 <= a < sel2.len() && 0 <= b < sel2.len() && a != b implies sel2[a] != sel2[b] by {
            if a < sel.len() && b < sel.len() {
                assert(sel[a] != sel[b]);
            } else if a < sel.len() {
                assert(sel.contains(sel[a]));
            } else if b < sel.len() {
                assert(sel.contains(sel[b]));
            }
        }
    }
    assert forall|p: int| 0 <= p < sel2.len() implies boxed(lim, objs, g2, #[trigger] sel2[p]) by {
        if p < sel.len() {
            let j = sel[p];
            assert(boxed(lim, objs, g, sel[p]));
            let w = choose|w: (int, int, int)| #[trigger] holds_box(lim, g, sel[p], w, extents(objs[sel[p] as int]));
            assert(sel2[p] == j);
            assert forall|i: int| 0 <= i < g2.len() implies (#[trigger] g2[i] == j as isize <==> in_box(lim, i, w, extents(objs[j as int]))) by {
                assert(g[i] == j as isize <==> in_box(lim, i, w, extents(objs[j as int])));
                if in_box(lim, i, o, e) {
                    assert(g[i] == EMPTY);
                }
            }
            assert(holds_box(lim, g2, sel2[p], w, extents(objs[sel2[p] as int])));
        } else {
            assert(sel2[p] == k);
            assert forall|i: int| 0 <= i < g2.len() implies (#[trigger] g2[i] == k as isize <==> in_box(lim, i, o, e)) by {
                assert(g[i] != k as isize);
            }
            assert(holds_box(lim, g2, sel2[p], o, extents(objs[sel2[p] as int])));
        }
    }
    assert forall|i: int| 0 <= i < g2.len() && #[trigger] g2[i] != EMPTY implies 0 <= g2[i] && sel2.contains(g2[i] as usize) by {
        if in_box(lim, i, o, e) {
            assert(sel2[sel.len() as int] == k);
        } else {
            assert(g[i] != EMPTY);
            let p = choose|p: int| 0 <= p < sel.len() && sel[p] == g[i] as usize;
            assert(sel2[p] == sel[p]);
        }
    }
    assert forall|p: int| 0 <= p < sel2.len() implies exists|q: int| 0 <= q < pos + 1 && #[trigger] sel2[p] == ord[q] by {
        if p < sel.len() {
            let q = choose|q: int| 0 <= q < pos && #[trigger] sel[p] == ord[q];
            assert(sel2[p] == ord[q]);
        } else {
            assert(sel2[p] == ord[pos]);
        }
    }
    assert forall|a: int, b: int| 0 <= a < b < sel2.len() implies ranks_before(objs, #[trigger] sel2[a] as int, #[trigger] sel2[b] as int) by {
        if b < sel.len() {
            assert(ranks_before(objs, sel[a] as int, sel[b] as int));
        } else {
            let q = choose|q: int| 0 <= q < pos && #[trigger] sel[a] == ord[q];
            assert(ranks_before(objs, ord[q] as int, ord[pos] as int));
        }
    }
    assert(sel.insert(sel.len() as int, k) =~= sel2);
    lemma_value_sum_insert(objs, sel, sel.len() as int, k);
    lemma_volume_sum_push(objs, sel, k);
    lemma_place_count(lim, g, o, objs[k as int], k as isize);
}

/// Every assignment that the search records is sound.
pub proof fn lemma_search_sound(
    lim: Limit,
    objs: Seq<Object>,
    ord: Seq<usize>,
    g: Seq<isize>,
    used: int,
    sel: Seq<usize>,
    pos: int,
    acc: int,
    best: Best,
)
    requires
        setting_ok(lim, objs, ord),
        0 <= pos <= ord.len(),
        state_sound(lim, objs, ord, g, sel, pos, acc),
        sound(lim, objs, best),
    ensures
        sound(lim, objs, search(lim, objs, ord, g, used, sel, pos, acc, best)),
    decreases ord.len() - pos, 1int, 0int, 0int, 0int,
{
    if acc + value_sum(objs, ord.skip(pos)) <= best.value {
    } else if used == capacity(lim) || pos == ord.len() {
    } else {
        let o = objs[ord[pos] as int];
        let placed = if volume(o) <= capacity(lim) - used {
            lemma_origins_sound(lim, objs, ord, g, used, sel, pos, acc, 0, 0, 0, best);
            try_origins(lim, objs, ord, g, used, sel, pos, acc, 0, 0, 0, best)
        } else {
            best
        };
        assert forall|p: int| 0 <= p < sel.len() implies exists|q: int| 0 <= q < pos + 1 && #[trigger] sel[p] == ord[q] by {
            let q = choose|q: int| 0 <= q < pos && #[trigger] sel[p] == ord[q];
        }
        lemma_search_sound(lim, objs, ord, g, used, sel, pos + 1, acc, placed);
    }
}

/// Every assignment that the place branch records is sound.
pub proof fn lemma_origins_sound(
    lim: Limit,
    objs: Seq<Object>,
    ord: Seq<usize>,
    g: Seq<isize>,
    used: int,
    sel: Seq<usize>,
    pos: int,
    acc: int,
    x: int,
    y: int,
    z: int,
    best: Best,
)
    requires
        setting_ok(lim, objs, ord),
        0 <= pos < ord.len(),
        state_sound(lim, objs, ord, g, sel, pos, acc),
        sound(lim, objs, best),
    ensures
        sound(lim, objs, try_origins(lim, objs, ord, g, used, sel, pos, acc, x, y, z, best)),
    decreases ord.len() - pos, 0int, lim.x - objs[ord[pos] as int].x + 1 - x, lim.y - objs[ord[pos] as int].y + 1 - y, lim.z - objs[ord[pos] as int].z + 1 - z,
{
    let k = ord[pos];
    let o = objs[k as int];
    if x >= lim.x - o.x + 1 {
    } else if y >= lim.y - o.y + 1 {
        lemma_origins_sound(lim, objs, ord, g, used, sel, pos, acc, x + 1, 0, 0, best);
    } else if z >= lim.z - o.z + 1 {
        lemma_origins_sound(lim, objs, ord, g, used, sel, pos, acc, x, y + 1, 0, best);
    } else {
        let after = if box_fits(lim, (x, y, z), extents(o)) && box_empty(lim, g, (x, y, z), extents(o)) {
            lemma_place_sound(lim, objs, ord, g, sel, pos, acc, (x, y, z));
            lemma_search_sound(
                lim,
                objs,
                ord,
                fill(lim, g, (x, y, z), extents(o), k as isize),
                used + volume(o),
                sel.push(k),
                pos + 1,
                acc + o.value,
                best,
            );
            search(
                lim,
                objs,
                ord,
                fill(lim, g, (x, y, z), extents(o), k as isize),
                used + volume(o),
                sel.push(k),
                pos + 1,
                acc + o.value,
                best,
            )
        } else {
            best
        };
        lemma_origins_sound(lim, objs, ord, g, used, sel, pos, acc, x, y, z + 1, after);
    }
}

/// The assignment returned by a solve is sound.
pub proof fn lemma_solution_sound(lim: Limit, objs: Seq<Object>)
    requires
        input_ok(lim, objs),
    ensures
        sound(lim, objs, solution(lim, objs)),
{
    let ord = candidate_order(lim, objs);
    lemma_candidate_order(lim, objs);
    let g = empty_grid(lim);
    let sel = Seq::<usize>::empty();
    lemma_empty_unoccupied(g, g.len() as int);
    assert(packing(lim, objs, g, sel));
    assert(state_sound(lim, objs, ord, g, sel, 0, 0));
    assert(sound(lim, objs, initial_best(lim)));
    lemma_search_sound(lim, objs, ord, g, 0, sel, 0, 0, initial_best(lim));
}

/// Every non-empty cell of the returned grid lies inside the container and
/// inside a box of its object's extents that lies inside the container, and
/// the cells of each object placed are exactly such a box; as a cell holds
/// one object, no two objects share a cell.
pub proof fn law_packing(lim: Limit, objs: Seq<Object>)
    requires
        input_ok(lim, objs),
    ensures
        solution(lim, objs).grid.len() == capacity(lim),
        forall|i: int| 0 <= i < capacity(lim) && #[trigger] solution(lim, objs).grid[i] != EMPTY ==> {
            let j = solution(lim, objs).grid[i];
            &&& 0 <= j < objs.len()
            &&& exists|o: (int, int, int)| {
                &&& #[trigger] holds_box(lim, solution(lim, objs).grid, j as usize, o, extents(objs[j as int]))
                &&& in_box(lim, i, o, extents(objs[j as int]))
            }
        },
{
    lemma_solution_sound(lim, objs);
    let b = solution(lim, objs);
    assert forall|i: int| 0 <= i < capacity(lim) && #[trigger] b.grid[i] != EMPTY implies {
        let j = b.grid[i];
        &&& 0 <= j < objs.len()
        &&& exists|o: (int, int, int)| {
            &&& #[trigger] holds_box(lim, b.grid, j as usize, o, extents(objs[j as int]))
            &&& in_box(lim, i, o, extents(objs[j as int]))
        }
    } by {
        let j = b.grid[i];
        let p = choose|p: int| 0 <= p < b.selected.len() && b.selected[p] == j as usize;
        assert(boxed(lim, objs, b.grid, b.selected[p]));
        let o = choose|o: (int, int, int)| #[trigger] holds_box(lim, b.grid, b.selected[p], o, extents(objs[b.selected[p] as int]));
        assert(b.grid[i] == b.selected[p] as isize);
        assert(holds_box(lim, b.grid, j as usize, o, extents(objs[j as int])));
    }
}

/// The value returned is the sum of the values of the objects selected.
pub proof fn law_value_is_sum_of_selected(lim: Limit, objs: Seq<Object>)
    requires
        input_ok(lim, objs),
    ensures
        solution(lim, objs).value == value_sum(objs, solution(lim, objs).selected),
        forall|p: int| 0 <= p < solution(lim, objs).selected.len() ==> #[trigger] solution(lim, objs).selected[p] < objs.len(),
{
    lemma_solution_sound(lim, objs);
}

/// The objects of `g` with a position below `n`, each once.
pub open spec fn distinct_objects(g: Seq<isize>, n: nat) -> Set<usize> {
    Set::new(|j: usize| j < n && occupies(g, j as int))
}

proof fn lemma_present_objects(g: Seq<isize>, n: nat)
    requires
        n <= usize::MAX,
    ensures
        forall|a: int, b: int| 0 <= a < b < present_objects(g, n).len() ==> #[trigger] present_objects(g, n)[a] < #[trigger] present_objects(g, n)[b],
        forall|k: int| 0 <= k < present_objects(g, n).len() ==> #[trigger] present_objects(g, n)[k] < n,
        present_objects(g, n).to_set() == distinct_objects(g, n),
    decreases n,
{
    if n > 0 {
        lemma_present_objects(g, (n - 1) as nat);
        let prev = present_objects(g, (n - 1) as nat);
        let cur = present_objects(g, n);
        assert forall|k: int| 0 <= k < cur.len() implies #[trigger] cur[k] < n by {
            if k < prev.len() {
                assert(cur[k] == prev[k]);
            }
        }
        assert forall|a: int, b: int| 0 <= a < b < cur.len() implies #[trigger] cur[a] < #[trigger] cur[b] by {
            assert(cur[a] == prev[a]);
            if b < prev.len() {
                assert(cur[b] == prev[b]);
            }
        }
        assert forall|j: usize| cur.to_set().contains(j) <==> distinct_objects(g, n).contains(j) by {
            if cur.to_set().contains(j) {
                let k = choose|k: int| 0 <= k < cur.len() && cur[k] == j;
                if k < prev.len() {
                    assert(cur[k] == prev[k]);
                    assert(prev.to_set().contains(j));
                }
            }
            if distinct_objects(g, n).contains(j) {
                if j < n - 1 {
                    assert(distinct_objects(g, (n - 1) as nat).contains(j));
                    assert(prev.to_set().contains(j));
                    let k = choose|k: int| 0 <= k < prev.len() && prev[k] == j;
                    assert(cur[k] == j);
                } else {
                    assert(cur[prev.len() as int] == j);
                }
            }
        }
        assert(cur.to_set() =~= distinct_objects(g, n));
    } else {
        assert(present_objects(g, n).to_set() =~= distinct_objects(g, n));
    }
}

/// The list of names has one entry for each distinct object in the grid.
pub proof fn law_names_count(lim: Limit, objs: Seq<Object>)
    requires
        input_ok(lim, objs),
    ensures
        present_objects(solution(lim, objs).grid, objs.len()).len()
            == distinct_objects(solution(lim, objs).grid, objs.len()).len(),
{
    let g = solution(lim, objs).grid;
    let list = present_objects(g, objs.len());
    lemma_present_objects(g, objs.len());
    assert(list.no_duplicates()) by {
        assert forall|a: int, b: int| 0 <= a < list.len() && 0 <= b < list.len() && a != b implies list[a] != list[b] by {
            if a < b {
                assert(list[a] < list[b]);
            } else {
                assert(list[b] < list[a]);
            }
        }
    }
    list.unique_seq_to_set();
}

/// With no objects the best value is zero, no name is listed and every cell
/// of the grid is empty.
pub proof fn law_no_objects(lim: Limit)
    requires
        input_ok(lim, Seq::<Object>::empty()),
    ensures
        solution(lim, Seq::<Object>::empty()).value == 0,
        solution(lim, Seq::<Object>::empty()).selected.len() == 0,
        present_objects(solution(lim, Seq::<Object>::empty()).grid, 0).len() == 0,
        solution(lim, Seq::<Object>::empty()).grid.len() == capacity(lim),
        forall|i: int| 0 <= i < capacity(lim) ==> #[trigger] solution(lim, Seq::<Object>::empty()).grid[i] == EMPTY,
{
    let objs = Seq::<Object>::empty();
    lemma_candidate_order(lim, objs);
    let ord = candidate_order(lim, objs);
    if ord.len() > 0 {
        assert(ord[0] < objs.len());
    }
    assert(ord.skip(0) =~= Seq::<usize>::empty());
}

/// The number of non-empty cells of the returned grid is the sum of the
/// volumes of the objects selected: no cell of one object is shared with or
/// overwritten by another.
pub proof fn law_cells_are_selected_volumes(lim: Limit, objs: Seq<Object>)
    requires
        input_ok(lim, objs),
    ensures
        occupied(solution(lim, objs).grid) == volume_sum(objs, solution(lim, objs).selected),
{
    lemma_solution_sound(lim, objs);
}

/// The objects selected are listed in the order in which the search takes
/// the candidates: higher value first and, among equal values, input order.
pub proof fn law_selection_in_candidate_order(lim: Limit, objs: Seq<Object>)
    requires
        input_ok(lim, objs),
    ensures
        ranked(objs, solution(lim, objs).selected),
{
    lemma_solution_sound(lim, objs);
}

} // verus!
