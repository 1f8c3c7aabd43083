//! The bound prune, the full-container stop and the volume test change
//! nothing: the search returns what the unpruned exploration returns.

use vstd::prelude::*;

use crate::geometry::{box_empty, box_fits, capacity, cell_index, fill, in_box, lemma_cell_decode, lemma_empty_unoccupied, lemma_occupied_bound, occupied, EMPTY};
use crate::ordering::{candidate_order, lemma_candidate_order, lemma_value_sum_step, value_sum, volume};
use crate::search::{
    empty_grid, explore, explore_origins, extents, first_best, initial_best, input_ok, lemma_place_count, object_wf, search, solution,
    try_origins, Best,
};
use crate::soundness::setting_ok;
use crate::{Limit, Object};

verus! {

/// Where even all the remaining candidates together cannot beat `best`,
/// the exploration leaves it as it is.
proof fn lemma_explore_bounded(lim: Limit, objs: Seq<Object>, ord: Seq<usize>, g: Seq<isize>, sel: Seq<usize>, pos: int, acc: int, best: Best)
    requires
        0 <= pos <= ord.len(),
        acc + value_sum(objs, ord.skip(pos)) <= best.value,
    ensures
        explore(lim, objs, ord, g, sel, pos, acc, best) == best,
    decreases ord.len() - pos, 1int, 0int, 0int, 0int,
{
    if pos < ord.len() {
        lemma_value_sum_step(objs, ord, pos);
        lemma_explore_origins_bounded(lim, objs, ord, g, sel, pos, acc, 0, 0, 0, best);
        lemma_explore_bounded(lim, objs, ord, g, sel, pos + 1, acc, best);
    }
}

proof fn lemma_explore_origins_bounded(
    lim: Limit,
    objs: Seq<Object>,
    ord: Seq<usize>,
    g: Seq<isize>,
    sel: Seq<usize>,
    pos: int,
    acc: int,
    x: int,
    y: int,
    z: int,
    best: Best,
)
    requires
        0 <= pos < ord.len(),
        acc + value_sum(objs, ord.skip(pos)) <= best.value,
    ensures
        explore_origins(lim, objs, ord, g, sel, pos, acc, x, y, z, best) == best,
    decreases ord.len() - pos, 0int, lim.x - objs[ord[pos] as int].x + 1 - x, lim.y - objs[ord[pos] as int].y + 1 - y, lim.z - objs[ord[pos] as int].z + 1 - z,
{
    let k = ord[pos];
    let o = objs[k as int];
    if x >= lim.x - o.x + 1 {
    } else if y >= lim.y - o.y + 1 {
        lemma_explore_origins_bounded(lim, objs, ord, g, sel, pos, acc, x + 1, 0, 0, best);
    } else if z >= lim.z - o.z + 1 {
        lemma_explore_origins_bounded(lim, objs, ord, g, sel, pos, acc, x, y + 1, 0, best);
    } else {
        lemma_value_sum_step(objs, ord, pos);
        let g2 = fill(lim, g, (x, y, z), extents(o), k as isize);
        lemma_explore_bounded(lim, objs, ord, g2, sel.push(k), pos + 1, acc + o.value, best);
        lemma_explore_origins_bounded(lim, objs, ord, g, sel, pos, acc, x, y, z + 1, best);
    }
}

/// Where no box of the candidate's extents is free, its placements change
/// nothing.
proof fn lemma_explore_origins_blocked(
    lim: Limit,
    objs: Seq<Object>,
    ord: Seq<usize>,
    g: Seq<isize>,
    sel: Seq<usize>,
    pos: int,
    acc: int,
    x: int,
    y: int,
    z: int,
    best: Best,
)
    requires
        0 <= pos < ord.len(),
        forall|w: (int, int, int)| !(#[trigger] box_fits(lim, w, extents(objs[ord[pos] as int])) && box_empty(lim, g, w, extents(objs[ord[pos] as int]))),
    ensures
        explore_origins(lim, objs, ord, g, sel, pos, acc, x, y, z, best) == best,
    decreases lim.x - objs[ord[pos] as int].x + 1 - x, lim.y - objs[ord[pos] as int].y + 1 - y, lim.z - objs[ord[pos] as int].z + 1 - z,
{
    let o = objs[ord[pos] as int];
    if x >= lim.x - o.x + 1 {
    } else if y >= lim.y - o.y + 1 {
        lemma_explore_origins_blocked(lim, objs, ord, g, sel, pos, acc, x + 1, 0, 0, best);
    } else if z >= lim.z - o.z + 1 {
        lemma_explore_origins_blocked(lim, objs, ord, g, sel, pos, acc, x, y + 1, 0, best);
    } else {
        assert(!(box_fits(lim, (x, y, z), extents(o)) && box_empty(lim, g, (x, y, z), extents(o))));
        lemma_explore_origins_blocked(lim, objs, ord, g, sel, pos, acc, x, y, z + 1, best);
    }
}

/// In a full grid no candidate can be placed: the exploration only records
/// the current assignment, where it is worth strictly more.
proof fn lemma_explore_full(lim: Limit, objs: Seq<Object>, ord: Seq<usize>, g: Seq<isize>, sel: Seq<usize>, pos: int, acc: int, best: Best)
    requires
        setting_ok(lim, objs, ord),
        0 <= pos <= ord.len(),
        g.len() == capacity(lim),
        forall|i: int| 0 <= i < g.len() ==> #[trigger] g[i] != EMPTY,
    ensures
        explore(lim, objs, ord, g, sel, pos, acc, best) == if acc > best.value {
            Best { value: acc as nat, grid: g, selected: sel }
        } else {
            best
        },
    decreases ord.len() - pos,
{
    if pos < ord.len() {
        let o = objs[ord[pos] as int];
        assert(object_wf(o));
        assert forall|w: (int, int, int)| !(#[trigger] box_fits(lim, w, extents(o)) && box_empty(lim, g, w, extents(o))) by {
            if box_fits(lim, w, extents(o)) {
                lemma_cell_decode(lim, w.0, w.1, w.2);
                let i = cell_index(lim, w.0, w.1, w.2);
                assert(in_box(lim, i, w, extents(o)));
                assert(g[i] != EMPTY);
            }
        }
        lemma_explore_origins_blocked(lim, objs, ord, g, sel, pos, acc, 0, 0, 0, best);
        lemma_explore_full(lim, objs, ord, g, sel, pos + 1, acc, best);
    }
}

/// The search and the unpruned exploration agree from every consistent state.
pub proof fn lemma_search_explore(
    lim: Limit,
    objs: Seq<Object>,
    ord: Seq<usize>,
    g: Seq<isize>,
    used: int,
    sel: Seq<usize>,
    pos: int,
    acc: int,
    best: Best,
)
    requires
        setting_ok(lim, objs, ord),
        0 <= pos <= ord.len(),
        g.len() == capacity(lim),
        used == occupied(g),
    ensures
        search(lim, objs, ord, g, used, sel, pos, acc, best) == explore(lim, objs, ord, g, sel, pos, acc, best),
    decreases ord.len() - pos, 1int, 0int, 0int, 0int,
{
    if acc + value_sum(objs, ord.skip(pos)) <= best.value {
        lemma_explore_bounded(lim, objs, ord, g, sel, pos, acc, best);
    } else if used == capacity(lim) || pos == ord.len() {
        if pos < ord.len() {
            lemma_occupied_bound(g, g.len() as int);
            lemma_explore_full(lim, objs, ord, g, sel, pos, acc, best);
        }
    } else {
        let o = objs[ord[pos] as int];
        let placed = if volume(o) <= capacity(lim) - used {
            lemma_origins_explore(lim, objs, ord, g, used, sel, pos, acc, 0, 0, 0, best);
            try_origins(lim, objs, ord, g, used, sel, pos, acc, 0, 0, 0, best)
        } else {
            assert forall|w: (int, int, int)| !(#[trigger] box_fits(lim, w, extents(o)) && box_empty(lim, g, w, extents(o))) by {
                if box_fits(lim, w, extents(o)) && box_empty(lim, g, w, extents(o)) {
                    lemma_place_count(lim, g, w, o, ord[pos] as isize);
                }
            }
            lemma_explore_origins_blocked(lim, objs, ord, g, sel, pos, acc, 0, 0, 0, best);
            best
        };
        lemma_search_explore(lim, objs, ord, g, used, sel, pos + 1, acc, placed);
    }
}

/// The place branch of the search and of the exploration agree.
pub proof fn lemma_origins_explore(
    lim: Limit,
    objs: Seq<Object>,
    ord: Seq<usize>,
    g: Seq<isize>,
    used: int,
    sel: Seq<usize>,
    pos: int,
    acc: int,
    x: int,
    y: int,
    z: int,
    best: Best,
)
    requires
        setting_ok(lim, objs, ord),
        0 <= pos < ord.len(),
        g.len() == capacity(lim),
        used == occupied(g),
    ensures
        try_origins(lim, objs, ord, g, used, sel, pos, acc, x, y, z, best) == explore_origins(lim, objs, ord, g, sel, pos, acc, x, y, z, best),
    decreases ord.len() - pos, 0int, lim.x - objs[ord[pos] as int].x + 1 - x, lim.y - objs[ord[pos] as int].y + 1 - y, lim.z - objs[ord[pos] as int].z + 1 - z,
{
    let k = ord[pos];
    let o = objs[k as int];
    if x >= lim.x - o.x + 1 {
    } else if y >= lim.y - o.y + 1 {
        lemma_origins_explore(lim, objs, ord, g, used, sel, pos, acc, x + 1, 0, 0, best);
    } else if z >= lim.z - o.z + 1 {
        lemma_origins_explore(lim, objs, ord, g, used, sel, pos, acc, x, y + 1, 0, best);
    } else {
        let e = extents(o);
        let g2 = fill(lim, g, (x, y, z), e, k as isize);
        let after = if box_fits(lim, (x, y, z), e) && box_empty(lim, g, (x, y, z), e) {
            lemma_place_count(lim, g, (x, y, z), o, k as isize);
            lemma_search_explore(lim, objs, ord, g2, used + volume(o), sel.push(k), pos + 1, acc + o.value, best);
            search(lim, objs, ord, g2, used + volume(o), sel.push(k), pos + 1, acc + o.value, best)
        } else {
            best
        };
        lemma_origins_explore(lim, objs, ord, g, used, sel, pos, acc, x, y, z + 1, after);
    }
}

/// A solve returns the first assignment of highest value in the order of the
/// unpruned exploration: candidates by value, then input order; origins in
/// x, then y, then z order; placing before skipping; a later assignment
/// replacing an earlier one only when worth strictly more.
pub proof fn law_solution_is_first_best(lim: Limit, objs: Seq<Object>)
    requires
        input_ok(lim, objs),
    ensures
        solution(lim, objs) == first_best(lim, objs),
{
    lemma_candidate_order(lim, objs);
    let g = empty_grid(lim);
    lemma_empty_unoccupied(g, g.len() as int);
    lemma_search_explore(lim, objs, candidate_order(lim, objs), g, 0, Seq::empty(), 0, 0, initial_best(lim));
}

} // verus!
