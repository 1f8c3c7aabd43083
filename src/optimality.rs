//! The value that a solve returns is the largest that any choice of objects
//! and non-overlapping positions inside the container achieves.

use vstd::prelude::*;

use crate::geometry::{
    box_empty, box_fits, capacity, cell_index, fill, in_box, lemma_cell_decode, 
    lemma_empty_unoccupied, lemma_occupied_bound, occupied, EMPTY,
};
use crate::ordering::{candidate_order, lemma_candidate_order, lemma_value_sum_step, ranked, value_sum, volume};
use crate::search::{
    empty_grid, extents, initial_best, input_ok, lemma_place_count, object_wf, search, solution, try_origins, Best,
};
use crate::soundness::{boxed, holds_box, lemma_solution_sound, setting_ok};
use crate::{Limit, Object};

verus! {

/// The cell `i` lies in the box of placement `a` of `pl`; a placement is
/// an object's input position and the origin of its box.
pub open spec fn placed_at(lim: Limit, objs: Seq<Object>, pl: Seq<(usize, (int, int, int))>, a: int, i: int) -> bool {
    in_box(lim, i, pl[a].1, extents(objs[pl[a].0 as int]))
}

/// `pl` places distinct objects, each inside the container, no two sharing
/// a cell.
pub open spec fn valid_placements(lim: Limit, objs: Seq<Object>, pl: Seq<(usize, (int, int, int))>) -> bool {
    &&& forall|a: int| 0 <= a < pl.len() ==> #[trigger] pl[a].0 < objs.len() && box_fits(lim, pl[a].1, extents(objs[pl[a].0 as int]))
    &&& forall|a: int, b: int| 0 <= a < pl.len() && 0 <= b < pl.len() && a != b ==> #[trigger] pl[a].0 != #[trigger] pl[b].0
    &&& forall|a: int, b: int, i: int| 0 <= a < pl.len() && 0 <= b < pl.len() && a != b && 0 <= i < capacity(lim) ==>
        !(#[trigger] placed_at(lim, objs, pl, a, i) && #[trigger] placed_at(lim, objs, pl, b, i))
}

/// Sum of the values of the objects placed by `pl`.
pub open spec fn placements_value(objs: Seq<Object>, pl: Seq<(usize, (int, int, int))>) -> nat
    decreases pl.len(),
{
    if pl.len() == 0 {
        0
    } else {
        objs[pl[0].0 as int].value as nat + placements_value(objs, pl.skip(1))
    }
}

/// Object `j` is a candidate at or after position `pos` of the order.
pub open spec fn listed_from(ord: Seq<usize>, pos: int, j: usize) -> bool {
    exists|q: int| pos <= q < ord.len() && ord[q] == j
}

/// `rest` is a way to go on from the state: valid placements of candidates
/// from `pos` on, into cells that are still empty in `g`.
pub open spec fn completes(lim: Limit, objs: Seq<Object>, ord: Seq<usize>, g: Seq<isize>, pos: int, rest: Seq<(usize, (int, int, int))>) -> bool {
    &&& valid_placements(lim, objs, rest)
    &&& forall|a: int| 0 <= a < rest.len() ==> listed_from(ord, pos, #[trigger] rest[a].0)
    &&& forall|a: int| 0 <= a < rest.len() ==> box_empty(lim, g, #[trigger] rest[a].1, extents(objs[rest[a].0 as int]))
}

/// `w` is at or after `(x, y, z)` in the order in which origins are tried.
pub open spec fn not_before(w: (int, int, int), x: int, y: int, z: int) -> bool {
    ||| w.0 > x
    ||| w.0 == x && w.1 > y
    ||| w.0 == x && w.1 == y && w.2 >= z
}

proof fn lemma_value_remove(objs: Seq<Object>, pl: Seq<(usize, (int, int, int))>, a: int)
    requires
        0 <= a < pl.len(),
    ensures
        placements_value(objs, pl) == objs[pl[a].0 as int].value + placements_value(objs, pl.remove(a)),
    decreases a,
{
    if a == 0 {
        assert(pl.remove(0) =~= pl.skip(1));
    } else {
        lemma_value_remove(objs, pl.skip(1), a - 1);
        assert(pl.remove(a).skip(1) =~= pl.skip(1).remove(a - 1));
    }
}

/// Removing one placement keeps the others valid.
proof fn lemma_valid_remove(lim: Limit, objs: Seq<Object>, pl: Seq<(usize, (int, int, int))>, a: int)
    requires
        valid_placements(lim, objs, pl),
        0 <= a < pl.len(),
    ensures
        valid_placements(lim, objs, pl.remove(a)),
        forall|b: int| 0 <= b < pl.remove(a).len() ==> #[trigger] pl.remove(a)[b] == pl[if b < a { b } else { b + 1 }],
{
    let r = pl.remove(a);
    assert forall|b: int| 0 <= b < r.len() implies #[trigger] r[b] == pl[if b < a { b } else { b + 1 }] by {}
    assert forall|b: int, c: int| 0 <= b < r.len() && 0 <= c < r.len() && b != c implies #[trigger] r[b].0 != #[trigger] r[c].0 by {
        let bb = if b < a { b } else { b + 1 };
        let cc = if c < a { c } else { c + 1 };
        assert(pl[bb].0 != pl[cc].0);
    }
    assert forall|b: int, c: int, i: int| 0 <= b < r.len() && 0 <= c < r.len() && b != c && 0 <= i < capacity(lim) implies
        !(#[trigger] placed_at(lim, objs, r, b, i) && #[trigger] placed_at(lim, objs, r, c, i)) by {
        let bb = if b < a { b } else { b + 1 };
        let cc = if c < a { c } else { c + 1 };
        assert(!(placed_at(lim, objs, pl, bb, i) && placed_at(lim, objs, pl, cc, i)));
    }
}

/// The value of placements of distinct candidates from `q` on is at most
/// the sum of the values of all candidates from `q` on.
proof fn lemma_rest_bound(objs: Seq<Object>, ord: Seq<usize>, q: int, rest: Seq<(usize, (int, int, int))>)
    requires
        ranked(objs, ord),
        0 <= q <= ord.len(),
        forall|a: int, b: int| 0 <= a < rest.len() && 0 <= b < rest.len() && a != b ==> #[trigger] rest[a].0 != #[trigger] rest[b].0,
        forall|a: int| 0 <= a < rest.len() ==> listed_from(ord, q, #[trigger] rest[a].0),
    ensures
        placements_value(objs, rest) <= value_sum(objs, ord.skip(q)),
    decreases ord.len() - q, rest.len(),
{
    if q == ord.len() {
        if rest.len() > 0 {
            assert(listed_from(ord, q, rest[0].0));
        }
    } else {
        lemma_value_sum_step(objs, ord, q);
        if exists|a: int| 0 <= a < rest.len() && rest[a].0 == ord[q] {
            let a = choose|a: int| 0 <= a < rest.len() && rest[a].0 == ord[q];
            let r = rest.remove(a);
            lemma_value_remove(objs, rest, a);
            assert forall|b: int| 0 <= b < r.len() implies #[trigger] r[b] == rest[if b < a { b } else { b + 1 }] by {}
            assert forall|b: int, c: int| 0 <= b < r.len() && 0 <= c < r.len() && b != c implies #[trigger] r[b].0 != #[trigger] r[c].0 by {
                let bb = if b < a { b } else { b + 1 };
                let cc = if c < a { c } else { c + 1 };
                assert(rest[bb].0 != rest[cc].0);
            }
            assert forall|b: int| 0 <= b < r.len() implies listed_from(ord, q + 1, #[trigger] r[b].0) by {
                let bb = if b < a { b } else { b + 1 };
                assert(listed_from(ord, q, rest[bb].0));
                let p = choose|p: int| q <= p < ord.len() && ord[p] == rest[bb].0;
                assert(rest[bb].0 != rest[a].0);
                assert(r[b].0 == ord[p]);
            }
            lemma_rest_bound(objs, ord, q + 1, r);
        } else {
            assert forall|b: int| 0 <= b < rest.len() implies listed_from(ord, q + 1, #[trigger] rest[b].0) by {
                assert(listed_from(ord, q, rest[b].0));
                let p = choose|p: int| q <= p < ord.len() && ord[p] == rest[b].0;
                assert(p != q);
            }
            lemma_rest_bound(objs, ord, q + 1, rest);
        }
    }
}

/// Where no placement of `rest` is of the candidate at `pos`, `rest` goes on
/// from the next candidate as well.
proof fn lemma_completes_skip(lim: Limit, objs: Seq<Object>, ord: Seq<usize>, g: Seq<isize>, pos: int, rest: Seq<(usize, (int, int, int))>)
    requires
        completes(lim, objs, ord, g, pos, rest),
        0 <= pos < ord.len(),
        forall|a: int| 0 <= a < rest.len() ==> #[trigger] rest[a].0 != ord[pos],
    ensures
        completes(lim, objs, ord, g, pos + 1, rest),
{
    assert forall|a: int| 0 <= a < rest.len() implies listed_from(ord, pos + 1, #[trigger] rest[a].0) by {
        assert(listed_from(ord, pos, rest[a].0));
        let q = choose|q: int| pos <= q < ord.len() && ord[q] == rest[a].0;
        assert(q != pos);
    }
}

/// Taking placement `a` of `rest`, which is of the candidate at `pos`, the
/// other placements go on from the state after it.
proof fn lemma_completes_take(lim: Limit, objs: Seq<Object>, ord: Seq<usize>, g: Seq<isize>, pos: int, rest: Seq<(usize, (int, int, int))>, a: int)
    requires
        completes(lim, objs, ord, g, pos, rest),
        g.len() == capacity(lim),
        0 <= pos < ord.len(),
        0 <= a < rest.len(),
        rest[a].0 == ord[pos],
    ensures
        completes(
            lim,
            objs,
            ord,
            fill(lim, g, rest[a].1, extents(objs[ord[pos] as int]), ord[pos] as isize),
            pos + 1,
            rest.remove(a),
        ),
        placements_value(objs, rest) == objs[ord[pos] as int].value + placements_value(objs, rest.remove(a)),
{
    let k = ord[pos];
    let w = rest[a].1;
    let g2 = fill(lim, g, w, extents(objs[k as int]), k as isize);
    let r = rest.remove(a);
    lemma_valid_remove(lim, objs, rest, a);
    lemma_value_remove(objs, rest, a);
    assert forall|b: int| 0 <= b < r.len() implies listed_from(ord, pos + 1, #[trigger] r[b].0) by {
        let bb = if b < a { b } else { b + 1 };
        assert(listed_from(ord, pos, rest[bb].0));
        let q = choose|q: int| pos <= q < ord.len() && ord[q] == rest[bb].0;
        assert(rest[bb].0 != rest[a].0);
        assert(r[b].0 == ord[q]);
    }
    assert forall|b: int| 0 <= b < r.len() implies box_empty(lim, g2, #[trigger] r[b].1, extents(objs[r[b].0 as int])) by {
        let bb = if b < a { b } else { b + 1 };
        assert(r[b] == rest[bb]);
        assert(box_empty(lim, g, rest[bb].1, extents(objs[rest[bb].0 as int])));
        assert forall|i: int| 0 <= i < g2.len() && in_box(lim, i, r[b].1, extents(objs[r[b].0 as int])) implies g2[i] == EMPTY by {
            assert(placed_at(lim, objs, rest, bb, i));
            assert(!(placed_at(lim, objs, rest, a, i) && placed_at(lim, objs, rest, bb, i)));
        }
    }
}

/// The search never ends below the best value it was given, and it ends at
/// least at the value of any way to go on from its state.
pub proof fn lemma_search_optimal(
    lim: Limit,
    objs: Seq<Object>,
    ord: Seq<usize>,
    g: Seq<isize>,
    used: int,
    sel: Seq<usize>,
    pos: int,
    acc: int,
    best: Best,
    rest: Seq<(usize, (int, int, int))>,
)
    requires
        setting_ok(lim, objs, ord),
        0 <= pos <= ord.len(),
        0 <= acc,
        g.len() == capacity(lim),
        used == occupied(g),
        completes(lim, objs, ord, g, pos, rest),
    ensures
        search(lim, objs, ord, g, used, sel, pos, acc, best).value >= best.value,
        search(lim, objs, ord, g, used, sel, pos, acc, best).value >= acc + placements_value(objs, rest),
    decreases ord.len() - pos, 1int, 0int, 0int, 0int,
{
    if acc + value_sum(objs, ord.skip(pos)) <= best.value {
        lemma_rest_bound(objs, ord, pos, rest);
    } else if used == capacity(lim) || pos == ord.len() {
        if rest.len() > 0 {
            assert(listed_from(ord, pos, rest[0].0));
            let w = rest[0].1;
            let o = objs[rest[0].0 as int];
            assert(object_wf(o));
            lemma_cell_decode(lim, w.0, w.1, w.2);
            let i = cell_index(lim, w.0, w.1, w.2);
            assert(in_box(lim, i, w, extents(o)));
            lemma_occupied_bound(g, g.len() as int);
            assert(g[i] == EMPTY);
        }
    } else {
        let k = ord[pos];
        let o = objs[k as int];
        let ghost empty_rest = Seq::<(usize, (int, int, int))>::empty();
        if exists|a: int| 0 <= a < rest.len() && rest[a].0 == k {
            let a = choose|a: int| 0 <= a < rest.len() && rest[a].0 == k;
            let w = rest[a].1;
            assert(box_empty(lim, g, w, extents(o)));
            lemma_place_count(lim, g, w, o, k as isize);
            lemma_origins_optimal(lim, objs, ord, g, used, sel, pos, acc, 0, 0, 0, best, rest);
            let placed = try_origins(lim, objs, ord, g, used, sel, pos, acc, 0, 0, 0, best);
            assert(placed.value >= acc + placements_value(objs, rest));
            lemma_search_optimal(lim, objs, ord, g, used, sel, pos + 1, acc, placed, empty_rest);
        } else {
            let placed = if volume(o) <= capacity(lim) - used {
                lemma_origins_optimal(lim, objs, ord, g, used, sel, pos, acc, 0, 0, 0, best, empty_rest);
                try_origins(lim, objs, ord, g, used, sel, pos, acc, 0, 0, 0, best)
            } else {
                best
            };
            lemma_completes_skip(lim, objs, ord, g, pos, rest);
            lemma_search_optimal(lim, objs, ord, g, used, sel, pos + 1, acc, placed, rest);
        }
    }
}

/// The place branch never ends below the best value it was given, and where
/// `rest` places the candidate at an origin not yet tried, it ends at least
/// at the value of `rest`.
pub proof fn lemma_origins_optimal(
    lim: Limit,
    objs: Seq<Object>,
    ord: Seq<usize>,
    g: Seq<isize>,
    used: int,
    sel: Seq<usize>,
    pos: int,
    acc: int,
    x: int,
    y: int,
    z: int,
    best: Best,
    rest: Seq<(usize, (int, int, int))>,
)
    requires
        setting_ok(lim, objs, ord),
        0 <= pos < ord.len(),
        0 <= acc,
        g.len() == capacity(lim),
        used == occupied(g),
        completes(lim, objs, ord, g, pos, rest),
    ensures
        try_origins(lim, objs, ord, g, used, sel, pos, acc, x, y, z, best).value >= best.value,
        forall|a: int| 0 <= a < rest.len() && #[trigger] rest[a].0 == ord[pos] && not_before(rest[a].1, x, y, z) ==>
            try_origins(lim, objs, ord, g, used, sel, pos, acc, x, y, z, best).value >= acc + placements_value(objs, rest),
    decreases ord.len() - pos, 0int, lim.x - objs[ord[pos] as int].x + 1 - x, lim.y - objs[ord[pos] as int].y + 1 - y, lim.z - objs[ord[pos] as int].z + 1 - z,
{
    let k = ord[pos];
    let o = objs[k as int];
    let res = try_origins(lim, objs, ord, g, used, sel, pos, acc, x, y, z, best);
    if x >= lim.x - o.x + 1 {
        assert forall|a: int| 0 <= a < rest.len() && #[trigger] rest[a].0 == ord[pos] && not_before(rest[a].1, x, y, z) implies
            res.value >= acc + placements_value(objs, rest) by {
            assert(box_fits(lim, rest[a].1, extents(objs[rest[a].0 as int])));
        }
    } else if y >= lim.y - o.y + 1 {
        lemma_origins_optimal(lim, objs, ord, g, used, sel, pos, acc, x + 1, 0, 0, best, rest);
        assert forall|a: int| 0 <= a < rest.len() && #[trigger] rest[a].0 == ord[pos] && not_before(rest[a].1, x, y, z) implies
            res.value >= acc + placements_value(objs, rest) by {
            assert(box_fits(lim, rest[a].1, extents(objs[rest[a].0 as int])));
            assert(not_before(rest[a].1, x + 1, 0, 0));
        }
    } else if z >= lim.z - o.z + 1 {
        lemma_origins_optimal(lim, objs, ord, g, used, sel, pos, acc, x, y + 1, 0, best, rest);
        assert forall|a: int| 0 <= a < rest.len() && #[trigger] rest[a].0 == ord[pos] && not_before(rest[a].1, x, y, z) implies
            res.value >= acc + placements_value(objs, rest) by {
            assert(box_fits(lim, rest[a].1, extents(objs[rest[a].0 as int])));
            assert(not_before(rest[a].1, x, y + 1, 0));
        }
    } else {
        let e = extents(o);
        let here = (x, y, z);
        let g2 = fill(lim, g, here, e, k as isize);
        let ghost empty_rest = Seq::<(usize, (int, int, int))>::empty();
        let after = if box_fits(lim, here, e) && box_empty(lim, g, here, e) {
            lemma_place_count(lim, g, here, o, k as isize);
            if exists|a: int| 0 <= a < rest.len() && rest[a].0 == k && rest[a].1 == here {
                let a = choose|a: int| 0 <= a < rest.len() && rest[a].0 == k && rest[a].1 == here;
                lemma_completes_take(lim, objs, ord, g, pos, rest, a);
                lemma_search_optimal(lim, objs, ord, g2, used + volume(o), sel.push(k), pos + 1, acc + o.value, best, rest.remove(a));
            } else {
                lemma_search_optimal(lim, objs, ord, g2, used + volume(o), sel.push(k), pos + 1, acc + o.value, best, empty_rest);
            }
            search(lim, objs, ord, g2, used + volume(o), sel.push(k), pos + 1, acc + o.value, best)
        } else {
            best
        };
        lemma_origins_optimal(lim, objs, ord, g, used, sel, pos, acc, x, y, z + 1, after, rest);
        assert forall|a: int| 0 <= a < rest.len() && #[trigger] rest[a].0 == ord[pos] && not_before(rest[a].1, x, y, z) implies
            res.value >= acc + placements_value(objs, rest) by {
            if rest[a].1 == here {
                assert(box_fits(lim, rest[a].1, extents(objs[rest[a].0 as int])));
                assert(box_empty(lim, g, rest[a].1, extents(objs[rest[a].0 as int])));
            } else {
                assert(not_before(rest[a].1, x, y, z + 1));
            }
        }
    }
}

/// No choice of distinct objects, placed inside the container without
/// sharing a cell, is worth more than the best value returned.
pub proof fn law_best_is_maximum(lim: Limit, objs: Seq<Object>, pl: Seq<(usize, (int, int, int))>)
    requires
        input_ok(lim, objs),
        valid_placements(lim, objs, pl),
    ensures
        placements_value(objs, pl) <= solution(lim, objs).value,
{
    lemma_candidate_order(lim, objs);
    let ord = candidate_order(lim, objs);
    let g = empty_grid(lim);
    lemma_empty_unoccupied(g, g.len() as int);
    assert forall|a: int| 0 <= a < pl.len() implies listed_from(ord, 0, #[trigger] pl[a].0) by {
        let j = pl[a].0;
        assert(box_fits(lim, pl[a].1, extents(objs[j as int])));
        assert(crate::ordering::fits(lim, objs[j as int]));
        assert(ord.contains(j));
    }
    assert(completes(lim, objs, ord, g, 0, pl));
    lemma_search_optimal(lim, objs, ord, g, 0, Seq::empty(), 0, 0, initial_best(lim), pl);
}

proof fn lemma_value_of_selection(objs: Seq<Object>, pl: Seq<(usize, (int, int, int))>, sel: Seq<usize>)
    requires
        pl.len() == sel.len(),
        forall|p: int| 0 <= p < pl.len() ==> #[trigger] pl[p].0 == sel[p],
    ensures
        placements_value(objs, pl) == value_sum(objs, sel),
    decreases pl.len(),
{
    if pl.len() > 0 {
        lemma_value_of_selection(objs, pl.skip(1), sel.skip(1));
    }
}

/// The best value returned is achieved: the objects selected, each at the
/// origin of the box it fills in the returned grid, are valid placements
/// worth exactly that value.
pub proof fn law_best_is_attained(lim: Limit, objs: Seq<Object>)
    requires
        input_ok(lim, objs),
    ensures
        exists|pl: Seq<(usize, (int, int, int))>| {
            &&& valid_placements(lim, objs, pl)
            &&& #[trigger] placements_value(objs, pl) == solution(lim, objs).value
        },
{
    lemma_solution_sound(lim, objs);
    let b = solution(lim, objs);
    let sel = b.selected;
    let g = b.grid;
    let pl = Seq::new(sel.len(), |p: int| (sel[p], choose|w: (int, int, int)| holds_box(lim, g, sel[p], w, extents(objs[sel[p] as int]))));
    assert forall|p: int| 0 <= p < pl.len() implies #[trigger] holds_box(lim, g, pl[p].0, pl[p].1, extents(objs[pl[p].0 as int])) by {
        assert(boxed(lim, objs, g, sel[p]));
    }
    assert forall|a: int, c: int, i: int| 0 <= a < pl.len() && 0 <= c < pl.len() && a != c && 0 <= i < capacity(lim) implies
        !(#[trigger] placed_at(lim, objs, pl, a, i) && #[trigger] placed_at(lim, objs, pl, c, i)) by {
        assert(holds_box(lim, g, pl[a].0, pl[a].1, extents(objs[pl[a].0 as int])));
        assert(holds_box(lim, g, pl[c].0, pl[c].1, extents(objs[pl[c].0 as int])));
        assert(sel[a] != sel[c]);
        assert(sel[a] < objs.len() && sel[c] < objs.len());
        if placed_at(lim, objs, pl, a, i) && placed_at(lim, objs, pl, c, i) {
            assert(g[i] == pl[a].0 as isize);
            assert(g[i] == pl[c].0 as isize);
        }
    }
    assert forall|a: int, c: int| 0 <= a < pl.len() && 0 <= c < pl.len() && a != c implies #[trigger] pl[a].0 != #[trigger] pl[c].0 by {
        assert(sel[a] != sel[c]);
    }
    lemma_value_of_selection(objs, pl, sel);
    assert(valid_placements(lim, objs, pl));
}

} // verus!
