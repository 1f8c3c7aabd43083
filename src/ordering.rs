//! Which objects take part in the search, in which order, and the bounds
//! computed from that order before the search starts.

use vstd::prelude::*;

use crate::geometry::{capacity, limit_wf};
use crate::{Limit, Object};

verus! {

/// Every extent of `o` is at most the matching extent of the container.
pub open spec fn fits(lim: Limit, o: Object) -> bool {
    o.x <= lim.x && o.y <= lim.y && o.z <= lim.z
}

/// The object at input position `j` is searched before the one at `k`:
/// it has a higher value, or the same value and comes earlier in the input.
pub open spec fn ranks_before(objs: Seq<Object>, j: int, k: int) -> bool {
    objs[j].value > objs[k].value || (objs[j].value == objs[k].value && j < k)
}

/// `ord` lists input positions in strictly increasing rank.
pub open spec fn ranked(objs: Seq<Object>, ord: Seq<usize>) -> bool {
    forall|p: int, q: int| 0 <= p < q < ord.len() ==> ranks_before(objs, #[trigger] ord[p] as int, #[trigger] ord[q] as int)
}

/// `ord` holds exactly the positions of the objects that fit the container,
/// each once, highest value first and, among equal values, in input order.
pub open spec fn is_candidate_order(lim: Limit, objs: Seq<Object>, ord: Seq<usize>) -> bool {
    &&& ranked(objs, ord)
    &&& forall|p: int| 0 <= p < ord.len() ==> #[trigger] ord[p] < objs.len() && fits(lim, objs[ord[p] as int])
    &&& forall|j: int| 0 <= j < objs.len() && fits(lim, #[trigger] objs[j]) ==> ord.contains(j as usize)
}

/// The order in which the search takes the candidates.
pub open spec fn candidate_order(lim: Limit, objs: Seq<Object>) -> Seq<usize> {
    choose|ord: Seq<usize>| is_candidate_order(lim, objs, ord)
}

/// Sum of the values of the objects at the positions listed in `ord`.
pub open spec fn value_sum(objs: Seq<Object>, ord: Seq<usize>) -> nat
    decreases ord.len(),
{
    if ord.len() == 0 {
        0
    } else {
        objs[ord[0] as int].value as nat + value_sum(objs, ord.skip(1))
    }
}

/// Sum of the volumes of the objects at the positions listed in `ord`.
pub open spec fn volume_sum(objs: Seq<Object>, ord: Seq<usize>) -> int
    decreases ord.len(),
{
    if ord.len() == 0 {
        0
    } else {
        volume(objs[ord[0] as int]) + volume_sum(objs, ord.skip(1))
    }
}

/// Sum of the values of the objects that fit the container.
pub open spec fn fitting_value(lim: Limit, objs: Seq<Object>) -> nat
    decreases objs.len(),
{
    if objs.len() == 0 {
        0
    } else {
        fitting_value(lim, objs.drop_last()) + if fits(lim, objs.last()) { objs.last().value as nat } else { 0 }
    }
}

/// Number of unit cells of an object.
pub open spec fn volume(o: Object) -> int {
    o.x * o.y * o.z
}

/// Two lists, each strictly increasing in rank, that hold the same
/// positions are the same list.
pub proof fn lemma_ranked_unique(objs: Seq<Object>, a: Seq<usize>, b: Seq<usize>)
    requires
        ranked(objs, a),
        ranked(objs, b),
        forall|x: usize| a.contains(x) <==> b.contains(x),
    ensures
        a == b,
    decreases a.len() + b.len(),
{
    if a.len() == 0 || b.len() == 0 {
        if a.len() > 0 {
            assert(a.contains(a[0]));
        }
        if b.len() > 0 {
            assert(b.contains(b[0]));
        }
        assert(a =~= b);
    } else {
        assert(a.contains(a[0]));
        assert(b.contains(b[0]));
        let q = choose|q: int| 0 <= q < b.len() && b[q] == a[0];
        let p = choose|p: int| 0 <= p < a.len() && a[p] == b[0];
        if q > 0 {
            assert(ranks_before(objs, b[0] as int, b[q] as int));
            if p > 0 {
                assert(ranks_before(objs, a[0] as int, a[p] as int));
            }
        }
        assert(a[0] == b[0]);
        let a1 = a.skip(1);
        let b1 = b.skip(1);
        assert forall|x: usize| a1.contains(x) implies b1.contains(x) by {
            let i = choose|i: int| 0 <= i < a1.len() && a1[i] == x;
            assert(a[i + 1] == x);
            assert(ranks_before(objs, a[0] as int, a[i + 1] as int));
            assert(b.contains(x));
            let j = choose|j: int| 0 <= j < b.len() && b[j] == x;
            assert(j != 0);
            assert(b1[j - 1] == x);
        }
        assert forall|x: usize| b1.contains(x) implies a1.contains(x) by {
            let i = choose|i: int| 0 <= i < b1.len() && b1[i] == x;
            assert(b[i + 1] == x);
            assert(ranks_before(objs, b[0] as int, b[i + 1] as int));
            assert(a.contains(x));
            let j = choose|j: int| 0 <= j < a.len() && a[j] == x;
            assert(j != 0);
            assert(a1[j - 1] == x);
        }
        assert(ranked(objs, a1));
        assert(ranked(objs, b1));
        lemma_ranked_unique(objs, a1, b1);
        assert(a =~= seq![a[0]] + a1);
        assert(b =~= seq![b[0]] + b1);
    }
}

/// Inserting a position adds its value to the sum.
pub proof fn lemma_value_sum_insert(objs: Seq<Object>, s: Seq<usize>, p: int, e: usize)
    requires
        0 <= p <= s.len(),
    ensures
        value_sum(objs, s.insert(p, e)) == value_sum(objs, s) + objs[e as int].value,
    decreases p,
{
    if p == 0 {
        assert(s.insert(p, e).skip(1) =~= s);
    } else {
        assert(s.insert(p, e).skip(1) =~= s.skip(1).insert(p - 1, e));
        lemma_value_sum_insert(objs, s.skip(1), p - 1, e);
    }
}

/// The positions of the objects that fit the container, highest value
/// first and, among equal values, in input order.
pub fn order_candidates(lim: &Limit, objects: &Vec<Object>) -> (r: Vec<usize>)
    ensures
        is_candidate_order(*lim, objects@, r@),
        r@ == candidate_order(*lim, objects@),
        value_sum(objects@, r@) == fitting_value(*lim, objects@),
        r.len() <= objects.len(),
{
    let ghost objs = objects@;
    let mut order: Vec<usize> = Vec::new();
    let mut i: usize = 0;
    while i < objects.len()
        invariant
            objs == objects@,
            0 <= i <= objs.len(),
            order.len() <= i,
            ranked(objs, order@),
            forall|p: int| 0 <= p < order.len() ==> #[trigger] order@[p] < i && fits(*lim, objs[order@[p] as int]),
            forall|j: int| 0 <= j < i && fits(*lim, #[trigger] objs[j]) ==> order@.contains(j as usize),
            value_sum(objs, order@) == fitting_value(*lim, objs.take(i as int)),
        decreases objs.len() - i,
    {
        assert(objs.take(i + 1).drop_last() =~= objs.take(i as int));
        let o = &objects[i];
        if o.x <= lim.x && o.y <= lim.y && o.z <= lim.z {
            let v = o.value;
            let mut p: usize = 0;
            while p < order.len() && objects[order[p]].value >= v
                invariant
                    objs == objects@,
                    i < objs.len(),
                    v == objs[i as int].value,
                    0 <= p <= order.len(),
                    forall|q: int| 0 <= q < order.len() ==> #[trigger] order@[q] < i,
                    forall|q: int| 0 <= q < p ==> objs[#[trigger] order@[q] as int].value >= v,
                decreases order.len() - p,
            {
                p = p + 1;
            }
            let ghost old_order = order@;
            proof {
                lemma_value_sum_insert(objs, old_order, p as int, i);
            }
            order.insert(p, i);
            assert forall|a: int, b: int| 0 <= a < b < order.len() implies ranks_before(objs, #[trigger] order@[a] as int, #[trigger] order@[b] as int) by {
                if b < p {
                    assert(ranks_before(objs, old_order[a] as int, old_order[b] as int));
                } else if b == p {
                } else if a < p {
                    assert(ranks_before(objs, old_order[a] as int, old_order[b - 1] as int));
                } else if a == p {
                    assert(b - 1 == p || ranks_before(objs, old_order[p as int] as int, old_order[b - 1] as int));
                } else {
                    assert(ranks_before(objs, old_order[a - 1] as int, old_order[b - 1] as int));
                }
            }
            assert forall|j: int| 0 <= j < i + 1 && fits(*lim, #[trigger] objs[j]) implies order@.contains(j as usize) by {
                if j < i {
                    assert(old_order.contains(j as usize));
                    let q = choose|q: int| 0 <= q < old_order.len() && old_order[q] == j as usize;
                    if q < p {
                        assert(order@[q] == j as usize);
                    } else {
                        assert(order@[q + 1] == j as usize);
                    }
                } else {
                    assert(order@[p as int] == i);
                }
            }
        } else {
            assert forall|j: int| 0 <= j < i + 1 && fits(*lim, #[trigger] objs[j]) implies order@.contains(j as usize) by {
            }
        }
        i = i + 1;
    }
    assert(objs.take(i as int) =~= objs);
    proof {
        assert(is_candidate_order(*lim, objs, order@));
        let c = candidate_order(*lim, objs);
        assert(is_candidate_order(*lim, objs, c));
        assert forall|x: usize| order@.contains(x) <==> c.contains(x) by {
            if order@.contains(x) {
                let q = choose|q: int| 0 <= q < order.len() && order@[q] == x;
                assert(fits(*lim, objs[x as int]));
            }
            if c.contains(x) {
                let q = choose|q: int| 0 <= q < c.len() && c[q] == x;
                assert(fits(*lim, objs[x as int]));
            }
        }
        lemma_ranked_unique(objs, order@, c);
    }
    order
}

/// Appending a position adds its volume to the sum of volumes.
pub proof fn lemma_volume_sum_push(objs: Seq<Object>, s: Seq<usize>, e: usize)
    ensures
        volume_sum(objs, s.push(e)) == volume_sum(objs, s) + volume(objs[e as int]),
    decreases s.len(),
{
    if s.len() == 0 {
        assert(s.push(e).skip(1) =~= s);
    } else {
        assert(s.push(e).skip(1) =~= s.skip(1).push(e));
        lemma_volume_sum_push(objs, s.skip(1), e);
    }
}

/// One step of the sum over a tail of the list.
pub proof fn lemma_value_sum_step(objs: Seq<Object>, s: Seq<usize>, p: int)
    requires
        0 <= p < s.len(),
    ensures
        value_sum(objs, s.skip(p)) == objs[s[p] as int].value + value_sum(objs, s.skip(p + 1)),
{
    assert(s.skip(p).skip(1) =~= s.skip(p + 1));
}

/// The sum over a tail of the list is at most the sum over the whole list.
proof fn lemma_value_sum_tail(objs: Seq<Object>, s: Seq<usize>, p: int)
    requires
        0 <= p <= s.len(),
    ensures
        value_sum(objs, s.skip(p)) <= value_sum(objs, s),
    decreases p,
{
    if p == 0 {
        assert(s.skip(0) =~= s);
    } else {
        lemma_value_sum_step(objs, s, p - 1);
        lemma_value_sum_tail(objs, s, p - 1);
    }
}

/// For each position of the order, the sum of the values from that position
/// on; the last entry, past the end of the order, is zero.
pub fn suffix_values(objects: &Vec<Object>, order: &Vec<usize>) -> (r: Vec<usize>)
    requires
        forall|p: int| 0 <= p < order.len() ==> #[trigger] order@[p] < objects.len(),
        value_sum(objects@, order@) <= usize::MAX,
        order.len() < usize::MAX,
    ensures
        r.len() == order.len() + 1,
        forall|p: int| 0 <= p <= order.len() ==> #[trigger] r@[p] == value_sum(objects@, order@.skip(p)),
{
    let m = order.len();
    let mut r: Vec<usize> = vec![0; m + 1];
    let mut pos: usize = m;
    assert(order@.skip(m as int) =~= Seq::<usize>::empty());
    while pos > 0
        invariant
            forall|p: int| 0 <= p < order.len() ==> #[trigger] order@[p] < objects.len(),
            value_sum(objects@, order@) <= usize::MAX,
            m == order.len(),
            r.len() == m + 1,
            0 <= pos <= m,
            forall|p: int| pos <= p <= m ==> #[trigger] r@[p] == value_sum(objects@, order@.skip(p)),
        decreases pos,
    {
        pos = pos - 1;
        proof {
            lemma_value_sum_step(objects@, order@, pos as int);
            lemma_value_sum_tail(objects@, order@, pos as int);
        }
        let v = r[pos + 1] + objects[order[pos]].value;
        r.set(pos, v);
    }
    r
}

/// For each position of the order, the volume of the object there.
pub fn candidate_volumes(lim: &Limit, objects: &Vec<Object>, order: &Vec<usize>) -> (r: Vec<usize>)
    requires
        limit_wf(*lim),
        capacity(*lim) <= usize::MAX,
        forall|p: int| 0 <= p < order.len() ==> #[trigger] order@[p] < objects.len() && fits(*lim, objects@[order@[p] as int]),
    ensures
        r.len() == order.len(),
        forall|p: int| 0 <= p < order.len() ==> #[trigger] r@[p] == volume(objects@[order@[p] as int]),
        forall|p: int| 0 <= p < order.len() ==> #[trigger] r@[p] <= capacity(*lim),
{
    let mut r: Vec<usize> = Vec::new();
    let mut p: usize = 0;
    while p < order.len()
        invariant
            limit_wf(*lim),
            capacity(*lim) <= usize::MAX,
            forall|q: int| 0 <= q < order.len() ==> #[trigger] order@[q] < objects.len() && fits(*lim, objects@[order@[q] as int]),
            0 <= p <= order.len(),
            r.len() == p,
            forall|q: int| 0 <= q < p ==> #[trigger] r@[q] == volume(objects@[order@[q] as int]),
            forall|q: int| 0 <= q < p ==> #[trigger] r@[q] <= capacity(*lim),
        decreases order.len() - p,
    {
        let o = &objects[order[p]];
        proof {
            let (a, b, c) = (o.x as int, o.y as int, o.z as int);
            let (lx, ly, lz) = (lim.x as int, lim.y as int, lim.z as int);
            assert(a * b <= lx * ly * lz && a * b * c <= lx * ly * lz) by (nonlinear_arith)
                requires 0 <= a <= lx, 0 <= b <= ly, 0 <= c <= lz, lz >= 1;
        }
        r.push(o.x * o.y * o.z);
        p = p + 1;
    }
    r
}

/// Where an object of value `v` goes in `s`: the first place from `p` on
/// whose object has a lower value, or the end.
pub open spec fn first_lower(objs: Seq<Object>, s: Seq<usize>, v: usize, p: int) -> int
    decreases s.len() - p,
{
    if p >= s.len() || objs[s[p] as int].value < v {
        p
    } else {
        first_lower(objs, s, v, p + 1)
    }
}

proof fn lemma_first_lower(objs: Seq<Object>, s: Seq<usize>, v: usize, p: int)
    requires
        0 <= p <= s.len(),
    ensures
        p <= first_lower(objs, s, v, p) <= s.len(),
        forall|q: int| p <= q < first_lower(objs, s, v, p) ==> objs[#[trigger] s[q] as int].value >= v,
        first_lower(objs, s, v, p) < s.len() ==> objs[s[first_lower(objs, s, v, p)] as int].value < v,
    decreases s.len() - p,
{
    if p < s.len() && objs[s[p] as int].value >= v {
        lemma_first_lower(objs, s, v, p + 1);
    }
}

/// A list of the first `n` positions that satisfies the order of the
/// candidates; it shows that the order of the candidates exists.
proof fn lemma_order_prefix(lim: Limit, objs: Seq<Object>, n: int) -> (s: Seq<usize>)
    requires
        0 <= n <= objs.len(),
        objs.len() <= usize::MAX,
    ensures
        ranked(objs, s),
        forall|p: int| 0 <= p < s.len() ==> #[trigger] s[p] < n && fits(lim, objs[s[p] as int]),
        forall|j: int| 0 <= j < n && fits(lim, #[trigger] objs[j]) ==> s.contains(j as usize),
    decreases n,
{
    if n == 0 {
        Seq::empty()
    } else {
        let s0 = lemma_order_prefix(lim, objs, n - 1);
        let i = (n - 1) as usize;
        if fits(lim, objs[n - 1]) {
            let v = objs[n - 1].value;
            let p = first_lower(objs, s0, v, 0);
            lemma_first_lower(objs, s0, v, 0);
            let s = s0.insert(p, i);
            assert forall|a: int, b: int| 0 <= a < b < s.len() implies ranks_before(objs, #[trigger] s[a] as int, #[trigger] s[b] as int) by {
                if b < p {
                    assert(ranks_before(objs, s0[a] as int, s0[b] as int));
                } else if b == p {
                } else if a < p {
                    assert(ranks_before(objs, s0[a] as int, s0[b - 1] as int));
                } else if a == p {
                    assert(b - 1 == p || ranks_before(objs, s0[p] as int, s0[b - 1] as int));
                } else {
                    assert(ranks_before(objs, s0[a - 1] as int, s0[b - 1] as int));
                }
            }
            assert forall|j: int| 0 <= j < n && fits(lim, #[trigger] objs[j]) implies s.contains(j as usize) by {
                if j < n - 1 {
                    assert(s0.contains(j as usize));
                    let q = choose|q: int| 0 <= q < s0.len() && s0[q] == j as usize;
                    if q < p {
                        assert(s[q] == j as usize);
                    } else {
                        assert(s[q + 1] == j as usize);
                    }
                } else {
                    assert(s[p] == i);
                }
            }
            s
        } else {
            assert forall|j: int| 0 <= j < n && fits(lim, #[trigger] objs[j]) implies s0.contains(j as usize) by {
            }
            s0
        }
    }
}

/// The order of the candidates exists, so `candidate_order` meets its
/// description.
pub proof fn lemma_candidate_order(lim: Limit, objs: Seq<Object>)
    requires
        objs.len() <= usize::MAX,
    ensures
        is_candidate_order(lim, objs, candidate_order(lim, objs)),
{
    let s = lemma_order_prefix(lim, objs, objs.len() as int);
    assert(is_candidate_order(lim, objs, s));
}

} // verus!
