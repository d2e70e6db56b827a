use crate::model::topology::Topology;
use vstd::prelude::*;
use vstd::set_lib::{lemma_int_range, lemma_len_subset, set_int_range};

verus! {

/// Number of vertices that are not in `seen`.
pub open spec fn unseen(t: Topology, seen: Set<int>) -> nat {
    set_int_range(0, t.len() as int).difference(seen).len()
}

/// One more vertex seen is one vertex fewer unseen.
pub proof fn lemma_unseen_insert(t: Topology, seen: Set<int>, w: int)
    requires
        0 <= w < t.len(),
        !seen.contains(w),
    ensures
        unseen(t, seen.insert(w)) < unseen(t, seen),
{
    let all = set_int_range(0, t.len() as int);
    lemma_int_range(0, t.len() as int);
    let before = all.difference(seen);
    let after = all.difference(seen.insert(w));
    lemma_len_subset(before, all);
    assert(after =~= before.remove(w));
    assert(before.contains(w));
}

/// More vertices seen are no more vertices unseen.
pub proof fn lemma_unseen_union(t: Topology, seen: Set<int>, more: Set<int>)
    ensures
        unseen(t, seen.union(more)) <= unseen(t, seen),
{
    let all = set_int_range(0, t.len() as int);
    lemma_int_range(0, t.len() as int);
    let before = all.difference(seen);
    let after = all.difference(seen.union(more));
    lemma_len_subset(before, all);
    assert(after.subset_of(before));
    lemma_len_subset(after, before);
}

/// The depth-first search that has reached `v` and followed its first `e`
/// outgoing edges, continued until it leaves `v`: it follows each further
/// edge of `v` in turn, searching from its target first if that is not
/// seen yet, and then records `v` as finished. Gives the vertices seen and
/// the vertices finished, in the order of finishing.
pub open spec fn finish_from(t: Topology, seen: Set<int>, out: Seq<usize>, v: usize, e: int) -> (
    Set<int>,
    Seq<usize>,
)
    decreases unseen(t, seen), t.succ(v as int).len() - e,
{
    if e < 0 || e >= t.succ(v as int).len() {
        (seen, out.push(v))
    } else {
        let w = t.succ(v as int)[e];
        if seen.contains(w as int) || w >= t.len() {
            finish_from(t, seen, out, v, e + 1)
        } else {
            let inner = seen.insert(w as int);
            proof {
                lemma_unseen_insert(t, seen, w as int);
            }
            let below = finish_from(t, inner, out, w, 0);
            proof {
                lemma_unseen_union(t, inner, below.0);
            }
            finish_from(t, inner.union(below.0), below.1, v, e + 1)
        }
    }
}

/// The depth-first searches that start, in the order of the vertex
/// numbers, at each vertex from `start` on that is not seen by then.
pub open spec fn finish_all(t: Topology, seen: Set<int>, out: Seq<usize>, start: int) -> (
    Set<int>,
    Seq<usize>,
)
    decreases t.len() - start,
{
    if start < 0 || start >= t.len() {
        (seen, out)
    } else if seen.contains(start) {
        finish_all(t, seen, out, start + 1)
    } else {
        let found = finish_from(t, seen.insert(start), out, start as usize, 0);
        finish_all(t, found.0, found.1, start + 1)
    }
}

/// The depth-first search along the incoming edges that has reached `x`
/// and followed its first `e` incoming edges, continued until it leaves
/// `x`: it follows each further edge of `x` in turn, and claims the source
/// and searches from it first if the source is not claimed yet. Gives the
/// vertices claimed, and the members in the order of claiming.
pub open spec fn claim_from(
    t: Topology,
    claimed: Set<int>,
    members: Seq<usize>,
    x: usize,
    e: int,
) -> (Set<int>, Seq<usize>)
    decreases unseen(t, claimed), t.pred(x as int).len() - e,
{
    if e < 0 || e >= t.pred(x as int).len() {
        (claimed, members)
    } else {
        let y = t.pred(x as int)[e];
        if claimed.contains(y as int) || y >= t.len() {
            claim_from(t, claimed, members, x, e + 1)
        } else {
            let inner = claimed.insert(y as int);
            proof {
                lemma_unseen_insert(t, claimed, y as int);
            }
            let above = claim_from(t, inner, members.push(y), y, 0);
            proof {
                lemma_unseen_union(t, inner, above.0);
            }
            claim_from(t, inner.union(above.0), above.1, x, e + 1)
        }
    }
}

/// The components collected from the first `q` vertices of `order`, taken
/// from the last to the first: each vertex that is not claimed by then
/// starts a search along the incoming edges, and what the search claims is
/// a component if the search comes back to its start.
pub open spec fn collect(
    t: Topology,
    order: Seq<usize>,
    claimed: Set<int>,
    comps: Seq<Seq<usize>>,
    q: int,
) -> Seq<Seq<usize>>
    decreases q,
{
    if q <= 0 || q > order.len() {
        comps
    } else {
        let root = order[q - 1];
        if claimed.contains(root as int) {
            collect(t, order, claimed, comps, q - 1)
        } else {
            let found = claim_from(t, claimed, Seq::empty(), root, 0);
            if found.0.contains(root as int) {
                collect(t, order, found.0, comps.push(found.1), q - 1)
            } else {
                collect(t, order, found.0.insert(root as int), comps, q - 1)
            }
        }
    }
}

impl Topology {
    /// The order in which a depth-first search along the outgoing edges
    /// leaves the vertices, when it starts at the vertices in the order of
    /// their numbers and follows the edges in the order of the edge lists.
    pub open spec fn finishing_order(self) -> Seq<usize> {
        finish_all(self, Set::empty(), Seq::empty(), 0).1
    }

    /// The components that searches along the incoming edges collect, when
    /// they start at the vertices from the one finished last to the one
    /// finished first.
    pub open spec fn components_in_search_order(self) -> Seq<Seq<usize>> {
        collect(
            self,
            self.finishing_order(),
            Set::empty(),
            Seq::empty(),
            self.finishing_order().len() as int,
        )
    }
}

/// The vertices that carry the mark `m`.
pub open spec fn marked(marks: Seq<int>, m: int) -> Set<int> {
    Set::new(|v: int| 0 <= v < marks.len() && marks[v] == m)
}

/// A search sees all that was seen before it.
pub proof fn lemma_finish_grows(t: Topology, seen: Set<int>, out: Seq<usize>, v: usize, e: int)
    ensures
        seen.subset_of(finish_from(t, seen, out, v, e).0),
    decreases unseen(t, seen), t.succ(v as int).len() - e,
{
    if e < 0 || e >= t.succ(v as int).len() {
    } else {
        let w = t.succ(v as int)[e];
        if seen.contains(w as int) || w >= t.len() {
            lemma_finish_grows(t, seen, out, v, e + 1);
        } else {
            let inner = seen.insert(w as int);
            lemma_unseen_insert(t, seen, w as int);
            lemma_finish_grows(t, inner, out, w, 0);
            let below = finish_from(t, inner, out, w, 0);
            lemma_unseen_union(t, inner, below.0);
            lemma_finish_grows(t, inner.union(below.0), below.1, v, e + 1);
        }
    }
}

/// A search claims all that was claimed before it.
pub proof fn lemma_claim_grows(
    t: Topology,
    claimed: Set<int>,
    members: Seq<usize>,
    x: usize,
    e: int,
)
    ensures
        claimed.subset_of(claim_from(t, claimed, members, x, e).0),
    decreases unseen(t, claimed), t.pred(x as int).len() - e,
{
    if e < 0 || e >= t.pred(x as int).len() {
    } else {
        let y = t.pred(x as int)[e];
        if claimed.contains(y as int) || y >= t.len() {
            lemma_claim_grows(t, claimed, members, x, e + 1);
        } else {
            let inner = claimed.insert(y as int);
            lemma_unseen_insert(t, claimed, y as int);
            lemma_claim_grows(t, inner, members.push(y), y, 0);
            let above = claim_from(t, inner, members.push(y), y, 0);
            lemma_unseen_union(t, inner, above.0);
            lemma_claim_grows(t, inner.union(above.0), above.1, x, e + 1);
        }
    }
}

/// What the search along the outgoing edges gives once every entry of the
/// stack, from the top down, has continued until it leaves its vertex.
pub open spec fn resume_finish(
    t: Topology,
    seen: Set<int>,
    out: Seq<usize>,
    stack: Seq<(usize, usize)>,
) -> (Set<int>, Seq<usize>)
    decreases stack.len(),
{
    if stack.len() == 0 {
        (seen, out)
    } else {
        let top = finish_from(t, seen, out, stack.last().0, stack.last().1 as int);
        resume_finish(t, top.0, top.1, stack.drop_last())
    }
}

/// What the search along the incoming edges gives once every entry of the
/// stack, from the top down, has continued until it leaves its vertex.
pub open spec fn resume_claim(
    t: Topology,
    claimed: Set<int>,
    members: Seq<usize>,
    stack: Seq<(usize, usize)>,
) -> (Set<int>, Seq<usize>)
    decreases stack.len(),
{
    if stack.len() == 0 {
        (claimed, members)
    } else {
        let top = claim_from(t, claimed, members, stack.last().0, stack.last().1 as int);
        resume_claim(t, top.0, top.1, stack.drop_last())
    }
}

/// With one entry on the stack, resuming is searching from that entry.
pub proof fn lemma_resume_finish_one(
    t: Topology,
    seen: Set<int>,
    out: Seq<usize>,
    v: usize,
    e: usize,
)
    ensures
        resume_finish(t, seen, out, seq![(v, e)]) == finish_from(t, seen, out, v, e as int),
{
    let stack = seq![(v, e)];
    assert(stack.last() == (v, e));
    assert(stack.drop_last() =~= Seq::empty());
    let top = finish_from(t, seen, out, v, e as int);
    assert(resume_finish(t, top.0, top.1, stack.drop_last()) == top);
}

/// Turning from the top entry to the unseen target of its next edge
/// changes nothing in what the search will give.
pub proof fn lemma_resume_finish_descend(
    t: Topology,
    seen: Set<int>,
    out: Seq<usize>,
    rest: Seq<(usize, usize)>,
    v: usize,
    e: usize,
)
    requires
        e < t.succ(v as int).len(),
        e < usize::MAX,
        t.succ(v as int)[e as int] < t.len(),
        !seen.contains(t.succ(v as int)[e as int] as int),
    ensures
        resume_finish(
            t,
            seen.insert(t.succ(v as int)[e as int] as int),
            out,
            rest.push((v, (e + 1) as usize)).push((t.succ(v as int)[e as int], 0)),
        ) == resume_finish(t, seen, out, rest.push((v, e))),
{
    let w = t.succ(v as int)[e as int];
    let inner = seen.insert(w as int);
    let below = finish_from(t, inner, out, w, 0);
    lemma_finish_grows(t, inner, out, w, 0);
    assert(inner.union(below.0) =~= below.0);
    let after = rest.push((v, (e + 1) as usize)).push((w, 0usize));
    assert(after.last() == (w, 0usize));
    assert(after.drop_last() =~= rest.push((v, (e + 1) as usize)));
    let middle = rest.push((v, (e + 1) as usize));
    assert(middle.last() == (v, (e + 1) as usize));
    assert(middle.drop_last() =~= rest);
    let before = rest.push((v, e));
    assert(before.last() == (v, e));
    assert(before.drop_last() =~= rest);
    let next = finish_from(t, below.0, below.1, v, e + 1);
    assert(finish_from(t, seen, out, v, e as int) == next);
    assert(resume_finish(t, inner, out, after) == resume_finish(t, below.0, below.1, middle));
    assert(resume_finish(t, below.0, below.1, middle) == resume_finish(t, next.0, next.1, rest));
    assert(resume_finish(t, seen, out, before) == resume_finish(t, next.0, next.1, rest));
}

/// Passing over an edge to a vertex that was seen changes nothing in what
/// the search will give.
pub proof fn lemma_resume_finish_skip(
    t: Topology,
    seen: Set<int>,
    out: Seq<usize>,
    rest: Seq<(usize, usize)>,
    v: usize,
    e: usize,
)
    requires
        e < t.succ(v as int).len(),
        e < usize::MAX,
        seen.contains(t.succ(v as int)[e as int] as int),
    ensures
        resume_finish(t, seen, out, rest.push((v, (e + 1) as usize))) == resume_finish(
            t,
            seen,
            out,
            rest.push((v, e)),
        ),
{
    let after = rest.push((v, (e + 1) as usize));
    assert(after.last() == (v, (e + 1) as usize));
    assert(after.drop_last() =~= rest);
    let before = rest.push((v, e));
    assert(before.last() == (v, e));
    assert(before.drop_last() =~= rest);
}

/// Leaving the top vertex records it as finished.
pub proof fn lemma_resume_finish_retreat(
    t: Topology,
    seen: Set<int>,
    out: Seq<usize>,
    rest: Seq<(usize, usize)>,
    v: usize,
    e: usize,
)
    requires
        e >= t.succ(v as int).len(),
    ensures
        resume_finish(t, seen, out.push(v), rest) == resume_finish(t, seen, out, rest.push((v, e))),
{
    let before = rest.push((v, e));
    assert(before.last() == (v, e));
    assert(before.drop_last() =~= rest);
}

/// With one entry on the stack, resuming is searching from that entry.
pub proof fn lemma_resume_claim_one(
    t: Topology,
    claimed: Set<int>,
    members: Seq<usize>,
    x: usize,
    e: usize,
)
    ensures
        resume_claim(t, claimed, members, seq![(x, e)]) == claim_from(
            t,
            claimed,
            members,
            x,
            e as int,
        ),
{
    let stack = seq![(x, e)];
    assert(stack.last() == (x, e));
    assert(stack.drop_last() =~= Seq::empty());
    let top = claim_from(t, claimed, members, x, e as int);
    assert(resume_claim(t, top.0, top.1, stack.drop_last()) == top);
}

/// Claiming the source of the next edge of the top entry, and turning to
/// it, changes nothing in what the search will give.
pub proof fn lemma_resume_claim_claim(
    t: Topology,
    claimed: Set<int>,
    members: Seq<usize>,
    rest: Seq<(usize, usize)>,
    x: usize,
    e: usize,
)
    requires
        e < t.pred(x as int).len(),
        e < usize::MAX,
        t.pred(x as int)[e as int] < t.len(),
        !claimed.contains(t.pred(x as int)[e as int] as int),
    ensures
        resume_claim(
            t,
            claimed.insert(t.pred(x as int)[e as int] as int),
            members.push(t.pred(x as int)[e as int]),
            rest.push((x, (e + 1) as usize)).push((t.pred(x as int)[e as int], 0)),
        ) == resume_claim(t, claimed, members, rest.push((x, e))),
{
    let y = t.pred(x as int)[e as int];
    let inner = claimed.insert(y as int);
    let above = claim_from(t, inner, members.push(y), y, 0);
    lemma_claim_grows(t, inner, members.push(y), y, 0);
    assert(inner.union(above.0) =~= above.0);
    let after = rest.push((x, (e + 1) as usize)).push((y, 0usize));
    assert(after.last() == (y, 0usize));
    assert(after.drop_last() =~= rest.push((x, (e + 1) as usize)));
    let middle = rest.push((x, (e + 1) as usize));
    assert(middle.last() == (x, (e + 1) as usize));
    assert(middle.drop_last() =~= rest);
    let before = rest.push((x, e));
    assert(before.last() == (x, e));
    assert(before.drop_last() =~= rest);
    let next = claim_from(t, above.0, above.1, x, e + 1);
    assert(claim_from(t, claimed, members, x, e as int) == next);
    assert(resume_claim(t, inner, members.push(y), after) == resume_claim(
        t,
        above.0,
        above.1,
        middle,
    ));
    assert(resume_claim(t, above.0, above.1, middle) == resume_claim(t, next.0, next.1, rest));
    assert(resume_claim(t, claimed, members, before) == resume_claim(t, next.0, next.1, rest));
}

/// Passing over an edge from a claimed vertex changes nothing in what the
/// search will give.
pub proof fn lemma_resume_claim_pass(
    t: Topology,
    claimed: Set<int>,
    members: Seq<usize>,
    rest: Seq<(usize, usize)>,
    x: usize,
    e: usize,
)
    requires
        e < t.pred(x as int).len(),
        e < usize::MAX,
        claimed.contains(t.pred(x as int)[e as int] as int),
    ensures
        resume_claim(t, claimed, members, rest.push((x, (e + 1) as usize))) == resume_claim(
            t,
            claimed,
            members,
            rest.push((x, e)),
        ),
{
    let after = rest.push((x, (e + 1) as usize));
    assert(after.last() == (x, (e + 1) as usize));
    assert(after.drop_last() =~= rest);
    let before = rest.push((x, e));
    assert(before.last() == (x, e));
    assert(before.drop_last() =~= rest);
}

/// Dropping the top entry once all its edges are followed changes nothing
/// in what the search will give.
pub proof fn lemma_resume_claim_drop(
    t: Topology,
    claimed: Set<int>,
    members: Seq<usize>,
    rest: Seq<(usize, usize)>,
    x: usize,
    e: usize,
)
    requires
        e >= t.pred(x as int).len(),
    ensures
        resume_claim(t, claimed, members, rest) == resume_claim(
            t,
            claimed,
            members,
            rest.push((x, e)),
        ),
{
    let before = rest.push((x, e));
    assert(before.last() == (x, e));
    assert(before.drop_last() =~= rest);
}

} // verus!
