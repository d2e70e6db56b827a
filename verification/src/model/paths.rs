use crate::model::topology::{occurrences, Topology};
use vstd::prelude::*;

verus! {

/// A value occurs in a list exactly when it is counted at least once.
pub proof fn lemma_occurrences_positive(s: Seq<usize>, x: int)
    ensures
        occurrences(s, x) > 0 <==> exists|j: int| 0 <= j < s.len() && #[trigger] s[j] as int == x,
    decreases s.len(),
{
    if s.len() > 0 {
        let front = s.drop_last();
        lemma_occurrences_positive(front, x);
        if occurrences(s, x) > 0 {
            if s.last() as int == x {
                assert(s[s.len() - 1] as int == x);
            } else {
                let j = choose|j: int| 0 <= j < front.len() && #[trigger] front[j] as int == x;
                assert(s[j] as int == x);
            }
        }
        if exists|j: int| 0 <= j < s.len() && #[trigger] s[j] as int == x {
            let j = choose|j: int| 0 <= j < s.len() && #[trigger] s[j] as int == x;
            if j < s.len() - 1 {
                assert(front[j] as int == x);
            }
        }
    }
}

/// Appending one value raises its count by one and leaves the others.
pub proof fn lemma_occurrences_push(s: Seq<usize>, y: usize, x: int)
    ensures
        occurrences(s.push(y), x) == occurrences(s, x) + if y as int == x {
            1nat
        } else {
            0nat
        },
{
    assert(s.push(y).drop_last() =~= s);
}

/// A prefix holds no more copies of a value than the whole list, and one
/// copy fewer than the prefix that is longer by that value.
pub proof fn lemma_occurrences_prefix(s: Seq<usize>, k: int, x: int)
    requires
        0 <= k <= s.len(),
    ensures
        occurrences(s.subrange(0, k), x) <= occurrences(s, x),
        k < s.len() ==> occurrences(s.subrange(0, k + 1), x) == occurrences(s.subrange(0, k), x)
            + if s[k] as int == x {
            1nat
        } else {
            0nat
        },
    decreases s.len() - k,
{
    if k < s.len() {
        assert(s.subrange(0, k + 1) =~= s.subrange(0, k).push(s[k]));
        lemma_occurrences_push(s.subrange(0, k), s[k], x);
        lemma_occurrences_prefix(s, k + 1, x);
    } else {
        assert(s.subrange(0, k) =~= s);
    }
}

impl Topology {
    /// In a well-formed graph an edge shows in the in-list of its target.
    pub proof fn lemma_edge_in_pred(self, u: int, v: int)
        requires
            self.wf(),
            self.has_vertex(u),
            self.has_vertex(v),
        ensures
            self.has_edge(u, v) <==> exists|j: int|
                0 <= j < self.pred(v).len() && #[trigger] self.pred(v)[j] as int == u,
    {
        lemma_occurrences_positive(self.succ(u), v);
        lemma_occurrences_positive(self.pred(v), u);
        assert(occurrences(self.succ(u), v) == occurrences(self.pred(v), u));
    }

    /// The entry at a position of an out-list is an edge.
    pub proof fn lemma_edge_at(self, u: int, e: int)
        requires
            self.wf(),
            self.has_vertex(u),
            0 <= e < self.succ(u).len(),
        ensures
            self.has_edge(u, self.succ(u)[e] as int),
    {
        assert(self.has_vertex(self.succ(u)[e] as int));
    }

    /// The entry at a position of an in-list is an edge.
    pub proof fn lemma_edge_from(self, v: int, e: int)
        requires
            self.wf(),
            self.has_vertex(v),
            0 <= e < self.pred(v).len(),
        ensures
            self.has_edge(self.pred(v)[e] as int, v),
    {
        assert(self.has_vertex(self.pred(v)[e] as int));
        self.lemma_edge_in_pred(self.pred(v)[e] as int, v);
    }

    /// Every vertex reaches itself.
    pub proof fn lemma_reaches_self(self, v: int)
        requires
            self.has_vertex(v),
        ensures
            self.reaches(v, v),
    {
        assert(self.connects(seq![v], v, v));
    }

    /// An edge is a walk of two vertices.
    pub proof fn lemma_edge_reaches(self, u: int, v: int)
        requires
            self.has_edge(u, v),
        ensures
            self.reaches_by_edge(u, v),
            self.reaches(u, v),
    {
        let p = seq![u, v];
        assert(self.connects(p, u, v));
    }

    /// Two walks that meet end to start join into one.
    pub proof fn lemma_join(self, p: Seq<int>, q: Seq<int>)
        requires
            self.is_path(p),
            self.is_path(q),
            p.last() == q.first(),
        ensures
            self.connects(p + q.skip(1), p.first(), q.last()),
            (p + q.skip(1)).len() == p.len() + q.len() - 1,
    {
        let r = p + q.skip(1);
        assert forall|i: int| 0 <= i < r.len() implies self.has_vertex(#[trigger] r[i]) by {
            if i >= p.len() {
                assert(r[i] == q[i - p.len() + 1]);
            }
        }
        assert forall|i: int| 0 <= i < r.len() - 1 implies self.has_edge(
            #[trigger] r[i],
            r[i + 1],
        ) by {
            if i < p.len() - 1 {
                assert(self.has_edge(p[i], p[i + 1]));
            } else {
                let k = i - p.len() + 1;
                assert(r[i] == q[k]);
                assert(r[i + 1] == q[k + 1]);
                assert(self.has_edge(q[k], q[k + 1]));
            }
        }
        if q.len() == 1 {
            assert(r =~= p);
        } else {
            assert(r.last() == q[q.len() - 1]);
        }
    }

    /// What can be reached from a reachable vertex can be reached.
    pub proof fn lemma_reaches_trans(self, u: int, v: int, w: int)
        requires
            self.reaches(u, v),
            self.reaches(v, w),
        ensures
            self.reaches(u, w),
    {
        let p = choose|p: Seq<int>| self.connects(p, u, v);
        let q = choose|q: Seq<int>| self.connects(q, v, w);
        self.lemma_join(p, q);
        assert(self.connects(p + q.skip(1), u, w));
    }

    /// A walk with at least one edge, lengthened at either end, still has one.
    pub proof fn lemma_reaches_by_edge_trans(self, u: int, v: int, w: int)
        requires
            (self.reaches_by_edge(u, v) && self.reaches(v, w)) || (self.reaches(u, v)
                && self.reaches_by_edge(v, w)),
        ensures
            self.reaches_by_edge(u, w),
    {
        if self.reaches_by_edge(u, v) && self.reaches(v, w) {
            let p = choose|p: Seq<int>| self.connects(p, u, v) && p.len() >= 2;
            let q = choose|q: Seq<int>| self.connects(q, v, w);
            self.lemma_join(p, q);
            assert(self.connects(p + q.skip(1), u, w));
        } else {
            let p = choose|p: Seq<int>| self.connects(p, u, v);
            let q = choose|q: Seq<int>| self.connects(q, v, w) && q.len() >= 2;
            self.lemma_join(p, q);
            assert(self.connects(p + q.skip(1), u, w));
        }
    }

    /// A walk with at least one edge is a walk.
    pub proof fn lemma_reaches_by_edge_weaken(self, u: int, v: int)
        requires
            self.reaches_by_edge(u, v),
        ensures
            self.reaches(u, v),
    {
        let p = choose|p: Seq<int>| self.connects(p, u, v) && p.len() >= 2;
        assert(self.connects(p, u, v));
    }

    /// A walk between two different vertices has at least one edge.
    pub proof fn lemma_reaches_distinct(self, u: int, v: int)
        requires
            self.reaches(u, v),
            u != v,
        ensures
            self.reaches_by_edge(u, v),
    {
        let p = choose|p: Seq<int>| self.connects(p, u, v);
        assert(p.len() >= 2);
    }

    /// A stretch of a walk is a walk.
    pub proof fn lemma_subpath(self, p: Seq<int>, a: int, b: int)
        requires
            self.is_path(p),
            0 <= a <= b < p.len(),
        ensures
            self.connects(p.subrange(a, b + 1), p[a], p[b]),
    {
        let r = p.subrange(a, b + 1);
        assert forall|i: int| 0 <= i < r.len() implies self.has_vertex(#[trigger] r[i]) by {
            assert(r[i] == p[a + i]);
        }
        assert forall|i: int| 0 <= i < r.len() - 1 implies self.has_edge(
            #[trigger] r[i],
            r[i + 1],
        ) by {
            assert(r[i] == p[a + i]);
            assert(self.has_edge(p[a + i], p[a + i + 1]));
        }
    }

    /// The ends of a walk are vertices.
    pub proof fn lemma_reaches_vertices(self, u: int, v: int)
        requires
            self.reaches(u, v),
        ensures
            self.has_vertex(u),
            self.has_vertex(v),
    {
        let p = choose|p: Seq<int>| self.connects(p, u, v);
        assert(self.has_vertex(p[0]));
        assert(self.has_vertex(p[p.len() - 1]));
    }

    /// Strong connection is symmetric and transitive.
    pub proof fn lemma_strongly_connected_trans(self, u: int, v: int, w: int)
        requires
            self.strongly_connected(u, v),
            self.strongly_connected(v, w),
        ensures
            self.strongly_connected(u, w),
            self.strongly_connected(v, u),
    {
        self.lemma_reaches_trans(u, v, w);
        self.lemma_reaches_trans(w, v, u);
    }
}

} // verus!
