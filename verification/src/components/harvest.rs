use crate::model::counting::{below, lemma_distinct_bounded, lemma_push_contains,
    lemma_push_distinct};
use crate::components::descent::{lemma_stack_weight_push, stack_weight};
use crate::components::finish::{lemma_upstream_reaches, sealed, Finish};
use crate::model::topology::{listed, Topology};
use vstd::prelude::*;

verus! {

/// The state of the collection of components, between two searches.
pub struct Harvest {
    /// 2 for each vertex that a search has dealt with, 1 for the others.
    pub marks: Seq<int>,
    /// How many vertices of the finishing order still wait to start a
    /// search.
    pub remaining: int,
    /// The components found so far.
    pub components: Seq<Seq<usize>>,
}

impl Harvest {
    /// What holds between two searches: no marked vertex has an edge coming
    /// in from an unmarked one, the vertices that have waited are marked,
    /// and the components found are those of the marked vertices.
    pub open spec fn inv(self, t: Topology, f: Finish) -> bool {
        &&& self.marks.len() == t.len()
        &&& 0 <= self.remaining <= f.finished.len()
        &&& forall|v: int|
            0 <= v < t.len() ==> (#[trigger] self.marks[v]) == 1 || self.marks[v] == 2
        &&& sealed(t, self.marks)
        &&& forall|p: int|
            self.remaining <= p < f.finished.len() ==> self.marks[(#[trigger] f.finished[p]) as int]
                == 2
        &&& t.are_components(self.components)
        &&& forall|i: int, j: int|
            0 <= i < self.components.len() && 0 <= j < self.components[i].len()
                ==> self.marks[(#[trigger] self.components[i][j]) as int] == 2
        &&& forall|v: usize|
            v < t.len() && self.marks[v as int] == 2
                ==> (t.on_cycle(v as int) <==> #[trigger] listed(
                self.components,
                v,
            ))
    }

    /// The state before the first search.
    pub open spec fn fresh(t: Topology, f: Finish) -> Harvest {
        Harvest {
            marks: Seq::new(t.len(), |v: int| 1int),
            remaining: f.finished.len() as int,
            components: Seq::empty(),
        }
    }

    /// The vertex that starts the next search: the one finished last among
    /// those that wait.
    pub open spec fn root(self, f: Finish) -> usize {
        f.finished[self.remaining - 1]
    }

    /// The state after the next vertex was found dealt with already.
    pub open spec fn pass_over(self) -> Harvest {
        Harvest { remaining: self.remaining - 1, ..self }
    }

    /// The state after a search that found a component.
    pub open spec fn gather(self, round: Round) -> Harvest {
        Harvest {
            marks: round.marks,
            remaining: self.remaining - 1,
            components: self.components.push(round.members),
        }
    }

    /// The state after a search that found its start on no cycle.
    pub open spec fn set_aside(self, f: Finish) -> Harvest {
        Harvest {
            marks: self.marks.update(self.root(f) as int, 2),
            remaining: self.remaining - 1,
            ..self
        }
    }

    /// The collection holds its invariant before the first search.
    pub proof fn lemma_fresh(t: Topology, f: Finish)
        requires
            f.complete(t),
        ensures
            Harvest::fresh(t, f).inv(t, f),
    {
        let h = Harvest::fresh(t, f);
        assert forall|v: usize| v < t.len() && h.marks[v as int] == 2 implies (t.on_cycle(v as int)
            <==> #[trigger] listed(h.components, v)) by {}
    }

    /// A vertex that is marked already needs no search.
    pub proof fn lemma_pass_over(self, t: Topology, f: Finish)
        requires
            f.complete(t),
            self.inv(t, f),
            self.remaining > 0,
            self.marks[self.root(f) as int] == 2,
        ensures
            self.pass_over().inv(t, f),
    {
    }

    /// Once no vertex waits, the components found are those of the graph.
    pub proof fn lemma_done(self, t: Topology, f: Finish)
        requires
            f.complete(t),
            self.inv(t, f),
            self.remaining == 0,
        ensures
            t.cycle_components(self.components),
    {
        assert forall|v: usize| v < t.len() implies (t.on_cycle(v as int) <==> #[trigger] listed(
            self.components,
            v,
        )) by {
            let p = f.rank[v as int];
            assert(f.finished[p] == v);
            assert(self.marks[f.finished[p] as int] == 2);
        }
    }
}

/// The state of one depth-first search along the incoming edges.
pub struct Round {
    /// The marks of the harvest, with 2 for each vertex that this search
    /// has claimed.
    pub marks: Seq<int>,
    /// The vertices in work, each with the offset of the incoming edge
    /// that it follows next.
    pub stack: Seq<(usize, usize)>,
    /// The vertices claimed by this search, in the order of claiming.
    pub members: Seq<usize>,
}

impl Round {
    /// `x` is in work.
    pub open spec fn awaits(self, x: int) -> bool {
        exists|i: int| 0 <= i < self.stack.len() && (#[trigger] self.stack[i]).0 as int == x
    }

    /// Every edge into `x` comes from a marked vertex.
    pub open spec fn settled(self, t: Topology, x: int) -> bool {
        forall|j: int| 0 <= j < t.pred(x).len()
            ==> self.marks[(#[trigger] t.pred(x)[j]) as int] == 2
    }

    /// `x` is in work, or every edge into it comes from a marked vertex.
    pub open spec fn looked_after(self, t: Topology, x: int) -> bool {
        self.settled(t, x) || self.awaits(x)
    }

    /// `x` is the start of the search or was claimed by it.
    pub open spec fn holds(self, root: usize, x: usize) -> bool {
        x == root || self.members.contains(x)
    }

    /// What holds of the search from `root`, over the marks `base` that it
    /// started with, between any two of its steps: every member is newly
    /// marked, lies in the stretch of the finishing order that belongs to
    /// `root`, and reaches `root` along at least one edge.
    pub open spec fn inv(self, t: Topology, f: Finish, base: Seq<int>, root: usize) -> bool {
        &&& self.marks.len() == t.len()
        &&& base.len() == t.len()
        &&& root < t.len()
        &&& base[root as int] == 1
        &&& forall|v: int|
            0 <= v < t.len() ==> (#[trigger] self.marks[v]) == 1 || self.marks[v] == 2
        &&& self.members.no_duplicates()
        &&& below(self.members, t.len())
        &&& forall|v: usize|
            #![trigger self.members.contains(v)]
            #![trigger self.marks[v as int]]
            v < t.len() ==> (self.marks[v as int] == 2 <==> (base[v as int] == 2
                || self.members.contains(v)))
        &&& forall|k: int|
            0 <= k < self.members.len() ==> {
                let x = (#[trigger] self.members[k]) as int;
                &&& base[x] == 1
                &&& f.entered[root as int] <= f.rank[x] <= f.rank[root as int]
                &&& t.reaches_by_edge(x, root as int)
            }
        &&& forall|i: int|
            0 <= i < self.stack.len() ==> {
                let x = (#[trigger] self.stack[i]).0;
                &&& x < t.len()
                &&& self.holds(root, x)
                &&& self.stack[i].1 <= t.pred(x as int).len()
            }
        &&& forall|i: int, e: int|
            0 <= i < self.stack.len() && 0 <= e < self.stack[i].1 ==> self.marks[(
            #[trigger] t.pred(self.stack[i].0 as int)[e]) as int] == 2
        &&& forall|x: usize|
            x < t.len() && self.holds(root, x) ==> #[trigger] self.looked_after(t, x as int)
    }

    /// The search as it starts at `root`.
    pub open spec fn begin(base: Seq<int>, root: usize) -> Round {
        Round { marks: base, stack: seq![(root, 0usize)], members: Seq::empty() }
    }

    /// The top entry moves on to its next edge.
    pub open spec fn pass(self) -> Round {
        Round {
            stack: self.stack.drop_last().push(
                (self.stack.last().0, (self.stack.last().1 + 1) as usize),
            ),
            ..self
        }
    }

    /// The top entry moves on, and the source `y` of the edge that it
    /// followed is claimed.
    pub open spec fn claim(self, y: usize) -> Round {
        Round {
            marks: self.marks.update(y as int, 2),
            stack: self.pass().stack.push((y, 0)),
            members: self.members.push(y),
        }
    }

    /// The top entry leaves the stack.
    pub open spec fn drop_top(self) -> Round {
        Round { stack: self.stack.drop_last(), ..self }
    }

    /// The search holds its invariant as it starts.
    pub proof fn lemma_begin(t: Topology, f: Finish, base: Seq<int>, root: usize)
        requires
            base.len() == t.len(),
            root < t.len(),
            base[root as int] == 1,
            forall|v: int| 0 <= v < t.len() ==> (#[trigger] base[v]) == 1 || base[v] == 2,
        ensures
            Round::begin(base, root).inv(t, f, base, root),
            stack_weight(t, Round::begin(base, root).stack, true) == 1 + t.pred(root as int).len(),
    {
        let r = Round::begin(base, root);
        assert(r.stack[0] == (root, 0usize));
        assert forall|x: usize| x < t.len() && r.holds(root, x) implies #[trigger] r.looked_after(
            t,
            x as int,
        ) by {
            assert(r.stack[0].0 as int == x as int);
        }
        lemma_stack_weight_push(t, Seq::empty(), (root, 0usize), true);
        assert(Seq::<(usize, usize)>::empty().push((root, 0usize)) =~= r.stack);
    }

    /// The members are no more than the vertices.
    pub proof fn lemma_members_bounded(self, t: Topology, f: Finish, base: Seq<int>, root: usize)
        requires
            self.inv(t, f, base, root),
        ensures
            self.members.len() <= t.len(),
    {
        lemma_distinct_bounded(self.members, t.len());
    }

    /// An edge from a marked vertex needs nothing more.
    pub proof fn lemma_pass(self, t: Topology, f: Finish, base: Seq<int>, root: usize)
        requires
            t.wf(),
            self.inv(t, f, base, root),
            self.stack.len() > 0,
            self.stack.last().1 < t.pred(self.stack.last().0 as int).len(),
            self.stack.last().1 < usize::MAX,
            self.marks[t.pred(self.stack.last().0 as int)[self.stack.last().1 as int] as int] == 2,
        ensures
            self.pass().inv(t, f, base, root),
            stack_weight(t, self.pass().stack, true) == stack_weight(t, self.stack, true) - 1,
    {
        let next = self.pass();
        let k = self.stack.len() - 1;
        let x = self.stack[k].0;
        let e = self.stack[k].1;
        assert(self.stack.last() == self.stack[k]);
        assert forall|i: int| 0 <= i < next.stack.len() implies (#[trigger] next.stack[i]).0
            == self.stack[i].0 && (i < k ==> next.stack[i] == self.stack[i]) && (i == k
            ==> next.stack[i].1 == e + 1) by {}
        assert forall|i: int| 0 <= i < next.stack.len() implies ({
            let x = (#[trigger] next.stack[i]).0;
            &&& x < t.len()
            &&& next.holds(root, x)
            &&& next.stack[i].1 <= t.pred(x as int).len()
        }) by {
            assert(self.holds(root, self.stack[i].0));
        }
        assert forall|i: int, e2: int|
            0 <= i < next.stack.len() && 0 <= e2 < next.stack[i].1 implies next.marks[(
        #[trigger] t.pred(next.stack[i].0 as int)[e2]) as int] == 2 by {
            assert(self.stack[i].0 == next.stack[i].0);
            if i == k && e2 == e {
            } else {
                assert(e2 < self.stack[i].1);
            }
        }
        assert forall|y: usize| y < t.len() && next.holds(root, y)
            implies #[trigger] next.looked_after(
            t,
            y as int,
        ) by {
            assert(self.holds(root, y));
            assert(self.looked_after(t, y as int));
            if self.settled(t, y as int) {
                assert(next.settled(t, y as int));
            } else {
                let i = choose|i: int|
                    0 <= i < self.stack.len() && (#[trigger] self.stack[i]).0 as int == y as int;
                assert(next.stack[i].0 as int == y as int);
            }
        }
        lemma_stack_weight_push(t, self.stack.drop_last(), (x, (e + 1) as usize), true);
        lemma_stack_weight_push(t, self.stack.drop_last(), self.stack.last(), true);
        assert(self.stack.drop_last().push(self.stack.last()) =~= self.stack);
    }

    /// Dropping the top entry once all its edges are followed.
    pub proof fn lemma_drop(self, t: Topology, f: Finish, base: Seq<int>, root: usize)
        requires
            t.wf(),
            self.inv(t, f, base, root),
            self.stack.len() > 0,
            self.stack.last().1 >= t.pred(self.stack.last().0 as int).len(),
        ensures
            self.drop_top().inv(t, f, base, root),
            stack_weight(t, self.drop_top().stack, true) == stack_weight(t, self.stack, true) - 1,
    {
        let next = self.drop_top();
        let k = self.stack.len() - 1;
        let x = self.stack[k].0;
        assert(self.stack.last() == self.stack[k]);
        assert forall|i: int| 0 <= i < next.stack.len() implies #[trigger] next.stack[i]
            == self.stack[i] by {}
        assert forall|i: int| 0 <= i < next.stack.len() implies ({
            let x = (#[trigger] next.stack[i]).0;
            &&& x < t.len()
            &&& next.holds(root, x)
            &&& next.stack[i].1 <= t.pred(x as int).len()
        }) by {
            assert(self.holds(root, self.stack[i].0));
        }
        assert forall|i: int, e2: int|
            0 <= i < next.stack.len() && 0 <= e2 < next.stack[i].1 implies next.marks[(
        #[trigger] t.pred(next.stack[i].0 as int)[e2]) as int] == 2 by {
            assert(self.stack[i] == next.stack[i]);
        }
        assert(self.settled(t, x as int)) by {
            assert forall|j: int| 0 <= j < t.pred(x as int).len() implies self.marks[(
            #[trigger] t.pred(x as int)[j]) as int] == 2 by {
                assert(self.marks[t.pred(self.stack[k].0 as int)[j] as int] == 2);
            }
        }
        assert forall|y: usize| y < t.len() && next.holds(root, y)
            implies #[trigger] next.looked_after(
            t,
            y as int,
        ) by {
            assert(self.holds(root, y));
            assert(self.looked_after(t, y as int));
            if y == x {
                assert(next.settled(t, y as int));
            } else if self.settled(t, y as int) {
                assert(next.settled(t, y as int));
            } else {
                let i = choose|i: int|
                    0 <= i < self.stack.len() && (#[trigger] self.stack[i]).0 as int == y as int;
                assert(next.stack[i].0 as int == y as int);
            }
        }
        lemma_stack_weight_push(t, self.stack.drop_last(), self.stack.last(), true);
        assert(self.stack.drop_last().push(self.stack.last()) =~= self.stack);
    }

    /// Claiming the unmarked source of the edge that the top entry follows.
    pub proof fn lemma_claim(self, t: Topology, f: Finish, h: Harvest, root: usize)
        requires
            t.wf(),
            f.complete(t),
            h.inv(t, f),
            h.remaining > 0,
            root == h.root(f),
            self.inv(t, f, h.marks, root),
            self.stack.len() > 0,
            self.stack.last().1 < t.pred(self.stack.last().0 as int).len(),
            self.stack.last().1 < usize::MAX,
            self.marks[t.pred(self.stack.last().0 as int)[self.stack.last().1 as int] as int] == 1,
        ensures
            t.pred(self.stack.last().0 as int)[self.stack.last().1 as int] < t.len(),
            self.claim(t.pred(self.stack.last().0 as int)[self.stack.last().1 as int]).inv(
                t,
                f,
                h.marks,
                root,
            ),
            self.members.len() < t.len(),
    {
        let base = h.marks;
        let k = self.stack.len() - 1;
        let x = self.stack[k].0;
        let e = self.stack[k].1;
        let y = t.pred(x as int)[e as int];
        let next = self.claim(y);
        assert(self.stack.last() == self.stack[k]);
        assert(self.holds(root, x));
        t.lemma_edge_from(x as int, e as int);
        assert(t.has_edge(y as int, x as int));
        assert(y < t.len());
        assert(!self.members.contains(y));
        assert(base[y as int] == 1);
        lemma_push_distinct(self.members, y);
        assert forall|v: usize| next.members.contains(v)
            <==> (self.members.contains(v) || v == y) by {
            lemma_push_contains(self.members, y, v);
        }
        lemma_distinct_bounded(next.members, t.len());
        // where `y` was finished
        assert(f.rank[root as int] == h.remaining - 1);
        assert(f.rank[y as int] <= f.rank[root as int]) by {
            let p = f.rank[y as int];
            assert(f.finished[p] == y);
            if p >= h.remaining {
                assert(h.marks[f.finished[p] as int] == 2);
            }
        }
        assert(f.entered[root as int] <= f.rank[x as int] <= f.rank[root as int] && t.reaches(
            x as int,
            root as int,
        )) by {
            if x == root {
                t.lemma_reaches_self(root as int);
            } else {
                let i = choose|i: int| 0 <= i < self.members.len() && self.members[i] == x;
                assert(t.reaches_by_edge(self.members[i] as int, root as int));
                t.lemma_reaches_by_edge_weaken(x as int, root as int);
            }
        }
        f.lemma_into_subtree(t, root as int, x as int, y as int);
        t.lemma_edge_reaches(y as int, x as int);
        t.lemma_reaches_by_edge_trans(y as int, x as int, root as int);

        assert(next.stack.len() == k + 2);
        assert forall|i: int| 0 <= i <= k implies (#[trigger] next.stack[i]).0 == self.stack[i].0
            && (i < k ==> next.stack[i] == self.stack[i]) && (i == k
                ==> next.stack[i].1 == e + 1) by {}
        assert(next.stack[k + 1] == (y, 0usize));
        assert forall|j: int| 0 <= j < next.members.len() implies ({
            let z = (#[trigger] next.members[j]) as int;
            &&& base[z] == 1
            &&& f.entered[root as int] <= f.rank[z] <= f.rank[root as int]
            &&& t.reaches_by_edge(z, root as int)
        }) by {
            if j < self.members.len() {
                assert(next.members[j] == self.members[j]);
            }
        }
        assert forall|i: int| 0 <= i < next.stack.len() implies ({
            let z = (#[trigger] next.stack[i]).0;
            &&& z < t.len()
            &&& next.holds(root, z)
            &&& next.stack[i].1 <= t.pred(z as int).len()
        }) by {
            if i <= k {
                assert(self.holds(root, self.stack[i].0));
            }
        }
        assert forall|i: int, e2: int|
            0 <= i < next.stack.len() && 0 <= e2 < next.stack[i].1 implies next.marks[(
        #[trigger] t.pred(next.stack[i].0 as int)[e2]) as int] == 2 by {
            assert(self.stack[i].0 == next.stack[i].0);
            if i == k && e2 == e {
            } else {
                assert(e2 < self.stack[i].1);
                assert(self.marks[t.pred(self.stack[i].0 as int)[e2] as int] == 2);
            }
        }
        assert forall|z: usize| z < t.len() && next.holds(root, z)
            implies #[trigger] next.looked_after(
            t,
            z as int,
        ) by {
            if z == y {
                assert(next.stack[k + 1].0 as int == z as int);
            } else {
                assert(self.holds(root, z));
                assert(self.looked_after(t, z as int));
                if self.settled(t, z as int) {
                    assert forall|j: int| 0 <= j < t.pred(z as int).len() implies next.marks[(
                    #[trigger] t.pred(z as int)[j]) as int] == 2 by {
                        assert(self.marks[t.pred(z as int)[j] as int] == 2);
                    }
                } else {
                    let i = choose|i: int|
                        0 <= i < self.stack.len()
                            && (#[trigger] self.stack[i]).0 as int == z as int;
                    assert(next.stack[i].0 as int == z as int);
                }
            }
        }
    }

    /// Once the stack is empty, the search has claimed every unmarked
    /// vertex from which its start can be reached along at least one edge.
    pub proof fn lemma_absorb(self, t: Topology, f: Finish, base: Seq<int>, root: usize,
        p: Seq<int>)
        requires
            t.wf(),
            self.inv(t, f, base, root),
            self.stack.len() == 0,
            sealed(t, base),
            forall|v: int| 0 <= v < t.len() ==> (#[trigger] base[v]) == 1 || base[v] == 2,
            t.is_path(p),
            p.len() >= 2,
            p.last() == root as int,
            base[p.first()] == 1,
        ensures
            self.members.contains(p.first() as usize),
        decreases p.len(),
    {
        let n = p.len() as int;
        let y = p[0];
        let x = p[1];
        assert(t.has_vertex(y) && t.has_vertex(x));
        assert(t.has_edge(y, x));
        t.lemma_edge_in_pred(y, x);
        let j = choose|j: int| 0 <= j < t.pred(x).len() && #[trigger] t.pred(x)[j] as int == y;
        if n > 2 {
            assert(base[x] == 1) by {
                if base[x] == 2 {
                    assert(base[t.pred(x)[j] as int] == 2);
                }
            }
            t.lemma_subpath(p, 1, n - 1);
            self.lemma_absorb(t, f, base, root, p.subrange(1, n));
            assert(self.members.contains(x as usize));
        }
        assert(self.holds(root, x as usize));
        assert(self.looked_after(t, x));
        assert(!self.awaits(x));
        assert(self.marks[t.pred(x)[j] as int] == 2);
        assert(self.marks[(y as usize) as int] == 2);
    }

    /// Every member is strongly connected to the start, and lies on a
    /// cycle.
    pub proof fn lemma_member_connected(self, t: Topology, f: Finish, base: Seq<int>, root: usize,
        x: usize)
        requires
            t.wf(),
            f.complete(t),
            self.inv(t, f, base, root),
            self.members.contains(x),
        ensures
            t.strongly_connected(x as int, root as int),
            t.reaches_by_edge(x as int, root as int),
            t.on_cycle(x as int),
            base[x as int] == 1,
            x < t.len(),
    {
        let k = choose|k: int| 0 <= k < self.members.len() && self.members[k] == x;
        assert(t.reaches_by_edge(self.members[k] as int, root as int));
        t.lemma_reaches_by_edge_weaken(x as int, root as int);
        let p = f.rank[x as int];
        assert(f.finished[p] == x);
        assert(t.reaches(root as int, f.finished[p] as int));
        t.lemma_reaches_by_edge_trans(x as int, root as int, x as int);
    }

    /// Once the stack is empty, a vertex that is strongly connected to the
    /// start is the start or a member.
    pub proof fn lemma_whole(self, t: Topology, f: Finish, h: Harvest, root: usize, v: usize)
        requires
            t.wf(),
            f.complete(t),
            h.inv(t, f),
            self.inv(t, f, h.marks, root),
            self.stack.len() == 0,
            v < t.len(),
            v != root,
            t.strongly_connected(root as int, v as int),
        ensures
            self.members.contains(v),
    {
        t.lemma_reaches_distinct(v as int, root as int);
        if h.marks[v as int] == 2 {
            lemma_upstream_reaches(t, h.marks, root as int, v as int);
        }
        let p = choose|p: Seq<int>| #[trigger] t.connects(p, v as int, root as int) && p.len() >= 2;
        self.lemma_absorb(t, f, h.marks, root, p);
    }

    /// Once the stack is empty, the marks are sealed but for the start.
    pub proof fn lemma_sealed(self, t: Topology, f: Finish, h: Harvest, root: usize)
        requires
            t.wf(),
            h.inv(t, f),
            self.inv(t, f, h.marks, root),
            self.stack.len() == 0,
        ensures
            forall|v: int, j: int|
                0 <= v < t.len() && 0 <= j < t.pred(v).len() && (self.marks[v] == 2 || v
                    == root as int) ==> self.marks[(#[trigger] t.pred(v)[j]) as int] == 2,
    {
        assert forall|v: int, j: int|
            0 <= v < t.len() && 0 <= j < t.pred(v).len() && (self.marks[v] == 2 || v
                == root as int) implies self.marks[(#[trigger] t.pred(v)[j]) as int] == 2 by {
            let w = t.pred(v)[j];
            assert(t.has_vertex(t.pred(v)[j] as int));
            if h.marks[v] == 2 {
                assert(h.marks[t.pred(v)[j] as int] == 2);
                assert(self.marks[w as int] == 2);
            } else {
                assert(self.marks[(v as usize) as int] == 2 || v == root as int);
                assert(self.holds(root, v as usize));
                assert(self.looked_after(t, (v as usize) as int));
                assert(!self.awaits(v));
            }
        }
    }

    /// A search that has marked its start has collected a component.
    pub proof fn lemma_close_found(self, t: Topology, f: Finish, h: Harvest, root: usize)
        requires
            t.wf(),
            f.complete(t),
            h.inv(t, f),
            h.remaining > 0,
            root == h.root(f),
            self.inv(t, f, h.marks, root),
            self.stack.len() == 0,
            self.marks[root as int] == 2,
        ensures
            h.gather(self).inv(t, f),
    {
        let base = h.marks;
        let next = h.gather(self);
        let old_comps = h.components;
        let comps = next.components;
        let m = old_comps.len() as int;
        assert(comps.len() == m + 1);
        assert(comps[m] == self.members);
        assert forall|i: int| 0 <= i < m implies #[trigger] comps[i] == old_comps[i] by {}
        assert(self.members.contains(root));
        self.lemma_sealed(t, f, h, root);
        assert(sealed(t, next.marks));
        assert(f.rank[root as int] == h.remaining - 1);
        assert forall|p: int| next.remaining <= p < f.finished.len() implies next.marks[(
        #[trigger] f.finished[p]) as int] == 2 by {
            if p >= h.remaining {
                assert(h.marks[f.finished[p] as int] == 2);
            }
        }
        assert forall|i: int, j: int| 0 <= i < comps.len() && 0 <= j < comps[i].len()
            implies next.marks[(
        #[trigger] comps[i][j]) as int] == 2 && t.has_vertex(comps[i][j] as int) by {
            if i < m {
                assert(h.marks[old_comps[i][j] as int] == 2);
                assert(t.has_vertex(old_comps[i][j] as int));
            } else {
                assert(self.members.contains(self.members[j]));
            }
        }
        assert forall|i: int| 0 <= i < comps.len() implies (#[trigger] comps[i]).len() > 0
            && comps[i].no_duplicates() by {
            if i < m {
                assert(old_comps[i].len() > 0);
            }
        }
        assert forall|i: int, j: int, v: usize|
            #![trigger comps[i][j], comps[i].contains(v)]
            #![trigger t.strongly_connected(comps[i][j] as int, v as int)]
            0 <= i < comps.len() && 0 <= j < comps[i].len() && v < t.len() implies (
        comps[i].contains(v) <==> t.strongly_connected(comps[i][j] as int, v as int)) by {
            if i < m {
                assert(old_comps[i].contains(v) <==> t.strongly_connected(
                    old_comps[i][j] as int,
                    v as int,
                ));
            } else {
                let x = self.members[j];
                assert(self.members.contains(x));
                self.lemma_member_connected(t, f, base, root, x);
                if self.members.contains(v) {
                    self.lemma_member_connected(t, f, base, root, v);
                    t.lemma_strongly_connected_trans(x as int, root as int, v as int);
                }
                if t.strongly_connected(x as int, v as int) {
                    t.lemma_strongly_connected_trans(v as int, x as int, root as int);
                    if v != root {
                        self.lemma_whole(t, f, h, root, v);
                    }
                }
            }
        }
        assert forall|i: int, k: int, a: int, b: int|
            0 <= i < k < comps.len() && 0 <= a < comps[i].len() && 0 <= b < comps[k].len()
                implies !t.reaches(
            #[trigger] comps[k][b] as int,
            #[trigger] comps[i][a] as int,
        ) by {
            if k < m {
                assert(!t.reaches(old_comps[k][b] as int, old_comps[i][a] as int));
            } else {
                let x = self.members[b];
                assert(self.members.contains(x));
                self.lemma_member_connected(t, f, base, root, x);
                assert(h.marks[old_comps[i][a] as int] == 2);
                if t.reaches(x as int, old_comps[i][a] as int) {
                    lemma_upstream_reaches(t, h.marks, x as int, old_comps[i][a] as int);
                }
            }
        }
        assert(t.are_components(comps));
        assert forall|v: usize| v < t.len() && next.marks[v as int] == 2 implies (t.on_cycle(
            v as int,
        ) <==> #[trigger] listed(comps, v)) by {
            if self.members.contains(v) {
                self.lemma_member_connected(t, f, base, root, v);
                assert(comps[m].contains(v));
            } else {
                assert(h.marks[v as int] == 2);
                assert(t.on_cycle(v as int) <==> listed(old_comps, v));
                if listed(old_comps, v) {
                    let i = choose|i: int| 0 <= i < old_comps.len()
                        && (#[trigger] old_comps[i]).contains(v);
                    assert(comps[i].contains(v));
                }
                if listed(comps, v) {
                    let i = choose|i: int| 0 <= i < comps.len()
                        && (#[trigger] comps[i]).contains(v);
                    assert(i < m);
                    assert(old_comps[i].contains(v));
                }
            }
        }
    }

    /// A search that has not marked its start has claimed nothing, and its
    /// start lies on no cycle.
    pub proof fn lemma_close_alone(self, t: Topology, f: Finish, h: Harvest, root: usize)
        requires
            t.wf(),
            f.complete(t),
            h.inv(t, f),
            h.remaining > 0,
            root == h.root(f),
            self.inv(t, f, h.marks, root),
            self.stack.len() == 0,
            self.marks[root as int] != 2,
        ensures
            self.members.len() == 0,
            self.marks == h.marks,
            h.set_aside(f).inv(t, f),
    {
        let base = h.marks;
        let next = h.set_aside(f);
        assert(!self.members.contains(root));
        if self.members.len() > 0 {
            let x = self.members[0];
            assert(self.members.contains(x));
            self.lemma_member_connected(t, f, base, root, x);
            t.lemma_reaches_by_edge_trans(root as int, x as int, root as int);
            let p = choose|p: Seq<int>|
                #[trigger] t.connects(p, root as int, root as int) && p.len() >= 2;
            self.lemma_absorb(t, f, base, root, p);
        }
        assert forall|v: usize| !self.members.contains(v) by {
            if self.members.contains(v) {
                let k = choose|k: int| 0 <= k < self.members.len() && self.members[k] == v;
            }
        }
        assert(self.marks =~= base) by {
            assert forall|v: int| 0 <= v < t.len() implies self.marks[v] == base[v] by {
                assert(self.marks[(v as usize) as int] == 2 <==> base[(v as usize) as int] == 2);
            }
        }
        if t.on_cycle(root as int) {
            let p = choose|p: Seq<int>|
                #[trigger] t.connects(p, root as int, root as int) && p.len() >= 2;
            self.lemma_absorb(t, f, base, root, p);
        }
        self.lemma_sealed(t, f, h, root);
        assert(sealed(t, next.marks)) by {
            assert forall|v: int, j: int|
                0 <= v < t.len() && 0 <= j < t.pred(v).len() && next.marks[v] == 2
                    implies next.marks[(
            #[trigger] t.pred(v)[j]) as int] == 2 by {
                assert(t.has_vertex(t.pred(v)[j] as int));
                assert(self.marks[t.pred(v)[j] as int] == 2);
            }
        }
        assert(f.rank[root as int] == h.remaining - 1);
        assert forall|p: int| next.remaining <= p < f.finished.len() implies next.marks[(
        #[trigger] f.finished[p]) as int] == 2 by {
            if p >= h.remaining {
                assert(h.marks[f.finished[p] as int] == 2);
            }
        }
        assert forall|i: int, j: int|
            0 <= i < next.components.len() && 0 <= j < next.components[i].len() implies next.marks[(
        #[trigger] next.components[i][j]) as int] == 2 by {
            assert(h.marks[h.components[i][j] as int] == 2);
        }
        assert forall|v: usize| v < t.len() && next.marks[v as int] == 2 implies (t.on_cycle(
            v as int,
        ) <==> #[trigger] listed(next.components, v)) by {
            if v == root {
                if listed(h.components, v) {
                    let i = choose|i: int|
                        0 <= i < h.components.len() && (#[trigger] h.components[i]).contains(v);
                    let j = choose|j: int| 0 <= j < h.components[i].len()
                        && h.components[i][j] == v;
                    assert(h.marks[h.components[i][j] as int] == 2);
                }
            } else {
                assert(h.marks[v as int] == 2);
            }
        }
    }
}

} // verus!
