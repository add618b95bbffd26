//! The order in which signals spread through a graph: from the start nodes
//! along the active links, each node once.

use vstd::prelude::*;
use vstd::set_lib::{lemma_int_range, set_int_range};
use crate::model::{lemma_select_complete, lemma_select_sound, CppnLink, CppnNodeIndex, GraphView};

verus! {

/// The indices of the nodes in `nodes`.
pub open spec fn marks(nodes: Seq<CppnNodeIndex>) -> Set<int> {
    Set::new(|v: int| exists|i: int| 0 <= i < nodes.len() && (#[trigger] nodes[i]).0 == v)
}

/// One more node marks one more index.
pub proof fn lemma_marks_push(nodes: Seq<CppnNodeIndex>, node: CppnNodeIndex)
    ensures
        marks(nodes.push(node)) == marks(nodes).insert(node.0 as int),
{
    let more = nodes.push(node);
    assert forall|v: int| marks(more).contains(v) == marks(nodes).insert(node.0 as int).contains(v) by {
        if marks(nodes).contains(v) {
            let j = choose|j: int| 0 <= j < nodes.len() && (#[trigger] nodes[j]).0 == v;
            assert(more[j].0 == v);
        }
        if v == node.0 {
            assert(more[nodes.len() as int].0 == v);
        }
        if marks(more).contains(v) {
            let j = choose|j: int| 0 <= j < more.len() && (#[trigger] more[j]).0 == v;
            if j < nodes.len() {
                assert(nodes[j].0 == v);
            }
        }
    }
    assert(marks(more) =~= marks(nodes).insert(node.0 as int));
}

impl GraphView {
    /// The nodes of the graph that are not in `seen`.
    pub open spec fn unseen(self, seen: Set<int>) -> Set<int> {
        set_int_range(0, self.nodes.len() as int).difference(seen)
    }

    /// Frontier and seen nodes after a look along `links`, one by one: the
    /// target of an active link that has not been seen is marked as seen and
    /// put on top of the frontier.
    pub open spec fn discover(self, links: Seq<CppnLink>, frontier: Seq<CppnNodeIndex>, seen: Set<int>) -> (
        Seq<CppnNodeIndex>,
        Set<int>,
    )
        decreases links.len(),
    {
        if links.len() == 0 {
            (frontier, seen)
        } else {
            let (f, s) = self.discover(links.drop_last(), frontier, seen);
            let link = links.last();
            if link.active && self.has_node(link.target.0 as int) && !s.contains(link.target.0 as int) {
                (f.push(link.target), s.insert(link.target.0 as int))
            } else {
                (f, s)
            }
        }
    }

    /// The order in which the nodes are taken from a frontier whose top is
    /// its last node: the top is taken, a look along its links puts what it
    /// discovers on the frontier, and so on until the frontier is empty.
    pub open spec fn order_from(self, frontier: Seq<CppnNodeIndex>, seen: Set<int>) -> Seq<CppnNodeIndex>
        decreases self.unseen(seen).len() + frontier.len(),
        via Self::order_from_decreases
    {
        if frontier.len() == 0 {
            Seq::empty()
        } else {
            let u = frontier.last();
            let next = self.discover(self.links[u.0 as int], frontier.drop_last(), seen);
            seq![u] + self.order_from(next.0, next.1)
        }
    }

    #[via_fn]
    proof fn order_from_decreases(self, frontier: Seq<CppnNodeIndex>, seen: Set<int>) {
        if frontier.len() > 0 {
            self.lemma_discover_measure(self.links[frontier.last().0 as int], frontier.drop_last(), seen);
        }
    }

    /// The order in which signals spread: the start nodes are put on the
    /// frontier by ascending index and marked as seen, and the nodes are
    /// taken from it as `order_from` says.
    pub open spec fn propagation_order(self) -> Seq<CppnNodeIndex> {
        self.order_from(self.start_nodes(), marks(self.start_nodes()))
    }

    /// A look along links moves as many nodes onto the frontier as it marks
    /// as seen.
    pub proof fn lemma_discover_measure(
        self,
        links: Seq<CppnLink>,
        frontier: Seq<CppnNodeIndex>,
        seen: Set<int>,
    )
        ensures
            self.unseen(self.discover(links, frontier, seen).1).len() + self.discover(
                links,
                frontier,
                seen,
            ).0.len() == self.unseen(seen).len() + frontier.len(),
        decreases links.len(),
    {
        if links.len() > 0 {
            self.lemma_discover_measure(links.drop_last(), frontier, seen);
            let (f, s) = self.discover(links.drop_last(), frontier, seen);
            let t = links.last().target.0 as int;
            if links.last().active && self.has_node(t) && !s.contains(t) {
                lemma_int_range(0, self.nodes.len() as int);
                assert(self.unseen(s).contains(t));
                assert(self.unseen(s.insert(t)) =~= self.unseen(s).remove(t));
            }
        }
    }
}

impl GraphView {
    /// Some walk along active links leads from a start node to `v`.
    pub open spec fn is_reached(self, v: int) -> bool {
        exists|s: int| self.has_node(s) && self.is_start(s) && #[trigger] self.reachable(s, v, true)
    }

    /// The active links of the nodes in `done` lead to nodes in `seen`; of
    /// the links of `u` only those before link `k` are held to that.
    spec fn closed_upto(self, seen: Set<int>, done: Set<int>, u: int, k: int) -> bool {
        forall|x: int, j: int| #[trigger]
            self.is_link(x, j) && done.contains(x) && self.links[x][j].active && (x != u || j < k)
                ==> seen.contains(self.links[x][j].target.0 as int)
    }

    /// What holds of the frontier, the seen nodes and the nodes taken so far
    /// at every step of the search.
    spec fn search_inv(self, frontier: Seq<CppnNodeIndex>, seen: Set<int>, done: Set<int>) -> bool {
        &&& frontier.no_duplicates()
        &&& forall|i: int|
            0 <= i < frontier.len() ==> seen.contains((#[trigger] frontier[i]).0 as int) && !done.contains(
                frontier[i].0 as int,
            )
        &&& forall|v: int| #[trigger]
            seen.contains(v) ==> self.has_node(v) && self.is_reached(v) && (done.contains(v) || marks(
                frontier,
            ).contains(v))
        &&& forall|v: int| #[trigger] done.contains(v) ==> seen.contains(v)
        &&& forall|v: int| self.has_node(v) && #[trigger] self.is_start(v) ==> seen.contains(v)
        &&& forall|v: int| #[trigger] seen.contains(v) ==> self.is_sourced(v, done)
    }

    /// `v` is a start node, or the target of an active link of a node in
    /// `earlier`.
    pub open spec fn is_sourced(self, v: int, earlier: Set<int>) -> bool {
        self.is_start(v) || exists|u: int| #[trigger] earlier.contains(u) && self.has_link(u, v, true)
    }

    /// A set of nodes that holds the targets of the active links of its
    /// nodes holds the end of every walk along active links that begins in
    /// it.
    proof fn lemma_closed_walk(self, done: Set<int>, p: Seq<int>)
        requires
            self.closed_upto(done, done, -1, 0),
            self.is_walk(p, true),
            done.contains(p.first()),
        ensures
            done.contains(p.last()),
        decreases p.len(),
    {
        if p.len() >= 2 {
            self.lemma_subwalk(p, 0, p.len() - 1, true);
            let front = p.subrange(0, p.len() - 1);
            self.lemma_closed_walk(done, front);
            assert(self.is_step(p, p.len() - 2, true));
            let x = p[p.len() - 2];
            let j = choose|j: int| #[trigger]
                self.is_link(x, j) && self.links[x][j].target.0 == p.last() && self.links[x][j].active;
            assert(self.is_link(x, j));
        }
    }

    /// The target of an active link of a reached node is reached.
    proof fn lemma_reached_step(self, u: int, k: int)
        requires
            self.is_closed(),
            self.is_reached(u),
            self.is_link(u, k),
            self.links[u][k].active,
        ensures
            self.is_reached(self.links[u][k].target.0 as int),
    {
        let t = self.links[u][k].target.0 as int;
        let s = choose|s: int| self.has_node(s) && self.is_start(s) && #[trigger] self.reachable(s, u, true);
        let p = choose|p: Seq<int>| #[trigger] self.is_walk(p, true) && p.first() == s && p.last() == u;
        self.lemma_extend_walk(p, t, true);
        assert(self.is_walk(p.push(t), true) && p.push(t).first() == s && p.push(t).last() == t);
        assert(self.reachable(s, t, true));
    }

    /// A look along the first `k` links of `u`, which has just been taken
    /// from the frontier, keeps what holds at every step of the search.
    proof fn lemma_discover_inv(
        self,
        u: CppnNodeIndex,
        k: int,
        rest: Seq<CppnNodeIndex>,
        seen: Set<int>,
        done: Set<int>,
    )
        requires
            self.is_closed(),
            self.has_node(u.0 as int),
            0 <= k <= self.links[u.0 as int].len(),
            self.search_inv(rest.push(u), seen, done),
            self.closed_upto(seen, done, -1, 0),
        ensures
            self.search_inv(
                self.discover(self.links[u.0 as int].take(k), rest, seen).0,
                self.discover(self.links[u.0 as int].take(k), rest, seen).1,
                done.insert(u.0 as int),
            ),
            self.closed_upto(
                self.discover(self.links[u.0 as int].take(k), rest, seen).1,
                done.insert(u.0 as int),
                u.0 as int,
                k,
            ),
            forall|v: int|
                seen.contains(v) ==> self.discover(self.links[u.0 as int].take(k), rest, seen).1.contains(
                    v,
                ),
        decreases k,
    {
        let links = self.links[u.0 as int];
        let frontier = rest.push(u);
        let done2 = done.insert(u.0 as int);
        if k == 0 {
            assert(links.take(0) =~= Seq::<CppnLink>::empty());
            assert(frontier[rest.len() as int] == u);
            assert forall|i: int| 0 <= i < rest.len() implies seen.contains((#[trigger] rest[i]).0 as int)
                && !done2.contains(rest[i].0 as int) by {
                assert(frontier[i] == rest[i]);
            }
            assert(rest.no_duplicates()) by {
                assert forall|i: int, j: int|
                    0 <= i < rest.len() && 0 <= j < rest.len() && i != j implies rest[i] != rest[j] by {
                    assert(frontier[i] == rest[i] && frontier[j] == rest[j]);
                }
            }
            assert forall|v: int| #[trigger] seen.contains(v) implies done2.contains(v) || marks(
                rest,
            ).contains(v) by {
                if !done.contains(v) && v != u.0 {
                    let i = choose|i: int| 0 <= i < frontier.len() && (#[trigger] frontier[i]).0 == v;
                    assert(rest[i].0 == v);
                }
            }
            assert forall|v: int| #[trigger] seen.contains(v) implies self.is_sourced(v, done2) by {
                self.lemma_sourced_grows(v, done, done2);
            }
        } else {
            self.lemma_discover_inv(u, k - 1, rest, seen, done);
            assert(links.take(k).drop_last() =~= links.take(k - 1));
            let (f, s) = self.discover(links.take(k - 1), rest, seen);
            let link = links[k - 1];
            assert(links.take(k).last() == link);
            let t = link.target.0 as int;
            assert(self.is_link(u.0 as int, k - 1));
            if link.active && self.has_node(t) && !s.contains(t) {
                let f2 = f.push(link.target);
                let s2 = s.insert(t);
                assert(frontier[rest.len() as int] == u);
                assert(seen.contains(u.0 as int));
                assert(self.is_reached(u.0 as int));
                self.lemma_reached_step(u.0 as int, k - 1);
                assert(f2.no_duplicates()) by {
                    assert forall|i: int, j: int|
                        0 <= i < f2.len() && 0 <= j < f2.len() && i != j implies f2[i] != f2[j] by {
                        if i < f.len() {
                            assert(s.contains(f[i].0 as int));
                        }
                        if j < f.len() {
                            assert(s.contains(f[j].0 as int));
                        }
                    }
                }
                assert forall|v: int| #[trigger] s2.contains(v) implies self.has_node(v)
                    && self.is_reached(v) && (done2.contains(v) || marks(f2).contains(v)) by {
                    if v == t {
                        assert(f2[f.len() as int].0 == v);
                    } else if !done2.contains(v) {
                        let i = choose|i: int| 0 <= i < f.len() && (#[trigger] f[i]).0 == v;
                        assert(f2[i].0 == v);
                    }
                }
                assert forall|i: int| 0 <= i < f2.len() implies s2.contains((#[trigger] f2[i]).0 as int)
                    && !done2.contains(f2[i].0 as int) by {
                    if i < f.len() {
                        assert(f2[i] == f[i]);
                    }
                }
                assert(self.is_sourced(t, done2)) by {
                    assert(done2.contains(u.0 as int) && self.has_link(u.0 as int, t, true));
                }
            }
        }
    }

    /// What is sourced from some nodes is sourced from more nodes.
    proof fn lemma_sourced_grows(self, v: int, earlier: Set<int>, later: Set<int>)
        requires
            self.is_sourced(v, earlier),
            forall|u: int| earlier.contains(u) ==> later.contains(u),
        ensures
            self.is_sourced(v, later),
    {
        if !self.is_start(v) {
            let u = choose|u: int| #[trigger] earlier.contains(u) && self.has_link(u, v, true);
            assert(later.contains(u) && self.has_link(u, v, true));
        }
    }

    /// What `order_from` yields where the search stands in a proper state:
    /// each node once, none that was taken before, only reached nodes, and
    /// every reached node that was not taken before.
    proof fn lemma_order_from(self, frontier: Seq<CppnNodeIndex>, seen: Set<int>, done: Set<int>)
        requires
            self.is_closed(),
            self.search_inv(frontier, seen, done),
            self.closed_upto(seen, done, -1, 0),
        ensures
            self.order_from(frontier, seen).no_duplicates(),
            forall|i: int|
                0 <= i < self.order_from(frontier, seen).len() ==> {
                    let v = (#[trigger] self.order_from(frontier, seen)[i]).0 as int;
                    self.has_node(v) && !done.contains(v) && self.is_reached(v)
                },
            forall|v: int|
                self.has_node(v) && #[trigger] self.is_reached(v) ==> done.contains(v) || marks(
                    self.order_from(frontier, seen),
                ).contains(v),
            forall|i: int|
                0 <= i < self.order_from(frontier, seen).len() ==> self.is_sourced(
                    (#[trigger] self.order_from(frontier, seen)[i]).0 as int,
                    done.union(marks(self.order_from(frontier, seen).take(i))),
                ),
        decreases self.unseen(seen).len() + frontier.len(),
    {
        let order = self.order_from(frontier, seen);
        if frontier.len() == 0 {
            assert forall|v: int| self.has_node(v) && #[trigger] self.is_reached(v) implies done.contains(
                v,
            ) by {
                let s = choose|s: int|
                    self.has_node(s) && self.is_start(s) && #[trigger] self.reachable(s, v, true);
                let p = choose|p: Seq<int>| #[trigger]
                    self.is_walk(p, true) && p.first() == s && p.last() == v;
                assert(seen.contains(s));
                assert(forall|x: int| #[trigger] seen.contains(x) ==> done.contains(x));
                assert(self.closed_upto(done, done, -1, 0)) by {
                    assert forall|x: int, j: int| #[trigger]
                        self.is_link(x, j) && done.contains(x)
                            && self.links[x][j].active implies done.contains(
                        self.links[x][j].target.0 as int,
                    ) by {
                        assert(seen.contains(self.links[x][j].target.0 as int));
                    }
                }
                self.lemma_closed_walk(done, p);
            }
        } else {
            let u = frontier.last();
            let rest = frontier.drop_last();
            let links = self.links[u.0 as int];
            assert(frontier =~= rest.push(u));
            assert(seen.contains(frontier[frontier.len() - 1].0 as int));
            self.lemma_discover_inv(u, links.len() as int, rest, seen, done);
            assert(links.take(links.len() as int) =~= links);
            let (f, s) = self.discover(links, rest, seen);
            let done2 = done.insert(u.0 as int);
            self.lemma_discover_measure(links, rest, seen);
            assert(self.closed_upto(s, done2, -1, 0));
            self.lemma_order_from(f, s, done2);
            let tail = self.order_from(f, s);
            assert(order =~= seq![u] + tail);
            assert(order.no_duplicates()) by {
                assert forall|i: int, j: int|
                    0 <= i < order.len() && 0 <= j < order.len() && i != j implies order[i]
                    != order[j] by {
                    if i > 0 {
                        assert(order[i] == tail[i - 1]);
                        assert(!done2.contains(tail[i - 1].0 as int));
                    }
                    if j > 0 {
                        assert(order[j] == tail[j - 1]);
                        assert(!done2.contains(tail[j - 1].0 as int));
                    }
                }
            }
            assert forall|i: int| 0 <= i < order.len() implies {
                let v = (#[trigger] order[i]).0 as int;
                self.has_node(v) && !done.contains(v) && self.is_reached(v)
            } by {
                if i > 0 {
                    assert(order[i] == tail[i - 1]);
                    assert(!done2.contains(tail[i - 1].0 as int));
                }
            }
            assert forall|v: int| self.has_node(v) && #[trigger] self.is_reached(v) implies done.contains(
                v,
            ) || marks(order).contains(v) by {
                if v == u.0 {
                    assert(order[0].0 == v);
                } else if !done.contains(v) {
                    assert(marks(tail).contains(v));
                    let i = choose|i: int| 0 <= i < tail.len() && (#[trigger] tail[i]).0 == v;
                    assert(order[i + 1].0 == v);
                }
            }
            assert forall|i: int| 0 <= i < order.len() implies self.is_sourced(
                (#[trigger] order[i]).0 as int,
                done.union(marks(order.take(i))),
            ) by {
                let earlier = done.union(marks(order.take(i)));
                if i == 0 {
                    self.lemma_sourced_grows(u.0 as int, done, earlier);
                } else {
                    assert(order[i] == tail[i - 1]);
                    let before = done2.union(marks(tail.take(i - 1)));
                    assert forall|x: int| before.contains(x) implies earlier.contains(x) by {
                        if x == u.0 {
                            assert(order.take(i)[0].0 == x);
                        } else if !done.contains(x) {
                            let j = choose|j: int|
                                0 <= j < tail.take(i - 1).len() && (#[trigger] tail.take(i - 1)[j]).0
                                    == x;
                            assert(order.take(i)[j + 1].0 == x);
                        }
                    }
                    self.lemma_sourced_grows(order[i].0 as int, before, earlier);
                }
            }
        }
    }

    /// A node that is no start node is taken after a node of which it is the
    /// target of an active link: signals come to it only from nodes that have
    /// been taken.
    pub proof fn lemma_taken_after_a_source(self, i: int)
        requires
            self.is_closed(),
            self.nodes.len() <= usize::MAX,
            0 <= i < self.propagation_order().len(),
        ensures
            self.is_start(self.propagation_order()[i].0 as int) || exists|j: int|
                0 <= j < i && self.has_link(
                    (#[trigger] self.propagation_order()[j]).0 as int,
                    self.propagation_order()[i].0 as int,
                    true,
                ),
    {
        self.lemma_initial_search_state();
        let order = self.propagation_order();
        let done = Set::<int>::empty();
        self.lemma_order_from(self.start_nodes(), marks(self.start_nodes()), done);
        let v = order[i].0 as int;
        assert(self.is_sourced(v, done.union(marks(order.take(i)))));
        if !self.is_start(v) {
            let u = choose|u: int| #[trigger]
                done.union(marks(order.take(i))).contains(u) && self.has_link(u, v, true);
            let j = choose|j: int| 0 <= j < order.take(i).len() && (#[trigger] order.take(i)[j]).0 == u;
            assert(order[j].0 == u);
        }
    }

    /// Before the first node is taken, the search stands in a proper state.
    proof fn lemma_initial_search_state(self)
        requires
            self.is_closed(),
            self.nodes.len() <= usize::MAX,
        ensures
            self.search_inv(self.start_nodes(), marks(self.start_nodes()), Set::<int>::empty()),
            self.closed_upto(marks(self.start_nodes()), Set::<int>::empty(), -1, 0),
    {
        let n = self.nodes.len() as int;
        let wanted = |v: int| self.is_start(v);
        let starts = self.start_nodes();
        let seen = marks(starts);
        assert(starts.no_duplicates()) by {
            assert forall|i: int, j: int|
                0 <= i < starts.len() && 0 <= j < starts.len() && i != j implies starts[i]
                != starts[j] by {
                lemma_select_sound(n, wanted, i);
                lemma_select_sound(n, wanted, j);
            }
        }
        assert forall|v: int| #[trigger] seen.contains(v) implies self.has_node(v) && self.is_reached(v)
            && self.is_start(v) by {
            let i = choose|i: int| 0 <= i < starts.len() && (#[trigger] starts[i]).0 == v;
            lemma_select_sound(n, wanted, i);
            let p = seq![v];
            assert(self.is_walk(p, true) && p.first() == v && p.last() == v);
            assert(self.reachable(v, v, true));
        }
        assert forall|v: int| self.has_node(v) && #[trigger] self.is_start(v) implies seen.contains(v) by {
            lemma_select_complete(n, wanted, v);
            let i = choose|i: int| 0 <= i < starts.len() && starts[i] == CppnNodeIndex(v as usize);
            assert(starts[i].0 == v);
        }
    }

    /// Signals reach every node that some walk along active links connects
    /// to a start node, those nodes only, and each of them once.
    pub proof fn lemma_propagation_visits_reached_once(self)
        requires
            self.is_closed(),
            self.nodes.len() <= usize::MAX,
        ensures
            self.propagation_order().no_duplicates(),
            forall|i: int|
                0 <= i < self.propagation_order().len() ==> self.has_node(
                    (#[trigger] self.propagation_order()[i]).0 as int,
                ),
            forall|v: int|
                self.has_node(v) ==> (marks(self.propagation_order()).contains(v)
                    <==> #[trigger] self.is_reached(v)),
    {
        let starts = self.start_nodes();
        let seen = marks(starts);
        let done = Set::<int>::empty();
        self.lemma_initial_search_state();
        self.lemma_order_from(starts, seen, done);
        let order = self.propagation_order();
        assert forall|v: int| self.has_node(v) && marks(order).contains(v) implies #[trigger] self.is_reached(
            v,
        ) by {
            let i = choose|i: int| 0 <= i < order.len() && (#[trigger] order[i]).0 == v;
        }
    }
}

} // verus!
