//! Walks, reachability and acyclicity in the graph model, and the facts about
//! them on which the graph's invariant and the evaluator rest.

use vstd::prelude::*;
use crate::model::{CppnLink, GraphNode, GraphView};

verus! {

impl GraphView {
    /// Node `i` of `p` has a link to node `i + 1` of `p`.
    pub open spec fn is_step(self, p: Seq<int>, i: int, active_only: bool) -> bool {
        self.has_link(p[i], p[i + 1], active_only)
    }

    /// `p` is a walk: one node or more, each linked to the next. With
    /// `active_only`, the links followed are active ones.
    pub open spec fn is_walk(self, p: Seq<int>, active_only: bool) -> bool {
        &&& p.len() > 0
        &&& forall|i: int| 0 <= i < p.len() ==> self.has_node(#[trigger] p[i])
        &&& forall|i: int| 0 <= i < p.len() - 1 ==> #[trigger] self.is_step(p, i, active_only)
    }

    /// Some walk leads from `u` to `v`. Every node reaches itself.
    pub open spec fn reachable(self, u: int, v: int, active_only: bool) -> bool {
        exists|p: Seq<int>| #[trigger] self.is_walk(p, active_only) && p.first() == u && p.last() == v
    }

    /// A link from `src` to `dst` would close a cycle: the two are the same
    /// node, or some walk leads from `dst` back to `src`. Inactive links
    /// count.
    pub open spec fn would_cycle(self, src: int, dst: int) -> bool {
        src == dst || self.reachable(dst, src, false)
    }

    /// A link from `src` to `dst` is free to be added: the two are different
    /// nodes with no link between them in either direction, the link is
    /// valid, and it would close no cycle.
    pub open spec fn is_free_link(self, src: int, dst: int) -> bool {
        &&& self.has_node(src)
        &&& self.has_node(dst)
        &&& src != dst
        &&& !self.has_link(src, dst, false)
        &&& !self.has_link(dst, src, false)
        &&& self.valid_link(src, dst) is Ok
        &&& !self.would_cycle(src, dst)
    }

    /// No walk of one link or more returns to its first node.
    pub open spec fn is_acyclic(self, active_only: bool) -> bool {
        forall|p: Seq<int>| #[trigger] self.is_walk(p, active_only) && p.len() >= 2 ==> p.first() != p.last()
    }

    /// A walk along active links is a walk.
    pub proof fn lemma_active_walk(self, p: Seq<int>)
        requires
            self.is_walk(p, true),
        ensures
            self.is_walk(p, false),
    {
        assert forall|i: int| 0 <= i < p.len() - 1 implies #[trigger] self.is_step(p, i, false) by {
            assert(self.is_step(p, i, true));
        }
    }

    /// A graph without cycles has none along active links either.
    pub proof fn lemma_acyclic_active(self)
        requires
            self.is_acyclic(false),
        ensures
            self.is_acyclic(true),
    {
        assert forall|p: Seq<int>| #[trigger] self.is_walk(p, true) && p.len() >= 2 implies p.first()
            != p.last() by {
            self.lemma_active_walk(p);
        }
    }

    /// Any stretch of a walk is a walk.
    pub proof fn lemma_subwalk(self, p: Seq<int>, from: int, to: int, active_only: bool)
        requires
            self.is_walk(p, active_only),
            0 <= from < to <= p.len(),
        ensures
            self.is_walk(p.subrange(from, to), active_only),
    {
        let q = p.subrange(from, to);
        assert forall|i: int| 0 <= i < q.len() - 1 implies #[trigger] self.is_step(q, i, active_only) by {
            assert(self.is_step(p, from + i, active_only));
        }
    }

    /// A walk followed by a link from its last node is a walk.
    pub proof fn lemma_extend_walk(self, p: Seq<int>, w: int, active_only: bool)
        requires
            self.is_walk(p, active_only),
            self.has_node(w),
            self.has_link(p.last(), w, active_only),
        ensures
            self.is_walk(p.push(w), active_only),
    {
        let q = p.push(w);
        assert forall|i: int| 0 <= i < q.len() - 1 implies #[trigger] self.is_step(q, i, active_only) by {
            if i < p.len() - 1 {
                assert(self.is_step(p, i, active_only));
            }
        }
    }

    /// Two walks, the second starting where the first ends, make one walk.
    pub proof fn lemma_join_walks(self, p: Seq<int>, q: Seq<int>, active_only: bool)
        requires
            self.is_walk(p, active_only),
            self.is_walk(q, active_only),
            p.last() == q.first(),
        ensures
            self.is_walk(p + q.drop_first(), active_only),
    {
        let r = p + q.drop_first();
        assert forall|i: int| 0 <= i < r.len() - 1 implies #[trigger] self.is_step(r, i, active_only) by {
            if i < p.len() - 1 {
                assert(self.is_step(p, i, active_only));
            } else {
                assert(self.is_step(q, i - (p.len() - 1), active_only));
            }
        }
    }

    /// In a graph without cycles no walk passes a node twice, so none has
    /// more nodes than the graph.
    pub proof fn lemma_walk_length(self, p: Seq<int>, active_only: bool)
        requires
            self.is_acyclic(active_only),
            self.is_walk(p, active_only),
        ensures
            p.no_duplicates(),
            p.len() <= self.nodes.len(),
    {
        assert forall|i: int, j: int| 0 <= i < j < p.len() implies p[i] != p[j] by {
            self.lemma_subwalk(p, i, j + 1, active_only);
            let q = p.subrange(i, j + 1);
            assert(q.first() == p[i] && q.last() == p[j]);
        }
        p.unique_seq_to_set();
        let range = vstd::set_lib::set_int_range(0, self.nodes.len() as int);
        vstd::set_lib::lemma_int_range(0, self.nodes.len() as int);
        assert forall|v: int| p.to_set().contains(v) implies range.contains(v) by {
            let i = choose|i: int| 0 <= i < p.len() && p[i] == v;
            assert(self.has_node(p[i]));
        }
        vstd::set_lib::lemma_len_subset(p.to_set(), range);
    }

    /// A link is placed inside the list or at its end.
    pub proof fn lemma_insert_position_range(links: Seq<CppnLink>, id: crate::model::ExternalId)
        ensures
            0 <= Self::insert_position(links, id) <= links.len(),
        decreases links.len(),
    {
        if links.len() > 0 && links.first().external_id.0 <= id.0 {
            Self::lemma_insert_position_range(links.drop_first(), id);
        }
    }

    /// A link of the graph with one more link is that link or one that the
    /// graph had.
    pub proof fn lemma_with_link_has_link(
        self,
        src: int,
        link: CppnLink,
        u: int,
        v: int,
        active_only: bool,
    )
        requires
            self.links.len() == self.nodes.len(),
            self.has_node(src),
            self.with_link(src, link).has_link(u, v, active_only),
        ensures
            self.has_link(u, v, active_only) || (u == src && v == link.target.0),
    {
        let new = self.with_link(src, link);
        let k = choose|k: int| #[trigger]
            new.is_link(u, k) && new.links[u][k].target.0 == v && (active_only
                ==> new.links[u][k].active);
        if u == src {
            let pos = Self::insert_position(self.links[src], link.external_id);
            Self::lemma_insert_position_range(self.links[src], link.external_id);
            if k < pos {
                assert(self.is_link(u, k));
            } else if k > pos {
                assert(self.is_link(u, k - 1));
            }
        } else {
            assert(self.is_link(u, k));
        }
    }

    /// The first place at which `x` stands in `q`.
    proof fn lemma_first_occurrence(q: Seq<int>, x: int) -> (j: int)
        requires
            q.contains(x),
        ensures
            0 <= j < q.len(),
            q[j] == x,
            forall|k: int| 0 <= k < j ==> q[k] != x,
        decreases q.len(),
    {
        if q[0] == x {
            0
        } else {
            let i = choose|i: int| 0 <= i < q.len() && q[i] == x;
            assert(q.drop_first()[i - 1] == x);
            let j = Self::lemma_first_occurrence(q.drop_first(), x);
            assert forall|k: int| 0 <= k < j + 1 implies q[k] != x by {
                if k > 0 {
                    assert(q.drop_first()[k - 1] != x);
                }
            }
            j + 1
        }
    }

    /// A link that would not close a cycle closes none: where the graph has
    /// no cycle and no walk leads from `link.target` back to `src`, the graph
    /// with that link from `src` has no cycle either.
    pub proof fn lemma_with_link_acyclic(self, src: int, link: CppnLink)
        requires
            self.links.len() == self.nodes.len(),
            self.has_node(src),
            self.has_node(link.target.0 as int),
            self.is_acyclic(false),
            !self.would_cycle(src, link.target.0 as int),
        ensures
            self.with_link(src, link).is_acyclic(false),
    {
        let new = self.with_link(src, link);
        let dst = link.target.0 as int;
        assert forall|p: Seq<int>| #[trigger] new.is_walk(p, false) && p.len() >= 2 implies p.first()
            != p.last() by {
            if p.first() == p.last() {
                if forall|i: int| 0 <= i < p.len() - 1 ==> #[trigger] self.is_step(p, i, false) {
                    assert(self.is_walk(p, false));
                } else {
                    let i = choose|i: int| 0 <= i < p.len() - 1 && !#[trigger] self.is_step(p, i, false);
                    assert(new.is_step(p, i, false));
                    self.lemma_with_link_has_link(src, link, p[i], p[i + 1], false);
                    // turn the cycle so that it starts behind the new link
                    let head = p.subrange(i + 1, p.len() as int);
                    let tail = p.subrange(0, i + 1);
                    new.lemma_subwalk(p, i + 1, p.len() as int, false);
                    new.lemma_subwalk(p, 0, i + 1, false);
                    new.lemma_join_walks(head, tail, false);
                    let q = head + tail.drop_first();
                    assert(q.first() == dst);
                    assert(q.last() == src) by {
                        if i == 0 {
                            assert(q.last() == p.last());
                        } else {
                            assert(q.last() == tail.last());
                        }
                    }
                    assert(q[q.len() - 1] == src);
                    let j = Self::lemma_first_occurrence(q, src);
                    let r = q.subrange(0, j + 1);
                    new.lemma_subwalk(q, 0, j + 1, false);
                    assert forall|k: int| 0 <= k < r.len() - 1 implies #[trigger] self.is_step(
                        r,
                        k,
                        false,
                    ) by {
                        assert(new.is_step(r, k, false));
                        assert(r[k] == q[k]);
                        self.lemma_with_link_has_link(src, link, r[k], r[k + 1], false);
                    }
                    assert(self.is_walk(r, false));
                    assert(r.first() == dst && r.last() == src);
                    assert(self.reachable(dst, src, false));
                }
            }
        }
    }

    /// A new node, which has no links, closes no cycle.
    pub proof fn lemma_with_node_acyclic(self, node: GraphNode)
        requires
            self.is_closed(),
            self.is_acyclic(false),
        ensures
            self.with_node(node).is_acyclic(false),
    {
        let new = self.with_node(node);
        assert forall|p: Seq<int>| #[trigger] new.is_walk(p, false) && p.len() >= 2 implies p.first()
            != p.last() by {
            if p.first() == p.last() {
                assert forall|i: int| 0 <= i < p.len() - 1 implies self.has_node(p[i]) && self.has_node(
                    p[i + 1],
                ) && #[trigger] self.is_step(p, i, false) by {
                    assert(new.is_step(p, i, false));
                    let k = choose|k: int| #[trigger]
                        new.is_link(p[i], k) && new.links[p[i]][k].target.0 == p[i + 1];
                    assert(self.is_link(p[i], k));
                }
                assert forall|i: int| 0 <= i < p.len() implies self.has_node(#[trigger] p[i]) by {
                    if i < p.len() - 1 {
                        assert(self.is_step(p, i, false));
                    } else {
                        assert(self.is_step(p, i - 1, false));
                    }
                }
                assert(self.is_walk(p, false));
            }
        }
    }
}

} // verus!
