//! Layering: the rank of each node of a graph, and why the ranks are
//! determined by the graph.

use vstd::prelude::*;
use crate::model::GraphView;

verus! {

impl GraphView {
    /// The rank from which a node starts: inputs at 0, outputs behind every
    /// rank that another node can reach, all others at 1.
    pub open spec fn initial_rank(self, v: int) -> int {
        if self.is_input(v) {
            0
        } else if self.is_output(v) {
            self.nodes.len() as int + 1
        } else {
            1
        }
    }

    /// Every active link leads to a node of higher rank.
    pub open spec fn respects_links(self, ranks: Seq<usize>) -> bool {
        forall|u: int, k: int| #[trigger]
            self.is_link(u, k) && self.links[u][k].active ==> ranks[u]
                < ranks[self.links[u][k].target.0 as int]
    }

    /// The walk `p` along active links ends at `v` and accounts for the rank
    /// of `v`: one rank for each link, on top of the initial rank of the
    /// node at which `p` begins.
    pub open spec fn rank_witness(self, ranks: Seq<usize>, v: int, p: Seq<int>) -> bool {
        &&& self.is_walk(p, true)
        &&& p.last() == v
        &&& ranks[v] == self.initial_rank(p.first()) + p.len() - 1
    }

    /// The rank of `v` is no higher than some walk to `v` demands.
    pub open spec fn is_tight(self, ranks: Seq<usize>, v: int) -> bool {
        exists|p: Seq<int>| #[trigger] self.rank_witness(ranks, v, p)
    }

    /// `ranks` gives each node a rank that is no lower than its initial rank
    /// and no higher than some walk to the node demands.
    pub open spec fn is_partial_layout(self, ranks: Seq<usize>) -> bool {
        &&& ranks.len() == self.nodes.len()
        &&& forall|v: int| self.has_node(v) ==> #[trigger] ranks[v] >= self.initial_rank(v)
        &&& forall|v: int| self.has_node(v) ==> #[trigger] self.is_tight(ranks, v)
    }

    /// `ranks` is the layering of the graph: no node stands below its
    /// initial rank, every active link leads to a higher rank, and no rank
    /// is higher than these two rules demand.
    pub open spec fn is_layout(self, ranks: Seq<usize>) -> bool {
        &&& self.is_partial_layout(ranks)
        &&& self.respects_links(ranks)
    }

    /// The active links that stand before link `k_end` of node `u_end`, in
    /// the order of nodes and of links within a node, lead to a higher rank.
    pub open spec fn settled_before(self, ranks: Seq<usize>, u_end: int, k_end: int) -> bool {
        forall|u: int, k: int| #[trigger]
            self.is_link(u, k) && self.links[u][k].active && (u < u_end || (u == u_end && k < k_end))
                ==> ranks[u] < ranks[self.links[u][k].target.0 as int]
    }

    /// By how much the ranks stay below `cap`, summed over the nodes.
    pub open spec fn slack(ranks: Seq<usize>, cap: int) -> int
        decreases ranks.len(),
    {
        if ranks.len() == 0 {
            0
        } else {
            Self::slack(ranks.drop_last(), cap) + cap - ranks.last()
        }
    }

    pub proof fn lemma_slack_nonnegative(ranks: Seq<usize>, cap: int)
        requires
            forall|v: int| 0 <= v < ranks.len() ==> ranks[v] <= cap,
        ensures
            Self::slack(ranks, cap) >= 0,
        decreases ranks.len(),
    {
        if ranks.len() > 0 {
            Self::lemma_slack_nonnegative(ranks.drop_last(), cap);
        }
    }

    /// Raising one rank lowers the slack by as much.
    pub proof fn lemma_slack_update(ranks: Seq<usize>, cap: int, w: int, rank: usize)
        requires
            0 <= w < ranks.len(),
        ensures
            Self::slack(ranks.update(w, rank), cap) == Self::slack(ranks, cap) - (rank - ranks[w]),
        decreases ranks.len(),
    {
        let new = ranks.update(w, rank);
        if w == ranks.len() - 1 {
            assert(new.drop_last() =~= ranks.drop_last());
        } else {
            assert(new.drop_last() =~= ranks.drop_last().update(w, rank));
            Self::lemma_slack_update(ranks.drop_last(), cap, w, rank);
        }
    }

    /// Along a walk over active links the rank rises by one or more with
    /// each link.
    pub proof fn lemma_rank_along_walk(self, ranks: Seq<usize>, p: Seq<int>)
        requires
            self.respects_links(ranks),
            self.is_walk(p, true),
        ensures
            ranks[p.last()] >= ranks[p.first()] + p.len() - 1,
        decreases p.len(),
    {
        if p.len() >= 2 {
            let front = p.drop_last();
            self.lemma_subwalk(p, 0, p.len() - 1, true);
            assert(front =~= p.subrange(0, p.len() - 1));
            self.lemma_rank_along_walk(ranks, front);
            assert(self.is_step(p, p.len() - 2, true));
            let u = p[p.len() - 2];
            let k = choose|k: int| #[trigger]
                self.is_link(u, k) && self.links[u][k].target.0 == p.last() && self.links[u][k].active;
            assert(self.is_link(u, k));
        }
    }

    /// A graph has one layering only.
    pub proof fn lemma_layout_unique(self, a: Seq<usize>, b: Seq<usize>)
        requires
            self.is_layout(a),
            self.is_layout(b),
        ensures
            a == b,
    {
        assert forall|v: int| 0 <= v < a.len() implies a[v] == b[v] by {
            assert(self.is_tight(a, v));
            let p = choose|p: Seq<int>| #[trigger] self.rank_witness(a, v, p);
            self.lemma_rank_along_walk(b, p);
            assert(self.has_node(p[0]));
            assert(b[p.first()] >= self.initial_rank(p.first()));
            assert(self.is_tight(b, v));
            let q = choose|q: Seq<int>| #[trigger] self.rank_witness(b, v, q);
            self.lemma_rank_along_walk(a, q);
            assert(self.has_node(q[0]));
            assert(a[q.first()] >= self.initial_rank(q.first()));
        }
        assert(a =~= b);
    }

    /// The initial ranks are a partial layout.
    pub proof fn lemma_initial_ranks(self, ranks: Seq<usize>)
        requires
            ranks.len() == self.nodes.len(),
            forall|v: int| self.has_node(v) ==> #[trigger] ranks[v] == self.initial_rank(v),
        ensures
            self.is_partial_layout(ranks),
    {
        assert forall|v: int| self.has_node(v) implies #[trigger] self.is_tight(ranks, v) by {
            assert(self.rank_witness(ranks, v, seq![v]));
        }
    }

    /// In a well-formed graph no rank of a partial layout is more than one
    /// higher than the number of nodes.
    pub proof fn lemma_partial_layout_bound(self, ranks: Seq<usize>)
        requires
            self.is_well_formed(),
            self.is_partial_layout(ranks),
        ensures
            forall|v: int| 0 <= v < ranks.len() ==> #[trigger] ranks[v] <= self.nodes.len() + 1,
    {
        assert forall|v: int| 0 <= v < ranks.len() implies #[trigger] ranks[v] <= self.nodes.len() + 1 by {
            assert(self.is_tight(ranks, v));
            let p = choose|p: Seq<int>| #[trigger] self.rank_witness(ranks, v, p);
            self.lemma_rank_bound(ranks, v, p);
        }
    }

    /// Where an active link leads to a rank that is not higher, the target
    /// can be raised to one rank above the source: that rank is at most one
    /// higher than the number of nodes, and the ranks stay a partial layout.
    pub proof fn lemma_raise_target(self, ranks: Seq<usize>, u: int, k: int)
        requires
            self.is_well_formed(),
            self.is_partial_layout(ranks),
            self.is_link(u, k),
            self.links[u][k].active,
            ranks[self.links[u][k].target.0 as int] <= ranks[u],
            self.nodes.len() < usize::MAX,
        ensures
            ranks[u] + 1 <= self.nodes.len() + 1,
            self.is_partial_layout(ranks.update(self.links[u][k].target.0 as int, (ranks[u] + 1) as usize)),
    {
        let w = self.links[u][k].target.0 as int;
        let raised = ranks.update(w, (ranks[u] + 1) as usize);
        assert(self.is_tight(ranks, u));
        let p = choose|p: Seq<int>| #[trigger] self.rank_witness(ranks, u, p);
        self.lemma_rank_bound(ranks, u, p);
        self.lemma_extend_walk(p, w, true);
        assert forall|v: int| self.has_node(v) implies #[trigger] self.is_tight(raised, v) by {
            if v == w {
                assert(self.rank_witness(raised, v, p.push(w)));
            } else {
                assert(self.is_tight(ranks, v));
                let q = choose|q: Seq<int>| #[trigger] self.rank_witness(ranks, v, q);
                assert(self.rank_witness(raised, v, q));
            }
        }
    }

    /// In a well-formed graph a rank that a walk accounts for is at most one
    /// more than the number of nodes, and at most that number where the node
    /// is no output.
    pub proof fn lemma_rank_bound(self, ranks: Seq<usize>, v: int, p: Seq<int>)
        requires
            self.is_well_formed(),
            self.rank_witness(ranks, v, p),
        ensures
            ranks[v] <= self.nodes.len() + 1,
            !self.is_output(v) ==> ranks[v] <= self.nodes.len(),
    {
        self.lemma_acyclic_active();
        self.lemma_walk_length(p, true);
        assert(self.has_node(p[0]));
        if self.is_output(p.first()) && p.len() >= 2 {
            assert(self.is_step(p, 0, true));
            let k = choose|k: int| #[trigger]
                self.is_link(p[0], k) && self.links[p[0]][k].target.0 == p[1];
            assert(self.is_link(p[0], k));
        }
    }
}

/// The indices below `n` whose rank is `rank`, in ascending order.
pub open spec fn with_rank(ranks: Seq<usize>, rank: int, n: int) -> Seq<usize>
    decreases n,
{
    if n <= 0 {
        Seq::empty()
    } else if ranks[n - 1] == rank {
        with_rank(ranks, rank, n - 1).push((n - 1) as usize)
    } else {
        with_rank(ranks, rank, n - 1)
    }
}

/// The layers of the ranks below `rank_end`: for each such rank that some
/// node has, by ascending rank, the nodes of that rank.
pub open spec fn layers_below(ranks: Seq<usize>, rank_end: int) -> Seq<Seq<usize>>
    decreases rank_end,
{
    if rank_end <= 0 {
        Seq::empty()
    } else if with_rank(ranks, rank_end - 1, ranks.len() as int).len() > 0 {
        layers_below(ranks, rank_end - 1).push(with_rank(ranks, rank_end - 1, ranks.len() as int))
    } else {
        layers_below(ranks, rank_end - 1)
    }
}

/// `layers` holds the nodes with a rank below `rank_end`, each once: no
/// layer is empty, the nodes of a layer share one rank and stand by ascending
/// index, and the layers stand by ascending rank.
pub open spec fn is_grouping_below(ranks: Seq<usize>, layers: Seq<Seq<usize>>, rank_end: int) -> bool {
    &&& forall|i: int| 0 <= i < layers.len() ==> (#[trigger] layers[i]).len() > 0
    &&& forall|i: int, j: int|
        0 <= i < layers.len() && 0 <= j < layers[i].len() ==> {
            &&& (#[trigger] layers[i][j]) < ranks.len()
            &&& ranks[layers[i][j] as int] == ranks[layers[i][0] as int]
            &&& ranks[layers[i][j] as int] < rank_end
        }
    &&& forall|i: int, j1: int, j2: int|
        0 <= i < layers.len() && 0 <= j1 < j2 < layers[i].len() ==> (#[trigger] layers[i][j1])
            < (#[trigger] layers[i][j2])
    &&& forall|i1: int, i2: int|
        0 <= i1 < i2 < layers.len() ==> ranks[(#[trigger] layers[i1])[0] as int]
            < ranks[(#[trigger] layers[i2])[0] as int]
    &&& forall|v: int|
        0 <= v < ranks.len() && (#[trigger] ranks[v]) < rank_end ==> exists|i: int, j: int|
            0 <= i < layers.len() && 0 <= j < layers[i].len() && #[trigger] layers[i][j] == v
}

/// `layers` is the partition of all nodes by rank: no layer is empty, the
/// nodes of a layer share one rank and stand by ascending index, the layers
/// stand by ascending rank, and every node is in one of them.
pub open spec fn is_grouping(ranks: Seq<usize>, layers: Seq<Seq<usize>>) -> bool {
    is_grouping_below(ranks, layers, usize::MAX + 1)
}

pub proof fn lemma_with_rank(ranks: Seq<usize>, rank: int, n: int)
    requires
        0 <= n <= ranks.len() <= usize::MAX,
    ensures
        forall|j: int|
            0 <= j < with_rank(ranks, rank, n).len() ==> (#[trigger] with_rank(ranks, rank, n)[j]) < n
                && ranks[with_rank(ranks, rank, n)[j] as int] == rank,
        forall|j1: int, j2: int|
            0 <= j1 < j2 < with_rank(ranks, rank, n).len() ==> (#[trigger] with_rank(ranks, rank, n)[j1])
                < (#[trigger] with_rank(ranks, rank, n)[j2]),
        forall|v: int|
            0 <= v < n && (#[trigger] ranks[v]) == rank ==> exists|j: int|
                0 <= j < with_rank(ranks, rank, n).len() && #[trigger] with_rank(ranks, rank, n)[j] == v,
    decreases n,
{
    if n > 0 {
        lemma_with_rank(ranks, rank, n - 1);
        let prev = with_rank(ranks, rank, n - 1);
        let cur = with_rank(ranks, rank, n);
        assert forall|v: int| 0 <= v < n && (#[trigger] ranks[v]) == rank implies exists|j: int|
            0 <= j < cur.len() && #[trigger] cur[j] == v by {
            if v == n - 1 {
                assert(cur[cur.len() - 1] == v);
            } else {
                let j = choose|j: int| 0 <= j < prev.len() && #[trigger] prev[j] == v;
                assert(cur[j] == v);
            }
        }
    }
}

/// The layers of the ranks below `rank_end` group the nodes of those ranks.
pub proof fn lemma_layers_below(ranks: Seq<usize>, rank_end: int)
    requires
        ranks.len() <= usize::MAX,
    ensures
        is_grouping_below(ranks, layers_below(ranks, rank_end), rank_end),
    decreases rank_end,
{
    if rank_end > 0 {
        lemma_layers_below(ranks, rank_end - 1);
        let n = ranks.len() as int;
        let prev = layers_below(ranks, rank_end - 1);
        let layer = with_rank(ranks, rank_end - 1, n);
        let cur = layers_below(ranks, rank_end);
        lemma_with_rank(ranks, rank_end - 1, n);
        assert forall|i1: int, i2: int| 0 <= i1 < i2 < cur.len() implies ranks[(#[trigger] cur[i1])[0] as int]
            < ranks[(#[trigger] cur[i2])[0] as int] by {
            if i2 < prev.len() {
                assert(cur[i1] == prev[i1] && cur[i2] == prev[i2]);
            } else {
                assert(cur[i1] == prev[i1]);
                assert(ranks[prev[i1][0] as int] < rank_end - 1);
                assert(ranks[layer[0] as int] == rank_end - 1);
            }
        }
        assert forall|v: int| 0 <= v < ranks.len() && (#[trigger] ranks[v]) < rank_end implies exists|
            i: int,
            j: int,
        | 0 <= i < cur.len() && 0 <= j < cur[i].len() && #[trigger] cur[i][j] == v by {
            if ranks[v] < rank_end - 1 {
                let (i, j) = choose|i: int, j: int|
                    0 <= i < prev.len() && 0 <= j < prev[i].len() && #[trigger] prev[i][j] == v;
                assert(cur[i][j] == v);
            } else {
                let j = choose|j: int| 0 <= j < layer.len() && #[trigger] layer[j] == v;
                assert(cur[cur.len() - 1][j] == v);
            }
        }
    }
}

impl GraphView {
    /// The inputs stand at rank 0, the outputs one rank behind the number of
    /// nodes, and every other node at a rank from 1 to the number of nodes.
    pub open spec fn has_fixed_ends(self, ranks: Seq<usize>) -> bool {
        forall|v: int|
            self.has_node(v) ==> {
                &&& self.is_input(v) ==> (#[trigger] ranks[v]) == 0
                &&& self.is_output(v) ==> ranks[v] == self.nodes.len() + 1
                &&& !self.is_input(v) && !self.is_output(v) ==> 1 <= ranks[v] <= self.nodes.len()
            }
    }

    /// In the layering of a well-formed graph the inputs stand first and the
    /// outputs last.
    pub proof fn lemma_layout_has_fixed_ends(self, ranks: Seq<usize>)
        requires
            self.is_well_formed(),
            self.is_layout(ranks),
        ensures
            self.has_fixed_ends(ranks),
    {
        assert forall|v: int| self.has_node(v) implies {
            &&& self.is_input(v) ==> (#[trigger] ranks[v]) == 0
            &&& self.is_output(v) ==> ranks[v] == self.nodes.len() + 1
            &&& !self.is_input(v) && !self.is_output(v) ==> 1 <= ranks[v] <= self.nodes.len()
        } by {
            self.lemma_layout_ends(ranks, v);
        }
    }

    proof fn lemma_layout_ends(self, ranks: Seq<usize>, v: int)
        requires
            self.is_well_formed(),
            self.is_layout(ranks),
            self.has_node(v),
        ensures
            self.is_input(v) ==> ranks[v] == 0,
            self.is_output(v) ==> ranks[v] == self.nodes.len() + 1,
            !self.is_input(v) && !self.is_output(v) ==> 1 <= ranks[v] <= self.nodes.len(),
    {
        assert(self.is_tight(ranks, v));
        let p = choose|p: Seq<int>| #[trigger] self.rank_witness(ranks, v, p);
        self.lemma_rank_bound(ranks, v, p);
        assert(ranks[v] >= self.initial_rank(v));
        if self.is_input(v) && p.len() >= 2 {
            // no link ends at an input
            assert(self.is_step(p, p.len() - 2, true));
            let u = p[p.len() - 2];
            let k = choose|k: int| #[trigger] self.is_link(u, k) && self.links[u][k].target.0 == v;
            assert(self.is_link(u, k));
        }
    }

    /// `layers` is the partition of the nodes by their rank in the layering
    /// of the graph.
    pub open spec fn is_layering(self, layers: Seq<Seq<usize>>) -> bool {
        exists|ranks: Seq<usize>| #[trigger] self.is_layout(ranks) && is_grouping(ranks, layers)
    }
}

} // verus!
