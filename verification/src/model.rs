//! The mathematical model of a CPPN graph: typed nodes, and for each node the
//! ordered list of its outgoing links.

use vstd::prelude::*;
use crate::activation_function::GeometricActivationFunction;
use crate::cppn::{CppnNode, CppnNodeKind};
use crate::scalar::Scalar;

verus! {

/// The position of a node in its graph. Positions are dense: the node added
/// first has index 0, the next 1, and so on.
#[derive(Clone, Copy, Debug, PartialEq, Eq, PartialOrd, Ord, Structural)]
pub struct CppnNodeIndex(pub usize);

impl CppnNodeIndex {
    pub open spec fn spec_index(&self) -> usize {
        self.0
    }

    pub fn new(index: usize) -> (r: Self)
        ensures
            r.0 == index,
    {
        CppnNodeIndex(index)
    }

    #[verifier::when_used_as_spec(spec_index)]
    pub fn index(&self) -> (r: usize)
        ensures
            r == self.0,
    {
        self.0
    }
}

/// A token that the caller attaches to a node or a link. The graph stores it
/// and orders the links of a node by it, and gives it no other meaning.
#[derive(Clone, Copy, Debug, PartialEq, Eq, PartialOrd, Ord, Structural)]
pub struct ExternalId(pub usize);

/// A node of the graph: its type and the caller's token.
#[derive(Clone, Debug, PartialEq, Eq)]
pub struct GraphNode {
    pub node_type: CppnNode<GeometricActivationFunction>,
    pub external_id: ExternalId,
}

/// An outgoing link of some node.
#[derive(Clone, Copy, Debug, PartialEq, Eq)]
pub struct CppnLink {
    pub target: CppnNodeIndex,
    pub weight: Scalar,
    pub external_id: ExternalId,
    pub active: bool,
}

/// Why a link between two nodes is not admissible.
#[derive(Clone, Copy, Debug, PartialEq, Eq, Structural)]
pub enum InvalidLink {
    /// Source and target are the same node.
    Loop,
    /// The source is an output node.
    SourceRejectsOutgoing,
    /// The target is an input or a bias node.
    TargetRejectsIncoming,
}

/// A graph as a mathematical value. `links[u]` lists the links that leave
/// node `u`, in the order in which the graph walks them.
pub struct GraphView {
    pub nodes: Seq<GraphNode>,
    pub links: Seq<Seq<CppnLink>>,
}

impl GraphView {
    pub open spec fn empty() -> GraphView {
        GraphView { nodes: Seq::empty(), links: Seq::empty() }
    }

    pub open spec fn has_node(self, v: int) -> bool {
        0 <= v < self.nodes.len()
    }

    /// `k` is a position in the list of links that leave `u`.
    pub open spec fn is_link(self, u: int, k: int) -> bool {
        0 <= u < self.links.len() && 0 <= k < self.links[u].len()
    }

    /// Every node has its list of links, and every link ends at a node.
    pub open spec fn is_closed(self) -> bool {
        &&& self.links.len() == self.nodes.len()
        &&& forall|u: int, k: int| #[trigger]
            self.is_link(u, k) ==> self.has_node(self.links[u][k].target.0 as int)
    }

    /// What stands against a link from `src` to `dst`, if anything.
    pub open spec fn valid_link(self, src: int, dst: int) -> Result<(), InvalidLink> {
        if src == dst {
            Err(InvalidLink::Loop)
        } else if !self.nodes[src].node_type.kind.accepts_outgoing() {
            Err(InvalidLink::SourceRejectsOutgoing)
        } else if !self.nodes[dst].node_type.kind.accepts_incoming() {
            Err(InvalidLink::TargetRejectsIncoming)
        } else {
            Ok(())
        }
    }

    /// No link is a loop, none leaves an output node, none enters an input
    /// or a bias node.
    pub open spec fn is_admissible(self) -> bool {
        forall|u: int, k: int| #[trigger]
            self.is_link(u, k) ==> self.valid_link(u, self.links[u][k].target.0 as int) is Ok
    }

    /// There is a link from `u` to `v`; if `active_only`, an active one.
    pub open spec fn has_link(self, u: int, v: int, active_only: bool) -> bool {
        exists|k: int| #[trigger]
            self.is_link(u, k) && self.links[u][k].target.0 == v && (active_only
                ==> self.links[u][k].active)
    }

    /// The number of links in `links` that end at `v`.
    pub open spec fn count_into(links: Seq<CppnLink>, v: int) -> nat
        decreases links.len(),
    {
        if links.len() == 0 {
            0
        } else {
            Self::count_into(links.drop_last(), v) + if links.last().target.0 == v {
                1nat
            } else {
                0nat
            }
        }
    }

    /// The number of links that leave one of the first `n` nodes and end at
    /// `v`.
    pub open spec fn in_degree_upto(self, v: int, n: int) -> nat
        decreases n,
    {
        if n <= 0 {
            0
        } else {
            self.in_degree_upto(v, n - 1) + Self::count_into(self.links[n - 1], v)
        }
    }

    /// The number of links that end at `v`, active or not.
    pub open spec fn in_degree(self, v: int) -> nat {
        self.in_degree_upto(v, self.links.len() as int)
    }

    /// The position at which a link with token `id` enters the list `links`:
    /// before the first link with a greater token, at the end where there is
    /// none.
    pub open spec fn insert_position(links: Seq<CppnLink>, id: ExternalId) -> int
        decreases links.len(),
    {
        if links.len() == 0 {
            0
        } else if links.first().external_id.0 > id.0 {
            0
        } else {
            1 + Self::insert_position(links.drop_first(), id)
        }
    }

    /// The graph refuses a link from `src` to `dst` with token `id` as a
    /// duplicate: the link that it would come to stand behind ends at `dst`
    /// too.
    pub open spec fn is_duplicate(self, src: int, dst: int, id: ExternalId) -> bool {
        let p = Self::insert_position(self.links[src], id);
        p > 0 && self.links[src][p - 1].target.0 == dst
    }

    /// The graph with one more node, which has no links yet.
    pub open spec fn with_node(self, node: GraphNode) -> GraphView {
        GraphView { nodes: self.nodes.push(node), links: self.links.push(Seq::empty()) }
    }

    /// The graph with one more link leaving `src`, placed by its token.
    pub open spec fn with_link(self, src: int, link: CppnLink) -> GraphView {
        GraphView {
            nodes: self.nodes,
            links: self.links.update(
                src,
                self.links[src].insert(Self::insert_position(self.links[src], link.external_id), link),
            ),
        }
    }
}

/// The indices below `n` for which `wanted` holds, in ascending order.
pub open spec fn select(n: int, wanted: spec_fn(int) -> bool) -> Seq<CppnNodeIndex>
    decreases n,
{
    if n <= 0 {
        Seq::empty()
    } else if wanted(n - 1) {
        select(n - 1, wanted).push(CppnNodeIndex((n - 1) as usize))
    } else {
        select(n - 1, wanted)
    }
}

/// What `select` holds: indices below `n`, ascending, each wanted.
pub proof fn lemma_select_sound(n: int, wanted: spec_fn(int) -> bool, i: int)
    requires
        0 <= i < select(n, wanted).len(),
        n <= usize::MAX,
    ensures
        0 <= select(n, wanted)[i].0 < n,
        wanted(select(n, wanted)[i].0 as int),
        forall|j: int| 0 <= j < i ==> select(n, wanted)[j].0 < select(n, wanted)[i].0,
    decreases n,
{
    if n > 0 {
        let prev = select(n - 1, wanted);
        if i < prev.len() {
            lemma_select_sound(n - 1, wanted, i);
        } else {
            assert forall|j: int| 0 <= j < i implies select(n, wanted)[j].0 < select(n, wanted)[i].0 by {
                lemma_select_sound(n - 1, wanted, j);
            }
        }
    }
}

/// What `select` holds: every wanted index below `n`.
pub proof fn lemma_select_complete(n: int, wanted: spec_fn(int) -> bool, v: int)
    requires
        0 <= v < n,
        wanted(v),
    ensures
        select(n, wanted).contains(CppnNodeIndex(v as usize)),
    decreases n,
{
    let prev = select(n - 1, wanted);
    if v == n - 1 {
        assert(select(n, wanted).last() == CppnNodeIndex(v as usize));
    } else {
        lemma_select_complete(n - 1, wanted, v);
        let j = choose|j: int| 0 <= j < prev.len() && prev[j] == CppnNodeIndex(v as usize);
        if wanted(n - 1) {
            assert(select(n, wanted)[j] == CppnNodeIndex(v as usize));
        }
    }
}

impl GraphView {
    pub open spec fn is_input(self, v: int) -> bool {
        self.nodes[v].node_type.kind == CppnNodeKind::Input
    }

    pub open spec fn is_output(self, v: int) -> bool {
        self.nodes[v].node_type.kind == CppnNodeKind::Output
    }

    /// A start node is one at which no link ends.
    pub open spec fn is_start(self, v: int) -> bool {
        self.in_degree(v) == 0
    }

    /// The input nodes, by ascending index.
    pub open spec fn input_nodes(self) -> Seq<CppnNodeIndex> {
        select(self.nodes.len() as int, |v: int| self.is_input(v))
    }

    /// The output nodes, by ascending index.
    pub open spec fn output_nodes(self) -> Seq<CppnNodeIndex> {
        select(self.nodes.len() as int, |v: int| self.is_output(v))
    }

    /// The start nodes, by ascending index.
    pub open spec fn start_nodes(self) -> Seq<CppnNodeIndex> {
        select(self.nodes.len() as int, |v: int| self.is_start(v))
    }

    proof fn lemma_count_into_zero(links: Seq<CppnLink>, v: int)
        ensures
            Self::count_into(links, v) == 0 <==> forall|k: int|
                0 <= k < links.len() ==> (#[trigger] links[k]).target.0 != v,
        decreases links.len(),
    {
        if links.len() > 0 {
            let front = links.drop_last();
            Self::lemma_count_into_zero(front, v);
            if Self::count_into(links, v) == 0 {
                assert forall|k: int| 0 <= k < links.len() implies (#[trigger] links[k]).target.0
                    != v by {
                    if k < front.len() {
                        assert(front[k] == links[k]);
                    }
                }
            } else if links.last().target.0 != v {
                let k = choose|k: int| 0 <= k < front.len() && (#[trigger] front[k]).target.0 == v;
                assert(links[k] == front[k]);
            }
        }
    }

    proof fn lemma_in_degree_upto_zero(self, v: int, n: int)
        requires
            0 <= n <= self.links.len(),
        ensures
            self.in_degree_upto(v, n) == 0 <==> forall|u: int, k: int| #[trigger]
                self.is_link(u, k) && u < n ==> self.links[u][k].target.0 != v,
        decreases n,
    {
        if n > 0 {
            self.lemma_in_degree_upto_zero(v, n - 1);
            Self::lemma_count_into_zero(self.links[n - 1], v);
            if self.in_degree_upto(v, n) == 0 {
                assert forall|u: int, k: int| #[trigger] self.is_link(u, k) && u < n implies
                    self.links[u][k].target.0 != v by {
                    if u < n - 1 {
                        assert(self.is_link(u, k));
                    }
                }
            } else if self.in_degree_upto(v, n - 1) == 0 {
                let k = choose|k: int|
                    0 <= k < self.links[n - 1].len() && (#[trigger] self.links[n - 1][k]).target.0 == v;
                assert(self.is_link(n - 1, k));
            } else {
                let (u, k) = choose|u: int, k: int| #[trigger]
                    self.is_link(u, k) && u < n - 1 && self.links[u][k].target.0 == v;
                assert(self.is_link(u, k) && u < n);
            }
        }
    }

    /// A node is a start node exactly when no link, active or not, ends at
    /// it.
    pub proof fn lemma_start_has_no_incoming(self, v: int)
        ensures
            self.is_start(v) <==> forall|u: int| !self.has_link(u, v, false),
    {
        self.lemma_in_degree_upto_zero(v, self.links.len() as int);
        if self.is_start(v) {
            assert forall|u: int| !self.has_link(u, v, false) by {
                if self.has_link(u, v, false) {
                    let k = choose|k: int| #[trigger]
                        self.is_link(u, k) && self.links[u][k].target.0 == v;
                    assert(self.is_link(u, k) && u < self.links.len());
                }
            }
        } else {
            let (u, k) = choose|u: int, k: int| #[trigger]
                self.is_link(u, k) && u < self.links.len() && self.links[u][k].target.0 == v;
            assert(self.has_link(u, v, false));
        }
    }
}

} // verus!
