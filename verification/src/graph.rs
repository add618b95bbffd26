//! The CPPN graph: typed nodes and weighted links between them, kept free of
//! inadmissible links and of cycles.

use vstd::prelude::*;
use acyclic_network::NodeType;
use rand::Rng;
use crate::activation_function::GeometricActivationFunction;
use crate::cppn::{CppnNode, CppnNodeKind};
use crate::model::{CppnLink, CppnNodeIndex, ExternalId, GraphNode, GraphView, InvalidLink};
use crate::network::{
    stored_graph,
    store_add_link,
    store_add_node,
    store_find_random_unconnected_link_no_cycle,
    store_in_degree,
    store_link_would_cycle,
    store_links,
    store_new,
    store_node,
    store_node_count,
    NetworkStore,
};
use crate::scalar::Scalar;

verus! {

/// Why `try_add_link` added no link.
#[derive(Clone, Copy, Debug, PartialEq, Eq)]
pub enum AddLinkError {
    /// Source or target is not a node of the graph.
    NoSuchNode,
    /// The link is not admissible.
    Invalid(InvalidLink),
    /// The link would close a cycle.
    WouldCycle,
    /// The link would come to stand directly behind a link to the same target.
    Duplicate,
    /// The source has as many outgoing links, or the target as many incoming
    /// ones, as 32 bits can count.
    TooManyLinks,
}

impl GraphView {
    /// The invariant of a CPPN graph: links end at nodes, each link is
    /// admissible, and no walk returns to where it began.
    pub open spec fn is_well_formed(self) -> bool {
        &&& self.is_closed()
        &&& self.is_admissible()
        &&& self.is_acyclic(false)
    }

    /// What stands against adding a link from `src` to `dst` with token
    /// `id`, if anything.
    pub open spec fn check_link(self, src: int, dst: int, id: ExternalId) -> Result<(), AddLinkError> {
        if !self.has_node(src) || !self.has_node(dst) {
            Err(AddLinkError::NoSuchNode)
        } else if self.valid_link(src, dst) is Err {
            Err(AddLinkError::Invalid(self.valid_link(src, dst)->Err_0))
        } else if self.would_cycle(src, dst) {
            Err(AddLinkError::WouldCycle)
        } else if self.is_duplicate(src, dst, id) {
            Err(AddLinkError::Duplicate)
        } else if self.links[src].len() >= u32::MAX || self.in_degree(dst) >= u32::MAX {
            Err(AddLinkError::TooManyLinks)
        } else {
            Ok(())
        }
    }

    /// The position in `links` at which a link with token `id` enters is the
    /// one behind every link with a token up to `id` and before a greater
    /// one.
    pub proof fn lemma_insert_position_is(links: Seq<CppnLink>, id: ExternalId, p: int)
        requires
            0 <= p <= links.len(),
            forall|k: int| 0 <= k < p ==> links[k].external_id.0 <= id.0,
            p < links.len() ==> links[p].external_id.0 > id.0,
        ensures
            Self::insert_position(links, id) == p,
        decreases links.len(),
    {
        if links.len() > 0 && p > 0 {
            assert(links.first().external_id.0 <= id.0);
            let rest = links.drop_first();
            assert forall|k: int| 0 <= k < p - 1 implies rest[k].external_id.0 <= id.0 by {
                assert(rest[k] == links[k + 1]);
            }
            Self::lemma_insert_position_is(rest, id, p - 1);
        }
    }

    /// In a well-formed graph no link is a loop, none leaves an output node,
    /// and none enters an input or a bias node.
    pub proof fn lemma_links_are_admissible(self, u: int, k: int)
        requires
            self.is_well_formed(),
            self.is_link(u, k),
        ensures
            self.links[u][k].target.0 != u,
            self.nodes[u].node_type.kind != CppnNodeKind::Output,
            self.nodes[self.links[u][k].target.0 as int].node_type.kind != CppnNodeKind::Input,
            self.nodes[self.links[u][k].target.0 as int].node_type.kind != CppnNodeKind::Bias,
    {
    }

    /// The graph without nodes is well formed.
    pub proof fn lemma_empty_well_formed()
        ensures
            Self::empty().is_well_formed(),
    {
        let g = Self::empty();
        assert forall|p: Seq<int>| #[trigger] g.is_walk(p, false) implies false by {
            assert(g.has_node(p[0]));
        }
    }

    /// One more node leaves the graph well formed.
    pub proof fn lemma_with_node_well_formed(self, node: GraphNode)
        requires
            self.is_well_formed(),
        ensures
            self.with_node(node).is_well_formed(),
    {
        let new = self.with_node(node);
        assert forall|u: int, k: int| #[trigger] new.is_link(u, k) implies new.has_node(
            new.links[u][k].target.0 as int,
        ) && new.valid_link(u, new.links[u][k].target.0 as int) is Ok by {
            assert(self.is_link(u, k));
        }
        self.lemma_with_node_acyclic(node);
    }

    /// An admissible link that closes no cycle leaves the graph well formed.
    pub proof fn lemma_with_link_well_formed(self, src: int, link: CppnLink)
        requires
            self.is_well_formed(),
            self.has_node(src),
            self.has_node(link.target.0 as int),
            self.valid_link(src, link.target.0 as int) is Ok,
            !self.would_cycle(src, link.target.0 as int),
        ensures
            self.with_link(src, link).is_well_formed(),
    {
        let new = self.with_link(src, link);
        let pos = Self::insert_position(self.links[src], link.external_id);
        Self::lemma_insert_position_range(self.links[src], link.external_id);
        assert forall|u: int, k: int| #[trigger] new.is_link(u, k) implies new.has_node(
            new.links[u][k].target.0 as int,
        ) && new.valid_link(u, new.links[u][k].target.0 as int) is Ok by {
            if u == src {
                if k < pos {
                    assert(self.is_link(u, k));
                } else if k > pos {
                    assert(self.is_link(u, k - 1));
                }
            } else {
                assert(self.is_link(u, k));
            }
        }
        self.lemma_with_link_acyclic(src, link);
    }
}

/// A directed acyclic graph of CPPN nodes. Nodes and links are only ever
/// added. Every link is admissible for the kinds of its two nodes, and no
/// walk along the links returns to its first node.
pub struct CppnGraph {
    store: NetworkStore,
}

impl View for CppnGraph {
    type V = GraphView;

    closed spec fn view(&self) -> GraphView {
        stored_graph(self.store)
    }
}

impl CppnGraph {
    #[verifier::type_invariant]
    pub open spec fn inv(self) -> bool {
        self@.is_well_formed()
    }

    /// A graph without nodes.
    pub fn new() -> (r: Self)
        ensures
            r@ == GraphView::empty(),
            r@.is_well_formed(),
    {
        proof {
            GraphView::lemma_empty_well_formed();
        }
        CppnGraph { store: store_new() }
    }

    pub fn node_count(&self) -> (r: usize)
        ensures
            r == self@.nodes.len(),
            self@.is_well_formed(),
    {
        proof {
            use_type_invariant(self);
        }
        store_node_count(&self.store)
    }

    /// The node at `idx`.
    pub fn node(&self, idx: CppnNodeIndex) -> (r: GraphNode)
        requires
            self@.has_node(idx.0 as int),
        ensures
            r == self@.nodes[idx.0 as int],
    {
        store_node(&self.store, idx.0)
    }

    /// The number of links that end at `idx`.
    pub fn in_degree(&self, idx: CppnNodeIndex) -> (r: u32)
        requires
            self@.has_node(idx.0 as int),
        ensures
            r == self@.in_degree(idx.0 as int),
    {
        store_in_degree(&self.store, idx.0)
    }

    /// The links that leave `idx`, in the order in which the graph walks
    /// them.
    pub fn links(&self, idx: CppnNodeIndex) -> (r: Vec<CppnLink>)
        requires
            self@.has_node(idx.0 as int),
        ensures
            r@ == self@.links[idx.0 as int],
    {
        proof {
            use_type_invariant(self);
        }
        store_links(&self.store, idx.0)
    }

    /// Appends a node, without links, and returns its index.
    pub fn add_node(
        &mut self,
        node_type: CppnNode<GeometricActivationFunction>,
        external_node_id: ExternalId,
    ) -> (r: CppnNodeIndex)
        ensures
            final(self)@ == old(self)@.with_node(
                (GraphNode { node_type: node_type, external_id: external_node_id }),
            ),
            r.0 == old(self)@.nodes.len(),
            final(self)@.is_well_formed(),
    {
        proof {
            use_type_invariant(&*self);
            GraphView::lemma_empty_well_formed();
            self@.lemma_with_node_well_formed(
                GraphNode { node_type: node_type, external_id: external_node_id },
            );
        }
        // the graph holds an empty network while the node is added to its own
        let mut store = store_new();
        std::mem::swap(&mut self.store, &mut store);
        let idx = store_add_node(
            &mut store,
            GraphNode { node_type: node_type, external_id: external_node_id },
        );
        std::mem::swap(&mut self.store, &mut store);
        CppnNodeIndex(idx)
    }

    /// Whether a link from `src` to `dst` is admissible: not a loop, not
    /// leaving an output node, not entering an input or a bias node. Cycles
    /// are not looked for.
    pub fn valid_link(&self, src: CppnNodeIndex, dst: CppnNodeIndex) -> (r: Result<(), InvalidLink>)
        requires
            self@.has_node(src.0 as int),
            self@.has_node(dst.0 as int),
        ensures
            r == self@.valid_link(src.0 as int, dst.0 as int),
    {
        if src.0 == dst.0 {
            return Err(InvalidLink::Loop);
        }
        if !store_node(&self.store, src.0).node_type.accept_outgoing_links() {
            return Err(InvalidLink::SourceRejectsOutgoing);
        }
        if !store_node(&self.store, dst.0).node_type.accept_incoming_links() {
            return Err(InvalidLink::TargetRejectsIncoming);
        }
        Ok(())
    }

    /// Whether a link from `src` to `dst` would close a cycle.
    pub fn link_would_cycle(&self, src: CppnNodeIndex, dst: CppnNodeIndex) -> (r: bool)
        requires
            self@.has_node(src.0 as int),
            self@.has_node(dst.0 as int),
        ensures
            r == self@.would_cycle(src.0 as int, dst.0 as int),
    {
        store_link_would_cycle(&self.store, src.0, dst.0)
    }

    /// Whether the graph would refuse a link from `src` to `dst` with token
    /// `id` as a duplicate.
    pub fn is_duplicate_link(&self, src: CppnNodeIndex, dst: CppnNodeIndex, id: ExternalId) -> (r: bool)
        requires
            self@.has_node(src.0 as int),
        ensures
            r == self@.is_duplicate(src.0 as int, dst.0 as int, id),
    {
        let links = store_links(&self.store, src.0);
        let mut p: usize = 0;
        while p < links.len() && links[p].external_id.0 <= id.0
            invariant
                p <= links.len(),
                forall|k: int| 0 <= k < p ==> links[k].external_id.0 <= id.0,
            decreases links.len() - p,
        {
            p += 1;
        }
        proof {
            GraphView::lemma_insert_position_is(links@, id, p as int);
        }
        p > 0 && links[p - 1].target.0 == dst.0
    }

    /// Adds an active link from `src` to `dst`. Among the links that leave
    /// `src` it is placed before the first with a greater token.
    pub fn add_link(
        &mut self,
        src: CppnNodeIndex,
        dst: CppnNodeIndex,
        weight: Scalar,
        external_link_id: ExternalId,
    )
        requires
            old(self)@.check_link(src.0 as int, dst.0 as int, external_link_id) is Ok,
        ensures
            final(self)@ == old(self)@.with_link(
                src.0 as int,
                (CppnLink { target: dst, weight: weight, external_id: external_link_id, active: true }),
            ),
            final(self)@.is_well_formed(),
    {
        let link = CppnLink { target: dst, weight: weight, external_id: external_link_id, active: true };
        proof {
            use_type_invariant(&*self);
            GraphView::lemma_empty_well_formed();
            self@.lemma_with_link_well_formed(src.0 as int, link);
        }
        // the graph holds an empty network while the link is added to its own
        let mut store = store_new();
        std::mem::swap(&mut self.store, &mut store);
        store_add_link(&mut store, src.0, link);
        std::mem::swap(&mut self.store, &mut store);
    }

    /// Adds the link as `add_link` does where nothing stands against it, and
    /// leaves the graph as it is where something does.
    pub fn try_add_link(
        &mut self,
        src: CppnNodeIndex,
        dst: CppnNodeIndex,
        weight: Scalar,
        external_link_id: ExternalId,
    ) -> (r: Result<(), AddLinkError>)
        ensures
            r == old(self)@.check_link(src.0 as int, dst.0 as int, external_link_id),
            r is Ok ==> final(self)@ == old(self)@.with_link(
                src.0 as int,
                (CppnLink { target: dst, weight: weight, external_id: external_link_id, active: true }),
            ),
            r is Err ==> final(self)@ == old(self)@,
            final(self)@.is_well_formed(),
    {
        proof {
            use_type_invariant(&*self);
        }
        let n = store_node_count(&self.store);
        if src.0 >= n || dst.0 >= n {
            return Err(AddLinkError::NoSuchNode);
        }
        match self.valid_link(src, dst) {
            Err(e) => {
                return Err(AddLinkError::Invalid(e));
            },
            Ok(()) => {},
        }
        if self.link_would_cycle(src, dst) {
            return Err(AddLinkError::WouldCycle);
        }
        if self.is_duplicate_link(src, dst, external_link_id) {
            return Err(AddLinkError::Duplicate);
        }
        let out_degree = store_links(&self.store, src.0).len();
        if out_degree >= u32::MAX as usize || store_in_degree(&self.store, dst.0) >= u32::MAX {
            return Err(AddLinkError::TooManyLinks);
        }
        self.add_link(src, dst, weight, external_link_id);
        Ok(())
    }

    /// Whether some link, active or not, leads from `src` to `dst`.
    pub fn has_link(&self, src: CppnNodeIndex, dst: CppnNodeIndex) -> (r: bool)
        requires
            self@.has_node(src.0 as int),
        ensures
            r == self@.has_link(src.0 as int, dst.0 as int, false),
    {
        proof {
            use_type_invariant(self);
        }
        let links = store_links(&self.store, src.0);
        let mut k: usize = 0;
        while k < links.len()
            invariant
                k <= links.len(),
                self@.is_closed(),
                self@.has_node(src.0 as int),
                links@ == self@.links[src.0 as int],
                forall|j: int| 0 <= j < k ==> (#[trigger] links[j]).target.0 != dst.0,
            decreases links.len() - k,
        {
            if links[k].target.0 == dst.0 {
                assert(self@.is_link(src.0 as int, k as int));
                return true;
            }
            k += 1;
        }
        assert forall|j: int| #[trigger] self@.is_link(src.0 as int, j) implies links[j].target.0
            != dst.0 by {
            assert(links[j].target.0 != dst.0);
        }
        false
    }

    /// Whether a link from `src` to `dst` is free to be added.
    pub fn is_free_link(&self, src: CppnNodeIndex, dst: CppnNodeIndex) -> (r: bool)
        requires
            self@.has_node(src.0 as int),
            self@.has_node(dst.0 as int),
        ensures
            r == self@.is_free_link(src.0 as int, dst.0 as int),
    {
        src.0 != dst.0 && !self.has_link(src, dst) && !self.has_link(dst, src) && self.valid_link(
            src,
            dst,
        ).is_ok() && !self.link_would_cycle(src, dst)
    }

    /// The first pair of nodes, by source and then by target, between which
    /// a link is free to be added.
    pub fn first_free_link(&self) -> (r: Option<(CppnNodeIndex, CppnNodeIndex)>)
        ensures
            match r {
                Some((src, dst)) => {
                    &&& self@.is_free_link(src.0 as int, dst.0 as int)
                    &&& forall|s: int, d: int|
                        s < src.0 || (s == src.0 && d < dst.0) ==> !#[trigger] self@.is_free_link(s, d)
                },
                None => forall|s: int, d: int| !#[trigger] self@.is_free_link(s, d),
            },
    {
        let n = store_node_count(&self.store);
        let mut src: usize = 0;
        while src < n
            invariant
                src <= n,
                n == self@.nodes.len(),
                forall|s: int, d: int| s < src ==> !#[trigger] self@.is_free_link(s, d),
            decreases n - src,
        {
            let mut dst: usize = 0;
            while dst < n
                invariant
                    dst <= n,
                    src < n,
                    n == self@.nodes.len(),
                    forall|s: int, d: int|
                        s < src || (s == src && d < dst) ==> !#[trigger] self@.is_free_link(s, d),
                decreases n - dst,
            {
                if self.is_free_link(CppnNodeIndex(src), CppnNodeIndex(dst)) {
                    return Some((CppnNodeIndex(src), CppnNodeIndex(dst)));
                }
                dst += 1;
            }
            src += 1;
        }
        None
    }

    /// Picks a pair of nodes between which a link is free to be added. The
    /// choice among several such pairs is drawn from `rng`; there is a result
    /// whenever there is such a pair.
    pub fn find_random_unconnected_link_no_cycle<R: Rng>(&self, rng: &mut R) -> (r: Option<
        (CppnNodeIndex, CppnNodeIndex),
    >)
        ensures
            match r {
                Some((src, dst)) => self@.is_free_link(src.0 as int, dst.0 as int),
                None => forall|src: int, dst: int| !#[trigger] self@.is_free_link(src, dst),
            },
    {
        let n = store_node_count(&self.store);
        // the random search keeps one bit for each pair of nodes
        if n.checked_mul(n).is_none() {
            return self.first_free_link();
        }
        match store_find_random_unconnected_link_no_cycle(&self.store, rng) {
            Some((src, dst)) => Some((CppnNodeIndex(src), CppnNodeIndex(dst))),
            // the search found nothing: make sure that there is nothing
            None => self.first_free_link(),
        }
    }
}

} // verus!
