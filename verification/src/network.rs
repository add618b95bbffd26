//! Storage of a CPPN graph in an `acyclic_network::Network`, and the
//! contracts under which the rest of the crate uses it. Nothing in this file
//! is proved: each function states what the network's source shows.

use vstd::prelude::*;
use acyclic_network::{Network, NodeIndex};
use rand::Rng;
use crate::activation_function::GeometricActivationFunction;
use crate::cppn::CppnNode;
use crate::model::{CppnLink, CppnNodeIndex, ExternalId, GraphNode, GraphView};
use crate::scalar::Scalar;

verus! {

/// A network of CPPN nodes whose links carry a weight's bits and whose
/// tokens are plain numbers. The verifier does not look into it: what it
/// holds is known through `stored_nodes` and `stored_links` alone.
#[verifier::external_body]
pub struct NetworkStore {
    net: Network<CppnNode<GeometricActivationFunction>, u64, usize>,
}

/// The nodes of the network, by index.
pub uninterp spec fn stored_nodes(store: NetworkStore) -> Seq<GraphNode>;

/// For each node of the network, by index, the links that leave it, in the
/// order in which the network walks them.
pub uninterp spec fn stored_links(store: NetworkStore) -> Seq<Seq<CppnLink>>;

pub open spec fn stored_graph(store: NetworkStore) -> GraphView {
    GraphView { nodes: stored_nodes(store), links: stored_links(store) }
}

/// `Network::new`: a network without nodes or links.
#[verifier::external_body]
pub(crate) fn store_new() -> (r: NetworkStore)
    ensures
        stored_graph(r) == GraphView::empty(),
{
    NetworkStore { net: Network::new() }
}

/// `Network::node_count`: the number of nodes.
#[verifier::external_body]
pub(crate) fn store_node_count(store: &NetworkStore) -> (r: usize)
    ensures
        r == stored_nodes(*store).len(),
{
    store.net.node_count()
}

/// `Network::node`, with `Node::node_type` and `Node::external_node_id`: the
/// type and the token with which node `idx` was added.
#[verifier::external_body]
pub(crate) fn store_node(store: &NetworkStore, idx: usize) -> (r: GraphNode)
    requires
        idx < stored_nodes(*store).len(),
    ensures
        r == stored_nodes(*store)[idx as int],
{
    let node = store.net.node(NodeIndex::new(idx));
    GraphNode { node_type: node.node_type().clone(), external_id: ExternalId(node.external_node_id()) }
}

/// `Node::in_degree`: the network counts, for each node, the links that end
/// at it, active or not.
#[verifier::external_body]
pub(crate) fn store_in_degree(store: &NetworkStore, idx: usize) -> (r: u32)
    requires
        idx < stored_nodes(*store).len(),
    ensures
        r == stored_graph(*store).in_degree(idx as int),
{
    store.net.node(NodeIndex::new(idx)).in_degree()
}

/// `Network::link_iter_for_node`: the links that leave node `idx`, from the
/// head of its list to the tail.
#[verifier::external_body]
pub(crate) fn store_links(store: &NetworkStore, idx: usize) -> (r: Vec<CppnLink>)
    requires
        idx < stored_nodes(*store).len(),
    ensures
        r@ == stored_links(*store)[idx as int],
{
    store.net.link_iter_for_node(NodeIndex::new(idx)).map(|(_, link)| CppnLink {
        target: CppnNodeIndex(link.target_node_index().index()),
        weight: Scalar { bits: link.weight() },
        external_id: ExternalId(link.external_link_id()),
        active: link.is_active(),
    }).collect()
}

/// `Network::add_node`: the node is appended, without links, and its index
/// is the number of nodes before.
#[verifier::external_body]
pub(crate) fn store_add_node(store: &mut NetworkStore, node: GraphNode) -> (r: usize)
    ensures
        stored_graph(*final(store)) == stored_graph(*old(store)).with_node(node),
        r == stored_nodes(*old(store)).len(),
{
    store.net.add_node(node.node_type, node.external_id.0).index()
}

/// `Network::add_link`: an active link is put into the source's list before
/// the first link with a greater token. The network panics on a link that is
/// not valid, on one that would stand directly behind a link to the same
/// target, and in a debug build on a degree that leaves 32 bits.
#[verifier::external_body]
pub(crate) fn store_add_link(store: &mut NetworkStore, src: usize, link: CppnLink)
    requires
        src < stored_nodes(*old(store)).len(),
        link.target.0 < stored_nodes(*old(store)).len(),
        link.active,
        stored_graph(*old(store)).valid_link(src as int, link.target.0 as int) is Ok,
        !stored_graph(*old(store)).is_duplicate(src as int, link.target.0 as int, link.external_id),
        stored_links(*old(store))[src as int].len() < u32::MAX,
        stored_graph(*old(store)).in_degree(link.target.0 as int) < u32::MAX,
    ensures
        stored_graph(*final(store)) == stored_graph(*old(store)).with_link(src as int, link),
{
    store.net.add_link(
        NodeIndex::new(src),
        NodeIndex::new(link.target.0),
        link.weight.bits,
        link.external_id.0,
    );
}

/// `Network::link_would_cycle`: a search along the links, active or not,
/// that leave `dst` tells whether `src` can be reached from there.
#[verifier::external_body]
pub(crate) fn store_link_would_cycle(store: &NetworkStore, src: usize, dst: usize) -> (r: bool)
    requires
        src < stored_nodes(*store).len(),
        dst < stored_nodes(*store).len(),
    ensures
        r == stored_graph(*store).would_cycle(src as int, dst as int),
{
    store.net.link_would_cycle(NodeIndex::new(src), NodeIndex::new(dst))
}

/// `Network::find_random_unconnected_link_no_cycle`: the network tries
/// ordered pairs of nodes in an order drawn from `rng`, and returns the first
/// that it finds free. Which free pair comes back is left open, and so is
/// what it means that none comes back.
#[verifier::external_body]
pub(crate) fn store_find_random_unconnected_link_no_cycle<R: Rng>(
    store: &NetworkStore,
    rng: &mut R,
) -> (r: Option<(usize, usize)>)
    requires
        stored_nodes(*store).len() * stored_nodes(*store).len() <= usize::MAX,
    ensures
        r matches Some(pair) ==> stored_graph(*store).is_free_link(pair.0 as int, pair.1 as int),
{
    store.net.find_random_unconnected_link_no_cycle(rng).map(|(src, dst)| (src.index(), dst.index()))
}

} // verus!
