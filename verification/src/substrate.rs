//! The substrate: layers of placed nodes, the links declared between layers,
//! and the enumeration of the node pairs that those links admit.

use vstd::prelude::*;
use crate::scalar::Scalar;

verus! {

/// Which directions of connection a placed node takes part in.
#[derive(Debug, Copy, Clone, PartialEq, Eq, Structural)]
pub enum NodeConnectivity {
    In,
    Out,
    InOut,
}

impl NodeConnectivity {
    /// `In` nodes are never the source of a link.
    pub open spec fn spec_allows_outgoing(self) -> bool {
        self != NodeConnectivity::In
    }

    /// `Out` nodes are never the target of a link.
    pub open spec fn spec_allows_incoming(self) -> bool {
        self != NodeConnectivity::Out
    }

    #[verifier::when_used_as_spec(spec_allows_outgoing)]
    pub fn allows_outgoing(self) -> (r: bool)
        ensures
            r == self.spec_allows_outgoing(),
    {
        match self {
            NodeConnectivity::Out | NodeConnectivity::InOut => true,
            NodeConnectivity::In => false,
        }
    }

    #[verifier::when_used_as_spec(spec_allows_incoming)]
    pub fn allows_incoming(self) -> (r: bool)
        ensures
            r == self.spec_allows_incoming(),
    {
        match self {
            NodeConnectivity::In | NodeConnectivity::InOut => true,
            NodeConnectivity::Out => false,
        }
    }
}

/// Which coordinates are handed to the CPPN for a pair of nodes.
#[derive(Debug, Copy, Clone, PartialEq, Eq, Structural)]
pub enum LinkMode {
    /// The position of the source and the position of the target.
    AbsolutePositions,
    /// Both positions and the distance between them.
    AbsolutePositionsAndDistance,
    /// The position of the source and the offset from it to the target.
    RelativePositionOfTarget,
}

/// One run of values handed to the CPPN for a pair of nodes.
#[derive(Debug, Copy, Clone, PartialEq, Eq, Structural)]
pub enum InputChunk {
    /// The coordinates of the source.
    SourcePosition,
    /// The coordinates of the target.
    TargetPosition,
    /// The coordinates of the target, each less that of the source.
    TargetOffset,
    /// The distance between source and target, one value.
    Distance,
}

impl InputChunk {
    /// The number of values in the chunk, for positions of `dimensions`
    /// coordinates.
    pub open spec fn len(self, dimensions: int) -> int {
        match self {
            InputChunk::Distance => 1,
            _ => dimensions,
        }
    }
}

/// The number of values in `chunks` together.
pub open spec fn total_len(chunks: Seq<InputChunk>, dimensions: int) -> int
    decreases chunks.len(),
{
    if chunks.len() == 0 {
        0
    } else {
        total_len(chunks.drop_last(), dimensions) + chunks.last().len(dimensions)
    }
}

impl LinkMode {
    /// The chunks handed to the CPPN, in their order.
    pub open spec fn spec_chunks(self) -> Seq<InputChunk> {
        match self {
            LinkMode::AbsolutePositions => seq![InputChunk::SourcePosition, InputChunk::TargetPosition],
            LinkMode::AbsolutePositionsAndDistance => seq![
                InputChunk::SourcePosition,
                InputChunk::TargetPosition,
                InputChunk::Distance,
            ],
            LinkMode::RelativePositionOfTarget => seq![
                InputChunk::SourcePosition,
                InputChunk::TargetOffset,
            ],
        }
    }

    /// The number of values handed to the CPPN for a pair of nodes whose
    /// positions have `dimensions` coordinates each.
    pub open spec fn spec_input_count(self, dimensions: int) -> int {
        match self {
            LinkMode::AbsolutePositions => 2 * dimensions,
            LinkMode::AbsolutePositionsAndDistance => 2 * dimensions + 1,
            LinkMode::RelativePositionOfTarget => 2 * dimensions,
        }
    }

    /// The input count is the number of values in the chunks together.
    pub proof fn lemma_input_count_is_chunk_total(self, dimensions: int)
        ensures
            self.spec_input_count(dimensions) == total_len(self.spec_chunks(), dimensions),
    {
        let chunks = self.spec_chunks();
        reveal_with_fuel(total_len, 4);
        if chunks.len() == 3 {
            assert(chunks.drop_last().drop_last().drop_last() =~= Seq::<InputChunk>::empty());
        } else {
            assert(chunks.drop_last().drop_last() =~= Seq::<InputChunk>::empty());
        }
    }

    /// The chunks handed to the CPPN for a pair of nodes, in their order.
    pub fn chunks(self) -> (r: Vec<InputChunk>)
        ensures
            r@ == self.spec_chunks(),
    {
        let mut chunks: Vec<InputChunk> = Vec::new();
        chunks.push(InputChunk::SourcePosition);
        match self {
            LinkMode::AbsolutePositions => {
                chunks.push(InputChunk::TargetPosition);
            },
            LinkMode::AbsolutePositionsAndDistance => {
                chunks.push(InputChunk::TargetPosition);
                chunks.push(InputChunk::Distance);
            },
            LinkMode::RelativePositionOfTarget => {
                chunks.push(InputChunk::TargetOffset);
            },
        }
        assert(chunks@ =~= self.spec_chunks());
        chunks
    }

    /// The number of values handed to the CPPN for a pair of nodes, where it
    /// fits the machine's word.
    pub fn input_count(self, dimensions: usize) -> (r: Option<usize>)
        ensures
            r == if self.spec_input_count(dimensions as int) <= usize::MAX {
                Some(self.spec_input_count(dimensions as int) as usize)
            } else {
                None
            },
    {
        let both = match dimensions.checked_mul(2) {
            Some(both) => both,
            None => {
                return None;
            },
        };
        match self {
            LinkMode::AbsolutePositionsAndDistance => both.checked_add(1),
            _ => Some(both),
        }
    }
}

/// A node placed in the substrate. `T` stores additional information about
/// that node.
#[derive(Clone, Debug)]
pub struct Node<P, T> {
    pub position: P,
    pub node_info: T,
    pub node_connectivity: NodeConnectivity,
}

#[derive(Clone, Debug)]
pub struct Layer<P, T> {
    nodes: Vec<Node<P, T>>,
}

impl<P, T> View for Layer<P, T> {
    type V = Seq<Node<P, T>>;

    closed spec fn view(&self) -> Seq<Node<P, T>> {
        self.nodes@
    }
}

impl<P, T> Layer<P, T> {
    /// The connectivity of each node of the layer, in order.
    pub open spec fn connectivities(&self) -> Seq<NodeConnectivity> {
        Seq::new(self@.len(), |i: int| self@[i].node_connectivity)
    }

    pub fn new() -> (r: Self)
        ensures
            r@ == Seq::<Node<P, T>>::empty(),
    {
        Layer { nodes: Vec::new() }
    }

    pub fn nodes(&self) -> (r: &[Node<P, T>])
        ensures
            r@ == self@,
    {
        self.nodes.as_slice()
    }

    pub fn add_node(&mut self, position: P, node_info: T, node_connectivity: NodeConnectivity)
        ensures
            final(self)@ == old(self)@.push(
                (Node { position: position, node_info: node_info, node_connectivity: node_connectivity }),
            ),
    {
        self.nodes.push(
            Node { position: position, node_info: node_info, node_connectivity: node_connectivity },
        );
    }
}

/// A declared link from one layer to another. Pairs of nodes further apart
/// than `max_distance`, where one is set, are not to be connected.
#[derive(Clone, Copy, Debug, PartialEq, Eq)]
pub struct LayerLink {
    pub from_layer: usize,
    pub to_layer: usize,
    pub max_distance: Option<Scalar>,
}

/// A pair of nodes that a layer link admits by connectivity: the position of
/// the layer link, the (layer, node) positions of source and target, and the
/// distance limit that the layer link carries.
#[derive(Clone, Copy, Debug, PartialEq, Eq)]
pub struct LinkCandidate {
    pub layer_link: usize,
    pub source_idx: (usize, usize),
    pub target_idx: (usize, usize),
    pub max_distance: Option<Scalar>,
}

impl LinkCandidate {
    /// `self` comes before `other` by layer link, then source, then target.
    pub open spec fn precedes(self, other: LinkCandidate) -> bool {
        self.layer_link < other.layer_link || (self.layer_link == other.layer_link && (self.source_idx.1
            < other.source_idx.1 || (self.source_idx.1 == other.source_idx.1 && self.target_idx.1
            < other.target_idx.1)))
    }
}

/// The shape of a substrate: the connectivity of every node of every layer,
/// and the declared layer links in the order of their declaration.
pub struct SubstrateView {
    pub layers: Seq<Seq<NodeConnectivity>>,
    pub links: Seq<LayerLink>,
}

impl SubstrateView {
    /// Every layer link names two existing layers.
    pub open spec fn links_in_range(self) -> bool {
        forall|k: int|
            0 <= k < self.links.len() ==> (#[trigger] self.links[k]).from_layer < self.layers.len()
                && self.links[k].to_layer < self.layers.len()
    }

    /// Node `s` of the source layer and node `t` of the target layer of layer
    /// link `k` exist.
    pub open spec fn is_pair(self, k: int, s: int, t: int) -> bool {
        &&& 0 <= k < self.links.len()
        &&& self.links[k].from_layer < self.layers.len()
        &&& self.links[k].to_layer < self.layers.len()
        &&& 0 <= s < self.layers[self.links[k].from_layer as int].len()
        &&& 0 <= t < self.layers[self.links[k].to_layer as int].len()
    }

    /// The pair exists, its source takes outgoing connections and its target
    /// incoming ones.
    pub open spec fn admits(self, k: int, s: int, t: int) -> bool {
        &&& self.is_pair(k, s, t)
        &&& self.layers[self.links[k].from_layer as int][s].spec_allows_outgoing()
        &&& self.layers[self.links[k].to_layer as int][t].spec_allows_incoming()
    }

    pub open spec fn candidate(self, k: int, s: int, t: int) -> LinkCandidate {
        LinkCandidate {
            layer_link: k as usize,
            source_idx: (self.links[k].from_layer, s as usize),
            target_idx: (self.links[k].to_layer, t as usize),
            max_distance: self.links[k].max_distance,
        }
    }

    /// The candidates of layer link `k` with source `s` and a target below
    /// `t_end`, by ascending target.
    pub open spec fn candidates_of_source(self, k: int, s: int, t_end: int) -> Seq<LinkCandidate>
        decreases t_end,
    {
        if t_end <= 0 {
            Seq::empty()
        } else if self.admits(k, s, t_end - 1) {
            self.candidates_of_source(k, s, t_end - 1).push(self.candidate(k, s, t_end - 1))
        } else {
            self.candidates_of_source(k, s, t_end - 1)
        }
    }

    /// The candidates of layer link `k` with a source below `s_end`, by
    /// ascending source, then target.
    pub open spec fn candidates_of_link(self, k: int, s_end: int) -> Seq<LinkCandidate>
        decreases s_end,
    {
        if s_end <= 0 {
            Seq::empty()
        } else {
            self.candidates_of_link(k, s_end - 1) + self.candidates_of_source(
                k,
                s_end - 1,
                self.layers[self.links[k].to_layer as int].len() as int,
            )
        }
    }

    /// The candidates of the layer links below `k_end`, by layer link, then
    /// source, then target.
    pub open spec fn candidates_upto(self, k_end: int) -> Seq<LinkCandidate>
        decreases k_end,
    {
        if k_end <= 0 {
            Seq::empty()
        } else {
            self.candidates_upto(k_end - 1) + self.candidates_of_link(
                k_end - 1,
                self.layers[self.links[k_end - 1].from_layer as int].len() as int,
            )
        }
    }

    /// Every pair of nodes that some layer link admits, once for each such
    /// layer link, in the order of enumeration.
    pub open spec fn link_candidates(self) -> Seq<LinkCandidate> {
        self.candidates_upto(self.links.len() as int)
    }

    /// The numbers of layer links and of nodes in a layer fit the machine's
    /// word.
    pub open spec fn fits(self) -> bool {
        &&& self.links.len() <= usize::MAX
        &&& forall|l: int| 0 <= l < self.layers.len() ==> (#[trigger] self.layers[l]).len() <= usize::MAX
    }

    /// `c` names an admitted pair of layer link `c.layer_link`.
    pub open spec fn is_admitted(self, c: LinkCandidate) -> bool {
        &&& self.admits(c.layer_link as int, c.source_idx.1 as int, c.target_idx.1 as int)
        &&& c == self.candidate(c.layer_link as int, c.source_idx.1 as int, c.target_idx.1 as int)
    }
}

impl SubstrateView {
    /// An admitted pair of a given layer link and source is among the
    /// candidates of that source as soon as its target is below the bound.
    proof fn lemma_source_complete(self, k: int, s: int, t: int, t_end: int)
        requires
            self.admits(k, s, t),
            t < t_end,
        ensures
            self.candidates_of_source(k, s, t_end).contains(self.candidate(k, s, t)),
        decreases t_end,
    {
        let prev = self.candidates_of_source(k, s, t_end - 1);
        if t == t_end - 1 {
            assert(prev.push(self.candidate(k, s, t)).last() == self.candidate(k, s, t));
        } else {
            self.lemma_source_complete(k, s, t, t_end - 1);
            let j = choose|j: int| 0 <= j < prev.len() && prev[j] == self.candidate(k, s, t);
            if self.admits(k, s, t_end - 1) {
                assert(prev.push(self.candidate(k, s, t_end - 1))[j] == self.candidate(k, s, t));
            }
        }
    }

    proof fn lemma_link_complete(self, k: int, s: int, t: int, s_end: int)
        requires
            self.admits(k, s, t),
            s < s_end,
        ensures
            self.candidates_of_link(k, s_end).contains(self.candidate(k, s, t)),
        decreases s_end,
    {
        let n = self.layers[self.links[k].to_layer as int].len() as int;
        let prev = self.candidates_of_link(k, s_end - 1);
        let last = self.candidates_of_source(k, s_end - 1, n);
        if s == s_end - 1 {
            self.lemma_source_complete(k, s, t, n);
            let j = choose|j: int| 0 <= j < last.len() && last[j] == self.candidate(k, s, t);
            assert((prev + last)[prev.len() + j] == self.candidate(k, s, t));
        } else {
            self.lemma_link_complete(k, s, t, s_end - 1);
            let j = choose|j: int| 0 <= j < prev.len() && prev[j] == self.candidate(k, s, t);
            assert((prev + last)[j] == self.candidate(k, s, t));
        }
    }

    proof fn lemma_upto_complete(self, k: int, s: int, t: int, k_end: int)
        requires
            self.admits(k, s, t),
            k < k_end,
        ensures
            self.candidates_upto(k_end).contains(self.candidate(k, s, t)),
        decreases k_end,
    {
        let n = self.layers[self.links[k_end - 1].from_layer as int].len() as int;
        let prev = self.candidates_upto(k_end - 1);
        let last = self.candidates_of_link(k_end - 1, n);
        if k == k_end - 1 {
            self.lemma_link_complete(k, s, t, n);
            let j = choose|j: int| 0 <= j < last.len() && last[j] == self.candidate(k, s, t);
            assert((prev + last)[prev.len() + j] == self.candidate(k, s, t));
        } else {
            self.lemma_upto_complete(k, s, t, k_end - 1);
            let j = choose|j: int| 0 <= j < prev.len() && prev[j] == self.candidate(k, s, t);
            assert((prev + last)[j] == self.candidate(k, s, t));
        }
    }

    proof fn lemma_source_sound(self, k: int, s: int, t_end: int, i: int) -> (t: int)
        requires
            0 <= i < self.candidates_of_source(k, s, t_end).len(),
        ensures
            self.admits(k, s, t),
            t < t_end,
            self.candidates_of_source(k, s, t_end)[i] == self.candidate(k, s, t),
        decreases t_end,
    {
        let prev = self.candidates_of_source(k, s, t_end - 1);
        if self.admits(k, s, t_end - 1) && i == prev.len() {
            t_end - 1
        } else {
            self.lemma_source_sound(k, s, t_end - 1, i)
        }
    }

    proof fn lemma_link_sound(self, k: int, s_end: int, i: int) -> (w: (int, int))
        requires
            0 <= i < self.candidates_of_link(k, s_end).len(),
        ensures
            self.admits(k, w.0, w.1),
            w.0 < s_end,
            self.candidates_of_link(k, s_end)[i] == self.candidate(k, w.0, w.1),
        decreases s_end,
    {
        let n = self.layers[self.links[k].to_layer as int].len() as int;
        let prev = self.candidates_of_link(k, s_end - 1);
        if i < prev.len() {
            self.lemma_link_sound(k, s_end - 1, i)
        } else {
            let t = self.lemma_source_sound(k, s_end - 1, n, i - prev.len());
            (s_end - 1, t)
        }
    }

    /// Soundness of the enumeration: each candidate is a pair that its layer
    /// link admits, so its source takes outgoing connections and its target
    /// incoming ones. Returns the layer link, source and target of
    /// candidate `i`.
    pub proof fn lemma_candidate_is_admitted(self, i: int) -> (w: (int, int, int))
        requires
            0 <= i < self.link_candidates().len(),
        ensures
            self.admits(w.0, w.1, w.2),
            self.link_candidates()[i] == self.candidate(w.0, w.1, w.2),
    {
        self.lemma_upto_sound(self.links.len() as int, i)
    }

    proof fn lemma_upto_sound(self, k_end: int, i: int) -> (w: (int, int, int))
        requires
            0 <= i < self.candidates_upto(k_end).len(),
        ensures
            self.admits(w.0, w.1, w.2),
            w.0 < k_end,
            self.candidates_upto(k_end)[i] == self.candidate(w.0, w.1, w.2),
        decreases k_end,
    {
        let n = self.layers[self.links[k_end - 1].from_layer as int].len() as int;
        let prev = self.candidates_upto(k_end - 1);
        if i < prev.len() {
            self.lemma_upto_sound(k_end - 1, i)
        } else {
            let w = self.lemma_link_sound(k_end - 1, n, i - prev.len());
            (k_end - 1, w.0, w.1)
        }
    }

    proof fn lemma_source_ordered(self, k: int, s: int, t_end: int, i: int, j: int)
        requires
            self.fits(),
            0 <= i < j < self.candidates_of_source(k, s, t_end).len(),
        ensures
            self.candidates_of_source(k, s, t_end)[i].precedes(self.candidates_of_source(k, s, t_end)[j]),
        decreases t_end,
    {
        let prev = self.candidates_of_source(k, s, t_end - 1);
        if j < prev.len() {
            self.lemma_source_ordered(k, s, t_end - 1, i, j);
        } else {
            let ti = self.lemma_source_sound(k, s, t_end - 1, i);
            let tj = self.lemma_source_sound(k, s, t_end, j);
            assert(self.admits(k, s, t_end - 1));
        }
    }

    proof fn lemma_link_ordered(self, k: int, s_end: int, i: int, j: int)
        requires
            self.fits(),
            0 <= i < j < self.candidates_of_link(k, s_end).len(),
        ensures
            self.candidates_of_link(k, s_end)[i].precedes(self.candidates_of_link(k, s_end)[j]),
        decreases s_end,
    {
        let n = self.layers[self.links[k].to_layer as int].len() as int;
        let prev = self.candidates_of_link(k, s_end - 1);
        if j < prev.len() {
            self.lemma_link_ordered(k, s_end - 1, i, j);
        } else if i >= prev.len() {
            self.lemma_source_ordered(k, s_end - 1, n, i - prev.len(), j - prev.len());
        } else {
            let wi = self.lemma_link_sound(k, s_end - 1, i);
            let tj = self.lemma_source_sound(k, s_end - 1, n, j - prev.len());
        }
    }

    proof fn lemma_upto_ordered(self, k_end: int, i: int, j: int)
        requires
            self.fits(),
            0 <= i < j < self.candidates_upto(k_end).len(),
        ensures
            self.candidates_upto(k_end)[i].precedes(self.candidates_upto(k_end)[j]),
        decreases k_end,
    {
        let n = self.layers[self.links[k_end - 1].from_layer as int].len() as int;
        let prev = self.candidates_upto(k_end - 1);
        if j < prev.len() {
            self.lemma_upto_ordered(k_end - 1, i, j);
        } else if i >= prev.len() {
            self.lemma_link_ordered(k_end - 1, n, i - prev.len(), j - prev.len());
        } else {
            let wi = self.lemma_upto_sound(k_end - 1, i);
            let wj = self.lemma_link_sound(k_end - 1, n, j - prev.len());
        }
    }

    /// The order of the enumeration: the candidates stand by layer link,
    /// then by source, then by target, and none stands twice.
    pub proof fn lemma_candidates_ascend(self, i: int, j: int)
        requires
            self.fits(),
            0 <= i < j < self.link_candidates().len(),
        ensures
            self.link_candidates()[i].precedes(self.link_candidates()[j]),
    {
        self.lemma_upto_ordered(self.links.len() as int, i, j);
    }

    /// Completeness of the enumeration: every pair that a layer link admits
    /// is among the candidates.
    pub proof fn lemma_admitted_pair_is_candidate(self, k: int, s: int, t: int)
        requires
            self.admits(k, s, t),
        ensures
            self.link_candidates().contains(self.candidate(k, s, t)),
    {
        self.lemma_upto_complete(k, s, t, self.links.len() as int);
    }
}

/// Layers of placed nodes, and the links declared between layers.
#[derive(Clone, Debug)]
pub struct Substrate<P, T> {
    layers: Vec<Layer<P, T>>,
    layer_links: Vec<LayerLink>,
}

impl<P, T> View for Substrate<P, T> {
    type V = SubstrateView;

    closed spec fn view(&self) -> SubstrateView {
        SubstrateView {
            layers: Seq::new(self.layers@.len(), |l: int| self.layers@[l].connectivities()),
            links: self.layer_links@,
        }
    }
}

impl<P, T> Substrate<P, T> {
    /// The layers, in the order in which they were added.
    pub closed spec fn spec_layers(&self) -> Seq<Layer<P, T>> {
        self.layers@
    }

    /// The view records the connectivity of each node of each layer.
    pub proof fn lemma_view_layers(&self)
        ensures
            self@.layers.len() == self.spec_layers().len(),
            forall|l: int|
                0 <= l < self.spec_layers().len() ==> #[trigger] self@.layers[l]
                    == self.spec_layers()[l].connectivities(),
    {
    }

    pub fn new() -> (r: Self)
        ensures
            r.spec_layers() == Seq::<Layer<P, T>>::empty(),
            r@.layers == Seq::<Seq<NodeConnectivity>>::empty(),
            r@.links == Seq::<LayerLink>::empty(),
    {
        let r = Substrate { layers: Vec::new(), layer_links: Vec::new() };
        assert(r@.layers =~= Seq::<Seq<NodeConnectivity>>::empty());
        r
    }

    pub fn layers(&self) -> (r: &[Layer<P, T>])
        ensures
            r@ == self.spec_layers(),
    {
        self.layers.as_slice()
    }

    /// Appends a layer and returns its position.
    pub fn add_layer(&mut self, layer: Layer<P, T>) -> (layer_idx: usize)
        ensures
            layer_idx == old(self).spec_layers().len(),
            final(self).spec_layers() == old(self).spec_layers().push(layer),
            final(self)@.layers == old(self)@.layers.push(layer.connectivities()),
            final(self)@.links == old(self)@.links,
    {
        let layer_idx = self.layers.len();
        self.layers.push(layer);
        assert(self@.layers =~= old(self)@.layers.push(layer.connectivities()));
        return layer_idx;
    }

    /// Declares a link between two layers. Neither layer need exist yet, and
    /// a link declared twice is kept twice.
    pub fn add_layer_link(&mut self, from_layer: usize, to_layer: usize, max_distance: Option<Scalar>)
        ensures
            final(self).spec_layers() == old(self).spec_layers(),
            final(self)@.layers == old(self)@.layers,
            final(self)@.links == old(self)@.links.push(
                (LayerLink { from_layer: from_layer, to_layer: to_layer, max_distance: max_distance }),
            ),
    {
        self.layer_links.push(
            LayerLink { from_layer: from_layer, to_layer: to_layer, max_distance: max_distance },
        );
        assert(self@.layers =~= old(self)@.layers);
    }

    /// Whether every declared layer link names two existing layers.
    pub fn links_in_range(&self) -> (r: bool)
        ensures
            r == self@.links_in_range(),
    {
        let n = self.layers.len();
        let mut k: usize = 0;
        while k < self.layer_links.len()
            invariant
                k <= self.layer_links.len(),
                n == self.layers.len(),
                forall|j: int|
                    0 <= j < k ==> (#[trigger] self@.links[j]).from_layer < n && self@.links[j].to_layer
                        < n,
            decreases self.layer_links.len() - k,
        {
            if self.layer_links[k].from_layer >= n || self.layer_links[k].to_layer >= n {
                assert(!(self@.links[k as int].from_layer < n && self@.links[k as int].to_layer < n));
                return false;
            }
            k += 1;
        }
        true
    }

    /// Enumerates, layer link by layer link in the order of declaration, then
    /// by source node, then by target node, the pairs whose source takes
    /// outgoing connections and whose target takes incoming ones.
    pub fn link_candidates(&self) -> (r: Vec<LinkCandidate>)
        requires
            self@.links_in_range(),
        ensures
            r@ == self@.link_candidates(),
            forall|i: int| 0 <= i < r.len() ==> self@.is_admitted(#[trigger] r[i]),
            forall|i: int, j: int| 0 <= i < j < r.len() ==> (#[trigger] r[i]).precedes(#[trigger] r[j]),
    {
        let mut out: Vec<LinkCandidate> = Vec::new();
        let mut k: usize = 0;
        while k < self.layer_links.len()
            invariant
                k <= self.layer_links.len(),
                self@.links_in_range(),
                out@ == self@.candidates_upto(k as int),
            decreases self.layer_links.len() - k,
        {
            let link = self.layer_links[k];
            assert(link == self@.links[k as int]);
            let from = &self.layers[link.from_layer];
            let to = &self.layers[link.to_layer];
            let ghost before = out@;
            let mut s: usize = 0;
            while s < from.nodes.len()
                invariant
                    s <= from.nodes.len(),
                    k < self.layer_links.len(),
                    link == self@.links[k as int],
                    link.from_layer < self.layers.len(),
                    link.to_layer < self.layers.len(),
                    *from == self.layers@[link.from_layer as int],
                    *to == self.layers@[link.to_layer as int],
                    out@ == before + self@.candidates_of_link(k as int, s as int),
                decreases from.nodes.len() - s,
            {
                let ghost mid = out@;
                let mut t: usize = 0;
                let outgoing = from.nodes[s].node_connectivity.allows_outgoing();
                while t < to.nodes.len()
                    invariant
                        t <= to.nodes.len(),
                        s < from.nodes.len(),
                        k < self.layer_links.len(),
                        link == self@.links[k as int],
                        link.from_layer < self.layers.len(),
                        link.to_layer < self.layers.len(),
                        *from == self.layers@[link.from_layer as int],
                        *to == self.layers@[link.to_layer as int],
                        outgoing == from.nodes@[s as int].node_connectivity.spec_allows_outgoing(),
                        out@ == mid + self@.candidates_of_source(k as int, s as int, t as int),
                    decreases to.nodes.len() - t,
                {
                    if outgoing && to.nodes[t].node_connectivity.allows_incoming() {
                        out.push(
                            LinkCandidate {
                                layer_link: k,
                                source_idx: (link.from_layer, s),
                                target_idx: (link.to_layer, t),
                                max_distance: link.max_distance,
                            },
                        );
                    }
                    t += 1;
                    assert(out@ =~= mid + self@.candidates_of_source(k as int, s as int, t as int));
                }
                s += 1;
                assert(out@ =~= before + self@.candidates_of_link(k as int, s as int));
            }
            k += 1;
            assert(out@ =~= self@.candidates_upto(k as int));
        }
        proof {
            assert(self@.fits()) by {
                assert forall|l: int| 0 <= l < self@.layers.len() implies (#[trigger] self@.layers[l]).len()
                    <= usize::MAX by {
                    assert(self@.layers[l].len() == self.layers@[l].nodes.len());
                }
            }
            assert forall|i: int, j: int| 0 <= i < j < out.len() implies (#[trigger] out[i]).precedes(
                #[trigger] out[j],
            ) by {
                self@.lemma_candidates_ascend(i, j);
            }
            assert forall|i: int| 0 <= i < out.len() implies self@.is_admitted(#[trigger] out[i]) by {
                let w = self@.lemma_candidate_is_admitted(i);
                let from = self@.links[w.0].from_layer as int;
                let to = self@.links[w.0].to_layer as int;
                assert(self@.layers[from].len() == self.layers@[from].nodes.len());
                assert(self@.layers[to].len() == self.layers@[to].nodes.len());
                assert(out[i].layer_link as int == w.0);
                assert(out[i].source_idx.1 as int == w.1);
                assert(out[i].target_idx.1 as int == w.2);
            }
        }
        out
    }
}

} // verus!
