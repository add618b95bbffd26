//! CPPN nodes, the rules by which they take part in links, and the evaluator
//! that reads a graph of them: which nodes take the inputs and give the
//! outputs, in which order signals spread, and how the nodes fall into
//! layers.

use vstd::prelude::*;
use acyclic_network::NodeType;
use fixedbitset::FixedBitSet;
use crate::activation_function::ActivationFunction;
pub use crate::graph::CppnGraph;
pub use crate::model::CppnNodeIndex;
use crate::layering::{is_grouping, layers_below, lemma_layers_below, with_rank};
use crate::bitset::{bitset_len, bitset_members};
use crate::model::{lemma_select_sound, select, GraphView};
use crate::plan::{synapses_of, EvaluationPlan, Emission, OutputTap, Step, Synapse};
use crate::propagation::{lemma_marks_push, marks};

verus! {

pub trait CppnNodeType: ActivationFunction {
    fn is_input_node(&self) -> bool;

    fn is_output_node(&self) -> bool;
}

#[derive(Clone, Copy, Debug, PartialEq, Eq, Structural)]
pub enum CppnNodeKind {
    Bias,
    Input,
    Output,
    Hidden,
}

impl CppnNodeKind {
    /// Input and bias nodes are sources only.
    pub open spec fn accepts_incoming(self) -> bool {
        self == CppnNodeKind::Hidden || self == CppnNodeKind::Output
    }

    /// Output nodes are sinks only.
    pub open spec fn accepts_outgoing(self) -> bool {
        self != CppnNodeKind::Output
    }
}

/// A concrete implementation of a CppnNodeType.
#[derive(Clone, Debug, PartialEq, Eq)]
pub struct CppnNode<A: ActivationFunction> {
    pub kind: CppnNodeKind,
    pub activation_function: A,
}

impl<A> CppnNode<A> where A: ActivationFunction {
    pub fn new(kind: CppnNodeKind, activation_function: A) -> (r: Self)
        ensures
            r.kind == kind,
            r.activation_function == activation_function,
    {
        CppnNode { kind: kind, activation_function: activation_function }
    }

    pub fn input(activation_function: A) -> (r: Self)
        ensures
            r.kind == CppnNodeKind::Input,
            r.activation_function == activation_function,
    {
        Self::new(CppnNodeKind::Input, activation_function)
    }

    pub fn output(activation_function: A) -> (r: Self)
        ensures
            r.kind == CppnNodeKind::Output,
            r.activation_function == activation_function,
    {
        Self::new(CppnNodeKind::Output, activation_function)
    }

    pub fn hidden(activation_function: A) -> (r: Self)
        ensures
            r.kind == CppnNodeKind::Hidden,
            r.activation_function == activation_function,
    {
        Self::new(CppnNodeKind::Hidden, activation_function)
    }

    pub fn bias(activation_function: A) -> (r: Self)
        ensures
            r.kind == CppnNodeKind::Bias,
            r.activation_function == activation_function,
    {
        Self::new(CppnNodeKind::Bias, activation_function)
    }
}

impl<A: ActivationFunction> ActivationFunction for CppnNode<A> {
    open spec fn spec_formula(&self, x: Seq<char>) -> Seq<char> {
        self.activation_function.spec_formula(x)
    }

    open spec fn spec_name(&self) -> Seq<char> {
        self.activation_function.spec_name()
    }

    fn formula_gnuplot(&self, x: String) -> (r: String) {
        self.activation_function.formula_gnuplot(x)
    }

    fn name(&self) -> (r: String) {
        self.activation_function.name()
    }
}

impl<A: ActivationFunction> NodeType for CppnNode<A> {
    fn accept_incoming_links(&self) -> (r: bool)
        ensures
            r == self.kind.accepts_incoming(),
    {
        match self.kind {
            CppnNodeKind::Hidden | CppnNodeKind::Output => true,
            CppnNodeKind::Input | CppnNodeKind::Bias => false,
        }
    }

    fn accept_outgoing_links(&self) -> (r: bool)
        ensures
            r == self.kind.accepts_outgoing(),
    {
        match self.kind {
            CppnNodeKind::Hidden | CppnNodeKind::Input | CppnNodeKind::Bias => true,
            CppnNodeKind::Output => false,
        }
    }
}

impl<A: ActivationFunction> CppnNodeType for CppnNode<A> {
    fn is_input_node(&self) -> (r: bool)
        ensures
            r == (self.kind == CppnNodeKind::Input),
    {
        match self.kind {
            CppnNodeKind::Input => true,
            _ => false,
        }
    }

    fn is_output_node(&self) -> (r: bool)
        ensures
            r == (self.kind == CppnNodeKind::Output),
    {
        match self.kind {
            CppnNodeKind::Output => true,
            _ => false,
        }
    }
}

/// The evaluator of a CPPN, bound to a graph for as long as it lives.
pub struct Cppn<'a> {
    graph: &'a CppnGraph,
    inputs: Vec<CppnNodeIndex>,
    outputs: Vec<CppnNodeIndex>,
    start_nodes: Vec<CppnNodeIndex>,
}

impl<'a> Cppn<'a> {
    #[verifier::type_invariant]
    pub closed spec fn inv(self) -> bool {
        &&& self.graph@.is_well_formed()
        &&& self.inputs@ == self.graph@.input_nodes()
        &&& self.outputs@ == self.graph@.output_nodes()
        &&& self.start_nodes@ == self.graph@.start_nodes()
    }

    /// The graph that the evaluator reads.
    pub closed spec fn graph_view(&self) -> GraphView {
        self.graph@
    }

    /// Binds an evaluator to `graph`, and records the input nodes, the
    /// output nodes and the start nodes of the graph.
    pub fn new(graph: &'a CppnGraph) -> (r: Cppn<'a>)
        ensures
            r.graph_view() == graph@,
    {
        let mut inputs: Vec<CppnNodeIndex> = Vec::new();
        let mut outputs: Vec<CppnNodeIndex> = Vec::new();
        let mut start_nodes: Vec<CppnNodeIndex> = Vec::new();
        let n = graph.node_count();
        let mut v: usize = 0;
        while v < n
            invariant
                v <= n,
                n == graph@.nodes.len(),
                inputs@ == select(v as int, |i: int| graph@.is_input(i)),
                outputs@ == select(v as int, |i: int| graph@.is_output(i)),
                start_nodes@ == select(v as int, |i: int| graph@.is_start(i)),
            decreases n - v,
        {
            let index = CppnNodeIndex::new(v);
            let node = graph.node(index);
            if node.node_type.is_input_node() {
                inputs.push(index);
            }
            if node.node_type.is_output_node() {
                outputs.push(index);
            }
            if graph.in_degree(index) == 0 {
                start_nodes.push(index);
            }
            v += 1;
        }
        Cppn { graph: graph, inputs: inputs, outputs: outputs, start_nodes: start_nodes }
    }

    /// The graph that the evaluator is bound to.
    pub fn graph(&self) -> (r: &'a CppnGraph)
        ensures
            r@ == self.graph_view(),
    {
        self.graph
    }

    /// The input nodes, by ascending index: the node that takes the `i`-th
    /// input value stands at position `i`.
    pub fn inputs(&self) -> (r: &[CppnNodeIndex])
        ensures
            r@ == self.graph_view().input_nodes(),
    {
        proof {
            use_type_invariant(self);
        }
        self.inputs.as_slice()
    }

    /// The output nodes, by ascending index: the node that gives the `k`-th
    /// output value stands at position `k`.
    pub fn outputs(&self) -> (r: &[CppnNodeIndex])
        ensures
            r@ == self.graph_view().output_nodes(),
    {
        proof {
            use_type_invariant(self);
        }
        self.outputs.as_slice()
    }

    /// The nodes at which no link ends, by ascending index.
    pub fn start_nodes(&self) -> (r: &[CppnNodeIndex])
        ensures
            r@ == self.graph_view().start_nodes(),
    {
        proof {
            use_type_invariant(self);
        }
        self.start_nodes.as_slice()
    }

    /// Returns the number of outputs
    pub fn output_count(&self) -> (r: usize)
        ensures
            r == self.graph_view().output_nodes().len(),
    {
        proof {
            use_type_invariant(self);
        }
        self.outputs.len()
    }

    /// Returns the number of inputs
    pub fn input_count(&self) -> (r: usize)
        ensures
            r == self.graph_view().input_nodes().len(),
    {
        proof {
            use_type_invariant(self);
        }
        self.inputs.len()
    }

    /// The order in which signals spread through the graph. The start nodes
    /// are put on a frontier; then, as long as the frontier holds a node, the
    /// node that came last is taken from it, and the targets of its active
    /// links that were not seen before are put on the frontier in the order
    /// of the links.
    ///
    /// Every node that a walk along active links connects to a start node is
    /// taken once, and no other node is taken.
    pub fn propagation_order(&self) -> (r: Vec<CppnNodeIndex>)
        ensures
            r@ == self.graph_view().propagation_order(),
            r@.no_duplicates(),
            forall|v: int|
                self.graph_view().has_node(v) ==> (marks(r@).contains(v)
                    <==> #[trigger] self.graph_view().is_reached(v)),
    {
        proof {
            use_type_invariant(self);
        }
        let ghost g = self.graph@;
        let n = self.graph.node_count();
        let mut seen = FixedBitSet::with_capacity(n);
        let mut frontier: Vec<CppnNodeIndex> = Vec::new();

        // start from all nodes which have zero in-degree
        let mut i: usize = 0;
        while i < self.start_nodes.len()
            invariant
                i <= self.start_nodes.len(),
                n == g.nodes.len(),
                self.start_nodes@ == g.start_nodes(),
                bitset_len(seen) == n,
                frontier@ == self.start_nodes@.take(i as int),
                bitset_members(seen) == marks(self.start_nodes@.take(i as int)),
            decreases self.start_nodes.len() - i,
        {
            let start_node_index = self.start_nodes[i];
            proof {
                lemma_select_sound(n as int, |v: int| g.is_start(v), i as int);
            }
            frontier.push(start_node_index);
            seen.insert(start_node_index.index());
            proof {
                assert(self.start_nodes@.take(i + 1) =~= self.start_nodes@.take(i as int).push(
                    start_node_index,
                ));
                lemma_marks_push(self.start_nodes@.take(i as int), start_node_index);
            }
            i += 1;
        }
        proof {
            assert(self.start_nodes@.take(i as int) =~= self.start_nodes@);
            assert forall|j: int| 0 <= j < frontier.len() implies (#[trigger] frontier[j]).0 < n by {
                lemma_select_sound(n as int, |v: int| g.is_start(v), j);
            }
        }

        let mut order: Vec<CppnNodeIndex> = Vec::new();
        while frontier.len() > 0
            invariant
                n == g.nodes.len(),
                g == self.graph@,
                g.is_well_formed(),
                bitset_len(seen) == n,
                forall|j: int| 0 <= j < frontier.len() ==> (#[trigger] frontier[j]).0 < n,
                order@ + g.order_from(frontier@, bitset_members(seen)) == g.propagation_order(),
            decreases g.unseen(bitset_members(seen)).len() + frontier.len(),
        {
            let ghost above = frontier@;
            let ghost seen_above = bitset_members(seen);
            let node_idx = frontier.pop().unwrap();
            order.push(node_idx);
            let links = self.graph.links(node_idx);
            let ghost below = frontier@;
            assert(below == above.drop_last());
            let mut k: usize = 0;
            while k < links.len()
                invariant
                    k <= links.len(),
                    n == g.nodes.len(),
                    g.is_well_formed(),
                    node_idx.0 < n,
                    links@ == g.links[node_idx.0 as int],
                    bitset_len(seen) == n,
                    forall|j: int| 0 <= j < frontier.len() ==> (#[trigger] frontier[j]).0 < n,
                    (frontier@, bitset_members(seen)) == g.discover(
                        links@.take(k as int),
                        below,
                        seen_above,
                    ),
                decreases links.len() - k,
            {
                let link = links[k];
                assert(g.is_link(node_idx.0 as int, k as int));
                assert(links@.take(k + 1).drop_last() =~= links@.take(k as int));
                if link.active && !seen.contains(link.target.index()) {
                    seen.insert(link.target.index());
                    frontier.push(link.target);
                }
                k += 1;
            }
            proof {
                assert(links@.take(k as int) =~= links@);
                g.lemma_discover_measure(links@, below, seen_above);
                assert(order@ + g.order_from(frontier@, bitset_members(seen)) =~= order@.drop_last() + (
                seq![node_idx] + g.order_from(frontier@, bitset_members(seen))));
            }
        }
        proof {
            assert(order@ + Seq::<CppnNodeIndex>::empty() =~= order@);
            g.lemma_propagation_visits_reached_once();
        }
        order
    }

    /// The evaluation plan of the graph: what an evaluation does, step by
    /// step, up to the arithmetic itself.
    pub fn plan(&self) -> (r: EvaluationPlan)
        ensures
            self.graph_view().is_plan(r),
            r.is_in_range(),
    {
        proof {
            use_type_invariant(self);
        }
        let ghost g = self.graph@;
        let node_count = self.graph.node_count();
        let order = self.propagation_order();
        proof {
            g.lemma_propagation_visits_reached_once();
        }
        let mut steps: Vec<Step> = Vec::new();
        let mut i: usize = 0;
        while i < order.len()
            invariant
                i <= order.len(),
                g == self.graph@,
                order@ == g.propagation_order(),
                forall|j: int| 0 <= j < order.len() ==> g.has_node((#[trigger] order[j]).0 as int),
                steps.len() == i,
                forall|j: int| 0 <= j < i ==> g.is_step_of(#[trigger] steps[j], order[j]),
            decreases order.len() - i,
        {
            let node = order[i];
            let node_type = self.graph.node(node).node_type;
            let emission = match node_type.kind {
                CppnNodeKind::Bias => Emission::One,
                _ => Emission::Activated(node_type.activation_function),
            };
            let links = self.graph.links(node);
            let mut synapses: Vec<Synapse> = Vec::new();
            let mut k: usize = 0;
            while k < links.len()
                invariant
                    k <= links.len(),
                    synapses@ == synapses_of(links@.take(k as int)),
                decreases links.len() - k,
            {
                assert(links@.take(k + 1).drop_last() =~= links@.take(k as int));
                if links[k].active {
                    synapses.push(Synapse { target: links[k].target, weight: links[k].weight });
                }
                k += 1;
            }
            assert(links@.take(k as int) =~= links@);
            steps.push(Step { node: node, emission: emission, synapses: synapses });
            i += 1;
        }
        let mut outputs: Vec<OutputTap> = Vec::new();
        let mut k: usize = 0;
        while k < self.outputs.len()
            invariant
                k <= self.outputs.len(),
                g == self.graph@,
                self.outputs@ == g.output_nodes(),
                g.nodes.len() <= usize::MAX,
                outputs.len() == k,
                forall|j: int| 0 <= j < k ==> #[trigger] outputs[j] == g.output_tap(self.outputs[j]),
            decreases self.outputs.len() - k,
        {
            let node = self.outputs[k];
            proof {
                lemma_select_sound(g.nodes.len() as int, |v: int| g.is_output(v), k as int);
            }
            outputs.push(
                OutputTap {
                    node: node,
                    activation_function: self.graph.node(node).node_type.activation_function,
                },
            );
            k += 1;
        }
        assert(outputs@ =~= g.output_nodes().map_values(|node: CppnNodeIndex| g.output_tap(node)));
        let plan = EvaluationPlan {
            node_count: node_count,
            inputs: self.inputs.clone(),
            steps: steps,
            outputs: outputs,
        };
        proof {
            g.lemma_plan_in_range(plan);
        }
        plan
    }

    /// The rank of each node, by index: the layering of the graph. Inputs
    /// stand at rank 0 and outputs one rank behind the number of nodes. Every
    /// other node stands at rank 1 or, where active links end at it, one rank
    /// above the highest node from which such a link comes.
    pub fn layout(&self) -> (r: Vec<usize>)
        requires
            self.graph_view().nodes.len() < usize::MAX,
        ensures
            self.graph_view().is_layout(r@),
            self.graph_view().has_fixed_ends(r@),
    {
        proof {
            use_type_invariant(self);
        }
        let ghost g = self.graph@;
        let n = self.graph.node_count();
        let max_rank = n + 1;
        let mut ranks: Vec<usize> = Vec::new();
        let mut v: usize = 0;
        while v < n
            invariant
                v <= n,
                n == g.nodes.len(),
                max_rank == n + 1,
                g == self.graph@,
                ranks.len() == v,
                forall|j: int| 0 <= j < v ==> #[trigger] ranks[j] == g.initial_rank(j),
            decreases n - v,
        {
            let node = self.graph.node(CppnNodeIndex::new(v));
            if node.node_type.is_input_node() {
                ranks.push(0);
            } else if node.node_type.is_output_node() {
                ranks.push(max_rank);
            } else {
                ranks.push(1);
            }
            v += 1;
        }
        proof {
            g.lemma_initial_ranks(ranks@);
        }
        let mut changed = true;
        while changed
            invariant
                n == g.nodes.len(),
                n < usize::MAX,
                g == self.graph@,
                g.is_well_formed(),
                g.is_partial_layout(ranks@),
                !changed ==> g.respects_links(ranks@),
            decreases GraphView::slack(ranks@, n + 1), (if changed { 1int } else { 0int }),
        {
            changed = false;
            let ghost start = ranks@;
            proof {
                g.lemma_partial_layout_bound(ranks@);
                GraphView::lemma_slack_nonnegative(ranks@, n + 1);
            }
            let mut u: usize = 0;
            while u < n
                invariant
                    u <= n,
                    n == g.nodes.len(),
                    n < usize::MAX,
                    g == self.graph@,
                    g.is_well_formed(),
                    g.is_partial_layout(ranks@),
                    !changed ==> ranks@ == start && g.settled_before(ranks@, u as int, 0),
                    changed ==> 0 <= GraphView::slack(ranks@, n + 1) < GraphView::slack(start, n + 1),
                decreases n - u,
            {
                let links = self.graph.links(CppnNodeIndex::new(u));
                let mut k: usize = 0;
                while k < links.len()
                    invariant
                        k <= links.len(),
                        u < n,
                        n == g.nodes.len(),
                        n < usize::MAX,
                        g.is_well_formed(),
                        links@ == g.links[u as int],
                        g.is_partial_layout(ranks@),
                        !changed ==> ranks@ == start && g.settled_before(ranks@, u as int, k as int),
                        changed ==> 0 <= GraphView::slack(ranks@, n + 1) < GraphView::slack(start, n + 1),
                    decreases links.len() - k,
                {
                    let link = links[k];
                    assert(g.is_link(u as int, k as int));
                    if link.active {
                        // make sure that the rank of the link's target is above that of its source
                        let w = link.target.index();
                        let src_rank = ranks[u];
                        let dst_rank = ranks[w];
                        if dst_rank <= src_rank {
                            proof {
                                g.lemma_raise_target(ranks@, u as int, k as int);
                                GraphView::lemma_slack_update(
                                    ranks@,
                                    n + 1,
                                    w as int,
                                    (src_rank + 1) as usize,
                                );
                            }
                            ranks.set(w, src_rank + 1);
                            changed = true;
                            proof {
                                g.lemma_partial_layout_bound(ranks@);
                                GraphView::lemma_slack_nonnegative(ranks@, n + 1);
                            }
                        }
                    }
                    k += 1;
                }
                u += 1;
            }
        }
        proof {
            g.lemma_layout_has_fixed_ends(ranks@);
        }
        ranks
    }

    /// Group the nodes into layers: one layer for each rank that some node
    /// has, by ascending rank, and in each layer the nodes of that rank by
    /// ascending index.
    pub fn group_layers(&self) -> (r: Vec<Vec<usize>>)
        requires
            self.graph_view().nodes.len() < usize::MAX,
        ensures
            self.graph_view().is_layering(layers_view(r@)),
    {
        proof {
            use_type_invariant(self);
        }
        let ranks = self.layout();
        let n = ranks.len();
        let mut layers: Vec<Vec<usize>> = Vec::new();
        let mut rank: usize = 0;
        while rank <= n
            invariant
                rank <= n + 1,
                n == ranks.len(),
                n < usize::MAX,
                layers_view(layers@) == layers_below(ranks@, rank as int),
            decreases n + 1 - rank,
        {
            let layer = nodes_with_rank(&ranks, rank);
            if layer.len() > 0 {
                layers.push(layer);
            }
            rank += 1;
            assert(layers_view(layers@) =~= layers_below(ranks@, rank as int));
        }
        let layer = nodes_with_rank(&ranks, rank);
        if layer.len() > 0 {
            layers.push(layer);
        }
        proof {
            let g = self.graph@;
            assert(layers_view(layers@) =~= layers_below(ranks@, n + 2));
            lemma_layers_below(ranks@, n + 2);
            assert forall|v: int| 0 <= v < n implies (#[trigger] ranks@[v]) < n + 2 by {
                assert(g.is_tight(ranks@, v));
                let p = choose|p: Seq<int>| #[trigger] g.rank_witness(ranks@, v, p);
                g.lemma_rank_bound(ranks@, v, p);
            }
            assert(is_grouping(ranks@, layers_view(layers@)));
        }
        layers
    }
}

/// The layers as sequences of sequences.
pub open spec fn layers_view(layers: Seq<Vec<usize>>) -> Seq<Seq<usize>> {
    layers.map_values(|layer: Vec<usize>| layer@)
}

/// The positions in `ranks` at which `rank` stands, ascending.
fn nodes_with_rank(ranks: &Vec<usize>, rank: usize) -> (r: Vec<usize>)
    ensures
        r@ == with_rank(ranks@, rank as int, ranks.len() as int),
{
    let mut layer: Vec<usize> = Vec::new();
    let mut v: usize = 0;
    while v < ranks.len()
        invariant
            v <= ranks.len(),
            layer@ == with_rank(ranks@, rank as int, v as int),
        decreases ranks.len() - v,
    {
        if ranks[v] == rank {
            layer.push(v);
        }
        v += 1;
    }
    layer
}

} // verus!
