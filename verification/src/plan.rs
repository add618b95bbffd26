//! The evaluation plan of a graph: everything that the arithmetic of an
//! evaluation needs to know of the graph, in the order in which it needs it.

use vstd::prelude::*;
use crate::activation_function::GeometricActivationFunction;
use crate::cppn::{CppnNode, CppnNodeKind};
use crate::model::{lemma_select_sound, CppnLink, CppnNodeIndex, GraphView};
use crate::scalar::Scalar;

verus! {

/// What a node hands to its links once its incoming signals are summed.
#[derive(Clone, Copy, Debug, PartialEq, Eq, Structural)]
pub enum Emission {
    /// The constant 1, whatever came in.
    One,
    /// The value of the activation function at the sum of what came in.
    Activated(GeometricActivationFunction),
}

/// An active link as the arithmetic sees it: where the signal goes, and the
/// weight by which it is multiplied on the way.
#[derive(Clone, Copy, Debug, PartialEq, Eq, Structural)]
pub struct Synapse {
    pub target: CppnNodeIndex,
    pub weight: Scalar,
}

/// One step of an evaluation: `node` emits, and what it emits is added,
/// weighted, to the incoming signals of the targets of `synapses`, one
/// synapse after the other.
#[derive(Clone, Debug, PartialEq, Eq)]
pub struct Step {
    pub node: CppnNodeIndex,
    pub emission: Emission,
    pub synapses: Vec<Synapse>,
}

/// Where an output value is read: the activation function is applied to the
/// sum of the signals that came in at `node`.
#[derive(Clone, Copy, Debug, PartialEq, Eq, Structural)]
pub struct OutputTap {
    pub node: CppnNodeIndex,
    pub activation_function: GeometricActivationFunction,
}

/// The plan of an evaluation. The incoming signal of each of the
/// `node_count` nodes starts at zero; the `i`-th input value replaces that of
/// `inputs[i]`; the steps are taken in their order; the `k`-th output value is
/// read at `outputs[k]`.
#[derive(Clone, Debug, PartialEq, Eq)]
pub struct EvaluationPlan {
    pub node_count: usize,
    pub inputs: Vec<CppnNodeIndex>,
    pub steps: Vec<Step>,
    pub outputs: Vec<OutputTap>,
}

impl EvaluationPlan {
    /// Every node that the plan names is one of its `node_count` nodes.
    pub open spec fn is_in_range(self) -> bool {
        &&& forall|i: int|
            0 <= i < self.inputs.len() ==> (#[trigger] self.inputs[i]).0 < self.node_count
        &&& forall|i: int|
            0 <= i < self.outputs.len() ==> (#[trigger] self.outputs[i]).node.0 < self.node_count
        &&& forall|i: int|
            0 <= i < self.steps.len() ==> (#[trigger] self.steps[i]).node.0 < self.node_count
        &&& forall|i: int, k: int|
            0 <= i < self.steps.len() && 0 <= k < self.steps[i].synapses.len() ==> (
            #[trigger] self.steps[i].synapses[k]).target.0 < self.node_count
    }
}

/// What a node of the given type emits: a bias node the constant 1,
/// whatever function it carries, and every other node the value of its
/// function.
pub open spec fn emission_of(node: CppnNode<GeometricActivationFunction>) -> Emission {
    if node.kind == CppnNodeKind::Bias {
        Emission::One
    } else {
        Emission::Activated(node.activation_function)
    }
}

/// The active links among `links`, in their order, as synapses.
pub open spec fn synapses_of(links: Seq<CppnLink>) -> Seq<Synapse>
    decreases links.len(),
{
    if links.len() == 0 {
        Seq::empty()
    } else if links.last().active {
        synapses_of(links.drop_last()).push(
            Synapse { target: links.last().target, weight: links.last().weight },
        )
    } else {
        synapses_of(links.drop_last())
    }
}

impl GraphView {
    /// Where the output that `node` gives is read.
    pub open spec fn output_tap(self, node: CppnNodeIndex) -> OutputTap {
        OutputTap {
            node: node,
            activation_function: self.nodes[node.0 as int].node_type.activation_function,
        }
    }

    /// `step` is the step that `node` takes.
    pub open spec fn is_step_of(self, step: Step, node: CppnNodeIndex) -> bool {
        &&& step.node == node
        &&& step.emission == emission_of(self.nodes[node.0 as int].node_type)
        &&& step.synapses@ == synapses_of(self.links[node.0 as int])
    }

    /// `plan` is the evaluation plan of the graph: the input nodes and the
    /// taps at the output nodes by ascending index, and one step for each
    /// node that signals reach, in the order in which they spread.
    pub open spec fn is_plan(self, plan: EvaluationPlan) -> bool {
        &&& plan.node_count == self.nodes.len()
        &&& plan.inputs@ == self.input_nodes()
        &&& plan.outputs@ == self.output_nodes().map_values(|node: CppnNodeIndex| self.output_tap(node))
        &&& plan.steps.len() == self.propagation_order().len()
        &&& forall|i: int|
            0 <= i < plan.steps.len() ==> self.is_step_of(
                #[trigger] plan.steps[i],
                self.propagation_order()[i],
            )
    }

    /// A graph has one plan: two plans of it agree in every input, step and
    /// tap, so two evaluations of it do the same arithmetic in the same
    /// order.
    pub proof fn lemma_plan_is_determined(self, a: EvaluationPlan, b: EvaluationPlan)
        requires
            self.is_plan(a),
            self.is_plan(b),
        ensures
            a.node_count == b.node_count,
            a.inputs@ == b.inputs@,
            a.outputs@ == b.outputs@,
            a.steps.len() == b.steps.len(),
            forall|i: int|
                0 <= i < a.steps.len() ==> {
                    &&& (#[trigger] a.steps[i]).node == b.steps[i].node
                    &&& a.steps[i].emission == b.steps[i].emission
                    &&& a.steps[i].synapses@ == b.steps[i].synapses@
                },
    {
        assert forall|i: int| 0 <= i < a.steps.len() implies {
            &&& (#[trigger] a.steps[i]).node == b.steps[i].node
            &&& a.steps[i].emission == b.steps[i].emission
            &&& a.steps[i].synapses@ == b.steps[i].synapses@
        } by {
            assert(self.is_step_of(a.steps[i], self.propagation_order()[i]));
            assert(self.is_step_of(b.steps[i], self.propagation_order()[i]));
        }
    }

    /// The plan of a graph names nodes of the graph only.
    pub proof fn lemma_plan_in_range(self, plan: EvaluationPlan)
        requires
            self.is_closed(),
            self.is_plan(plan),
        ensures
            plan.is_in_range(),
    {
        let n = self.nodes.len() as int;
        self.lemma_propagation_visits_reached_once();
        assert forall|i: int| 0 <= i < plan.inputs.len() implies (#[trigger] plan.inputs[i]).0
            < plan.node_count by {
            lemma_select_sound(n, |v: int| self.is_input(v), i);
        }
        assert forall|i: int| 0 <= i < plan.outputs.len() implies (#[trigger] plan.outputs[i]).node.0
            < plan.node_count by {
            lemma_select_sound(n, |v: int| self.is_output(v), i);
        }
        assert forall|i: int| 0 <= i < plan.steps.len() implies (#[trigger] plan.steps[i]).node.0
            < plan.node_count by {
            assert(self.has_node(self.propagation_order()[i].0 as int));
        }
        assert forall|i: int, k: int|
            0 <= i < plan.steps.len() && 0 <= k < plan.steps[i].synapses.len() implies (
        #[trigger] plan.steps[i].synapses[k]).target.0 < plan.node_count by {
            assert(self.is_step_of(plan.steps[i], self.propagation_order()[i]));
            assert(self.has_node(self.propagation_order()[i].0 as int));
            self.lemma_synapses_in_graph(self.propagation_order()[i].0 as int, k);
        }
    }

    /// Synapses lead to nodes of the graph.
    pub proof fn lemma_synapses_in_graph(self, u: int, i: int)
        requires
            self.is_closed(),
            self.has_node(u),
            0 <= i < synapses_of(self.links[u]).len(),
        ensures
            self.has_node(synapses_of(self.links[u])[i].target.0 as int),
            self.has_link(u, synapses_of(self.links[u])[i].target.0 as int, true),
    {
        self.lemma_synapses_upto(u, self.links[u].len() as int, i);
        assert(self.links[u].take(self.links[u].len() as int) =~= self.links[u]);
    }

    proof fn lemma_synapses_upto(self, u: int, k: int, i: int)
        requires
            self.is_closed(),
            self.has_node(u),
            0 <= k <= self.links[u].len(),
            0 <= i < synapses_of(self.links[u].take(k)).len(),
        ensures
            self.has_node(synapses_of(self.links[u].take(k))[i].target.0 as int),
            self.has_link(u, synapses_of(self.links[u].take(k))[i].target.0 as int, true),
        decreases k,
    {
        let links = self.links[u];
        if k > 0 {
            assert(links.take(k).drop_last() =~= links.take(k - 1));
            let before = synapses_of(links.take(k - 1));
            if i < before.len() {
                self.lemma_synapses_upto(u, k - 1, i);
            } else {
                assert(self.is_link(u, k - 1));
            }
        }
    }
}

} // verus!
