use cppn::activation_function::GeometricActivationFunction as AF;
use cppn::cppn::{Cppn, CppnGraph, CppnNode, CppnNodeIndex};
use cppn::model::ExternalId;
use cppn::plan::{Emission, OutputTap, Synapse};
use cppn::scalar::Scalar;

fn weight(w: f64) -> Scalar {
    Scalar::from_bits(w.to_bits())
}

fn activation(f: AF, x: f64) -> f64 {
    let tau = 2.0 * std::f64::consts::PI;
    match f {
        AF::Linear => x,
        AF::LinearBipolarClipped => x.max(-1.0).min(1.0),
        AF::Absolute => x.abs(),
        AF::Gaussian => (-((x * 2.5).powi(2))).exp(),
        AF::BipolarGaussian => 2.0 * (-((x * 2.5).powi(2))).exp() - 1.0,
        AF::BipolarSigmoid => (2.0 / (1.0 + (-4.9 * x).exp())) - 1.0,
        AF::Sine => (tau * x).sin(),
        AF::Cosine => (tau * x).cos(),
        AF::Constant1 => 1.0,
    }
}

/// Spreads `inputs` through the graph as the evaluator's plan says, and
/// reads the outputs.
fn calculate(cppn: &Cppn, inputs: &[&[f64]]) -> Vec<f64> {
    let plan = cppn.plan();
    let mut signals = vec![0.0; plan.node_count];
    let mut i = 0;
    for chunk in inputs.iter() {
        for &value in chunk.iter() {
            signals[plan.inputs[i].index()] = value;
            i += 1;
        }
    }
    assert!(i == cppn.input_count());
    for step in plan.steps.iter() {
        let out = match step.emission {
            Emission::One => 1.0,
            Emission::Activated(f) => activation(f, signals[step.node.index()]),
        };
        for synapse in step.synapses.iter() {
            signals[synapse.target.index()] += f64::from_bits(synapse.weight.to_bits()) * out;
        }
    }
    plan.outputs
        .iter()
        .map(|tap| activation(tap.activation_function, signals[tap.node.index()]))
        .collect()
}

fn indices(nodes: &[CppnNodeIndex]) -> Vec<usize> {
    nodes.iter().map(|i| i.index()).collect()
}

#[test]
fn test_simple_cppn() {
    let mut g = CppnGraph::new();
    let i1 = g.add_node(CppnNode::input(AF::Linear), ExternalId(1));
    let h1 = g.add_node(CppnNode::hidden(AF::Linear), ExternalId(2));
    let o1 = g.add_node(CppnNode::output(AF::Linear), ExternalId(3));
    g.add_link(i1, h1, weight(0.5), ExternalId(1));
    g.add_link(h1, o1, weight(1.0), ExternalId(2));

    let cppn = Cppn::new(&g);

    let f = |x| 0.5 * x * 1.0;
    assert_eq!(vec![f(0.5)], calculate(&cppn, &[&[0.5]]));
    assert_eq!(vec![f(4.0)], calculate(&cppn, &[&[4.0]]));
    assert_eq!(vec![f(-4.0)], calculate(&cppn, &[&[-4.0]]));
    assert_eq!(vec![0.25], calculate(&cppn, &[&[0.5]]));
    assert_eq!(vec![2.0], calculate(&cppn, &[&[4.0]]));
    assert_eq!(vec![-2.0], calculate(&cppn, &[&[-4.0]]));
}

#[test]
fn test_cppn_with_output_activation_function() {
    let mut g = CppnGraph::new();
    let i1 = g.add_node(CppnNode::input(AF::Linear), ExternalId(1));
    let h1 = g.add_node(CppnNode::hidden(AF::Linear), ExternalId(2));
    let o1 = g.add_node(CppnNode::output(AF::Constant1), ExternalId(3));
    g.add_link(i1, h1, weight(0.5), ExternalId(1));
    g.add_link(h1, o1, weight(1.0), ExternalId(2));

    let cppn = Cppn::new(&g);

    assert_eq!(vec![1.0], calculate(&cppn, &[&[0.5]]));
    assert_eq!(vec![1.0], calculate(&cppn, &[&[4.0]]));
    assert_eq!(vec![1.0], calculate(&cppn, &[&[-4.0]]));
}

#[test]
fn test_layout() {
    let mut g = CppnGraph::new();
    let i1 = g.add_node(CppnNode::input(AF::Linear), ExternalId(1));
    let h1 = g.add_node(CppnNode::hidden(AF::Linear), ExternalId(2));
    let h2 = g.add_node(CppnNode::hidden(AF::Linear), ExternalId(2));
    let o1 = g.add_node(CppnNode::output(AF::Constant1), ExternalId(3));
    g.add_link(i1, h1, weight(0.5), ExternalId(1));
    g.add_link(h1, o1, weight(1.0), ExternalId(2));

    assert_eq!(vec![0, 1, 1, 5], Cppn::new(&g).layout());

    g.add_link(i1, h2, weight(0.5), ExternalId(1));
    assert_eq!(vec![0, 1, 1, 5], Cppn::new(&g).layout());
    g.add_link(h2, o1, weight(0.5), ExternalId(1));
    assert_eq!(vec![0, 1, 1, 5], Cppn::new(&g).layout());
    g.add_link(h2, h1, weight(0.5), ExternalId(1));
    assert_eq!(vec![0, 2, 1, 5], Cppn::new(&g).layout());
}

#[test]
fn test_group_layers() {
    let mut g = CppnGraph::new();
    let i1 = g.add_node(CppnNode::input(AF::Linear), ExternalId(1));
    let h1 = g.add_node(CppnNode::hidden(AF::Linear), ExternalId(2));
    let h2 = g.add_node(CppnNode::hidden(AF::Linear), ExternalId(2));
    let o1 = g.add_node(CppnNode::output(AF::Constant1), ExternalId(3));
    g.add_link(i1, h1, weight(0.5), ExternalId(1));
    g.add_link(h1, o1, weight(1.0), ExternalId(2));

    assert_eq!(vec![vec![0], vec![1, 2], vec![3]], Cppn::new(&g).group_layers());

    g.add_link(i1, h2, weight(0.5), ExternalId(1));
    assert_eq!(vec![vec![0], vec![1, 2], vec![3]], Cppn::new(&g).group_layers());
    g.add_link(h2, o1, weight(0.5), ExternalId(1));
    assert_eq!(vec![vec![0], vec![1, 2], vec![3]], Cppn::new(&g).group_layers());
    g.add_link(h2, h1, weight(0.5), ExternalId(1));
    assert_eq!(vec![vec![0], vec![2], vec![1], vec![3]], Cppn::new(&g).group_layers());
}

#[test]
fn evaluator_of_an_empty_graph() {
    let g = CppnGraph::new();
    let cppn = Cppn::new(&g);
    assert_eq!(0, cppn.input_count());
    assert_eq!(0, cppn.output_count());
    assert_eq!(0, cppn.start_nodes().len());
    assert_eq!(Vec::<CppnNodeIndex>::new(), cppn.propagation_order());
    assert_eq!(Vec::<usize>::new(), cppn.layout());
    assert_eq!(Vec::<Vec<usize>>::new(), cppn.group_layers());
    assert_eq!(Vec::<f64>::new(), calculate(&cppn, &[]));
}

#[test]
fn evaluator_records_inputs_outputs_and_start_nodes() {
    let mut g = CppnGraph::new();
    let o1 = g.add_node(CppnNode::output(AF::Linear), ExternalId(1));
    let i1 = g.add_node(CppnNode::input(AF::Linear), ExternalId(2));
    let h1 = g.add_node(CppnNode::hidden(AF::Linear), ExternalId(3));
    let b1 = g.add_node(CppnNode::bias(AF::Linear), ExternalId(4));
    let i2 = g.add_node(CppnNode::input(AF::Linear), ExternalId(5));
    let o2 = g.add_node(CppnNode::output(AF::Linear), ExternalId(6));
    let h2 = g.add_node(CppnNode::hidden(AF::Linear), ExternalId(7));
    g.add_link(i1, h1, weight(1.0), ExternalId(1));
    g.add_link(b1, h1, weight(1.0), ExternalId(2));
    g.add_link(h1, o2, weight(1.0), ExternalId(3));
    let cppn = Cppn::new(&g);
    assert_eq!(2, cppn.input_count());
    assert_eq!(2, cppn.output_count());
    assert_eq!(vec![i1.index(), i2.index()], indices(cppn.inputs()));
    assert_eq!(vec![o1.index(), o2.index()], indices(cppn.outputs()));
    // a hidden node and an output at which no link ends are start nodes too
    assert_eq!(
        vec![o1.index(), i1.index(), b1.index(), i2.index(), h2.index()],
        indices(cppn.start_nodes())
    );
    assert_eq!(7, cppn.graph().node_count());
}

#[test]
fn propagation_takes_the_last_discovered_node_first() {
    let mut g = CppnGraph::new();
    let i1 = g.add_node(CppnNode::input(AF::Linear), ExternalId(1));
    let i2 = g.add_node(CppnNode::input(AF::Linear), ExternalId(2));
    let a = g.add_node(CppnNode::hidden(AF::Linear), ExternalId(3));
    let b = g.add_node(CppnNode::hidden(AF::Linear), ExternalId(4));
    let c = g.add_node(CppnNode::hidden(AF::Linear), ExternalId(5));
    let o = g.add_node(CppnNode::output(AF::Linear), ExternalId(6));
    g.add_link(i1, a, weight(1.0), ExternalId(1));
    g.add_link(i2, b, weight(1.0), ExternalId(2));
    g.add_link(i2, c, weight(1.0), ExternalId(3));
    g.add_link(c, o, weight(1.0), ExternalId(4));
    g.add_link(b, o, weight(1.0), ExternalId(5));
    g.add_link(a, o, weight(1.0), ExternalId(6));
    let order = Cppn::new(&g).propagation_order();
    // start nodes i1, i2: i2 is on top; it discovers b, then c; c is on
    // top and discovers o; then o, b, and at last i1 and a
    assert_eq!(
        vec![i2.index(), c.index(), o.index(), b.index(), i1.index(), a.index()],
        indices(&order)
    );
}

#[test]
fn propagation_visits_each_reached_node_once() {
    // a diamond with a second way into its end, and a node behind a cycle-free
    // detour that no start node reaches
    let mut g = CppnGraph::new();
    let s = g.add_node(CppnNode::input(AF::Linear), ExternalId(1));
    let l = g.add_node(CppnNode::hidden(AF::Linear), ExternalId(2));
    let r = g.add_node(CppnNode::hidden(AF::Linear), ExternalId(3));
    let e = g.add_node(CppnNode::hidden(AF::Linear), ExternalId(4));
    let o = g.add_node(CppnNode::output(AF::Linear), ExternalId(5));
    let lone = g.add_node(CppnNode::hidden(AF::Linear), ExternalId(6));
    g.add_link(s, l, weight(1.0), ExternalId(1));
    g.add_link(s, r, weight(1.0), ExternalId(2));
    g.add_link(l, e, weight(1.0), ExternalId(3));
    g.add_link(r, e, weight(1.0), ExternalId(4));
    g.add_link(s, e, weight(1.0), ExternalId(5));
    g.add_link(e, o, weight(1.0), ExternalId(6));
    let cppn = Cppn::new(&g);
    let order = indices(&cppn.propagation_order());
    let mut sorted = order.clone();
    sorted.sort();
    // `lone` has no incoming link, so it is a start node and is visited
    assert_eq!(vec![0, 1, 2, 3, 4, 5], sorted);
    assert_eq!(6, order.len());
    assert_eq!(vec![s.index(), lone.index()], indices(cppn.start_nodes()));
    assert_eq!(
        vec![lone.index(), s.index(), e.index(), o.index(), r.index(), l.index()],
        order
    );
}

#[test]
fn propagation_is_the_same_on_every_call() {
    let mut g = CppnGraph::new();
    let i1 = g.add_node(CppnNode::input(AF::Sine), ExternalId(1));
    let b1 = g.add_node(CppnNode::bias(AF::Linear), ExternalId(2));
    let h1 = g.add_node(CppnNode::hidden(AF::Gaussian), ExternalId(3));
    let o1 = g.add_node(CppnNode::output(AF::BipolarSigmoid), ExternalId(4));
    g.add_link(i1, h1, weight(0.3), ExternalId(1));
    g.add_link(b1, h1, weight(-0.7), ExternalId(2));
    g.add_link(h1, o1, weight(1.9), ExternalId(3));
    g.add_link(i1, o1, weight(0.1), ExternalId(4));
    let cppn = Cppn::new(&g);
    let first = cppn.propagation_order();
    let again = Cppn::new(&g).propagation_order();
    assert_eq!(first, again);
    let y1 = calculate(&cppn, &[&[0.37]]);
    let y2 = calculate(&cppn, &[&[0.37]]);
    assert_eq!(y1[0].to_bits(), y2[0].to_bits());
    assert!(y1[0].abs() <= 1.0);
}

#[test]
fn bias_gives_one_whatever_it_carries() {
    let mut g = CppnGraph::new();
    let b = g.add_node(CppnNode::bias(AF::Absolute), ExternalId(1));
    let i = g.add_node(CppnNode::input(AF::Linear), ExternalId(2));
    let o = g.add_node(CppnNode::output(AF::Linear), ExternalId(3));
    g.add_link(b, o, weight(0.5), ExternalId(1));
    g.add_link(i, o, weight(2.0), ExternalId(2));
    let cppn = Cppn::new(&g);
    assert_eq!(vec![0.5 + 2.0 * 3.0], calculate(&cppn, &[&[3.0]]));
    assert_eq!(vec![0.5], calculate(&cppn, &[&[0.0]]));
}

#[test]
fn input_activation_runs_before_fan_out() {
    let mut g = CppnGraph::new();
    let i = g.add_node(CppnNode::input(AF::Absolute), ExternalId(1));
    let o = g.add_node(CppnNode::output(AF::Linear), ExternalId(2));
    g.add_link(i, o, weight(1.0), ExternalId(1));
    let cppn = Cppn::new(&g);
    assert_eq!(vec![2.0], calculate(&cppn, &[&[-2.0]]));
}

#[test]
fn layout_ranks_rise_along_every_link() {
    let mut g = CppnGraph::new();
    let i1 = g.add_node(CppnNode::input(AF::Linear), ExternalId(1));
    let b1 = g.add_node(CppnNode::bias(AF::Linear), ExternalId(2));
    let h1 = g.add_node(CppnNode::hidden(AF::Linear), ExternalId(3));
    let h2 = g.add_node(CppnNode::hidden(AF::Linear), ExternalId(4));
    let h3 = g.add_node(CppnNode::hidden(AF::Linear), ExternalId(5));
    let o1 = g.add_node(CppnNode::output(AF::Linear), ExternalId(6));
    g.add_link(h3, o1, weight(1.0), ExternalId(1));
    g.add_link(h2, h3, weight(1.0), ExternalId(2));
    g.add_link(h1, h2, weight(1.0), ExternalId(3));
    g.add_link(i1, h1, weight(1.0), ExternalId(4));
    g.add_link(b1, h3, weight(1.0), ExternalId(5));
    let cppn = Cppn::new(&g);
    let ranks = cppn.layout();
    // the bias starts at 1 like a hidden node; the chain h1, h2, h3 climbs
    assert_eq!(vec![0, 1, 1, 2, 3, 7], ranks);
    for u in 0..g.node_count() {
        for link in g.links(CppnNodeIndex::new(u)) {
            assert!(ranks[u] < ranks[link.target.index()]);
        }
    }
    assert_eq!(
        vec![vec![0], vec![1, 2], vec![3], vec![4], vec![5]],
        cppn.group_layers()
    );
}

#[test]
fn layout_of_nodes_without_links() {
    let mut g = CppnGraph::new();
    g.add_node(CppnNode::output(AF::Linear), ExternalId(1));
    g.add_node(CppnNode::hidden(AF::Linear), ExternalId(2));
    g.add_node(CppnNode::input(AF::Linear), ExternalId(3));
    g.add_node(CppnNode::bias(AF::Linear), ExternalId(4));
    let cppn = Cppn::new(&g);
    assert_eq!(vec![5, 1, 0, 1], cppn.layout());
    assert_eq!(vec![vec![2], vec![1, 3], vec![0]], cppn.group_layers());
}

#[test]
fn plan_lists_inputs_steps_and_taps() {
    let mut g = CppnGraph::new();
    let i1 = g.add_node(CppnNode::input(AF::Sine), ExternalId(1));
    let b1 = g.add_node(CppnNode::bias(AF::Absolute), ExternalId(2));
    let h1 = g.add_node(CppnNode::hidden(AF::Gaussian), ExternalId(3));
    let o1 = g.add_node(CppnNode::output(AF::BipolarSigmoid), ExternalId(4));
    g.add_link(i1, h1, weight(0.3), ExternalId(2));
    g.add_link(i1, o1, weight(0.1), ExternalId(1));
    g.add_link(b1, h1, weight(-0.7), ExternalId(3));
    g.add_link(h1, o1, weight(1.9), ExternalId(4));
    let plan = Cppn::new(&g).plan();
    assert_eq!(4, plan.node_count);
    assert_eq!(vec![i1], plan.inputs);
    assert_eq!(vec![OutputTap { node: o1, activation_function: AF::BipolarSigmoid }], plan.outputs);
    // b1 is on top of the frontier; it discovers h1, which discovers o1
    let nodes: Vec<CppnNodeIndex> = plan.steps.iter().map(|s| s.node).collect();
    assert_eq!(vec![b1, h1, o1, i1], nodes);
    let emissions: Vec<Emission> = plan.steps.iter().map(|s| s.emission).collect();
    assert_eq!(
        vec![
            Emission::One,
            Emission::Activated(AF::Gaussian),
            Emission::Activated(AF::BipolarSigmoid),
            Emission::Activated(AF::Sine),
        ],
        emissions
    );
    assert_eq!(vec![Synapse { target: h1, weight: weight(-0.7) }], plan.steps[0].synapses);
    assert_eq!(vec![Synapse { target: o1, weight: weight(1.9) }], plan.steps[1].synapses);
    assert_eq!(Vec::<Synapse>::new(), plan.steps[2].synapses);
    // the links of i1 stand by their tokens
    assert_eq!(
        vec![
            Synapse { target: o1, weight: weight(0.1) },
            Synapse { target: h1, weight: weight(0.3) },
        ],
        plan.steps[3].synapses
    );
}

#[test]
fn a_node_taken_before_its_sources_hands_on_what_it_has() {
    // the frontier takes `late` before `early`, so `late` hands on what only
    // the input gave it
    let mut g = CppnGraph::new();
    let i = g.add_node(CppnNode::input(AF::Linear), ExternalId(1));
    let early = g.add_node(CppnNode::hidden(AF::Linear), ExternalId(2));
    let late = g.add_node(CppnNode::hidden(AF::Linear), ExternalId(3));
    let o = g.add_node(CppnNode::output(AF::Linear), ExternalId(4));
    g.add_link(i, early, weight(1.0), ExternalId(1));
    g.add_link(i, late, weight(1.0), ExternalId(2));
    g.add_link(early, late, weight(10.0), ExternalId(3));
    g.add_link(late, o, weight(1.0), ExternalId(4));
    let cppn = Cppn::new(&g);
    assert_eq!(
        vec![i.index(), late.index(), o.index(), early.index()],
        indices(&cppn.propagation_order())
    );
    assert_eq!(vec![2.0], calculate(&cppn, &[&[2.0]]));
}
