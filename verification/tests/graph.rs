use cppn::activation_function::GeometricActivationFunction as AF;
use cppn::cppn::{CppnGraph, CppnNode, CppnNodeIndex, CppnNodeKind};
use cppn::graph::AddLinkError;
use cppn::model::{ExternalId, InvalidLink};
use cppn::scalar::Scalar;

fn weight(w: f64) -> Scalar {
    Scalar::from_bits(w.to_bits())
}

/// Kahn's algorithm: whether the links of `g` admit a topological order.
fn has_no_cycle(g: &CppnGraph) -> bool {
    let n = g.node_count();
    let mut in_degree: Vec<usize> = vec![0; n];
    for u in 0..n {
        for link in g.links(CppnNodeIndex::new(u)) {
            in_degree[link.target.index()] += 1;
        }
    }
    let mut ready: Vec<usize> = (0..n).filter(|&v| in_degree[v] == 0).collect();
    let mut removed = 0;
    while let Some(u) = ready.pop() {
        removed += 1;
        for link in g.links(CppnNodeIndex::new(u)) {
            let t = link.target.index();
            in_degree[t] -= 1;
            if in_degree[t] == 0 {
                ready.push(t);
            }
        }
    }
    removed == n
}

#[test]
fn test_cycle() {
    let mut g = CppnGraph::new();
    let i1 = g.add_node(CppnNode::input(AF::Linear), ExternalId(1));
    let h1 = g.add_node(CppnNode::hidden(AF::Linear), ExternalId(2));
    let h2 = g.add_node(CppnNode::hidden(AF::Linear), ExternalId(3));
    assert_eq!(true, g.valid_link(i1, i1).is_err());
    assert_eq!(true, g.valid_link(h1, h1).is_err());

    assert_eq!(true, g.valid_link(h1, i1).is_err());
    assert_eq!(Ok(()), g.valid_link(i1, h1));
    assert_eq!(Ok(()), g.valid_link(i1, h2));
    assert_eq!(Ok(()), g.valid_link(h1, h2));

    g.add_link(i1, h1, weight(0.0), ExternalId(1));
    assert_eq!(true, g.link_would_cycle(h1, i1));
    assert_eq!(false, g.link_would_cycle(i1, h1));
    assert_eq!(false, g.link_would_cycle(i1, h2));
    assert_eq!(true, g.link_would_cycle(i1, i1));
    assert_eq!(false, g.link_would_cycle(h1, h2));
    assert_eq!(false, g.link_would_cycle(h2, h1));
    assert_eq!(false, g.link_would_cycle(h2, i1));

    g.add_link(h1, h2, weight(0.0), ExternalId(2));
    assert_eq!(true, g.link_would_cycle(h2, i1));
    assert_eq!(true, g.link_would_cycle(h1, i1));
    assert_eq!(true, g.link_would_cycle(h2, h1));
    assert_eq!(false, g.link_would_cycle(i1, h2));
}

#[test]
fn test_find_random_unconnected_link_no_cycle() {
    let mut g = CppnGraph::new();
    let i1 = g.add_node(CppnNode::input(AF::Linear), ExternalId(1));
    let o1 = g.add_node(CppnNode::output(AF::Linear), ExternalId(2));
    let o2 = g.add_node(CppnNode::output(AF::Linear), ExternalId(3));

    let mut rng = rand::thread_rng();

    let link = g.find_random_unconnected_link_no_cycle(&mut rng);
    assert_eq!(true, link.is_some());
    let l = link.unwrap();
    assert!((i1, o1) == l || (i1, o2) == l);

    g.add_link(i1, o2, weight(0.0), ExternalId(1));
    let link = g.find_random_unconnected_link_no_cycle(&mut rng);
    assert_eq!(true, link.is_some());
    assert_eq!((i1, o1), link.unwrap());

    g.add_link(i1, o1, weight(0.0), ExternalId(2));
    let link = g.find_random_unconnected_link_no_cycle(&mut rng);
    assert_eq!(false, link.is_some());
}

#[test]
fn new_graph_is_empty() {
    let g = CppnGraph::new();
    assert_eq!(0, g.node_count());
}

#[test]
fn add_node_hands_out_dense_indices() {
    let mut g = CppnGraph::new();
    let a = g.add_node(CppnNode::bias(AF::Sine), ExternalId(7));
    let b = g.add_node(CppnNode::output(AF::Gaussian), ExternalId(9));
    assert_eq!(0, a.index());
    assert_eq!(1, b.index());
    assert_eq!(2, g.node_count());
    let first = g.node(a);
    assert_eq!(CppnNodeKind::Bias, first.node_type.kind);
    assert_eq!(AF::Sine, first.node_type.activation_function);
    assert_eq!(ExternalId(7), first.external_id);
    let second = g.node(b);
    assert_eq!(CppnNodeKind::Output, second.node_type.kind);
    assert_eq!(AF::Gaussian, second.node_type.activation_function);
    assert_eq!(ExternalId(9), second.external_id);
    assert_eq!(0, g.links(a).len());
    assert_eq!(0, g.in_degree(b));
}

#[test]
fn valid_link_names_what_stands_against_a_link() {
    let mut g = CppnGraph::new();
    let i = g.add_node(CppnNode::input(AF::Linear), ExternalId(1));
    let b = g.add_node(CppnNode::bias(AF::Linear), ExternalId(2));
    let h = g.add_node(CppnNode::hidden(AF::Linear), ExternalId(3));
    let o = g.add_node(CppnNode::output(AF::Linear), ExternalId(4));
    assert_eq!(Err(InvalidLink::Loop), g.valid_link(h, h));
    assert_eq!(Err(InvalidLink::Loop), g.valid_link(o, o));
    assert_eq!(Err(InvalidLink::SourceRejectsOutgoing), g.valid_link(o, h));
    assert_eq!(Err(InvalidLink::SourceRejectsOutgoing), g.valid_link(o, i));
    assert_eq!(Err(InvalidLink::TargetRejectsIncoming), g.valid_link(h, i));
    assert_eq!(Err(InvalidLink::TargetRejectsIncoming), g.valid_link(h, b));
    assert_eq!(Err(InvalidLink::TargetRejectsIncoming), g.valid_link(i, b));
    assert_eq!(Ok(()), g.valid_link(i, h));
    assert_eq!(Ok(()), g.valid_link(b, h));
    assert_eq!(Ok(()), g.valid_link(b, o));
    assert_eq!(Ok(()), g.valid_link(i, o));
    assert_eq!(Ok(()), g.valid_link(h, o));
}

#[test]
fn links_stand_by_ascending_token() {
    let mut g = CppnGraph::new();
    let a = g.add_node(CppnNode::input(AF::Linear), ExternalId(1));
    let t1 = g.add_node(CppnNode::hidden(AF::Linear), ExternalId(2));
    let t2 = g.add_node(CppnNode::hidden(AF::Linear), ExternalId(3));
    let t3 = g.add_node(CppnNode::hidden(AF::Linear), ExternalId(4));
    let t4 = g.add_node(CppnNode::hidden(AF::Linear), ExternalId(5));
    g.add_link(a, t1, weight(0.5), ExternalId(5));
    g.add_link(a, t2, weight(-1.5), ExternalId(3));
    g.add_link(a, t3, weight(2.0), ExternalId(4));
    // a link with a token that is there already comes behind it
    g.add_link(a, t4, weight(4.0), ExternalId(4));
    let links = g.links(a);
    let targets: Vec<usize> = links.iter().map(|l| l.target.index()).collect();
    let tokens: Vec<usize> = links.iter().map(|l| l.external_id.0).collect();
    let weights: Vec<f64> = links.iter().map(|l| f64::from_bits(l.weight.to_bits())).collect();
    assert_eq!(vec![t2.index(), t3.index(), t4.index(), t1.index()], targets);
    assert_eq!(vec![3, 4, 4, 5], tokens);
    assert_eq!(vec![-1.5, 2.0, 4.0, 0.5], weights);
    assert!(links.iter().all(|l| l.active));
    assert_eq!(0, g.in_degree(a));
    assert_eq!(1, g.in_degree(t1));
    assert_eq!(1, g.in_degree(t4));
    assert_eq!(0, g.links(t1).len());
}

#[test]
fn in_degree_counts_links_from_all_sources() {
    let mut g = CppnGraph::new();
    let a = g.add_node(CppnNode::input(AF::Linear), ExternalId(1));
    let b = g.add_node(CppnNode::bias(AF::Linear), ExternalId(2));
    let h = g.add_node(CppnNode::hidden(AF::Linear), ExternalId(3));
    let o = g.add_node(CppnNode::output(AF::Linear), ExternalId(4));
    g.add_link(a, o, weight(1.0), ExternalId(1));
    g.add_link(b, o, weight(1.0), ExternalId(2));
    g.add_link(h, o, weight(1.0), ExternalId(3));
    g.add_link(a, h, weight(1.0), ExternalId(4));
    assert_eq!(3, g.in_degree(o));
    assert_eq!(1, g.in_degree(h));
    assert_eq!(0, g.in_degree(a));
    assert_eq!(0, g.in_degree(b));
}

#[test]
fn try_add_link_adds_what_nothing_stands_against() {
    let mut g = CppnGraph::new();
    let i = g.add_node(CppnNode::input(AF::Linear), ExternalId(1));
    let h = g.add_node(CppnNode::hidden(AF::Linear), ExternalId(2));
    assert_eq!(Ok(()), g.try_add_link(i, h, weight(0.25), ExternalId(8)));
    let links = g.links(i);
    assert_eq!(1, links.len());
    assert_eq!(h, links[0].target);
    assert_eq!(0.25, f64::from_bits(links[0].weight.to_bits()));
    assert_eq!(ExternalId(8), links[0].external_id);
    assert_eq!(true, links[0].active);
}

#[test]
fn try_add_link_refuses_unknown_nodes() {
    let mut g = CppnGraph::new();
    let i = g.add_node(CppnNode::input(AF::Linear), ExternalId(1));
    let missing = CppnNodeIndex::new(1);
    assert_eq!(Err(AddLinkError::NoSuchNode), g.try_add_link(i, missing, weight(0.0), ExternalId(1)));
    assert_eq!(Err(AddLinkError::NoSuchNode), g.try_add_link(missing, i, weight(0.0), ExternalId(1)));
    assert_eq!(Err(AddLinkError::NoSuchNode), g.try_add_link(missing, missing, weight(0.0), ExternalId(1)));
    assert_eq!(0, g.links(i).len());
}

#[test]
fn try_add_link_refuses_invalid_links() {
    let mut g = CppnGraph::new();
    let i = g.add_node(CppnNode::input(AF::Linear), ExternalId(1));
    let h = g.add_node(CppnNode::hidden(AF::Linear), ExternalId(2));
    let o = g.add_node(CppnNode::output(AF::Linear), ExternalId(3));
    assert_eq!(
        Err(AddLinkError::Invalid(InvalidLink::Loop)),
        g.try_add_link(h, h, weight(0.0), ExternalId(1))
    );
    assert_eq!(
        Err(AddLinkError::Invalid(InvalidLink::SourceRejectsOutgoing)),
        g.try_add_link(o, h, weight(0.0), ExternalId(1))
    );
    assert_eq!(
        Err(AddLinkError::Invalid(InvalidLink::TargetRejectsIncoming)),
        g.try_add_link(h, i, weight(0.0), ExternalId(1))
    );
    assert_eq!(0, g.links(h).len());
    assert_eq!(0, g.links(o).len());
    assert_eq!(0, g.in_degree(i));
}

#[test]
fn try_add_link_refuses_a_cycle() {
    let mut g = CppnGraph::new();
    let h1 = g.add_node(CppnNode::hidden(AF::Linear), ExternalId(1));
    let h2 = g.add_node(CppnNode::hidden(AF::Linear), ExternalId(2));
    let h3 = g.add_node(CppnNode::hidden(AF::Linear), ExternalId(3));
    assert_eq!(Ok(()), g.try_add_link(h1, h2, weight(0.0), ExternalId(1)));
    assert_eq!(Ok(()), g.try_add_link(h2, h3, weight(0.0), ExternalId(2)));
    assert_eq!(Err(AddLinkError::WouldCycle), g.try_add_link(h3, h1, weight(0.0), ExternalId(3)));
    assert_eq!(Err(AddLinkError::WouldCycle), g.try_add_link(h2, h1, weight(0.0), ExternalId(3)));
    assert_eq!(0, g.links(h3).len());
    assert_eq!(1, g.links(h2).len());
    assert!(has_no_cycle(&g));
}

#[test]
fn try_add_link_refuses_a_duplicate_behind_its_twin() {
    let mut g = CppnGraph::new();
    let a = g.add_node(CppnNode::input(AF::Linear), ExternalId(1));
    let b = g.add_node(CppnNode::hidden(AF::Linear), ExternalId(2));
    let c = g.add_node(CppnNode::hidden(AF::Linear), ExternalId(3));
    assert_eq!(Ok(()), g.try_add_link(a, b, weight(0.0), ExternalId(1)));
    assert_eq!(true, g.is_duplicate_link(a, b, ExternalId(1)));
    assert_eq!(true, g.is_duplicate_link(a, b, ExternalId(2)));
    assert_eq!(false, g.is_duplicate_link(a, b, ExternalId(0)));
    assert_eq!(false, g.is_duplicate_link(a, c, ExternalId(1)));
    assert_eq!(Err(AddLinkError::Duplicate), g.try_add_link(a, b, weight(0.0), ExternalId(1)));
    assert_eq!(1, g.links(a).len());
    // with another link in between, the graph takes a second link to `b`
    assert_eq!(Ok(()), g.try_add_link(a, c, weight(0.0), ExternalId(2)));
    assert_eq!(Ok(()), g.try_add_link(a, b, weight(0.0), ExternalId(3)));
    let targets: Vec<CppnNodeIndex> = g.links(a).iter().map(|l| l.target).collect();
    assert_eq!(vec![b, c, b], targets);
    assert_eq!(2, g.in_degree(b));
}

#[test]
fn links_added_after_a_cycle_check_leave_no_cycle() {
    let mut g = CppnGraph::new();
    let n = 7;
    let nodes: Vec<CppnNodeIndex> =
        (0..n).map(|k| g.add_node(CppnNode::hidden(AF::Linear), ExternalId(k))).collect();
    let mut token = 0;
    let mut added = 0;
    // try every ordered pair, in an order that runs against the indices too
    for step in 1..n {
        for from in (0..n).rev() {
            let src = nodes[from];
            let dst = nodes[(from + step * 3) % n];
            if g.valid_link(src, dst).is_ok()
                && !g.link_would_cycle(src, dst)
                && !g.is_duplicate_link(src, dst, ExternalId(token))
            {
                g.add_link(src, dst, weight(1.0), ExternalId(token));
                token += 1;
                added += 1;
                assert!(has_no_cycle(&g));
            }
        }
    }
    // a graph on 7 nodes without cycles has 21 links at most, and the
    // pairs tried reach that
    assert_eq!(21, added);
}

#[test]
fn stored_links_are_admissible() {
    let mut g = CppnGraph::new();
    let kinds = [
        CppnNodeKind::Input,
        CppnNodeKind::Bias,
        CppnNodeKind::Hidden,
        CppnNodeKind::Hidden,
        CppnNodeKind::Output,
        CppnNodeKind::Output,
    ];
    let nodes: Vec<CppnNodeIndex> = kinds
        .iter()
        .enumerate()
        .map(|(k, kind)| g.add_node(CppnNode::new(*kind, AF::Linear), ExternalId(k)))
        .collect();
    let mut token = 0;
    for &src in &nodes {
        for &dst in &nodes {
            if g.try_add_link(src, dst, weight(1.0), ExternalId(token)).is_ok() {
                token += 1;
            }
        }
    }
    let mut count = 0;
    for &src in &nodes {
        for link in g.links(src) {
            count += 1;
            assert!(link.target != src);
            assert!(g.node(src).node_type.kind != CppnNodeKind::Output);
            let target_kind = g.node(link.target).node_type.kind;
            assert!(target_kind != CppnNodeKind::Input && target_kind != CppnNodeKind::Bias);
        }
    }
    // input and bias reach 4 nodes each, the first hidden node the second
    // and both outputs, the second hidden node both outputs
    assert_eq!(13, count);
}

#[test]
fn picked_links_are_free_until_none_is_left() {
    let mut g = CppnGraph::new();
    let kinds = [
        CppnNodeKind::Input,
        CppnNodeKind::Bias,
        CppnNodeKind::Hidden,
        CppnNodeKind::Hidden,
        CppnNodeKind::Output,
    ];
    let nodes: Vec<CppnNodeIndex> = kinds
        .iter()
        .enumerate()
        .map(|(k, kind)| g.add_node(CppnNode::new(*kind, AF::Linear), ExternalId(k)))
        .collect();
    let mut rng = rand::thread_rng();
    let mut token = 0;
    while let Some((src, dst)) = g.find_random_unconnected_link_no_cycle(&mut rng) {
        assert!(src != dst);
        assert_eq!(Ok(()), g.valid_link(src, dst));
        assert_eq!(false, g.link_would_cycle(src, dst));
        assert!(g.links(src).iter().all(|l| l.target != dst));
        assert!(g.links(dst).iter().all(|l| l.target != src));
        g.add_link(src, dst, weight(1.0), ExternalId(token));
        token += 1;
        assert!(token <= 20);
    }
    // nothing was returned: no pair is free
    for &src in &nodes {
        for &dst in &nodes {
            let connected = g.links(src).iter().any(|l| l.target == dst)
                || g.links(dst).iter().any(|l| l.target == src);
            let free = src != dst
                && !connected
                && g.valid_link(src, dst).is_ok()
                && !g.link_would_cycle(src, dst);
            assert!(!free);
        }
    }
    // input and bias to both hidden nodes and the output, one link between
    // the hidden nodes, and both of them to the output
    assert_eq!(9, token);
    assert!(has_no_cycle(&g));
}

#[test]
fn has_link_sees_links_in_their_direction() {
    let mut g = CppnGraph::new();
    let a = g.add_node(CppnNode::input(AF::Linear), ExternalId(1));
    let b = g.add_node(CppnNode::hidden(AF::Linear), ExternalId(2));
    let c = g.add_node(CppnNode::hidden(AF::Linear), ExternalId(3));
    g.add_link(a, b, weight(1.0), ExternalId(1));
    g.add_link(b, c, weight(1.0), ExternalId(2));
    assert_eq!(true, g.has_link(a, b));
    assert_eq!(false, g.has_link(b, a));
    assert_eq!(true, g.has_link(b, c));
    assert_eq!(false, g.has_link(a, c));
    assert_eq!(false, g.has_link(a, a));
    assert_eq!(false, g.has_link(c, CppnNodeIndex::new(17)));
}

#[test]
fn free_links_are_unconnected_valid_and_cycle_free() {
    let mut g = CppnGraph::new();
    let i = g.add_node(CppnNode::input(AF::Linear), ExternalId(1));
    let h1 = g.add_node(CppnNode::hidden(AF::Linear), ExternalId(2));
    let h2 = g.add_node(CppnNode::hidden(AF::Linear), ExternalId(3));
    let o = g.add_node(CppnNode::output(AF::Linear), ExternalId(4));
    g.add_link(i, h1, weight(1.0), ExternalId(1));
    g.add_link(h1, h2, weight(1.0), ExternalId(2));
    // connected, in either direction
    assert_eq!(false, g.is_free_link(i, h1));
    assert_eq!(false, g.is_free_link(h1, i));
    assert_eq!(false, g.is_free_link(h2, h1));
    // a loop
    assert_eq!(false, g.is_free_link(h1, h1));
    // not valid
    assert_eq!(false, g.is_free_link(o, h1));
    assert_eq!(false, g.is_free_link(h2, i));
    // free
    assert_eq!(true, g.is_free_link(i, h2));
    assert_eq!(true, g.is_free_link(i, o));
    assert_eq!(true, g.is_free_link(h1, o));
    assert_eq!(true, g.is_free_link(h2, o));
    assert_eq!(Some((i, h2)), g.first_free_link());
    g.add_link(i, h2, weight(1.0), ExternalId(3));
    assert_eq!(Some((i, o)), g.first_free_link());
    g.add_link(i, o, weight(1.0), ExternalId(4));
    assert_eq!(Some((h1, o)), g.first_free_link());
    g.add_link(h1, o, weight(1.0), ExternalId(5));
    assert_eq!(Some((h2, o)), g.first_free_link());
    g.add_link(h2, o, weight(1.0), ExternalId(6));
    assert_eq!(None, g.first_free_link());
}

#[test]
fn a_free_link_may_close_no_cycle_over_several_links() {
    let mut g = CppnGraph::new();
    let a = g.add_node(CppnNode::hidden(AF::Linear), ExternalId(1));
    let b = g.add_node(CppnNode::hidden(AF::Linear), ExternalId(2));
    let c = g.add_node(CppnNode::hidden(AF::Linear), ExternalId(3));
    g.add_link(a, b, weight(1.0), ExternalId(1));
    g.add_link(b, c, weight(1.0), ExternalId(2));
    // c and a are unconnected, but a link from c to a would close a cycle
    assert_eq!(false, g.has_link(c, a));
    assert_eq!(false, g.has_link(a, c));
    assert_eq!(false, g.is_free_link(c, a));
    assert_eq!(true, g.is_free_link(a, c));
    assert_eq!(Some((a, c)), g.first_free_link());
    let mut rng = rand::thread_rng();
    assert_eq!(Some((a, c)), g.find_random_unconnected_link_no_cycle(&mut rng));
    assert_eq!(false, g.first_free_link().is_none());
    let empty = CppnGraph::new();
    assert_eq!(None, empty.first_free_link());
    assert_eq!(None, empty.find_random_unconnected_link_no_cycle(&mut rng));
}
