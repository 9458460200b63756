use nadi::accumulate::{CumulateError, OrderError};
use nadi::attr::{Decimal, NodeAttr};
use nadi::network::{Network, ParseError};
use nadi::template::Template;

fn lines(text: &str) -> Vec<String> {
    text.split('\n').map(|l| l.to_string()).collect()
}

fn build(text: &str) -> Network {
    let mut net = Network::from_lines(&lines(text)).unwrap();
    net.order().unwrap();
    net.reindex();
    net
}

fn order_of(net: &Network, name: &str) -> usize {
    net.nodes[net.index_of(name).unwrap()].order.unwrap()
}

fn level_of(net: &Network, name: &str) -> usize {
    net.nodes[net.index_of(name).unwrap()].level.unwrap()
}

#[test]
fn confluence_orders() {
    let mut net = Network::from_lines(&lines("A -> C\nB -> C\nC -> D")).unwrap();
    assert_eq!(net.nodes.len(), 4);
    net.order().unwrap();
    assert_eq!(order_of(&net, "A"), 1);
    assert_eq!(order_of(&net, "B"), 1);
    assert_eq!(order_of(&net, "C"), 3);
    assert_eq!(order_of(&net, "D"), 4);
}

#[test]
fn confluence_layout() {
    let net = build("A -> C\nB -> C\nC -> D");
    let names: Vec<String> = net.nodes.iter().map(|n| n.name.clone()).collect();
    assert_eq!(names, vec!["D", "C", "A", "B"]);
    assert_eq!(level_of(&net, "D"), 0);
    assert_eq!(level_of(&net, "C"), 0);
    assert_eq!(level_of(&net, "A"), 1);
    assert_eq!(level_of(&net, "B"), 0);
    assert_eq!(net.nodes[1].inputs, vec![2, 3]);
    assert_eq!(net.nodes[0].inputs, vec![1]);
    assert_eq!(net.nodes[2].output, Some(1));
}

#[test]
fn reindex_is_dense_with_components() {
    let net = build("E -> F\nA -> B\nX\nC -> B\nB -> D");
    let n = net.nodes.len();
    assert_eq!(n, 7);
    let mut seen = vec![false; n];
    for (i, node) in net.nodes.iter().enumerate() {
        assert_eq!(node.index, i);
        assert!(!seen[node.index]);
        seen[node.index] = true;
        if let Some(o) = node.output {
            assert!(net.nodes[o].inputs.contains(&i));
        }
    }
    assert!(seen.iter().all(|s| *s));
    assert_eq!(net.nodes[0].name, "F");
}

#[test]
fn reindex_twice_keeps_layout() {
    let mut net = build("A -> C\nB -> C\nC -> D\nE -> D\nG -> E\nH -> E");
    let names: Vec<String> = net.nodes.iter().map(|n| n.name.clone()).collect();
    let levels: Vec<Option<usize>> = net.nodes.iter().map(|n| n.level).collect();
    net.order().unwrap();
    net.reindex();
    let names2: Vec<String> = net.nodes.iter().map(|n| n.name.clone()).collect();
    let levels2: Vec<Option<usize>> = net.nodes.iter().map(|n| n.level).collect();
    assert_eq!(names, names2);
    assert_eq!(levels, levels2);
}

#[test]
fn larger_input_is_main_channel() {
    let net = build("A -> C\nB -> C\nE -> B\nC -> D");
    let c = net.index_of("C").unwrap();
    let b = net.index_of("B").unwrap();
    let a = net.index_of("A").unwrap();
    assert_eq!(net.nodes[c].inputs, vec![a, b]);
    assert_eq!(level_of(&net, "B"), 0);
    assert_eq!(level_of(&net, "A"), 1);
}

#[test]
fn order_grows_downstream() {
    let net = build("A -> C\nB -> C\nC -> D\nE -> D\nF");
    for node in &net.nodes {
        if node.inputs.is_empty() {
            assert_eq!(node.order, Some(1));
        }
        let sum: usize = node.inputs.iter().map(|i| net.nodes[*i].order.unwrap()).sum();
        assert_eq!(node.order.unwrap(), 1 + sum);
        if let Some(o) = node.output {
            assert!(net.nodes[o].order.unwrap() > node.order.unwrap());
        }
    }
}

#[test]
fn single_bare_node() {
    let net = build("X");
    assert_eq!(net.nodes.len(), 1);
    assert_eq!(order_of(&net, "X"), 1);
    let t = Template::parse_template("${name}").unwrap();
    let out = net.graph_print(&t);
    assert_eq!(out, vec![" *  X".to_string(), String::new()]);
}

#[test]
fn ascii_tree_two_lines_per_node() {
    let net = build("A -> C\nB -> C\nC -> D\nE -> D");
    let t = Template::parse_template("${name}").unwrap();
    let out = net.graph_print(&t);
    assert_eq!(out.len(), 2 * net.nodes.len());
    assert_eq!(out.last().unwrap(), "");
    assert!(out[out.len() - 2].ends_with("  D"));
}

#[test]
fn ascii_tree_glyphs() {
    let net = build("A -> C\nB -> C\nC -> D");
    let t = Template::parse_template("$name").unwrap();
    let out = net.graph_print(&t);
    assert_eq!(
        out,
        vec![
            "+ -*  A".to_string(),
            "| ".to_string(),
            "   *  B".to_string(),
            "| ".to_string(),
            "   *  C".to_string(),
            "| ".to_string(),
            "   *  D".to_string(),
            String::new(),
        ]
    );
}

#[test]
fn comments_and_blank_lines() {
    let net = Network::from_lines(&lines("# a network\n\n  A ->  B  \n   # more\nC")).unwrap();
    assert_eq!(net.nodes.len(), 3);
    assert_eq!(net.nodes[0].name, "A");
    assert_eq!(net.nodes[0].output, Some(1));
    assert_eq!(net.nodes[1].inputs, vec![0]);
    assert_eq!(net.nodes[2].name, "C");
}

#[test]
fn second_output_is_rejected() {
    let r = Network::from_lines(&lines("A -> B\nA -> C"));
    assert_eq!(r.err(), Some(ParseError::DuplicateOutput { line: 1 }));
}

#[test]
fn self_loop_is_rejected() {
    let r = Network::from_lines(&lines("A -> A"));
    assert_eq!(r.err(), Some(ParseError::SelfLoop { line: 0 }));
}

#[test]
fn cycle_is_reported() {
    let mut net = Network::from_lines(&lines("A -> B\nB -> C\nC -> A")).unwrap();
    assert_eq!(net.order(), Err(OrderError::Cycle));
    assert_eq!(net.cumulate("v", true), Err(CumulateError::Cycle));
}

#[test]
fn cumulate_safe_chain() {
    let mut net = build("A -> B");
    let a = net.index_of("A").unwrap();
    net.nodes[a].set_attr("v", NodeAttr::number(2));
    net.cumulate("v", true).unwrap();
    assert_eq!(net.nodes[a].get_attr_repr("cum_v"), "2");
    let b = net.index_of("B").unwrap();
    assert_eq!(net.nodes[b].get_attr_repr("cum_v"), "2");
}

#[test]
fn cumulate_unit_weights_give_order() {
    let mut net = build("A -> C\nB -> C\nC -> D\nE -> D\nG -> E");
    for i in 0..net.nodes.len() {
        net.nodes[i].set_attr("one", NodeAttr::number(1));
    }
    net.cumulate("one", false).unwrap();
    for node in &net.nodes {
        match node.get_attr("cum_one") {
            Some(NodeAttr::Value(d)) => {
                assert_eq!(d.units as usize, node.order.unwrap());
                assert_eq!(d.scale, 0);
            }
            _ => panic!("missing cum_one"),
        }
    }
}

#[test]
fn cumulate_decimals() {
    let mut net = build("A -> B\nB -> C");
    let a = net.index_of("A").unwrap();
    let b = net.index_of("B").unwrap();
    let c = net.index_of("C").unwrap();
    net.nodes[a].set_attr("q", NodeAttr::value(Decimal { units: 15, scale: 1 }));
    net.nodes[b].set_attr("q", NodeAttr::number(2));
    net.nodes[c].set_attr("q", NodeAttr::value(Decimal { units: 25, scale: 2 }));
    net.cumulate("q", false).unwrap();
    assert_eq!(net.nodes[a].get_attr_repr("cum_q"), "1.50");
    assert_eq!(net.nodes[b].get_attr_repr("cum_q"), "3.50");
    assert_eq!(net.nodes[c].get_attr_repr("cum_q"), "3.75");
    net.cumulate("q", false).unwrap();
    assert_eq!(net.nodes[c].get_attr_repr("cum_q"), "3.75");
}

#[test]
fn cumulate_strict_missing() {
    let mut net = build("A -> B");
    let a = net.index_of("A").unwrap();
    net.nodes[a].set_attr("v", NodeAttr::number(2));
    let b = net.index_of("B").unwrap();
    assert_eq!(net.cumulate("v", false), Err(CumulateError::Missing { node: b }));
    assert!(net.nodes[a].get_attr("cum_v").is_none());
}

#[test]
fn cumulate_strict_not_numeric() {
    let mut net = build("A");
    net.nodes[0].set_attr("v", NodeAttr::string("wet".to_string()));
    assert_eq!(net.cumulate("v", false), Err(CumulateError::NotNumeric { node: 0 }));
    net.cumulate("v", true).unwrap();
    assert_eq!(net.nodes[0].get_attr_repr("cum_v"), "0");
}

#[test]
fn cumulate_overflow() {
    let mut net = build("A -> B");
    for i in 0..2 {
        net.nodes[i].set_attr("v", NodeAttr::value(Decimal { units: i64::MAX, scale: 0 }));
    }
    assert_eq!(net.cumulate("v", false), Err(CumulateError::Overflow));
}

#[test]
fn cumulate_safe_mode_without_values() {
    let mut net = build("A -> C\nB -> C\nC -> D");
    net.cumulate("nothing", true).unwrap();
    for node in &net.nodes {
        assert_eq!(node.get_attr_repr("cum_nothing"), "0");
    }
}

#[test]
fn dfs_order_of_walks() {
    let net = build("A -> C\nB -> C\nC -> D\nE -> D");
    let fwd: Vec<String> = net.walk(false).iter().map(|i| net.nodes[*i].name.clone()).collect();
    let rev: Vec<String> = net.walk(true).iter().map(|i| net.nodes[*i].name.clone()).collect();
    assert_eq!(fwd, vec!["D", "C", "B", "A", "E"]);
    assert_eq!(rev, vec!["D", "E", "C", "A", "B"]);
}
