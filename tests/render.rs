use nadi::args::GraphVizDirection;
use nadi::attr::NodeAttr;
use nadi::dot::{GraphVizSettings, RenderError};
use nadi::network::Network;
use nadi::template::Template;

fn build(text: &str) -> Network {
    let lines: Vec<String> = text.split('\n').map(|l| l.to_string()).collect();
    let mut net = Network::from_lines(&lines).unwrap();
    net.order().unwrap();
    net.reindex();
    net
}

fn settings(direction: GraphVizDirection, sort_by: Option<String>) -> GraphVizSettings {
    GraphVizSettings {
        direction,
        sort_by,
        node_shape: "circle".to_string(),
        node_offset: 2,
        label_shape: "plain".to_string(),
        label_offset: 1,
        node_size: 30,
        node: Template::parse_template("${index}").unwrap(),
        label: Template::parse_template("${name}").unwrap(),
        url: Template::parse_template("").unwrap(),
    }
}

#[test]
fn dot_chain() {
    let net = build("A -> B");
    let out = net.graph_print_dot(&settings(GraphVizDirection::TopToBottom, None)).unwrap();
    assert_eq!(
        out,
        vec![
            "digraph network {",
            " overlap=true;",
            " node [shape=circle,fixedsize=false];",
            "0 [pos=\"0,0!\", size=30, fixedsize=true,label=\"0\"]",
            "l0 [shape=plain,pos=\"1,0!\", label=\"B\",fontsize=42]",
            "0 -> l0 [color=none]",
            "1 [pos=\"0,2!\", size=30, fixedsize=true,label=\"1\"]",
            "l1 [shape=plain,pos=\"1,2!\", label=\"A\",fontsize=42]",
            "1 -> l1 [color=none]",
            "1 -> 0",
            "}",
        ]
    );
}

#[test]
fn dot_left_to_right_with_url() {
    let net = build("A -> C\nB -> C");
    let mut st = settings(GraphVizDirection::LeftToRight, None);
    st.url = Template::parse_template("http://x/${name}").unwrap();
    let out = net.graph_print_dot(&st).unwrap();
    assert_eq!(out.len(), 3 + 3 + 4 + 4 + 1);
    assert_eq!(out[3], "0 [pos=\"4,0!\", size=30, fixedsize=true,label=\"0\",URL=\"http://x/C\"]");
    assert_eq!(out[4], "l0 [shape=plain,pos=\"4,3!\", label=\"C\",fontsize=42,URL=\"http://x/C\"]");
}

#[test]
fn dot_sorted_rows() {
    let mut net = build("A -> C\nB -> C");
    let c = net.index_of("C").unwrap();
    let a = net.index_of("A").unwrap();
    let b = net.index_of("B").unwrap();
    net.nodes[c].set_attr("h", NodeAttr::number(5));
    net.nodes[a].set_attr("h", NodeAttr::number(1));
    net.nodes[b].set_attr("h", NodeAttr::number(3));
    let out = net.graph_print_dot(&settings(GraphVizDirection::TopToBottom, Some("h".to_string()))).unwrap();
    assert_eq!(out[3], "0 [pos=\"0,4!\", size=30, fixedsize=true,label=\"0\"]");
}

#[test]
fn dot_sort_key_missing() {
    let net = build("A -> B");
    let r = net.graph_print_dot(&settings(GraphVizDirection::TopToBottom, Some("h".to_string())));
    assert_eq!(r.err(), Some(RenderError::SortKeyMissing { node: 0 }));
}

#[test]
fn dot_empty_network() {
    let net = Network::from_lines(&vec![]).unwrap();
    assert!(net.graph_print_dot(&settings(GraphVizDirection::TopToBottom, None)).unwrap().is_empty());
}

#[test]
fn latex_table_rows() {
    let net = build("A -> B");
    let cols = vec![("Name".to_string(), Template::parse_template("${name}").unwrap())];
    let url = Template::parse_template("").unwrap();
    let out = net.generate_latex_table(&cols, &url);
    assert_eq!(out[0], "\\documentclass{standalone}");
    assert_eq!(out[16], "  \\begin{tabular}{ll}");
    assert_eq!(out[18], "Connection & Name\\\\");
    assert_eq!(out[19], "\\midrule");
    assert_eq!(out[20], "\\TikzNode[0]{1}{1}{} & A\\\\");
    assert_eq!(out[21], "\\TikzNode[0]{0}{0}{} & B\\\\");
    assert_eq!(out[24], "\\tikz[overlay,remember picture]{");
    assert_eq!(out[25], "\\path[->] (1) edge (0);");
    assert_eq!(out[26], "}");
    assert_eq!(out[27], "\\end{document}");
    assert_eq!(out.len(), 28);
}

#[test]
fn dot_sort_key_not_numeric() {
    let mut net = build("A -> B");
    net.nodes[0].set_attr("h", NodeAttr::number(1));
    net.nodes[1].set_attr("h", NodeAttr::string("high".to_string()));
    let r = net.graph_print_dot(&settings(GraphVizDirection::TopToBottom, Some("h".to_string())));
    assert_eq!(r.err(), Some(RenderError::SortKeyNotNumeric { node: 1 }));
}

#[test]
fn simple_print_in_index_order() {
    let net = build("A -> C\nB -> C");
    let t = Template::parse_template("${index}:${name}:${level}:${order}").unwrap();
    assert_eq!(net.simple_print(&t), vec!["0:C:0:3", "1:A:1:1", "2:B:0:1"]);
}

#[test]
fn root_is_outlet_below_first_node() {
    let net = build("A -> B\nB -> C\nX -> Y");
    assert_eq!(net.nodes[0].name, "C");
    assert_eq!(net.nodes[0].output, None);
    assert_eq!(net.nodes[3].name, "Y");
    assert_eq!(net.nodes[3].level, Some(0));
}
