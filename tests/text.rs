use nadi::args::{parse_new_layer, split_safe};
use nadi::attr::{Decimal, NodeAttr};
use nadi::attrfile::{coerce_value, parse_attr_line};
use nadi::network::{Network, Node};
use nadi::template::{Template, TemplateError};
use nadi::usgs::GeoInfo;

fn node() -> Node {
    let mut n = Node::new(3, "gauge".to_string(), vec![1, 2], Some(0));
    n.set_attr("area", NodeAttr::value(Decimal { units: -1205, scale: 2 }));
    n.set_attr("count", NodeAttr::number(42));
    n.set_attr("river", NodeAttr::string("Ohio".to_string()));
    n
}

#[test]
fn template_renders_fields_and_attributes() {
    let t = Template::parse_template("${name}: $index <- ${inputs} -> ${output}, $area $count $river!").unwrap();
    assert_eq!(node().format(&t), "gauge: 3 <- [1, 2] -> 0, -12.05 42 Ohio!");
}

#[test]
fn template_missing_attribute_is_empty() {
    let t = Template::parse_template("[${nothing}]").unwrap();
    assert_eq!(node().format(&t), "[]");
}

#[test]
fn template_dollar_without_name_is_text() {
    let t = Template::parse_template("cost $5 and $").unwrap();
    assert_eq!(node().format(&t), "cost $5 and $");
}

#[test]
fn template_unclosed() {
    let r = Template::parse_template("ab ${name");
    assert_eq!(r.err(), Some(TemplateError::Unclosed { at: 3 }));
}

#[test]
fn attr_repr_of_list_and_missing() {
    let n = node();
    assert_eq!(n.get_attr_repr("inputs"), "[1, 2]");
    assert_eq!(n.get_attr_repr("none"), "");
    assert_eq!(n.get_attr_repr("count"), "42");
}

#[test]
fn coerce_count_decimal_text() {
    assert!(matches!(coerce_value("17"), NodeAttr::Number(17)));
    assert!(matches!(coerce_value("+8"), NodeAttr::Number(8)));
    match coerce_value("-2.50") {
        NodeAttr::Value(d) => assert_eq!(d, Decimal { units: -250, scale: 2 }),
        _ => panic!("not a decimal"),
    }
    match coerce_value("-3") {
        NodeAttr::Value(d) => assert_eq!(d, Decimal { units: -3, scale: 0 }),
        _ => panic!("not a decimal"),
    }
    match coerce_value(".5") {
        NodeAttr::Value(d) => assert_eq!(d, Decimal { units: 5, scale: 1 }),
        _ => panic!("not a decimal"),
    }
    match coerce_value("river") {
        NodeAttr::String(s) => assert_eq!(s, "river"),
        _ => panic!("not text"),
    }
    assert!(matches!(coerce_value("1.2.3"), NodeAttr::String(_)));
    assert!(matches!(coerce_value("."), NodeAttr::String(_)));
}

#[test]
fn attr_lines() {
    let (k, v) = parse_attr_line("  area = 12.5 ").unwrap();
    assert_eq!(k, "area");
    assert!(matches!(v, NodeAttr::Value(Decimal { units: 125, scale: 1 })));
    assert!(parse_attr_line("# area = 3").is_none());
    assert!(parse_attr_line("   ").is_none());
    assert!(parse_attr_line("no equals").is_none());
    let (k, v) = parse_attr_line("name=Big River").unwrap();
    assert_eq!(k, "name");
    assert!(matches!(v, NodeAttr::String(s) if s == "Big River"));
}

#[test]
fn layer_argument() {
    assert_eq!(parse_new_layer("rivers.gpkg:streams"), ("rivers.gpkg".to_string(), Some("streams".to_string())));
    assert_eq!(parse_new_layer("rivers.shp"), ("rivers.shp".to_string(), None));
    assert_eq!(parse_new_layer("a:b:c"), ("a".to_string(), Some("b:c".to_string())));
}

#[test]
fn safe_suffix() {
    assert_eq!(split_safe("area?"), ("area".to_string(), true));
    assert_eq!(split_safe("area"), ("area".to_string(), false));
}

#[test]
fn usgs_urls() {
    assert_eq!(GeoInfo::Basin.usgs_abbr(), "basin");
    assert_eq!(
        GeoInfo::Tributories.usgs_url("03290500"),
        "https://labs.waterdata.usgs.gov/api/nldi/linked-data/nwissite/USGS-03290500/navigate/UT?f=json"
    );
    assert_eq!(GeoInfo::Upstream.usgs_abbr(), "navigate/UM");
    assert_eq!(GeoInfo::Downstream.usgs_abbr(), "navigate/DM");
}

#[test]
fn index_lookup() {
    let net = Network::from_lines(&vec!["P -> Q".to_string()]).unwrap();
    assert_eq!(net.index_of("Q"), Some(1));
    assert_eq!(net.index_of("R"), None);
}

#[test]
fn attribute_file_lines() {
    let mut n = Node::new(0, "a".to_string(), vec![], None);
    let lines: Vec<String> = ["# comment", "area = 10", "kind = lake", "", "area = 2.5", "junk"]
        .iter()
        .map(|l| l.to_string())
        .collect();
    n.load_attrs_from_lines(&lines);
    assert_eq!(n.get_attr_repr("area"), "2.5");
    assert_eq!(n.get_attr_repr("kind"), "lake");
    assert!(n.get_attr("junk").is_none());
    assert!(n.get_attr("# comment").is_none());
}

#[test]
fn node_setters() {
    let mut n = Node::new(0, "a".to_string(), vec![], None);
    n.set_index(4);
    n.set_output(2);
    n.set_inputs(vec![1, 3]);
    assert_eq!(n.get_index(), 4);
    assert_eq!(n.get_name(), "a");
    assert_eq!(n.output, Some(2));
    assert_eq!(n.inputs, vec![1, 3]);
    assert_eq!(n.get_attr_repr("output"), "2");
}

#[test]
fn coerce_exponents() {
    assert!(matches!(coerce_value("1e5"), NodeAttr::Value(Decimal { units: 100000, scale: 0 })));
    assert!(matches!(coerce_value("2.5E-3"), NodeAttr::Value(Decimal { units: 25, scale: 4 })));
    assert!(matches!(coerce_value("1.50e1"), NodeAttr::Value(Decimal { units: 150, scale: 1 })));
    assert!(matches!(coerce_value("-4e+2"), NodeAttr::Value(Decimal { units: -400, scale: 0 })));
    assert!(matches!(coerce_value("0e300"), NodeAttr::String(_)));
    assert!(matches!(coerce_value("e5"), NodeAttr::String(_)));
    assert!(matches!(coerce_value("1e"), NodeAttr::String(_)));
    assert!(matches!(coerce_value("inf"), NodeAttr::String(_)));
    assert!(matches!(coerce_value("9e40"), NodeAttr::String(_)));
}

#[test]
fn large_count_has_no_numeric_reading() {
    let big = NodeAttr::number(usize::MAX);
    assert!(big.read_value().is_none());
    assert_eq!(NodeAttr::number(7).read_value(), Some(Decimal { units: 7, scale: 0 }));
}
