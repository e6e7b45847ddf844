use stage0::template::{collector, compile, gen_path, h, markup, Node, NodeKind, Ref, RefMap, TemplateError};

fn element(name: &str, attributes: &[&str]) -> Node {
    Node {
        kind: NodeKind::Element,
        name: name.to_owned(),
        attributes: attributes.iter().map(|a| (*a).to_owned()).collect(),
        value: None,
    }
}

fn text(value: &str) -> Node {
    Node { kind: NodeKind::Text, name: "#text".to_owned(), attributes: Vec::new(), value: Some(value.to_owned()) }
}

fn comment(value: &str) -> Node {
    Node { kind: NodeKind::Other, name: "#comment".to_owned(), attributes: Vec::new(), value: Some(value.to_owned()) }
}

#[test]
fn collector_tests() {
    {
        let mut node = element("SPAN", &[]);
        assert_eq!(collector(&mut node), None);
        assert_eq!(node, element("SPAN", &[]));
    }
    {
        let mut node = element("SPAN", &["#test-attr"]);
        assert_eq!(collector(&mut node), Some("test-attr".to_owned()));
        assert_eq!(node, element("SPAN", &[]));
    }
    {
        let mut node = text("#test-text");
        assert_eq!(collector(&mut node), Some("test-text".to_owned()));
        assert_eq!(node, text(""));
    }
}

#[test]
fn collector_takes_the_first_marker_only() {
    let mut node = element("INPUT", &["class", "#first", "type", "#second"]);
    assert_eq!(collector(&mut node), Some("first".to_owned()));
    assert_eq!(node, element("INPUT", &["class", "type", "#second"]));
}

#[test]
fn collector_finds_nothing_the_second_time() {
    let mut node = element("A", &["href", "#all"]);
    assert_eq!(collector(&mut node), Some("all".to_owned()));
    assert_eq!(collector(&mut node), None);
    let mut node = text("#count");
    assert_eq!(collector(&mut node), Some("count".to_owned()));
    assert_eq!(collector(&mut node), None);
}

#[test]
fn collector_strips_one_sigil() {
    let mut node = text("##x");
    assert_eq!(collector(&mut node), Some("#x".to_owned()));
    let mut node = text("##a#b");
    assert_eq!(collector(&mut node), Some("#a#b".to_owned()));
    let mut node = element("P", &["###x"]);
    assert_eq!(collector(&mut node), Some("##x".to_owned()));
    let mut node = text("#");
    assert_eq!(collector(&mut node), Some(String::new()));
    assert_eq!(node.value, Some(String::new()));
}

#[test]
fn collector_leaves_unmarked_nodes_alone() {
    let mut node = text("a #b");
    assert_eq!(collector(&mut node), None);
    assert_eq!(node, text("a #b"));
    let mut node = Node { kind: NodeKind::Text, name: "#text".to_owned(), attributes: Vec::new(), value: None };
    assert_eq!(collector(&mut node), None);
    let mut node = comment("#note");
    assert_eq!(collector(&mut node), None);
    assert_eq!(node, comment("#note"));
    let mut node = element("A", &["href"]);
    node.value = Some("#x".to_owned());
    assert_eq!(collector(&mut node), None);
}

#[test]
fn h_tests() {
    {
        let result = h(vec![element("DIV", &[])]);
        assert!(result.is_ok());
        let template = result.ok().unwrap();
        let refs = template.collect();
        assert!(refs.is_empty());
    }
    {
        let result = h(vec![element("DIV", &["#test"])]);
        assert!(result.is_ok());
        let template = result.ok().unwrap();
        let refs = template.collect();
        assert!(refs.len() == 1);
        assert!(refs.contains_key("test"));
    }
    {
        let result = h(vec![element("DIV", &["#foo"]), text("#bar")]);
        assert!(result.is_ok());
        let template = result.ok().unwrap();
        let refs = template.collect();
        assert!(refs.len() == 2);
        assert!(refs.contains_key("foo"));
        assert!(refs.contains_key("bar"));

        let foo = &template.nodes()[refs.get("foo").unwrap()];
        assert_eq!(foo.kind, NodeKind::Element);
        assert_eq!(foo.name, "DIV");

        let bar = &template.nodes()[refs.get("bar").unwrap()];
        assert_eq!(bar.kind, NodeKind::Text);
        assert_eq!(bar.name, "#text");
        assert_eq!(bar.value, Some("".to_owned()));
    }
}

#[test]
fn h_of_an_empty_fragment_has_no_content() {
    assert_eq!(h(Vec::new()).err(), Some(TemplateError::NoContent));
}

#[test]
fn compile_of_nothing_is_an_empty_template() {
    let template = compile(Vec::new());
    assert!(template.nodes().is_empty());
    assert!(template.ref_paths().is_empty());
    assert!(template.collect().is_empty());
}

#[test]
fn round_trip_of_a_span_and_a_text() {
    // <div><span #a></span>#b</div>
    let template = compile(vec![element("DIV", &[]), element("SPAN", &["#a"]), text("#b")]);
    assert_eq!(
        template.ref_paths(),
        &vec![Ref { step: 2, name: "a".to_owned() }, Ref { step: 2, name: "b".to_owned() }]
    );
    let clone: Vec<Node> = template.nodes().clone();
    let refs = template.collect();
    assert_eq!(refs.len(), 2);
    assert!(refs.contains_key("a"));
    assert!(refs.contains_key("b"));
    assert!(!refs.contains_key("div"));
    assert_eq!(refs.get("a"), Some(1));
    assert_eq!(refs.get("b"), Some(2));
    assert_eq!(clone[1], element("SPAN", &[]));
    assert_eq!(clone[2], text(""));
    assert_eq!(clone[0], element("DIV", &[]));
}

#[test]
fn steps_count_from_the_reference_before() {
    let mut nodes = vec![
        element("DIV", &[]),
        text("\n    "),
        element("H1", &[]),
        text("#count"),
        text("\n    "),
        element("BUTTON", &["#down"]),
        text("-"),
        element("BUTTON", &["#up"]),
        text("+"),
    ];
    let paths = gen_path(&mut nodes);
    assert_eq!(
        paths,
        vec![
            Ref { step: 4, name: "count".to_owned() },
            Ref { step: 3, name: "down".to_owned() },
            Ref { step: 3, name: "up".to_owned() },
        ]
    );
    assert_eq!(nodes[3], text(""));
    assert_eq!(nodes[5], element("BUTTON", &[]));
    assert_eq!(nodes[7], element("BUTTON", &[]));
    assert_eq!(nodes[6], text("-"));
}

#[test]
fn a_marked_root_has_step_one() {
    let mut nodes = vec![element("LI", &["#item"]), element("LABEL", &["#label"])];
    let paths = gen_path(&mut nodes);
    assert_eq!(paths, vec![Ref { step: 1, name: "item".to_owned() }, Ref { step: 2, name: "label".to_owned() }]);
    let refs = compile(vec![element("LI", &["#item"]), element("LABEL", &["#label"])]).collect();
    assert_eq!(refs.get("item"), Some(0));
    assert_eq!(refs.get("label"), Some(1));
}

#[test]
fn of_two_references_with_one_name_the_later_counts() {
    let template = compile(vec![element("UL", &["#x"]), element("LI", &[]), text("#x"), text("#y")]);
    let refs = template.collect();
    assert_eq!(refs.len(), 2);
    assert_eq!(refs.get("x"), Some(2));
    assert_eq!(refs.get("y"), Some(3));
}

#[test]
fn a_missing_reference_is_absent() {
    let refs = compile(vec![element("DIV", &["#a"])]).collect();
    assert_eq!(refs.get("b"), None);
    assert!(!refs.contains_key("b"));
}

#[test]
fn ref_map_binds_and_rebinds() {
    let mut refs = RefMap::new();
    assert!(refs.is_empty());
    refs.insert("a".to_owned(), 3);
    refs.insert("b".to_owned(), 4);
    refs.insert("a".to_owned(), 5);
    assert_eq!(refs.len(), 2);
    assert_eq!(refs.get("a"), Some(5));
    assert_eq!(refs.get("b"), Some(4));
    assert!(!refs.is_empty());
}

#[test]
fn places_are_the_sums_of_the_steps() {
    let template = compile(vec![
        element("UL", &["#list"]),
        text("\n"),
        element("LI", &[]),
        text("#first"),
        element("LI", &["#x", "#y"]),
        text("#last"),
    ]);
    assert_eq!(
        template.ref_paths(),
        &vec![
            Ref { step: 1, name: "list".to_owned() },
            Ref { step: 4, name: "first".to_owned() },
            Ref { step: 2, name: "x".to_owned() },
            Ref { step: 2, name: "last".to_owned() },
        ]
    );
    assert_eq!(template.places(), vec![0, 3, 4, 5]);
    assert_eq!(template.nodes()[4], element("LI", &["#y"]));
    assert!(template.nodes()[4].is_marked());
    assert_eq!(template.nodes()[4].marker_attribute(), Some(0));
    assert!(!template.nodes()[3].is_marked());
    assert_eq!(template.nodes()[3].marker_attribute(), None);
}

#[test]
fn the_marker_attribute_is_the_first_with_a_sigil() {
    assert_eq!(element("A", &["href", "class", "#all", "#other"]).marker_attribute(), Some(2));
    assert_eq!(element("A", &["href"]).marker_attribute(), None);
    assert_eq!(text("#t").marker_attribute(), None);
    assert!(text("#t").is_marked());
    assert!(!text("t#").is_marked());
    assert!(!comment("#c").is_marked());
}

#[test]
fn markup_loses_the_white_space_around_it() {
    assert_eq!(markup("\n<div>\n    <h1>#count</h1>\n</div>\n"), "<div>\n    <h1>#count</h1>\n</div>");
    assert_eq!(markup("  \t<li> a </li> "), "<li> a </li>");
    assert_eq!(markup("<p></p>"), "<p></p>");
    assert_eq!(markup(" \n\t "), "");
    assert_eq!(markup(""), "");
}
