use svgpath::error::SvgErrorType;
use svgpath::xml_parse::{parse_svg, process_text, NodeKind};

#[test]
fn a_document_tree() {
    let doc = parse_svg(r#"<svg xmlns="http://www.w3.org/2000/svg"><g><rect width="3"/></g>text</svg>"#).unwrap();
    let root = doc.root();
    let svg = root.first_child().unwrap();
    match &svg.node_data.kind {
        NodeKind::Element { tag, .. } => {
            assert_eq!(tag.local.text, b"svg");
            assert_eq!(tag.resolved, Some("http://www.w3.org/2000/svg".as_bytes()));
        }
        other => panic!("unexpected {other:?}"),
    }
    let mut children = svg.children();
    let g = children.next_node().unwrap();
    let text = children.next_node().unwrap();
    assert!(children.next_node().is_none());
    match &text.node_data.kind {
        NodeKind::Text(t) => assert_eq!(t, b"text"),
        other => panic!("unexpected {other:?}"),
    }
    let rect = g.first_child().unwrap();
    assert_eq!(rect.parent().unwrap().id, g.id);
    let mut up = rect.ancestors();
    let mut count = 0;
    while up.next_node().is_some() {
        count += 1;
    }
    assert_eq!(count, 4);
    assert!(!rect.has_children());
    assert_eq!(g.next_sibling().unwrap().id, text.id);
    assert_eq!(text.previous_sibling().unwrap().id, g.id);
}

#[test]
fn unknown_prefix_is_an_error() {
    let err = parse_svg("<a:b/>").unwrap_err();
    assert_eq!(err.0, SvgErrorType::UnknownNamespace);
}

#[test]
fn duplicate_attribute_is_an_error() {
    let err = parse_svg("<a x='1' x='2'/>").unwrap_err();
    assert_eq!(err.0, SvgErrorType::DuplicateAttribute);
}

#[test]
fn mismatched_close_is_an_error() {
    let err = parse_svg("<a></b>").unwrap_err();
    assert_eq!(err.0, SvgErrorType::InvalidCloseElement);
}

#[test]
fn parse_simple() {
    let doc = parse_svg(
        "\n<?xml version=\"1.0\" encoding=\"UTF-8\" standalone=\"no\"?><?xml version=\"1.0\" encoding=\"UTF-8\" standalone=\"no\"?> <v:bob xmlns:v=\"http://www.w3.org/2000/svg\"><jeff/></v:bob>",
    )
    .unwrap();
    let root = doc.root();
    let mut children = root.children();
    let mut kinds = Vec::new();
    while let Some(child) = children.next_node() {
        kinds.push(match &child.node_data.kind {
            NodeKind::Text(_) => "text",
            NodeKind::Element { .. } => "element",
            NodeKind::Root => "root",
        });
    }
    assert_eq!(kinds, vec!["text", "text", "element"]);
}

#[test]
fn text_references_are_replaced() {
    assert_eq!(process_text(b"a &lt; b &amp;&amp; c"), b"a < b && c".to_vec());
    assert_eq!(process_text(b"plain"), b"plain".to_vec());
}

#[test]
fn parse_reports_success() {
    assert!(svgpath::parse("<svg/>").is_ok());
    assert!(svgpath::parse("<svg>").is_ok());
}

#[test]
fn reader_error_kinds() {
    assert_eq!(parse_svg("<1/>").unwrap_err().0, SvgErrorType::InvalidElement);
    assert_eq!(parse_svg("<?1?>").unwrap_err().0, SvgErrorType::InvalidProcessor);
    assert_eq!(parse_svg("<a b>").unwrap_err().0, SvgErrorType::InvalidAttribute);
    assert_eq!(parse_svg("<!x>").unwrap_err().0, SvgErrorType::UnknownToken);
    assert_eq!(parse_svg("<a/>x").unwrap_err().0, SvgErrorType::UnknownToken);
}

#[test]
fn namespaces_resolve_prefixes() {
    let doc = parse_svg("<s:svg xmlns:s='urn:a'><s:g/></s:svg>").unwrap();
    let svg = doc.root().first_child().unwrap();
    match &svg.node_data.kind {
        NodeKind::Element { tag, .. } => {
            assert_eq!(tag.prefix.text, b"s");
            assert_eq!(tag.resolved, Some("urn:a".as_bytes()));
        }
        other => panic!("unexpected {other:?}"),
    }
    assert_eq!(doc.create_err(4).line, 1);
    assert!(doc.get_node(svgpath::xml_parse::NodeId::new(99)).is_none());
}

#[test]
fn plain_text_always_parses() {
    let doc = parse_svg("just text & more").unwrap();
    match &doc.root().first_child().unwrap().node_data.kind {
        NodeKind::Text(t) => assert!(!t.is_empty()),
        other => panic!("unexpected {other:?}"),
    }
    assert!(parse_svg("").is_ok());
}
