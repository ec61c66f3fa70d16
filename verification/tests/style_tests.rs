use aurora::dom::Node;
use aurora::sheet::Stylesheet;
use aurora::strmap::StrMap;
use aurora::style::StyleTree;

fn element(tag: &str, children: Vec<Node>) -> Node {
    Node::element(tag, children)
}

#[test]
fn computes_descendant_matched_styles() {
    let mut section_attributes = StrMap::new();
    section_attributes.insert("class".to_string(), "hero".to_string());
    let dom = Node::document(vec![Node::element(
        "body",
        vec![Node::element_with_attributes(
            "section",
            section_attributes,
            vec![Node::element("p", vec![Node::text("Hello")])],
        )],
    )]);

    let stylesheet = Stylesheet::parse("section.hero p { color: gold; display: inline; }");
    let style_tree = StyleTree::from_dom(&dom, &stylesheet);
    let rendered = style_tree.to_string();

    assert!(rendered.contains("<p> {color: gold, display: inline}"));
    assert!(rendered.contains("\"Hello\" {color: gold, display: inline}"));
}

#[test]
fn inherits_color_to_descendants() {
    let dom = Node::document(vec![Node::element(
        "body",
        vec![Node::element("p", vec![Node::text("Inherited")])],
    )]);

    let stylesheet = Stylesheet::parse("body { color: slate; }");
    let style_tree = StyleTree::from_dom(&dom, &stylesheet);
    let rendered = style_tree.to_string();

    assert!(rendered.contains("<p> {color: slate}"));
    assert!(rendered.contains("\"Inherited\" {color: slate, display: inline}"));
}

#[test]
fn inherits_typography_properties() {
    let dom = Node::document(vec![element(
        "body",
        vec![element("p", vec![Node::text("Text")])],
    )]);

    let stylesheet =
        Stylesheet::parse("body { font-size: 16px; font-weight: bold; line-height: 20px; }");
    let style_tree = StyleTree::from_dom(&dom, &stylesheet);
    let rendered = style_tree.to_string();

    assert!(rendered.contains("font-size: 16px"));
    assert!(rendered.contains("font-weight: bold"));
    assert!(rendered.contains("line-height: 20px"));
}

#[test]
fn inherits_visibility() {
    let dom = Node::document(vec![Node::element(
        "body",
        vec![Node::element("p", vec![Node::text("Text")])],
    )]);

    let stylesheet = Stylesheet::parse("body { visibility: hidden; }");
    let style_tree = StyleTree::from_dom(&dom, &stylesheet);
    let rendered = style_tree.to_string();

    assert!(rendered.contains("visibility: hidden"));
}

#[test]
fn renders_whole_style_tree() {
    let dom = Node::document(vec![Node::element(
        "body",
        vec![Node::element("p", vec![Node::text("Hi")])],
    )]);
    let stylesheet = Stylesheet::parse("p { color: red; }");
    let style_tree = StyleTree::from_dom(&dom, &stylesheet);
    assert_eq!(
        style_tree.to_string(),
        "#styled-document\n  <body> {}\n    <p> {color: red}\n      \"Hi\" {color: red, display: inline}\n"
    );
}

#[test]
fn resolves_custom_properties_in_element_styles() {
    let dom = Node::document(vec![Node::element(
        "body",
        vec![Node::element("p", vec![Node::text("x")])],
    )]);
    let stylesheet = Stylesheet::parse(
        ":root { --accent: teal; } p { color: var(--accent); background: var(--missing, sand); }",
    );
    let style_tree = StyleTree::from_dom(&dom, &stylesheet);
    let rendered = style_tree.to_string();
    assert!(rendered.contains("<p> {background: sand, color: teal}"));
}

#[test]
fn styled_node_accessors() {
    let mut attrs = StrMap::new();
    attrs.insert("id".to_string(), "main".to_string());
    let dom = Node::document(vec![Node::element_with_attributes(
        "div",
        attrs,
        vec![Node::text("t")],
    )]);
    let stylesheet = Stylesheet::parse("#main { color: plum; }");
    let style_tree = StyleTree::from_dom(&dom, &stylesheet);
    let root = style_tree.root();
    assert_eq!(root.tag_name(), None);
    let div = &root.children()[0];
    assert_eq!(div.tag_name(), Some("div".to_string()));
    assert_eq!(div.attribute("id"), Some("main".to_string()));
    assert_eq!(div.attribute("class"), None);
    assert_eq!(div.styles().get("color"), Some("plum"));
    let text = &div.children()[0];
    assert_eq!(text.text(), Some("t".to_string()));
    assert_eq!(text.styles().get("display"), Some("inline"));
}
