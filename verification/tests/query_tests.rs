use aurora::dom::Node;
use aurora::html::Parser;
use aurora::query::{
    append_child, clone_node, collect_by_attr, collect_by_class, collect_by_tag, collect_text,
    constructor_for_node, extract_scripts, find_by_tag, first_child, first_element_child,
    insert_before, kebab_to_camel, last_child, last_element_child, parse_selector_groups,
    parse_simple, query_all, query_first, remove_child, replace_child, selector_matches,
    serialize_inner_html, serialize_outer_html, set_text_content, simple_matches,
};

fn doc(src: &str) -> Node {
    Parser::new(src).parse_document()
}

fn at<'a>(root: &'a Node, path: &[usize]) -> &'a Node {
    let mut n = root;
    for &i in path {
        n = n.get_child_mut(i).unwrap();
    }
    n
}

#[test]
fn parses_compound_selectors() {
    let s = parse_simple("DIV#main.note.wide[data-x=\"1\"][hidden]:hover").unwrap();
    assert_eq!(s.tag.as_deref(), Some("div"));
    assert_eq!(s.id.as_deref(), Some("main"));
    assert_eq!(s.classes, vec!["note".to_string(), "wide".to_string()]);
    assert_eq!(
        s.attrs,
        vec![("data-x".to_string(), Some("1".to_string())), ("hidden".to_string(), None)]
    );
    assert!(!s.universal);
    let star = parse_simple("*").unwrap();
    assert!(star.universal);
    assert_eq!(star.tag, None);
    let empty = parse_simple("").unwrap();
    assert_eq!(empty.tag, None);
    assert!(empty.classes.is_empty());
}

#[test]
fn splits_selector_groups() {
    let groups = parse_selector_groups("ul li, .a ,, p");
    assert_eq!(groups.len(), 3);
    assert_eq!(groups[0].len(), 2);
    assert_eq!(groups[0][0].tag.as_deref(), Some("ul"));
    assert_eq!(groups[0][1].tag.as_deref(), Some("li"));
    assert_eq!(groups[1][0].classes, vec!["a".to_string()]);
    assert_eq!(groups[2][0].tag.as_deref(), Some("p"));
}

#[test]
fn matches_elements_against_selectors() {
    let d = doc("<div id=\"main\" class=\"note wide\" data-x=\"1\">hi</div>");
    let div = at(&d, &[0]);
    assert!(simple_matches(div, &parse_simple("div").unwrap()));
    assert!(simple_matches(div, &parse_simple("#main.wide").unwrap()));
    assert!(simple_matches(div, &parse_simple("[data-x=1]").unwrap()));
    assert!(!simple_matches(div, &parse_simple("[data-x=2]").unwrap()));
    assert!(!simple_matches(div, &parse_simple(".missing").unwrap()));
    assert!(!simple_matches(at(&d, &[0, 0]), &parse_simple("*").unwrap()));
    assert!(selector_matches(div, "span, div.note"));
    assert!(!selector_matches(div, "span, p"));
}

#[test]
fn queries_return_paths_in_document_order() {
    let d = doc("<ul><li class=\"a\">1</li><li>2</li></ul><p class=\"a\">x</p>");
    assert_eq!(query_all(&d, "li"), vec![vec![0, 0], vec![0, 1]]);
    assert_eq!(query_all(&d, ".a"), vec![vec![0, 0], vec![1]]);
    assert_eq!(query_all(&d, "ul li"), vec![vec![0, 0], vec![0, 1]]);
    assert_eq!(query_first(&d, "p"), Some(vec![1]));
    assert_eq!(query_first(&d, "table"), None);
    assert_eq!(query_all(&d, "").len(), 0);
}

#[test]
fn collects_elements_by_tag_class_and_attribute() {
    let d = doc("<div class=\"x y\"><span data-k=\"v\">a</span><SPAN class=\"y\">b</SPAN></div>");
    assert_eq!(collect_by_tag(&d, "span"), vec![vec![0, 0], vec![0, 1]]);
    assert_eq!(collect_by_tag(&d, "*").len(), 3);
    assert_eq!(collect_by_class(&d, "y"), vec![vec![0], vec![0, 1]]);
    assert_eq!(collect_by_attr(&d, "data-k", "v"), vec![vec![0, 0]]);
    assert_eq!(collect_by_attr(&d, "data-k", "w"), Vec::<Vec<usize>>::new());
    assert_eq!(find_by_tag(&d, "SPAN"), Some(vec![0, 0]));
    assert_eq!(find_by_tag(&d, "em"), None);
}

#[test]
fn serialises_and_collects_text() {
    let d = doc("<div id=\"a\" class=\"b\"><p>One</p>Two</div>");
    let div = at(&d, &[0]);
    assert_eq!(
        serialize_outer_html(div),
        "<div class=\"b\" id=\"a\"><p>One</p>Two</div>"
    );
    assert_eq!(serialize_inner_html(div), "<p>One</p>Two");
    assert_eq!(serialize_inner_html(at(&d, &[0, 1])), "");
    assert_eq!(collect_text(&d), "OneTwo");
}

#[test]
fn clones_shallow_and_deep() {
    let d = doc("<div id=\"a\"><p>One</p></div>");
    let div = at(&d, &[0]);
    let deep = clone_node(div, true);
    assert_eq!(&deep, div);
    let shallow = clone_node(div, false);
    assert_eq!(serialize_outer_html(&shallow), "<div id=\"a\"></div>");
}

#[test]
fn edits_children() {
    let mut d = doc("<div><p>One</p></div>");
    let mut div = clone_node(at(&d, &[0]), true);
    append_child(&mut div, Node::text("tail"));
    insert_before(&mut div, Node::element("h1", vec![]), Some(0));
    insert_before(&mut div, Node::text("end"), Some(99));
    assert_eq!(serialize_inner_html(&div), "<h1></h1><p>One</p>tailend");
    remove_child(&mut div, 1);
    remove_child(&mut div, 10);
    assert_eq!(serialize_inner_html(&div), "<h1></h1>tailend");
    replace_child(&mut div, Node::element("em", vec![]), 2);
    assert_eq!(serialize_inner_html(&div), "<h1></h1>tail<em></em>");
    assert_eq!(first_child(&div), Some(&Node::element("h1", vec![])));
    assert_eq!(last_child(&div), Some(&Node::element("em", vec![])));
    assert_eq!(first_child(&Node::text("t")), None);
    set_text_content(&mut div, "only");
    assert_eq!(serialize_inner_html(&div), "only");
    d = Node::document(vec![div]);
    assert_eq!(collect_text(&d), "only");
}

#[test]
fn finds_first_and_last_element_children() {
    let d = doc("<div>a<b>x</b>c<i>y</i>d</div>");
    let div = at(&d, &[0]);
    assert_eq!(serialize_outer_html(first_element_child(div).unwrap()), "<b>x</b>");
    assert_eq!(serialize_outer_html(last_element_child(div).unwrap()), "<i>y</i>");
    let plain = doc("<p>text</p>");
    assert_eq!(first_element_child(at(&plain, &[0])), None);
    assert_eq!(last_element_child(at(&plain, &[0])), None);
}

#[test]
fn converts_property_names_to_camel_case() {
    assert_eq!(kebab_to_camel("background-color"), "backgroundColor");
    assert_eq!(kebab_to_camel("border-top-left-radius"), "borderTopLeftRadius");
    assert_eq!(kebab_to_camel("color"), "color");
    assert_eq!(kebab_to_camel("-webkit-x"), "WebkitX");
}

#[test]
fn names_script_constructors() {
    let d = doc("<div>t</div><a>l</a><custom></custom>");
    assert_eq!(constructor_for_node(&d), "Document");
    assert_eq!(constructor_for_node(at(&d, &[0])), "HTMLDivElement");
    assert_eq!(constructor_for_node(at(&d, &[0, 0])), "Text");
    assert_eq!(constructor_for_node(at(&d, &[1])), "HTMLAnchorElement");
    assert_eq!(constructor_for_node(at(&d, &[2])), "HTMLElement");
}

#[test]
fn extracts_scripts_in_order() {
    let d = doc("<head><script src=\"a.js\"></script></head><body><script>let x = 1;</script><script></script></body>");
    assert_eq!(
        extract_scripts(&d),
        vec![("a.js".to_string(), true), ("let x = 1;".to_string(), false)]
    );
}
