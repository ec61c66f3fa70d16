use aurora::atlas::GlyphAtlas;
use aurora::classlist::{
    class_list_add, class_list_contains, class_list_item, class_list_remove, class_list_replace,
    class_list_text, class_list_toggle,
};
use aurora::dom::Node;
use aurora::font::get_glyph;
use aurora::html::Parser;
use aurora::inline_style::{inline_style_map, style_item, style_property_value};
use aurora::tree_nav::{closest, node_at_path, parent_path, path_contains, sibling};
use aurora::query::{attribute_names, node_names, upper_case};

fn first_element(src: &str) -> Node {
    let doc = Parser::new(src).parse_document();
    match doc {
        Node::Document { mut children } => children.remove(0),
        _ => unreachable!(),
    }
}

#[test]
fn class_lists_are_sorted_word_sets() {
    let mut el = first_element("<div class=\"b a  b\"></div>");
    assert!(class_list_contains(&el, "a"));
    assert!(!class_list_contains(&el, "c"));
    assert_eq!(class_list_item(&el, 0), Some("b".to_string()));
    assert_eq!(class_list_item(&el, 3), None);
    class_list_add(&mut el, "c");
    assert_eq!(class_list_text(&el), "a b c");
    class_list_add(&mut el, "a");
    assert_eq!(class_list_text(&el), "a b c");
    class_list_remove(&mut el, "b");
    assert_eq!(class_list_text(&el), "a c");
    assert!(!class_list_toggle(&mut el, "a"));
    assert_eq!(class_list_text(&el), "c");
    assert!(class_list_toggle(&mut el, "Z"));
    assert_eq!(class_list_text(&el), "Z c");
    assert!(class_list_replace(&mut el, "c", "d"));
    assert_eq!(class_list_text(&el), "Z d");
    assert!(class_list_replace(&mut el, "missing", "x"));
    assert_eq!(class_list_text(&el), "Z d");
}

#[test]
fn empty_class_lists_drop_the_attribute() {
    let mut el = first_element("<p class=\"only\">t</p>");
    class_list_remove(&mut el, "only");
    assert_eq!(class_list_text(&el), "");
    match &el {
        Node::Element(e) => assert!(!e.attributes.contains_key("class")),
        _ => unreachable!(),
    }
    class_list_toggle(&mut el, "on");
    class_list_toggle(&mut el, "on");
    match &el {
        Node::Element(e) => assert!(!e.attributes.contains_key("class")),
        _ => unreachable!(),
    }
    let mut text = Node::text("x");
    class_list_add(&mut text, "a");
    assert_eq!(text, Node::text("x"));
    assert!(!class_list_contains(&text, "a"));
}

#[test]
fn class_names_with_spaces_are_split_when_read_back() {
    let mut el = first_element("<p>t</p>");
    class_list_add(&mut el, "x y");
    assert_eq!(class_list_text(&el), "x y");
    assert!(!class_list_contains(&el, "x y"));
    assert!(class_list_contains(&el, "y"));
}

#[test]
fn reads_inline_styles() {
    let el = first_element("<div style=\"color: red; margin:0 ; bad; color : blue;x:a:b\"></div>");
    let m = inline_style_map(&el);
    assert_eq!(m.len(), 3);
    assert_eq!(style_property_value(&m, "color"), "blue");
    assert_eq!(style_property_value(&m, "margin"), "0");
    assert_eq!(style_property_value(&m, "x"), "a:b");
    assert_eq!(style_property_value(&m, "padding"), "");
    assert_eq!(style_item(&m, 0), "color");
    assert_eq!(style_item(&m, 2), "x");
    assert_eq!(style_item(&m, 3), "");
    let plain = first_element("<div></div>");
    assert!(inline_style_map(&plain).is_empty());
}

#[test]
fn walks_the_tree_by_paths() {
    let doc = Parser::new("<ul>a<li>1</li>b<li>2</li></ul>").parse_document();
    let li2 = node_at_path(&doc, &[0, 3]).unwrap();
    assert_eq!(li2, &Node::element("li", vec![Node::text("2")]));
    assert!(node_at_path(&doc, &[0, 9]).is_none());
    assert_eq!(parent_path(&doc, &[0, 3]), Some(vec![0]));
    assert_eq!(parent_path(&doc, &[]), None);
    assert_eq!(parent_path(&doc, &[5]), None);
    assert_eq!(sibling(&doc, &[0, 1], true, false), Some(vec![0, 2]));
    assert_eq!(sibling(&doc, &[0, 1], true, true), Some(vec![0, 3]));
    assert_eq!(sibling(&doc, &[0, 3], false, true), Some(vec![0, 1]));
    assert_eq!(sibling(&doc, &[0, 1], false, true), None);
    assert_eq!(sibling(&doc, &[0, 0], false, false), None);
    assert_eq!(sibling(&doc, &[0, 3], true, false), None);
    assert!(path_contains(&[0], &[0, 3]));
    assert!(path_contains(&[0, 3], &[0, 3]));
    assert!(!path_contains(&[0, 3], &[0]));
    assert!(!path_contains(&[1], &[0, 3]));
}

#[test]
fn copies_glyph_bitmaps_into_the_texture() {
    let mut atlas = GlyphAtlas::new(4, 3);
    assert_eq!(atlas.texture.len(), 48);
    assert!(atlas.texture.iter().all(|&b| b == 0));
    atlas.blit_glyph(&[10, 20, 30, 40], 2, 2, 1, 1);
    let px = |x: usize, y: usize| {
        let i = (y * 4 + x) * 4;
        (atlas.texture[i], atlas.texture[i + 1], atlas.texture[i + 2], atlas.texture[i + 3])
    };
    assert_eq!(px(1, 1), (255, 255, 255, 10));
    assert_eq!(px(2, 1), (255, 255, 255, 20));
    assert_eq!(px(1, 2), (255, 255, 255, 30));
    assert_eq!(px(2, 2), (255, 255, 255, 40));
    assert_eq!(px(0, 0), (0, 0, 0, 0));
    assert_eq!(px(3, 1), (0, 0, 0, 0));
    // Pixels past the texture's end, or past the bitmap's end, are skipped.
    let mut small = GlyphAtlas::new(2, 2);
    small.blit_glyph(&[1, 2, 3], 2, 3, 0, 1);
    assert_eq!(&small.texture[8..16], &[255, 255, 255, 1, 255, 255, 255, 2]);
    assert!(small.texture[..8].iter().all(|&b| b == 0));
    let mut clip = GlyphAtlas::new(2, 1);
    clip.blit_glyph(&[7], 2, 1, 0, 0);
    assert_eq!(clip.texture, vec![255, 255, 255, 7, 0, 0, 0, 0]);
}

#[test]
fn fallback_glyphs_are_blank() {
    assert_eq!(get_glyph('A'), [0u8; 8]);
}

#[test]
fn finds_the_closest_matching_ancestor() {
    let doc = Parser::new("<div class=\"box\" id=\"o\"><section><p>hi <em>x</em></p></section></div>")
        .parse_document();
    assert_eq!(closest(&doc, &[0, 0, 0, 1], "em"), Some(vec![0, 0, 0, 1]));
    assert_eq!(closest(&doc, &[0, 0, 0, 1], "p"), Some(vec![0, 0, 0]));
    assert_eq!(closest(&doc, &[0, 0, 0, 1], ".box"), Some(vec![0]));
    assert_eq!(closest(&doc, &[0, 0, 0, 1], "span, section"), Some(vec![0, 0]));
    assert_eq!(closest(&doc, &[0, 0, 0, 1], "table"), None);
    assert_eq!(closest(&doc, &[0, 7], "div"), None);
}

#[test]
fn reports_node_names_and_attribute_names() {
    let doc = Parser::new("<Div data-x=\"1\" id=\"a\" class=\"c\">t</Div>").parse_document();
    let div = node_at_path(&doc, &[0]).unwrap();
    let names = node_names(div);
    assert_eq!(names.node_type, 1);
    assert_eq!(names.tag_name, names.node_name);
    assert_eq!(names.tag_name, upper_case(&names.local_name));
    assert_eq!(
        attribute_names(div),
        vec!["class".to_string(), "data-x".to_string(), "id".to_string()]
    );
    let text = node_names(node_at_path(&doc, &[0, 0]).unwrap());
    assert_eq!((text.tag_name.as_str(), text.node_name.as_str(), text.node_type), ("", "#text", 3));
    let d = node_names(&doc);
    assert_eq!((d.local_name.as_str(), d.node_name.as_str(), d.node_type), ("", "#document", 9));
    assert_eq!(attribute_names(&doc), Vec::<String>::new());
    assert_eq!(upper_case("straße-li"), "STRASSE-LI");
    assert_eq!(node_names(&Node::element("li", vec![])).tag_name, "LI");
}
