use aurora::sheet::{import_urls, imports_at_depth, remove_at_rules, with_imported};
use aurora::sources::{style_sources, StyleSource};
use aurora::edges::{border_width_word, box_sides, margin_sides};
use aurora::css::{
    AlignItems, BoxSizing, DisplayMode, ElementData, FlexDirection, JustifyContent, Selector,
    SimpleSelector, StyleMap, TextAlign,
};
use aurora::length::is_length_px;
use aurora::sheet::Stylesheet;
use aurora::strmap::StrMap;

fn chars(s: &str) -> Vec<char> {
    s.chars().collect()
}

fn el(tag: &str, attrs: &[(&str, &str)]) -> ElementData {
    let mut attributes = StrMap::new();
    for (k, v) in attrs {
        attributes.insert(k.to_string(), v.to_string());
    }
    ElementData { tag_name: tag.to_string(), attributes }
}

fn styles(pairs: &[(&str, &str)]) -> StyleMap {
    let mut m = StyleMap::new();
    for (k, v) in pairs {
        m.set(k, v);
    }
    m
}

#[test]
fn parses_simple_selectors() {
    let s = SimpleSelector::parse("div#main.note.wide").unwrap();
    assert_eq!(s.tag_name, Some("div".to_string()));
    assert_eq!(s.id, Some("main".to_string()));
    assert_eq!(s.class_names, vec!["note".to_string(), "wide".to_string()]);

    let s = SimpleSelector::parse("*.x").unwrap();
    assert_eq!(s.tag_name, None);
    assert_eq!(s.class_names, vec!["x".to_string()]);

    let s = SimpleSelector::parse("a:hover").unwrap();
    assert_eq!(s.tag_name, Some("a".to_string()));
    let s = SimpleSelector::parse("input[type=\"text\"]").unwrap();
    assert_eq!(s.tag_name, Some("input".to_string()));

    assert!(SimpleSelector::parse("*").is_none());
    assert!(SimpleSelector::parse("#a#b").is_none());
    assert!(SimpleSelector::parse("a>b").is_none());
    assert!(SimpleSelector::parse(".").is_none());
    assert!(SimpleSelector::parse(":root").is_none());
}

#[test]
fn parses_descendant_selectors_and_specificity() {
    let sel = Selector::parse("section.hero  p").unwrap();
    assert_eq!(sel.parts.len(), 2);
    assert_eq!(sel.specificity(), (0, 1, 2));
    let sel = Selector::parse("#a .b .c").unwrap();
    assert_eq!(sel.specificity(), (1, 2, 0));
    assert!(Selector::parse("   ").is_none());
    assert!(Selector::parse("p ~").is_none());
    let simple = SimpleSelector::parse("p.a.b").unwrap();
    assert_eq!(simple.specificity(), (0, 2, 1));
}

#[test]
fn matches_descendant_selectors() {
    let sel = Selector::parse("section.hero p").unwrap();
    let body = el("body", &[]);
    let section = el("section", &[("class", "wide hero")]);
    let p = el("p", &[]);
    assert!(sel.matches(&p, &[body, section]));
    let other = el("section", &[("class", "plain")]);
    assert!(!sel.matches(&p, &[el("body", &[]), other]));
    assert!(!sel.matches(&el("span", &[]), &[el("section", &[("class", "hero")])]));

    let by_id = SimpleSelector::parse("#main").unwrap();
    assert!(by_id.matches_data(&el("div", &[("id", "main")])));
    assert!(!by_id.matches_data(&el("div", &[("id", "other")])));
    assert!(!by_id.matches_data(&el("div", &[])));
}

#[test]
fn parses_rules_and_variables() {
    let sheet = Stylesheet::parse(
        "@media screen { p { color: red; } } \
         :root { --accent: teal; --gap: 4px; } \
         h1, h2 { color: var(--accent) !important; font-weight: bold } \
         p { } \
         @import url(\"x.css\"); \
         bad rule without brace } \
         em { color: ink; }",
    );
    assert_eq!(sheet.variables.get("--accent"), Some("teal"));
    assert_eq!(sheet.variables.get("--gap"), Some("4px"));
    // :root itself gives no rule (it is not a readable selector), h1 and h2 do, `p { }` has no declarations.
    assert_eq!(sheet.rules.len(), 3);
    assert_eq!(sheet.rules[0].selector.parts[0].tag_name, Some("h1".to_string()));
    assert_eq!(sheet.rules[1].selector.parts[0].tag_name, Some("h2".to_string()));
    assert_eq!(sheet.rules[0].declarations.len(), 2);
    assert_eq!(sheet.rules[0].declarations[0].name, "color");
    assert_eq!(sheet.rules[0].declarations[0].value, "var(--accent)");
    assert_eq!(sheet.rules[0].source_order, sheet.rules[1].source_order);
    assert!(sheet.rules[2].source_order > sheet.rules[1].source_order);
    assert_eq!(sheet.resolve_variables("var(--accent)"), "teal");
    assert_eq!(sheet.resolve_variables("1px solid var(--nope, var(--accent))"), "1px solid teal");
    assert_eq!(sheet.resolve_variables("var(--nope)"), "var(--nope)");
    assert_eq!(sheet.resolve_variables("var(--accent"), "var(--accent");
}

#[test]
fn cascades_by_specificity_then_order() {
    let sheet = Stylesheet::parse(
        "p.x { color: blue; } p { color: red; font-size: 10px; } p { font-size: 12px; }",
    );
    let s = sheet.styles_for(&el("p", &[("class", "x")]), &[]);
    assert_eq!(s.get("color"), Some("blue"));
    assert_eq!(s.get("font-size"), Some("12px"));
    let s = sheet.styles_for(&el("p", &[]), &[]);
    assert_eq!(s.get("color"), Some("red"));
    let s = sheet.styles_for(&el("div", &[]), &[]);
    assert!(s.is_empty());
}

#[test]
fn merges_sheets() {
    let mut a = Stylesheet::parse(":root { --c: red; } p { color: var(--c); }");
    let b = Stylesheet::parse(":root { --c: blue; } em { color: ink; }");
    a.merge(b);
    assert_eq!(a.rules.len(), 2);
    assert_eq!(a.variables.get("--c"), Some("blue"));
}

#[test]
fn user_agent_sheet_hides_head_and_inlines_spans() {
    let ua = Stylesheet::user_agent_stylesheet();
    let s = ua.styles_for(&el("head", &[]), &[]);
    assert_eq!(s.display_mode(), DisplayMode::Hidden);
    let s = ua.styles_for(&el("span", &[]), &[]);
    assert_eq!(s.display_mode(), DisplayMode::Inline);
    let s = ua.styles_for(&el("h1", &[]), &[]);
    assert_eq!(s.get("font-size"), Some("32px"));
    assert_eq!(s.text_align(), TextAlign::Center);
    assert!(s.is_bold());
}

#[test]
fn reads_layout_keywords() {
    let s = styles(&[
        ("display", "inline-block"),
        ("flex-direction", "column"),
        ("justify-content", "space-between"),
        ("align-items", "center"),
        ("flex-wrap", "wrap"),
        ("text-align", "right"),
        ("box-sizing", "border-box"),
    ]);
    assert_eq!(s.display_mode(), DisplayMode::Inline);
    assert_eq!(s.flex_direction(), FlexDirection::Column);
    assert_eq!(s.justify_content(), JustifyContent::SpaceBetween);
    assert_eq!(s.align_items(), AlignItems::Center);
    assert!(s.flex_wrap());
    assert_eq!(s.text_align(), TextAlign::Right);
    assert_eq!(s.box_sizing(), BoxSizing::BorderBox);

    let d = StyleMap::new();
    assert_eq!(d.display_mode(), DisplayMode::Block);
    assert_eq!(d.flex_direction(), FlexDirection::Row);
    assert_eq!(d.justify_content(), JustifyContent::FlexStart);
    assert_eq!(d.align_items(), AlignItems::Stretch);
    assert!(!d.flex_wrap());
    assert_eq!(d.text_align(), TextAlign::Left);
    assert_eq!(d.box_sizing(), BoxSizing::ContentBox);
    assert_eq!(styles(&[("display", "flex")]).display_mode(), DisplayMode::Flex);
    assert_eq!(styles(&[("display", "none")]).display_mode(), DisplayMode::Hidden);
}

#[test]
fn reads_typography_and_colors() {
    let s = styles(&[
        ("font-weight", "700"),
        ("font-style", "oblique"),
        ("text-decoration", "underline"),
        ("visibility", "hidden"),
        ("background", "sand"),
        ("border", "2px solid ember"),
    ]);
    assert_eq!(s.font_weight(), "700");
    assert!(s.is_bold());
    assert_eq!(s.font_style(), "oblique");
    assert!(s.is_italic());
    assert_eq!(s.text_decoration(), Some("underline"));
    assert_eq!(s.visibility(), "hidden");
    assert_eq!(s.background_color(), Some("sand"));
    assert_eq!(s.border_color(), Some("ember".to_string()));

    let d = StyleMap::new();
    assert_eq!(d.font_weight(), "normal");
    assert!(!d.is_bold());
    assert_eq!(d.font_style(), "normal");
    assert!(!d.is_italic());
    assert_eq!(d.text_decoration(), None);
    assert_eq!(d.visibility(), "visible");
    assert_eq!(d.background_color(), None);
    assert_eq!(d.border_color(), None);

    let s = styles(&[("background-color", "red"), ("background", "blue"), ("border-color", "gold")]);
    assert_eq!(s.background_color(), Some("red"));
    assert_eq!(s.border_color(), Some("gold".to_string()));
    assert_eq!(styles(&[("border", "1px solid")]).border_color(), None);
    assert_eq!(styles(&[("border", "0 dashed")]).border_color(), Some("dashed".to_string()));
}

#[test]
fn renders_style_maps_in_name_order() {
    let s = styles(&[("display", "inline"), ("color", "gold")]);
    assert_eq!(s.to_string(), "{color: gold, display: inline}");
    assert_eq!(StyleMap::new().to_string(), "{}");
}

#[test]
fn resolves_variables_from_ancestors() {
    let parent = styles(&[("--c", "teal"), ("--d", "navy")]);
    let mut s = styles(&[
        ("color", "var(--c)"),
        ("border-color", "var( --d , x)"),
        ("fill", "a var(--zz) b"),
        ("stroke", "var(--c"),
        ("--d", "own"),
    ]);
    s.resolve_vars(&[&parent]);
    assert_eq!(s.get("color"), Some("teal"));
    assert_eq!(s.get("border-color"), Some("own"));
    assert_eq!(s.get("fill"), Some("a var(--zz) b"));
    // An unclosed reference keeps the text before it twice.
    assert_eq!(s.get("stroke"), Some("var(--c"));
    let mut t = styles(&[("x", "ab var(--c")]);
    t.resolve_vars(&[]);
    assert_eq!(t.get("x"), Some("ab ab var(--c"));
}

#[test]
fn recognises_pixel_lengths() {
    for ok in ["0", "12px", " 1.5px ", "-3px", "+.5px", "1e3px", "2.E-1px", "7 px", "infpx", "NaNpx"] {
        assert!(is_length_px(&chars(ok)), "{ok}");
    }
    for bad in ["", "px", "12", "1.2.3px", "e5px", "1e+px", "solid", "12pt", ".px", "0px0"] {
        assert!(!is_length_px(&chars(bad)), "{bad}");
    }
}

#[test]
fn spreads_box_shorthands_over_the_sides() {
    let s = |v: &[&str]| Some(v.iter().map(|x| x.to_string()).collect::<Vec<_>>());
    assert_eq!(box_sides("4px"), s(&["4px", "4px", "4px", "4px"]));
    assert_eq!(box_sides("1px 2px"), s(&["1px", "2px", "1px", "2px"]));
    assert_eq!(box_sides("1px 2px 3px"), s(&["1px", "2px", "3px", "2px"]));
    assert_eq!(box_sides("1px 2px 3px 4px"), s(&["1px", "2px", "3px", "4px"]));
    assert_eq!(box_sides("1px auto 3em 0"), s(&["1px", "0", "1px", "0"]));
    assert_eq!(box_sides("1px 2px 3px 4px 5px"), None);
    assert_eq!(box_sides("auto"), None);
    assert_eq!(margin_sides("0 auto"), s(&["0", "auto", "0", "auto"]));
    assert_eq!(margin_sides(""), None);
    assert_eq!(border_width_word("solid 2px red 3px"), Some("2px".to_string()));
    assert_eq!(border_width_word("solid red"), None);
}

#[test]
fn lists_imports_and_removes_at_rules() {
    let css = "@charset \"utf-8\";\n@import url(\"a.css\");\n@media screen { p { color: red } }\n@IMPORT 'b.css';\n  p { color: blue }\n@import nothing;\n@import \"c.css\"";
    assert_eq!(
        import_urls(css),
        vec!["a.css".to_string(), "b.css".to_string(), "c.css".to_string()]
    );
    assert_eq!(remove_at_rules(css), "\n\n\n\n  p { color: blue }\n\n");
    assert_eq!(import_urls("p { x: y }"), Vec::<String>::new());
}

#[test]
fn collects_style_sources_in_document_order() {
    let doc = aurora::html::Parser::new(
        "<head><style>p { color: red }</style><link rel=\"stylesheet\" href=\"s.css\"><link rel=\"icon\" href=\"i.png\"></head><body><style>h1 { x: y }</style></body>",
    )
    .parse_document();
    assert_eq!(
        style_sources(&doc),
        vec![
            StyleSource::Text("p { color: red }".to_string()),
            StyleSource::Link("s.css".to_string()),
            StyleSource::Text("h1 { x: y }".to_string()),
        ]
    );
}

#[test]
fn imports_come_first_and_stop_at_the_depth_limit() {
    let css = "@import \"a.css\";\np { color: blue }";
    assert_eq!(imports_at_depth(css, 0), vec!["a.css".to_string()]);
    assert_eq!(imports_at_depth(css, 2), vec!["a.css".to_string()]);
    assert_eq!(imports_at_depth(css, 3), Vec::<String>::new());
    assert_eq!(
        with_imported(&["h1 { x: y }".to_string(), "em { z: w }".to_string()], css),
        "h1 { x: y }\nem { z: w }\n\np { color: blue }"
    );
    assert_eq!(with_imported(&[], css), "\np { color: blue }");
}
