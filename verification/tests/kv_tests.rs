use kv_markup::builder::try_read_kv;
use kv_markup::node::{boxed_page, boxed_text, Node, Tag};
use kv_markup::read_kv;
use kv_markup::style::{replace_all_bytes, substitute_value, KeyTable};
use kv_markup::template::process_template;
use kv_markup::StructuralError;

fn render(src: &str) -> Vec<u8> {
    let node = read_kv(src.as_bytes()).unwrap();
    let mut out: Vec<u8> = Vec::new();
    node.write(&mut out);
    out
}

fn render_str(src: &str) -> String {
    String::from_utf8(render(src)).unwrap()
}

fn count_occurrences(haystack: &str, needle: &str) -> usize {
    haystack.matches(needle).count()
}

#[test]
fn document_title_exact_output() {
    let out = render_str("!Document:\n  !Title:\n    Hello\n");
    assert_eq!(
        out,
        "<html><meta charset=\"utf-8\"><div style=\"width: 100%; height: 60px; line-height: 60px; font-size: 20px; text-align: center;\">Hello</div></html>"
    );
}

#[test]
fn comments_and_blanks_yield_empty_document() {
    let r = read_kv(b"# a comment\n\n   \n# another\n");
    assert_eq!(r.unwrap_err(), StructuralError::EmptyDocument);
}

#[test]
fn empty_source_yields_empty_document() {
    let r = read_kv(b"");
    assert_eq!(r.unwrap_err(), StructuralError::EmptyDocument);
}

#[test]
fn text_at_root_is_fatal() {
    let r = read_kv(b"!Document:\nstray text\n");
    assert_eq!(r.unwrap_err(), StructuralError::TextAtRoot);
}

#[test]
fn text_as_first_line_is_fatal() {
    let r = read_kv(b"stray\n");
    assert_eq!(r.unwrap_err(), StructuralError::TextAtRoot);
}

#[test]
fn directive_without_colon_is_fatal() {
    let r = read_kv(b"div:\n  @bad\n");
    assert_eq!(r.unwrap_err(), StructuralError::MissingColonInDirective);
}

#[test]
fn directive_at_root_is_fatal() {
    let r = read_kv(b"@Width: 5px\n");
    assert_eq!(r.unwrap_err(), StructuralError::RootPropertyNotAllowed);
}

#[test]
fn property_at_root_is_fatal() {
    let r = read_kv(b"x: y\n");
    assert_eq!(r.unwrap_err(), StructuralError::RootPropertyNotAllowed);
}

#[test]
fn set_without_space_is_refused() {
    let r = try_read_kv(b"div:\n  @Set: nospace\n");
    assert!(r.is_none());
}

#[test]
fn smart_columns_count_three() {
    let out = render_str("!SmartColumns:\n  !Column:\n  !Column:\n  !Column:\n");
    assert_eq!(count_occurrences(&out, "calc(100% / 3 - 6px)"), 3);
    assert!(!out.contains('\u{0}'));
    assert!(out.starts_with("<div style=\"width: 100%;\">"));
    assert!(out.ends_with("</div>"));
}

#[test]
fn smart_columns_count_one() {
    let out = render_str("!SmartColumns:\n  !Column:\n");
    assert_eq!(count_occurrences(&out, "calc(100% / 1 - 6px)"), 1);
}

#[test]
fn smart_columns_counts_text_children_too() {
    // The placeholder is resolved with the count of all direct children,
    // text leaves included.
    let out = render_str("!SmartColumns:\n  !Column:\n  loose text\n");
    assert_eq!(count_occurrences(&out, "calc(100% / 2 - 6px)"), 1);
    assert!(out.contains("loose text"));
}

#[test]
fn nested_smart_columns_resolve_independently() {
    let src = "!SmartColumns:\n  !Column:\n    !SmartColumns:\n      !Column:\n      !Column:\n  !Column:\n";
    let out = render_str(src);
    assert_eq!(count_occurrences(&out, "calc(100% / 2 - 6px)"), 4);
}

#[test]
fn set_substitutes_into_later_directive() {
    let out = render_str("div:\n  @Set: W 500px\n  @Width: W\n");
    assert_eq!(out, "<div style=\"width: 500px;\"></div>");
}

#[test]
fn set_rewrites_only_later_directives() {
    let before = render_str("div:\n  @Width: W\n  @Set: W 500px\n");
    assert!(before.contains("width: W;"));
    let after = render_str("div:\n  @Set: W 500px\n  @Width: W\n");
    assert!(after.contains("width: 500px;"));
}

#[test]
fn set_last_write_wins() {
    let out = render_str("div:\n  @Set: W 1px\n  @Set: W 2px\n  @Width: W\n");
    assert!(out.contains("width: 2px;"));
}

#[test]
fn repeated_property_concatenates() {
    let out = render_str("div:\n  x: foo\n  x: bar\n");
    assert_eq!(out, "<div x=\"foobar\"></div>");
}

#[test]
fn properties_keep_first_insertion_order() {
    let out = render_str("div:\n  a: 1\n  b: 2\n  a: 3\n");
    assert_eq!(out, "<div a=\"13\" b=\"2\"></div>");
}

#[test]
fn style_directives_append_fragments() {
    let out = render_str(
        "div:\n  @Width: 10px\n  @Height: 20px\n  @LHeight: 30px\n  @Text_size: 40px\n  @Text_type: serif\n  @Back_fill: red\n",
    );
    assert_eq!(
        out,
        "<div style=\"width: 10px;height: 20px;line-height: 30px;font-size: 40px;font-family: serif;background-color: red;\"></div>"
    );
}

#[test]
fn back_grad_and_centred() {
    let out = render_str("div:\n  @Back_grad: red, blue\n  @Centred: yes\n");
    assert_eq!(
        out,
        "<div style=\"background: linear-gradient(red, blue);text-align: center;\"></div>"
    );
}

#[test]
fn unknown_directive_changes_nothing() {
    let out = render_str("div:\n  @Nonsense: 5\n");
    assert_eq!(out, "<div></div>");
}

#[test]
fn directive_appends_to_template_style() {
    let out = render_str("!Fullwidth:\n  @Height: 5px\n");
    assert_eq!(out, "<div style=\"width: 100%;height: 5px;\"></div>");
}

#[test]
fn macro_free_round_trip_keeps_names_and_text() {
    let out = render_str("a:\n  b:\n    hi\n  c:\n    yo\n");
    assert_eq!(out, "<a><b>hi</b><c>yo</c></a>");
}

#[test]
fn sibling_at_same_indent_closes_element() {
    let out = render_str("a:\n  b:\n  c:\n");
    assert_eq!(out, "<a><b></b><c></c></a>");
}

#[test]
fn dedent_closes_to_nearest_smaller_indent() {
    let out = render_str("a:\n    b:\n        c:\n    d:\n");
    assert_eq!(out, "<a><b><c></c></b><d></d></a>");
}

#[test]
fn property_attaches_to_innermost_open_element() {
    let out = render_str("a:\n  b:\n  x: 1\n");
    // the property line does not close `b`
    assert_eq!(out, "<a><b x=\"1\"></b></a>");
}

#[test]
fn second_top_level_element_is_dropped() {
    let out = render_str("a:\nb:\n");
    assert_eq!(out, "<a></a>");
}

#[test]
fn text_above_zero_indent_with_no_open_element_attaches_to_root() {
    // An indented text line with no open element becomes the first child of
    // the virtual root and so the document itself.
    let out = render_str("  floating\n");
    assert_eq!(out, "floating");
}

#[test]
fn document_macro_has_charset_child() {
    let out = render_str("!Document:\n");
    assert_eq!(out, "<html><meta charset=\"utf-8\"></html>");
}

#[test]
fn rocyonery_macro_emits_attribution() {
    let out = render_str("!Rocyonery:\n");
    assert!(out.contains("Создано с помощью дешаблонизатора от Rocyonery, Inc."));
    assert!(out.contains("background-color:#fdd;width:100%;height:60px;line-height:60px;text-align:center;"));
}

#[test]
fn subtitle_macro_style() {
    let out = render_str("!Subtitle:\n");
    assert_eq!(out, "<div style=\"width: 100%; font-size: 16px; text-align: center;\"></div>");
}

#[test]
fn unknown_macro_uses_literal_name() {
    let out = render_str("span:\n  inner\n");
    assert_eq!(out, "<span>inner</span>");
}

#[test]
fn crlf_and_trailing_whitespace_are_stripped() {
    let out = render_str("a:\r\n  hi   \r\n");
    assert_eq!(out, "<a>hi</a>");
}

#[test]
fn comment_lines_do_not_close_elements() {
    let out = render_str("a:\n  b:\n# comment at zero indent\n    inside\n");
    assert_eq!(out, "<a><b>inside</b></a>");
}

#[test]
fn property_name_and_value_are_trimmed() {
    let out = render_str("div:\n  x  :  padded value \n");
    assert_eq!(out, "<div x=\"padded value\"></div>");
}

#[test]
fn tab_indentation_counts_per_byte() {
    let out = render_str("a:\n\tb:\n\t\tc:\n");
    assert_eq!(out, "<a><b><c></c></b></a>");
}

#[test]
fn element_name_keeps_inner_spacing() {
    // only the trailing colon is removed from an element-open line
    let out = render_str("a:\n  foo :\n");
    assert_eq!(out, "<a><foo ></foo ></a>");
}

#[test]
fn directive_name_is_not_trimmed() {
    // "@ Width: x" has directive name " Width", which is unrecognized
    let out = render_str("div:\n  @ Width: 5px\n");
    assert_eq!(out, "<div></div>");
}

#[test]
fn directive_value_may_contain_colons() {
    let out = render_str("div:\n  @Text_type: a:b\n");
    assert_eq!(out, "<div style=\"font-family: a:b;\"></div>");
}

#[test]
fn process_template_defaults_to_literal_tag() {
    let tag = process_template(b"custom".to_vec());
    assert_eq!(tag.tag_name, b"custom".to_vec());
    assert!(tag.properties.is_empty());
    assert!(tag.children.is_empty());
}

#[test]
fn process_template_column_holds_placeholder() {
    let tag = process_template(b"!Column".to_vec());
    assert_eq!(tag.tag_name, b"div".to_vec());
    assert_eq!(tag.properties.len(), 1);
    assert_eq!(tag.properties[0].0, b"style".to_vec());
    assert!(tag.properties[0].1.contains(&0u8));
}

#[test]
fn tag_new_is_bare() {
    let tag = Tag::new(b"p");
    assert_eq!(tag.tag_name, b"p".to_vec());
    assert!(tag.properties.is_empty());
    assert!(tag.children.is_empty());
}

#[test]
fn boxed_text_holds_payload() {
    let node = boxed_text(b"hello");
    let mut out: Vec<u8> = Vec::new();
    node.write(&mut out);
    assert_eq!(out, b"hello".to_vec());
}

#[test]
fn boxed_page_wraps_head_and_body() {
    let head: Vec<Node> = vec![*boxed_text(b"H")];
    let body: Vec<Node> = vec![*boxed_text(b"B")];
    let page = boxed_page(head, body);
    let mut out: Vec<u8> = Vec::new();
    page.write(&mut out);
    assert_eq!(out, b"<html><head>H</head><body>B</body></html>".to_vec());
}

#[test]
fn replace_all_bytes_replaces_every_occurrence() {
    let r = replace_all_bytes(b"xabxabx", b"ab", b"Y");
    assert_eq!(r, b"xYxYx".to_vec());
}

#[test]
fn replace_all_bytes_scans_left_to_right() {
    let r = replace_all_bytes(b"aaa", b"aa", b"b");
    assert_eq!(r, b"ba".to_vec());
}

#[test]
fn substitute_value_applies_keys_in_insertion_order() {
    let mut keys = KeyTable::new();
    keys.insert(b"a".to_vec(), b"b".to_vec());
    keys.insert(b"b".to_vec(), b"c".to_vec());
    // "a" -> "b" first, then the resulting "b"s -> "c"
    let r = substitute_value(b"a b", &keys);
    assert_eq!(r, b"c c".to_vec());
}

#[test]
fn build_outcome_matches_read_kv() {
    match try_read_kv(b"a:\n") {
        Some(Ok(node)) => {
            let mut out: Vec<u8> = Vec::new();
            node.write(&mut out);
            assert_eq!(out, b"<a></a>".to_vec());
        },
        _ => panic!("expected a document"),
    }
}
