//! The macro table: a fixed mapping from macro name to a freshly built
//! element skeleton. Every lookup returns an independent instance; a name not
//! in the table yields a bare element with that literal name as its tag.
//!
//! The `!Column` skeleton's style holds a single NUL byte as the column-count
//! placeholder; the serializer resolves it from the nearest `smc` ancestor.

use vstd::prelude::*;
use crate::node::{Node, NodeView, Tag, TagView, deep_view_seq, lemma_deep_view_seq};
use crate::text::{ascii_bytes, ascii_seq, bytes_eq};

verus! {

/// The fixed attribution text of the `!Rocyonery` banner, as UTF-8 bytes.
pub open spec fn attribution_text() -> Seq<u8> {
    seq![
        208u8, 161u8, 208u8, 190u8, 208u8, 183u8, 208u8, 180u8, 208u8, 176u8, 208u8, 189u8,
        208u8, 190u8, 32u8, 209u8, 129u8, 32u8, 208u8, 191u8, 208u8, 190u8, 208u8, 188u8,
        208u8, 190u8, 209u8, 137u8, 209u8, 140u8, 209u8, 142u8, 32u8, 208u8, 180u8, 208u8,
        181u8, 209u8, 136u8, 208u8, 176u8, 208u8, 177u8, 208u8, 187u8, 208u8, 190u8, 208u8,
        189u8, 208u8, 184u8, 208u8, 183u8, 208u8, 176u8, 209u8, 130u8, 208u8, 190u8, 209u8,
        128u8, 208u8, 176u8, 32u8, 208u8, 190u8, 209u8, 130u8, 32u8, 82u8, 111u8, 99u8,
        121u8, 111u8, 110u8, 101u8, 114u8, 121u8, 44u8, 32u8, 73u8, 110u8, 99u8, 46u8,
    ]
}

/// A single attribute list holding only `style` mapped to `css`.
pub open spec fn style_only(css: Seq<u8>) -> Seq<(Seq<u8>, Seq<u8>)> {
    seq![(ascii_seq("style"@), css)]
}

/// The element skeleton a macro name expands to.
pub open spec fn template_view(name: Seq<u8>) -> TagView {
    if name == ascii_seq("!Document"@) {
        TagView {
            tag_name: ascii_seq("html"@),
            properties: Seq::empty(),
            children: seq![NodeView::Text(ascii_seq("<meta charset=\"utf-8\">"@))],
        }
    } else if name == ascii_seq("!Rocyonery"@) {
        TagView {
            tag_name: ascii_seq("div"@),
            properties: style_only(ascii_seq("background-color:#fdd;width:100%;height:60px;line-height:60px;text-align:center;"@)),
            children: seq![NodeView::Text(attribution_text())],
        }
    } else if name == ascii_seq("!Fullwidth"@) {
        TagView {
            tag_name: ascii_seq("div"@),
            properties: style_only(ascii_seq("width: 100%;"@)),
            children: Seq::empty(),
        }
    } else if name == ascii_seq("!Title"@) {
        TagView {
            tag_name: ascii_seq("div"@),
            properties: style_only(ascii_seq("width: 100%; height: 60px; line-height: 60px; font-size: 20px; text-align: center;"@)),
            children: Seq::empty(),
        }
    } else if name == ascii_seq("!Subtitle"@) {
        TagView {
            tag_name: ascii_seq("div"@),
            properties: style_only(ascii_seq("width: 100%; font-size: 16px; text-align: center;"@)),
            children: Seq::empty(),
        }
    } else if name == ascii_seq("!SmartColumns"@) {
        TagView {
            tag_name: ascii_seq("smc"@),
            properties: style_only(ascii_seq("width: 100%;"@)),
            children: Seq::empty(),
        }
    } else if name == ascii_seq("!Column"@) {
        TagView {
            tag_name: ascii_seq("div"@),
            properties: style_only(ascii_seq("width: calc(100% / \0 - 6px);display:inline-block;vertical-align:top;margin:3px;"@)),
            children: Seq::empty(),
        }
    } else {
        TagView { tag_name: name, properties: Seq::empty(), children: Seq::empty() }
    }
}

/// A fresh element with one `style` attribute and no children.
fn styled_tag(tag_name: Vec<u8>, css: Vec<u8>) -> (r: Tag)
    ensures
        r.deep_view() == (TagView {
            tag_name: tag_name@,
            properties: style_only(css@),
            children: Seq::<NodeView>::empty(),
        }),
{
    proof {
        reveal_strlit("style");
    }
    let ghost css_view = css@;
    let mut props: Vec<(Vec<u8>, Vec<u8>)> = Vec::new();
    props.push((ascii_bytes("style"), css));
    let r = Tag { tag_name, properties: props, children: Vec::new() };
    proof {
        assert(r.deep_view().properties =~= style_only(css_view));
        assert(r.deep_view().children =~= Seq::<NodeView>::empty());
    }
    r
}

/// The fixed attribution text of the `!Rocyonery` banner, as UTF-8 bytes.
fn attribution_text_vec() -> (r: Vec<u8>)
    ensures
        r@ == attribution_text(),
{
    let v: Vec<u8> = vec![
        208, 161, 208, 190, 208, 183, 208, 180, 208, 176, 208, 189,
        208, 190, 32, 209, 129, 32, 208, 191, 208, 190, 208, 188,
        208, 190, 209, 137, 209, 140, 209, 142, 32, 208, 180, 208,
        181, 209, 136, 208, 176, 208, 177, 208, 187, 208, 190, 208,
        189, 208, 184, 208, 183, 208, 176, 209, 130, 208, 190, 209,
        128, 208, 176, 32, 208, 190, 209, 130, 32, 82, 111, 99,
        121, 111, 110, 101, 114, 121, 44, 32, 73, 110, 99, 46,
    ];
    proof {
        assert(v@ =~= attribution_text());
    }
    v
}

/// Build the element skeleton a macro name expands to.
pub fn process_template(tag_name: Vec<u8>) -> (r: Tag)
    ensures
        r.deep_view() == template_view(tag_name@),
{
    proof {
        reveal_strlit("!Document");
        reveal_strlit("html");
        reveal_strlit("<meta charset=\"utf-8\">");
        reveal_strlit("!Rocyonery");
        reveal_strlit("div");
        reveal_strlit("background-color:#fdd;width:100%;height:60px;line-height:60px;text-align:center;");
        reveal_strlit("!Fullwidth");
        reveal_strlit("width: 100%;");
        reveal_strlit("!Title");
        reveal_strlit("width: 100%; height: 60px; line-height: 60px; font-size: 20px; text-align: center;");
        reveal_strlit("!Subtitle");
        reveal_strlit("width: 100%; font-size: 16px; text-align: center;");
        reveal_strlit("!SmartColumns");
        reveal_strlit("smc");
        reveal_strlit("!Column");
        reveal_strlit("width: calc(100% / \0 - 6px);display:inline-block;vertical-align:top;margin:3px;");
    }
    let name_document = ascii_bytes("!Document");
    if bytes_eq(tag_name.as_slice(), name_document.as_slice()) {
        let mut children: Vec<Node> = Vec::new();
        children.push(Node::Text(ascii_bytes("<meta charset=\"utf-8\">")));
        let r = Tag { tag_name: ascii_bytes("html"), properties: Vec::new(), children };
        proof {
            broadcast use lemma_deep_view_seq;
            assert(r.deep_view().properties =~= Seq::<(Seq<u8>, Seq<u8>)>::empty());
            assert(r.deep_view().children =~~= seq![NodeView::Text(ascii_seq("<meta charset=\"utf-8\">"@))]);
        }
        return r;
    }
    let name_rocyonery = ascii_bytes("!Rocyonery");
    if bytes_eq(tag_name.as_slice(), name_rocyonery.as_slice()) {
        let mut r = styled_tag(
            ascii_bytes("div"),
            ascii_bytes("background-color:#fdd;width:100%;height:60px;line-height:60px;text-align:center;"),
        );
        let ghost props0 = r.deep_view().properties;
        r.children.push(Node::Text(attribution_text_vec()));
        proof {
            broadcast use lemma_deep_view_seq;
            assert(r.deep_view().properties =~= props0);
            assert(r.deep_view().children =~~= seq![NodeView::Text(attribution_text())]);
        }
        return r;
    }
    let name_fullwidth = ascii_bytes("!Fullwidth");
    if bytes_eq(tag_name.as_slice(), name_fullwidth.as_slice()) {
        return styled_tag(ascii_bytes("div"), ascii_bytes("width: 100%;"));
    }
    let name_title = ascii_bytes("!Title");
    if bytes_eq(tag_name.as_slice(), name_title.as_slice()) {
        return styled_tag(
            ascii_bytes("div"),
            ascii_bytes("width: 100%; height: 60px; line-height: 60px; font-size: 20px; text-align: center;"),
        );
    }
    let name_subtitle = ascii_bytes("!Subtitle");
    if bytes_eq(tag_name.as_slice(), name_subtitle.as_slice()) {
        return styled_tag(
            ascii_bytes("div"),
            ascii_bytes("width: 100%; font-size: 16px; text-align: center;"),
        );
    }
    let name_smartcolumns = ascii_bytes("!SmartColumns");
    if bytes_eq(tag_name.as_slice(), name_smartcolumns.as_slice()) {
        return styled_tag(ascii_bytes("smc"), ascii_bytes("width: 100%;"));
    }
    let name_column = ascii_bytes("!Column");
    if bytes_eq(tag_name.as_slice(), name_column.as_slice()) {
        return styled_tag(
            ascii_bytes("div"),
            ascii_bytes("width: calc(100% / \0 - 6px);display:inline-block;vertical-align:top;margin:3px;"),
        );
    }
    Tag::new(tag_name.as_slice())
}

} // verus!
