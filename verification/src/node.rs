//! The document tree: text leaves and tagged elements.
//!
//! All textual data is carried as UTF-8 bytes (`Vec<u8>`), and the
//! mathematical model of a node is [`NodeView`], a deep view in which every
//! byte vector becomes a `Seq<u8>` and the children become a `Seq` of views.

use vstd::prelude::*;
use crate::text::{ascii_bytes, slice_to_vec};

verus! {

/// A markup element: a tag name, an attribute list and an ordered list of
/// owned child nodes.
///
/// Attributes are kept as a list of `(name, value)` pairs in first-insertion
/// order; the tree builder keeps the names unique by appending to the value
/// of an existing attribute instead of pushing a duplicate pair.
#[derive(Debug)]
pub struct Tag {
    pub tag_name: Vec<u8>,
    pub properties: Vec<(Vec<u8>, Vec<u8>)>,
    pub children: Vec<Node>,
}

/// A node of the document tree: either a verbatim text leaf or an element.
#[derive(Debug)]
pub enum Node {
    Text(Vec<u8>),
    Tag(Tag),
}

/// Mathematical model of a [`Tag`].
#[verifier::ext_equal]
pub struct TagView {
    pub tag_name: Seq<u8>,
    pub properties: Seq<(Seq<u8>, Seq<u8>)>,
    pub children: Seq<NodeView>,
}

/// Mathematical model of a [`Node`].
#[verifier::ext_equal]
pub enum NodeView {
    Text(Seq<u8>),
    Tag(TagView),
}

impl Node {
    /// Deep view: every byte vector becomes a sequence, recursively.
    pub open spec fn deep_view(self) -> NodeView
        decreases self,
    {
        match self {
            Node::Text(t) => NodeView::Text(t@),
            Node::Tag(tag) => NodeView::Tag(tag.deep_view()),
        }
    }
}

/// Deep views of a sequence of nodes, in order.
pub open spec fn deep_view_seq(s: Seq<Node>) -> Seq<NodeView>
    decreases s,
{
    if s.len() == 0 {
        Seq::empty()
    } else {
        seq![s[0].deep_view()] + deep_view_seq(s.subrange(1, s.len() as int))
    }
}

/// `deep_view_seq` maps each node of the sequence to its deep view.
pub broadcast proof fn lemma_deep_view_seq(s: Seq<Node>)
    ensures
        (#[trigger] deep_view_seq(s)).len() == s.len(),
        forall|i: int| 0 <= i < s.len() ==> deep_view_seq(s)[i] == s[i].deep_view(),
    decreases s.len(),
{
    if s.len() > 0 {
        lemma_deep_view_seq(s.subrange(1, s.len() as int));
    }
}

/// `deep_view_seq` maps a push to a push.
pub proof fn lemma_deep_view_seq_push(s: Seq<Node>, n: Node)
    ensures
        deep_view_seq(s.push(n)) == deep_view_seq(s).push(n.deep_view()),
{
    lemma_deep_view_seq(s.push(n));
    lemma_deep_view_seq(s);
    assert(deep_view_seq(s.push(n)) =~= deep_view_seq(s).push(n.deep_view()));
}

impl Tag {
    /// Deep view: every byte vector becomes a sequence, recursively.
    pub open spec fn deep_view(self) -> TagView
        decreases self,
    {
        TagView {
            tag_name: self.tag_name@,
            properties: Seq::new(self.properties@.len(), |i: int| (self.properties@[i].0@, self.properties@[i].1@)),
            children: deep_view_seq(self.children@),
        }
    }

    /// Set or extend an attribute: an existing name keeps its position and
    /// has `value` appended to its value with no separator; a new name is
    /// appended to the attribute list.
    pub fn append_attr(&mut self, name: &[u8], value: &[u8])
        ensures
            final(self).deep_view() == (TagView {
                properties: crate::style::attr_append(old(self).deep_view().properties, name@, value@),
                ..old(self).deep_view()
            }),
    {
        proof {
            crate::style::lemma_find_pair_first(self.deep_view().properties, name@);
        }
        let ghost props0 = self.deep_view().properties;
        let mut i: usize = 0;
        while i < self.properties.len()
            invariant
                0 <= i <= self.properties@.len(),
                self == old(self),
                props0 == self.deep_view().properties,
                forall|j: int| 0 <= j < i ==> props0[j].0 != name@,
            decreases self.properties@.len() - i,
        {
            if crate::text::bytes_eq(self.properties[i].0.as_slice(), name) {
                proof {
                    crate::style::lemma_find_pair_first(props0, name@);
                    assert(props0[i as int].0 == name@);
                    assert(crate::style::find_pair(props0, name@) == Some(i as int));
                }
                let (k0, mut v0) = self.properties.remove(i);
                crate::text::append_bytes(&mut v0, value);
                self.properties.insert(i, (k0, v0));
                proof {
                    assert(self.deep_view().properties
                        =~= props0.update(i as int, (name@, props0[i as int].1 + value@)));
                    assert(self.deep_view().children =~= old(self).deep_view().children);
                }
                return;
            }
            i = i + 1;
        }
        self.properties.push((crate::text::slice_to_vec(name), crate::text::slice_to_vec(value)));
        proof {
            crate::style::lemma_find_pair_first(props0, name@);
            assert(crate::style::find_pair(props0, name@) == None::<int>);
            assert(self.deep_view().properties =~= props0.push((name@, value@)));
            assert(self.deep_view().children =~= old(self).deep_view().children);
        }
    }

    /// A fresh element with the given tag name, no attributes and no children.
    pub fn new(tag_name: &[u8]) -> (r: Tag)
        ensures
            r.deep_view() == (TagView { tag_name: tag_name@, properties: Seq::<(Seq<u8>, Seq<u8>)>::empty(), children: Seq::<NodeView>::empty() }),
    {
        let r = Tag {
            tag_name: slice_to_vec(tag_name),
            properties: Vec::new(),
            children: Vec::new(),
        };
        proof {
            assert(r.deep_view().properties =~= Seq::<(Seq<u8>, Seq<u8>)>::empty());
            assert(r.deep_view().children =~= Seq::<NodeView>::empty());
        }
        r
    }
}

/// A freshly boxed text leaf with the given payload.
pub fn boxed_text(text: &[u8]) -> (r: Box<Node>)
    ensures
        (*r).deep_view() == NodeView::Text(text@),
{
    Box::new(Node::Text(slice_to_vec(text)))
}

/// A boxed `html` element holding a `head` element with the given head nodes
/// and a `body` element with the given body nodes.
pub fn boxed_page(head_nodes: Vec<Node>, body_nodes: Vec<Node>) -> (r: Box<Tag>)
    ensures
        (*r).deep_view() == (TagView {
            tag_name: "html"@.map_values(|c: char| c as u8),
            properties: Seq::<(Seq<u8>, Seq<u8>)>::empty(),
            children: seq![
                NodeView::Tag(TagView {
                    tag_name: "head"@.map_values(|c: char| c as u8),
                    properties: Seq::<(Seq<u8>, Seq<u8>)>::empty(),
                    children: deep_view_seq(head_nodes@),
                }),
                NodeView::Tag(TagView {
                    tag_name: "body"@.map_values(|c: char| c as u8),
                    properties: Seq::<(Seq<u8>, Seq<u8>)>::empty(),
                    children: deep_view_seq(body_nodes@),
                }),
            ],
        }),
{
    proof {
        reveal_strlit("head");
        reveal_strlit("body");
        reveal_strlit("html");
    }
    let ghost head_views = deep_view_seq(head_nodes@);
    let ghost body_views = deep_view_seq(body_nodes@);
    let head = Tag { tag_name: ascii_bytes("head"), properties: Vec::new(), children: head_nodes };
    let body = Tag { tag_name: ascii_bytes("body"), properties: Vec::new(), children: body_nodes };
    let ghost head_view = head.deep_view();
    let ghost body_view = body.deep_view();
    let mut children: Vec<Node> = Vec::new();
    children.push(Node::Tag(head));
    children.push(Node::Tag(body));
    let r = Box::new(Tag { tag_name: ascii_bytes("html"), properties: Vec::new(), children });
    proof {
        broadcast use lemma_deep_view_seq;
        assert(head_view =~~= (TagView { tag_name: "head"@.map_values(|c: char| c as u8), properties: Seq::<(Seq<u8>, Seq<u8>)>::empty(), children: head_views }));
        assert(body_view =~~= (TagView { tag_name: "body"@.map_values(|c: char| c as u8), properties: Seq::<(Seq<u8>, Seq<u8>)>::empty(), children: body_views }));
        assert(children@.len() == 2);
        assert((*r).deep_view().children == deep_view_seq(children@));
        assert(deep_view_seq(children@).len() == 2);
        assert((*r).deep_view().children.len() == 2);
        assert((*r).deep_view().children[0] == NodeView::Tag(head_view));
        assert((*r).deep_view().children[1] == NodeView::Tag(body_view));
        assert((*r).deep_view().children =~~= seq![
            NodeView::Tag(TagView { tag_name: "head"@.map_values(|c: char| c as u8), properties: Seq::<(Seq<u8>, Seq<u8>)>::empty(), children: head_views }),
            NodeView::Tag(TagView { tag_name: "body"@.map_values(|c: char| c as u8), properties: Seq::<(Seq<u8>, Seq<u8>)>::empty(), children: body_views }),
        ]);
        assert((*r).deep_view().properties =~= Seq::<(Seq<u8>, Seq<u8>)>::empty());
    }
    r
}

} // verus!
