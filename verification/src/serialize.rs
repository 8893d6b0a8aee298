//! The serializer: a depth-first, single pass over the finished tree,
//! appending HTML-like markup to a byte sink.
//!
//! An `smc`-tagged element is rendered as a `div`, but its children are first
//! serialized into an isolated buffer in which every occurrence of the
//! column-count placeholder (a NUL byte) is replaced by the decimal digits of
//! the element's direct child count.

use vstd::prelude::*;
use crate::node::{Node, NodeView, Tag, TagView, deep_view_seq, lemma_deep_view_seq};
use crate::style::replace_all;
use crate::text::{ascii_bytes, ascii_seq, append_bytes, bytes_eq};

verus! {

/// The decimal digits of `n`, most significant first.
pub open spec fn dec_digits(n: nat) -> Seq<u8>
    decreases n,
{
    if n < 10 {
        seq![(48 + n) as u8]
    } else {
        dec_digits(n / 10) + seq![(48 + n % 10) as u8]
    }
}

/// The tag name an element is rendered under: `smc` renders as `div`.
pub open spec fn render_name(t: TagView) -> Seq<u8> {
    if t.tag_name == ascii_seq("smc"@) {
        ascii_seq("div"@)
    } else {
        t.tag_name
    }
}

/// The serialization of one node.
pub open spec fn ser_node(n: NodeView) -> Seq<u8>
    decreases n,
{
    match n {
        NodeView::Text(t) => t,
        NodeView::Tag(t) => ser_tag(t),
    }
}

/// The serialization of an element: open tag with attributes, body, close
/// tag. In an `smc` element's body every placeholder NUL is replaced by the
/// decimal child count.
pub open spec fn ser_tag(t: TagView) -> Seq<u8>
    decreases t,
{
    let name = render_name(t);
    let body = if t.tag_name == ascii_seq("smc"@) {
        replace_all(ser_children(t.children), seq![0u8], dec_digits(t.children.len()))
    } else {
        ser_children(t.children)
    };
    seq![60u8] + name + ser_props(t.properties) + seq![62u8] + body + seq![60u8, 47u8] + name + seq![62u8]
}

/// The serializations of a sequence of nodes, concatenated in order.
pub open spec fn ser_children(s: Seq<NodeView>) -> Seq<u8>
    decreases s,
{
    if s.len() == 0 {
        Seq::empty()
    } else {
        ser_node(s[0]) + ser_children(s.subrange(1, s.len() as int))
    }
}

/// One serialized attribute: ` name="value"`.
pub open spec fn ser_prop(p: (Seq<u8>, Seq<u8>)) -> Seq<u8> {
    seq![32u8] + p.0 + seq![61u8, 34u8] + p.1 + seq![34u8]
}

/// The serialized attribute list, in list order.
pub open spec fn ser_props(ps: Seq<(Seq<u8>, Seq<u8>)>) -> Seq<u8>
    decreases ps,
{
    if ps.len() == 0 {
        Seq::empty()
    } else {
        ser_prop(ps[0]) + ser_props(ps.subrange(1, ps.len() as int))
    }
}

/// Serialization of children distributes over concatenation.
pub proof fn lemma_ser_children_append(a: Seq<NodeView>, b: Seq<NodeView>)
    ensures
        ser_children(a + b) == ser_children(a) + ser_children(b),
    decreases a.len(),
{
    if a.len() == 0 {
        assert(a + b =~= b);
        assert(ser_children(a) + ser_children(b) =~= ser_children(b));
    } else {
        assert((a + b)[0] == a[0]);
        assert((a + b).subrange(1, (a + b).len() as int) =~= a.subrange(1, a.len() as int) + b);
        lemma_ser_children_append(a.subrange(1, a.len() as int), b);
        assert(ser_node(a[0]) + (ser_children(a.subrange(1, a.len() as int)) + ser_children(b))
            =~= (ser_node(a[0]) + ser_children(a.subrange(1, a.len() as int))) + ser_children(b));
    }
}

/// Serialization of attributes distributes over concatenation.
pub proof fn lemma_ser_props_append(a: Seq<(Seq<u8>, Seq<u8>)>, b: Seq<(Seq<u8>, Seq<u8>)>)
    ensures
        ser_props(a + b) == ser_props(a) + ser_props(b),
    decreases a.len(),
{
    if a.len() == 0 {
        assert(a + b =~= b);
        assert(ser_props(a) + ser_props(b) =~= ser_props(b));
    } else {
        assert((a + b)[0] == a[0]);
        assert((a + b).subrange(1, (a + b).len() as int) =~= a.subrange(1, a.len() as int) + b);
        lemma_ser_props_append(a.subrange(1, a.len() as int), b);
        assert(ser_prop(a[0]) + (ser_props(a.subrange(1, a.len() as int)) + ser_props(b))
            =~= (ser_prop(a[0]) + ser_props(a.subrange(1, a.len() as int))) + ser_props(b));
    }
}

/// The decimal digits of `n`, most significant first.
pub fn dec_bytes(n: usize) -> (r: Vec<u8>)
    ensures
        r@ == dec_digits(n as nat),
    decreases n,
{
    if n < 10 {
        let mut v: Vec<u8> = Vec::new();
        v.push(48 + n as u8);
        proof {
            assert(v@ =~= dec_digits(n as nat));
        }
        v
    } else {
        let mut v = dec_bytes(n / 10);
        v.push(48 + (n % 10) as u8);
        proof {
            assert(v@ =~= dec_digits(n as nat));
        }
        v
    }
}

impl Node {
    /// Append this node's serialization to the sink.
    pub fn write(&self, stream: &mut Vec<u8>)
        ensures
            final(stream)@ == old(stream)@ + ser_node(self.deep_view()),
        decreases self,
    {
        match self {
            Node::Text(t) => {
                append_bytes(stream, t.as_slice());
            },
            Node::Tag(tag) => {
                tag.write(stream);
            },
        }
    }
}

impl Tag {
    /// Append this element's serialization to the sink.
    pub fn write(&self, stream: &mut Vec<u8>)
        ensures
            final(stream)@ == old(stream)@ + ser_tag(self.deep_view()),
        decreases self,
    {
        proof {
            reveal_strlit("smc");
            reveal_strlit("div");
        }
        let ghost dv = self.deep_view();
        let smc = ascii_bytes("smc");
        let is_smc = bytes_eq(self.tag_name.as_slice(), smc.as_slice());
        stream.push(60);
        if is_smc {
            let div = ascii_bytes("div");
            append_bytes(stream, div.as_slice());
        } else {
            append_bytes(stream, self.tag_name.as_slice());
        }
        proof {
            assert(stream@ =~= old(stream)@ + seq![60u8] + render_name(dv));
        }
        let ghost base_props = stream@;
        let mut i: usize = 0;
        proof {
            assert(dv.properties.subrange(0, 0) =~= Seq::<(Seq<u8>, Seq<u8>)>::empty());
        }
        while i < self.properties.len()
            invariant
                0 <= i <= self.properties@.len(),
                dv == self.deep_view(),
                dv.properties.len() == self.properties@.len(),
                stream@ == base_props + ser_props(dv.properties.subrange(0, i as int)),
            decreases self.properties@.len() - i,
        {
            let p = &self.properties[i];
            stream.push(32);
            append_bytes(stream, p.0.as_slice());
            stream.push(61);
            stream.push(34);
            append_bytes(stream, p.1.as_slice());
            stream.push(34);
            proof {
                reveal_with_fuel(ser_props, 2);
                assert(dv.properties.subrange(0, i + 1)
                    =~= dv.properties.subrange(0, i as int) + seq![dv.properties[i as int]]);
                lemma_ser_props_append(dv.properties.subrange(0, i as int), seq![dv.properties[i as int]]);
                assert(seq![dv.properties[i as int]].subrange(1, 1) =~= Seq::<(Seq<u8>, Seq<u8>)>::empty());
                assert(ser_prop(dv.properties[i as int]) + Seq::<u8>::empty() =~= ser_prop(dv.properties[i as int]));
                assert(ser_props(seq![dv.properties[i as int]])
                    =~= ser_prop(dv.properties[i as int]));
                assert(stream@ =~= base_props + ser_props(dv.properties.subrange(0, i + 1)));
            }
            i = i + 1;
        }
        proof {
            assert(dv.properties.subrange(0, dv.properties.len() as int) =~= dv.properties);
        }
        stream.push(62);
        let ghost base_body = stream@;
        if is_smc {
            let mut buf: Vec<u8> = Vec::new();
            let mut j: usize = 0;
            proof {
                lemma_deep_view_seq(self.children@);
                assert(dv.children.subrange(0, 0) =~= Seq::<NodeView>::empty());
            }
            while j < self.children.len()
                invariant
                    0 <= j <= self.children@.len(),
                    dv == self.deep_view(),
                    dv.children.len() == self.children@.len(),
                    buf@ == ser_children(dv.children.subrange(0, j as int)),
                decreases self.children@.len() - j,
            {
                proof {
                    lemma_deep_view_seq(self.children@);
                    assert(decreases_to!(self.children => self.children@));
                    assert(decreases_to!(self.children@ => self.children@[j as int]));
                }
                let child = &self.children[j];
                child.write(&mut buf);
                proof {
                    reveal_with_fuel(ser_children, 2);
                    lemma_deep_view_seq(self.children@);
                    assert(dv.children.subrange(0, j + 1)
                        =~= dv.children.subrange(0, j as int) + seq![dv.children[j as int]]);
                    lemma_ser_children_append(dv.children.subrange(0, j as int), seq![dv.children[j as int]]);
                    assert(seq![dv.children[j as int]].subrange(1, 1) =~= Seq::<NodeView>::empty());
                    assert(ser_node(dv.children[j as int]) + Seq::<u8>::empty() =~= ser_node(dv.children[j as int]));
                    assert(ser_children(seq![dv.children[j as int]]) =~= ser_node(dv.children[j as int]));
                    assert(buf@ =~= ser_children(dv.children.subrange(0, j + 1)));
                }
                j = j + 1;
            }
            proof {
                assert(dv.children.subrange(0, dv.children.len() as int) =~= dv.children);
            }
            let count = dec_bytes(self.children.len());
            let pat: Vec<u8> = vec![0u8];
            proof {
                assert(pat@ =~= seq![0u8]);
            }
            let rewritten = crate::style::replace_all_bytes(buf.as_slice(), pat.as_slice(), count.as_slice());
            append_bytes(stream, rewritten.as_slice());
        } else {
            let mut j: usize = 0;
            proof {
                lemma_deep_view_seq(self.children@);
                assert(dv.children.subrange(0, 0) =~= Seq::<NodeView>::empty());
            }
            while j < self.children.len()
                invariant
                    0 <= j <= self.children@.len(),
                    dv == self.deep_view(),
                    dv.children.len() == self.children@.len(),
                    stream@ == base_body + ser_children(dv.children.subrange(0, j as int)),
                decreases self.children@.len() - j,
            {
                proof {
                    lemma_deep_view_seq(self.children@);
                    assert(decreases_to!(self.children => self.children@));
                    assert(decreases_to!(self.children@ => self.children@[j as int]));
                }
                let child = &self.children[j];
                child.write(stream);
                proof {
                    reveal_with_fuel(ser_children, 2);
                    lemma_deep_view_seq(self.children@);
                    assert(dv.children.subrange(0, j + 1)
                        =~= dv.children.subrange(0, j as int) + seq![dv.children[j as int]]);
                    lemma_ser_children_append(dv.children.subrange(0, j as int), seq![dv.children[j as int]]);
                    assert(seq![dv.children[j as int]].subrange(1, 1) =~= Seq::<NodeView>::empty());
                    assert(ser_node(dv.children[j as int]) + Seq::<u8>::empty() =~= ser_node(dv.children[j as int]));
                    assert(ser_children(seq![dv.children[j as int]]) =~= ser_node(dv.children[j as int]));
                    assert(stream@ =~= base_body + ser_children(dv.children.subrange(0, j + 1)));
                }
                j = j + 1;
            }
            proof {
                assert(dv.children.subrange(0, dv.children.len() as int) =~= dv.children);
            }
        }
        stream.push(60);
        stream.push(47);
        if is_smc {
            let div = ascii_bytes("div");
            append_bytes(stream, div.as_slice());
        } else {
            append_bytes(stream, self.tag_name.as_slice());
        }
        stream.push(62);
        proof {
            assert(stream@ =~= old(stream)@ + ser_tag(dv));
        }
    }
}

} // verus!
