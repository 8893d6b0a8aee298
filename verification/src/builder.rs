//! The tree builder: drives the classifier line by line, maintains the
//! ancestor stack, invokes the macro table and the style directive processor,
//! and produces the final document tree.
//!
//! The mathematical model is a small-step interpreter over the classified
//! lines: [`BuildState`] holds the children already attached to the virtual
//! root, the stack of still-open elements (indentation strictly increasing
//! from bottom to top) and the substitution table; [`step_line`] is one line,
//! [`build_document`] the whole run.

use vstd::prelude::*;
use crate::classify::{classify, classify_line, LineClass, LineClassView};
use crate::node::{Node, NodeView, Tag, TagView, deep_view_seq, lemma_deep_view_seq, lemma_deep_view_seq_push};
use crate::style::{attr_append, directive_applies};
use crate::style::{substitute, table_insert, style_fragment, KeyTable, try_process_style_template};
use crate::template::{template_view, process_template};
use crate::text::{ascii_seq, find_byte, lemma_find_byte};

verus! {

/// A fatal structural error: the build aborts and no tree is returned.
#[derive(Clone, Copy, Debug, PartialEq, Eq, Structural)]
pub enum StructuralError {
    /// A property or directive line with no open element.
    RootPropertyNotAllowed,
    /// A directive line with no `:`.
    MissingColonInDirective,
    /// A text line resolving to root level.
    TextAtRoot,
    /// No top-level element at all.
    EmptyDocument,
}

/// One open element of the ancestor stack: the indentation of the line that
/// opened it, the index of that line, and the element built so far.
pub struct StackEntryView {
    pub indent: int,
    pub opened_at: int,
    pub tag: TagView,
}

/// The builder's state: the children already attached to the virtual root,
/// the open elements above the root (bottom to top), and the substitution
/// table.
pub struct BuildState {
    pub root_children: Seq<NodeView>,
    pub stack: Seq<StackEntryView>,
    pub keys: Seq<(Seq<u8>, Seq<u8>)>,
}

/// The state before any line: nothing attached, no open element, no keys.
pub open spec fn init_state() -> BuildState {
    BuildState { root_children: Seq::empty(), stack: Seq::empty(), keys: Seq::empty() }
}

/// Close the topmost open element: it becomes the last child of the element
/// below it (or of the virtual root).
pub open spec fn attach_top(st: BuildState) -> BuildState {
    if st.stack.len() == 0 {
        st
    } else {
        let e = st.stack.last();
        let rest = st.stack.drop_last();
        if rest.len() == 0 {
            BuildState { root_children: st.root_children.push(NodeView::Tag(e.tag)), stack: rest, ..st }
        } else {
            let p = rest.last();
            BuildState {
                stack: rest.drop_last().push(StackEntryView {
                    tag: TagView { children: p.tag.children.push(NodeView::Tag(e.tag)), ..p.tag },
                    ..p
                }),
                ..st
            }
        }
    }
}

/// Close every open element whose indentation is at least `indent`.
pub open spec fn pop_ge(st: BuildState, indent: int) -> BuildState
    decreases st.stack.len(),
{
    if st.stack.len() == 0 || st.stack.last().indent < indent {
        st
    } else {
        pop_ge(attach_top(st), indent)
    }
}

/// Replace the topmost open element.
pub open spec fn with_top_tag(st: BuildState, t: TagView) -> BuildState {
    let e = st.stack.last();
    BuildState { stack: st.stack.drop_last().push(StackEntryView { tag: t, ..e }), ..st }
}

/// Append a node to the children of the topmost open element, or to the
/// virtual root if none is open.
pub open spec fn push_child_top(st: BuildState, n: NodeView) -> BuildState {
    if st.stack.len() == 0 {
        BuildState { root_children: st.root_children.push(n), ..st }
    } else {
        let e = st.stack.last();
        with_top_tag(st, TagView { children: e.tag.children.push(n), ..e.tag })
    }
}

/// What one directive does to the target element and the table, over the
/// already-substituted value; `None` for a `Set` whose value holds no space,
/// the one input the processor cannot accept.
pub open spec fn apply_directive(
    name: Seq<u8>,
    sub: Seq<u8>,
    node0: TagView,
    keys0: Seq<(Seq<u8>, Seq<u8>)>,
) -> Option<(TagView, Seq<(Seq<u8>, Seq<u8>)>)> {
    if name == ascii_seq("Set"@) {
        match find_byte(sub, 32) {
            Some(i) => Some((node0, table_insert(keys0, sub.subrange(0, i), sub.subrange(i + 1, sub.len() as int)))),
            None => None,
        }
    } else {
        match style_fragment(name, sub) {
            Some(frag) => Some((
                TagView { properties: attr_append(node0.properties, ascii_seq("style"@), frag), ..node0 },
                keys0,
            )),
            None => Some((node0, keys0)),
        }
    }
}

/// [`directive_applies`] holds exactly of what [`apply_directive`] yields.
pub proof fn lemma_apply_directive(
    name: Seq<u8>,
    value: Seq<u8>,
    node0: TagView,
    node1: TagView,
    keys0: Seq<(Seq<u8>, Seq<u8>)>,
    keys1: Seq<(Seq<u8>, Seq<u8>)>,
)
    requires
        directive_applies(name, substitute(value, keys0), node0, node1, keys0, keys1),
    ensures
        apply_directive(name, substitute(value, keys0), node0, keys0) == Some((node1, keys1)),
{
}

/// The result of one build step.
pub enum BuildStep {
    /// The line was consumed; the build goes on in this state.
    Next(BuildState),
    /// A fatal structural error: the build aborts.
    Fatal(StructuralError),
    /// A `Set` directive whose substituted value holds no space: the one
    /// line the builder does not accept.
    Refused,
}

/// The result of a whole build.
pub enum BuildOutcome {
    /// The document: the first child of the virtual root.
    Done(NodeView),
    /// A fatal structural error.
    Fatal(StructuralError),
    /// The build hit a `Set` directive whose substituted value holds no
    /// space.
    Refused,
}

/// One line of the build: classify, then close, open, extend or mutate as
/// the classification says. `idx` is the line's index, recorded on the stack
/// entry an element-open line pushes.
pub open spec fn step_line(st: BuildState, line: Seq<u8>, idx: int) -> BuildStep {
    match classify(line) {
        LineClassView::Ignored => BuildStep::Next(st),
        LineClassView::MissingColon => BuildStep::Fatal(StructuralError::MissingColonInDirective),
        LineClassView::Directive { name, value } => {
            if st.stack.len() == 0 {
                BuildStep::Fatal(StructuralError::RootPropertyNotAllowed)
            } else {
                match apply_directive(name, substitute(value, st.keys), st.stack.last().tag, st.keys) {
                    Some((t1, k1)) => BuildStep::Next(BuildState { keys: k1, ..with_top_tag(st, t1) }),
                    None => BuildStep::Refused,
                }
            }
        },
        LineClassView::ElementOpen { indent, name } => {
            let st1 = pop_ge(st, indent);
            BuildStep::Next(BuildState {
                stack: st1.stack.push(StackEntryView { indent, opened_at: idx, tag: template_view(name) }),
                ..st1
            })
        },
        LineClassView::Property { name, value } => {
            if st.stack.len() == 0 {
                BuildStep::Fatal(StructuralError::RootPropertyNotAllowed)
            } else {
                let e = st.stack.last();
                BuildStep::Next(with_top_tag(st, TagView {
                    properties: attr_append(e.tag.properties, name, value),
                    ..e.tag
                }))
            }
        },
        LineClassView::Text { indent, content } => {
            let st1 = pop_ge(st, indent);
            if indent == 0 {
                BuildStep::Fatal(StructuralError::TextAtRoot)
            } else {
                BuildStep::Next(push_child_top(st1, NodeView::Text(content)))
            }
        },
    }
}

/// After the last line: close everything still open; the document is the
/// first child of the virtual root, and a childless root is the
/// empty-document error.
pub open spec fn finish(st: BuildState) -> BuildOutcome {
    let st1 = pop_ge(st, 0);
    if st1.root_children.len() == 0 {
        BuildOutcome::Fatal(StructuralError::EmptyDocument)
    } else {
        BuildOutcome::Done(st1.root_children[0])
    }
}

/// Run the build from line `i` onward.
pub open spec fn build_from(st: BuildState, lines: Seq<Seq<u8>>, i: int) -> BuildOutcome
    decreases lines.len() - i,
{
    if i < 0 || i >= lines.len() {
        finish(st)
    } else {
        match step_line(st, lines[i], i) {
            BuildStep::Next(st1) => build_from(st1, lines, i + 1),
            BuildStep::Fatal(e) => BuildOutcome::Fatal(e),
            BuildStep::Refused => BuildOutcome::Refused,
        }
    }
}

/// The source split into lines at each line feed; a trailing line feed ends
/// the last line rather than opening an empty one.
pub open spec fn split_lines(s: Seq<u8>) -> Seq<Seq<u8>>
    decreases s.len(),
    via split_lines_decreases
{
    if s.len() == 0 {
        Seq::empty()
    } else {
        match find_byte(s, 10) {
            Some(i) => seq![s.subrange(0, i)] + split_lines(s.subrange(i + 1, s.len() as int)),
            None => seq![s],
        }
    }
}

#[via_fn]
proof fn split_lines_decreases(s: Seq<u8>) {
    lemma_find_byte(s, 10);
}

/// The outcome of building from a whole source text.
pub open spec fn build_document(src: Seq<u8>) -> BuildOutcome {
    build_from(init_state(), split_lines(src), 0)
}

/// The executable stack mirrors the model stack: same depth, and each entry's
/// indentation and element match.
pub open spec fn stack_rel(s: Seq<(usize, Tag)>, gs: Seq<StackEntryView>) -> bool {
    &&& gs.len() == s.len()
    &&& forall|k: int| 0 <= k < s.len() ==> (#[trigger] gs[k]).indent == s[k].0 as int && gs[k].tag == s[k].1.deep_view()
}

/// The executable builder state mirrors the model state: the virtual root's
/// children and the open-element stack match.
pub open spec fn tree_rel(root: Tag, s: Seq<(usize, Tag)>, g: BuildState) -> bool {
    &&& g.root_children == deep_view_seq(root.children@)
    &&& stack_rel(s, g.stack)
}

/// Close every open element whose indentation is at least `indent`,
/// attaching each to the element below it (or to the virtual root).
fn pop_to_indent(
    root: &mut Tag,
    stack: &mut Vec<(usize, Tag)>,
    indent: usize,
    g0: Ghost<BuildState>,
) -> (g1: Ghost<BuildState>)
    requires
        tree_rel(*old(root), old(stack)@, g0@),
    ensures
        g1@ == pop_ge(g0@, indent as int),
        tree_rel(*final(root), final(stack)@, g1@),
        g1@.keys == g0@.keys,
{
    let ghost mut g = g0@;
    loop
        invariant
            tree_rel(*root, stack@, g),
            g.keys == g0@.keys,
            pop_ge(g, indent as int) == pop_ge(g0@, indent as int),
        decreases stack@.len(),
    {
        let depth = stack.len();
        if depth == 0 {
            proof {
                assert(pop_ge(g, indent as int) == g);
            }
            return Ghost(g);
        }
        if stack[depth - 1].0 < indent {
            proof {
                assert(g.stack.last().indent == stack@[depth - 1].0 as int);
                assert(pop_ge(g, indent as int) == g);
            }
            return Ghost(g);
        }
        let e = match stack.pop() {
            Some(e) => e,
            None => vstd::pervasive::unreached(),
        };
        let (_closed_indent, closed) = e;
        let ghost closed_view = closed.deep_view();
        proof {
            assert(g.stack.last().tag == closed_view);
        }
        if stack.len() > 0 {
            let p = match stack.pop() {
                Some(p) => p,
                None => vstd::pervasive::unreached(),
            };
            let (parent_indent, mut parent) = p;
            let ghost pv = parent.deep_view();
            let ghost pch = parent.children@;
            parent.children.push(Node::Tag(closed));
            proof {
                lemma_deep_view_seq_push(pch, Node::Tag(closed));
                assert(parent.deep_view() == (TagView { children: pv.children.push(NodeView::Tag(closed_view)), ..pv }));
            }
            stack.push((parent_indent, parent));
            proof {
                let g_new = attach_top(g);
                assert(stack_rel(stack@, g_new.stack));
                assert(tree_rel(*root, stack@, g_new));
                g = g_new;
            }
        } else {
            let ghost rc = root.children@;
            root.children.push(Node::Tag(closed));
            proof {
                lemma_deep_view_seq_push(rc, Node::Tag(closed));
                let g_new = attach_top(g);
                assert(g_new.root_children == deep_view_seq(root.children@));
                assert(stack_rel(stack@, g_new.stack));
                g = g_new;
            }
        }
    }
}

/// Build the document tree from source text. The result is `Some` of the
/// document or of its fatal structural error; it is `None` exactly when the
/// build hits a `Set` directive whose substituted value holds no space, the
/// one line the builder does not accept.
pub fn try_read_kv(src: &[u8]) -> (r: Option<Result<Node, StructuralError>>)
    ensures
        match r {
            Some(res) => match res {
                Ok(node) => build_document(src@) == BuildOutcome::Done(node.deep_view()),
                Err(e) => build_document(src@) == BuildOutcome::Fatal(e),
            },
            None => build_document(src@) == BuildOutcome::Refused,
        },
{
    let ghost lines = split_lines(src@);
    let mut root = Tag { tag_name: Vec::new(), properties: Vec::new(), children: Vec::new() };
    let mut stack: Vec<(usize, Tag)> = Vec::new();
    let mut keys = KeyTable::new();
    let ghost mut g = init_state();
    let ghost mut li: int = 0;
    let mut pos: usize = 0;
    proof {
        assert(deep_view_seq(root.children@) =~= Seq::<NodeView>::empty());
        assert(tree_rel(root, stack@, g));
        assert(src@.subrange(0, src@.len() as int) =~= src@);
        assert(lines.subrange(0, lines.len() as int) =~= lines);
    }
    while pos < src.len()
        invariant
            0 <= pos <= src@.len(),
            0 <= li <= lines.len(),
            lines == split_lines(src@),
            split_lines(src@.subrange(pos as int, src@.len() as int)) == lines.subrange(li, lines.len() as int),
            tree_rel(root, stack@, g),
            g.keys == keys@,
            build_from(g, lines, li) == build_from(init_state(), lines, 0),
        decreases src@.len() - pos,
    {
        let ghost rest = src@.subrange(pos as int, src@.len() as int);
        let ghost st0 = g;
        let src_len = src.len();
        let (line_end, next_pos) = match crate::classify::find_byte_in_range(src, pos, src_len, 10) {
            Some(i) => (i, i + 1),
            None => (src_len, src_len),
        };
        let line = vstd::slice::slice_subrange(src, pos, line_end);
        proof {
            let tail = lines.subrange(li, lines.len() as int);
            assert(tail == split_lines(rest));
            assert(rest.len() > 0);
            match find_byte(rest, 10) {
                Some(k) => {
                    assert(line_end - pos == k);
                    assert(rest.subrange(0, k) =~= src@.subrange(pos as int, line_end as int));
                    assert(rest.subrange(k + 1, rest.len() as int)
                        =~= src@.subrange(next_pos as int, src@.len() as int));
                    assert(tail == seq![line@] + split_lines(src@.subrange(next_pos as int, src@.len() as int)));
                    assert(tail[0] == line@);
                    assert(tail.subrange(1, tail.len() as int)
                        =~= split_lines(src@.subrange(next_pos as int, src@.len() as int)));
                },
                None => {
                    assert(line@ =~= rest);
                    assert(tail == seq![line@]);
                    assert(tail[0] == line@);
                    assert(src@.subrange(next_pos as int, src@.len() as int) =~= Seq::<u8>::empty());
                    assert(split_lines(Seq::<u8>::empty()) =~= Seq::<Seq<u8>>::empty());
                    assert(tail.subrange(1, tail.len() as int)
                        =~= split_lines(src@.subrange(next_pos as int, src@.len() as int)));
                },
            }
            assert(lines[li] == line@);
            assert(lines.subrange(li + 1, lines.len() as int)
                =~= lines.subrange(li, lines.len() as int).subrange(1, lines.subrange(li, lines.len() as int).len() as int));
            assert(split_lines(src@.subrange(next_pos as int, src@.len() as int))
                == lines.subrange(li + 1, lines.len() as int));
        }
        let cls = classify_line(line);
        proof {
            assert(classify(lines[li]) == cls.deep_view());
        }
        match cls {
            LineClass::Ignored => {
                proof {
                    assert(step_line(g, lines[li], li) == BuildStep::Next(g));
                    li = li + 1;
                }
            },
            LineClass::MissingColon => {
                proof {
                    assert(step_line(g, lines[li], li)
                        == BuildStep::Fatal(StructuralError::MissingColonInDirective));
                }
                return Some(Err(StructuralError::MissingColonInDirective));
            },
            LineClass::Directive { name, value } => {
                if stack.len() == 0 {
                    proof {
                        assert(g.stack.len() == 0);
                        assert(step_line(g, lines[li], li)
                            == BuildStep::Fatal(StructuralError::RootPropertyNotAllowed));
                    }
                    return Some(Err(StructuralError::RootPropertyNotAllowed));
                }
                let top = match stack.pop() {
                    Some(t) => t,
                    None => vstd::pervasive::unreached(),
                };
                let (top_indent, mut top_tag) = top;
                let ghost node0 = top_tag.deep_view();
                let ghost keys0 = keys@;
                proof {
                    assert(g.stack.last().tag == node0);
                }
                let ok = try_process_style_template(name.as_slice(), value.as_slice(), &mut top_tag, &mut keys);
                let ghost node1 = top_tag.deep_view();
                stack.push((top_indent, top_tag));
                if !ok {
                    proof {
                        assert(apply_directive(name@, substitute(value@, keys0), node0, keys0) is None);
                        assert(step_line(g, lines[li], li) == BuildStep::Refused);
                    }
                    return None;
                }
                proof {
                    lemma_apply_directive(name@, value@, node0, node1, keys0, keys@);
                    let g_new = BuildState { keys: keys@, ..with_top_tag(g, node1) };
                    assert(step_line(g, lines[li], li) == BuildStep::Next(g_new));
                    assert(stack_rel(stack@, g_new.stack));
                    g = g_new;
                    li = li + 1;
                }
            },
            LineClass::ElementOpen { indent, name } => {
                let ghost name_view = name@;
                let g1 = pop_to_indent(&mut root, &mut stack, indent, Ghost(g));
                proof {
                    g = g1@;
                }
                let tag = process_template(name);
                let ghost tv = tag.deep_view();
                stack.push((indent, tag));
                proof {
                    let g_new = BuildState {
                        stack: g.stack.push(StackEntryView { indent: indent as int, opened_at: li, tag: tv }),
                        ..g
                    };
                    assert(step_line(st0, lines[li], li) == BuildStep::Next(g_new));
                    assert(stack_rel(stack@, g_new.stack));
                    g = g_new;
                    li = li + 1;
                }
            },
            LineClass::Property { name, value } => {
                if stack.len() == 0 {
                    proof {
                        assert(g.stack.len() == 0);
                        assert(step_line(g, lines[li], li)
                            == BuildStep::Fatal(StructuralError::RootPropertyNotAllowed));
                    }
                    return Some(Err(StructuralError::RootPropertyNotAllowed));
                }
                let top = match stack.pop() {
                    Some(t) => t,
                    None => vstd::pervasive::unreached(),
                };
                let (top_indent, mut top_tag) = top;
                let ghost node0 = top_tag.deep_view();
                proof {
                    assert(g.stack.last().tag == node0);
                }
                top_tag.append_attr(name.as_slice(), value.as_slice());
                let ghost node1 = top_tag.deep_view();
                stack.push((top_indent, top_tag));
                proof {
                    let g_new = with_top_tag(g, node1);
                    assert(step_line(g, lines[li], li) == BuildStep::Next(g_new));
                    assert(stack_rel(stack@, g_new.stack));
                    g = g_new;
                    li = li + 1;
                }
            },
            LineClass::Text { indent, content } => {
                let g1 = pop_to_indent(&mut root, &mut stack, indent, Ghost(g));
                proof {
                    g = g1@;
                }
                if indent == 0 {
                    proof {
                        assert(step_line(st0, lines[li], li)
                            == BuildStep::Fatal(StructuralError::TextAtRoot));
                    }
                    return Some(Err(StructuralError::TextAtRoot));
                }
                let text_node = Node::Text(content);
                let ghost nv = text_node.deep_view();
                let ghost tn = text_node;
                if stack.len() > 0 {
                    let p = match stack.pop() {
                        Some(p) => p,
                        None => vstd::pervasive::unreached(),
                    };
                    let (parent_indent, mut parent) = p;
                    let ghost pv = parent.deep_view();
                    let ghost pch = parent.children@;
                    parent.children.push(text_node);
                    proof {
                        lemma_deep_view_seq_push(pch, tn);
                        assert(parent.deep_view() == (TagView { children: pv.children.push(nv), ..pv }));
                    }
                    stack.push((parent_indent, parent));
                } else {
                    let ghost rc = root.children@;
                    root.children.push(text_node);
                    proof {
                        lemma_deep_view_seq_push(rc, tn);
                    }
                }
                proof {
                    let g_new = push_child_top(g, nv);
                    assert(step_line(st0, lines[li], li) == BuildStep::Next(g_new));
                    assert(stack_rel(stack@, g_new.stack));
                    assert(tree_rel(root, stack@, g_new));
                    g = g_new;
                    li = li + 1;
                }
            },
        }
        pos = next_pos;
    }
    proof {
        assert(src@.subrange(pos as int, src@.len() as int) =~= Seq::<u8>::empty());
        assert(split_lines(Seq::<u8>::empty()) =~= Seq::<Seq<u8>>::empty());
        assert(lines.subrange(li, lines.len() as int).len() == 0);
        assert(li == lines.len());
        assert(build_from(g, lines, li) == finish(g));
    }
    let ghost gfin = g;
    let g2 = pop_to_indent(&mut root, &mut stack, 0, Ghost(g));
    proof {
        g = g2@;
        assert(g == pop_ge(gfin, 0));
    }
    if root.children.len() == 0 {
        proof {
            assert(g.root_children.len() == 0);
            assert(finish(gfin) == BuildOutcome::Fatal(StructuralError::EmptyDocument));
        }
        return Some(Err(StructuralError::EmptyDocument));
    }
    let ghost rc = root.children@;
    let first = root.children.remove(0);
    proof {
        lemma_deep_view_seq(rc);
        assert(first.deep_view() == deep_view_seq(rc)[0]);
        assert(finish(gfin) == BuildOutcome::Done(first.deep_view()));
    }
    Some(Ok(first))
}

/// Build the document tree from source text: either the complete document or
/// its fatal structural error.
///
/// A source whose build runs into a `Set` directive with no space in its
/// substituted value is refused by `requires`; [`try_read_kv`] is the total
/// variant that reports such a source as `None` instead.
pub fn read_kv(src: &[u8]) -> (r: Result<Node, StructuralError>)
    requires
        build_document(src@) != BuildOutcome::Refused,
    ensures
        match r {
            Ok(node) => build_document(src@) == BuildOutcome::Done(node.deep_view()),
            Err(e) => build_document(src@) == BuildOutcome::Fatal(e),
        },
{
    match try_read_kv(src) {
        Some(res) => res,
        None => vstd::pervasive::unreached(),
    }
}

} // verus!
