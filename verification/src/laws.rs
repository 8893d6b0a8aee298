//! Laws of the library, stated and proved over the same spec functions that
//! the executable functions' contracts use.

use vstd::prelude::*;
use crate::builder::{
    attach_top, init_state, pop_ge, step_line, BuildOutcome, BuildState, BuildStep, StackEntryView,
};
use crate::classify::{classify, LineClassView};
use crate::node::{NodeView, TagView};
use crate::serialize::{ser_tag, ser_node, ser_children, ser_props, dec_digits, render_name};
use crate::style::{
    replace_all, substitute, table_insert, attr_append, find_pair, lookup_pair, lemma_find_pair_first,
};
use crate::template::template_view;
use crate::text::{ascii_seq, is_space, trim_end, trim_start};

verus! {

/// A key registered by a `Set` directive substitutes into every directive
/// value processed afterwards: with the table empty before the `Set`, a later
/// value `v` is rewritten to `replace_all(v, a, b)`; a value processed before
/// the `Set`, against the then-empty table, is unchanged.
pub proof fn lemma_set_then_substitute(a: Seq<u8>, b: Seq<u8>, v: Seq<u8>)
    ensures
        substitute(v, Seq::empty()) == v,
        table_insert(Seq::empty(), a, b) == seq![(a, b)],
        substitute(v, table_insert(Seq::empty(), a, b)) == replace_all(v, a, b),
{
    let t = table_insert(Seq::<(Seq<u8>, Seq<u8>)>::empty(), a, b);
    assert(t =~= seq![(a, b)]);
    assert(t.subrange(1, 1) =~= Seq::<(Seq<u8>, Seq<u8>)>::empty());
    assert(substitute(replace_all(v, a, b), t.subrange(1, 1)) == replace_all(v, a, b));
}

/// A pushed key is found at the end when it was absent before.
proof fn lemma_find_pair_push_absent(ps: Seq<(Seq<u8>, Seq<u8>)>, k: Seq<u8>, v: Seq<u8>)
    requires
        find_pair(ps, k) == None::<int>,
    ensures
        find_pair(ps.push((k, v)), k) == Some(ps.len() as int),
    decreases ps.len(),
{
    lemma_find_pair_first(ps, k);
    if ps.len() == 0 {
        assert(ps.push((k, v))[0].0 == k);
    } else {
        let t = ps.subrange(1, ps.len() as int);
        lemma_find_pair_first(t, k);
        assert(forall|j: int| 0 <= j < t.len() ==> t[j] == ps[j + 1]);
        assert(find_pair(t, k) == None::<int>) by {
            lemma_find_pair_first(t, k);
            if find_pair(t, k) is Some {
                let i = find_pair(t, k)->Some_0;
                assert(ps[i + 1].0 == k);
            }
        }
        lemma_find_pair_push_absent(t, k, v);
        assert(ps.push((k, v)).subrange(1, ps.len() as int + 1) =~= t.push((k, v)));
    }
}

/// Two property lines `k: v1` and `k: v2` on one element produce the single
/// attribute `k` with value `v1 + v2`: the second line appends to the first,
/// with no separator.
pub proof fn lemma_property_append_twice(
    ps: Seq<(Seq<u8>, Seq<u8>)>,
    k: Seq<u8>,
    v1: Seq<u8>,
    v2: Seq<u8>,
)
    requires
        find_pair(ps, k) == None::<int>,
    ensures
        lookup_pair(attr_append(attr_append(ps, k, v1), k, v2), k) == Some(v1 + v2),
{
    let ps1 = attr_append(ps, k, v1);
    assert(ps1 == ps.push((k, v1)));
    lemma_find_pair_push_absent(ps, k, v1);
    let i = ps.len() as int;
    let ps2 = attr_append(ps1, k, v2);
    assert(ps2 == ps1.update(i, (k, v1 + v2)));
    lemma_find_pair_first(ps2, k);
    lemma_find_pair_first(ps1, k);
    assert(ps2[i].0 == k);
    assert(forall|j: int| 0 <= j < i ==> ps2[j] == ps1[j]);
    assert(find_pair(ps2, k) == Some(i));
}

/// `n` concatenated copies of `s`.
pub open spec fn repeat_bytes(s: Seq<u8>, n: nat) -> Seq<u8>
    decreases n,
{
    if n == 0 {
        Seq::empty()
    } else {
        s + repeat_bytes(s, (n - 1) as nat)
    }
}

/// Replacement of a single byte distributes over concatenation.
pub proof fn lemma_replace_single_append(a: Seq<u8>, b: Seq<u8>, pat: Seq<u8>, rep: Seq<u8>)
    requires
        pat.len() == 1,
    ensures
        replace_all(a + b, pat, rep) == replace_all(a, pat, rep) + replace_all(b, pat, rep),
    decreases a.len(),
{
    if a.len() == 0 {
        assert(a + b =~= b);
        assert(replace_all(a, pat, rep) + replace_all(b, pat, rep) =~= replace_all(b, pat, rep));
    } else {
        let ab = a + b;
        assert(ab.subrange(1, ab.len() as int) =~= a.subrange(1, a.len() as int) + b);
        lemma_replace_single_append(a.subrange(1, a.len() as int), b, pat, rep);
        if ab.subrange(0, 1) == pat {
            assert(a.subrange(0, 1) =~= ab.subrange(0, 1));
            assert(rep + (replace_all(a.subrange(1, a.len() as int), pat, rep) + replace_all(b, pat, rep))
                =~= (rep + replace_all(a.subrange(1, a.len() as int), pat, rep)) + replace_all(b, pat, rep));
        } else {
            assert(a.subrange(0, 1) =~= ab.subrange(0, 1));
            assert(ab[0] == a[0]);
            assert(seq![a[0]] + (replace_all(a.subrange(1, a.len() as int), pat, rep) + replace_all(b, pat, rep))
                =~= (seq![a[0]] + replace_all(a.subrange(1, a.len() as int), pat, rep)) + replace_all(b, pat, rep));
        }
    }
}

/// Replacement of a single byte distributes over repetition.
pub proof fn lemma_replace_repeat(s: Seq<u8>, n: nat, pat: Seq<u8>, rep: Seq<u8>)
    requires
        pat.len() == 1,
    ensures
        replace_all(repeat_bytes(s, n), pat, rep) == repeat_bytes(replace_all(s, pat, rep), n),
    decreases n,
{
    if n == 0 {
        assert(repeat_bytes(s, 0) =~= Seq::<u8>::empty());
    } else {
        lemma_replace_repeat(s, (n - 1) as nat, pat, rep);
        lemma_replace_single_append(s, repeat_bytes(s, (n - 1) as nat), pat, rep);
    }
}

/// The serialization of `n` identical children is `n` copies of the child's
/// serialization.
pub proof fn lemma_ser_children_uniform(c: NodeView, n: nat)
    ensures
        ser_children(Seq::new(n, |i: int| c)) == repeat_bytes(ser_node(c), n),
    decreases n,
{
    let s = Seq::new(n, |i: int| c);
    if n == 0 {
        assert(s.len() == 0);
    } else {
        assert(s.subrange(1, s.len() as int) =~= Seq::new((n - 1) as nat, |i: int| c));
        lemma_ser_children_uniform(c, (n - 1) as nat);
    }
}

/// An `smc` element whose children are exactly `n` `!Column` skeletons
/// renders as a `div` whose body is `n` identical copies of the column
/// markup, each with its width placeholder replaced by the decimal digits of
/// `n` -- the same digits in every column.
pub proof fn lemma_smart_columns_render(t: TagView, n: nat)
    requires
        t.tag_name == ascii_seq("smc"@),
        t.children == Seq::new(n, |i: int| NodeView::Tag(template_view(ascii_seq("!Column"@)))),
    ensures
        ser_tag(t) == seq![60u8] + ascii_seq("div"@) + ser_props(t.properties) + seq![62u8]
            + repeat_bytes(
                replace_all(ser_tag(template_view(ascii_seq("!Column"@))), seq![0u8], dec_digits(n)),
                n,
            )
            + seq![60u8, 47u8] + ascii_seq("div"@) + seq![62u8],
{
    let col = NodeView::Tag(template_view(ascii_seq("!Column"@)));
    assert(t.children.len() == n);
    lemma_ser_children_uniform(col, n);
    lemma_replace_repeat(ser_node(col), n, seq![0u8], dec_digits(n));
    assert(render_name(t) == ascii_seq("div"@));
}

/// Every byte of the decimal digits of `n` is a digit; in particular none is
/// the placeholder NUL.
pub proof fn lemma_dec_digits_no_nul(n: nat)
    ensures
        forall|i: int| 0 <= i < dec_digits(n).len() ==> 48 <= #[trigger] dec_digits(n)[i] <= 57,
    decreases n,
{
    if n >= 10 {
        lemma_dec_digits_no_nul(n / 10);
        assert(forall|i: int| 0 <= i < dec_digits(n / 10).len()
            ==> dec_digits(n)[i] == dec_digits(n / 10)[i]);
    }
}

/// After replacement, no occurrence of a single-byte pattern remains, as long
/// as the replacement itself is free of it.
pub proof fn lemma_replace_removes_pattern(s: Seq<u8>, pat: Seq<u8>, rep: Seq<u8>)
    requires
        pat.len() == 1,
        forall|i: int| 0 <= i < rep.len() ==> rep[i] != pat[0],
    ensures
        forall|i: int| 0 <= i < replace_all(s, pat, rep).len() ==> #[trigger] replace_all(s, pat, rep)[i] != pat[0],
    decreases s.len(),
{
    if s.len() > 0 {
        let tail = s.subrange(1, s.len() as int);
        let rr = replace_all(tail, pat, rep);
        let r = replace_all(s, pat, rep);
        lemma_replace_removes_pattern(tail, pat, rep);
        if s.subrange(0, 1) == pat {
            assert(r == rep + rr);
            assert forall|i: int| 0 <= i < r.len() implies #[trigger] r[i] != pat[0] by {
                if i < rep.len() {
                    assert(r[i] == rep[i]);
                } else {
                    assert(r[i] == rr[i - rep.len()]);
                }
            }
        } else {
            assert(s[0] != pat[0]) by {
                assert(s.subrange(0, 1)[0] == s[0]);
                assert(s.subrange(0, 1).len() == pat.len());
                if s[0] == pat[0] {
                    assert(s.subrange(0, 1) =~= pat);
                }
            }
            assert(r == seq![s[0]] + rr);
            assert forall|i: int| 0 <= i < r.len() implies #[trigger] r[i] != pat[0] by {
                if i == 0 {
                    assert(r[i] == s[0]);
                } else {
                    assert(r[i] == rr[i - 1]);
                }
            }
        }
    }
}

/// A line that opens an element.
pub open spec fn is_opener(c: LineClassView) -> bool {
    c is ElementOpen
}

/// A line that closes elements of greater-or-equal indentation: an
/// element-open or a text line.
pub open spec fn is_closer(c: LineClassView) -> bool {
    c is ElementOpen || c is Text
}

/// The indentation of an element-open or text line.
pub open spec fn structural_indent(c: LineClassView) -> int {
    match c {
        LineClassView::ElementOpen { indent, .. } => indent,
        LineClassView::Text { indent, .. } => indent,
        _ => 0,
    }
}

/// Line `k` opened an element that is still open when line `j` is reached:
/// no element-open or text line between them has smaller-or-equal
/// indentation.
pub open spec fn open_at(lines: Seq<Seq<u8>>, k: int, j: int) -> bool {
    &&& 0 <= k < j
    &&& is_opener(classify(lines[k]))
    &&& forall|l: int|
        k < l < j && is_closer(#[trigger] classify(lines[l]))
            ==> structural_indent(classify(lines[l])) > structural_indent(classify(lines[k]))
}

/// The builder's state after the first `j` lines, `None` once a step has
/// failed or was refused.
pub open spec fn state_at(lines: Seq<Seq<u8>>, j: int) -> Option<BuildState>
    decreases j,
{
    if j <= 0 {
        Some(init_state())
    } else {
        match state_at(lines, j - 1) {
            Some(st) => match step_line(st, lines[j - 1], j - 1) {
                BuildStep::Next(s) => Some(s),
                _ => None,
            },
            None => None,
        }
    }
}

/// The stack mirrors the open lines: every entry was opened by an
/// element-open line that is still open, entries are ordered both by opening
/// line and by indentation, and every still-open line has its entry.
pub open spec fn stack_tracks_lines(lines: Seq<Seq<u8>>, j: int, st: BuildState) -> bool {
    &&& forall|m: int| 0 <= m < st.stack.len() ==> {
        let e = #[trigger] st.stack[m];
        &&& 0 <= e.opened_at < j
        &&& is_opener(classify(lines[e.opened_at]))
        &&& e.indent == structural_indent(classify(lines[e.opened_at]))
        &&& open_at(lines, e.opened_at, j)
    }
    &&& forall|m1: int, m2: int|
        0 <= m1 < m2 < st.stack.len()
            ==> (#[trigger] st.stack[m1]).opened_at < (#[trigger] st.stack[m2]).opened_at
                && st.stack[m1].indent < st.stack[m2].indent
    &&& forall|k: int|
        #[trigger] open_at(lines, k, j)
            ==> exists|m: int| 0 <= m < st.stack.len() && (#[trigger] st.stack[m]).opened_at == k
}

/// Closing elements down to an indentation removes exactly a suffix of
/// entries of greater-or-equal indentation and keeps the rest, with their
/// indentation and opening line unchanged.
pub proof fn lemma_pop_ge_shape(st: BuildState, d: int)
    ensures
        pop_ge(st, d).stack.len() <= st.stack.len(),
        forall|i: int| 0 <= i < pop_ge(st, d).stack.len()
            ==> (#[trigger] pop_ge(st, d).stack[i]).indent == st.stack[i].indent
                && pop_ge(st, d).stack[i].opened_at == st.stack[i].opened_at,
        forall|i: int| pop_ge(st, d).stack.len() <= i < st.stack.len()
            ==> (#[trigger] st.stack[i]).indent >= d,
        pop_ge(st, d).stack.len() > 0
            ==> pop_ge(st, d).stack[pop_ge(st, d).stack.len() - 1].indent < d,
    decreases st.stack.len(),
{
    if st.stack.len() == 0 || st.stack.last().indent < d {
    } else {
        let st1 = attach_top(st);
        assert(st1.stack.len() == st.stack.len() - 1);
        assert(forall|i: int| 0 <= i < st1.stack.len()
            ==> (#[trigger] st1.stack[i]).indent == st.stack[i].indent
                && st1.stack[i].opened_at == st.stack[i].opened_at);
        lemma_pop_ge_shape(st1, d);
        assert(pop_ge(st, d) == pop_ge(st1, d));
        assert forall|i: int| pop_ge(st, d).stack.len() <= i < st.stack.len()
            implies (#[trigger] st.stack[i]).indent >= d by {
            if i == st.stack.len() - 1 {
                assert(st.stack.last().indent >= d);
            } else {
                assert(st1.stack[i].indent >= d);
            }
        }
    }
}

/// One accepted build step carries the stack tracking invariant from line
/// `j` to line `j + 1`.
proof fn lemma_step_preserves_tracking(
    lines: Seq<Seq<u8>>,
    j: int,
    st: BuildState,
    st_next: BuildState,
)
    requires
        0 <= j < lines.len(),
        stack_tracks_lines(lines, j, st),
        step_line(st, lines[j], j) == BuildStep::Next(st_next),
    ensures
        stack_tracks_lines(lines, j + 1, st_next),
{
    let c = classify(lines[j]);
    if !is_closer(c) {
        // an ignored, directive or property line leaves the stack's shape
        // unchanged: at most the top element's content is replaced
        assert(st_next.stack.len() == st.stack.len());
        assert(forall|m: int| 0 <= m < st_next.stack.len()
            ==> (#[trigger] st_next.stack[m]).opened_at == st.stack[m].opened_at
                && st_next.stack[m].indent == st.stack[m].indent);
        assert forall|m: int| 0 <= m < st_next.stack.len() implies {
            let e = #[trigger] st_next.stack[m];
            &&& 0 <= e.opened_at < j + 1
            &&& is_opener(classify(lines[e.opened_at]))
            &&& e.indent == structural_indent(classify(lines[e.opened_at]))
            &&& open_at(lines, e.opened_at, j + 1)
        } by {
            let k = st.stack[m].opened_at;
            assert(open_at(lines, k, j));
            assert forall|l: int| k < l < j + 1 && is_closer(#[trigger] classify(lines[l]))
                implies structural_indent(classify(lines[l])) > structural_indent(classify(lines[k])) by {
                assert(l < j);
            }
        }
        assert forall|k: int| #[trigger] open_at(lines, k, j + 1)
            implies exists|m: int| 0 <= m < st_next.stack.len()
                && (#[trigger] st_next.stack[m]).opened_at == k by {
            assert(!is_opener(c));
            assert(k < j);
            assert(open_at(lines, k, j));
            let m = choose|m: int| 0 <= m < st.stack.len() && (#[trigger] st.stack[m]).opened_at == k;
            assert(st_next.stack[m].opened_at == k);
        }
    } else {
        let d = structural_indent(c);
        let st1 = pop_ge(st, d);
        lemma_pop_ge_shape(st, d);
        let rlen = st1.stack.len() as int;
        // every kept entry's indentation is below `d`
        assert forall|m: int| 0 <= m < rlen implies (#[trigger] st1.stack[m]).indent < d by {
            if m < rlen - 1 {
                assert(st.stack[m].indent < st.stack[rlen - 1].indent);
            }
            assert(st1.stack[rlen - 1].indent < d);
        }
        // the kept entries are still open at `j + 1`, and the stack after the
        // step consists of them (plus, for an element-open line, one new
        // entry opened at `j` with indentation `d`)
        let pushes = c is ElementOpen;
        assert(st_next.stack.len() == if pushes { rlen + 1 } else { rlen });
        assert(forall|m: int| 0 <= m < rlen
            ==> (#[trigger] st_next.stack[m]).opened_at == st.stack[m].opened_at
                && st_next.stack[m].indent == st.stack[m].indent);
        if pushes {
            assert(st_next.stack[rlen].opened_at == j);
            assert(st_next.stack[rlen].indent == d);
        }
        assert forall|m: int| 0 <= m < st_next.stack.len() implies {
            let e = #[trigger] st_next.stack[m];
            &&& 0 <= e.opened_at < j + 1
            &&& is_opener(classify(lines[e.opened_at]))
            &&& e.indent == structural_indent(classify(lines[e.opened_at]))
            &&& open_at(lines, e.opened_at, j + 1)
        } by {
            if m < rlen {
                let k = st.stack[m].opened_at;
                assert(open_at(lines, k, j));
                assert(st.stack[m].indent == structural_indent(classify(lines[k])));
                assert(st.stack[m].indent < d);
                assert forall|l: int| k < l < j + 1 && is_closer(#[trigger] classify(lines[l]))
                    implies structural_indent(classify(lines[l])) > structural_indent(classify(lines[k])) by {
                    if l == j {
                        assert(structural_indent(c) == d);
                    }
                }
            } else {
                assert(open_at(lines, j, j + 1));
            }
        }
        // ordering: the new entry, if any, is later and deeper than every
        // kept one
        assert forall|m1: int, m2: int| 0 <= m1 < m2 < st_next.stack.len()
            implies (#[trigger] st_next.stack[m1]).opened_at < (#[trigger] st_next.stack[m2]).opened_at
                && st_next.stack[m1].indent < st_next.stack[m2].indent by {
            if m2 < rlen {
                assert(st.stack[m1].opened_at < st.stack[m2].opened_at);
                assert(st.stack[m1].indent < st.stack[m2].indent);
            } else {
                assert(st.stack[m1].opened_at < j);
                assert(st1.stack[m1].indent < d);
            }
        }
        // completeness: a line still open at `j + 1` is on the stack
        assert forall|k: int| #[trigger] open_at(lines, k, j + 1)
            implies exists|m: int| 0 <= m < st_next.stack.len()
                && (#[trigger] st_next.stack[m]).opened_at == k by {
            if k == j {
                assert(is_opener(c));
                assert(st_next.stack[rlen].opened_at == j);
            } else {
                assert(open_at(lines, k, j));
                let m = choose|m: int| 0 <= m < st.stack.len() && (#[trigger] st.stack[m]).opened_at == k;
                // line `j` closes at indentation `d`, so `k` survives only
                // below it, on the kept prefix
                assert(structural_indent(classify(lines[k])) < d);
                assert(st.stack[m].indent < d);
                assert(m < rlen);
                assert(st_next.stack[m].opened_at == k);
            }
        }
    }
}

/// The builder's stack tracks the open lines at every step of an accepted
/// build.
pub proof fn lemma_state_at_tracks(lines: Seq<Seq<u8>>, j: int)
    requires
        0 <= j,
        state_at(lines, j) is Some,
        j <= lines.len(),
    ensures
        stack_tracks_lines(lines, j, state_at(lines, j)->Some_0),
    decreases j,
{
    if j == 0 {
        let st = init_state();
        assert forall|k: int| #[trigger] open_at(lines, k, 0)
            implies exists|m: int| 0 <= m < st.stack.len() && (#[trigger] st.stack[m]).opened_at == k by {
            assert(k < 0);
        }
    } else {
        lemma_state_at_tracks(lines, j - 1);
        let st = state_at(lines, j - 1)->Some_0;
        let st_next = state_at(lines, j)->Some_0;
        lemma_step_preserves_tracking(lines, j - 1, st, st_next);
    }
}

/// A build that has accepted its first `j` lines continues from the state
/// they produced.
pub proof fn lemma_build_from_state_at(lines: Seq<Seq<u8>>, j: int)
    requires
        0 <= j <= lines.len(),
        state_at(lines, j) is Some,
    ensures
        crate::builder::build_from(init_state(), lines, 0)
            == crate::builder::build_from(state_at(lines, j)->Some_0, lines, j),
    decreases j,
{
    if j > 0 {
        lemma_build_from_state_at(lines, j - 1);
    }
}

/// Input holding only comments and blank lines yields the empty-document
/// error.
pub proof fn lemma_only_ignored_is_empty_document(lines: Seq<Seq<u8>>)
    requires
        forall|l: int| 0 <= l < lines.len() ==> classify(#[trigger] lines[l]) is Ignored,
    ensures
        crate::builder::build_from(init_state(), lines, 0)
            == BuildOutcome::Fatal(crate::builder::StructuralError::EmptyDocument),
{
    assert forall|j: int| 0 <= j <= lines.len() implies state_at(lines, j) == Some(init_state()) by {
        lemma_state_at_stays_init(lines, j);
    }
    lemma_build_from_state_at(lines, lines.len() as int);
}

/// Over ignored lines the state never moves.
proof fn lemma_state_at_stays_init(lines: Seq<Seq<u8>>, j: int)
    requires
        0 <= j <= lines.len(),
        forall|l: int| 0 <= l < lines.len() ==> classify(#[trigger] lines[l]) is Ignored,
    ensures
        state_at(lines, j) == Some(init_state()),
    decreases j,
{
    if j > 0 {
        lemma_state_at_stays_init(lines, j - 1);
    }
}

/// A text line resolving to indentation zero is fatal: whenever the build
/// reaches such a line, the whole build yields `TextAtRoot`.
pub proof fn lemma_text_at_root_fatal(lines: Seq<Seq<u8>>, j: int)
    requires
        0 <= j < lines.len(),
        state_at(lines, j) is Some,
        classify(lines[j]) is Text,
        structural_indent(classify(lines[j])) == 0,
    ensures
        crate::builder::build_from(init_state(), lines, 0)
            == BuildOutcome::Fatal(crate::builder::StructuralError::TextAtRoot),
{
    lemma_build_from_state_at(lines, j);
}

/// Whether line `k` is the parent candidate for a structural line `j`: an
/// element-open line of strictly smaller indentation that no intervening
/// element-open or text line has closed.
pub open spec fn parent_candidate(lines: Seq<Seq<u8>>, j: int, k: int) -> bool {
    &&& open_at(lines, k, j)
    &&& structural_indent(classify(lines[k])) < structural_indent(classify(lines[j]))
}

/// The nearest preceding parent candidate of line `j`, scanning down from
/// line `k`.
pub open spec fn parent_line_from(lines: Seq<Seq<u8>>, j: int, k: int) -> Option<int>
    decreases k + 1,
{
    if k < 0 {
        None
    } else if parent_candidate(lines, j, k) {
        Some(k)
    } else {
        parent_line_from(lines, j, k - 1)
    }
}

/// The nearest preceding parent candidate of line `j`, if any.
pub open spec fn parent_line(lines: Seq<Seq<u8>>, j: int) -> Option<int> {
    parent_line_from(lines, j, j - 1)
}

/// Scanning down from `k` skips the non-candidates above `k0` and stops at a
/// candidate `k0`.
proof fn lemma_parent_line_from_finds(lines: Seq<Seq<u8>>, j: int, k: int, k0: int)
    requires
        0 <= k0 <= k,
        parent_candidate(lines, j, k0),
        forall|l: int| k0 < l <= k ==> !parent_candidate(lines, j, l),
    ensures
        parent_line_from(lines, j, k) == Some(k0),
    decreases k,
{
    if k > k0 {
        lemma_parent_line_from_finds(lines, j, k - 1, k0);
    }
}

/// Scanning down returns `None` when there is no candidate at all.
proof fn lemma_parent_line_from_none(lines: Seq<Seq<u8>>, j: int, k: int)
    requires
        forall|l: int| 0 <= l <= k ==> !parent_candidate(lines, j, l),
    ensures
        parent_line_from(lines, j, k) == None::<int>,
    decreases k + 1,
{
    if k >= 0 {
        lemma_parent_line_from_none(lines, j, k - 1);
    }
}

/// A line's parent in the tree is exactly the nearest preceding element-open
/// line whose indentation is strictly smaller and which was not closed by an
/// intervening element-open or text line of smaller-or-equal indentation.
///
/// Concretely: when the builder reaches a structural line `j` (element-open,
/// or text away from the root) in an accepted build, it attaches the line's
/// node to the element on top of the stack after closing down to line `j`'s
/// indentation (see `step_line`); this law states that that element is the
/// one opened by `parent_line(lines, j)`, and that the node goes to the
/// virtual root exactly when there is no such line.
pub proof fn lemma_parent_is_nearest_open(lines: Seq<Seq<u8>>, j: int)
    requires
        0 <= j < lines.len(),
        state_at(lines, j) is Some,
        is_closer(classify(lines[j])),
    ensures
        ({
            let st1 = pop_ge(state_at(lines, j)->Some_0, structural_indent(classify(lines[j])));
            match parent_line(lines, j) {
                Some(k) => st1.stack.len() > 0 && st1.stack.last().opened_at == k,
                None => st1.stack.len() == 0,
            }
        }),
{
    let st = state_at(lines, j)->Some_0;
    let d = structural_indent(classify(lines[j]));
    let st1 = pop_ge(st, d);
    lemma_state_at_tracks(lines, j);
    lemma_pop_ge_shape(st, d);
    let rlen = st1.stack.len() as int;
    if rlen > 0 {
        let k0 = st1.stack[rlen - 1].opened_at;
        assert(st.stack[rlen - 1].opened_at == k0);
        assert(parent_candidate(lines, j, k0)) by {
            assert(open_at(lines, k0, j));
            assert(st.stack[rlen - 1].indent == structural_indent(classify(lines[k0])));
            assert(st1.stack[rlen - 1].indent < d);
        }
        assert forall|l: int| k0 < l <= j - 1 implies !parent_candidate(lines, j, l) by {
            if parent_candidate(lines, j, l) {
                assert(open_at(lines, l, j));
                let m = choose|m: int| 0 <= m < st.stack.len() && (#[trigger] st.stack[m]).opened_at == l;
                assert(st.stack[m].indent == structural_indent(classify(lines[l])));
                assert(st.stack[m].indent < d);
                // entries at or above the cut were all removed for having
                // indentation at least `d`, so `l` sits on the kept prefix;
                // but every kept entry opened at or before `k0`
                assert(m < rlen);
                if m < rlen - 1 {
                    assert(st.stack[m].opened_at < st.stack[rlen - 1].opened_at);
                }
                assert(l <= k0);
            }
        }
        assert(0 <= k0 <= j - 1);
        lemma_parent_line_from_finds(lines, j, j - 1, k0);
    } else {
        assert forall|l: int| 0 <= l <= j - 1 implies !parent_candidate(lines, j, l) by {
            if parent_candidate(lines, j, l) {
                let m = choose|m: int| 0 <= m < st.stack.len() && (#[trigger] st.stack[m]).opened_at == l;
                assert(st.stack[m].indent == structural_indent(classify(lines[l])));
                assert(st.stack[m].indent >= d);
            }
        }
        lemma_parent_line_from_none(lines, j, j - 1);
    }
}

/// Stripping leading whitespace never lengthens a sequence.
proof fn lemma_trim_start_len(s: Seq<u8>)
    ensures
        trim_start(s).len() <= s.len(),
    decreases s.len(),
{
    if s.len() > 0 && is_space(s[0]) {
        lemma_trim_start_len(s.subrange(1, s.len() as int));
    }
}

/// An element-open or text line has nonnegative indentation.
proof fn lemma_structural_indent_nonneg(line: Seq<u8>)
    ensures
        structural_indent(classify(line)) >= 0,
{
    lemma_trim_start_len(trim_end(line));
}

/// A tag name or a text payload, as it appears in document order.
pub enum DocItem {
    TagName(Seq<u8>),
    Text(Seq<u8>),
}

/// The tag names and text payloads of a node, in document (preorder) order.
pub open spec fn node_items(n: NodeView) -> Seq<DocItem>
    decreases n,
{
    match n {
        NodeView::Text(t) => seq![DocItem::Text(t)],
        NodeView::Tag(t) => seq![DocItem::TagName(t.tag_name)] + children_items(t.children),
    }
}

/// The items of a sequence of nodes, concatenated in order.
pub open spec fn children_items(s: Seq<NodeView>) -> Seq<DocItem>
    decreases s,
{
    if s.len() == 0 {
        Seq::empty()
    } else {
        node_items(s[0]) + children_items(s.subrange(1, s.len() as int))
    }
}

/// The items of one open element: its own tag name, then the children built
/// so far.
pub open spec fn entry_items(e: StackEntryView) -> Seq<DocItem> {
    seq![DocItem::TagName(e.tag.tag_name)] + children_items(e.tag.children)
}

/// The items of the open stack, bottom to top.
pub open spec fn stack_items(s: Seq<StackEntryView>) -> Seq<DocItem>
    decreases s,
{
    if s.len() == 0 {
        Seq::empty()
    } else {
        entry_items(s[0]) + stack_items(s.subrange(1, s.len() as int))
    }
}

/// Every item placed so far, in document order: what hangs off the virtual
/// root, then each open element from the outermost in.
pub open spec fn partial_items(st: BuildState) -> Seq<DocItem> {
    children_items(st.root_children) + stack_items(st.stack)
}

/// The item contributed by one source line: a tag name, a text payload, or
/// nothing.
pub open spec fn line_item(line: Seq<u8>) -> Seq<DocItem> {
    match classify(line) {
        LineClassView::ElementOpen { name, .. } => seq![DocItem::TagName(name)],
        LineClassView::Text { content, .. } => seq![DocItem::Text(content)],
        _ => Seq::empty(),
    }
}

/// The items of the first `j` source lines, in order.
pub open spec fn line_items_upto(lines: Seq<Seq<u8>>, j: int) -> Seq<DocItem>
    decreases j,
{
    if j <= 0 {
        Seq::empty()
    } else {
        line_items_upto(lines, j - 1) + line_item(lines[j - 1])
    }
}

/// A line of macro-free, directive-free input: blank or comment, property,
/// text, or an element-open whose name expands to itself (no macro).
pub open spec fn plain_line(line: Seq<u8>) -> bool {
    match classify(line) {
        LineClassView::Ignored => true,
        LineClassView::Property { .. } => true,
        LineClassView::Text { .. } => true,
        LineClassView::ElementOpen { name, .. } => template_view(name) == (TagView {
            tag_name: name,
            properties: Seq::empty(),
            children: Seq::empty(),
        }),
        _ => false,
    }
}

/// Item extraction distributes over concatenation of children.
proof fn lemma_children_items_append(a: Seq<NodeView>, b: Seq<NodeView>)
    ensures
        children_items(a + b) == children_items(a) + children_items(b),
    decreases a.len(),
{
    if a.len() == 0 {
        assert(a + b =~= b);
        assert(children_items(a) + children_items(b) =~= children_items(b));
    } else {
        assert((a + b)[0] == a[0]);
        assert((a + b).subrange(1, (a + b).len() as int) =~= a.subrange(1, a.len() as int) + b);
        lemma_children_items_append(a.subrange(1, a.len() as int), b);
        assert(node_items(a[0]) + (children_items(a.subrange(1, a.len() as int)) + children_items(b))
            =~= (node_items(a[0]) + children_items(a.subrange(1, a.len() as int))) + children_items(b));
    }
}

/// Appending one node appends its items.
proof fn lemma_children_items_push(s: Seq<NodeView>, n: NodeView)
    ensures
        children_items(s.push(n)) == children_items(s) + node_items(n),
{
    assert(s.push(n) =~= s + seq![n]);
    lemma_children_items_append(s, seq![n]);
    assert(seq![n].subrange(1, 1) =~= Seq::<NodeView>::empty());
    assert(children_items(seq![n]) =~= node_items(n)) by {
        reveal_with_fuel(children_items, 2);
        assert(node_items(n) + Seq::<DocItem>::empty() =~= node_items(n));
    }
}

/// Item extraction distributes over concatenation of stacks.
proof fn lemma_stack_items_append(a: Seq<StackEntryView>, b: Seq<StackEntryView>)
    ensures
        stack_items(a + b) == stack_items(a) + stack_items(b),
    decreases a.len(),
{
    if a.len() == 0 {
        assert(a + b =~= b);
        assert(stack_items(a) + stack_items(b) =~= stack_items(b));
    } else {
        assert((a + b)[0] == a[0]);
        assert((a + b).subrange(1, (a + b).len() as int) =~= a.subrange(1, a.len() as int) + b);
        lemma_stack_items_append(a.subrange(1, a.len() as int), b);
        assert(entry_items(a[0]) + (stack_items(a.subrange(1, a.len() as int)) + stack_items(b))
            =~= (entry_items(a[0]) + stack_items(a.subrange(1, a.len() as int))) + stack_items(b));
    }
}

/// Pushing one entry appends its items.
proof fn lemma_stack_items_push(s: Seq<StackEntryView>, e: StackEntryView)
    ensures
        stack_items(s.push(e)) == stack_items(s) + entry_items(e),
{
    assert(s.push(e) =~= s + seq![e]);
    lemma_stack_items_append(s, seq![e]);
    assert(seq![e].subrange(1, 1) =~= Seq::<StackEntryView>::empty());
    assert(stack_items(seq![e]) =~= entry_items(e)) by {
        reveal_with_fuel(stack_items, 2);
        assert(entry_items(e) + Seq::<DocItem>::empty() =~= entry_items(e));
    }
}

/// Closing the top element moves its items, unchanged and in place, into its
/// parent.
proof fn lemma_attach_top_items(st: BuildState)
    ensures
        partial_items(attach_top(st)) == partial_items(st),
{
    if st.stack.len() == 0 {
    } else {
        let e = st.stack.last();
        let rest = st.stack.drop_last();
        assert(st.stack =~= rest.push(e));
        lemma_stack_items_push(rest, e);
        let closed = NodeView::Tag(e.tag);
        assert(node_items(closed) == entry_items(e));
        if rest.len() == 0 {
            lemma_children_items_push(st.root_children, closed);
            assert(partial_items(attach_top(st))
                =~= children_items(st.root_children) + (stack_items(rest) + entry_items(e)));
        } else {
            let p = rest.last();
            let rest2 = rest.drop_last();
            assert(rest =~= rest2.push(p));
            lemma_stack_items_push(rest2, p);
            let p_upd = StackEntryView {
                tag: TagView { children: p.tag.children.push(closed), ..p.tag },
                ..p
            };
            lemma_stack_items_push(rest2, p_upd);
            lemma_children_items_push(p.tag.children, closed);
            assert(entry_items(p_upd) =~= entry_items(p) + entry_items(e));
            assert(stack_items(rest2.push(p_upd))
                =~= (stack_items(rest2) + entry_items(p)) + entry_items(e));
            assert(partial_items(attach_top(st))
                =~= children_items(st.root_children) + ((stack_items(rest2) + entry_items(p)) + entry_items(e)));
            assert(partial_items(st)
                =~= children_items(st.root_children) + ((stack_items(rest2) + entry_items(p)) + entry_items(e)));
        }
    }
}

/// Closing elements down to an indentation moves items around but neither
/// adds, drops nor reorders them.
proof fn lemma_pop_ge_items(st: BuildState, d: int)
    ensures
        partial_items(pop_ge(st, d)) == partial_items(st),
    decreases st.stack.len(),
{
    if st.stack.len() == 0 || st.stack.last().indent < d {
    } else {
        lemma_attach_top_items(st);
        let st1 = attach_top(st);
        assert(st1.stack.len() == st.stack.len() - 1);
        lemma_pop_ge_items(st1, d);
    }
}

/// One accepted step of a plain line appends exactly that line's item.
proof fn lemma_plain_step_items(lines: Seq<Seq<u8>>, j: int, st: BuildState, st_next: BuildState)
    requires
        0 <= j < lines.len(),
        plain_line(lines[j]),
        step_line(st, lines[j], j) == BuildStep::Next(st_next),
    ensures
        partial_items(st_next) == partial_items(st) + line_item(lines[j]),
{
    let c = classify(lines[j]);
    match c {
        LineClassView::Ignored => {
            assert(partial_items(st) + line_item(lines[j]) =~= partial_items(st));
        },
        LineClassView::Property { name, value } => {
            let e = st.stack.last();
            let rest = st.stack.drop_last();
            assert(st.stack =~= rest.push(e));
            let e2 = StackEntryView {
                tag: TagView { properties: attr_append(e.tag.properties, name, value), ..e.tag },
                ..e
            };
            lemma_stack_items_push(rest, e);
            lemma_stack_items_push(rest, e2);
            assert(entry_items(e2) == entry_items(e));
            assert(partial_items(st_next) =~= partial_items(st));
            assert(partial_items(st) + line_item(lines[j]) =~= partial_items(st));
        },
        LineClassView::ElementOpen { indent, name } => {
            lemma_pop_ge_items(st, indent);
            let st1 = pop_ge(st, indent);
            let e = StackEntryView { indent, opened_at: j, tag: template_view(name) };
            lemma_stack_items_push(st1.stack, e);
            assert(entry_items(e) =~= seq![DocItem::TagName(name)]) by {
                assert(children_items(template_view(name).children) =~= Seq::<DocItem>::empty());
                assert(seq![DocItem::TagName(name)] + Seq::<DocItem>::empty() =~= seq![DocItem::TagName(name)]);
            }
            assert(partial_items(st_next)
                =~= (children_items(st1.root_children) + stack_items(st1.stack)) + seq![DocItem::TagName(name)]);
            assert(partial_items(st) + line_item(lines[j])
                =~= (children_items(st1.root_children) + stack_items(st1.stack)) + seq![DocItem::TagName(name)]);
        },
        LineClassView::Text { indent, content } => {
            lemma_pop_ge_items(st, indent);
            let st1 = pop_ge(st, indent);
            let n = NodeView::Text(content);
            assert(node_items(n) =~= seq![DocItem::Text(content)]);
            if st1.stack.len() == 0 {
                lemma_children_items_push(st1.root_children, n);
                assert(stack_items(st1.stack) =~= Seq::<DocItem>::empty());
                assert(partial_items(st_next)
                    =~= (children_items(st1.root_children) + stack_items(st1.stack)) + seq![DocItem::Text(content)]);
            } else {
                let e = st1.stack.last();
                let rest = st1.stack.drop_last();
                assert(st1.stack =~= rest.push(e));
                let e2 = StackEntryView {
                    tag: TagView { children: e.tag.children.push(n), ..e.tag },
                    ..e
                };
                lemma_stack_items_push(rest, e);
                lemma_stack_items_push(rest, e2);
                lemma_children_items_push(e.tag.children, n);
                assert(entry_items(e2) =~= entry_items(e) + seq![DocItem::Text(content)]);
                assert(partial_items(st_next)
                    =~= children_items(st1.root_children) + ((stack_items(rest) + entry_items(e)) + seq![DocItem::Text(content)]));
                assert(partial_items(st) + line_item(lines[j])
                    =~= children_items(st1.root_children) + ((stack_items(rest) + entry_items(e)) + seq![DocItem::Text(content)]));
            }
        },
        _ => {
            assert(false);
        },
    }
}

/// Over plain lines, the items placed so far are exactly the source items so
/// far.
proof fn lemma_plain_partial_items(lines: Seq<Seq<u8>>, j: int)
    requires
        0 <= j <= lines.len(),
        forall|l: int| 0 <= l < j ==> plain_line(#[trigger] lines[l]),
        state_at(lines, j) is Some,
    ensures
        partial_items(state_at(lines, j)->Some_0) == line_items_upto(lines, j),
    decreases j,
{
    if j == 0 {
        assert(partial_items(init_state()) =~= Seq::<DocItem>::empty());
    } else {
        lemma_plain_partial_items(lines, j - 1);
        let st = state_at(lines, j - 1)->Some_0;
        let st_next = state_at(lines, j)->Some_0;
        lemma_plain_step_items(lines, j - 1, st, st_next);
    }
}

/// A tree built from macro-free, directive-free input holds the same tag
/// names and text, in the same order, as the source lines -- so its
/// serialization, which emits tag names and text in that same preorder,
/// reproduces them in source order.
///
/// The requirement that the virtual root end up with exactly one child
/// excludes inputs whose extra top-level elements are silently dropped.
pub proof fn lemma_plain_round_trip(lines: Seq<Seq<u8>>, doc: NodeView)
    requires
        forall|l: int| 0 <= l < lines.len() ==> plain_line(#[trigger] lines[l]),
        state_at(lines, lines.len() as int) is Some,
        pop_ge(state_at(lines, lines.len() as int)->Some_0, 0).root_children.len() == 1,
        doc == pop_ge(state_at(lines, lines.len() as int)->Some_0, 0).root_children[0],
    ensures
        node_items(doc) == line_items_upto(lines, lines.len() as int),
{
    let n = lines.len() as int;
    lemma_plain_partial_items(lines, n);
    let st = state_at(lines, n)->Some_0;
    lemma_pop_ge_items(st, 0);
    let stf = pop_ge(st, 0);
    lemma_pop_ge_shape(st, 0);
    assert(stf.stack.len() == 0) by {
        if stf.stack.len() > 0 {
            let i = stf.stack.len() - 1;
            assert(stf.stack[i as int].indent < 0);
            assert(st.stack[i as int].indent == stf.stack[i as int].indent);
            lemma_state_at_tracks(lines, n);
            let k = st.stack[i as int].opened_at;
            assert(st.stack[i as int].indent == structural_indent(classify(lines[k])));
            lemma_structural_indent_nonneg(lines[k]);
        }
    }
    assert(stack_items(stf.stack) =~= Seq::<DocItem>::empty());
    assert(stf.root_children =~= seq![doc]);
    lemma_children_items_push(Seq::<NodeView>::empty(), doc);
    assert(Seq::<NodeView>::empty().push(doc) =~= stf.root_children);
    assert(children_items(Seq::<NodeView>::empty()) =~= Seq::<DocItem>::empty());
    assert(partial_items(stf) =~= node_items(doc));
}

} // verus!
