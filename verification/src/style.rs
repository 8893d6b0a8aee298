//! The style directive processor and the document-scoped substitution table.
//!
//! A directive `@name: value` first has every key of the substitution table
//! replaced in its value (keys are applied in first-insertion order, each
//! replacing all of its occurrences left to right), then is dispatched: `Set`
//! registers a key, the style directives append a CSS fragment to the target
//! element's `style` attribute, and an unrecognized name changes nothing.

use vstd::prelude::*;
use crate::node::{Tag, TagView};
use crate::text::{ascii_bytes, ascii_seq, find_byte, find_byte_at, bytes_eq, append_bytes, slice_to_vec, slice_range_to_vec};

verus! {

/// Replace every occurrence of `pat` in `s` by `rep`, scanning left to right
/// over non-overlapping occurrences. An empty pattern replaces nothing.
pub open spec fn replace_all(s: Seq<u8>, pat: Seq<u8>, rep: Seq<u8>) -> Seq<u8>
    decreases s.len(),
{
    if pat.len() == 0 || s.len() < pat.len() {
        s
    } else if s.subrange(0, pat.len() as int) == pat {
        rep + replace_all(s.subrange(pat.len() as int, s.len() as int), pat, rep)
    } else {
        seq![s[0]] + replace_all(s.subrange(1, s.len() as int), pat, rep)
    }
}

/// The index of the first pair of `ps` whose key is `k`, if any.
pub open spec fn find_pair(ps: Seq<(Seq<u8>, Seq<u8>)>, k: Seq<u8>) -> Option<int>
    decreases ps.len(),
{
    if ps.len() == 0 {
        None
    } else if ps[0].0 == k {
        Some(0int)
    } else {
        match find_pair(ps.subrange(1, ps.len() as int), k) {
            Some(i) => Some(i + 1),
            None => None,
        }
    }
}

/// The value mapped to `k`, if any.
pub open spec fn lookup_pair(ps: Seq<(Seq<u8>, Seq<u8>)>, k: Seq<u8>) -> Option<Seq<u8>> {
    match find_pair(ps, k) {
        Some(i) => Some(ps[i].1),
        None => None,
    }
}

/// Insert or overwrite: an existing key keeps its position and takes the new
/// value; a new key is appended.
pub open spec fn table_insert(ps: Seq<(Seq<u8>, Seq<u8>)>, k: Seq<u8>, v: Seq<u8>) -> Seq<(Seq<u8>, Seq<u8>)> {
    match find_pair(ps, k) {
        Some(i) => ps.update(i, (k, v)),
        None => ps.push((k, v)),
    }
}

/// Set or extend: an existing key keeps its position and its value is
/// extended by `v` with no separator; a new key is appended.
pub open spec fn attr_append(ps: Seq<(Seq<u8>, Seq<u8>)>, k: Seq<u8>, v: Seq<u8>) -> Seq<(Seq<u8>, Seq<u8>)> {
    match find_pair(ps, k) {
        Some(i) => ps.update(i, (k, ps[i].1 + v)),
        None => ps.push((k, v)),
    }
}

/// Apply every key of the table to `v`, in table order.
pub open spec fn substitute(v: Seq<u8>, keys: Seq<(Seq<u8>, Seq<u8>)>) -> Seq<u8>
    decreases keys.len(),
{
    if keys.len() == 0 {
        v
    } else {
        substitute(replace_all(v, keys[0].0, keys[0].1), keys.subrange(1, keys.len() as int))
    }
}

/// The CSS property a style directive name maps to, if any.
pub open spec fn css_property(name: Seq<u8>) -> Option<Seq<u8>> {
    if name == ascii_seq("Width"@) {
        Some(ascii_seq("width"@))
    } else if name == ascii_seq("Height"@) {
        Some(ascii_seq("height"@))
    } else if name == ascii_seq("LHeight"@) {
        Some(ascii_seq("line-height"@))
    } else if name == ascii_seq("Text_size"@) {
        Some(ascii_seq("font-size"@))
    } else if name == ascii_seq("Text_type"@) {
        Some(ascii_seq("font-family"@))
    } else if name == ascii_seq("Back_fill"@) {
        Some(ascii_seq("background-color"@))
    } else {
        None
    }
}

/// The fragment a style directive appends to the `style` attribute, over the
/// already-substituted value; `None` for an unrecognized directive (and for
/// `Set`, which touches no element).
pub open spec fn style_fragment(name: Seq<u8>, v: Seq<u8>) -> Option<Seq<u8>> {
    match css_property(name) {
        Some(prop) => Some(prop + ascii_seq(": "@) + v + seq![59u8]),
        None => if name == ascii_seq("Back_grad"@) {
            Some(ascii_seq("background: linear-gradient("@) + v + ascii_seq(");"@))
        } else if name == ascii_seq("Centred"@) {
            Some(ascii_seq("text-align: center;"@))
        } else {
            None
        },
    }
}

/// The document-scoped substitution table, mutated only by the `Set`
/// directive. Keys are unique; its view lists the `(key, value)` pairs in
/// first-insertion order, the order in which they substitute.
pub struct KeyTable {
    pub entries: Vec<(Vec<u8>, Vec<u8>)>,
}

impl KeyTable {
    /// The pairs held, in first-insertion order.
    pub open spec fn view(&self) -> Seq<(Seq<u8>, Seq<u8>)> {
        Seq::new(self.entries@.len(), |i: int| (self.entries@[i].0@, self.entries@[i].1@))
    }

    /// An empty table.
    pub fn new() -> (r: KeyTable)
        ensures
            r@ == Seq::<(Seq<u8>, Seq<u8>)>::empty(),
    {
        let r = KeyTable { entries: Vec::new() };
        proof {
            assert(r@ =~= Seq::<(Seq<u8>, Seq<u8>)>::empty());
        }
        r
    }

    /// Insert or overwrite a key. Last write for a key wins; the key keeps
    /// its first-insertion position.
    pub fn insert(&mut self, k: Vec<u8>, v: Vec<u8>)
        ensures
            final(self)@ == table_insert(old(self)@, k@, v@),
    {
        proof {
            lemma_find_pair_first(self@, k@);
        }
        let mut i: usize = 0;
        while i < self.entries.len()
            invariant
                0 <= i <= self.entries@.len(),
                self == old(self),
                forall|j: int| 0 <= j < i ==> self@[j].0 != k@,
            decreases self.entries@.len() - i,
        {
            if bytes_eq(self.entries[i].0.as_slice(), k.as_slice()) {
                proof {
                    lemma_find_pair_first(old(self)@, k@);
                    assert(old(self)@[i as int].0 == k@);
                    assert(find_pair(old(self)@, k@) == Some(i as int));
                }
                self.entries.remove(i);
                self.entries.insert(i, (k, v));
                proof {
                    assert(self@ =~= old(self)@.update(i as int, (k@, v@)));
                }
                return;
            }
            i = i + 1;
        }
        self.entries.push((k, v));
        proof {
            lemma_find_pair_first(old(self)@, k@);
            assert(find_pair(old(self)@, k@) == None::<int>);
            assert(self@ =~= old(self)@.push((k@, v@)));
        }
    }
}

/// `find_pair` returns the least index holding `k`, and `None` exactly when
/// `k` is not a key.
pub proof fn lemma_find_pair_first(ps: Seq<(Seq<u8>, Seq<u8>)>, k: Seq<u8>)
    ensures
        match find_pair(ps, k) {
            Some(i) => 0 <= i < ps.len() && ps[i].0 == k && forall|j: int| 0 <= j < i ==> ps[j].0 != k,
            None => forall|j: int| 0 <= j < ps.len() ==> ps[j].0 != k,
        },
    decreases ps.len(),
{
    if ps.len() > 0 && ps[0].0 != k {
        let t = ps.subrange(1, ps.len() as int);
        lemma_find_pair_first(t, k);
        assert(forall|j: int| 1 <= j < ps.len() ==> ps[j] == t[j - 1]);
    }
}

/// Whether `s[i..]` starts with `pat`.
fn match_at(s: &[u8], i: usize, pat: &[u8]) -> (r: bool)
    requires
        i <= s@.len(),
    ensures
        r == (i + pat@.len() <= s@.len() && s@.subrange(i as int, i + pat@.len()) == pat@),
{
    if pat.len() > s.len() - i {
        return false;
    }
    let slen = s.len();
    let mut j: usize = 0;
    while j < pat.len()
        invariant
            0 <= j <= pat@.len(),
            i + pat@.len() <= s@.len(),
            s@.len() == slen,
            forall|m: int| 0 <= m < j ==> s@[i + m] == pat@[m],
        decreases pat@.len() - j,
    {
        if s[i + j] != pat[j] {
            proof {
                assert(s@.subrange(i as int, i + pat@.len())[j as int] == s@[i + j]);
            }
            return false;
        }
        j = j + 1;
    }
    proof {
        assert(s@.subrange(i as int, i + pat@.len()) =~= pat@);
    }
    true
}

/// Replace every occurrence of `pat` in `s` by `rep`.
pub fn replace_all_bytes(s: &[u8], pat: &[u8], rep: &[u8]) -> (r: Vec<u8>)
    ensures
        r@ == replace_all(s@, pat@, rep@),
{
    if pat.len() == 0 {
        return slice_to_vec(s);
    }
    let mut out: Vec<u8> = Vec::new();
    let mut i: usize = 0;
    proof {
        assert(s@.subrange(0, s@.len() as int) =~= s@);
        assert(Seq::<u8>::empty() + replace_all(s@, pat@, rep@) =~= replace_all(s@, pat@, rep@));
    }
    while i < s.len()
        invariant
            0 <= i <= s@.len(),
            pat@.len() >= 1,
            replace_all(s@, pat@, rep@) == out@ + replace_all(s@.subrange(i as int, s@.len() as int), pat@, rep@),
        decreases s@.len() - i,
    {
        let ghost t = s@.subrange(i as int, s@.len() as int);
        if match_at(s, i, pat) {
            append_bytes(&mut out, rep);
            proof {
                assert(t.subrange(0, pat@.len() as int) =~= s@.subrange(i as int, i + pat@.len()));
                assert(t.subrange(pat@.len() as int, t.len() as int) =~= s@.subrange(i + pat@.len(), s@.len() as int));
            }
            i = i + pat.len();
        } else {
            out.push(s[i]);
            proof {
                if t.len() >= pat@.len() {
                    assert(t.subrange(0, pat@.len() as int) =~= s@.subrange(i as int, i + pat@.len()));
                }
                assert(t.subrange(1, t.len() as int) =~= s@.subrange(i + 1, s@.len() as int));
                assert(replace_all(t, pat@, rep@) == seq![t[0]] + replace_all(t.subrange(1, t.len() as int), pat@, rep@));
            }
            i = i + 1;
        }
    }
    proof {
        assert(s@.subrange(i as int, s@.len() as int) =~= Seq::<u8>::empty());
        assert(out@ + Seq::<u8>::empty() =~= out@);
    }
    out
}

/// Apply every key of the table to `v`, in table order.
pub fn substitute_value(v: &[u8], keys: &KeyTable) -> (r: Vec<u8>)
    ensures
        r@ == substitute(v@, keys@),
{
    let mut cur = slice_to_vec(v);
    let mut i: usize = 0;
    proof {
        assert(keys@.subrange(0, keys@.len() as int) =~= keys@);
    }
    while i < keys.entries.len()
        invariant
            0 <= i <= keys.entries@.len(),
            substitute(v@, keys@) == substitute(cur@, keys@.subrange(i as int, keys@.len() as int)),
        decreases keys.entries@.len() - i,
    {
        let ghost rest = keys@.subrange(i as int, keys@.len() as int);
        let pair = &keys.entries[i];
        let next = replace_all_bytes(cur.as_slice(), pair.0.as_slice(), pair.1.as_slice());
        proof {
            assert(rest[0] == keys@[i as int]);
            assert(rest.subrange(1, rest.len() as int) =~= keys@.subrange(i + 1, keys@.len() as int));
        }
        cur = next;
        i = i + 1;
    }
    proof {
        assert(keys@.subrange(i as int, keys@.len() as int) =~= Seq::<(Seq<u8>, Seq<u8>)>::empty());
    }
    cur
}

/// The CSS property a style directive name maps to, if any.
fn css_property_vec(name: &[u8]) -> (r: Option<Vec<u8>>)
    ensures
        match r {
            Some(p) => css_property(name@) == Some(p@),
            None => css_property(name@) == None::<Seq<u8>>,
        },
{
    proof {
        reveal_strlit("Width");
        reveal_strlit("width");
        reveal_strlit("Height");
        reveal_strlit("height");
        reveal_strlit("LHeight");
        reveal_strlit("line-height");
        reveal_strlit("Text_size");
        reveal_strlit("font-size");
        reveal_strlit("Text_type");
        reveal_strlit("font-family");
        reveal_strlit("Back_fill");
        reveal_strlit("background-color");
    }
    let w = ascii_bytes("Width");
    if bytes_eq(name, w.as_slice()) {
        return Some(ascii_bytes("width"));
    }
    let h = ascii_bytes("Height");
    if bytes_eq(name, h.as_slice()) {
        return Some(ascii_bytes("height"));
    }
    let lh = ascii_bytes("LHeight");
    if bytes_eq(name, lh.as_slice()) {
        return Some(ascii_bytes("line-height"));
    }
    let ts = ascii_bytes("Text_size");
    if bytes_eq(name, ts.as_slice()) {
        return Some(ascii_bytes("font-size"));
    }
    let tt = ascii_bytes("Text_type");
    if bytes_eq(name, tt.as_slice()) {
        return Some(ascii_bytes("font-family"));
    }
    let bf = ascii_bytes("Back_fill");
    if bytes_eq(name, bf.as_slice()) {
        return Some(ascii_bytes("background-color"));
    }
    None
}

/// The fragment a style directive appends to the `style` attribute.
fn style_fragment_vec(name: &[u8], v: &[u8]) -> (r: Option<Vec<u8>>)
    ensures
        match r {
            Some(f) => style_fragment(name@, v@) == Some(f@),
            None => style_fragment(name@, v@) == None::<Seq<u8>>,
        },
{
    match css_property_vec(name) {
        Some(prop) => {
            let mut f = prop;
            proof {
                reveal_strlit(": ");
            }
            let sep = ascii_bytes(": ");
            append_bytes(&mut f, sep.as_slice());
            append_bytes(&mut f, v);
            f.push(59);
            Some(f)
        },
        None => {
            proof {
                reveal_strlit("Back_grad");
                reveal_strlit("background: linear-gradient(");
                reveal_strlit(");");
                reveal_strlit("Centred");
                reveal_strlit("text-align: center;");
            }
            let bg = ascii_bytes("Back_grad");
            if bytes_eq(name, bg.as_slice()) {
                let mut f = ascii_bytes("background: linear-gradient(");
                append_bytes(&mut f, v);
                let close = ascii_bytes(");");
                append_bytes(&mut f, close.as_slice());
                return Some(f);
            }
            let ce = ascii_bytes("Centred");
            if bytes_eq(name, ce.as_slice()) {
                return Some(ascii_bytes("text-align: center;"));
            }
            None
        },
    }
}

/// What one directive does, given the substituted value `sub`: `Set` with a
/// space registers a key, a style directive appends its fragment to the
/// target's `style` attribute, an unrecognized name changes nothing. `Set`
/// without a space in `sub` is the one input the processor cannot accept.
pub open spec fn directive_applies(
    name: Seq<u8>,
    sub: Seq<u8>,
    node0: TagView,
    node1: TagView,
    keys0: Seq<(Seq<u8>, Seq<u8>)>,
    keys1: Seq<(Seq<u8>, Seq<u8>)>,
) -> bool {
    if name == ascii_seq("Set"@) {
        match find_byte(sub, 32) {
            Some(i) => node1 == node0 && keys1 == table_insert(
                keys0,
                sub.subrange(0, i),
                sub.subrange(i + 1, sub.len() as int),
            ),
            None => false,
        }
    } else {
        keys1 == keys0 && match style_fragment(name, sub) {
            Some(frag) => node1 == (TagView {
                properties: attr_append(node0.properties, ascii_seq("style"@), frag),
                ..node0
            }),
            None => node1 == node0,
        }
    }
}

/// Whether the processor accepts this directive in this state: the only
/// refused input is `Set` whose substituted value holds no space.
pub open spec fn directive_accepted(name: Seq<u8>, value: Seq<u8>, keys: Seq<(Seq<u8>, Seq<u8>)>) -> bool {
    name == ascii_seq("Set"@) ==> find_byte(substitute(value, keys), 32) is Some
}

/// Apply a directive to the target element and the substitution table,
/// reporting whether it was accepted: `false` exactly for a `Set` whose
/// substituted value holds no space, in which case nothing changes.
pub fn try_process_style_template(
    prop_name: &[u8],
    prop_val: &[u8],
    node: &mut Tag,
    global_keys: &mut KeyTable,
) -> (ok: bool)
    ensures
        ok == directive_accepted(prop_name@, prop_val@, old(global_keys)@),
        ok ==> directive_applies(
            prop_name@,
            substitute(prop_val@, old(global_keys)@),
            old(node).deep_view(),
            final(node).deep_view(),
            old(global_keys)@,
            final(global_keys)@,
        ),
        !ok ==> *final(node) == *old(node) && *final(global_keys) == *old(global_keys),
{
    proof {
        reveal_strlit("Set");
        reveal_strlit("style");
    }
    let sub = substitute_value(prop_val, global_keys);
    let set_name = ascii_bytes("Set");
    if bytes_eq(prop_name, set_name.as_slice()) {
        match find_byte_at(sub.as_slice(), 32) {
            Some(i) => {
                let n = sub.len();
                proof {
                    crate::text::lemma_find_byte(sub@, 32);
                    assert(i < n);
                }
                let left = slice_range_to_vec(sub.as_slice(), 0, i);
                let right = slice_range_to_vec(sub.as_slice(), i + 1, n);
                global_keys.insert(left, right);
                true
            },
            None => false,
        }
    } else {
        match style_fragment_vec(prop_name, sub.as_slice()) {
            Some(frag) => {
                let style_name = ascii_bytes("style");
                node.append_attr(style_name.as_slice(), frag.as_slice());
                true
            },
            None => true,
        }
    }
}

/// Apply a directive to the target element and the substitution table.
///
/// A `Set` directive whose substituted value holds no space is refused by
/// `requires`; [`try_process_style_template`] is the total variant that
/// reports such an input instead.
pub fn process_style_template(
    prop_name: &[u8],
    prop_val: &[u8],
    node: &mut Tag,
    global_keys: &mut KeyTable,
)
    requires
        directive_accepted(prop_name@, prop_val@, old(global_keys)@),
    ensures
        directive_applies(
            prop_name@,
            substitute(prop_val@, old(global_keys)@),
            old(node).deep_view(),
            final(node).deep_view(),
            old(global_keys)@,
            final(global_keys)@,
        ),
{
    let ok = try_process_style_template(prop_name, prop_val, node, global_keys);
    proof {
        assert(ok);
    }
}

} // verus!
