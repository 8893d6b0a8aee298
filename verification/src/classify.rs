//! The line classifier: one raw source line to its classification.
//!
//! Classification, in strict priority order over the trimmed content:
//! blank or `#`-comment; `@name:value` directive (a directive without a `:`
//! is a fatal parse error); element-open (trailing `:`); property (contains
//! `:`); verbatim text. The indentation of a line is the number of leading
//! whitespace bytes left after trailing whitespace is stripped.

use vstd::prelude::*;
use crate::text::{trim, trim_end, find_byte, trim_bounds, slice_range_to_vec};

verus! {

/// Mathematical model of a classified line.
#[verifier::ext_equal]
pub enum LineClassView {
    /// Blank line or comment: ignored.
    Ignored,
    /// `@name:value` style directive.
    Directive { name: Seq<u8>, value: Seq<u8> },
    /// A line starting with `@` but holding no `:`: a fatal parse error.
    MissingColon,
    /// `name:` opens an element.
    ElementOpen { indent: int, name: Seq<u8> },
    /// `name: value` sets or extends an attribute of the open element.
    Property { name: Seq<u8>, value: Seq<u8> },
    /// Verbatim text.
    Text { indent: int, content: Seq<u8> },
}

/// A classified line, as produced by [`classify_line`].
pub enum LineClass {
    Ignored,
    Directive { name: Vec<u8>, value: Vec<u8> },
    MissingColon,
    ElementOpen { indent: usize, name: Vec<u8> },
    Property { name: Vec<u8>, value: Vec<u8> },
    Text { indent: usize, content: Vec<u8> },
}

impl LineClass {
    /// Deep view of the classification.
    pub open spec fn deep_view(self) -> LineClassView {
        match self {
            LineClass::Ignored => LineClassView::Ignored,
            LineClass::Directive { name, value } => LineClassView::Directive { name: name@, value: value@ },
            LineClass::MissingColon => LineClassView::MissingColon,
            LineClass::ElementOpen { indent, name } => LineClassView::ElementOpen { indent: indent as int, name: name@ },
            LineClass::Property { name, value } => LineClassView::Property { name: name@, value: value@ },
            LineClass::Text { indent, content } => LineClassView::Text { indent: indent as int, content: content@ },
        }
    }
}

/// The classification of one raw source line.
pub open spec fn classify(line: Seq<u8>) -> LineClassView {
    let c = trim(line);
    let ind = trim_end(line).len() - c.len();
    if c.len() == 0 || c[0] == 35 {
        LineClassView::Ignored
    } else if c[0] == 64 {
        match find_byte(c, 58) {
            Some(n) => LineClassView::Directive {
                name: c.subrange(1, n),
                value: trim(c.subrange(n + 1, c.len() as int)),
            },
            None => LineClassView::MissingColon,
        }
    } else if c.last() == 58 {
        LineClassView::ElementOpen { indent: ind, name: c.drop_last() }
    } else {
        match find_byte(c, 58) {
            Some(n) => LineClassView::Property {
                name: trim(c.subrange(0, n)),
                value: trim(c.subrange(n + 1, c.len() as int)),
            },
            None => LineClassView::Text { indent: ind, content: c },
        }
    }
}

/// Classify one raw source line.
pub fn classify_line(line: &[u8]) -> (r: LineClass)
    ensures
        r.deep_view() == classify(line@),
{
    let (start, end) = trim_bounds(line);
    let ghost c = trim(line@);
    assert(c == line@.subrange(start as int, end as int));
    if start == end || line[start] == 35 {
        return LineClass::Ignored;
    }
    let indent = start;
    if line[start] == 64 {
        match find_byte_in_range(line, start, end, 58) {
            Some(n) => {
                proof {
                    crate::text::lemma_find_byte(c, 58);
                    assert(c[n - start] == 58);
                    assert(c[0] == 64);
                    assert(n - start >= 1);
                }
                let name = slice_range_to_vec(line, start + 1, n);
                let value_raw_start = n + 1;
                let (vs, ve) = trim_bounds_in_range(line, value_raw_start, end);
                let value = slice_range_to_vec(line, vs, ve);
                proof {
                    assert(name@ =~= c.subrange(1, n - start));
                    assert(line@.subrange(value_raw_start as int, end as int)
                        =~= c.subrange(n - start + 1, c.len() as int));
                }
                LineClass::Directive { name, value }
            },
            None => LineClass::MissingColon,
        }
    } else if line[end - 1] == 58 {
        let name = slice_range_to_vec(line, start, end - 1);
        proof {
            assert(name@ =~= c.drop_last());
        }
        LineClass::ElementOpen { indent, name }
    } else {
        match find_byte_in_range(line, start, end, 58) {
            Some(n) => {
                let (ns, ne) = trim_bounds_in_range(line, start, n);
                let name = slice_range_to_vec(line, ns, ne);
                let (vs, ve) = trim_bounds_in_range(line, n + 1, end);
                let value = slice_range_to_vec(line, vs, ve);
                proof {
                    assert(line@.subrange(start as int, n as int) =~= c.subrange(0, n - start));
                    assert(line@.subrange(n + 1, end as int) =~= c.subrange(n - start + 1, c.len() as int));
                }
                LineClass::Property { name, value }
            },
            None => {
                let content = slice_range_to_vec(line, start, end);
                LineClass::Text { indent, content }
            },
        }
    }
}

/// Find the first occurrence of `b` in `s[lo..hi]`, as an absolute index.
pub(crate) fn find_byte_in_range(s: &[u8], lo: usize, hi: usize, b: u8) -> (r: Option<usize>)
    requires
        lo <= hi <= s@.len(),
    ensures
        match r {
            Some(i) => lo <= i < hi && find_byte(s@.subrange(lo as int, hi as int), b) == Some(i - lo),
            None => find_byte(s@.subrange(lo as int, hi as int), b) == None::<int>,
        },
{
    proof {
        crate::text::lemma_find_byte(s@.subrange(lo as int, hi as int), b);
    }
    let mut i: usize = lo;
    while i < hi
        invariant
            lo <= i <= hi <= s@.len(),
            forall|j: int| lo <= j < i ==> s@[j] != b,
        decreases hi - i,
    {
        if s[i] == b {
            proof {
                crate::text::lemma_find_byte(s@.subrange(lo as int, hi as int), b);
                let t = s@.subrange(lo as int, hi as int);
                assert(t[i - lo] == b);
                let k = find_byte(t, b)->Some_0;
                assert(t[k] == b);
            }
            return Some(i);
        }
        i = i + 1;
    }
    proof {
        crate::text::lemma_find_byte(s@.subrange(lo as int, hi as int), b);
        let t = s@.subrange(lo as int, hi as int);
        if find_byte(t, b) is Some {
            let k = find_byte(t, b)->Some_0;
            assert(t[k] == b);
            assert(s@[lo + k] == b);
        }
    }
    None
}

/// Trim bounds of the range `s[lo..hi]`: the trimmed content of that range is
/// `s[r.0..r.1]`.
fn trim_bounds_in_range(s: &[u8], lo: usize, hi: usize) -> (r: (usize, usize))
    requires
        lo <= hi <= s@.len(),
    ensures
        lo <= r.0 <= r.1 <= hi,
        trim(s@.subrange(lo as int, hi as int)) == s@.subrange(r.0 as int, r.1 as int),
{
    let sub = vstd::slice::slice_subrange(s, lo, hi);
    let (a, b) = trim_bounds(sub);
    proof {
        assert(sub@.subrange(a as int, b as int) =~= s@.subrange(lo + a, lo + b));
    }
    (lo + a, lo + b)
}

} // verus!
