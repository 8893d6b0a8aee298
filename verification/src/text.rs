//! Byte-level text helpers shared by the classifier, the style processor and
//! the serializer.
//!
//! Source text is handled as UTF-8 bytes. Whitespace is the ASCII whitespace
//! range (tab, line feed, vertical tab, form feed, carriage return, space);
//! indentation is measured in raw bytes, which coincides with characters for
//! ASCII whitespace.

use vstd::prelude::*;

verus! {

/// An ASCII whitespace byte.
pub open spec fn is_space(b: u8) -> bool {
    b == 0x09 || b == 0x0a || b == 0x0b || b == 0x0c || b == 0x0d || b == 0x20
}

/// `s` with trailing whitespace removed.
pub open spec fn trim_end(s: Seq<u8>) -> Seq<u8>
    decreases s.len(),
{
    if s.len() == 0 {
        s
    } else if is_space(s.last()) {
        trim_end(s.drop_last())
    } else {
        s
    }
}

/// `s` with leading whitespace removed.
pub open spec fn trim_start(s: Seq<u8>) -> Seq<u8>
    decreases s.len(),
{
    if s.len() == 0 {
        s
    } else if is_space(s[0]) {
        trim_start(s.subrange(1, s.len() as int))
    } else {
        s
    }
}

/// `s` with leading and trailing whitespace removed.
pub open spec fn trim(s: Seq<u8>) -> Seq<u8> {
    trim_start(trim_end(s))
}

/// The index of the first occurrence of `b` in `s`, if any.
pub open spec fn find_byte(s: Seq<u8>, b: u8) -> Option<int>
    decreases s.len(),
{
    if s.len() == 0 {
        None
    } else if s[0] == b {
        Some(0int)
    } else {
        match find_byte(s.subrange(1, s.len() as int), b) {
            Some(i) => Some(i + 1),
            None => None,
        }
    }
}

/// The bytes of a sequence of ASCII characters.
pub open spec fn ascii_seq(s: Seq<char>) -> Seq<u8> {
    s.map_values(|c: char| c as u8)
}

/// `find_byte` returns the least index holding `b`, and `None` exactly when
/// `b` does not occur.
pub proof fn lemma_find_byte(s: Seq<u8>, b: u8)
    ensures
        match find_byte(s, b) {
            Some(i) => 0 <= i < s.len() && s[i] == b && forall|j: int| 0 <= j < i ==> s[j] != b,
            None => forall|j: int| 0 <= j < s.len() ==> s[j] != b,
        },
    decreases s.len(),
{
    if s.len() > 0 && s[0] != b {
        let t = s.subrange(1, s.len() as int);
        lemma_find_byte(t, b);
        assert(forall|j: int| 1 <= j < s.len() ==> s[j] == t[j - 1]);
    }
}

/// Find the first occurrence of `b` in `s`.
pub fn find_byte_at(s: &[u8], b: u8) -> (r: Option<usize>)
    ensures
        match r {
            Some(i) => find_byte(s@, b) == Some(i as int),
            None => find_byte(s@, b) == None::<int>,
        },
{
    proof {
        lemma_find_byte(s@, b);
    }
    let mut i: usize = 0;
    while i < s.len()
        invariant
            0 <= i <= s@.len(),
            forall|j: int| 0 <= j < i ==> s@[j] != b,
        decreases s@.len() - i,
    {
        if s[i] == b {
            proof {
                lemma_find_byte(s@, b);
            }
            return Some(i);
        }
        i = i + 1;
    }
    None
}

/// Bounds of the trimmed content of `line`: the content is
/// `line[start..end]`, `start` is the indentation, and the spec-level trims
/// agree with those bounds.
pub fn trim_bounds(line: &[u8]) -> (r: (usize, usize))
    ensures
        r.0 <= r.1 <= line@.len(),
        trim_end(line@) == line@.subrange(0, r.1 as int),
        trim(line@) == line@.subrange(r.0 as int, r.1 as int),
        r.0 == trim_end(line@).len() - trim(line@).len(),
{
    let mut end: usize = line.len();
    proof {
        assert(line@.subrange(0, end as int) =~= line@);
    }
    while end > 0 && is_space_at(line, end - 1)
        invariant
            0 <= end <= line@.len(),
            trim_end(line@) == trim_end(line@.subrange(0, end as int)),
        decreases end,
    {
        proof {
            let t = line@.subrange(0, end as int);
            assert(t.drop_last() =~= line@.subrange(0, end - 1));
        }
        end = end - 1;
    }
    proof {
        let t = line@.subrange(0, end as int);
        if end == 0 {
            assert(trim_end(line@) =~= line@.subrange(0, 0));
        } else {
            assert(trim_end(t) == t);
        }
    }
    let mut start: usize = 0;
    while start < end && is_space_at(line, start)
        invariant
            0 <= start <= end <= line@.len(),
            trim_end(line@) == line@.subrange(0, end as int),
            trim_start(line@.subrange(0, end as int)) == trim_start(line@.subrange(start as int, end as int)),
        decreases end - start,
    {
        proof {
            let t = line@.subrange(start as int, end as int);
            assert(t.subrange(1, t.len() as int) =~= line@.subrange(start + 1, end as int));
        }
        start = start + 1;
    }
    proof {
        let t = line@.subrange(start as int, end as int);
        if start < end {
            assert(trim_start(t) == t);
        } else {
            assert(t =~= Seq::<u8>::empty());
            assert(trim_start(t) == t);
        }
    }
    (start, end)
}

/// Whether the byte at `i` is whitespace.
fn is_space_at(s: &[u8], i: usize) -> (r: bool)
    requires
        i < s@.len(),
    ensures
        r == is_space(s@[i as int]),
{
    let b = s[i];
    b == 0x09 || b == 0x0a || b == 0x0b || b == 0x0c || b == 0x0d || b == 0x20
}

/// Append the bytes of `src` to `dst`.
pub fn append_bytes(dst: &mut Vec<u8>, src: &[u8])
    ensures
        final(dst)@ == old(dst)@ + src@,
{
    let mut i: usize = 0;
    while i < src.len()
        invariant
            0 <= i <= src@.len(),
            dst@ == old(dst)@ + src@.subrange(0, i as int),
        decreases src@.len() - i,
    {
        dst.push(src[i]);
        proof {
            assert(old(dst)@ + src@.subrange(0, i as int) + seq![src@[i as int]]
                =~= old(dst)@ + src@.subrange(0, i + 1));
        }
        i = i + 1;
    }
    proof {
        assert(old(dst)@ + src@.subrange(0, i as int) =~= old(dst)@ + src@);
    }
}

/// The bytes of an ASCII string literal, as a vector.
pub fn ascii_bytes(s: &str) -> (r: Vec<u8>)
    requires
        s.is_ascii(),
    ensures
        r@ == s@.map_values(|c: char| c as u8),
{
    proof {
        broadcast use vstd::string::is_ascii_spec_bytes;
    }
    let b = s.as_bytes();
    let r = slice_to_vec(b);
    proof {
        assert(r@ =~= s@.map_values(|c: char| c as u8));
    }
    r
}

/// Copy a byte slice into a fresh vector.
pub fn slice_to_vec(s: &[u8]) -> (r: Vec<u8>)
    ensures
        r@ == s@,
{
    vstd::slice::slice_to_vec(s)
}

/// Copy the range `s[lo..hi]` into a fresh vector.
pub fn slice_range_to_vec(s: &[u8], lo: usize, hi: usize) -> (r: Vec<u8>)
    requires
        lo <= hi <= s@.len(),
    ensures
        r@ == s@.subrange(lo as int, hi as int),
{
    let sub = vstd::slice::slice_subrange(s, lo, hi);
    vstd::slice::slice_to_vec(sub)
}

/// Whether two byte slices hold the same bytes.
pub fn bytes_eq(a: &[u8], b: &[u8]) -> (r: bool)
    ensures
        r == (a@ == b@),
{
    if a.len() != b.len() {
        proof {
            assert(a@ != b@);
        }
        return false;
    }
    let mut i: usize = 0;
    while i < a.len()
        invariant
            0 <= i <= a@.len(),
            a@.len() == b@.len(),
            forall|j: int| 0 <= j < i ==> a@[j] == b@[j],
        decreases a@.len() - i,
    {
        if a[i] != b[i] {
            return false;
        }
        i = i + 1;
    }
    proof {
        assert(a@ =~= b@);
    }
    true
}

} // verus!
