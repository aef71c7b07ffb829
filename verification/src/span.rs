//! Byte spans and the mapping from snippet-local offsets back to
//! document-global offsets.

use vstd::prelude::*;

verus! {

/// Half-open range of byte offsets into one coordinate space, either
/// snippet-local or document-global.
#[derive(Clone, Copy, PartialEq, Eq, Structural, Debug)]
pub struct Span {
    pub start: usize,
    pub end: usize,
}

impl Span {
    /// A span is well formed when it does not end before it starts;
    /// zero-length spans are legal insertion points.
    pub open spec fn wf(self) -> bool {
        self.start <= self.end
    }

    pub open spec fn spec_len(self) -> int {
        self.end - self.start
    }

    pub fn new(start: usize, end: usize) -> (r: Span)
        requires
            start <= end,
        ensures
            r == (Span { start, end }),
    {
        Span { start, end }
    }
}

/// One contiguous run of snippet text together with the document offset it
/// was copied from. A snippet whose lines were stripped of a per-line
/// prefix (a fence, a leading comment marker) is described by one segment
/// per line; a snippet copied verbatim needs a single segment.
#[derive(Clone, Copy, PartialEq, Eq, Structural, Debug)]
pub struct Segment {
    pub local_start: usize,
    pub doc_start: usize,
    pub len: usize,
}

/// A chain of segments: every segment is non-empty and fits in `usize`
/// arithmetic, local offsets are contiguous, and document offsets advance
/// by at least each segment's length (stripped prefixes may leave gaps).
pub open spec fn segments_chained(s: Seq<Segment>) -> bool {
    &&& forall|i: int|
        0 <= i < s.len() ==> {
            &&& (#[trigger] s[i]).len >= 1
            &&& s[i].local_start + s[i].len <= usize::MAX
            &&& s[i].doc_start + s[i].len <= usize::MAX
        }
    &&& forall|i: int|
        0 <= i && i + 1 < s.len() ==> {
            &&& (#[trigger] s[i + 1]).local_start == s[i].local_start + s[i].len
            &&& s[i + 1].doc_start >= s[i].doc_start + s[i].len
        }
}

/// The document offset of local position `p`, read off the first segment
/// whose local range contains `p`.
pub open spec fn map_pos_rec(s: Seq<Segment>, p: int) -> int
    decreases s.len(),
{
    if s.len() == 0 {
        0
    } else if p < s[0].local_start + s[0].len {
        s[0].doc_start + (p - s[0].local_start)
    } else {
        map_pos_rec(s.drop_first(), p)
    }
}

/// Translates snippet-local byte offsets back to offsets in the original
/// document, using the recorded per-line layout of the extracted snippet.
/// `base` is the document offset where the snippet begins; it anchors the
/// insertion point of an empty snippet, whose segment list is empty.
pub struct SpanMapper {
    pub base: usize,
    pub segments: Vec<Segment>,
}

impl SpanMapper {
    pub open spec fn wf(self) -> bool {
        &&& segments_chained(self.segments@)
        &&& self.segments@.len() > 0 ==> self.segments@[0].local_start == 0
            && self.segments@[0].doc_start == self.base
    }

    /// Total length of the snippet the mapper describes.
    pub open spec fn local_len(self) -> int {
        if self.segments@.len() == 0 {
            0
        } else {
            self.segments@.last().local_start + self.segments@.last().len
        }
    }

    /// Document offset of the end of the described snippet; for an empty
    /// snippet this is its document position itself.
    pub open spec fn doc_end(self) -> int {
        if self.segments@.len() == 0 {
            self.base as int
        } else {
            self.segments@.last().doc_start + self.segments@.last().len
        }
    }

    pub open spec fn map_pos(self, p: int) -> int {
        map_pos_rec(self.segments@, p)
    }

    /// Document position of local position `p`, where `p` may also be the
    /// one-past-the-end insertion point.
    pub open spec fn doc_pos(self, p: int) -> int {
        if p < self.local_len() {
            self.map_pos(p)
        } else {
            self.doc_end()
        }
    }

    /// Builds a mapper from an explicit segment list, refusing any list
    /// that is not a chain starting at local offset zero and at document
    /// offset `base`.
    pub fn new(base: usize, segments: Vec<Segment>) -> (r: Option<SpanMapper>)
        ensures
            match r {
                Some(m) => m.base == base && m.segments@ == segments@ && m.wf(),
                None => !(SpanMapper { base, segments }).wf(),
            },
    {
        let n = segments.len();
        if n > 0 && (segments[0].local_start != 0 || segments[0].doc_start != base) {
            return None;
        }
        let mut i: usize = 0;
        while i < n
            invariant
                0 <= i <= n,
                n == segments@.len(),
                n > 0 ==> segments@[0].local_start == 0 && segments@[0].doc_start == base,
                forall|k: int|
                    0 <= k < i ==> {
                        &&& (#[trigger] segments@[k]).len >= 1
                        &&& segments@[k].local_start + segments@[k].len <= usize::MAX
                        &&& segments@[k].doc_start + segments@[k].len <= usize::MAX
                    },
                forall|k: int|
                    0 <= k < i && k + 1 < n ==> {
                        &&& (#[trigger] segments@[k + 1]).local_start == segments@[k].local_start
                            + segments@[k].len
                        &&& segments@[k + 1].doc_start >= segments@[k].doc_start + segments@[k].len
                    },
            decreases n - i,
        {
            let s = segments[i];
            if s.len < 1 {
                return None;
            }
            if s.local_start > usize::MAX - s.len || s.doc_start > usize::MAX - s.len {
                return None;
            }
            if i + 1 < n {
                let t = segments[i + 1];
                if t.local_start != s.local_start + s.len {
                    return None;
                }
                if t.doc_start < s.doc_start || t.doc_start - s.doc_start < s.len {
                    return None;
                }
            }
            i += 1;
        }
        Some(SpanMapper { base, segments })
    }

    /// Mapper for a snippet copied verbatim from the document at
    /// `doc_start`.
    pub fn contiguous(doc_start: usize, len: usize) -> (r: SpanMapper)
        requires
            doc_start + len <= usize::MAX,
        ensures
            r.wf(),
            r.base == doc_start,
            r.local_len() == len,
            forall|p: int| 0 <= p < len ==> r.map_pos(p) == doc_start + p,
            r.doc_end() == doc_start + len,
    {
        let mut segments: Vec<Segment> = Vec::new();
        if len > 0 {
            segments.push(Segment { local_start: 0, doc_start, len });
        }
        let r = SpanMapper { base: doc_start, segments };
        proof {
            if len > 0 {
                assert(r.segments@.len() == 1);
                assert forall|p: int| 0 <= p < len implies r.map_pos(p) == doc_start + p by {
                    reveal_with_fuel(map_pos_rec, 2);
                }
            }
        }
        r
    }

    fn map_pos_exec(&self, p: usize) -> (r: usize)
        requires
            self.wf(),
            p < self.local_len(),
        ensures
            r == self.map_pos(p as int),
    {
        let n = self.segments.len();
        let mut i: usize = 0;
        proof {
            assert(self.segments@.skip(0) =~= self.segments@);
        }
        loop
            invariant
                self.wf(),
                p < self.local_len(),
                0 <= i < n,
                n == self.segments@.len(),
                p >= self.segments@[i as int].local_start,
                map_pos_rec(self.segments@.skip(i as int), p as int) == self.map_pos(p as int),
            decreases n - i,
        {
            let s = self.segments[i];
            if p < s.local_start + s.len {
                proof {
                    let suf = self.segments@.skip(i as int);
                    assert(suf[0] == self.segments@[i as int]);
                }
                return s.doc_start + (p - s.local_start);
            }
            proof {
                let suf = self.segments@.skip(i as int);
                assert(suf[0] == self.segments@[i as int]);
                assert(suf.drop_first() =~= self.segments@.skip(i as int + 1));
                if i + 1 == n {
                    assert(self.segments@.last() == self.segments@[i as int]);
                    assert(false);
                }
            }
            i += 1;
        }
    }

    /// Maps a snippet-local span to the document-global span it came from.
    /// The start maps through the segment layout; the end is the mapped
    /// last contained byte plus one, so a span never leaks across a gap
    /// left by a stripped prefix.
    pub fn to_document(&self, local: Span) -> (r: Span)
        requires
            self.wf(),
            local.wf(),
            local.end <= self.local_len(),
        ensures
            r.wf(),
            r.start == self.doc_pos(local.start as int),
            r.end == if local.start < local.end {
                self.map_pos(local.end - 1) + 1
            } else {
                r.start as int
            },
    {
        if local.start == local.end {
            let p = if local.start < self.len_exec() {
                self.map_pos_exec(local.start)
            } else {
                self.doc_end_exec()
            };
            Span { start: p, end: p }
        } else {
            let s = self.map_pos_exec(local.start);
            let e = self.map_pos_exec(local.end - 1);
            proof {
                lemma_map_pos_bounds(self.segments@, local.end - 1);
                if (local.start as int) < local.end - 1 {
                    lemma_map_pos_mono(self.segments@, local.start as int, local.end - 1);
                }
            }
            Span { start: s, end: e + 1 }
        }
    }

    fn len_exec(&self) -> (r: usize)
        requires
            self.wf(),
        ensures
            r == self.local_len(),
    {
        let n = self.segments.len();
        if n == 0 {
            0
        } else {
            let s = self.segments[n - 1];
            s.local_start + s.len
        }
    }

    fn doc_end_exec(&self) -> (r: usize)
        requires
            self.wf(),
        ensures
            r == self.doc_end(),
    {
        let n = self.segments.len();
        if n == 0 {
            self.base
        } else {
            let s = self.segments[n - 1];
            s.doc_start + s.len
        }
    }
}

proof fn lemma_chain_tail(s: Seq<Segment>)
    requires
        segments_chained(s),
        s.len() > 0,
    ensures
        segments_chained(s.drop_first()),
{
    let t = s.drop_first();
    assert forall|i: int| 0 <= i < t.len() implies {
        &&& (#[trigger] t[i]).len >= 1
        &&& t[i].local_start + t[i].len <= usize::MAX
        &&& t[i].doc_start + t[i].len <= usize::MAX
    } by {
        assert(t[i] == s[i + 1]);
    }
    assert forall|i: int| 0 <= i && i + 1 < t.len() implies {
        &&& (#[trigger] t[i + 1]).local_start == t[i].local_start + t[i].len
        &&& t[i + 1].doc_start >= t[i].doc_start + t[i].len
    } by {
        assert(t[i] == s[i + 1]);
        assert(t[i + 1] == s[i + 2]);
    }
}

/// Within a chain, a mapped point that lies past the first segment maps at
/// or beyond the end of the first segment's document range.
proof fn lemma_map_pos_lb(s: Seq<Segment>, p: int)
    requires
        segments_chained(s),
        s.len() > 0,
        s[0].local_start + s[0].len <= p,
        p < s.last().local_start + s.last().len,
    ensures
        map_pos_rec(s, p) >= s[0].doc_start + s[0].len,
    decreases s.len(),
{
    let t = s.drop_first();
    assert(s.len() >= 2);
    lemma_chain_tail(s);
    assert(t[0] == s[1]);
    assert(t.last() == s.last());
    if p < t[0].local_start + t[0].len {
        assert(map_pos_rec(s, p) == map_pos_rec(t, p));
        assert(map_pos_rec(t, p) == t[0].doc_start + (p - t[0].local_start));
    } else {
        lemma_map_pos_lb(t, p);
    }
}

/// A mapped point inside the described snippet maps strictly below the
/// document end of the last segment.
pub proof fn lemma_map_pos_bounds(s: Seq<Segment>, p: int)
    requires
        segments_chained(s),
        s.len() > 0,
        s[0].local_start <= p,
        p < s.last().local_start + s.last().len,
    ensures
        s[0].doc_start <= map_pos_rec(s, p) < s.last().doc_start + s.last().len,
    decreases s.len(),
{
    if p < s[0].local_start + s[0].len {
        if s.len() >= 2 {
            lemma_doc_start_mono(s, 0, s.len() - 1);
        }
    } else {
        let t = s.drop_first();
        lemma_chain_tail(s);
        assert(t[0] == s[1]);
        assert(t.last() == s.last());
        lemma_map_pos_bounds(t, p);
    }
}

/// Along a chain, the document start of a later segment is at or beyond
/// the document end of any earlier one.
proof fn lemma_doc_start_mono(s: Seq<Segment>, i: int, j: int)
    requires
        segments_chained(s),
        0 <= i < j < s.len(),
    ensures
        s[j].doc_start >= s[i].doc_start + s[i].len,
    decreases j - i,
{
    if j == i + 1 {
    } else {
        lemma_doc_start_mono(s, i + 1, j);
    }
}

/// Mapping is strictly monotonic: of two points inside the snippet, the
/// earlier one maps to the strictly earlier document offset.
pub proof fn lemma_map_pos_mono(s: Seq<Segment>, a: int, b: int)
    requires
        segments_chained(s),
        s.len() > 0,
        s[0].local_start <= a < b,
        b < s.last().local_start + s.last().len,
    ensures
        map_pos_rec(s, a) < map_pos_rec(s, b),
    decreases s.len(),
{
    if a < s[0].local_start + s[0].len {
        if b < s[0].local_start + s[0].len {
        } else {
            assert(map_pos_rec(s, a) < s[0].doc_start + s[0].len);
            lemma_map_pos_lb(s, b);
        }
    } else {
        let t = s.drop_first();
        lemma_chain_tail(s);
        assert(t[0] == s[1]);
        assert(t.last() == s.last());
        lemma_map_pos_mono(t, a, b);
    }
}

/// Containment: every mapped position, the one-past-the-end insertion
/// point included, stays between the snippet's document start and its
/// document end. With it, a mapped span never leaves the block's origin.
pub proof fn lemma_doc_pos_contained(m: SpanMapper, p: int)
    requires
        m.wf(),
        0 <= p <= m.local_len(),
    ensures
        m.base <= m.doc_pos(p) <= m.doc_end(),
{
    let s = m.segments@;
    if p < m.local_len() {
        assert(s.len() > 0);
        lemma_map_pos_bounds(s, p);
    } else {
        if s.len() >= 2 {
            lemma_doc_start_mono(s, 0, s.len() - 1);
        }
    }
}

/// Mapping monotonicity for whole spans: of two local spans in the same
/// block, the one that starts earlier is mapped to the document span that
/// starts strictly earlier. The one-past-the-end insertion point is also
/// admitted as a start.
pub proof fn lemma_to_document_monotonic(m: SpanMapper, a: Span, b: Span)
    requires
        m.wf(),
        a.wf(),
        b.wf(),
        a.start < b.start,
        b.start <= m.local_len(),
    ensures
        m.doc_pos(a.start as int) < m.doc_pos(b.start as int),
{
    let s = m.segments@;
    assert(s.len() > 0);
    if (b.start as int) < m.local_len() {
        lemma_map_pos_mono(s, a.start as int, b.start as int);
    } else {
        lemma_map_pos_bounds(s, a.start as int);
    }
}

} // verus!
