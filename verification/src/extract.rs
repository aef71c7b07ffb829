//! Locating fenced code blocks inside documentation text.
//!
//! A block opens at a line that starts with three backticks; the rest of
//! that line is its language tag. The block's text runs from the next
//! line to the line before the closing fence. A fence line that carries
//! extra characters inside a block is rejected as an attempted nested
//! fence, and a block whose fence is never closed runs to the end of the
//! document; both are flagged rather than dropped.

use vstd::prelude::*;

use crate::span::Span;
use crate::span::SpanMapper;
use vstd::slice::slice_subrange;
use vstd::slice::slice_to_vec;

verus! {

/// How a block's fences were found: properly closed, never terminated,
/// or terminated by a malformed (nested) fence line.
#[derive(Clone, Copy, PartialEq, Eq, Structural, Debug)]
pub enum BlockStructure {
    Closed,
    Unterminated,
    Nested,
}

/// One extracted code block: its language tag, its raw text, where the
/// text stands in the document, and how its fences were found.
#[derive(Clone, Debug)]
pub struct CodeBlock {
    pub language_tag: Vec<u8>,
    pub raw_text: Vec<u8>,
    pub origin_span: Span,
    pub structure: BlockStructure,
}

/// Ghost image of a code block.
pub struct BlockModel {
    pub tag: Seq<u8>,
    pub text: Seq<u8>,
    pub start: int,
    pub end: int,
    pub structure: BlockStructure,
}

impl View for CodeBlock {
    type V = BlockModel;

    open spec fn view(&self) -> BlockModel {
        BlockModel {
            tag: self.language_tag@,
            text: self.raw_text@,
            start: self.origin_span.start as int,
            end: self.origin_span.end as int,
            structure: self.structure,
        }
    }
}

/// The block's span is well formed and its text is exactly the document
/// bytes under its origin span.
pub open spec fn block_wf(b: CodeBlock) -> bool {
    &&& b.origin_span.wf()
    &&& b.raw_text@.len() == b.origin_span.spec_len()
}

/// The position of the newline that ends the line starting at `i`, or
/// the document length if the last line is unterminated.
pub open spec fn line_end(doc: Seq<u8>, i: int) -> int
    decreases doc.len() - i,
{
    if i >= doc.len() {
        doc.len() as int
    } else if doc[i] == 10 {
        i
    } else {
        line_end(doc, i + 1)
    }
}

pub proof fn lemma_line_end(doc: Seq<u8>, i: int)
    requires
        0 <= i <= doc.len(),
    ensures
        i <= line_end(doc, i) <= doc.len(),
    decreases doc.len() - i,
{
    if i >= doc.len() {
    } else if doc[i] == 10 {
    } else {
        lemma_line_end(doc, i + 1);
    }
}

/// The line starting at `i` opens or closes a fence: it begins with
/// three backticks.
pub open spec fn is_fence_at(doc: Seq<u8>, i: int) -> bool {
    &&& i + 2 < doc.len()
    &&& doc[i] == 96
    &&& doc[i + 1] == 96
    &&& doc[i + 2] == 96
}

/// The first fence line at or after line start `k`, or the document
/// length if none follows.
pub open spec fn find_fence(doc: Seq<u8>, k: int) -> int
    decreases doc.len() - k,
    when 0 <= k
    via find_fence_decreases
{
    if k >= doc.len() {
        doc.len() as int
    } else if is_fence_at(doc, k) {
        k
    } else if line_end(doc, k) >= doc.len() {
        doc.len() as int
    } else {
        find_fence(doc, line_end(doc, k) + 1)
    }
}

#[via_fn]
proof fn find_fence_decreases(doc: Seq<u8>, k: int) {
    if 0 <= k < doc.len() {
        lemma_line_end(doc, k);
    }
}

pub proof fn lemma_find_fence(doc: Seq<u8>, k: int)
    requires
        0 <= k <= doc.len(),
    ensures
        k <= find_fence(doc, k) <= doc.len(),
    decreases doc.len() - k,
{
    if k >= doc.len() {
    } else if is_fence_at(doc, k) {
    } else if line_end(doc, k) >= doc.len() {
    } else {
        lemma_line_end(doc, k);
        lemma_find_fence(doc, line_end(doc, k) + 1);
    }
}

/// The blocks of the document from line start `i` on, in document
/// order.
pub open spec fn spec_blocks(doc: Seq<u8>, i: int) -> Seq<BlockModel>
    decreases doc.len() - i,
    when 0 <= i
    via spec_blocks_decreases
{
    if i >= doc.len() {
        Seq::empty()
    } else if is_fence_at(doc, i) {
        let j = line_end(doc, i);
        let cs = if j >= doc.len() {
            doc.len() as int
        } else {
            j + 1
        };
        let tag = doc.subrange(i + 3, j);
        let k = find_fence(doc, cs);
        if k >= doc.len() {
            seq![
                BlockModel {
                    tag,
                    text: doc.subrange(cs, doc.len() as int),
                    start: cs,
                    end: doc.len() as int,
                    structure: BlockStructure::Unterminated,
                },
            ]
        } else {
            let m = line_end(doc, k);
            let b = BlockModel {
                tag,
                text: doc.subrange(cs, k),
                start: cs,
                end: k,
                structure: if m - k == 3 {
                    BlockStructure::Closed
                } else {
                    BlockStructure::Nested
                },
            };
            let next = if m >= doc.len() {
                doc.len() as int
            } else {
                m + 1
            };
            seq![b] + spec_blocks(doc, next)
        }
    } else {
        let e = line_end(doc, i);
        let next = if e >= doc.len() {
            doc.len() as int
        } else {
            e + 1
        };
        spec_blocks(doc, next)
    }
}

#[via_fn]
proof fn spec_blocks_decreases(doc: Seq<u8>, i: int) {
    if 0 <= i < doc.len() {
        lemma_line_end(doc, i);
        if is_fence_at(doc, i) {
            let j = line_end(doc, i);
            let cs = if j >= doc.len() {
                doc.len() as int
            } else {
                j + 1
            };
            lemma_find_fence(doc, cs);
            let k = find_fence(doc, cs);
            if k < doc.len() {
                lemma_line_end(doc, k);
            }
        }
    }
}

fn line_end_exec(doc: &[u8], i: usize) -> (r: usize)
    requires
        i <= doc@.len(),
    ensures
        r == line_end(doc@, i as int),
        i <= r <= doc@.len(),
{
    let n = doc.len();
    let mut j = i;
    while j < n
        invariant
            i <= j <= n,
            n == doc@.len(),
            line_end(doc@, j as int) == line_end(doc@, i as int),
            forall|t: int| i <= t < j ==> doc@[t] != 10,
        decreases n - j,
    {
        if doc[j] == 10 {
            proof {
                lemma_line_end(doc@, i as int);
            }
            return j;
        }
        j += 1;
    }
    proof {
        lemma_line_end(doc@, i as int);
    }
    n
}

fn is_fence_exec(doc: &[u8], i: usize) -> (r: bool)
    requires
        i <= doc@.len(),
    ensures
        r == is_fence_at(doc@, i as int),
{
    let n = doc.len();
    if n - i < 3 {
        return false;
    }
    doc[i] == 96 && doc[i + 1] == 96 && doc[i + 2] == 96
}

fn find_fence_exec(doc: &[u8], k: usize) -> (r: usize)
    requires
        k <= doc@.len(),
    ensures
        r == find_fence(doc@, k as int),
        k <= r <= doc@.len(),
{
    let n = doc.len();
    let mut j = k;
    loop
        invariant
            k <= j <= n,
            n == doc@.len(),
            find_fence(doc@, j as int) == find_fence(doc@, k as int),
        decreases n - j,
    {
        if j >= n {
            return n;
        }
        if is_fence_exec(doc, j) {
            proof {
                lemma_find_fence(doc@, k as int);
            }
            return j;
        }
        let e = line_end_exec(doc, j);
        if e >= n {
            return n;
        }
        j = e + 1;
    }
}

/// Appending one block to a sequence appends its model to the model
/// sequence.
proof fn lemma_view_push(pre: Seq<CodeBlock>, b: CodeBlock)
    ensures
        pre.push(b).map_values(|x: CodeBlock| x@) == pre.map_values(|x: CodeBlock| x@).push(b@),
{
    let lhs = pre.push(b).map_values(|x: CodeBlock| x@);
    let rhs = pre.map_values(|x: CodeBlock| x@).push(b@);
    assert forall|j: int| #![trigger lhs[j]] 0 <= j < lhs.len() implies lhs[j] == rhs[j] by {
        if j < pre.len() {
            assert(pre.push(b)[j] == pre[j]);
        } else {
            assert(pre.push(b)[j] == b);
        }
    }
    assert(lhs =~= rhs);
}

/// Scans the documentation text and yields its code blocks in document
/// order, exactly as `spec_blocks` describes them: every block's text is
/// the document bytes under its origin span, blocks do not overlap, and
/// a malformed fence is flagged, never silently dropped.
#[verifier::rlimit(100)]
pub fn extract_blocks(doc: &[u8]) -> (blocks: Vec<CodeBlock>)
    ensures
        blocks@.map_values(|b: CodeBlock| b@) == spec_blocks(doc@, 0),
        forall|x: int|
            0 <= x < blocks@.len() ==> block_wf(#[trigger] blocks@[x]) && blocks@[x].origin_span.end
                <= doc@.len(),
        forall|x: int|
            0 <= x < blocks@.len() ==> (#[trigger] blocks@[x]).raw_text@ == doc@.subrange(
                blocks@[x].origin_span.start as int,
                blocks@[x].origin_span.end as int,
            ),
        forall|x: int|
            0 <= x && x + 1 < blocks@.len() ==> (#[trigger] blocks@[x]).origin_span.end
                <= blocks@[x + 1].origin_span.start,
{
    let n = doc.len();
    let mut blocks: Vec<CodeBlock> = Vec::new();
    let mut i: usize = 0;
    while i < n
        invariant
            0 <= i <= n,
            n == doc@.len(),
            spec_blocks(doc@, 0) == blocks@.map_values(|b: CodeBlock| b@) + spec_blocks(
                doc@,
                i as int,
            ),
            forall|x: int|
                0 <= x < blocks@.len() ==> block_wf(#[trigger] blocks@[x])
                    && blocks@[x].origin_span.end <= i,
            forall|x: int|
                0 <= x < blocks@.len() ==> (#[trigger] blocks@[x]).raw_text@ == doc@.subrange(
                    blocks@[x].origin_span.start as int,
                    blocks@[x].origin_span.end as int,
                ),
            forall|x: int|
                0 <= x && x + 1 < blocks@.len() ==> (#[trigger] blocks@[x]).origin_span.end
                    <= blocks@[x + 1].origin_span.start,
        decreases n - i,
    {
        let ghost pre = blocks@;
        let ghost i0 = i as int;
        if is_fence_exec(doc, i) {
            let j = line_end_exec(doc, i);
            proof {
                assert(doc@[i0] != 10 && doc@[i0 + 1] != 10 && doc@[i0 + 2] != 10);
                assert(line_end(doc@, i0) == line_end(doc@, i0 + 1));
                assert(line_end(doc@, i0 + 1) == line_end(doc@, i0 + 2));
                assert(line_end(doc@, i0 + 2) == line_end(doc@, i0 + 3));
                lemma_line_end(doc@, i0 + 3);
            }
            let tag = slice_to_vec(slice_subrange(doc, i + 3, j));
            let cs = if j >= n {
                n
            } else {
                j + 1
            };
            let k = find_fence_exec(doc, cs);
            if k >= n {
                let b = CodeBlock {
                    language_tag: tag,
                    raw_text: slice_to_vec(slice_subrange(doc, cs, n)),
                    origin_span: Span { start: cs, end: n },
                    structure: BlockStructure::Unterminated,
                };
                proof {
                    lemma_view_push(pre, b);
                    assert(spec_blocks(doc@, i0) =~= seq![b@]);
                    assert(pre.map_values(|x: CodeBlock| x@) + spec_blocks(doc@, i0)
                        =~= pre.map_values(|x: CodeBlock| x@).push(b@));
                    assert(spec_blocks(doc@, n as int) =~= Seq::<BlockModel>::empty());
                    assert(pre.map_values(|x: CodeBlock| x@).push(b@) + spec_blocks(doc@, n as int)
                        =~= pre.map_values(|x: CodeBlock| x@).push(b@));
                }
                blocks.push(b);
                i = n;
            } else {
                let m = line_end_exec(doc, k);
                let b = CodeBlock {
                    language_tag: tag,
                    raw_text: slice_to_vec(slice_subrange(doc, cs, k)),
                    origin_span: Span { start: cs, end: k },
                    structure: if m - k == 3 {
                        BlockStructure::Closed
                    } else {
                        BlockStructure::Nested
                    },
                };
                let next = if m >= n {
                    n
                } else {
                    m + 1
                };
                proof {
                    lemma_view_push(pre, b);
                    assert(spec_blocks(doc@, i0) =~= seq![b@] + spec_blocks(doc@, next as int));
                    assert(pre.map_values(|x: CodeBlock| x@) + (seq![b@] + spec_blocks(
                        doc@,
                        next as int,
                    )) =~= pre.map_values(|x: CodeBlock| x@).push(b@) + spec_blocks(
                        doc@,
                        next as int,
                    ));
                }
                blocks.push(b);
                i = next;
            }
        } else {
            let e = line_end_exec(doc, i);
            let next = if e >= n {
                n
            } else {
                e + 1
            };
            proof {
                assert(spec_blocks(doc@, i0) == spec_blocks(doc@, next as int));
            }
            i = next;
        }
    }
    proof {
        assert(spec_blocks(doc@, i as int) =~= Seq::<BlockModel>::empty());
        assert(blocks@.map_values(|b: CodeBlock| b@) + spec_blocks(doc@, i as int)
            =~= blocks@.map_values(|b: CodeBlock| b@));
    }
    blocks
}

/// The span mapper for a block extracted by `extract_blocks`: its text
/// is a verbatim copy of the document bytes at its origin, so every
/// local offset maps by the origin's start, and even an empty block's
/// insertion point stays anchored at its origin.
pub fn mapper_for(block: &CodeBlock) -> (m: SpanMapper)
    requires
        block_wf(*block),
    ensures
        m.wf(),
        m.base == block.origin_span.start,
        m.local_len() == block.raw_text@.len(),
        forall|p: int|
            0 <= p < block.raw_text@.len() ==> m.map_pos(p) == block.origin_span.start + p,
        m.doc_end() == block.origin_span.end,
{
    SpanMapper::contiguous(block.origin_span.start, block.raw_text.len())
}

/// Byte exactness of the mapping: for a block whose text is the document
/// bytes under its origin span, the document bytes under a mapped local
/// range are exactly the block text's bytes under that range.
pub proof fn lemma_block_mapping_exact(doc: Seq<u8>, b: CodeBlock, a: int, e: int)
    requires
        b.origin_span.wf(),
        b.origin_span.end <= doc.len(),
        b.raw_text@ == doc.subrange(b.origin_span.start as int, b.origin_span.end as int),
        0 <= a <= e <= b.raw_text@.len(),
    ensures
        doc.subrange(b.origin_span.start + a, b.origin_span.start + e) == b.raw_text@.subrange(
            a,
            e,
        ),
{
    let o = b.origin_span;
    assert(b.raw_text@.len() == o.end - o.start);
    assert forall|i: int|
        0 <= i < e - a implies doc.subrange(o.start + a, o.start + e)[i] == b.raw_text@.subrange(
        a,
        e,
    )[i] by {
        assert(doc.subrange(o.start + a, o.start + e)[i] == doc[o.start + a + i]);
        assert(b.raw_text@.subrange(a, e)[i] == b.raw_text@[a + i]);
        assert(b.raw_text@[a + i] == doc.subrange(o.start as int, o.end as int)[a + i]);
        assert(doc.subrange(o.start as int, o.end as int)[a + i] == doc[o.start + a + i]);
    }
    assert(doc.subrange(o.start + a, o.start + e) =~= b.raw_text@.subrange(a, e));
}

} // verus!
