use docspan::extract::BlockStructure;
use docspan::extract::extract_blocks;
use docspan::extract::mapper_for;
use docspan::span::Segment;
use docspan::span::Span;
use docspan::span::SpanMapper;

#[test]
fn finds_blocks_in_document_order() {
    let doc = b"intro\n```rust\nlet x = 1;\n```\nmiddle\n```text\nplain\n```\n";
    let blocks = extract_blocks(doc);
    assert_eq!(blocks.len(), 2);
    assert_eq!(blocks[0].language_tag, b"rust".to_vec());
    assert_eq!(blocks[0].raw_text, b"let x = 1;\n".to_vec());
    assert!(matches!(blocks[0].structure, BlockStructure::Closed));
    assert_eq!(blocks[1].language_tag, b"text".to_vec());
    assert_eq!(blocks[1].raw_text, b"plain\n".to_vec());
    let s0 = blocks[0].origin_span;
    let s1 = blocks[1].origin_span;
    assert_eq!(&doc[s0.start..s0.end], b"let x = 1;\n");
    assert_eq!(&doc[s1.start..s1.end], b"plain\n");
    assert!(s0.end <= s1.start);
}

#[test]
fn unterminated_fence_runs_to_document_end() {
    let doc = b"```rust\nlet y = 2;\n";
    let blocks = extract_blocks(doc);
    assert_eq!(blocks.len(), 1);
    assert!(matches!(blocks[0].structure, BlockStructure::Unterminated));
    assert_eq!(blocks[0].raw_text, b"let y = 2;\n".to_vec());
    assert_eq!(blocks[0].origin_span.end, doc.len());
}

#[test]
fn nested_fence_is_flagged_not_misparsed() {
    let doc = b"```rust\ncode\n```inner\nrest\n";
    let blocks = extract_blocks(doc);
    assert_eq!(blocks[0].language_tag, b"rust".to_vec());
    assert!(matches!(blocks[0].structure, BlockStructure::Nested));
    assert_eq!(blocks[0].raw_text, b"code\n".to_vec());
}

#[test]
fn document_without_fences_yields_no_blocks() {
    let doc = b"just prose\nover two lines\n";
    let blocks = extract_blocks(doc);
    assert_eq!(blocks.len(), 0);
}

#[test]
fn block_mapper_translates_by_origin() {
    let doc = b"a\n```rust\nxy\n```\n";
    let blocks = extract_blocks(doc);
    assert_eq!(blocks.len(), 1);
    let m = mapper_for(&blocks[0]);
    let mapped = m.to_document(Span { start: 0, end: 2 });
    let o = blocks[0].origin_span;
    assert_eq!(mapped.start, o.start);
    assert_eq!(mapped.end, o.start + 2);
}

#[test]
fn mapper_skips_stripped_prefixes() {
    // Two snippet lines of four bytes each, each copied from a document
    // line that carried a stripped four-byte prefix ("/// ").
    let segs = vec![
        Segment { local_start: 0, doc_start: 4, len: 4 },
        Segment { local_start: 4, doc_start: 12, len: 4 },
    ];
    let m = SpanMapper::new(4, segs).unwrap();
    let a = m.to_document(Span { start: 1, end: 3 });
    assert_eq!(a, Span { start: 5, end: 7 });
    // A span that ends at a line boundary ends at that line's document
    // end, it does not leak into the stripped prefix of the next line.
    let b = m.to_document(Span { start: 2, end: 6 });
    assert_eq!(b, Span { start: 6, end: 14 });
    let c = m.to_document(Span { start: 7, end: 8 });
    assert_eq!(c, Span { start: 15, end: 16 });
}

#[test]
fn empty_block_keeps_its_origin() {
    let doc = b"before\n```rust\n```\nafter\n";
    let blocks = extract_blocks(doc);
    assert_eq!(blocks.len(), 1);
    assert_eq!(blocks[0].raw_text.len(), 0);
    let o = blocks[0].origin_span;
    assert_eq!(o.start, o.end);
    assert!(o.start > 0);
    let m = mapper_for(&blocks[0]);
    // The insertion point of the empty snippet maps to the block's
    // origin, not to the start of the document.
    let mapped = m.to_document(Span { start: 0, end: 0 });
    assert_eq!(mapped, o);
}

#[test]
fn mapper_rejects_a_broken_chain() {
    let segs = vec![
        Segment { local_start: 0, doc_start: 0, len: 4 },
        Segment { local_start: 9, doc_start: 8, len: 4 },
    ];
    assert!(SpanMapper::new(0, segs).is_none());
    let overlapping = vec![
        Segment { local_start: 0, doc_start: 4, len: 4 },
        Segment { local_start: 4, doc_start: 6, len: 4 },
    ];
    assert!(SpanMapper::new(4, overlapping).is_none());
    let wrong_base = vec![Segment { local_start: 0, doc_start: 4, len: 4 }];
    assert!(SpanMapper::new(5, wrong_base).is_none());
}
