use docspan::annotate::AnalysisError;
use docspan::annotate::TypeFact;
use docspan::extract::extract_blocks;
use docspan::merge::HighlightClass;
use docspan::merge::HighlightFact;
use docspan::pipeline::BlockOutput;
use docspan::pipeline::EngineOutcome;
use docspan::pipeline::process_block;
use docspan::pipeline::process_unit;
use docspan::span::Span;

fn fact(start: usize, end: usize, label: &str) -> TypeFact {
    TypeFact {
        snippet_span: Span { start, end },
        label: label.to_string(),
        diagnostic: None,
    }
}

fn hl(start: usize, end: usize, class: HighlightClass) -> HighlightFact {
    HighlightFact { snippet_span: Span { start, end }, class }
}

fn rebuilt_text(out: &BlockOutput) -> Vec<u8> {
    let mut bytes: Vec<u8> = Vec::new();
    for t in &out.tokens {
        bytes.extend_from_slice(&t.text_slice);
    }
    bytes
}

fn labels(out: &BlockOutput) -> Vec<Option<String>> {
    out.tokens.iter().map(|t| t.type_label.clone()).collect()
}

#[test]
fn non_annotatable_tag_keeps_highlight_only() {
    let doc = b"```text\nlet x = 1;\n```\n";
    let blocks = extract_blocks(doc);
    let highlights = vec![vec![hl(0, 3, HighlightClass::Keyword)]];
    let outcomes = vec![EngineOutcome::Facts(vec![fact(4, 5, "i32")])];
    let outs = process_unit(&blocks, &highlights, &outcomes, b"rust");
    assert_eq!(outs.len(), 1);
    assert!(!outs[0].annotated);
    assert!(outs[0].error.is_none());
    assert!(labels(&outs[0]).iter().all(|l| l.is_none()));
    assert_eq!(outs[0].tokens[0].class, Some(HighlightClass::Keyword));
    assert_eq!(rebuilt_text(&outs[0]), b"let x = 1;\n".to_vec());
}

#[test]
fn timeout_leaves_siblings_fully_annotated() {
    let doc = b"```rust\nlet a = 1;\n```\n```rust\nlet b = 2;\n```\n```rust\nlet c = 3;\n```\n";
    let blocks = extract_blocks(doc);
    assert_eq!(blocks.len(), 3);
    let highlights = vec![
        vec![hl(0, 3, HighlightClass::Keyword)],
        vec![hl(0, 3, HighlightClass::Keyword)],
        vec![hl(0, 3, HighlightClass::Keyword)],
    ];
    let outcomes = vec![
        EngineOutcome::Facts(vec![fact(4, 5, "i32")]),
        EngineOutcome::Failed(AnalysisError::Timeout),
        EngineOutcome::Facts(vec![fact(4, 5, "i64")]),
    ];
    let outs = process_unit(&blocks, &highlights, &outcomes, b"rust");
    assert_eq!(outs.len(), 3);
    assert!(outs[0].annotated);
    assert!(labels(&outs[0]).contains(&Some("i32".to_string())));
    assert!(!outs[1].annotated);
    assert!(matches!(outs[1].error, Some(AnalysisError::Timeout)));
    assert!(labels(&outs[1]).iter().all(|l| l.is_none()));
    assert!(outs[2].annotated);
    assert!(labels(&outs[2]).contains(&Some("i64".to_string())));
    assert_eq!(rebuilt_text(&outs[1]), b"let b = 2;\n".to_vec());
}

#[test]
fn engine_unavailable_degrades_one_block() {
    let doc = b"```rust\nlet a = 1;\n```\n";
    let blocks = extract_blocks(doc);
    let highlights = vec![hl(0, 3, HighlightClass::Keyword)];
    let outcome = EngineOutcome::Failed(AnalysisError::EngineUnavailable);
    let out = process_block(&blocks[0], true, &highlights, &outcome);
    assert!(!out.annotated);
    assert!(matches!(out.error, Some(AnalysisError::EngineUnavailable)));
    assert!(labels(&out).iter().all(|l| l.is_none()));
    assert_eq!(rebuilt_text(&out), b"let a = 1;\n".to_vec());
}

#[test]
fn out_of_bounds_reply_reads_as_malformed() {
    let doc = b"```rust\nab\n```\n";
    let blocks = extract_blocks(doc);
    let outcome = EngineOutcome::Facts(vec![fact(0, 50, "i32")]);
    let out = process_block(&blocks[0], true, &Vec::new(), &outcome);
    assert!(!out.annotated);
    assert!(matches!(out.error, Some(AnalysisError::Malformed)));
    assert!(labels(&out).iter().all(|l| l.is_none()));
    assert_eq!(rebuilt_text(&out), b"ab\n".to_vec());
}

#[test]
fn malformed_fence_is_not_annotated() {
    let doc = b"```rust\ncode\n```oops\n";
    let blocks = extract_blocks(doc);
    let outcome = EngineOutcome::Facts(vec![fact(0, 4, "i32")]);
    let out = process_block(&blocks[0], true, &Vec::new(), &outcome);
    assert!(!out.annotated);
    assert!(out.error.is_none());
    assert!(labels(&out).iter().all(|l| l.is_none()));
    assert_eq!(rebuilt_text(&out), b"code\n".to_vec());
}
