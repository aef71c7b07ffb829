use docspan::annotate::AnalysisError;
use docspan::annotate::TypeFact;
use docspan::annotate::normalize_reply;
use docspan::emit::emit_tokens;
use docspan::merge::Decoration;
use docspan::merge::HighlightClass;
use docspan::merge::HighlightFact;
use docspan::merge::merge;
use docspan::span::Span;

fn fact(start: usize, end: usize, label: &str) -> TypeFact {
    TypeFact {
        snippet_span: Span { start, end },
        label: label.to_string(),
        diagnostic: None,
    }
}

fn hl(start: usize, end: usize, class: HighlightClass) -> HighlightFact {
    HighlightFact { snippet_span: Span { start, end }, class }
}

fn check_dec(
    d: &Decoration,
    start: usize,
    end: usize,
    class: Option<HighlightClass>,
    label: Option<&str>,
    conflict: bool,
) {
    assert_eq!(d.snippet_span.start, start);
    assert_eq!(d.snippet_span.end, end);
    assert_eq!(d.class, class);
    assert_eq!(d.type_label.as_deref(), label);
    assert_eq!(d.conflict, conflict);
}

#[test]
fn gap_filling_and_non_overlap() {
    let text = "let total: i32 = scores.values().sum();";
    let highlights = vec![hl(0, 3, HighlightClass::Keyword)];
    let types = vec![fact(4, 9, "i32")];
    let decs = merge(&highlights, &types, text.len());
    assert_eq!(decs.len(), 4);
    check_dec(&decs[0], 0, 3, Some(HighlightClass::Keyword), None, false);
    check_dec(&decs[1], 3, 4, None, None, false);
    check_dec(&decs[2], 4, 9, None, Some("i32"), false);
    check_dec(&decs[3], 9, text.len(), None, None, false);
}

#[test]
fn merge_is_order_independent() {
    let text = "alpha beta gamma";
    let h1 = vec![
        hl(0, 5, HighlightClass::Identifier),
        hl(6, 10, HighlightClass::Keyword),
    ];
    let h2 = vec![
        hl(6, 10, HighlightClass::Keyword),
        hl(0, 5, HighlightClass::Identifier),
    ];
    let t1 = vec![fact(0, 5, "u64"), fact(11, 16, "String")];
    let t2 = vec![fact(11, 16, "String"), fact(0, 5, "u64")];
    let a = merge(&h1, &t1, text.len());
    let b = merge(&h2, &t2, text.len());
    assert_eq!(a.len(), b.len());
    for (x, y) in a.iter().zip(b.iter()) {
        assert_eq!(x.snippet_span, y.snippet_span);
        assert_eq!(x.class, y.class);
        assert_eq!(x.type_label, y.type_label);
        assert_eq!(x.conflict, y.conflict);
    }
}

#[test]
fn conflicting_type_facts_are_flagged() {
    let text = "value";
    let types = vec![fact(0, 5, "i32"), fact(0, 5, "u8")];
    let decs = merge(&Vec::new(), &types, text.len());
    assert_eq!(decs.len(), 1);
    check_dec(&decs[0], 0, 5, None, None, true);
}

#[test]
fn overlapping_facts_are_split_at_boundaries() {
    let text = "abcdef";
    let highlights = vec![hl(0, 4, HighlightClass::StringText)];
    let types = vec![fact(2, 6, "char")];
    let decs = merge(&highlights, &types, text.len());
    assert_eq!(decs.len(), 3);
    check_dec(&decs[0], 0, 2, Some(HighlightClass::StringText), None, false);
    check_dec(&decs[1], 2, 4, Some(HighlightClass::StringText), Some("char"), false);
    check_dec(&decs[2], 4, 6, None, Some("char"), false);
    for pair in decs.windows(2) {
        assert!(pair[0].snippet_span.end <= pair[1].snippet_span.start);
    }
}

#[test]
fn zero_length_facts_only_cut() {
    let text = "xy";
    let types = vec![fact(1, 1, "marker")];
    let decs = merge(&Vec::new(), &types, text.len());
    assert_eq!(decs.len(), 2);
    check_dec(&decs[0], 0, 1, None, None, false);
    check_dec(&decs[1], 1, 2, None, None, false);
}

#[test]
fn empty_snippet_merges_to_nothing() {
    let decs = merge(&Vec::new(), &Vec::new(), 0);
    assert_eq!(decs.len(), 0);
}

#[test]
fn tokens_reproduce_text_exactly() {
    let text = "let total: i32 = scores.values().sum();";
    let highlights = vec![hl(0, 3, HighlightClass::Keyword)];
    let types = vec![fact(4, 9, "i32")];
    let decs = merge(&highlights, &types, text.len());
    let toks = emit_tokens(text.as_bytes(), &decs);
    assert_eq!(toks.len(), decs.len());
    let mut rebuilt: Vec<u8> = Vec::new();
    for t in &toks {
        rebuilt.extend_from_slice(&t.text_slice);
    }
    assert_eq!(rebuilt, text.as_bytes());
    assert_eq!(toks[0].class, Some(HighlightClass::Keyword));
    assert_eq!(toks[2].type_label.as_deref(), Some("i32"));
}

#[test]
fn malformed_reply_is_rejected_whole() {
    let good = vec![fact(0, 3, "i32")];
    assert!(normalize_reply(good, 5).is_ok());
    let bad = vec![fact(0, 3, "i32"), fact(2, 9, "u8")];
    assert!(matches!(normalize_reply(bad, 5), Err(AnalysisError::Malformed)));
}
