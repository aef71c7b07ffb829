//! Merging the syntax-highlighting stream with the type-fact stream into
//! one ordered, non-overlapping decoration set.
//!
//! The merge collects every distinct span boundary of both streams, cuts
//! the snippet at those boundaries, and gives each resulting minimal
//! interval the union of the facts that cover it. Facts of one kind that
//! disagree on an interval are reported through a conflict marker, never
//! silently resolved.

use vstd::prelude::*;

use crate::annotate::TypeFact;
use crate::annotate::ty_facts_wf;
use crate::span::Span;

verus! {

/// Syntax class assigned by the highlighter, independent of the type
/// engine.
#[derive(Clone, Copy, PartialEq, Eq, Structural, Debug)]
pub enum HighlightClass {
    Keyword,
    Identifier,
    Literal,
    StringText,
    Comment,
    Punctuation,
}

/// One observation from the syntax highlighter, in the same snippet-local
/// coordinate space as the type facts.
#[derive(Clone, Copy, PartialEq, Eq, Structural, Debug)]
pub struct HighlightFact {
    pub snippet_span: Span,
    pub class: HighlightClass,
}

/// One merged interval: a snippet-local span carrying the highlight class
/// and the type label that apply to all of it, and a marker for facts of
/// one kind that disagreed on it.
#[derive(Clone, Debug)]
pub struct Decoration {
    pub snippet_span: Span,
    pub class: Option<HighlightClass>,
    pub type_label: Option<String>,
    pub conflict: bool,
}

/// All highlight spans are well formed and stay inside a snippet of
/// length `len`.
pub open spec fn hl_facts_wf(hs: Seq<HighlightFact>, len: int) -> bool {
    forall|i: int|
        0 <= i < hs.len() ==> (#[trigger] hs[i]).snippet_span.wf() && hs[i].snippet_span.end <= len
}

pub open spec fn hl_covers(h: HighlightFact, p: int) -> bool {
    h.snippet_span.start <= p < h.snippet_span.end
}

pub open spec fn ty_covers(t: TypeFact, p: int) -> bool {
    t.snippet_span.start <= p < t.snippet_span.end
}

/// Some highlight fact of class `c` covers point `p`.
pub open spec fn has_class_at(hs: Seq<HighlightFact>, p: int, c: HighlightClass) -> bool {
    exists|i: int| 0 <= i < hs.len() && hl_covers(#[trigger] hs[i], p) && hs[i].class == c
}

/// Two highlight facts of different classes cover point `p`.
pub open spec fn class_conflict_at(hs: Seq<HighlightFact>, p: int) -> bool {
    exists|c1: HighlightClass, c2: HighlightClass|
        c1 != c2 && #[trigger] has_class_at(hs, p, c1) && #[trigger] has_class_at(hs, p, c2)
}

/// Some type fact whose label reads `l` covers point `p`.
pub open spec fn has_label_at(ts: Seq<TypeFact>, p: int, l: Seq<char>) -> bool {
    exists|i: int| 0 <= i < ts.len() && ty_covers(#[trigger] ts[i], p) && ts[i].label@ == l
}

/// Two type facts with different labels cover point `p`.
pub open spec fn label_conflict_at(ts: Seq<TypeFact>, p: int) -> bool {
    exists|l1: Seq<char>, l2: Seq<char>|
        l1 != l2 && #[trigger] has_label_at(ts, p, l1) && #[trigger] has_label_at(ts, p, l2)
}

/// `p` is a span boundary of either stream, or an end of the snippet.
pub open spec fn is_boundary(
    hs: Seq<HighlightFact>,
    ts: Seq<TypeFact>,
    len: int,
    p: int,
) -> bool {
    ||| p == 0
    ||| p == len
    ||| exists|i: int|
        0 <= i < hs.len() && ((#[trigger] hs[i]).snippet_span.start == p || hs[i].snippet_span.end
            == p)
    ||| exists|i: int|
        0 <= i < ts.len() && ((#[trigger] ts[i]).snippet_span.start == p || ts[i].snippet_span.end
            == p)
}

/// A label as a character sequence.
pub open spec fn opt_label_view(o: Option<String>) -> Option<Seq<char>> {
    match o {
        Some(s) => Some(s@),
        None => None,
    }
}

/// `cand` is the one class all highlight facts covering `p` agree on (or
/// nothing), and `conf` records whether covering facts disagreed.
pub open spec fn class_choice_ok(
    hs: Seq<HighlightFact>,
    p: int,
    cand: Option<HighlightClass>,
    conf: bool,
) -> bool {
    &&& conf == class_conflict_at(hs, p)
    &&& forall|c: HighlightClass|
        (cand == Some(c)) <==> (#[trigger] has_class_at(hs, p, c) && !conf)
}

/// `cand` is the one label all type facts covering `p` agree on (or
/// nothing), and `conf` records whether covering facts disagreed.
pub open spec fn label_choice_ok(
    ts: Seq<TypeFact>,
    p: int,
    cand: Option<String>,
    conf: bool,
) -> bool {
    &&& conf == label_conflict_at(ts, p)
    &&& forall|l: Seq<char>|
        (opt_label_view(cand) == Some(l)) <==> (#[trigger] has_label_at(ts, p, l) && !conf)
}

/// The decorations tile `[0, len)` without gaps: consecutive, non-empty,
/// starting at zero and ending at `len`.
pub open spec fn tiles(out: Seq<Decoration>, len: int) -> bool {
    &&& (len <= 0 ==> out.len() == 0)
    &&& (len > 0 ==> out.len() > 0 && out[0].snippet_span.start == 0 && out[out.len()
        - 1].snippet_span.end == len)
    &&& forall|k: int|
        0 <= k < out.len() ==> (#[trigger] out[k]).snippet_span.start < out[k].snippet_span.end
    &&& forall|k: int|
        0 <= k && k + 1 < out.len() ==> (#[trigger] out[k + 1]).snippet_span.start
            == out[k].snippet_span.end
}

/// Every decoration runs exactly from one boundary to the next: its ends
/// are boundaries and no boundary falls strictly inside it.
pub open spec fn cut_at_boundaries(
    hs: Seq<HighlightFact>,
    ts: Seq<TypeFact>,
    len: int,
    out: Seq<Decoration>,
) -> bool {
    &&& forall|k: int|
        0 <= k < out.len() ==> is_boundary(
            hs,
            ts,
            len,
            (#[trigger] out[k]).snippet_span.start as int,
        ) && is_boundary(hs, ts, len, out[k].snippet_span.end as int)
    &&& forall|k: int, p: int|
        #![trigger out[k], is_boundary(hs, ts, len, p)]
        0 <= k < out.len() && out[k].snippet_span.start < p < out[k].snippet_span.end
            ==> !is_boundary(hs, ts, len, p)
}

/// The decoration carries exactly the information of the facts that
/// cover it: the one agreed class and the one agreed label of the
/// covering facts, and the conflict marker exactly when facts of one
/// kind disagree.
pub open spec fn payload_ok(hs: Seq<HighlightFact>, ts: Seq<TypeFact>, d: Decoration) -> bool {
    &&& class_choice_ok(
        hs,
        d.snippet_span.start as int,
        d.class,
        class_conflict_at(hs, d.snippet_span.start as int),
    )
    &&& label_choice_ok(
        ts,
        d.snippet_span.start as int,
        d.type_label,
        label_conflict_at(ts, d.snippet_span.start as int),
    )
    &&& d.conflict == (class_conflict_at(hs, d.snippet_span.start as int) || label_conflict_at(
        ts,
        d.snippet_span.start as int,
    ))
}

/// Full characterization of the merge result. It mentions the two fact
/// streams only through point-coverage and boundary predicates, so it is
/// insensitive to the order in which the facts arrive.
pub open spec fn merged_spec(
    hs: Seq<HighlightFact>,
    ts: Seq<TypeFact>,
    len: int,
    out: Seq<Decoration>,
) -> bool {
    &&& tiles(out, len)
    &&& cut_at_boundaries(hs, ts, len, out)
    &&& forall|k: int| 0 <= k < out.len() ==> payload_ok(hs, ts, #[trigger] out[k])
}

pub open spec fn sorted_strict(s: Seq<usize>) -> bool {
    forall|i: int, j: int| 0 <= i < j < s.len() ==> s[i] < s[j]
}

/// The index of the first element at or above `v` in a strictly sorted
/// vector.
fn lower_bound(b: &Vec<usize>, v: usize) -> (i: usize)
    requires
        sorted_strict(b@),
    ensures
        0 <= i <= b@.len(),
        forall|k: int| 0 <= k < i ==> (#[trigger] b@[k]) < v,
        i < b@.len() ==> b@[i as int] >= v,
{
    let n = b.len();
    let mut i: usize = 0;
    while i < n
        invariant
            0 <= i <= n,
            n == b@.len(),
            forall|k: int| 0 <= k < i ==> (#[trigger] b@[k]) < v,
        decreases n - i,
    {
        if b[i] >= v {
            return i;
        }
        i += 1;
    }
    i
}

/// Inserts `v` into a strictly sorted vector, keeping it strictly sorted
/// and leaving its set of elements plus `v`.
fn insert_sorted(b: &mut Vec<usize>, v: usize)
    requires
        sorted_strict(old(b)@),
    ensures
        sorted_strict(final(b)@),
        forall|x: usize| final(b)@.contains(x) <==> (old(b)@.contains(x) || x == v),
{
    let i = lower_bound(b, v);
    if i < b.len() && b[i] == v {
        return ;
    }
    let ghost pre = b@;
    b.insert(i, v);
    proof {
        assert(b@ == pre.insert(i as int, v));
        assert(b@[i as int] == v);
        assert forall|x: usize| b@.contains(x) implies (pre.contains(x) || x == v) by {
            let k = choose|k: int| 0 <= k < b@.len() && b@[k] == x;
            if k < i {
                assert(pre[k] == x);
            } else if k > i {
                assert(pre[k - 1] == x);
            }
        }
        assert forall|x: usize| (pre.contains(x) || x == v) implies b@.contains(x) by {
            if x == v {
                assert(b@[i as int] == v);
            } else {
                let k = choose|k: int| 0 <= k < pre.len() && pre[k] == x;
                if k < i {
                    assert(b@[k] == x);
                } else {
                    assert(b@[k + 1] == x);
                }
            }
        }
        assert forall|p: int, q: int| 0 <= p < q < b@.len() implies b@[p] < b@[q] by {
            if q < i {
                assert(b@[p] == pre[p] && b@[q] == pre[q]);
            } else if p > i {
                assert(b@[p] == pre[p - 1] && b@[q] == pre[q - 1]);
            } else if p < i && q == i {
                assert(b@[p] == pre[p] && pre[p] < v);
            } else if p == i {
                assert(b@[q] == pre[q - 1] && q - 1 >= i);
                assert(pre[q - 1] >= pre[i as int] && pre[i as int] > v);
            } else {
                assert(p < i && q > i);
                assert(b@[p] == pre[p] && b@[q] == pre[q - 1]);
                if q - 1 == i {
                    assert(pre[q - 1] >= v && pre[q - 1] != v);
                } else {
                    assert(pre[q - 1] >= pre[i as int]);
                }
                assert(pre[p] < v);
            }
        }
    }
}

/// Collects every distinct boundary point of both streams, in strictly
/// increasing order: exactly the points `is_boundary` describes.
fn collect_boundaries(
    highlights: &Vec<HighlightFact>,
    types: &Vec<TypeFact>,
    snippet_len: usize,
) -> (b: Vec<usize>)
    requires
        hl_facts_wf(highlights@, snippet_len as int),
        ty_facts_wf(types@, snippet_len as int),
    ensures
        sorted_strict(b@),
        forall|p: usize|
            b@.contains(p) <==> is_boundary(highlights@, types@, snippet_len as int, p as int),
        forall|k: int| 0 <= k < b@.len() ==> (#[trigger] b@[k]) <= snippet_len,
{
    let mut b: Vec<usize> = Vec::new();
    b.push(0);
    proof {
        assert(b@[0] == 0usize);
        assert(b@.contains(0usize));
    }
    insert_sorted(&mut b, snippet_len);
    let nh = highlights.len();
    let mut i: usize = 0;
    while i < nh
        invariant
            0 <= i <= nh,
            nh == highlights@.len(),
            sorted_strict(b@),
            b@.contains(0usize),
            b@.contains(snippet_len),
            forall|x: usize|
                b@.contains(x) ==> {
                    ||| x == 0
                    ||| x == snippet_len
                    ||| exists|k: int|
                        0 <= k < i && ((#[trigger] highlights@[k]).snippet_span.start == x
                            || highlights@[k].snippet_span.end == x)
                },
            forall|k: int|
                0 <= k < i ==> b@.contains((#[trigger] highlights@[k]).snippet_span.start)
                    && b@.contains(highlights@[k].snippet_span.end),
        decreases nh - i,
    {
        let s = highlights[i].snippet_span;
        insert_sorted(&mut b, s.start);
        insert_sorted(&mut b, s.end);
        proof {
            assert forall|x: usize| b@.contains(x) implies {
                ||| x == 0
                ||| x == snippet_len
                ||| exists|k: int|
                    0 <= k < i + 1 && ((#[trigger] highlights@[k]).snippet_span.start == x
                        || highlights@[k].snippet_span.end == x)
            } by {
                if x == highlights@[i as int].snippet_span.start || x == highlights@[
                    i as int
                ].snippet_span.end {
                    assert(0 <= i < i + 1);
                }
            }
        }
        i += 1;
    }
    let nt = types.len();
    let mut j: usize = 0;
    while j < nt
        invariant
            0 <= j <= nt,
            nt == types@.len(),
            nh == highlights@.len(),
            sorted_strict(b@),
            b@.contains(0usize),
            b@.contains(snippet_len),
            forall|x: usize|
                b@.contains(x) ==> {
                    ||| x == 0
                    ||| x == snippet_len
                    ||| exists|k: int|
                        0 <= k < nh && ((#[trigger] highlights@[k]).snippet_span.start == x
                            || highlights@[k].snippet_span.end == x)
                    ||| exists|k: int|
                        0 <= k < j && ((#[trigger] types@[k]).snippet_span.start == x
                            || types@[k].snippet_span.end == x)
                },
            forall|k: int|
                0 <= k < nh ==> b@.contains((#[trigger] highlights@[k]).snippet_span.start)
                    && b@.contains(highlights@[k].snippet_span.end),
            forall|k: int|
                0 <= k < j ==> b@.contains((#[trigger] types@[k]).snippet_span.start)
                    && b@.contains(types@[k].snippet_span.end),
        decreases nt - j,
    {
        let s = types[j].snippet_span;
        insert_sorted(&mut b, s.start);
        insert_sorted(&mut b, s.end);
        proof {
            assert forall|x: usize| b@.contains(x) implies {
                ||| x == 0
                ||| x == snippet_len
                ||| exists|k: int|
                    0 <= k < nh && ((#[trigger] highlights@[k]).snippet_span.start == x
                        || highlights@[k].snippet_span.end == x)
                ||| exists|k: int|
                    0 <= k < j + 1 && ((#[trigger] types@[k]).snippet_span.start == x
                        || types@[k].snippet_span.end == x)
            } by {
                if x == types@[j as int].snippet_span.start || x == types@[
                    j as int
                ].snippet_span.end {
                    assert(0 <= j < j + 1);
                }
            }
        }
        j += 1;
    }
    proof {
        assert forall|p: usize|
            b@.contains(p) <==> is_boundary(highlights@, types@, snippet_len as int, p as int) by {
            if b@.contains(p) {
                assert(is_boundary(highlights@, types@, snippet_len as int, p as int));
            }
            if is_boundary(highlights@, types@, snippet_len as int, p as int) {
                if p as int == 0 {
                    assert(b@.contains(0usize));
                } else if p as int == snippet_len as int {
                    assert(b@.contains(snippet_len));
                } else if exists|k: int|
                    0 <= k < highlights@.len() && ((#[trigger] highlights@[k]).snippet_span.start
                        == p as int || highlights@[k].snippet_span.end == p as int) {
                    let k = choose|k: int|
                        0 <= k < highlights@.len() && ((#[trigger] highlights@[
                            k
                        ]).snippet_span.start == p as int || highlights@[k].snippet_span.end
                            == p as int);
                    assert(b@.contains(highlights@[k].snippet_span.start) && b@.contains(
                        highlights@[k].snippet_span.end,
                    ));
                } else {
                    let k = choose|k: int|
                        0 <= k < types@.len() && ((#[trigger] types@[k]).snippet_span.start
                            == p as int || types@[k].snippet_span.end == p as int);
                    assert(b@.contains(types@[k].snippet_span.start) && b@.contains(
                        types@[k].snippet_span.end,
                    ));
                }
            }
        }
        assert forall|k: int| 0 <= k < b@.len() implies (#[trigger] b@[k]) <= snippet_len by {
            assert(b@.contains(b@[k]));
            assert(is_boundary(highlights@, types@, snippet_len as int, b@[k] as int));
        }
    }
    b
}

proof fn lemma_has_class_push(pre: Seq<HighlightFact>, h: HighlightFact, p: int)
    ensures
        forall|c: HighlightClass|
            #[trigger] has_class_at(pre.push(h), p, c) <==> (has_class_at(pre, p, c) || (hl_covers(
                h,
                p,
            ) && h.class == c)),
{
    assert forall|c: HighlightClass|
        #[trigger] has_class_at(pre.push(h), p, c) <==> (has_class_at(pre, p, c) || (hl_covers(
            h,
            p,
        ) && h.class == c)) by {
        let s = pre.push(h);
        if has_class_at(s, p, c) {
            let i = choose|i: int| 0 <= i < s.len() && hl_covers(#[trigger] s[i], p) && s[i].class == c;
            if i < pre.len() {
                assert(pre[i] == s[i]);
                assert(has_class_at(pre, p, c));
            } else {
                assert(s[i] == h);
            }
        }
        if has_class_at(pre, p, c) {
            let i = choose|i: int|
                0 <= i < pre.len() && hl_covers(#[trigger] pre[i], p) && pre[i].class == c;
            assert(s[i] == pre[i]);
            assert(has_class_at(s, p, c));
        }
        if hl_covers(h, p) && h.class == c {
            assert(s[pre.len() as int] == h);
            assert(has_class_at(s, p, c));
        }
    }
}

proof fn lemma_class_conflict_push(pre: Seq<HighlightFact>, h: HighlightFact, p: int)
    ensures
        class_conflict_at(pre.push(h), p) <==> (class_conflict_at(pre, p) || (hl_covers(h, p)
            && exists|c: HighlightClass| c != h.class && #[trigger] has_class_at(pre, p, c))),
{
    lemma_has_class_push(pre, h, p);
    let s = pre.push(h);
    if class_conflict_at(s, p) {
        let (c1, c2) = choose|c1: HighlightClass, c2: HighlightClass|
            c1 != c2 && #[trigger] has_class_at(s, p, c1) && #[trigger] has_class_at(s, p, c2);
        if has_class_at(pre, p, c1) && has_class_at(pre, p, c2) {
            assert(class_conflict_at(pre, p));
        } else if has_class_at(pre, p, c1) {
            assert(hl_covers(h, p) && h.class == c2);
            assert(c1 != h.class && has_class_at(pre, p, c1));
        } else {
            assert(hl_covers(h, p) && h.class == c1);
            assert(has_class_at(pre, p, c2));
            assert(c2 != h.class && has_class_at(pre, p, c2));
        }
    }
    if class_conflict_at(pre, p) {
        let (c1, c2) = choose|c1: HighlightClass, c2: HighlightClass|
            c1 != c2 && #[trigger] has_class_at(pre, p, c1) && #[trigger] has_class_at(pre, p, c2);
        assert(has_class_at(s, p, c1) && has_class_at(s, p, c2));
        assert(class_conflict_at(s, p));
    }
    if hl_covers(h, p) && exists|c: HighlightClass| c != h.class && #[trigger] has_class_at(pre, p, c) {
        let c = choose|c: HighlightClass| c != h.class && #[trigger] has_class_at(pre, p, c);
        assert(has_class_at(s, p, c) && has_class_at(s, p, h.class));
        assert(class_conflict_at(s, p));
    }
}

/// The class to attach at point `p`: the one class all covering highlight
/// facts agree on, or nothing, and whether covering facts disagreed.
fn class_for(hs: &Vec<HighlightFact>, p: usize) -> (r: (Option<HighlightClass>, bool))
    ensures
        class_choice_ok(hs@, p as int, r.0, r.1),
{
    let ghost pi = p as int;
    let n = hs.len();
    let mut cand: Option<HighlightClass> = None;
    let mut conf: bool = false;
    let mut j: usize = 0;
    while j < n
        invariant
            0 <= j <= n,
            n == hs@.len(),
            pi == p as int,
            class_choice_ok(hs@.take(j as int), pi, cand, conf),
        decreases n - j,
    {
        let h = hs[j];
        let ghost pre = hs@.take(j as int);
        proof {
            assert(hs@.take(j + 1) =~= pre.push(hs@[j as int]));
            lemma_has_class_push(pre, hs@[j as int], pi);
            lemma_class_conflict_push(pre, hs@[j as int], pi);
        }
        let ghost hj = hs@[j as int];
        proof {
            assert(h == hj);
        }
        let covers = h.snippet_span.start <= p && p < h.snippet_span.end;
        proof {
            assert(covers == hl_covers(hj, pi));
        }
        if covers {
            match cand {
                None => {
                    if !conf {
                        proof {
                            assert forall|c: HighlightClass| !has_class_at(pre, pi, c) by {
                                if has_class_at(pre, pi, c) {
                                    assert(cand == Some(c));
                                    assert(false);
                                }
                            }
                        }
                        cand = Some(h.class);
                        proof {
                            assert(has_class_at(pre.push(hj), pi, hj.class));
                            assert(!class_conflict_at(hs@.take(j + 1), pi));
                            assert forall|c: HighlightClass|
                                (cand == Some(c)) <==> (has_class_at(hs@.take(j + 1), pi, c)
                                    && !conf) by {
                                if has_class_at(hs@.take(j + 1), pi, c) {
                                    assert(c == hj.class);
                                }
                            }
                        }
                    }
                },
                Some(c0) => {
                    proof {
                        assert(has_class_at(hs@.take(j as int), pi, c0));
                        assert(!conf);
                    }
                    if h.class != c0 {
                        cand = None;
                        conf = true;
                        proof {
                            assert(hl_covers(hj, pi));
                            assert(c0 != hj.class && has_class_at(pre, pi, c0));
                            assert(class_conflict_at(hs@.take(j + 1), pi));
                        }
                    } else {
                        proof {
                            assert forall|c: HighlightClass| c != c0 implies !has_class_at(
                                pre,
                                pi,
                                c,
                            ) by {
                                if has_class_at(pre, pi, c) {
                                    assert(cand == Some(c));
                                    assert(false);
                                }
                            }
                            assert(!class_conflict_at(hs@.take(j + 1), pi)) by {
                                if class_conflict_at(hs@.take(j + 1), pi) {
                                    let c = choose|c: HighlightClass|
                                        c != hj.class && #[trigger] has_class_at(pre, pi, c);
                                    assert(false);
                                }
                            }
                            assert forall|c: HighlightClass|
                                (cand == Some(c)) <==> (has_class_at(hs@.take(j + 1), pi, c)
                                    && !conf) by {
                                if has_class_at(hs@.take(j + 1), pi, c) {
                                    assert(has_class_at(pre, pi, c) || c == hj.class);
                                }
                                if c == c0 {
                                    assert(has_class_at(pre, pi, c0));
                                    assert(has_class_at(hs@.take(j + 1), pi, c));
                                }
                            }
                        }
                    }
                },
            }
        } else {
            proof {
                assert(!hl_covers(hj, pi));
                assert(class_conflict_at(hs@.take(j + 1), pi) == conf);
                assert forall|c: HighlightClass|
                    (cand == Some(c)) <==> (has_class_at(hs@.take(j + 1), pi, c) && !conf) by {
                    if has_class_at(hs@.take(j + 1), pi, c) {
                        assert(has_class_at(pre, pi, c));
                    }
                    if has_class_at(pre, pi, c) {
                        assert(has_class_at(hs@.take(j + 1), pi, c));
                    }
                }
            }
        }
        proof {
            assert(class_choice_ok(hs@.take(j + 1), pi, cand, conf));
        }
        j += 1;
    }
    proof {
        assert(class_choice_ok(hs@.take(j as int), pi, cand, conf));
        assert(hs@.take(j as int) =~= hs@);
        assert(class_choice_ok(hs@, p as int, cand, conf));
    }
    (cand, conf)
}

proof fn lemma_has_label_push(pre: Seq<TypeFact>, t: TypeFact, p: int)
    ensures
        forall|l: Seq<char>|
            #[trigger] has_label_at(pre.push(t), p, l) <==> (has_label_at(pre, p, l) || (ty_covers(
                t,
                p,
            ) && t.label@ == l)),
{
    assert forall|l: Seq<char>|
        #[trigger] has_label_at(pre.push(t), p, l) <==> (has_label_at(pre, p, l) || (ty_covers(
            t,
            p,
        ) && t.label@ == l)) by {
        let s = pre.push(t);
        if has_label_at(s, p, l) {
            let i = choose|i: int| 0 <= i < s.len() && ty_covers(#[trigger] s[i], p) && s[i].label@ == l;
            if i < pre.len() {
                assert(pre[i] == s[i]);
                assert(has_label_at(pre, p, l));
            } else {
                assert(s[i] == t);
            }
        }
        if has_label_at(pre, p, l) {
            let i = choose|i: int|
                0 <= i < pre.len() && ty_covers(#[trigger] pre[i], p) && pre[i].label@ == l;
            assert(s[i] == pre[i]);
            assert(has_label_at(s, p, l));
        }
        if ty_covers(t, p) && t.label@ == l {
            assert(s[pre.len() as int] == t);
            assert(has_label_at(s, p, l));
        }
    }
}

proof fn lemma_label_conflict_push(pre: Seq<TypeFact>, t: TypeFact, p: int)
    ensures
        label_conflict_at(pre.push(t), p) <==> (label_conflict_at(pre, p) || (ty_covers(t, p)
            && exists|l: Seq<char>| l != t.label@ && #[trigger] has_label_at(pre, p, l))),
{
    lemma_has_label_push(pre, t, p);
    let s = pre.push(t);
    if label_conflict_at(s, p) {
        let (l1, l2) = choose|l1: Seq<char>, l2: Seq<char>|
            l1 != l2 && #[trigger] has_label_at(s, p, l1) && #[trigger] has_label_at(s, p, l2);
        if has_label_at(pre, p, l1) && has_label_at(pre, p, l2) {
            assert(label_conflict_at(pre, p));
        } else if has_label_at(pre, p, l1) {
            assert(ty_covers(t, p) && t.label@ == l2);
            assert(l1 != t.label@ && has_label_at(pre, p, l1));
        } else {
            assert(ty_covers(t, p) && t.label@ == l1);
            assert(has_label_at(pre, p, l2));
            assert(l2 != t.label@ && has_label_at(pre, p, l2));
        }
    }
    if label_conflict_at(pre, p) {
        let (l1, l2) = choose|l1: Seq<char>, l2: Seq<char>|
            l1 != l2 && #[trigger] has_label_at(pre, p, l1) && #[trigger] has_label_at(pre, p, l2);
        assert(has_label_at(s, p, l1) && has_label_at(s, p, l2));
        assert(label_conflict_at(s, p));
    }
    if ty_covers(t, p) && exists|l: Seq<char>| l != t.label@ && #[trigger] has_label_at(pre, p, l) {
        let l = choose|l: Seq<char>| l != t.label@ && #[trigger] has_label_at(pre, p, l);
        assert(has_label_at(s, p, l) && has_label_at(s, p, t.label@));
        assert(label_conflict_at(s, p));
    }
}

/// The label to attach at point `p`: the one label all covering type
/// facts agree on, or nothing, and whether covering facts disagreed.
fn label_for(ts: &Vec<TypeFact>, p: usize) -> (r: (Option<String>, bool))
    ensures
        label_choice_ok(ts@, p as int, r.0, r.1),
{
    let ghost pi = p as int;
    let n = ts.len();
    let mut cand: Option<String> = None;
    let mut conf: bool = false;
    let mut j: usize = 0;
    while j < n
        invariant
            0 <= j <= n,
            n == ts@.len(),
            pi == p as int,
            label_choice_ok(ts@.take(j as int), pi, cand, conf),
        decreases n - j,
    {
        let t = &ts[j];
        let ghost pre = ts@.take(j as int);
        proof {
            assert(ts@.take(j + 1) =~= pre.push(ts@[j as int]));
            lemma_has_label_push(pre, ts@[j as int], pi);
            lemma_label_conflict_push(pre, ts@[j as int], pi);
        }
        let ghost tj = ts@[j as int];
        proof {
            assert(*t == tj);
        }
        let covers = t.snippet_span.start <= p && p < t.snippet_span.end;
        proof {
            assert(covers == ty_covers(tj, pi));
        }
        if covers {
            let mut same = false;
            let is_some = match &cand {
                Some(c0) => {
                    if *c0 == t.label {
                        same = true;
                    }
                    true
                },
                None => false,
            };
            if !is_some {
                if !conf {
                    proof {
                        assert forall|l: Seq<char>| !has_label_at(pre, pi, l) by {
                            if has_label_at(pre, pi, l) {
                                assert(opt_label_view(cand) == Some(l));
                                assert(false);
                            }
                        }
                    }
                    cand = Some(t.label.clone());
                    proof {
                        assert(opt_label_view(cand) == Some(tj.label@));
                        assert(has_label_at(pre.push(tj), pi, tj.label@));
                        assert(!label_conflict_at(ts@.take(j + 1), pi));
                        assert forall|l: Seq<char>|
                            (opt_label_view(cand) == Some(l)) <==> (has_label_at(
                                ts@.take(j + 1),
                                pi,
                                l,
                            ) && !conf) by {
                            if has_label_at(ts@.take(j + 1), pi, l) {
                                assert(l == tj.label@);
                            }
                        }
                    }
                }
            } else {
                let ghost c0v: Seq<char> = match &cand {
                    Some(c0) => c0@,
                    None => Seq::empty(),
                };
                proof {
                    assert(opt_label_view(cand) == Some(c0v));
                    assert(has_label_at(ts@.take(j as int), pi, c0v));
                    assert(!conf);
                }
                if !same {
                    proof {
                        assert(c0v != tj.label@);
                        assert(ty_covers(tj, pi));
                        assert(label_conflict_at(ts@.take(j + 1), pi));
                    }
                    cand = None;
                    conf = true;
                } else {
                    proof {
                        assert(tj.label@ == c0v);
                        assert forall|l: Seq<char>| l != c0v implies !has_label_at(pre, pi, l) by {
                            if has_label_at(pre, pi, l) {
                                assert(opt_label_view(cand) == Some(l));
                                assert(false);
                            }
                        }
                        assert(!label_conflict_at(ts@.take(j + 1), pi)) by {
                            if label_conflict_at(ts@.take(j + 1), pi) {
                                let l = choose|l: Seq<char>|
                                    l != tj.label@ && #[trigger] has_label_at(pre, pi, l);
                                assert(false);
                            }
                        }
                        assert forall|l: Seq<char>|
                            (opt_label_view(cand) == Some(l)) <==> (has_label_at(
                                ts@.take(j + 1),
                                pi,
                                l,
                            ) && !conf) by {
                            if has_label_at(ts@.take(j + 1), pi, l) {
                                assert(has_label_at(pre, pi, l) || l == tj.label@);
                            }
                            if l == c0v {
                                assert(has_label_at(pre, pi, c0v));
                                assert(has_label_at(ts@.take(j + 1), pi, l));
                            }
                        }
                    }
                }
            }
        } else {
            proof {
                assert(!ty_covers(tj, pi));
                assert(label_conflict_at(ts@.take(j + 1), pi) == conf);
                assert forall|l: Seq<char>|
                    (opt_label_view(cand) == Some(l)) <==> (has_label_at(ts@.take(j + 1), pi, l)
                        && !conf) by {
                    if has_label_at(ts@.take(j + 1), pi, l) {
                        assert(has_label_at(pre, pi, l));
                    }
                    if has_label_at(pre, pi, l) {
                        assert(has_label_at(ts@.take(j + 1), pi, l));
                    }
                }
            }
        }
        proof {
            assert(label_choice_ok(ts@.take(j + 1), pi, cand, conf));
        }
        j += 1;
    }
    proof {
        assert(label_choice_ok(ts@.take(j as int), pi, cand, conf));
        assert(ts@.take(j as int) =~= ts@);
        assert(label_choice_ok(ts@, p as int, cand, conf));
    }
    (cand, conf)
}

proof fn lemma_payload_ok(
    hs: Seq<HighlightFact>,
    ts: Seq<TypeFact>,
    d: Decoration,
    cconf: bool,
    lconf: bool,
)
    requires
        class_choice_ok(hs, d.snippet_span.start as int, d.class, cconf),
        label_choice_ok(ts, d.snippet_span.start as int, d.type_label, lconf),
        d.conflict == (cconf || lconf),
    ensures
        payload_ok(hs, ts, d),
{
    assert(cconf == class_conflict_at(hs, d.snippet_span.start as int));
    assert(lconf == label_conflict_at(ts, d.snippet_span.start as int));
}

/// Merges the two fact streams over a snippet of length `snippet_len`
/// into the unique decoration sequence that tiles the snippet, is cut at
/// every span boundary of either stream, and carries on each piece
/// exactly the information of the facts covering it.
pub fn merge(highlights: &Vec<HighlightFact>, types: &Vec<TypeFact>, snippet_len: usize) -> (out:
    Vec<Decoration>)
    requires
        hl_facts_wf(highlights@, snippet_len as int),
        ty_facts_wf(types@, snippet_len as int),
    ensures
        merged_spec(highlights@, types@, snippet_len as int, out@),
{
    let b = collect_boundaries(highlights, types, snippet_len);
    let m = b.len();
    proof {
        assert(b@.contains(0usize));
        let k0 = choose|k: int| 0 <= k < b@.len() && b@[k] == 0usize;
        if k0 > 0 {
            assert(b@[0] < b@[k0]);
            assert(false);
        }
        assert(b@[0] == 0usize);
        assert(b@.contains(snippet_len));
        let kl = choose|k: int| 0 <= k < b@.len() && b@[k] == snippet_len;
        if kl < b@.len() - 1 {
            assert(b@[kl] < b@[b@.len() - 1]);
            assert(b@[b@.len() - 1] <= snippet_len);
            assert(false);
        }
        assert(b@[b@.len() - 1] == snippet_len);
    }
    let mut out: Vec<Decoration> = Vec::new();
    let mut k: usize = 0;
    while k + 1 < m
        invariant
            m == b@.len(),
            m >= 1,
            0 <= k <= m - 1,
            sorted_strict(b@),
            b@[0] == 0usize,
            b@[m - 1] == snippet_len,
            forall|p: usize|
                b@.contains(p) <==> is_boundary(
                    highlights@,
                    types@,
                    snippet_len as int,
                    p as int,
                ),
            out@.len() == k,
            forall|i: int|
                0 <= i < k ==> (#[trigger] out@[i]).snippet_span.start == b@[i]
                    && out@[i].snippet_span.end == b@[i + 1],
            forall|i: int| 0 <= i < k ==> payload_ok(highlights@, types@, #[trigger] out@[i]),
        decreases m - 1 - k,
    {
        let lo = b[k];
        let hi = b[k + 1];
        let (class, cconf) = class_for(highlights, lo);
        let (label, lconf) = label_for(types, lo);
        let d = Decoration {
            snippet_span: Span { start: lo, end: hi },
            class,
            type_label: label,
            conflict: cconf || lconf,
        };
        proof {
            lemma_payload_ok(highlights@, types@, d, cconf, lconf);
        }
        out.push(d);
        k += 1;
    }
    proof {
        if (snippet_len as int) == 0 {
            if m >= 2 {
                assert(b@[0] < b@[1]);
                assert(b@.contains(b@[1]));
                assert(is_boundary(highlights@, types@, (snippet_len as int), b@[1] as int));
                assert(b@[1] <= snippet_len);
                assert(false);
            }
            assert(out@.len() == 0);
        } else {
            assert(b@.contains(0usize) && b@.contains(snippet_len));
            assert(m >= 2) by {
                if m < 2 {
                    assert(b@[0] == 0usize && b@[0] == snippet_len);
                }
            }
            assert(out@.len() == m - 1 >= 1);
            assert(out@[0].snippet_span.start == b@[0]);
            assert(out@[out@.len() - 1].snippet_span.end == b@[(m - 1) as int]);
        }
        assert forall|i: int|
            0 <= i < out@.len() implies (#[trigger] out@[i]).snippet_span.start
            < out@[i].snippet_span.end by {
            assert(b@[i] < b@[i + 1]);
        }
        assert forall|i: int|
            0 <= i < out@.len() implies is_boundary(
            highlights@,
            types@,
            (snippet_len as int),
            (#[trigger] out@[i]).snippet_span.start as int,
        ) && is_boundary(highlights@, types@, (snippet_len as int), out@[i].snippet_span.end as int) by {
            assert(b@.contains(b@[i]));
            assert(b@.contains(b@[i + 1]));
        }
        assert forall|i: int, p: int|
            #![trigger out@[i], is_boundary(highlights@, types@, (snippet_len as int), p)]
            0 <= i < out@.len() && out@[i].snippet_span.start < p < out@[i].snippet_span.end
            implies !is_boundary(highlights@, types@, (snippet_len as int), p) by {
            if is_boundary(highlights@, types@, (snippet_len as int), p) {
                let pu = p as usize;
                assert(0 <= p <= snippet_len) by {
                    assert(b@[i + 1] <= b@[(m - 1) as int]);
                }
                assert(pu as int == p);
                assert(b@.contains(pu));
                let q = choose|q: int| 0 <= q < b@.len() && b@[q] == pu;
                if q <= i {
                    assert(b@[q] <= b@[i]);
                    assert(false);
                } else {
                    assert(b@[q] >= b@[i + 1]);
                    assert(false);
                }
            }
        }
    }
    out
}


/// Two consecutive tiled decorations touch; any two distinct ones are
/// disjoint in order.
pub proof fn lemma_ends_ordered(out: Seq<Decoration>, i: int, j: int)
    requires
        forall|k: int|
            0 <= k < out.len() ==> (#[trigger] out[k]).snippet_span.start < out[k].snippet_span.end,
        forall|k: int|
            0 <= k && k + 1 < out.len() ==> (#[trigger] out[k + 1]).snippet_span.start
                == out[k].snippet_span.end,
        0 <= i < j < out.len(),
    ensures
        out[i].snippet_span.end <= out[j].snippet_span.start,
    decreases j - i,
{
    if j == i + 1 {
    } else {
        lemma_ends_ordered(out, i, j - 1);
        assert(out[(j - 1) + 1].snippet_span.start == out[j - 1].snippet_span.end);
    }
}

/// No partial overlap: in a decoration sequence that tiles a snippet,
/// the spans of any two distinct decorations are disjoint, so no pair of
/// spans overlaps partially.
pub proof fn lemma_no_partial_overlap(out: Seq<Decoration>, len: int)
    requires
        tiles(out, len),
    ensures
        forall|i: int, j: int|
            0 <= i < j < out.len() ==> (#[trigger] out[i]).snippet_span.end <= (
            #[trigger] out[j]).snippet_span.start,
{
    assert forall|i: int, j: int|
        0 <= i < j < out.len() implies (#[trigger] out[i]).snippet_span.end <= (
    #[trigger] out[j]).snippet_span.start by {
        lemma_ends_ordered(out, i, j);
    }
}

/// Ghost image of a decoration: its span as integers, its class, its
/// label as a character sequence, and its conflict marker.
pub struct DecorationModel {
    pub start: int,
    pub end: int,
    pub class: Option<HighlightClass>,
    pub type_label: Option<Seq<char>>,
    pub conflict: bool,
}

pub open spec fn decoration_model(d: Decoration) -> DecorationModel {
    DecorationModel {
        start: d.snippet_span.start as int,
        end: d.snippet_span.end as int,
        class: d.class,
        type_label: opt_label_view(d.type_label),
        conflict: d.conflict,
    }
}

proof fn lemma_seq_contains_equiv<A>(s1: Seq<A>, s2: Seq<A>)
    requires
        s1.to_multiset() == s2.to_multiset(),
    ensures
        forall|x: A| #![trigger s1.contains(x)] #![trigger s2.contains(x)]
            s1.contains(x) <==> s2.contains(x),
{
    s1.to_multiset_ensures();
    s2.to_multiset_ensures();
    assert forall|x: A| #![trigger s1.contains(x)] #![trigger s2.contains(x)]
        s1.contains(x) <==> s2.contains(x) by {
        assert(s1.contains(x) <==> s1.to_multiset().count(x) > 0);
        assert(s2.contains(x) <==> s2.to_multiset().count(x) > 0);
    }
}

proof fn lemma_hl_preds_equiv(hs1: Seq<HighlightFact>, hs2: Seq<HighlightFact>)
    requires
        forall|x: HighlightFact| #![trigger hs1.contains(x)] #![trigger hs2.contains(x)]
            hs1.contains(x) <==> hs2.contains(x),
    ensures
        forall|p: int, c: HighlightClass|
            #![trigger has_class_at(hs1, p, c)]
            #![trigger has_class_at(hs2, p, c)]
            has_class_at(hs1, p, c) <==> has_class_at(hs2, p, c),
        forall|p: int|
            #![trigger class_conflict_at(hs1, p)]
            #![trigger class_conflict_at(hs2, p)]
            class_conflict_at(hs1, p) <==> class_conflict_at(hs2, p),
{
    assert forall|p: int, c: HighlightClass|
        #![trigger has_class_at(hs1, p, c)]
        #![trigger has_class_at(hs2, p, c)]
        has_class_at(hs1, p, c) <==> has_class_at(hs2, p, c) by {
        if has_class_at(hs1, p, c) {
            let i = choose|i: int|
                0 <= i < hs1.len() && hl_covers(#[trigger] hs1[i], p) && hs1[i].class == c;
            assert(hs1.contains(hs1[i]));
            assert(hs2.contains(hs1[i]));
            let j = choose|j: int| 0 <= j < hs2.len() && hs2[j] == hs1[i];
            assert(hl_covers(hs2[j], p) && hs2[j].class == c);
            assert(has_class_at(hs2, p, c));
        }
        if has_class_at(hs2, p, c) {
            let i = choose|i: int|
                0 <= i < hs2.len() && hl_covers(#[trigger] hs2[i], p) && hs2[i].class == c;
            assert(hs2.contains(hs2[i]));
            assert(hs1.contains(hs2[i]));
            let j = choose|j: int| 0 <= j < hs1.len() && hs1[j] == hs2[i];
            assert(hl_covers(hs1[j], p) && hs1[j].class == c);
            assert(has_class_at(hs1, p, c));
        }
    }
    assert forall|p: int|
        #![trigger class_conflict_at(hs1, p)]
        #![trigger class_conflict_at(hs2, p)]
        class_conflict_at(hs1, p) <==> class_conflict_at(hs2, p) by {
        if class_conflict_at(hs1, p) {
            let (c1, c2) = choose|c1: HighlightClass, c2: HighlightClass|
                c1 != c2 && #[trigger] has_class_at(hs1, p, c1) && #[trigger] has_class_at(
                    hs1,
                    p,
                    c2,
                );
            assert(has_class_at(hs2, p, c1) && has_class_at(hs2, p, c2));
            assert(class_conflict_at(hs2, p));
        }
        if class_conflict_at(hs2, p) {
            let (c1, c2) = choose|c1: HighlightClass, c2: HighlightClass|
                c1 != c2 && #[trigger] has_class_at(hs2, p, c1) && #[trigger] has_class_at(
                    hs2,
                    p,
                    c2,
                );
            assert(has_class_at(hs1, p, c1) && has_class_at(hs1, p, c2));
            assert(class_conflict_at(hs1, p));
        }
    }
}

proof fn lemma_ty_preds_equiv(ts1: Seq<TypeFact>, ts2: Seq<TypeFact>)
    requires
        forall|x: TypeFact| #![trigger ts1.contains(x)] #![trigger ts2.contains(x)]
            ts1.contains(x) <==> ts2.contains(x),
    ensures
        forall|p: int, l: Seq<char>|
            #![trigger has_label_at(ts1, p, l)]
            #![trigger has_label_at(ts2, p, l)]
            has_label_at(ts1, p, l) <==> has_label_at(ts2, p, l),
        forall|p: int|
            #![trigger label_conflict_at(ts1, p)]
            #![trigger label_conflict_at(ts2, p)]
            label_conflict_at(ts1, p) <==> label_conflict_at(ts2, p),
{
    assert forall|p: int, l: Seq<char>|
        #![trigger has_label_at(ts1, p, l)]
        #![trigger has_label_at(ts2, p, l)]
        has_label_at(ts1, p, l) <==> has_label_at(ts2, p, l) by {
        if has_label_at(ts1, p, l) {
            let i = choose|i: int|
                0 <= i < ts1.len() && ty_covers(#[trigger] ts1[i], p) && ts1[i].label@ == l;
            assert(ts1.contains(ts1[i]));
            assert(ts2.contains(ts1[i]));
            let j = choose|j: int| 0 <= j < ts2.len() && ts2[j] == ts1[i];
            assert(ty_covers(ts2[j], p) && ts2[j].label@ == l);
            assert(has_label_at(ts2, p, l));
        }
        if has_label_at(ts2, p, l) {
            let i = choose|i: int|
                0 <= i < ts2.len() && ty_covers(#[trigger] ts2[i], p) && ts2[i].label@ == l;
            assert(ts2.contains(ts2[i]));
            assert(ts1.contains(ts2[i]));
            let j = choose|j: int| 0 <= j < ts1.len() && ts1[j] == ts2[i];
            assert(ty_covers(ts1[j], p) && ts1[j].label@ == l);
            assert(has_label_at(ts1, p, l));
        }
    }
    assert forall|p: int|
        #![trigger label_conflict_at(ts1, p)]
        #![trigger label_conflict_at(ts2, p)]
        label_conflict_at(ts1, p) <==> label_conflict_at(ts2, p) by {
        if label_conflict_at(ts1, p) {
            let (l1, l2) = choose|l1: Seq<char>, l2: Seq<char>|
                l1 != l2 && #[trigger] has_label_at(ts1, p, l1) && #[trigger] has_label_at(
                    ts1,
                    p,
                    l2,
                );
            assert(has_label_at(ts2, p, l1) && has_label_at(ts2, p, l2));
            assert(label_conflict_at(ts2, p));
        }
        if label_conflict_at(ts2, p) {
            let (l1, l2) = choose|l1: Seq<char>, l2: Seq<char>|
                l1 != l2 && #[trigger] has_label_at(ts2, p, l1) && #[trigger] has_label_at(
                    ts2,
                    p,
                    l2,
                );
            assert(has_label_at(ts1, p, l1) && has_label_at(ts1, p, l2));
            assert(label_conflict_at(ts1, p));
        }
    }
}

proof fn lemma_boundary_equiv(
    hs1: Seq<HighlightFact>,
    ts1: Seq<TypeFact>,
    hs2: Seq<HighlightFact>,
    ts2: Seq<TypeFact>,
    len: int,
)
    requires
        forall|x: HighlightFact| #![trigger hs1.contains(x)] #![trigger hs2.contains(x)]
            hs1.contains(x) <==> hs2.contains(x),
        forall|x: TypeFact| #![trigger ts1.contains(x)] #![trigger ts2.contains(x)]
            ts1.contains(x) <==> ts2.contains(x),
    ensures
        forall|p: int|
            #![trigger is_boundary(hs1, ts1, len, p)]
            #![trigger is_boundary(hs2, ts2, len, p)]
            is_boundary(hs1, ts1, len, p) <==> is_boundary(hs2, ts2, len, p),
{
    assert forall|p: int|
        #![trigger is_boundary(hs1, ts1, len, p)]
        #![trigger is_boundary(hs2, ts2, len, p)]
        is_boundary(hs1, ts1, len, p) <==> is_boundary(hs2, ts2, len, p) by {
        if is_boundary(hs1, ts1, len, p) && p != 0 && p != len {
            if exists|i: int|
                0 <= i < hs1.len() && ((#[trigger] hs1[i]).snippet_span.start == p
                    || hs1[i].snippet_span.end == p) {
                let i = choose|i: int|
                    0 <= i < hs1.len() && ((#[trigger] hs1[i]).snippet_span.start == p
                        || hs1[i].snippet_span.end == p);
                assert(hs1.contains(hs1[i]));
                assert(hs2.contains(hs1[i]));
                let j = choose|j: int| 0 <= j < hs2.len() && hs2[j] == hs1[i];
                assert(hs2[j].snippet_span.start == p || hs2[j].snippet_span.end == p);
            } else {
                let i = choose|i: int|
                    0 <= i < ts1.len() && ((#[trigger] ts1[i]).snippet_span.start == p
                        || ts1[i].snippet_span.end == p);
                assert(ts1.contains(ts1[i]));
                assert(ts2.contains(ts1[i]));
                let j = choose|j: int| 0 <= j < ts2.len() && ts2[j] == ts1[i];
                assert(ts2[j].snippet_span.start == p || ts2[j].snippet_span.end == p);
            }
            assert(is_boundary(hs2, ts2, len, p));
        }
        if is_boundary(hs2, ts2, len, p) && p != 0 && p != len {
            if exists|i: int|
                0 <= i < hs2.len() && ((#[trigger] hs2[i]).snippet_span.start == p
                    || hs2[i].snippet_span.end == p) {
                let i = choose|i: int|
                    0 <= i < hs2.len() && ((#[trigger] hs2[i]).snippet_span.start == p
                        || hs2[i].snippet_span.end == p);
                assert(hs2.contains(hs2[i]));
                assert(hs1.contains(hs2[i]));
                let j = choose|j: int| 0 <= j < hs1.len() && hs1[j] == hs2[i];
                assert(hs1[j].snippet_span.start == p || hs1[j].snippet_span.end == p);
            } else {
                let i = choose|i: int|
                    0 <= i < ts2.len() && ((#[trigger] ts2[i]).snippet_span.start == p
                        || ts2[i].snippet_span.end == p);
                assert(ts2.contains(ts2[i]));
                assert(ts1.contains(ts2[i]));
                let j = choose|j: int| 0 <= j < ts1.len() && ts1[j] == ts2[i];
                assert(ts1[j].snippet_span.start == p || ts1[j].snippet_span.end == p);
            }
            assert(is_boundary(hs1, ts1, len, p));
        }
    }
}


proof fn lemma_spans_agree(
    hs1: Seq<HighlightFact>,
    ts1: Seq<TypeFact>,
    o1: Seq<Decoration>,
    hs2: Seq<HighlightFact>,
    ts2: Seq<TypeFact>,
    o2: Seq<Decoration>,
    len: int,
    k: int,
)
    requires
        forall|p: int|
            #![trigger is_boundary(hs1, ts1, len, p)]
            #![trigger is_boundary(hs2, ts2, len, p)]
            is_boundary(hs1, ts1, len, p) <==> is_boundary(hs2, ts2, len, p),
        merged_spec(hs1, ts1, len, o1),
        merged_spec(hs2, ts2, len, o2),
        0 <= k < o1.len(),
        k < o2.len(),
    ensures
        o1[k].snippet_span == o2[k].snippet_span,
    decreases k,
{
    if k == 0 {
        assert(len > 0);
        assert(o1[0].snippet_span.start == 0 && o2[0].snippet_span.start == 0);
    } else {
        lemma_spans_agree(hs1, ts1, o1, hs2, ts2, o2, len, k - 1);
        assert(o1[(k - 1) + 1].snippet_span.start == o1[k - 1].snippet_span.end);
        assert(o2[(k - 1) + 1].snippet_span.start == o2[k - 1].snippet_span.end);
    }
    assert(o1[k].snippet_span.start == o2[k].snippet_span.start);
    if o1[k].snippet_span.end < o2[k].snippet_span.end {
        assert(is_boundary(hs1, ts1, len, o1[k].snippet_span.end as int));
        assert(is_boundary(hs2, ts2, len, o1[k].snippet_span.end as int));
        assert(o2[k].snippet_span.start < o1[k].snippet_span.end as int);
        assert((o1[k].snippet_span.end as int) < o2[k].snippet_span.end);
        assert(false);
    }
    if o2[k].snippet_span.end < o1[k].snippet_span.end {
        assert(is_boundary(hs2, ts2, len, o2[k].snippet_span.end as int));
        assert(is_boundary(hs1, ts1, len, o2[k].snippet_span.end as int));
        assert(o1[k].snippet_span.start < o2[k].snippet_span.end as int);
        assert((o2[k].snippet_span.end as int) < o1[k].snippet_span.end);
        assert(false);
    }
}

pub proof fn lemma_class_choice_elim(
    hs: Seq<HighlightFact>,
    p: int,
    cand: Option<HighlightClass>,
    conf: bool,
    c: HighlightClass,
)
    requires
        class_choice_ok(hs, p, cand, conf),
    ensures
        (cand == Some(c)) <==> (has_class_at(hs, p, c) && !conf),
        conf == class_conflict_at(hs, p),
{
    if has_class_at(hs, p, c) && !conf {
        assert(cand == Some(c));
    }
}

pub proof fn lemma_label_choice_elim(
    ts: Seq<TypeFact>,
    p: int,
    cand: Option<String>,
    conf: bool,
    l: Seq<char>,
)
    requires
        label_choice_ok(ts, p, cand, conf),
    ensures
        (opt_label_view(cand) == Some(l)) <==> (has_label_at(ts, p, l) && !conf),
        conf == label_conflict_at(ts, p),
{
    if has_label_at(ts, p, l) && !conf {
        assert(opt_label_view(cand) == Some(l));
    }
}

proof fn lemma_payload_unique(
    hs1: Seq<HighlightFact>,
    ts1: Seq<TypeFact>,
    hs2: Seq<HighlightFact>,
    ts2: Seq<TypeFact>,
    d1: Decoration,
    d2: Decoration,
)
    requires
        forall|p: int, c: HighlightClass|
            #![trigger has_class_at(hs1, p, c)]
            #![trigger has_class_at(hs2, p, c)]
            has_class_at(hs1, p, c) <==> has_class_at(hs2, p, c),
        forall|p: int|
            #![trigger class_conflict_at(hs1, p)]
            #![trigger class_conflict_at(hs2, p)]
            class_conflict_at(hs1, p) <==> class_conflict_at(hs2, p),
        forall|p: int, l: Seq<char>|
            #![trigger has_label_at(ts1, p, l)]
            #![trigger has_label_at(ts2, p, l)]
            has_label_at(ts1, p, l) <==> has_label_at(ts2, p, l),
        forall|p: int|
            #![trigger label_conflict_at(ts1, p)]
            #![trigger label_conflict_at(ts2, p)]
            label_conflict_at(ts1, p) <==> label_conflict_at(ts2, p),
        payload_ok(hs1, ts1, d1),
        payload_ok(hs2, ts2, d2),
        d1.snippet_span == d2.snippet_span,
    ensures
        decoration_model(d1) == decoration_model(d2),
{
    assert(d1.class == d2.class) by {
        match d1.class {
            Some(c) => {
                lemma_class_choice_elim(
                    hs1,
                    d1.snippet_span.start as int,
                    d1.class,
                    class_conflict_at(hs1, d1.snippet_span.start as int),
                    c,
                );
                assert(has_class_at(hs1, d1.snippet_span.start as int, c));
                assert(has_class_at(hs2, d2.snippet_span.start as int, c));
                assert(!class_conflict_at(hs2, d2.snippet_span.start as int));
                lemma_class_choice_elim(
                    hs2,
                    d2.snippet_span.start as int,
                    d2.class,
                    class_conflict_at(hs2, d2.snippet_span.start as int),
                    c,
                );
                assert(d2.class == Some(c));
            },
            None => {
                match d2.class {
                    Some(c) => {
                        lemma_class_choice_elim(
                            hs2,
                            d2.snippet_span.start as int,
                            d2.class,
                            class_conflict_at(hs2, d2.snippet_span.start as int),
                            c,
                        );
                        assert(has_class_at(hs1, d1.snippet_span.start as int, c));
                        assert(!class_conflict_at(hs1, d1.snippet_span.start as int));
                        lemma_class_choice_elim(
                            hs1,
                            d1.snippet_span.start as int,
                            d1.class,
                            class_conflict_at(hs1, d1.snippet_span.start as int),
                            c,
                        );
                        assert(false);
                    },
                    None => {},
                }
            },
        }
    }
    assert(opt_label_view(d1.type_label) == opt_label_view(d2.type_label)) by {
        match opt_label_view(d1.type_label) {
            Some(l) => {
                lemma_label_choice_elim(
                    ts1,
                    d1.snippet_span.start as int,
                    d1.type_label,
                    label_conflict_at(ts1, d1.snippet_span.start as int),
                    l,
                );
                assert(has_label_at(ts1, d1.snippet_span.start as int, l));
                assert(has_label_at(ts2, d2.snippet_span.start as int, l));
                assert(!label_conflict_at(ts2, d2.snippet_span.start as int));
                lemma_label_choice_elim(
                    ts2,
                    d2.snippet_span.start as int,
                    d2.type_label,
                    label_conflict_at(ts2, d2.snippet_span.start as int),
                    l,
                );
                assert(opt_label_view(d2.type_label) == Some(l));
            },
            None => {
                match opt_label_view(d2.type_label) {
                    Some(l) => {
                        lemma_label_choice_elim(
                            ts2,
                            d2.snippet_span.start as int,
                            d2.type_label,
                            label_conflict_at(ts2, d2.snippet_span.start as int),
                            l,
                        );
                        assert(has_label_at(ts1, d1.snippet_span.start as int, l));
                        assert(!label_conflict_at(ts1, d1.snippet_span.start as int));
                        lemma_label_choice_elim(
                            ts1,
                            d1.snippet_span.start as int,
                            d1.type_label,
                            label_conflict_at(ts1, d1.snippet_span.start as int),
                            l,
                        );
                        assert(false);
                    },
                    None => {},
                }
            },
        }
    }
    assert(d1.conflict == d2.conflict);
}

proof fn lemma_merged_unique(
    hs1: Seq<HighlightFact>,
    ts1: Seq<TypeFact>,
    o1: Seq<Decoration>,
    hs2: Seq<HighlightFact>,
    ts2: Seq<TypeFact>,
    o2: Seq<Decoration>,
    len: int,
)
    requires
        forall|p: int, c: HighlightClass|
            #![trigger has_class_at(hs1, p, c)]
            #![trigger has_class_at(hs2, p, c)]
            has_class_at(hs1, p, c) <==> has_class_at(hs2, p, c),
        forall|p: int|
            #![trigger class_conflict_at(hs1, p)]
            #![trigger class_conflict_at(hs2, p)]
            class_conflict_at(hs1, p) <==> class_conflict_at(hs2, p),
        forall|p: int, l: Seq<char>|
            #![trigger has_label_at(ts1, p, l)]
            #![trigger has_label_at(ts2, p, l)]
            has_label_at(ts1, p, l) <==> has_label_at(ts2, p, l),
        forall|p: int|
            #![trigger label_conflict_at(ts1, p)]
            #![trigger label_conflict_at(ts2, p)]
            label_conflict_at(ts1, p) <==> label_conflict_at(ts2, p),
        forall|p: int|
            #![trigger is_boundary(hs1, ts1, len, p)]
            #![trigger is_boundary(hs2, ts2, len, p)]
            is_boundary(hs1, ts1, len, p) <==> is_boundary(hs2, ts2, len, p),
        merged_spec(hs1, ts1, len, o1),
        merged_spec(hs2, ts2, len, o2),
    ensures
        o1.len() == o2.len(),
        forall|k: int|
            0 <= k < o1.len() ==> decoration_model(#[trigger] o1[k]) == decoration_model(o2[k]),
{
    if o1.len() < o2.len() {
        assert(o2.len() > 0);
        assert(len > 0);
        assert(o1.len() > 0);
        let k = o1.len() - 1;
        lemma_spans_agree(hs1, ts1, o1, hs2, ts2, o2, len, k);
        assert(o2[k].snippet_span.end == len);
        lemma_ends_ordered(o2, k, o2.len() - 1);
        assert(o2[o2.len() - 1].snippet_span.start < o2[o2.len() - 1].snippet_span.end);
        assert(false);
    }
    if o2.len() < o1.len() {
        assert(o1.len() > 0);
        assert(len > 0);
        assert(o2.len() > 0);
        let k = o2.len() - 1;
        lemma_spans_agree(hs1, ts1, o1, hs2, ts2, o2, len, k);
        assert(o1[k].snippet_span.end == len);
        lemma_ends_ordered(o1, k, o1.len() - 1);
        assert(o1[o1.len() - 1].snippet_span.start < o1[o1.len() - 1].snippet_span.end);
        assert(false);
    }
    assert forall|k: int|
        0 <= k < o1.len() implies decoration_model(#[trigger] o1[k]) == decoration_model(
        o2[k],
    ) by {
        lemma_spans_agree(hs1, ts1, o1, hs2, ts2, o2, len, k);
        assert(payload_ok(hs1, ts1, o1[k]));
        assert(payload_ok(hs2, ts2, o2[k]));
        lemma_payload_unique(hs1, ts1, hs2, ts2, o1[k], o2[k]);
    }
}

/// Merge determinism: two merge results over the same snippet length,
/// computed from fact streams that hold the same facts in any order,
/// carry the same decorations. Only the span boundaries and the facts
/// matter, never the order in which they arrive.
pub proof fn lemma_merge_deterministic(
    hs1: Seq<HighlightFact>,
    ts1: Seq<TypeFact>,
    out1: Seq<Decoration>,
    hs2: Seq<HighlightFact>,
    ts2: Seq<TypeFact>,
    out2: Seq<Decoration>,
    len: int,
)
    requires
        hs1.to_multiset() == hs2.to_multiset(),
        ts1.to_multiset() == ts2.to_multiset(),
        merged_spec(hs1, ts1, len, out1),
        merged_spec(hs2, ts2, len, out2),
    ensures
        out1.len() == out2.len(),
        forall|k: int|
            0 <= k < out1.len() ==> decoration_model(#[trigger] out1[k]) == decoration_model(
                out2[k],
            ),
{
    lemma_seq_contains_equiv(hs1, hs2);
    lemma_seq_contains_equiv(ts1, ts2);
    lemma_hl_preds_equiv(hs1, hs2);
    lemma_ty_preds_equiv(ts1, ts2);
    lemma_boundary_equiv(hs1, ts1, hs2, ts2, len);
    lemma_merged_unique(hs1, ts1, out1, hs2, ts2, out2, len);
}

} // verus!
