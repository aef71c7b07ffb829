//! Emission of the final token stream from a merged decoration sequence.

use vstd::prelude::*;

use crate::merge::Decoration;
use crate::merge::HighlightClass;
use crate::merge::lemma_ends_ordered;
use crate::merge::opt_label_view;
use crate::merge::tiles;
use vstd::slice::slice_subrange;
use vstd::slice::slice_to_vec;

verus! {

/// One markup-ready unit: a slice of the snippet text together with the
/// optional highlight class and the optional type label that the
/// renderer turns into attributes.
#[derive(Clone, Debug)]
pub struct Token {
    pub text_slice: Vec<u8>,
    pub class: Option<HighlightClass>,
    pub type_label: Option<String>,
}

/// The concatenation of all token text slices, in order.
pub open spec fn concat_token_text(toks: Seq<Token>) -> Seq<u8>
    decreases toks.len(),
{
    if toks.len() == 0 {
        Seq::empty()
    } else {
        concat_token_text(toks.drop_last()) + toks.last().text_slice@
    }
}

/// Token `t` renders decoration `d` of snippet `text`: same span text,
/// same class, same label.
pub open spec fn token_matches(text: Seq<u8>, d: Decoration, t: Token) -> bool {
    &&& t.text_slice@ == text.subrange(d.snippet_span.start as int, d.snippet_span.end as int)
    &&& t.class == d.class
    &&& opt_label_view(t.type_label) == opt_label_view(d.type_label)
}

/// Walks a decoration sequence that tiles the snippet and emits one token
/// per decoration. Concatenating the emitted text slices reproduces the
/// snippet byte for byte: emission never drops, duplicates or reorders a
/// single byte of the original text.
pub fn emit_tokens(text: &[u8], decorations: &Vec<Decoration>) -> (toks: Vec<Token>)
    requires
        tiles(decorations@, text@.len() as int),
    ensures
        toks@.len() == decorations@.len(),
        forall|k: int|
            0 <= k < toks@.len() ==> token_matches(text@, decorations@[k], #[trigger] toks@[k]),
        concat_token_text(toks@) == text@,
{
    let n = decorations.len();
    let mut toks: Vec<Token> = Vec::new();
    let mut k: usize = 0;
    while k < n
        invariant
            0 <= k <= n,
            n == decorations@.len(),
            tiles(decorations@, text@.len() as int),
            toks@.len() == k,
            forall|i: int|
                0 <= i < k ==> token_matches(text@, decorations@[i], #[trigger] toks@[i]),
            concat_token_text(toks@) == text@.subrange(
                0,
                if k < n {
                    decorations@[k as int].snippet_span.start as int
                } else {
                    text@.len() as int
                },
            ),
        decreases n - k,
    {
        let d = &decorations[k];
        proof {
            if k < n - 1 {
                lemma_ends_ordered(decorations@, k as int, n - 1);
            }
            assert(decorations@[n - 1].snippet_span.end == text@.len());
            assert(d.snippet_span.end <= text@.len());
        }
        let piece = slice_to_vec(slice_subrange(text, d.snippet_span.start, d.snippet_span.end));
        let label: Option<String> = match &d.type_label {
            Some(s) => Some(s.clone()),
            None => None,
        };
        let t = Token { text_slice: piece, class: d.class, type_label: label };
        proof {
            assert(token_matches(text@, decorations@[k as int], t));
        }
        let ghost pre = toks@;
        toks.push(t);
        proof {
            assert(toks@.drop_last() =~= pre);
            assert(toks@.last().text_slice@ == text@.subrange(
                decorations@[k as int].snippet_span.start as int,
                decorations@[k as int].snippet_span.end as int,
            ));
            let lo = decorations@[k as int].snippet_span.start as int;
            let hi = decorations@[k as int].snippet_span.end as int;
            assert(text@.subrange(0, hi) =~= text@.subrange(0, lo) + text@.subrange(lo, hi));
            if k + 1 < n {
                assert(decorations@[k as int + 1].snippet_span.start == decorations@[
                    k as int
                ].snippet_span.end);
            }
        }
        k += 1;
    }
    proof {
        if n == 0 {
            assert(text@.len() == 0);
        }
        assert(text@.subrange(0, text@.len() as int) =~= text@);
    }
    toks
}

} // verus!
