//! Per-block processing: deciding which facts a block receives, merging
//! them with its highlighting, and emitting its tokens. A whole
//! documentation unit is processed block by block, each block's output
//! determined by that block's inputs alone, so no block's failure can
//! reach a sibling.

use vstd::prelude::*;

use crate::annotate::AnalysisError;
use crate::annotate::TypeFact;
use crate::annotate::check_type_facts;
use crate::annotate::ty_facts_wf;
use crate::emit::Token;
use crate::emit::concat_token_text;
use crate::emit::emit_tokens;
use crate::emit::token_matches;
use crate::extract::BlockStructure;
use crate::extract::CodeBlock;
use crate::merge::Decoration;
use crate::merge::HighlightFact;
use crate::merge::hl_facts_wf;
use crate::merge::has_label_at;
use crate::merge::label_conflict_at;
use crate::merge::lemma_label_choice_elim;
use crate::merge::merge;
use crate::merge::merged_spec;
use crate::merge::opt_label_view;
use crate::merge::payload_ok;
use crate::merge::ty_covers;

verus! {

/// What came back from the external analysis engine for one block:
/// either its translated facts or the failure that replaced them.
pub enum EngineOutcome {
    Facts(Vec<TypeFact>),
    Failed(AnalysisError),
}

/// Everything produced for one block: its decorations, its tokens,
/// whether type annotation was applied, and the engine failure if one
/// occurred.
pub struct BlockOutput {
    pub decorations: Vec<Decoration>,
    pub tokens: Vec<Token>,
    pub annotated: bool,
    pub error: Option<AnalysisError>,
}

/// A block takes part in type annotation only when its tag is
/// annotatable and its fences were well formed.
pub open spec fn block_usable(b: CodeBlock, annotatable: bool) -> bool {
    annotatable && b.structure == BlockStructure::Closed
}

/// The type facts a block's merge receives: the engine's facts when the
/// block is usable and every fact is snippet-local, nothing otherwise.
pub open spec fn used_type_facts(b: CodeBlock, annotatable: bool, o: EngineOutcome) -> Seq<
    TypeFact,
> {
    if block_usable(b, annotatable) {
        match o {
            EngineOutcome::Facts(f) => if ty_facts_wf(f@, b.raw_text@.len() as int) {
                f@
            } else {
                Seq::empty()
            },
            EngineOutcome::Failed(_) => Seq::empty(),
        }
    } else {
        Seq::empty()
    }
}

/// The failure reported for a block: the engine's failure, or a
/// malformed reply, only where the block asked for annotation at all.
pub open spec fn block_error(b: CodeBlock, annotatable: bool, o: EngineOutcome) -> Option<
    AnalysisError,
> {
    if block_usable(b, annotatable) {
        match o {
            EngineOutcome::Facts(f) => if ty_facts_wf(f@, b.raw_text@.len() as int) {
                None
            } else {
                Some(AnalysisError::Malformed)
            },
            EngineOutcome::Failed(e) => Some(e),
        }
    } else {
        None
    }
}

/// Full description of one block's output in terms of that block's
/// inputs alone.
pub open spec fn block_output_ok(
    b: CodeBlock,
    annotatable: bool,
    hls: Seq<HighlightFact>,
    o: EngineOutcome,
    out: BlockOutput,
) -> bool {
    &&& merged_spec(
        hls,
        used_type_facts(b, annotatable, o),
        b.raw_text@.len() as int,
        out.decorations@,
    )
    &&& out.tokens@.len() == out.decorations@.len()
    &&& forall|k: int|
        0 <= k < out.tokens@.len() ==> token_matches(
            b.raw_text@,
            out.decorations@[k],
            #[trigger] out.tokens@[k],
        )
    &&& concat_token_text(out.tokens@) == b.raw_text@
    &&& out.error == block_error(b, annotatable, o)
    &&& out.annotated == (block_usable(b, annotatable) && block_error(b, annotatable, o) is None)
}

/// Processes one block: merges its highlighting with whatever type facts
/// it is entitled to, and emits its tokens. Whatever the engine did, the
/// emitted tokens reproduce the block's text exactly; an engine failure
/// only costs the block its type labels.
pub fn process_block(
    block: &CodeBlock,
    annotatable: bool,
    highlights: &Vec<HighlightFact>,
    outcome: &EngineOutcome,
) -> (out: BlockOutput)
    requires
        hl_facts_wf(highlights@, block.raw_text@.len() as int),
    ensures
        block_output_ok(*block, annotatable, highlights@, *outcome, out),
{
    let len = block.raw_text.len();
    let structure_ok = match block.structure {
        BlockStructure::Closed => true,
        _ => false,
    };
    let usable = annotatable && structure_ok;
    let empty: Vec<TypeFact> = Vec::new();
    let (used, error): (&Vec<TypeFact>, Option<AnalysisError>) = if usable {
        match outcome {
            EngineOutcome::Facts(f) => {
                if check_type_facts(f, len) {
                    (f, None)
                } else {
                    (&empty, Some(AnalysisError::Malformed))
                }
            },
            EngineOutcome::Failed(e) => (&empty, Some(*e)),
        }
    } else {
        (&empty, None)
    };
    proof {
        assert(used@ == used_type_facts(*block, annotatable, *outcome));
        assert(error == block_error(*block, annotatable, *outcome));
    }
    let decorations = merge(highlights, used, len);
    let tokens = emit_tokens(block.raw_text.as_slice(), &decorations);
    let annotated = usable && error.is_none();
    BlockOutput { decorations, tokens, annotated, error }
}

/// A block that received no type facts carries no type labels: every
/// one of its tokens has an absent label. In particular a block with a
/// non-annotatable tag, and a block whose engine call failed, come out
/// highlight-only.
pub proof fn lemma_unannotated_tokens(
    hls: Seq<HighlightFact>,
    ts: Seq<TypeFact>,
    len: int,
    decs: Seq<Decoration>,
    text: Seq<u8>,
    toks: Seq<Token>,
)
    requires
        ts.len() == 0,
        merged_spec(hls, ts, len, decs),
        toks.len() == decs.len(),
        forall|k: int| 0 <= k < toks.len() ==> token_matches(text, decs[k], #[trigger] toks[k]),
    ensures
        forall|k: int| 0 <= k < toks.len() ==> (#[trigger] toks[k]).type_label is None,
{
    assert forall|k: int| 0 <= k < toks.len() implies (#[trigger] toks[k]).type_label is None by {
        assert(payload_ok(hls, ts, decs[k]));
        match opt_label_view(decs[k].type_label) {
            Some(l) => {
                lemma_label_choice_elim(
                    ts,
                    decs[k].snippet_span.start as int,
                    decs[k].type_label,
                    label_conflict_at(ts, decs[k].snippet_span.start as int),
                    l,
                );
                assert(has_label_at(ts, decs[k].snippet_span.start as int, l));
                let i = choose|i: int|
                    0 <= i < ts.len() && ty_covers(#[trigger] ts[i], decs[k].snippet_span.start as int)
                        && ts[i].label@ == l;
                assert(false);
            },
            None => {
                assert(opt_label_view(toks[k].type_label) == opt_label_view(decs[k].type_label));
                match toks[k].type_label {
                    Some(s) => {
                        assert(opt_label_view(toks[k].type_label) == Some(s@));
                        assert(false);
                    },
                    None => {},
                }
            },
        }
    }
}

/// A block that a failure or its own shape kept out of annotation comes
/// out highlight-only: none of its tokens carries a type label. This
/// holds for a non-annotatable tag, a malformed fence, a timeout, an
/// unavailable engine, and a malformed reply alike.
pub proof fn lemma_block_highlight_only(
    b: CodeBlock,
    annotatable: bool,
    hls: Seq<HighlightFact>,
    o: EngineOutcome,
    out: BlockOutput,
)
    requires
        block_output_ok(b, annotatable, hls, o, out),
        !block_usable(b, annotatable) || block_error(b, annotatable, o) is Some,
    ensures
        forall|k: int| 0 <= k < out.tokens@.len() ==> (#[trigger] out.tokens@[k]).type_label is None,
{
    assert(used_type_facts(b, annotatable, o).len() == 0) by {
        if block_usable(b, annotatable) {
            match o {
                EngineOutcome::Facts(f) => {
                    assert(!ty_facts_wf(f@, b.raw_text@.len() as int));
                },
                EngineOutcome::Failed(_) => {},
            }
        }
    }
    lemma_unannotated_tokens(
        hls,
        used_type_facts(b, annotatable, o),
        b.raw_text@.len() as int,
        out.decorations@,
        b.raw_text@,
        out.tokens@,
    );
}

/// Byte-for-byte equality of two byte slices.
pub fn eq_bytes(a: &[u8], b: &[u8]) -> (r: bool)
    ensures
        r == (a@ == b@),
{
    let n = a.len();
    if n != b.len() {
        proof {
            if a@ == b@ {
                assert(a@.len() == b@.len());
            }
        }
        return false;
    }
    let mut i: usize = 0;
    while i < n
        invariant
            0 <= i <= n,
            n == a@.len(),
            n == b@.len(),
            forall|t: int| 0 <= t < i ==> a@[t] == b@[t],
        decreases n - i,
    {
        if a[i] != b[i] {
            return false;
        }
        i += 1;
    }
    proof {
        assert(a@ =~= b@);
    }
    true
}

/// Whether a block's language tag is the configured annotatable tag.
pub fn is_annotatable(block: &CodeBlock, tag: &[u8]) -> (r: bool)
    ensures
        r == (block.language_tag@ == tag@),
{
    eq_bytes(block.language_tag.as_slice(), tag)
}

/// Processes a whole documentation unit block by block. Each block's
/// output is fully determined by that block's own text, highlighting and
/// engine outcome, so a failure for one block never reaches its
/// siblings, and the output order is the document order of the blocks.
pub fn process_unit(
    blocks: &Vec<CodeBlock>,
    highlightings: &Vec<Vec<HighlightFact>>,
    outcomes: &Vec<EngineOutcome>,
    tag: &[u8],
) -> (outs: Vec<BlockOutput>)
    requires
        highlightings@.len() == blocks@.len(),
        outcomes@.len() == blocks@.len(),
        forall|i: int|
            0 <= i < blocks@.len() ==> hl_facts_wf(
                (#[trigger] highlightings@[i])@,
                blocks@[i].raw_text@.len() as int,
            ),
    ensures
        outs@.len() == blocks@.len(),
        forall|i: int|
            0 <= i < outs@.len() ==> block_output_ok(
                blocks@[i],
                blocks@[i].language_tag@ == tag@,
                highlightings@[i]@,
                outcomes@[i],
                #[trigger] outs@[i],
            ),
{
    let n = blocks.len();
    let mut outs: Vec<BlockOutput> = Vec::new();
    let mut i: usize = 0;
    while i < n
        invariant
            0 <= i <= n,
            n == blocks@.len(),
            highlightings@.len() == n,
            outcomes@.len() == n,
            forall|x: int|
                0 <= x < n ==> hl_facts_wf(
                    (#[trigger] highlightings@[x])@,
                    blocks@[x].raw_text@.len() as int,
                ),
            outs@.len() == i,
            forall|x: int|
                0 <= x < i ==> block_output_ok(
                    blocks@[x],
                    blocks@[x].language_tag@ == tag@,
                    highlightings@[x]@,
                    outcomes@[x],
                    #[trigger] outs@[x],
                ),
        decreases n - i,
    {
        let annotatable = is_annotatable(&blocks[i], tag);
        let out = process_block(&blocks[i], annotatable, &highlightings[i], &outcomes[i]);
        outs.push(out);
        i += 1;
    }
    outs
}

} // verus!
