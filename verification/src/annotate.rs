//! The boundary to the external type-inference engine: the fact and error
//! types it produces, bounds checking of translated facts, and the content
//! hash under which results are cached.

use vstd::prelude::*;

use crate::span::Span;

verus! {

/// Why a block received no type annotation from the analysis engine.
/// Engine-specific failures are folded into these three variants so that
/// no engine detail leaks past the adapter.
#[derive(Clone, Copy, PartialEq, Eq, Structural, Debug)]
pub enum AnalysisError {
    Timeout,
    EngineUnavailable,
    Malformed,
}

/// One per-identifier observation from the analysis engine: the span of
/// the identifier in snippet-local coordinates, the inferred type label,
/// and an optional engine diagnostic.
#[derive(Clone, Debug)]
pub struct TypeFact {
    pub snippet_span: Span,
    pub label: String,
    pub diagnostic: Option<String>,
}

/// All fact spans are well formed and stay inside a snippet of length
/// `len`.
pub open spec fn ty_facts_wf(ts: Seq<TypeFact>, len: int) -> bool {
    forall|i: int|
        0 <= i < ts.len() ==> (#[trigger] ts[i]).snippet_span.wf() && ts[i].snippet_span.end <= len
}

/// Bounds check for facts translated out of the engine's native output:
/// holds exactly when every span is snippet-local.
pub fn check_type_facts(ts: &Vec<TypeFact>, snippet_len: usize) -> (ok: bool)
    ensures
        ok == ty_facts_wf(ts@, snippet_len as int),
{
    let n = ts.len();
    let mut i: usize = 0;
    while i < n
        invariant
            0 <= i <= n,
            n == ts@.len(),
            forall|k: int|
                0 <= k < i ==> (#[trigger] ts@[k]).snippet_span.wf() && ts@[k].snippet_span.end
                    <= snippet_len,
        decreases n - i,
    {
        let s = ts[i].snippet_span;
        if s.start > s.end || s.end > snippet_len {
            return false;
        }
        i += 1;
    }
    true
}

/// Screens a successful engine reply: facts with snippet-local spans pass
/// through unchanged, anything out of bounds is reported as a malformed
/// reply rather than silently clipped.
pub fn normalize_reply(ts: Vec<TypeFact>, snippet_len: usize) -> (r: Result<
    Vec<TypeFact>,
    AnalysisError,
>)
    ensures
        r matches Ok(v) ==> v@ == ts@ && ty_facts_wf(ts@, snippet_len as int),
        r matches Err(e) ==> e == AnalysisError::Malformed && !ty_facts_wf(
            ts@,
            snippet_len as int,
        ),
        (r matches Ok(v)) == ty_facts_wf(ts@, snippet_len as int),
{
    if check_type_facts(&ts, snippet_len) {
        Ok(ts)
    } else {
        Err(AnalysisError::Malformed)
    }
}

/// One step of the 64-bit FNV-1a hash.
pub open spec fn fnv1a_step(h: u64, b: u8) -> u64 {
    (((h ^ (b as u64)) as nat * 0x100000001b3) % 0x10000000000000000) as u64
}

/// The 64-bit FNV-1a hash of a byte sequence.
pub open spec fn fnv1a(bytes: Seq<u8>) -> u64
    decreases bytes.len(),
{
    if bytes.len() == 0 {
        0xcbf29ce484222325u64
    } else {
        fnv1a_step(fnv1a(bytes.drop_last()), bytes.last())
    }
}

/// Content hash of a snippet, used as the cache key for engine results:
/// equal snippet text always hashes to the same key.
pub fn content_hash(bytes: &[u8]) -> (h: u64)
    ensures
        h == fnv1a(bytes@),
{
    let n = bytes.len();
    let mut h: u64 = 0xcbf29ce484222325;
    let mut i: usize = 0;
    while i < n
        invariant
            0 <= i <= n,
            n == bytes@.len(),
            h == fnv1a(bytes@.take(i as int)),
        decreases n - i,
    {
        h = (h ^ (bytes[i] as u64)).wrapping_mul(0x100000001b3);
        proof {
            assert(bytes@.take(i + 1).drop_last() =~= bytes@.take(i as int));
            assert(bytes@.take(i + 1).last() == bytes@[i as int]);
        }
        i += 1;
    }
    proof {
        assert(bytes@.take(n as int) =~= bytes@);
    }
    h
}

fn append_bytes(buf: &mut Vec<u8>, s: &[u8])
    ensures
        final(buf)@ == old(buf)@ + s@,
{
    let n = s.len();
    let mut i: usize = 0;
    while i < n
        invariant
            0 <= i <= n,
            n == s@.len(),
            buf@ == old(buf)@ + s@.take(i as int),
        decreases n - i,
    {
        buf.push(s[i]);
        proof {
            assert(buf@ =~= old(buf)@ + s@.take(i + 1));
        }
        i += 1;
    }
    proof {
        assert(s@.take(n as int) =~= s@);
        assert(buf@ =~= old(buf)@ + s@);
    }
}

/// The cache key for an engine result: the content hash of the engine
/// version followed by the snippet text, so that a new engine version
/// never reuses a stale entry.
pub fn cache_key(engine_version: &[u8], snippet: &[u8]) -> (k: u64)
    ensures
        k == fnv1a(engine_version@ + snippet@),
{
    let mut buf: Vec<u8> = Vec::new();
    append_bytes(&mut buf, engine_version);
    append_bytes(&mut buf, snippet);
    proof {
        assert(buf@ =~= engine_version@ + snippet@);
    }
    content_hash(buf.as_slice())
}

} // verus!
