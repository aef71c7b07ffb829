//! Small text utilities used when preparing snippet material.

use vstd::prelude::*;
use vstd::string::StringSliceAdditionalSpecFns;

verus! {

/// What str::to_uppercase returns for a string: a pure function of its
/// characters alone.
pub uninterp spec fn upper_of(s: Seq<char>) -> Seq<char>;

/// Relies on str::to_uppercase: the result depends on the characters of
/// the input alone.
#[verifier::external_body]
fn uppercase(s: &str) -> (r: String)
    ensures
        r@ == upper_of(s@),
{
    s.to_uppercase()
}

/// The uppercased views of the items whose byte length reaches
/// `min_len`, in their original order.
pub open spec fn kept_upper(items: Seq<&str>, min_len: nat) -> Seq<Seq<char>>
    decreases items.len(),
{
    if items.len() == 0 {
        Seq::empty()
    } else {
        let rest = kept_upper(items.drop_last(), min_len);
        if items.last().spec_bytes().len() >= min_len {
            rest.push(upper_of(items.last()@))
        } else {
            rest
        }
    }
}

/// Keeps the items of at least `min_len` bytes and uppercases them,
/// preserving their order.
pub fn process_items(items: &[&str], min_len: usize) -> (r: Vec<String>)
    ensures
        r@.map_values(|s: String| s@) == kept_upper(items@, min_len as nat),
{
    let mut out: Vec<String> = Vec::new();
    let n = items.len();
    let mut i: usize = 0;
    while i < n
        invariant
            0 <= i <= n,
            n == items@.len(),
            out@.map_values(|s: String| s@) == kept_upper(items@.take(i as int), min_len as nat),
        decreases n - i,
    {
        let s = items[i];
        let ghost pre = out@;
        proof {
            assert(s == items@[i as int]);
        }

        let sbytes = s.as_bytes();
        if sbytes.len() >= min_len {
            let u = uppercase(s);
            out.push(u);
            proof {
                assert(out@.last() == u);
                assert(items@.take(i + 1).drop_last() =~= items@.take(i as int));
                assert(items@.take(i + 1).last() == items@[i as int]);
                assert forall|j: int|
                    #![trigger out@[j]]
                    0 <= j < out@.len() implies out@.map_values(|s: String| s@)[j]
                    == pre.map_values(|s: String| s@).push(upper_of(items@[i as int]@))[j] by {
                    if j < pre.len() {
                        assert(out@[j] == pre[j]);
                    } else {
                        assert(out@[j] == u);
                    }
                }
                assert(out@.map_values(|s: String| s@) =~= pre.map_values(|s: String| s@).push(
                    upper_of(items@[i as int]@),
                ));
                assert(items@.take(i + 1).len() == i + 1);
                assert(kept_upper(items@.take(i + 1), min_len as nat) == kept_upper(
                    items@.take(i as int),
                    min_len as nat,
                ).push(upper_of(items@[i as int]@)));
            }
        } else {
            proof {
                assert(items@.take(i + 1).drop_last() =~= items@.take(i as int));
                assert(items@.take(i + 1).last() == items@[i as int]);
                assert(items@.take(i + 1).len() == i + 1);
                assert(items@.take(i + 1).last().spec_bytes().len() < min_len);
                assert(kept_upper(items@.take(i + 1), min_len as nat) == kept_upper(
                    items@.take(i as int),
                    min_len as nat,
                ));
            }
        }
        i += 1;
    }
    proof {
        assert(items@.take(n as int) =~= items@);
    }
    out
}

} // verus!
