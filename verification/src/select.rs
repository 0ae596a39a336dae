//! Resolving parsed selection ranges against a collection of a given
//! length: 1-based inclusive ranges become 0-based positions. A range
//! that does not fit the collection — its start is 0, or either bound
//! exceeds the length — is dropped wholesale, never clamped; dropping a
//! range is not an error.

use crate::pattern::Span;
use crate::task::Task;
use vstd::prelude::*;

verus! {

/// Whether a selection range fits a collection of `len` tasks: the start
/// is a real 1-based position and both bounds lie within `len`.
pub open spec fn span_in_bounds(sp: Span, len: nat) -> bool {
    1 <= sp.start && sp.start as nat <= len && sp.end as nat <= len
}

/// The 0-based positions a range selects, in ascending order; empty when
/// the start exceeds the end.
pub open spec fn span_positions(sp: Span) -> Seq<u32> {
    if sp.start <= sp.end {
        Seq::new((sp.end - sp.start + 1) as nat, |k: int| (sp.start - 1 + k) as u32)
    } else {
        Seq::empty()
    }
}

/// Every position the ranges select, range by range, in order: ranges out
/// of bounds contribute nothing, and overlapping ranges may repeat a
/// position.
pub open spec fn resolved_indices(spans: Seq<Span>, len: nat) -> Seq<u32>
    decreases spans.len(),
{
    if spans.len() == 0 {
        Seq::empty()
    } else {
        resolved_indices(spans.drop_last(), len) + (if span_in_bounds(spans.last(), len) {
            span_positions(spans.last())
        } else {
            Seq::empty()
        })
    }
}

/// Every resolved position lies inside the collection.
pub proof fn lemma_resolved_indices_in_bounds(spans: Seq<Span>, len: nat)
    ensures
        forall|i: int|
            0 <= i < resolved_indices(spans, len).len() ==> (#[trigger] resolved_indices(
                spans,
                len,
            )[i] as nat) < len,
    decreases spans.len(),
{
    if spans.len() > 0 {
        lemma_resolved_indices_in_bounds(spans.drop_last(), len);
        let rest = resolved_indices(spans.drop_last(), len);
        let last = spans.last();
        let whole = resolved_indices(spans, len);
        assert forall|i: int| 0 <= i < whole.len() implies (whole[i] as nat) < len by {
            if i < rest.len() {
                assert(whole[i] == rest[i]);
            } else if span_in_bounds(last, len) {
                assert(whole[i] == span_positions(last)[i - rest.len()]);
            }
        }
    }
}

/// Resolves parsed ranges against the current collection: the result
/// lists, in order, the 0-based index of every selected task, with ranges
/// that fall outside the collection dropped wholesale.
pub fn validate_range(ranges: Vec<Span>, tasks: &Vec<Task>) -> (r: Vec<u32>)
    ensures
        r@ == resolved_indices(ranges@, tasks@.len()),
        forall|i: int| 0 <= i < r@.len() ==> (#[trigger] r@[i] as nat) < tasks@.len(),
{
    let len = tasks.len();
    let mut out: Vec<u32> = Vec::new();
    let mut i: usize = 0;
    while i < ranges.len()
        invariant
            i <= ranges@.len(),
            len == tasks@.len(),
            out@ == resolved_indices(ranges@.take(i as int), len as nat),
        decreases ranges@.len() - i,
    {
        let sp = ranges[i];
        let ghost base = out@;
        if sp.start >= 1 && sp.start as usize <= len && sp.end as usize <= len {
            if sp.start <= sp.end {
                let mut p: u32 = sp.start;
                while p < sp.end
                    invariant
                        1 <= sp.start <= p <= sp.end,
                        out@ == base + span_positions(sp).take((p - sp.start) as int),
                    decreases sp.end - p,
                {
                    out.push(p - 1);
                    p = p + 1;
                    proof {
                        assert(out@ =~= base + span_positions(sp).take((p - sp.start) as int));
                    }
                }
                out.push(p - 1);
                proof {
                    assert(out@ =~= base + span_positions(sp));
                }
            }
        }
        i = i + 1;
        proof {
            assert(ranges@.take(i as int).drop_last() =~= ranges@.take(i - 1));
            assert(span_in_bounds(sp, len as nat) && sp.start > sp.end ==> span_positions(sp)
                =~= Seq::<u32>::empty());
            assert(out@ =~= resolved_indices(ranges@.take(i as int), len as nat));
        }
    }
    proof {
        assert(ranges@.take(ranges@.len() as int) =~= ranges@);
        lemma_resolved_indices_in_bounds(ranges@, tasks@.len());
    }
    out
}

} // verus!
