//! Laws that relate several operations of the library.

use vstd::prelude::*;

use crate::align::{aligns_wf, convert_orig, orig_extent, Align};
use crate::normalized::NormalizedString;
use crate::ranges::{resolve_end, resolve_start, CharSpan, RangeBound};
use crate::text::{extract_at, extracted};

verus! {

/// Querying the normalized text through an original-referential range yields
/// the same substring as first converting the offsets and then querying with
/// the converted normalized-referential range: `get_range` on
/// `Range::Original(sp)` extracts at exactly the char range that
/// `convert_offsets` returns, and `get_range` on that converted range
/// extracts at the same place.
pub proof fn lemma_range_query_agree(ns: &NormalizedString, sp: CharSpan)
    ensures
        ({
            let c = convert_orig(
                ns.aligns(),
                resolve_start(sp.start),
                resolve_end(sp.end, orig_extent(ns.aligns())),
            );
            let converted = CharSpan {
                start: RangeBound::Included(c.0),
                end: RangeBound::Excluded(c.1),
            };
            extract_at(ns.norm(), c.0 as int, c.1 as int) == extracted(ns.norm(), converted)
        }),
{
    let c = convert_orig(
        ns.aligns(),
        resolve_start(sp.start),
        resolve_end(sp.end, orig_extent(ns.aligns())),
    );
    let converted = CharSpan { start: RangeBound::Included(c.0), end: RangeBound::Excluded(c.1) };
    assert(resolve_start(converted.start) == c.0 as int);
    assert(resolve_end(converted.end, ns.norm().len() as int) == c.1 as int);
}

/// Merging preserves the invariants whenever the seam stays monotone: the
/// head's last entry lies at or left of the tail's first entry once that is
/// shifted, and the shift keeps every entry within the concatenated
/// original.  (A freshly constructed tail always satisfies the seam
/// condition; the bound on the head's normalized length holds unless
/// insertions outgrew the original.)
pub proof fn lemma_merge_preserves_wf(a: &NormalizedString, b: &NormalizedString)
    requires
        a.well_formed(),
        b.well_formed(),
        a.norm().len() >= 1,
        a.norm().len() - 1 <= a.orig().len(),
        a.orig().len() + b.orig().len() <= usize::MAX,
        b.aligns().len() > 0 && a.aligns().len() > 0 ==> a.aligns().last().0 <= b.aligns()[0].0
            + a.norm().len() - 1 && a.aligns().last().1 <= b.aligns()[0].1 + a.norm().len() - 1,
    ensures
        ({
            let shift = a.norm().len() - 1;
            let merged = a.aligns() + Seq::new(
                b.aligns().len(),
                |i: int|
                    (
                        ((b.aligns()[i].0 + shift) as usize),
                        ((b.aligns()[i].1 + shift) as usize),
                    ),
            );
            &&& aligns_wf(merged, a.orig().len() + b.orig().len() as int)
            &&& merged.len() == (a.norm() + b.norm()).len()
        }),
{
    let shift = a.norm().len() - 1;
    let olen = a.orig().len() + b.orig().len() as int;
    let ba = b.aligns();
    let tail = Seq::new(
        ba.len(),
        |i: int| (((ba[i].0 + shift) as usize), ((ba[i].1 + shift) as usize)),
    );
    let merged = a.aligns() + tail;
    assert forall|i: int| 0 <= i < ba.len() implies (#[trigger] ba[i]).0 + shift <= usize::MAX
        && ba[i].1 + shift <= usize::MAX by {
        assert(ba[i].0 <= ba[i].1 <= b.orig().len());
    }
    assert forall|i: int| 0 <= i < merged.len() implies (#[trigger] merged[i]).0 <= merged[i].1
        <= olen by {
        if i < a.aligns().len() {
            assert(merged[i] == a.aligns()[i]);
        } else {
            let q = i - a.aligns().len();
            assert(merged[i] == tail[q]);
            assert(ba[q].0 <= ba[q].1 <= b.orig().len());
        }
    }
    assert forall|i: int, j: int|
        #![trigger merged[i], merged[j]]
        0 <= i <= j < merged.len() implies merged[i].0 <= merged[j].0 && merged[i].1
        <= merged[j].1 by {
        let na = a.aligns().len() as int;
        if j < na {
            assert(merged[i] == a.aligns()[i] && merged[j] == a.aligns()[j]);
        } else if i >= na {
            let qi = i - na;
            let qj = j - na;
            assert(merged[i] == tail[qi] && merged[j] == tail[qj]);
            assert(ba[qi].0 <= ba[qj].0 && ba[qi].1 <= ba[qj].1);
        } else {
            let qj = j - na;
            assert(merged[i] == a.aligns()[i] && merged[j] == tail[qj]);
            assert(a.aligns()[i].0 <= a.aligns()[na - 1].0 && a.aligns()[i].1 <= a.aligns()[na
                - 1].1);
            assert(ba[0].0 <= ba[qj].0 && ba[0].1 <= ba[qj].1);
        }
    }
}

} // verus!
