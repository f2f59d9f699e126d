//! The pack orchestrator's pure core: plan which candidates to store,
//! check them, and encode the archive stream. Reading the tree and
//! writing the stream to disk are I/O and stay outside this crate; the
//! caller is expected to write the returned bytes to a temporary path and
//! rename it into place so that no partial archive ever lands at the
//! destination.

use vstd::prelude::*;
use crate::entry::Entry;
use crate::entry::EntryModel;
use crate::entry::entry_wf;
use crate::entry::entry_is_wf;
use crate::entry::views;
use crate::codec::spec_encode;
use crate::codec::encode_archive;
use crate::walk::spec_plan;
use crate::walk::plan_entries;

verus! {

/// Every entry the plan would store is structurally well-formed, so the
/// candidate list can be packed.
pub open spec fn plan_wf(all: Seq<EntryModel>) -> bool {
    forall|i: int| 0 <= i < spec_plan(all).len() ==> entry_wf(#[trigger] spec_plan(all)[i])
}

/// Packs a candidate list: applies the ignore rules, then encodes the
/// surviving entries into one archive stream. Returns the stream exactly
/// when every planned entry is structurally well-formed, and nothing
/// otherwise.
pub fn pack_archive(cands: &Vec<Entry>) -> (r: Option<Vec<u8>>)
    ensures
        match r {
            Some(bytes) => plan_wf(views(cands@)) && bytes@ == spec_encode(
                spec_plan(views(cands@)),
            ),
            None => !plan_wf(views(cands@)),
        },
{
    let ghost all = views(cands@);
    let planned = plan_entries(cands);
    let n = planned.len();
    let mut i: usize = 0;
    while i < n
        invariant
            n == planned@.len(),
            0 <= i <= n,
            all == views(cands@),
            views(planned@) == spec_plan(all),
            forall|k: int| 0 <= k < i ==> entry_wf(#[trigger] views(planned@)[k]),
        decreases n - i,
    {
        proof {
            assert(views(planned@)[i as int] == planned@[i as int]@);
            assert(spec_plan(all)[i as int] == views(planned@)[i as int]);
        }
        if !entry_is_wf(&planned[i]) {
            proof {
                assert(!entry_wf(spec_plan(all)[i as int]));
            }
            return None;
        }
        i = i + 1;
    }
    proof {
        assert(plan_wf(all));
        assert(forall|k: int|
            0 <= k < planned@.len() ==> entry_wf(#[trigger] planned@[k]@)) by {
            assert(forall|k: int|
                0 <= k < planned@.len() ==> #[trigger] planned@[k]@ == views(planned@)[k]);
        }
    }
    Some(encode_archive(&planned))
}

} // verus!
