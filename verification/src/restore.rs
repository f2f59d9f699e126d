//! A model of what unpacking writes: the destination tree as a map from
//! relative path to the entry most recently restored there. Entries are
//! applied in stream order and a later entry for the same path silently
//! overwrites an earlier one, which is the documented overwrite policy.
//! The laws here say that restoring is deterministic in the entries
//! alone, and that restoring the same entry list twice leaves the tree
//! exactly as one pass does.

use vstd::prelude::*;
use crate::entry::EntryModel;

verus! {

/// The destination tree after restoring `es`, in order, over `fs`.
pub open spec fn restored(
    fs: Map<Seq<u8>, EntryModel>,
    es: Seq<EntryModel>,
) -> Map<Seq<u8>, EntryModel>
    decreases es.len(),
{
    if es.len() == 0 {
        fs
    } else {
        restored(fs, es.drop_last()).insert(es.last().path, es.last())
    }
}

/// Whether some entry of `es` stores path `p`.
pub open spec fn has_path(es: Seq<EntryModel>, p: Seq<u8>) -> bool {
    exists|i: int| 0 <= i < es.len() && #[trigger] es[i].path == p
}

/// The index of the last entry of `es` storing `p`, or -1 if none does.
pub open spec fn last_idx(es: Seq<EntryModel>, p: Seq<u8>) -> int
    decreases es.len(),
{
    if es.len() == 0 {
        -1
    } else if es.last().path == p {
        es.len() - 1
    } else {
        last_idx(es.drop_last(), p)
    }
}

/// When some entry stores `p`, `last_idx` names a valid index holding it.
proof fn lemma_last_idx_bounds(es: Seq<EntryModel>, p: Seq<u8>)
    requires
        has_path(es, p),
    ensures
        0 <= last_idx(es, p) < es.len(),
        es[last_idx(es, p)].path == p,
    decreases es.len(),
{
    if es.last().path == p {
    } else {
        let dl = es.drop_last();
        assert(has_path(dl, p)) by {
            let i = choose|i: int| 0 <= i < es.len() && #[trigger] es[i].path == p;
            assert(i < es.len() - 1);
            assert(dl[i].path == p);
        }
        lemma_last_idx_bounds(dl, p);
        assert(es[last_idx(dl, p)] == dl[last_idx(dl, p)]);
    }
}

/// What each path holds after a restore: the last entry of `es` stored
/// at it, or whatever `fs` held when no entry stores it.
proof fn lemma_restored_char(fs: Map<Seq<u8>, EntryModel>, es: Seq<EntryModel>)
    ensures
        forall|p: Seq<u8>|
            #[trigger] restored(fs, es).contains_key(p) <==> (fs.contains_key(p) || has_path(
                es,
                p,
            )),
        forall|p: Seq<u8>|
            has_path(es, p) ==> #[trigger] restored(fs, es)[p] == es[last_idx(es, p)],
        forall|p: Seq<u8>|
            !has_path(es, p) && fs.contains_key(p) ==> #[trigger] restored(fs, es)[p] == fs[p],
    decreases es.len(),
{
    if es.len() > 0 {
        let dl = es.drop_last();
        let last = es.last();
        lemma_restored_char(fs, dl);
        assert(forall|i: int| 0 <= i < dl.len() ==> #[trigger] dl[i] == es[i]);
        assert forall|p: Seq<u8>| has_path(es, p) && last.path != p implies has_path(dl, p) by {
            let i = choose|i: int| 0 <= i < es.len() && #[trigger] es[i].path == p;
            assert(i < es.len() - 1);
            assert(dl[i].path == p);
        }
        assert forall|p: Seq<u8>| has_path(dl, p) implies has_path(es, p) by {
            let i = choose|i: int| 0 <= i < dl.len() && #[trigger] dl[i].path == p;
            assert(es[i].path == p);
        }
        assert(has_path(es, last.path)) by {
            assert(es[es.len() - 1].path == last.path);
        }
        assert forall|p: Seq<u8>|
            #[trigger] restored(fs, es).contains_key(p) <==> (fs.contains_key(p) || has_path(
            es,
            p,
        )) by {
            if p == last.path {
                assert(restored(fs, es).contains_key(p));
                assert(has_path(es, p));
            } else {
                assert(restored(fs, es).contains_key(p) == restored(fs, dl).contains_key(p));
                assert(has_path(es, p) == has_path(dl, p));
            }
        }
        assert forall|p: Seq<u8>|
            !has_path(es, p) && fs.contains_key(p) implies #[trigger] restored(fs, es)[p]
            == fs[p] by {
            assert(p != last.path);
            assert(restored(fs, es)[p] == restored(fs, dl)[p]);
            assert(!has_path(dl, p));
        }
        assert forall|p: Seq<u8>|
            has_path(es, p) implies #[trigger] restored(fs, es)[p] == es[last_idx(es, p)] by {
            if last.path == p {
                assert(restored(fs, es)[p] == last);
            } else {
                assert(restored(fs, es)[p] == restored(fs, dl)[p]);
                assert(has_path(dl, p));
                lemma_last_idx_bounds(dl, p);
                assert(es[last_idx(dl, p)] == dl[last_idx(dl, p)]);
            }
        }
    }
}

/// Restoring is idempotent: running the same entry list into the tree a
/// second time changes nothing, so unpacking an archive twice into one
/// destination leaves the same final content as unpacking it once.
pub proof fn lemma_restore_idempotent(fs: Map<Seq<u8>, EntryModel>, es: Seq<EntryModel>)
    ensures
        restored(restored(fs, es), es) == restored(fs, es),
{
    let g = restored(fs, es);
    lemma_restored_char(fs, es);
    lemma_restored_char(g, es);
    assert forall|p: Seq<u8>|
        #[trigger] restored(g, es).contains_key(p) implies g.contains_key(p) by {
        assert(g.contains_key(p) || has_path(es, p));
    }
    assert forall|p: Seq<u8>|
        #[trigger] g.contains_key(p) implies restored(g, es).contains_key(p) by {}
    assert forall|p: Seq<u8>|
        restored(g, es).contains_key(p) implies #[trigger] restored(g, es)[p] == g[p] by {
        if has_path(es, p) {
            assert(restored(g, es)[p] == es[last_idx(es, p)]);
            assert(g[p] == es[last_idx(es, p)]);
        } else {
            assert(restored(g, es)[p] == g[p]);
        }
    }
    assert(restored(g, es) =~= g);
}

} // verus!
