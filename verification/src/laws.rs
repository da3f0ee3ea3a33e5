//! The registry's global laws, stated over the registry model and proved
//! once and for all: get-or-create idempotence, partition isolation,
//! enumeration completeness, and convergence of budgeted pruning.

use vstd::prelude::*;

use crate::frame_cache::FrameModel;
use crate::manager::{
    add_cached_frame, all_refs, ensure_cache, entries_wf, frame_count, lemma_partition_count_zero,
    lemma_partition_refs_len, lemma_remove_ref_total, lemma_with_entry, manager_wf, partition_of,
    prune_model, remove_cached_item, total_size, ManagerModel,
};
use crate::reference::RefModel;

verus! {

/// Get-or-create is idempotent: once a (source, transparency) pair has its
/// cache, asking for it again returns the very same registered store and
/// changes nothing — so two callers that look the same key up share one
/// cache, and writes through either are seen through the other.
pub proof fn lemma_get_cache_idempotent(m: ManagerModel, src: Seq<char>, transparent: bool)
    requires
        manager_wf(m),
    ensures
        ensure_cache(ensure_cache(m, src, transparent), src, transparent) == ensure_cache(
            m,
            src,
            transparent,
        ),
{
    lemma_with_entry(partition_of(m, transparent), src);
    lemma_with_entry(partition_of(ensure_cache(m, src, transparent), transparent), src);
    assert(ensure_cache(ensure_cache(m, src, transparent), src, transparent) =~~= ensure_cache(
        m,
        src,
        transparent,
    ));
}

/// Partition isolation: the transparent and the opaque namespace are
/// independent stores. Creating, filling or pruning a cache in one partition
/// leaves the other partition untouched.
pub proof fn lemma_partition_isolation(
    m: ManagerModel,
    src: Seq<char>,
    id: nat,
    frame: FrameModel,
)
    ensures
        ensure_cache(m, src, true).opaque == m.opaque,
        ensure_cache(m, src, false).transparent == m.transparent,
        add_cached_frame(m, src, true, frame).opaque == m.opaque,
        add_cached_frame(m, src, false, frame).transparent == m.transparent,
        remove_cached_item(m, src, true, id).opaque == m.opaque,
        remove_cached_item(m, src, false, id).transparent == m.transparent,
{
}

/// Global enumeration is complete: the number of enumerated references
/// equals the sum, over every registered cache of both partitions, of that
/// cache's frame count.
pub proof fn lemma_enumeration_complete(m: ManagerModel)
    ensures
        all_refs(m).len() == frame_count(m),
{
    lemma_partition_refs_len(m.transparent, true);
    lemma_partition_refs_len(m.opaque, false);
}

/// Budgeted pruning converges: walking any order that holds exactly the
/// registry's enumerated references (`prune` walks them sorted oldest first)
/// ends within the budget — when the budget is unreachable, everything is
/// removed and the total falls to zero, which is within any budget.
pub proof fn lemma_prune_within_budget(m: ManagerModel, order: Seq<RefModel>, max: nat)
    requires
        entries_wf(m.transparent),
        entries_wf(m.opaque),
        order.to_multiset() == all_refs(m).to_multiset(),
    ensures
        total_size(prune_model(m, order, max)) <= max,
    decreases order.len(),
{
    broadcast use vstd::seq_lib::group_to_multiset_ensures;
    broadcast use vstd::multiset::group_multiset_axioms;

    if total_size(m) <= max {
    } else if order.len() == 0 {
        assert(order.to_multiset().len() == order.len());
        assert(all_refs(m).to_multiset().len() == all_refs(m).len());
        assert(all_refs(m).len() == 0);
        lemma_partition_refs_len(m.transparent, true);
        lemma_partition_refs_len(m.opaque, false);
        lemma_partition_count_zero(m.transparent);
        lemma_partition_count_zero(m.opaque);
    } else {
        let rf = order[0];
        assert(order.contains(rf));
        assert(all_refs(m).to_multiset().count(rf) > 0);
        assert(all_refs(m).contains(rf));
        lemma_remove_ref_total(m, rf);
        let m2 = remove_cached_item(m, rf.src, rf.transparent, rf.id);
        assert(order.remove(0).to_multiset() == order.to_multiset().remove(rf));
        assert(order.remove(0) =~= order.drop_first());
        lemma_prune_within_budget(m2, order.drop_first(), max);
    }
}

} // verus!
