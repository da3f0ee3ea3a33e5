//! The cache registry: two partitions — `transparent` and `opaque` — each a
//! mapping from source identifier to that source's frame cache, with lazy
//! get-or-create, global size accounting, global reference enumeration and
//! size-bounded least-recently-used pruning across all caches.

use vstd::prelude::*;

use crate::frame_cache::{
    cache_size, first_within, frame_index_of, has_frame, lemma_cache_size_push,
    lemma_cache_size_remove, lemma_first_index_where, remove_frame, unique_ids, CachedFrame,
    FrameCache, FrameModel,
};
use crate::reference::{
    lemma_sort_refs_multiset, ref_models, refs_of, sort_refs, sort_references, FrameCacheReference,
    RefModel,
};
use vstd::seq_lib::lemma_multiset_commutative;

verus! {

/// How a registry operation fails. A lookup by id that the owning cache does
/// not hold is the one failure the registry itself produces; the
/// "no item within threshold" outcome of the time-window lookup is a normal
/// empty result, not a failure.
#[derive(Clone, Copy, Debug, PartialEq, Eq, Structural)]
pub enum CacheError {
    NotFound,
}

/// One registered cache: the source identifier it is keyed under and the
/// per-source frame store.
pub struct CacheEntry {
    pub src: String,
    pub cache: FrameCache,
}

/// Mathematical image of one registered cache.
#[verifier::ext_equal]
pub ghost struct EntryModel {
    pub src: Seq<char>,
    pub items: Seq<FrameModel>,
}

impl View for CacheEntry {
    type V = EntryModel;

    open spec fn view(&self) -> EntryModel {
        EntryModel { src: self.src@, items: self.cache@ }
    }
}

/// Mathematical image of the whole registry: the two partitions, each a
/// sequence of registered caches in creation order.
#[verifier::ext_equal]
pub ghost struct ManagerModel {
    pub transparent: Seq<EntryModel>,
    pub opaque: Seq<EntryModel>,
}

/// The models of a sequence of registered caches.
pub open spec fn entry_models(s: Seq<CacheEntry>) -> Seq<EntryModel> {
    s.map_values(|e: CacheEntry| e@)
}

/// The partition selected by the transparency flag.
pub open spec fn partition_of(m: ManagerModel, transparent: bool) -> Seq<EntryModel> {
    if transparent {
        m.transparent
    } else {
        m.opaque
    }
}

/// Index of the entry keyed under `src`, or -1. Keys are unique in a well
/// formed partition, so this is the entry.
pub open spec fn entry_index_of(entries: Seq<EntryModel>, src: Seq<char>) -> int {
    crate::frame_cache::first_index_where(entries, |e: EntryModel| e.src == src)
}

/// Whether the partition holds an entry keyed under `src`.
pub open spec fn has_entry(entries: Seq<EntryModel>, src: Seq<char>) -> bool {
    entry_index_of(entries, src) != -1
}

/// The frames of the entry keyed under `src`.
pub open spec fn entry_items(entries: Seq<EntryModel>, src: Seq<char>) -> Seq<FrameModel> {
    entries[entry_index_of(entries, src)].items
}

/// Bytes held by one partition: the sum of its caches' sizes.
pub open spec fn partition_size(entries: Seq<EntryModel>) -> nat
    decreases entries.len(),
{
    if entries.len() == 0 {
        0
    } else {
        cache_size(entries[0].items) + partition_size(entries.drop_first())
    }
}

/// Bytes held by the whole registry, always recomputed from current cache
/// state, never memoized.
pub open spec fn total_size(m: ManagerModel) -> nat {
    partition_size(m.transparent) + partition_size(m.opaque)
}

/// The references of one entry: one per frame, tagged with the entry's key
/// (recorded as both source and originating source) and partition flag.
pub open spec fn entry_refs(e: EntryModel, transparent: bool) -> Seq<RefModel> {
    refs_of(e.src, e.src, transparent, e.items)
}

/// The references of one partition, in entry creation order.
pub open spec fn partition_refs(entries: Seq<EntryModel>, transparent: bool) -> Seq<RefModel>
    decreases entries.len(),
{
    if entries.len() == 0 {
        Seq::<RefModel>::empty()
    } else {
        entry_refs(entries[0], transparent) + partition_refs(entries.drop_first(), transparent)
    }
}

/// Every cached item of the registry, transparent partition first, then
/// opaque: the enumeration order that breaks eviction ties.
pub open spec fn all_refs(m: ManagerModel) -> Seq<RefModel> {
    partition_refs(m.transparent, true) + partition_refs(m.opaque, false)
}

/// How many frames one partition holds.
pub open spec fn partition_count(entries: Seq<EntryModel>) -> nat
    decreases entries.len(),
{
    if entries.len() == 0 {
        0
    } else {
        entries[0].items.len() + partition_count(entries.drop_first())
    }
}

/// How many frames the registry holds, summed over every registered cache.
pub open spec fn frame_count(m: ManagerModel) -> nat {
    partition_count(m.transparent) + partition_count(m.opaque)
}

/// The partition after get-or-create of `src`: unchanged when the key is
/// present, else extended with a fresh empty cache. An entry, once created,
/// is never removed from its partition.
pub open spec fn with_entry(entries: Seq<EntryModel>, src: Seq<char>) -> Seq<EntryModel> {
    if has_entry(entries, src) {
        entries
    } else {
        entries.push(EntryModel { src, items: Seq::<FrameModel>::empty() })
    }
}

/// The registry after get-or-create of (`src`, `transparent`).
pub open spec fn ensure_cache(m: ManagerModel, src: Seq<char>, transparent: bool) -> ManagerModel {
    if transparent {
        ManagerModel { transparent: with_entry(m.transparent, src), opaque: m.opaque }
    } else {
        ManagerModel { transparent: m.transparent, opaque: with_entry(m.opaque, src) }
    }
}

/// The partition after removing the frame carrying `id` from the cache keyed
/// under `src`; unchanged when key or id is absent.
pub open spec fn remove_in_entries(entries: Seq<EntryModel>, src: Seq<char>, id: nat) -> Seq<
    EntryModel,
> {
    if has_entry(entries, src) {
        let k = entry_index_of(entries, src);
        entries.update(k, EntryModel { src: entries[k].src, items: remove_frame(entries[k].items, id) })
    } else {
        entries
    }
}

/// The registry after removing one cached item.
pub open spec fn remove_cached_item(m: ManagerModel, src: Seq<char>, transparent: bool, id: nat) -> ManagerModel {
    if transparent {
        ManagerModel { transparent: remove_in_entries(m.transparent, src, id), opaque: m.opaque }
    } else {
        ManagerModel { transparent: m.transparent, opaque: remove_in_entries(m.opaque, src, id) }
    }
}

/// The registry after get-or-create of (`src`, `transparent`) followed by
/// storing `frame` in that cache; a frame whose id the cache already holds is
/// refused.
pub open spec fn add_cached_frame(m: ManagerModel, src: Seq<char>, transparent: bool, frame: FrameModel) -> ManagerModel {
    let m1 = ensure_cache(m, src, transparent);
    let entries = partition_of(m1, transparent);
    let k = entry_index_of(entries, src);
    let items = entries[k].items;
    let items2 = if has_frame(items, frame.id) {
        items
    } else {
        items.push(frame)
    };
    let entries2 = entries.update(k, EntryModel { src: entries[k].src, items: items2 });
    if transparent {
        ManagerModel { transparent: entries2, opaque: m1.opaque }
    } else {
        ManagerModel { transparent: m1.transparent, opaque: entries2 }
    }
}

/// A partition is well formed when its keys are pairwise distinct and each
/// cache's frame ids are pairwise distinct.
pub open spec fn entries_wf(entries: Seq<EntryModel>) -> bool {
    &&& forall|i: int, j: int|
        0 <= i < j < entries.len() ==> entries[i].src != entries[j].src
    &&& forall|i: int| 0 <= i < entries.len() ==> unique_ids(#[trigger] entries[i].items)
}

/// The registry's invariant: both partitions well formed, and the total held
/// byte count representable.
pub open spec fn manager_wf(m: ManagerModel) -> bool {
    &&& entries_wf(m.transparent)
    &&& entries_wf(m.opaque)
    &&& total_size(m) <= u128::MAX
}

/// The registry after budgeted pruning, walking `order` (the references
/// sorted oldest first): before each removal the total size is recomputed,
/// and the walk stops as soon as it is within `max`.
pub open spec fn prune_model(m: ManagerModel, order: Seq<RefModel>, max: nat) -> ManagerModel
    decreases order.len(),
{
    if total_size(m) <= max {
        m
    } else if order.len() == 0 {
        m
    } else {
        prune_model(
            remove_cached_item(m, order[0].src, order[0].transparent, order[0].id),
            order.drop_first(),
            max,
        )
    }
}

/// The frame-cache registry. It owns every per-source cache, split into two
/// disjoint namespaces keyed by the transparency flag; a (source,
/// transparency) pair identifies at most one cache, and an entry, once
/// created, is never removed — only its contents can be pruned away.
pub struct FrameCacheManager {
    transparent: Vec<CacheEntry>,
    opaque: Vec<CacheEntry>,
}

impl View for FrameCacheManager {
    type V = ManagerModel;

    closed spec fn view(&self) -> ManagerModel {
        ManagerModel {
            transparent: entry_models(self.transparent@),
            opaque: entry_models(self.opaque@),
        }
    }
}

proof fn lemma_partition_size_push(entries: Seq<EntryModel>, e: EntryModel)
    ensures
        partition_size(entries.push(e)) == partition_size(entries) + cache_size(e.items),
    decreases entries.len(),
{
    if entries.len() == 0 {
        assert(entries.push(e).drop_first() =~= entries);
    } else {
        assert(entries.push(e).drop_first() =~= entries.drop_first().push(e));
        lemma_partition_size_push(entries.drop_first(), e);
    }
}

proof fn lemma_partition_size_skip(entries: Seq<EntryModel>, i: int)
    requires
        0 <= i < entries.len(),
    ensures
        partition_size(entries.skip(i)) == cache_size(entries[i].items) + partition_size(
            entries.skip(i + 1),
        ),
{
    assert(entries.skip(i).drop_first() =~= entries.skip(i + 1));
    assert(entries.skip(i)[0] == entries[i]);
    assert(entries.skip(i).len() > 0);
}

proof fn lemma_partition_size_update(entries: Seq<EntryModel>, k: int, e: EntryModel)
    requires
        0 <= k < entries.len(),
    ensures
        partition_size(entries.update(k, e)) + cache_size(entries[k].items) == partition_size(
            entries,
        ) + cache_size(e.items),
    decreases k,
{
    if k == 0 {
        assert(entries.update(0, e).drop_first() =~= entries.drop_first());
        assert(entries.update(0, e)[0] == e);
    } else {
        assert(entries.update(k, e).drop_first() =~= entries.drop_first().update(k - 1, e));
        assert(entries.update(k, e)[0] == entries[0]);
        lemma_partition_size_update(entries.drop_first(), k - 1, e);
    }
}

/// Properties of get-or-create on a well formed partition: it keeps the
/// partition well formed, establishes the key, and holds no more bytes.
pub(crate) proof fn lemma_with_entry(entries: Seq<EntryModel>, src: Seq<char>)
    requires
        entries_wf(entries),
    ensures
        entries_wf(with_entry(entries, src)),
        has_entry(with_entry(entries, src), src),
        partition_size(with_entry(entries, src)) == partition_size(entries),
        has_entry(entries, src) ==> with_entry(entries, src) == entries,
        !has_entry(entries, src) ==> entry_index_of(with_entry(entries, src), src)
            == entries.len(),
{
    let p = |e: EntryModel| e.src == src;
    lemma_first_index_where(entries, p);
    if !has_entry(entries, src) {
        let fresh = EntryModel { src, items: Seq::<FrameModel>::empty() };
        let pushed = entries.push(fresh);
        lemma_first_index_where(pushed, p);
        assert(p(pushed[entries.len() as int]));
        assert(forall|j: int| 0 <= j < entries.len() ==> pushed[j] == entries[j]);
        lemma_partition_size_push(entries, fresh);
        assert(cache_size(fresh.items) == 0);
    }
}

impl FrameCacheManager {
    /// The registry's invariant.
    pub open spec fn wf(&self) -> bool {
        manager_wf(self@)
    }

    /// Whether a cache is registered for this (source, transparency) pair.
    fn frame_cache_exists(&self, src: &str, transparent: bool) -> (r: bool)
        ensures
            r == has_entry(partition_of(self@, transparent), src@),
    {
        let key: String = src.to_owned();
        let r = if transparent {
            find_entry(&self.transparent, &key)
        } else {
            find_entry(&self.opaque, &key)
        };
        r.is_some()
    }

    /// Register a fresh, empty cache under a key that has none yet.
    fn add_frame_cache(&mut self, src: &str, transparent: bool)
        requires
            old(self).wf(),
            !has_entry(partition_of(old(self)@, transparent), src@),
        ensures
            final(self).wf(),
            final(self)@ == ensure_cache(old(self)@, src@, transparent),
    {
        let entry = CacheEntry { src: src.to_owned(), cache: FrameCache::new() };
        proof {
            assert(entry@ =~= EntryModel { src: src@, items: Seq::<FrameModel>::empty() });
            lemma_with_entry(partition_of(old(self)@, transparent), src@);
        }
        if transparent {
            self.transparent.push(entry);
            proof {
                assert(entry_models(self.transparent@) =~= entry_models(
                    old(self).transparent@,
                ).push(entry@));
                assert(final(self)@ =~~= ensure_cache(old(self)@, src@, transparent));
            }
        } else {
            self.opaque.push(entry);
            proof {
                assert(entry_models(self.opaque@) =~= entry_models(old(self).opaque@).push(
                    entry@,
                ));
                assert(final(self)@ =~~= ensure_cache(old(self)@, src@, transparent));
            }
        }
    }

    /// Get-or-create: hand back the cache registered for this (source,
    /// transparency) pair, first registering a fresh empty one if the key has
    /// none. Reads and writes through the result are reads and writes of the
    /// registered cache itself.
    pub fn get_frame_cache(&mut self, src: &str, transparent: bool) -> (cache: &FrameCache)
        requires
            old(self).wf(),
        ensures
            final(self).wf(),
            final(self)@ == ensure_cache(old(self)@, src@, transparent),
            has_entry(partition_of(final(self)@, transparent), src@),
            cache@ == entry_items(partition_of(final(self)@, transparent), src@),
            cache.wf(),
    {
        proof {
            lemma_with_entry(partition_of(old(self)@, transparent), src@);
        }
        if !self.frame_cache_exists(src, transparent) {
            self.add_frame_cache(src, transparent);
        } else {
            proof {
                assert(self@ =~~= ensure_cache(old(self)@, src@, transparent));
            }
        }
        let key: String = src.to_owned();
        let ghost entries = partition_of(self@, transparent);
        proof {
            lemma_first_index_where(entries, |e: EntryModel| e.src == src@);
            let k = entry_index_of(entries, src@);
            assert(0 <= k < entries.len());
            assert(unique_ids(#[trigger] entries[k].items));
        }
        if transparent {
            match find_entry(&self.transparent, &key) {
                Some(i) => &self.transparent[i].cache,
                None => vstd::pervasive::unreached(),
            }
        } else {
            match find_entry(&self.opaque, &key) {
                Some(i) => &self.opaque[i].cache,
                None => vstd::pervasive::unreached(),
            }
        }
    }

    /// Get-or-create the cache for this (source, transparency) pair and
    /// store `frame` in it. A frame whose id that cache already holds is
    /// refused, keeping ids unique; the result says whether it was stored.
    pub fn add_cache_item(&mut self, src: &str, transparent: bool, frame: CachedFrame) -> (added:
        bool)
        requires
            old(self).wf(),
            total_size(old(self)@) + frame@.data.len() <= u128::MAX,
        ensures
            final(self).wf(),
            final(self)@ == add_cached_frame(old(self)@, src@, transparent, frame@),
            added == !has_frame(
                entry_items(
                    partition_of(ensure_cache(old(self)@, src@, transparent), transparent),
                    src@,
                ),
                frame@.id,
            ),
    {
        proof {
            lemma_with_entry(partition_of(old(self)@, transparent), src@);
        }
        if !self.frame_cache_exists(src, transparent) {
            self.add_frame_cache(src, transparent);
        }
        let ghost m1 = ensure_cache(old(self)@, src@, transparent);
        proof {
            assert(self@ =~~= m1);
        }
        let key: String = src.to_owned();
        let ghost entries = partition_of(m1, transparent);
        let ghost k = entry_index_of(entries, src@);
        let ghost items = entries[k].items;
        proof {
            lemma_first_index_where(entries, |e: EntryModel| e.src == src@);
            assert(unique_ids(#[trigger] entries[k].items));
        }
        let added: bool;
        if transparent {
            let i = match find_entry(&self.transparent, &key) {
                Some(i) => i,
                None => vstd::pervasive::unreached(),
            };
            let e = &mut self.transparent[i];
            added = e.cache.add_item(frame);
            proof {
                assert(entry_models(self.transparent@) =~= entries.update(
                    k,
                    self.transparent@[k]@,
                ));
            }
        } else {
            let i = match find_entry(&self.opaque, &key) {
                Some(i) => i,
                None => vstd::pervasive::unreached(),
            };
            let e = &mut self.opaque[i];
            added = e.cache.add_item(frame);
            proof {
                assert(entry_models(self.opaque@) =~= entries.update(k, self.opaque@[k]@));
            }
        }
        proof {
            let entries2 = partition_of(self@, transparent);
            let e2 = entries2[k];
            assert(e2.src == entries[k].src);
            if added {
                assert(e2.items == items.push(frame@));
                lemma_cache_size_push(items, frame@);
            } else {
                assert(e2.items == items);
                assert(e2 =~~= entries[k]);
                assert(entries.update(k, e2) =~= entries);
            }
            lemma_partition_size_update(entries, k, e2);
            assert(final(self)@ =~~= add_cached_frame(old(self)@, src@, transparent, frame@));
            assert(forall|a: int|
                0 <= a < entries2.len() ==> (#[trigger] entries2[a]).src == entries[a].src);
            assert(forall|a: int|
                0 <= a < entries2.len() ==> unique_ids(#[trigger] entries2[a].items));
        }
        added
    }

    /// Get-or-create the cache for this pair, then delegate the time-window
    /// lookup to it. An empty result means no frame lies within `threshold`
    /// of `time`; it is not a failure.
    pub fn get_cache_item_id(
        &mut self,
        src: &str,
        transparent: bool,
        time: i64,
        threshold: i64,
    ) -> (r: Result<Option<usize>, CacheError>)
        requires
            old(self).wf(),
        ensures
            final(self).wf(),
            final(self)@ == ensure_cache(old(self)@, src@, transparent),
            r matches Ok(opt) && ({
                let items = entry_items(partition_of(final(self)@, transparent), src@);
                let k = first_within(items, time as int, threshold as int);
                if k == -1 {
                    opt is None
                } else {
                    opt matches Some(id) && id as nat == items[k].id
                }
            }),
    {
        let cache = self.get_frame_cache(src, transparent);
        let r = cache.get_item_id(time, threshold);
        Ok(r)
    }

    /// Get-or-create the cache for this pair, then look one frame up by id
    /// and hand back a copy of its bytes. Callers only pass ids they obtained
    /// from a listing, so a missing id is a failure, not an empty result.
    pub fn get_cache_item_from_id(&mut self, src: &str, transparent: bool, frame_id: usize) -> (r:
        Result<Vec<u8>, CacheError>)
        requires
            old(self).wf(),
        ensures
            final(self).wf(),
            final(self)@ == ensure_cache(old(self)@, src@, transparent),
            ({
                let items = entry_items(partition_of(final(self)@, transparent), src@);
                let k = frame_index_of(items, frame_id as nat);
                if k == -1 {
                    r matches Err(e) && e == CacheError::NotFound
                } else {
                    r matches Ok(d) && d@ == items[k].data
                }
            }),
    {
        let cache = self.get_frame_cache(src, transparent);
        match cache.get_item_from_id(frame_id) {
            Some(d) => Ok(d),
            None => Err(CacheError::NotFound),
        }
    }

    /// Enumerate every cached item across both partitions: the transparent
    /// partition first, then the opaque one, each in cache creation order and
    /// frame insertion order.
    pub fn get_frame_references(&self) -> (r: Result<Vec<FrameCacheReference>, CacheError>)
        ensures
            r matches Ok(v) && ref_models(v@) == all_refs(self@),
    {
        let mut out: Vec<FrameCacheReference> = Vec::new();
        proof {
            assert(ref_models(out@) =~= Seq::<RefModel>::empty());
        }
        collect_refs(&self.transparent, true, &mut out);
        collect_refs(&self.opaque, false, &mut out);
        proof {
            assert((Seq::<RefModel>::empty() + partition_refs(self@.transparent, true))
                + partition_refs(self@.opaque, false) =~= all_refs(self@));
        }
        Ok(out)
    }

    /// How many frames the registry holds: the length of the global
    /// enumeration.
    pub fn get_frames_in_cache(&self) -> (r: Result<usize, CacheError>)
        ensures
            r matches Ok(n) && n == all_refs(self@).len(),
    {
        match self.get_frame_references() {
            Ok(v) => Ok(v.len()),
            Err(e) => Err(e),
        }
    }

    /// Remove one cached item, addressed by its recorded key, partition and
    /// id; a missing key or id removes nothing.
    fn remove_cache_item(&mut self, src: &String, transparent: bool, id: usize)
        requires
            old(self).wf(),
        ensures
            final(self).wf(),
            final(self)@ == remove_cached_item(old(self)@, src@, transparent, id as nat),
    {
        proof {
            lemma_remove_in_entries_wf(partition_of(old(self)@, transparent), src@, id as nat);
        }
        if transparent {
            remove_entry_item(&mut self.transparent, src, id);
        } else {
            remove_entry_item(&mut self.opaque, src, id);
        }
        proof {
            assert(final(self)@ =~~= remove_cached_item(old(self)@, src@, transparent, id as nat));
        }
    }

    /// Prune to a budget: enumerate every cached item, order the references
    /// oldest `last_used` first (ties keep enumeration order), and walk that
    /// order removing items; before each removal the total size is recomputed
    /// and the walk stops as soon as it is within `maximum_frame_cache_size_in_bytes`.
    /// Falling short of the budget only because nothing is left is not a
    /// failure.
    pub fn prune(&mut self, maximum_frame_cache_size_in_bytes: u128) -> (r: Result<
        (),
        CacheError,
    >)
        requires
            old(self).wf(),
        ensures
            final(self).wf(),
            final(self)@ == prune_model(
                old(self)@,
                sort_refs(all_refs(old(self)@)),
                maximum_frame_cache_size_in_bytes as nat,
            ),
            total_size(final(self)@) <= maximum_frame_cache_size_in_bytes as nat,
            total_size(old(self)@) <= maximum_frame_cache_size_in_bytes as nat ==> final(self)@
                == old(self)@,
            r is Ok,
    {
        let max = maximum_frame_cache_size_in_bytes;
        let refs = match self.get_frame_references() {
            Ok(v) => v,
            Err(_) => vstd::pervasive::unreached(),
        };
        let sorted = sort_references(&refs);
        let ghost order = sort_refs(all_refs(old(self)@));
        proof {
            assert(ref_models(sorted@) == order);
        }
        let n = sorted.len();
        let mut i: usize = 0;
        proof {
            assert(order.skip(0) =~= order);
        }
        while i < n
            invariant
                i <= n,
                n == sorted@.len(),
                max == maximum_frame_cache_size_in_bytes,
                self.wf(),
                prune_model(self@, ref_models(sorted@).skip(i as int), max as nat) == prune_model(
                    old(self)@,
                    ref_models(sorted@),
                    max as nat,
                ),
            ensures
                self.wf(),
                self@ == prune_model(old(self)@, ref_models(sorted@), max as nat),
            decreases n - i,
        {
            let ghost ord = ref_models(sorted@);
            let total = self.get_total_size();
            if total <= max {
                proof {
                    assert(prune_model(self@, ord.skip(i as int), max as nat) == self@);
                }
                break;
            }
            let rf = &sorted[i];
            proof {
                assert(ord[i as int] == sorted@[i as int]@);
                assert(ord.skip(i as int)[0] == ord[i as int]);
                assert(ord.skip(i as int).drop_first() =~= ord.skip(i as int + 1));
                assert(ord.skip(i as int).len() > 0);
            }
            self.remove_cache_item(&rf.src, rf.transparent, rf.id);
            i += 1;
        }
        proof {
            lemma_sort_refs_multiset(all_refs(old(self)@));
            crate::laws::lemma_prune_within_budget(old(self)@, order, max as nat);
        }
        Ok(())
    }

    /// Prune the globally oldest items until the budget is met: the same
    /// operation as `prune`.
    pub fn prune_oldest(&mut self, maximum_frame_cache_size_in_bytes: u128) -> (r: Result<
        (),
        CacheError,
    >)
        requires
            old(self).wf(),
        ensures
            final(self).wf(),
            final(self)@ == prune_model(
                old(self)@,
                sort_refs(all_refs(old(self)@)),
                maximum_frame_cache_size_in_bytes as nat,
            ),
            total_size(final(self)@) <= maximum_frame_cache_size_in_bytes as nat,
            total_size(old(self)@) <= maximum_frame_cache_size_in_bytes as nat ==> final(self)@
                == old(self)@,
            r is Ok,
    {
        self.prune(maximum_frame_cache_size_in_bytes)
    }

    /// Shed down to half the given budget: exactly `prune` of
    /// `maximum_frame_cache_size_in_bytes / 2`. Meant for a memory-pressure
    /// signal, to create headroom before the next pressure event.
    pub fn halfen_cache_size(&mut self, maximum_frame_cache_size_in_bytes: u128) -> (r: Result<
        (),
        CacheError,
    >)
        requires
            old(self).wf(),
        ensures
            final(self).wf(),
            final(self)@ == prune_model(
                old(self)@,
                sort_refs(all_refs(old(self)@)),
                (maximum_frame_cache_size_in_bytes / 2) as nat,
            ),
            total_size(final(self)@) <= (maximum_frame_cache_size_in_bytes / 2) as nat,
            r is Ok,
    {
        self.prune(maximum_frame_cache_size_in_bytes / 2)
    }
}

/// Remove the frame carrying `id` from the cache keyed under `src` in one
/// partition, if both exist.
fn remove_entry_item(entries: &mut Vec<CacheEntry>, src: &String, id: usize)
    requires
        entries_wf(entry_models(old(entries)@)),
    ensures
        entry_models(final(entries)@) == remove_in_entries(
            entry_models(old(entries)@),
            src@,
            id as nat,
        ),
{
    let ghost models = entry_models(entries@);
    match find_entry(entries, src) {
        Some(i) => {
            proof {
                assert(unique_ids(#[trigger] models[i as int].items));
            }
            let e = &mut entries[i];
            e.cache.remove_item_by_id(id);
            proof {
                assert(entry_models(entries@) =~= models.update(i as int, entries@[i as int]@));
                assert(entries@[i as int]@ =~~= EntryModel {
                    src: models[i as int].src,
                    items: remove_frame(models[i as int].items, id as nat),
                });
                assert(entry_models(entries@) =~= remove_in_entries(models, src@, id as nat));
            }
        },
        None => {
            proof {
                assert(entry_models(entries@) =~= remove_in_entries(models, src@, id as nat));
            }
        },
    }
}

impl FrameCacheManager {
    /// Bytes held across both partitions, recomputed fresh from every cache's
    /// own reported size.
    pub fn get_total_size(&self) -> (r: u128)
        requires
            self.wf(),
        ensures
            r == total_size(self@),
    {
        let a = partition_bytes(&self.transparent);
        let b = partition_bytes(&self.opaque);
        a + b
    }
}

proof fn lemma_partition_refs_skip(entries: Seq<EntryModel>, transparent: bool, i: int)
    requires
        0 <= i < entries.len(),
    ensures
        partition_refs(entries.skip(i), transparent) == entry_refs(entries[i], transparent)
            + partition_refs(entries.skip(i + 1), transparent),
{
    assert(entries.skip(i).drop_first() =~= entries.skip(i + 1));
    assert(entries.skip(i)[0] == entries[i]);
    assert(entries.skip(i).len() > 0);
}

/// Append the references of one whole partition to `out`.
#[verifier::loop_isolation(false)]
fn collect_refs(entries: &Vec<CacheEntry>, transparent: bool, out: &mut Vec<FrameCacheReference>)
    ensures
        ref_models(final(out)@) == ref_models(old(out)@) + partition_refs(
            entry_models(entries@),
            transparent,
        ),
{
    let ghost models = entry_models(entries@);
    let mut i: usize = 0;
    proof {
        assert(models.skip(0) =~= models);
    }
    while i < entries.len()
        invariant
            i <= entries.len(),
            ref_models(out@) + partition_refs(models.skip(i as int), transparent) == ref_models(
                old(out)@,
            ) + partition_refs(models, transparent),
        decreases entries.len() - i,
    {
        let e = &entries[i];
        let mut refs = e.cache.get_references(e.src.as_str(), e.src.as_str(), transparent);
        proof {
            assert(models[i as int] == entries@[i as int]@);
            lemma_partition_refs_skip(models, transparent, i as int);
            assert(ref_models(refs@) =~= entry_refs(models[i as int], transparent));
        }
        let ghost out_before = ref_models(out@);
        out.append(&mut refs);
        proof {
            assert(ref_models(out@) =~= out_before + entry_refs(models[i as int], transparent));
            assert((out_before + entry_refs(models[i as int], transparent)) + partition_refs(
                models.skip(i as int + 1),
                transparent,
            ) =~= out_before + (entry_refs(models[i as int], transparent) + partition_refs(
                models.skip(i as int + 1),
                transparent,
            )));
        }
        i += 1;
    }
    proof {
        assert(models.skip(models.len() as int) =~= Seq::<EntryModel>::empty());
        assert(ref_models(out@) + Seq::<RefModel>::empty() =~= ref_models(out@));
    }
}

/// Sum one partition's cache sizes.
#[verifier::loop_isolation(false)]
fn partition_bytes(entries: &Vec<CacheEntry>) -> (r: u128)
    requires
        partition_size(entry_models(entries@)) <= u128::MAX,
    ensures
        r == partition_size(entry_models(entries@)),
{
    let ghost models = entry_models(entries@);
    let mut total: u128 = 0;
    let mut i: usize = 0;
    proof {
        assert(models.skip(0) =~= models);
    }
    while i < entries.len()
        invariant
            i <= entries.len(),
            total + partition_size(models.skip(i as int)) == partition_size(models),
        decreases entries.len() - i,
    {
        proof {
            assert(models[i as int] == entries@[i as int]@);
            lemma_partition_size_skip(models, i as int);
        }
        let s = entries[i].cache.get_size_in_bytes();
        total = total + s;
        i += 1;
    }
    proof {
        assert(models.skip(models.len() as int) =~= Seq::<EntryModel>::empty());
    }
    total
}

/// Index of the entry keyed under `src` in one partition, scanning in
/// creation order.
#[verifier::loop_isolation(false)]
fn find_entry(entries: &Vec<CacheEntry>, src: &String) -> (r: Option<usize>)
    ensures
        r is None ==> !has_entry(entry_models(entries@), src@),
        r matches Some(i) ==> 0 <= i < entries@.len() && i == entry_index_of(
            entry_models(entries@),
            src@,
        ),
{
    let ghost models = entry_models(entries@);
    let ghost p = |e: EntryModel| e.src == src@;
    let mut i: usize = 0;
    while i < entries.len()
        invariant
            i <= entries.len(),
            forall|j: int| 0 <= j < i ==> !p(models[j]),
        decreases entries.len() - i,
    {
        if entries[i].src == *src {
            proof {
                assert(models[i as int] == entries@[i as int]@);
                lemma_first_index_where(models, p);
                assert(p(models[i as int]));
            }
            return Some(i);
        }
        proof {
            assert(models[i as int] == entries@[i as int]@);
        }
        i += 1;
    }
    proof {
        lemma_first_index_where(models, p);
    }
    None
}

/// Build a registry with both partitions empty. Process-wide construction and
/// injection of the one instance is the embedder's concern.
pub fn make_frame_cache_manager() -> (r: Result<FrameCacheManager, CacheError>)
    ensures
        r matches Ok(m) && m.wf() && m@.transparent == Seq::<EntryModel>::empty() && m@.opaque
            == Seq::<EntryModel>::empty(),
{
    let m = FrameCacheManager { transparent: Vec::new(), opaque: Vec::new() };
    proof {
        assert(m@.transparent =~= Seq::<EntryModel>::empty());
        assert(m@.opaque =~= Seq::<EntryModel>::empty());
    }
    Ok(m)
}

/// A reference enumerated from a partition carries that partition's flag.
pub(crate) proof fn lemma_partition_refs_flag(
    entries: Seq<EntryModel>,
    transparent: bool,
    rf: RefModel,
)
    requires
        partition_refs(entries, transparent).contains(rf),
    ensures
        rf.transparent == transparent,
    decreases entries.len(),
{
    if entries.len() == 0 {
        assert(false);
    } else {
        let refs = partition_refs(entries, transparent);
        let head = entry_refs(entries[0], transparent);
        let rest = partition_refs(entries.drop_first(), transparent);
        let idx = choose|i: int| 0 <= i < refs.len() && refs[i] == rf;
        if idx < head.len() {
            assert(head[idx] == rf);
            assert(head[idx].transparent == transparent);
        } else {
            assert(rest[idx - head.len()] == rf);
            assert(rest.contains(rf));
            lemma_partition_refs_flag(entries.drop_first(), transparent, rf);
        }
    }
}

/// Locate a reference enumerated from a well formed partition: its key finds
/// its entry, its id finds its frame there, and that frame carries exactly
/// the reference's fields.
pub(crate) proof fn lemma_refs_locate(entries: Seq<EntryModel>, transparent: bool, rf: RefModel)
    requires
        entries_wf(entries),
        partition_refs(entries, transparent).contains(rf),
    ensures
        rf.transparent == transparent,
        has_entry(entries, rf.src),
        ({
            let k = entry_index_of(entries, rf.src);
            let items = entries[k].items;
            &&& 0 <= k < entries.len()
            &&& entries[k].src == rf.src
            &&& has_frame(items, rf.id)
            &&& entry_refs(entries[k], transparent)[frame_index_of(items, rf.id)] == rf
            &&& 0 <= frame_index_of(items, rf.id) < items.len()
        }),
    decreases entries.len(),
{
    lemma_partition_refs_flag(entries, transparent, rf);
    assert(entries.len() > 0) by {
        if entries.len() == 0 {
            assert(false);
        }
    }
    let refs = partition_refs(entries, transparent);
    let head = entry_refs(entries[0], transparent);
    let rest = partition_refs(entries.drop_first(), transparent);
    let pe = |e: EntryModel| e.src == rf.src;
    let idx = choose|i: int| 0 <= i < refs.len() && refs[i] == rf;
    if idx < head.len() {
        assert(head[idx] == rf);
        let items = entries[0].items;
        assert(rf.src == entries[0].src);
        assert(pe(entries[0]));
        assert(entry_index_of(entries, rf.src) == 0);
        assert(rf.id == items[idx].id);
        let pf = |f: FrameModel| f.id == rf.id;
        lemma_first_index_where(items, pf);
        assert(pf(items[idx]));
        let j = frame_index_of(items, rf.id);
        assert(unique_ids(#[trigger] entries[0].items));
        assert(j == idx);
    } else {
        assert(rest[idx - head.len()] == rf);
        assert(rest.contains(rf));
        assert(entries_wf(entries.drop_first())) by {
            assert(forall|a: int|
                0 <= a < entries.drop_first().len() ==> entries.drop_first()[a] == entries[a
                    + 1]);
        }
        lemma_refs_locate(entries.drop_first(), transparent, rf);
        let krest = entry_index_of(entries.drop_first(), rf.src);
        assert(entries.drop_first()[krest].src == rf.src);
        assert(entries.drop_first()[krest] == entries[krest + 1]);
        assert(!pe(entries[0])) by {
            if entries[0].src == rf.src {
                assert(entries[0].src != entries[krest + 1].src);
            }
        }
        assert(entry_index_of(entries, rf.src) == krest + 1);
    }
}

/// A partition's references split around any entry.
pub(crate) proof fn lemma_partition_refs_split(
    entries: Seq<EntryModel>,
    transparent: bool,
    k: int,
)
    requires
        0 <= k < entries.len(),
    ensures
        partition_refs(entries, transparent) == partition_refs(entries.take(k), transparent)
            + entry_refs(entries[k], transparent) + partition_refs(
            entries.skip(k + 1),
            transparent,
        ),
    decreases k,
{
    let e0 = entry_refs(entries[0], transparent);
    if k == 0 {
        assert(entries.take(0) =~= Seq::<EntryModel>::empty());
        assert(entries.drop_first() =~= entries.skip(1));
        assert(partition_refs(entries.take(0), transparent) + e0 + partition_refs(
            entries.skip(1),
            transparent,
        ) =~= e0 + partition_refs(entries.skip(1), transparent));
    } else {
        let df = entries.drop_first();
        lemma_partition_refs_split(df, transparent, k - 1);
        assert(df[k - 1] == entries[k]);
        assert(df.take(k - 1) =~= entries.take(k).drop_first());
        assert(df.skip(k) =~= entries.skip(k + 1));
        assert(entries.take(k)[0] == entries[0]);
        assert(entries.take(k).len() > 0);
        assert(partition_refs(entries.take(k), transparent) == e0 + partition_refs(
            df.take(k - 1),
            transparent,
        ));
        assert(e0 + (partition_refs(df.take(k - 1), transparent) + entry_refs(
            entries[k],
            transparent,
        ) + partition_refs(df.skip(k), transparent)) =~= (e0 + partition_refs(
            df.take(k - 1),
            transparent,
        )) + entry_refs(entries[k], transparent) + partition_refs(df.skip(k), transparent));
    }
}

/// Removing one located frame takes exactly its reference out of the
/// partition's enumeration, counted as a multiset.
pub(crate) proof fn lemma_remove_ref_partition(
    entries: Seq<EntryModel>,
    transparent: bool,
    rf: RefModel,
)
    requires
        entries_wf(entries),
        partition_refs(entries, transparent).contains(rf),
    ensures
        partition_refs(remove_in_entries(entries, rf.src, rf.id), transparent).to_multiset()
            == partition_refs(entries, transparent).to_multiset().remove(rf),
{
    broadcast use vstd::seq_lib::group_to_multiset_ensures;
    broadcast use vstd::multiset::group_multiset_axioms;

    lemma_refs_locate(entries, transparent, rf);
    let k = entry_index_of(entries, rf.src);
    let items = entries[k].items;
    let j = frame_index_of(items, rf.id);
    let e2 = EntryModel { src: entries[k].src, items: remove_frame(items, rf.id) };
    let entries2 = entries.update(k, e2);
    assert(remove_in_entries(entries, rf.src, rf.id) == entries2);
    lemma_partition_refs_split(entries, transparent, k);
    lemma_partition_refs_split(entries2, transparent, k);
    let a = partition_refs(entries.take(k), transparent);
    let b = entry_refs(entries[k], transparent);
    let c = partition_refs(entries.skip(k + 1), transparent);
    assert(entries2.take(k) =~= entries.take(k));
    assert(entries2.skip(k + 1) =~= entries.skip(k + 1));
    assert(entries2[k] == e2);
    assert(entry_refs(e2, transparent) =~= b.remove(j)) by {
        assert(e2.items =~= items.remove(j));
        assert forall|x: int| 0 <= x < b.remove(j).len() implies b.remove(j)[x] == entry_refs(
            e2,
            transparent,
        )[x] by {
            if x < j {
                assert(items.remove(j)[x] == items[x]);
            } else {
                assert(items.remove(j)[x] == items[x + 1]);
            }
        }
    }
    assert(b[j] == rf);
    assert(b.contains(rf));
    assert(b.remove(j).to_multiset() == b.to_multiset().remove(rf));
    lemma_multiset_commutative(a, b);
    lemma_multiset_commutative(a + b, c);
    lemma_multiset_commutative(a, b.remove(j));
    lemma_multiset_commutative(a + b.remove(j), c);
    assert(partition_refs(entries2, transparent) == a + b.remove(j) + c);
    assert((a + b.remove(j) + c).to_multiset() =~= (a + b + c).to_multiset().remove(rf)) by {
        assert(b.to_multiset().count(rf) > 0);
    }
}

/// Removal keeps a partition well formed and never grows it.
pub(crate) proof fn lemma_remove_in_entries_wf(entries: Seq<EntryModel>, src: Seq<char>, id: nat)
    requires
        entries_wf(entries),
    ensures
        entries_wf(remove_in_entries(entries, src, id)),
        partition_size(remove_in_entries(entries, src, id)) <= partition_size(entries),
{
    if has_entry(entries, src) {
        let pe = |e: EntryModel| e.src == src;
        lemma_first_index_where(entries, pe);
        let k = entry_index_of(entries, src);
        let items = entries[k].items;
        let e2 = EntryModel { src: entries[k].src, items: remove_frame(items, id) };
        let entries2 = entries.update(k, e2);
        assert(unique_ids(#[trigger] entries[k].items));
        if has_frame(items, id) {
            let pf = |f: FrameModel| f.id == id;
            lemma_first_index_where(items, pf);
            let j = frame_index_of(items, id);
            assert(unique_ids(items.remove(j))) by {
                assert forall|a: int, b: int|
                    0 <= a < b < items.remove(j).len() implies items.remove(j)[a].id != items.remove(
                    j,
                )[b].id by {
                    if a < j {
                        assert(items.remove(j)[a] == items[a]);
                    } else {
                        assert(items.remove(j)[a] == items[a + 1]);
                    }
                    if b < j {
                        assert(items.remove(j)[b] == items[b]);
                    } else {
                        assert(items.remove(j)[b] == items[b + 1]);
                    }
                }
            }
            lemma_cache_size_remove(items, j);
        }
        lemma_partition_size_update(entries, k, e2);
        assert(forall|a: int|
            0 <= a < entries2.len() ==> (#[trigger] entries2[a]).src == entries[a].src);
        assert(forall|a: int|
            0 <= a < entries2.len() ==> unique_ids(#[trigger] entries2[a].items));
    }
}

/// Removing one enumerated item keeps the registry well formed, never grows
/// it, and takes exactly that reference out of the global enumeration.
pub(crate) proof fn lemma_remove_ref_total(m: ManagerModel, rf: RefModel)
    requires
        entries_wf(m.transparent),
        entries_wf(m.opaque),
        all_refs(m).contains(rf),
    ensures
        ({
            let m2 = remove_cached_item(m, rf.src, rf.transparent, rf.id);
            &&& entries_wf(m2.transparent)
            &&& entries_wf(m2.opaque)
            &&& total_size(m2) <= total_size(m)
            &&& all_refs(m2).to_multiset() == all_refs(m).to_multiset().remove(rf)
        }),
{
    broadcast use vstd::seq_lib::group_to_multiset_ensures;
    broadcast use vstd::multiset::group_multiset_axioms;

    let pt = partition_refs(m.transparent, true);
    let po = partition_refs(m.opaque, false);
    let idx = choose|i: int| 0 <= i < all_refs(m).len() && all_refs(m)[i] == rf;
    if idx < pt.len() {
        assert(pt[idx] == rf);
        assert(pt.contains(rf));
        lemma_partition_refs_flag(m.transparent, true, rf);
    } else {
        assert(po[idx - pt.len()] == rf);
        assert(po.contains(rf));
        lemma_partition_refs_flag(m.opaque, false, rf);
    }
    let m2 = remove_cached_item(m, rf.src, rf.transparent, rf.id);
    lemma_multiset_commutative(pt, po);
    if rf.transparent {
        assert(pt.contains(rf)) by {
            if idx >= pt.len() {
                lemma_partition_refs_flag(m.opaque, false, rf);
            }
        }
        lemma_remove_ref_partition(m.transparent, true, rf);
        lemma_remove_in_entries_wf(m.transparent, rf.src, rf.id);
        let pt2 = partition_refs(m2.transparent, true);
        lemma_multiset_commutative(pt2, po);
        assert(pt.to_multiset().count(rf) > 0);
        assert(pt2.to_multiset().add(po.to_multiset()) =~= pt.to_multiset().add(
            po.to_multiset(),
        ).remove(rf));
    } else {
        assert(po.contains(rf)) by {
            if idx < pt.len() {
                lemma_partition_refs_flag(m.transparent, true, rf);
            }
        }
        lemma_remove_ref_partition(m.opaque, false, rf);
        lemma_remove_in_entries_wf(m.opaque, rf.src, rf.id);
        let po2 = partition_refs(m2.opaque, false);
        lemma_multiset_commutative(pt, po2);
        assert(po.to_multiset().count(rf) > 0);
        assert(pt.to_multiset().add(po2.to_multiset()) =~= pt.to_multiset().add(
            po.to_multiset(),
        ).remove(rf));
    }
}

/// The enumeration has exactly one reference per cached frame.
pub(crate) proof fn lemma_partition_refs_len(entries: Seq<EntryModel>, transparent: bool)
    ensures
        partition_refs(entries, transparent).len() == partition_count(entries),
    decreases entries.len(),
{
    if entries.len() == 0 {
    } else {
        lemma_partition_refs_len(entries.drop_first(), transparent);
    }
}

/// A partition with no frames holds no bytes.
pub(crate) proof fn lemma_partition_count_zero(entries: Seq<EntryModel>)
    requires
        partition_count(entries) == 0,
    ensures
        partition_size(entries) == 0,
    decreases entries.len(),
{
    if entries.len() == 0 {
    } else {
        assert(entries[0].items.len() == 0);
        assert(cache_size(entries[0].items) == 0);
        lemma_partition_count_zero(entries.drop_first());
    }
}

} // verus!
