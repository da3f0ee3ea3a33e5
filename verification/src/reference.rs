//! Frame references: ephemeral snapshots describing one cached item each,
//! produced on demand by global enumeration and used only to compute the
//! eviction order, oldest `last_used` first.

use vstd::prelude::*;
use vstd::seq_lib::lemma_multiset_commutative;

use crate::frame_cache::FrameModel;

verus! {

/// A snapshot describing one cached item: the source identifier under which
/// its cache is registered, the originating source identifier (the registry
/// always records the same value for both), the partition flag, the item's
/// last-used timestamp and its id within its owning cache.
pub struct FrameCacheReference {
    pub src: String,
    pub original_src: String,
    pub transparent: bool,
    pub last_used: i64,
    pub id: usize,
}

/// Mathematical image of one frame reference.
#[verifier::ext_equal]
pub ghost struct RefModel {
    pub src: Seq<char>,
    pub original_src: Seq<char>,
    pub transparent: bool,
    pub last_used: int,
    pub id: nat,
}

impl View for FrameCacheReference {
    type V = RefModel;

    open spec fn view(&self) -> RefModel {
        RefModel {
            src: self.src@,
            original_src: self.original_src@,
            transparent: self.transparent,
            last_used: self.last_used as int,
            id: self.id as nat,
        }
    }
}

/// The models of a sequence of references.
pub open spec fn ref_models(s: Seq<FrameCacheReference>) -> Seq<RefModel> {
    s.map_values(|r: FrameCacheReference| r@)
}

/// The references describing the given frames: one per frame, in insertion
/// order, tagged with the owning cache's identity.
pub open spec fn refs_of(
    src: Seq<char>,
    original_src: Seq<char>,
    transparent: bool,
    items: Seq<FrameModel>,
) -> Seq<RefModel> {
    items.map_values(
        |f: FrameModel|
            RefModel { src, original_src, transparent, last_used: f.last_used, id: f.id },
    )
}

/// Insert `r` into the already sorted `s`, after every element whose
/// `last_used` is at most `r`'s: a later-enumerated reference never moves in
/// front of an equal earlier one.
pub open spec fn insert_by_last_used(s: Seq<RefModel>, r: RefModel) -> Seq<RefModel>
    decreases s.len(),
{
    if s.len() == 0 {
        seq![r]
    } else if s[0].last_used <= r.last_used {
        seq![s[0]] + insert_by_last_used(s.drop_first(), r)
    } else {
        seq![r] + s
    }
}

/// Stable insertion sort, ascending by `last_used`: elements are taken in
/// enumeration order and each is placed after all equal timestamps already
/// present, so ties keep their enumeration order.
pub open spec fn sort_refs(s: Seq<RefModel>) -> Seq<RefModel>
    decreases s.len(),
{
    if s.len() == 0 {
        Seq::<RefModel>::empty()
    } else {
        insert_by_last_used(sort_refs(s.drop_last()), s.last())
    }
}

/// Inserting at the first position whose timestamp exceeds `r`'s is exactly
/// `insert_by_last_used`.
proof fn lemma_insert_at(s: Seq<RefModel>, r: RefModel, j: int)
    requires
        0 <= j <= s.len(),
        forall|k: int| 0 <= k < j ==> s[k].last_used <= r.last_used,
        j < s.len() ==> s[j].last_used > r.last_used,
    ensures
        insert_by_last_used(s, r) == s.insert(j, r),
    decreases j,
{
    if j == 0 {
        if s.len() == 0 {
            assert(insert_by_last_used(s, r) =~= s.insert(0, r));
        } else {
            assert(seq![r] + s =~= s.insert(0, r));
        }
    } else {
        lemma_insert_at(s.drop_first(), r, j - 1);
        assert(seq![s[0]] + s.drop_first().insert(j - 1, r) =~= s.insert(j, r));
    }
}

/// Insertion keeps exactly the elements: one more `r`.
pub proof fn lemma_insert_by_last_used_multiset(s: Seq<RefModel>, r: RefModel)
    ensures
        insert_by_last_used(s, r).to_multiset() == s.to_multiset().insert(r),
    decreases s.len(),
{
    broadcast use vstd::seq_lib::group_to_multiset_ensures;
    broadcast use vstd::multiset::group_multiset_axioms;

    if s.len() == 0 {
        assert(s =~= Seq::<RefModel>::empty());
        assert(seq![r] =~= Seq::<RefModel>::empty().push(r));
    } else if s[0].last_used <= r.last_used {
        lemma_insert_by_last_used_multiset(s.drop_first(), r);
        lemma_multiset_commutative(seq![s[0]], insert_by_last_used(s.drop_first(), r));
        lemma_multiset_commutative(seq![s[0]], s.drop_first());
        assert(seq![s[0]] + s.drop_first() =~= s);
        assert(insert_by_last_used(s, r).to_multiset() =~= s.to_multiset().insert(r));
    } else {
        lemma_multiset_commutative(seq![r], s);
        assert(seq![r] =~= Seq::<RefModel>::empty().push(r));
        assert(insert_by_last_used(s, r).to_multiset() =~= s.to_multiset().insert(r));
    }
}

/// Sorting keeps exactly the elements.
pub proof fn lemma_sort_refs_multiset(s: Seq<RefModel>)
    ensures
        sort_refs(s).to_multiset() == s.to_multiset(),
    decreases s.len(),
{
    broadcast use vstd::seq_lib::group_to_multiset_ensures;

    if s.len() == 0 {
    } else {
        lemma_sort_refs_multiset(s.drop_last());
        lemma_insert_by_last_used_multiset(sort_refs(s.drop_last()), s.last());
        assert(s =~= s.drop_last().push(s.last()));
        assert(s.drop_last().push(s.last()).to_multiset() =~= s.drop_last().to_multiset().insert(
            s.last(),
        ));
    }
}

/// The eviction order is ascending: no reference comes before one that was
/// used longer ago.
pub open spec fn ordered_by_last_used(s: Seq<RefModel>) -> bool {
    forall|i: int, j: int|
        0 <= i < j < s.len() ==> (#[trigger] s[i]).last_used <= (#[trigger] s[j]).last_used
}

/// Inserting into an ordered sequence keeps it ordered.
proof fn lemma_insert_by_last_used_ordered(s: Seq<RefModel>, r: RefModel)
    requires
        ordered_by_last_used(s),
    ensures
        ordered_by_last_used(insert_by_last_used(s, r)),
    decreases s.len(),
{
    broadcast use vstd::seq_lib::group_to_multiset_ensures;
    broadcast use vstd::multiset::group_multiset_axioms;

    let out = insert_by_last_used(s, r);
    if s.len() == 0 {
    } else if s[0].last_used <= r.last_used {
        let df = s.drop_first();
        assert(ordered_by_last_used(df)) by {
            assert(forall|a: int| 0 <= a < df.len() ==> df[a] == s[a + 1]);
        }
        lemma_insert_by_last_used_ordered(df, r);
        let rest = insert_by_last_used(df, r);
        lemma_insert_by_last_used_multiset(df, r);
        assert forall|a: int, b: int| 0 <= a < b < out.len() implies (#[trigger] out[a]).last_used
            <= (#[trigger] out[b]).last_used by {
            if a == 0 {
                assert(out[0] == s[0]);
                assert(out[b] == rest[b - 1]);
                assert(rest.contains(rest[b - 1]));
                assert(rest.to_multiset().count(rest[b - 1]) > 0);
                if rest[b - 1] != r {
                    assert(df.to_multiset().count(rest[b - 1]) > 0);
                    assert(df.contains(rest[b - 1]));
                    let w = choose|w: int| 0 <= w < df.len() && df[w] == rest[b - 1];
                    assert(s[0].last_used <= s[w + 1].last_used);
                }
            } else {
                assert(out[a] == rest[a - 1]);
                assert(out[b] == rest[b - 1]);
            }
        }
    } else {
        assert forall|a: int, b: int| 0 <= a < b < out.len() implies (#[trigger] out[a]).last_used
            <= (#[trigger] out[b]).last_used by {
            if a == 0 {
                assert(out[0] == r);
                assert(out[b] == s[b - 1]);
                if b > 1 {
                    assert(s[0].last_used <= s[b - 1].last_used);
                }
            } else {
                assert(out[a] == s[a - 1]);
                assert(out[b] == s[b - 1]);
            }
        }
    }
}

/// The eviction order really is sorted: `sort_refs` hands the references
/// back ascending by `last_used`.
pub proof fn lemma_sort_refs_ordered(s: Seq<RefModel>)
    ensures
        ordered_by_last_used(sort_refs(s)),
    decreases s.len(),
{
    if s.len() == 0 {
    } else {
        lemma_sort_refs_ordered(s.drop_last());
        lemma_insert_by_last_used_ordered(sort_refs(s.drop_last()), s.last());
    }
}

/// Clone one reference.
fn clone_reference(r: &FrameCacheReference) -> (c: FrameCacheReference)
    ensures
        c@ == r@,
{
    FrameCacheReference {
        src: r.src.clone(),
        original_src: r.original_src.clone(),
        transparent: r.transparent,
        last_used: r.last_used,
        id: r.id,
    }
}

/// Sort references ascending by `last_used` with a stable insertion sort:
/// ties keep their enumeration order, which makes pruning deterministic for
/// equal timestamps.
#[verifier::loop_isolation(false)]
pub fn sort_references(refs: &Vec<FrameCacheReference>) -> (r: Vec<FrameCacheReference>)
    ensures
        ref_models(r@) == sort_refs(ref_models(refs@)),
{
    let mut out: Vec<FrameCacheReference> = Vec::new();
    let mut i: usize = 0;
    proof {
        assert(ref_models(refs@).take(0) =~= Seq::<RefModel>::empty());
        assert(ref_models(out@) =~= Seq::<RefModel>::empty());
    }
    while i < refs.len()
        invariant
            i <= refs.len(),
            ref_models(out@) == sort_refs(ref_models(refs@).take(i as int)),
        decreases refs.len() - i,
    {
        let x = clone_reference(&refs[i]);
        let ghost sorted_before = ref_models(out@);

        let mut j: usize = 0;
        while j < out.len() && out[j].last_used <= x.last_used
            invariant
                j <= out.len(),
                forall|k: int| 0 <= k < j ==> sorted_before[k].last_used <= x@.last_used,
            decreases out.len() - j,
        {
            proof {
                assert(sorted_before[j as int] == out@[j as int]@);
            }
            j += 1;
        }
        proof {
            if j < out.len() {
                assert(sorted_before[j as int] == out@[j as int]@);
            }
            lemma_insert_at(sorted_before, x@, j as int);
        }
        out.insert(j, x);
        proof {
            assert(ref_models(out@) =~= sorted_before.insert(j as int, x@));
            let models = ref_models(refs@);
            assert(models.take(i as int + 1).drop_last() =~= models.take(i as int));
            assert(models.take(i as int + 1).last() == refs@[i as int]@);
        }
        i += 1;
    }
    proof {
        assert(ref_models(refs@).take(refs@.len() as int) =~= ref_models(refs@));
    }
    out
}

} // verus!
