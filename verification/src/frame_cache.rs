//! The per-source store of decoded frames: one `FrameCache` holds the frames
//! cached for a single (source identifier, transparency) pair and reports its
//! own byte size and the references used to order global eviction.

use vstd::prelude::*;

use crate::reference::{ref_models, refs_of, FrameCacheReference};

verus! {

/// One decoded frame held by a per-source cache: an id unique within its
/// cache, the presentation timestamp the frame answers for, the time it was
/// last used (the sole eviction key), and the decoded bytes.
pub struct CachedFrame {
    pub id: usize,
    pub time: i64,
    pub last_used: i64,
    pub data: Vec<u8>,
}

/// Mathematical image of one cached frame.
#[verifier::ext_equal]
pub ghost struct FrameModel {
    pub id: nat,
    pub time: int,
    pub last_used: int,
    pub data: Seq<u8>,
}

impl View for CachedFrame {
    type V = FrameModel;

    open spec fn view(&self) -> FrameModel {
        FrameModel {
            id: self.id as nat,
            time: self.time as int,
            last_used: self.last_used as int,
            data: self.data@,
        }
    }
}

/// Index of the first element satisfying `p`, or -1 when none does.
pub open spec fn first_index_where<T>(s: Seq<T>, p: spec_fn(T) -> bool) -> int
    decreases s.len(),
{
    if s.len() == 0 {
        -1
    } else if p(s[0]) {
        0
    } else {
        let rest = first_index_where(s.drop_first(), p);
        if rest == -1 {
            -1
        } else {
            rest + 1
        }
    }
}

/// What `first_index_where` finds: the match with the least index, if any.
pub proof fn lemma_first_index_where<T>(s: Seq<T>, p: spec_fn(T) -> bool)
    ensures
        first_index_where(s, p) == -1 ==> forall|j: int| 0 <= j < s.len() ==> !p(s[j]),
        first_index_where(s, p) != -1 ==> {
            let k = first_index_where(s, p);
            &&& 0 <= k < s.len()
            &&& p(s[k])
            &&& forall|j: int| 0 <= j < k ==> !p(s[j])
        },
    decreases s.len(),
{
    if s.len() == 0 {
    } else if p(s[0]) {
    } else {
        lemma_first_index_where(s.drop_first(), p);
        assert(forall|j: int| 0 < j < s.len() ==> s[j] == s.drop_first()[j - 1]);
    }
}

/// Index of the first frame carrying `id`, or -1.
pub open spec fn frame_index_of(items: Seq<FrameModel>, id: nat) -> int {
    first_index_where(items, |f: FrameModel| f.id == id)
}

/// Whether some frame carries `id`.
pub open spec fn has_frame(items: Seq<FrameModel>, id: nat) -> bool {
    frame_index_of(items, id) != -1
}

/// The frames left after removing the one carrying `id`, if present.
pub open spec fn remove_frame(items: Seq<FrameModel>, id: nat) -> Seq<FrameModel> {
    if has_frame(items, id) {
        items.remove(frame_index_of(items, id))
    } else {
        items
    }
}

/// Distance between two timestamps.
pub open spec fn time_dist(a: int, b: int) -> int {
    if a >= b {
        a - b
    } else {
        b - a
    }
}

/// Index of the first frame whose timestamp lies within `threshold` of
/// `time`, or -1 when no frame does.
pub open spec fn first_within(items: Seq<FrameModel>, time: int, threshold: int) -> int {
    first_index_where(items, |f: FrameModel| time_dist(f.time, time) <= threshold)
}

/// Bytes held by the given frames.
pub open spec fn cache_size(items: Seq<FrameModel>) -> nat
    decreases items.len(),
{
    if items.len() == 0 {
        0
    } else {
        items[0].data.len() + cache_size(items.drop_first())
    }
}

/// Frame ids are pairwise distinct.
pub open spec fn unique_ids(items: Seq<FrameModel>) -> bool {
    forall|i: int, j: int| 0 <= i < j < items.len() ==> items[i].id != items[j].id
}

pub proof fn lemma_cache_size_push(items: Seq<FrameModel>, f: FrameModel)
    ensures
        cache_size(items.push(f)) == cache_size(items) + f.data.len(),
    decreases items.len(),
{
    if items.len() == 0 {
        assert(items.push(f).drop_first() =~= items);
    } else {
        assert(items.push(f).drop_first() =~= items.drop_first().push(f));
        lemma_cache_size_push(items.drop_first(), f);
    }
}

pub proof fn lemma_cache_size_remove(items: Seq<FrameModel>, k: int)
    requires
        0 <= k < items.len(),
    ensures
        cache_size(items.remove(k)) + items[k].data.len() == cache_size(items),
    decreases k,
{
    if k == 0 {
        assert(items.remove(0) =~= items.drop_first());
    } else {
        assert(items.remove(k).drop_first() =~= items.drop_first().remove(k - 1));
        lemma_cache_size_remove(items.drop_first(), k - 1);
    }
}

/// One step of walking a suffix of the frame sequence.
pub proof fn lemma_cache_size_skip(items: Seq<FrameModel>, i: int)
    requires
        0 <= i < items.len(),
    ensures
        cache_size(items.skip(i)) == items[i].data.len() + cache_size(items.skip(i + 1)),
{
    assert(items.skip(i).drop_first() =~= items.skip(i + 1));
    assert(items.skip(i)[0] == items[i]);
    assert(items.skip(i).len() > 0);
}

/// The per-source cache: a mutable store of decoded frames. The registry
/// reaches it through the partition maps; its contents are modelled as the
/// sequence of its frames in insertion order.
pub struct FrameCache {
    items: Vec<CachedFrame>,
}

impl View for FrameCache {
    type V = Seq<FrameModel>;

    closed spec fn view(&self) -> Seq<FrameModel> {
        self.items@.map_values(|f: CachedFrame| f@)
    }
}

impl FrameCache {
    /// A cache is well formed when its frame ids are pairwise distinct.
    pub open spec fn wf(&self) -> bool {
        unique_ids(self@)
    }

    /// A new, empty cache.
    pub fn new() -> (c: FrameCache)
        ensures
            c@ == Seq::<FrameModel>::empty(),
            c.wf(),
    {
        let c = FrameCache { items: Vec::new() };
        proof {
            assert(c@ =~= Seq::<FrameModel>::empty());
        }
        c
    }

    /// Store one frame. A frame whose id is already present is refused, so
    /// that ids stay unique within the cache; the result says whether the
    /// frame was stored.
    #[verifier::loop_isolation(false)]
    pub fn add_item(&mut self, frame: CachedFrame) -> (added: bool)
        requires
            old(self).wf(),
        ensures
            final(self).wf(),
            added == !has_frame(old(self)@, frame@.id),
            added ==> final(self)@ == old(self)@.push(frame@),
            !added ==> final(self)@ == old(self)@,
    {
        let ghost p = |f: FrameModel| f.id == frame@.id;
        let mut i: usize = 0;
        while i < self.items.len()
            invariant
                i <= self.items.len(),
                self == old(self),
                forall|j: int| 0 <= j < i ==> !p(self@[j]),
            decreases self.items.len() - i,
        {
            if self.items[i].id == frame.id {
                proof {
                    assert(self@[i as int] == self.items@[i as int]@);
                    lemma_first_index_where(self@, p);
                    assert(p(self@[i as int]));
                }
                return false;
            }
            i += 1;
        }
        proof {
            lemma_first_index_where(self@, p);
        }
        let ghost before = self@;
        self.items.push(frame);
        proof {
            assert(self@ =~= before.push(frame@));
        }
        true
    }

    /// Answer the time-window lookup: the id of the first frame (in insertion
    /// order) whose timestamp lies within `threshold` of `time`, or nothing
    /// when no frame is that close.
    #[verifier::loop_isolation(false)]
    pub fn get_item_id(&self, time: i64, threshold: i64) -> (r: Option<usize>)
        ensures
            ({
                let k = first_within(self@, time as int, threshold as int);
                if k == -1 {
                    r is None
                } else {
                    r matches Some(id) && id as nat == self@[k].id
                }
            }),
    {
        let ghost p = |f: FrameModel| time_dist(f.time, time as int) <= threshold as int;
        let mut i: usize = 0;
        while i < self.items.len()
            invariant
                i <= self.items.len(),
                forall|j: int| 0 <= j < i ==> !p(self@[j]),
            decreases self.items.len() - i,
        {
            let d: i128 = self.items[i].time as i128 - time as i128;
            let ad: i128 = if d < 0 {
                -d
            } else {
                d
            };
            if ad <= threshold as i128 {
                proof {
                    assert(self@[i as int] == self.items@[i as int]@);
                    lemma_first_index_where(self@, p);
                    assert(p(self@[i as int]));
                }
                return Some(self.items[i].id);
            }
            i += 1;
        }
        proof {
            lemma_first_index_where(self@, p);
        }
        None
    }

    /// Look a frame up by id and hand back a copy of its bytes, or nothing
    /// when the cache holds no frame with that id.
    #[verifier::loop_isolation(false)]
    pub fn get_item_from_id(&self, id: usize) -> (r: Option<Vec<u8>>)
        ensures
            ({
                let k = frame_index_of(self@, id as nat);
                if k == -1 {
                    r is None
                } else {
                    r matches Some(d) && d@ == self@[k].data
                }
            }),
    {
        let ghost p = |f: FrameModel| f.id == id as nat;
        let mut i: usize = 0;
        while i < self.items.len()
            invariant
                i <= self.items.len(),
                forall|j: int| 0 <= j < i ==> !p(self@[j]),
            decreases self.items.len() - i,
        {
            if self.items[i].id == id {
                proof {
                    assert(self@[i as int] == self.items@[i as int]@);
                    lemma_first_index_where(self@, p);
                    assert(p(self@[i as int]));
                }
                let d = clone_bytes(&self.items[i].data);
                return Some(d);
            }
            i += 1;
        }
        proof {
            lemma_first_index_where(self@, p);
        }
        None
    }

    /// Remove the frame carrying `id`, if the cache holds one; the result
    /// says whether anything was removed.
    #[verifier::loop_isolation(false)]
    pub fn remove_item_by_id(&mut self, id: usize) -> (found: bool)
        requires
            old(self).wf(),
        ensures
            final(self).wf(),
            found == has_frame(old(self)@, id as nat),
            final(self)@ == remove_frame(old(self)@, id as nat),
    {
        let ghost p = |f: FrameModel| f.id == id as nat;
        let mut i: usize = 0;
        while i < self.items.len()
            invariant
                i <= self.items.len(),
                self == old(self),
                forall|j: int| 0 <= j < i ==> !p(self@[j]),
            decreases self.items.len() - i,
        {
            if self.items[i].id == id {
                proof {
                    assert(self@[i as int] == self.items@[i as int]@);
                    lemma_first_index_where(self@, p);
                    assert(p(self@[i as int]));
                    assert(frame_index_of(self@, id as nat) == i);
                }
                let ghost before = self@;
                self.items.remove(i);
                proof {
                    assert(self@ =~= before.remove(i as int));
                }
                return true;
            }
            i += 1;
        }
        proof {
            lemma_first_index_where(self@, p);
        }
        false
    }

    /// The cache's current byte size: the sum of its frames' byte counts.
    #[verifier::loop_isolation(false)]
    pub fn get_size_in_bytes(&self) -> (r: u128)
        requires
            cache_size(self@) <= u128::MAX,
        ensures
            r == cache_size(self@),
    {
        let mut total: u128 = 0;
        let mut i: usize = 0;
        proof {
            assert(self@.skip(0) =~= self@);
        }
        while i < self.items.len()
            invariant
                i <= self.items.len(),
                cache_size(self@) <= u128::MAX,
                total + cache_size(self@.skip(i as int)) == cache_size(self@),
            decreases self.items.len() - i,
        {
            proof {
                lemma_cache_size_skip(self@, i as int);
            }
            total = total + self.items[i].data.len() as u128;
            i += 1;
        }
        proof {
            assert(self@.skip(self.items@.len() as int) =~= Seq::<FrameModel>::empty());
        }
        total
    }

    /// The references describing this cache's frames, in insertion order,
    /// each tagged with the given cache identity.
    #[verifier::loop_isolation(false)]
    pub fn get_references(&self, src: &str, original_src: &str, transparent: bool) -> (r: Vec<
        FrameCacheReference,
    >)
        ensures
            ref_models(r@) == refs_of(src@, original_src@, transparent, self@),
    {
        let ghost full = refs_of(src@, original_src@, transparent, self@);
        let mut out: Vec<FrameCacheReference> = Vec::new();
        let mut i: usize = 0;
        proof {
            assert(ref_models(out@) =~= full.take(0));
        }
        while i < self.items.len()
            invariant
                i <= self.items.len(),
                ref_models(out@) == full.take(i as int),
            decreases self.items.len() - i,
        {
            let r = FrameCacheReference {
                src: src.to_owned(),
                original_src: original_src.to_owned(),
                transparent,
                last_used: self.items[i].last_used,
                id: self.items[i].id,
            };
            proof {
                assert(self@[i as int] == self.items@[i as int]@);
                assert(r@ == full[i as int]);
            }
            out.push(r);
            proof {
                assert(ref_models(out@) =~= full.take(i as int).push(full[i as int]));
                assert(full.take(i as int + 1) =~= full.take(i as int).push(full[i as int]));
            }
            i += 1;
        }
        proof {
            assert(full.take(self.items@.len() as int) =~= full);
        }
        out
    }

    /// How many frames the cache holds.
    pub fn len(&self) -> (n: usize)
        ensures
            n == self@.len(),
    {
        self.items.len()
    }
}

/// Copy a frame's bytes out of the cache.
#[verifier::loop_isolation(false)]
fn clone_bytes(v: &Vec<u8>) -> (r: Vec<u8>)
    ensures
        r@ == v@,
{
    let mut r: Vec<u8> = Vec::new();
    let mut i: usize = 0;
    proof {
        assert(v@.take(0) =~= Seq::<u8>::empty());
    }
    while i < v.len()
        invariant
            i <= v.len(),
            r@ == v@.take(i as int),
        decreases v.len() - i,
    {
        r.push(v[i]);
        proof {
            assert(v@.take(i as int + 1) =~= v@.take(i as int).push(v@[i as int]));
        }
        i += 1;
    }
    proof {
        assert(v@.take(v@.len() as int) =~= v@);
    }
    r
}

} // verus!
