//! The store: a chain of storage tiers, newest first, with a cache in front
//! of reads. Writes go to the newest tier; reads take the first tier that
//! holds the digest.
use crate::backend::{MemBackend, PutResult};
use crate::cache::Cache;
use crate::digest::Digest;
use arrayvec::ArrayVec;
use vstd::prelude::*;

verus! {

/// The most tiers a store can have, the newest one included.
pub const MAX_GENERATIONS: usize = 8;

/// Entry bound of the read cache.
pub const CACHE_ENTRIES: usize = 32;

/// Byte bound of the read cache.
pub const CACHE_BYTES: usize = 4096;

#[verifier::external_type_specification]
#[verifier::external_body]
#[verifier::reject_recursive_types(T)]
pub struct ExArrayVec<T, const CAP: usize>(ArrayVec<T, CAP>);

/// The tiers held by a fixed-capacity vector, in order.
pub uninterp spec fn tiers_of(v: ArrayVec<MemBackend, 7>) -> Seq<MemBackend>;

/// Relies on `ArrayVec::new`: an empty vector.
#[verifier::external_body]
fn tiers_new() -> (r: ArrayVec<MemBackend, 7>)
    ensures
        tiers_of(r) == Seq::<MemBackend>::empty(),
{
    ArrayVec::new()
}

/// Relies on `ArrayVec::len`: the number of elements held.
#[verifier::external_body]
fn tiers_len(v: &ArrayVec<MemBackend, 7>) -> (r: usize)
    ensures
        r == tiers_of(*v).len(),
{
    v.len()
}

/// Relies on `ArrayVec::as_slice`: the elements, in order.
#[verifier::external_body]
fn tiers_at(v: &ArrayVec<MemBackend, 7>, i: usize) -> (r: &MemBackend)
    requires
        i < tiers_of(*v).len(),
    ensures
        *r == tiers_of(*v)[i as int],
{
    &v.as_slice()[i]
}

/// Relies on `ArrayVec::try_push`: below capacity the element is appended;
/// at capacity nothing changes and the element comes back in the error.
#[verifier::external_body]
fn tiers_try_push(v: &mut ArrayVec<MemBackend, 7>, t: MemBackend) -> (r: Result<(), MemBackend>)
    ensures
        tiers_of(*old(v)).len() < 7 ==> r is Ok,
        tiers_of(*old(v)).len() < 7 ==> tiers_of(*final(v)) == tiers_of(*old(v)).push(t),
        tiers_of(*old(v)).len() >= 7 ==> (r matches Err(e) && e == t),
        tiers_of(*old(v)).len() >= 7 ==> tiers_of(*final(v)) == tiers_of(*old(v)),
{
    v.try_push(t).map_err(|e| e.element())
}

/// Tier `i` holds `d`, and no newer tier does.
pub open spec fn hit_at(gens: Seq<Map<Seq<u8>, Seq<u8>>>, d: Seq<u8>, i: int) -> bool {
    &&& 0 <= i < gens.len()
    &&& gens[i].contains_key(d)
    &&& forall|j: int| 0 <= j < i ==> !gens[j].contains_key(d)
}

/// What a read of `d` finds scanning the tiers newest first.
pub open spec fn first_hit(gens: Seq<Map<Seq<u8>, Seq<u8>>>, d: Seq<u8>) -> Option<Seq<u8>> {
    if exists|i: int| hit_at(gens, d, i) {
        Some(gens[choose|i: int| hit_at(gens, d, i)][d])
    } else {
        None
    }
}

/// The newest tier that holds a digest decides what a read finds.
pub proof fn lemma_first_hit(gens: Seq<Map<Seq<u8>, Seq<u8>>>, d: Seq<u8>, i: int)
    requires
        hit_at(gens, d, i),
    ensures
        first_hit(gens, d) == Some(gens[i][d]),
{
    let k = choose|k: int| hit_at(gens, d, k);
    assert(k == i) by {
        if k < i {
            assert(!gens[k].contains_key(d));
        } else if i < k {
            assert(!gens[i].contains_key(d));
        }
    }
}

/// Reads take the newest tier that holds a digest: where the newest tier
/// holds it, a read finds its bytes there, whatever older tiers hold.
pub proof fn lemma_newest_first(gens: Seq<Map<Seq<u8>, Seq<u8>>>, d: Seq<u8>)
    requires
        gens.len() > 0,
        gens[0].contains_key(d),
    ensures
        first_hit(gens, d) == Some(gens[0][d]),
{
    lemma_first_hit(gens, d, 0);
}

/// The sum of the counts, saturating at the largest `usize`.
pub open spec fn saturating_sum(s: Seq<usize>) -> usize
    decreases s.len(),
{
    if s.len() == 0 {
        0
    } else {
        let a = saturating_sum(s.drop_last());
        if a + s.last() > usize::MAX {
            usize::MAX
        } else {
            (a + s.last()) as usize
        }
    }
}

/// An error of a read.
#[derive(PartialEq, Eq, Structural, Clone, Copy, Debug)]
pub enum StoreError {
    /// No tier holds the digest.
    NotFound,
    /// Bytes are stored, but they do not have the expected layout.
    Decode,
}

/// A chain of storage tiers with a read cache in front.
pub struct Store {
    newest: MemBackend,
    older: ArrayVec<MemBackend, 7>,
    cache: Cache,
}

impl Store {
    /// The contents of each tier, newest first.
    pub closed spec fn generations(&self) -> Seq<Map<Seq<u8>, Seq<u8>>> {
        seq![self.newest@].add(tiers_of(self.older).map_values(|b: MemBackend| b@))
    }

    /// The blobs written to the newest tier since the last flush.
    pub closed spec fn unflushed(&self) -> Seq<(Seq<u8>, Seq<u8>)> {
        self.newest.unflushed()
    }

    /// The approximate byte count of each tier, newest first.
    pub closed spec fn tier_sizes(&self) -> Seq<usize> {
        seq![self.newest.used_spec()].add(
            tiers_of(self.older).map_values(|b: MemBackend| b.used_spec()),
        )
    }

    /// The cached entries.
    pub closed spec fn cached(&self) -> Seq<(Seq<u8>, Seq<u8>)> {
        self.cache@
    }

    /// Every tier is well formed, there are at most eight of them, and every
    /// cache entry agrees with what a read of its digest finds.
    pub closed spec fn wf(&self) -> bool {
        &&& self.newest.wf()
        &&& tiers_of(self.older).len() < MAX_GENERATIONS
        &&& forall|i: int| 0 <= i < tiers_of(self.older).len() ==> (#[trigger] tiers_of(
            self.older,
        )[i]).wf()
        &&& self.cache.wf()
        &&& forall|i: int|
            0 <= i < self.cache@.len() ==> first_hit(self.generations(), #[trigger] self.cache@[i].0)
                == Some(self.cache@[i].1)
    }

    /// A well-formed store has one to eight tiers.
    pub proof fn lemma_generations_len(&self)
        requires
            self.wf(),
        ensures
            1 <= self.generations().len() <= MAX_GENERATIONS,
    {
    }

    /// A store of one empty in-memory tier.
    pub fn volatile() -> (r: Store)
        ensures
            r.wf(),
            r.generations() == seq![Map::<Seq<u8>, Seq<u8>>::empty()],
            r.unflushed() == Seq::<(Seq<u8>, Seq<u8>)>::empty(),
            r.tier_sizes() == seq![0usize],
    {
        let r = Store {
            newest: MemBackend::new(),
            older: tiers_new(),
            cache: Cache::new(CACHE_ENTRIES, CACHE_BYTES),
        };
        assert(r.generations() =~= seq![Map::<Seq<u8>, Seq<u8>>::empty()]);
        assert(r.tier_sizes() =~= seq![0usize]);
        r
    }

    /// A store whose newest tier is `tier`.
    pub fn with_tier(tier: MemBackend) -> (r: Store)
        requires
            tier.wf(),
        ensures
            r.wf(),
            r.generations() == seq![tier@],
            r.unflushed() == tier.unflushed(),
            r.tier_sizes() == seq![tier.used_spec()],
    {
        let r = Store { newest: tier, older: tiers_new(), cache: Cache::new(CACHE_ENTRIES, CACHE_BYTES) };
        assert(r.generations() =~= seq![tier@]);
        assert(r.tier_sizes() =~= seq![tier.used_spec()]);
        r
    }

    /// The number of tiers.
    pub fn generation_count(&self) -> (r: usize)
        requires
            self.wf(),
        ensures
            r == self.generations().len(),
    {
        1 + tiers_len(&self.older)
    }

    /// Adds `tier` as the oldest tier. With eight tiers already, the store
    /// is left as it is and the tier is handed back.
    pub fn push_generation(&mut self, tier: MemBackend) -> (r: Result<(), MemBackend>)
        requires
            old(self).wf(),
            tier.wf(),
        ensures
            final(self).wf(),
            old(self).generations().len() < MAX_GENERATIONS ==> r is Ok && final(self).generations()
                == old(self).generations().push(tier@) && final(self).tier_sizes() == old(
                self,
            ).tier_sizes().push(tier.used_spec()),
            old(self).generations().len() >= MAX_GENERATIONS ==> (r matches Err(t) && t == tier)
                && final(self).generations() == old(self).generations() && final(self).tier_sizes()
                == old(self).tier_sizes(),
            final(self).unflushed() == old(self).unflushed(),
            final(self).cached() == old(self).cached(),
    {
        let ghost g0 = self.generations();
        let ghost tier_view = tier@;
        let ghost tier_used = tier.used_spec();
        let r = tiers_try_push(&mut self.older, tier);
        proof {
            if r is Ok {
                assert(self.generations() =~= g0.push(tier_view));
                assert(self.tier_sizes() =~= old(self).tier_sizes().push(tier_used));
                assert forall|i: int| 0 <= i < self.cache@.len() implies first_hit(
                    self.generations(),
                    #[trigger] self.cache@[i].0,
                ) == Some(self.cache@[i].1) by {
                    let d = self.cache@[i].0;
                    let k = choose|k: int| hit_at(g0, d, k);
                    lemma_first_hit(g0, d, k);
                    assert(hit_at(self.generations(), d, k));
                    lemma_first_hit(self.generations(), d, k);
                }
            } else {
                assert(self.generations() =~= g0);
                assert(self.tier_sizes() =~= old(self).tier_sizes());
            }
        }
        r
    }

    /// Where the newest tier that holds `digest` stands, if one does.
    fn find_tier(&self, digest: &Digest) -> (r: Option<usize>)
        requires
            self.wf(),
        ensures
            r matches Some(i) ==> hit_at(self.generations(), digest@, i as int),
            r is None ==> first_hit(self.generations(), digest@) is None,
    {
        let ghost gens = self.generations();
        if self.newest.contains(digest) {
            return Some(0);
        }
        let n = tiers_len(&self.older);
        let mut i: usize = 0;
        while i < n
            invariant
                self.wf(),
                gens == self.generations(),
                n == tiers_of(self.older).len(),
                i <= n,
                forall|j: int| 0 <= j <= i ==> !gens[j].contains_key(digest@),
            decreases n - i,
        {
            let t = tiers_at(&self.older, i);
            if t.contains(digest) {
                return Some(i + 1);
            }
            i = i + 1;
        }
        proof {
            assert forall|k: int| !hit_at(gens, digest@, k) by {}
        }
        None
    }

    /// Stores `bytes` under `digest` in the newest tier, unless some tier
    /// already holds that digest, in which case nothing changes.
    pub fn put(&mut self, digest: Digest, bytes: Vec<u8>) -> (r: PutResult)
        requires
            old(self).wf(),
        ensures
            final(self).wf(),
            first_hit(old(self).generations(), digest@) is Some ==> r == PutResult::AlreadyThere
                && final(self).generations() == old(self).generations() && final(self).unflushed()
                == old(self).unflushed() && final(self).tier_sizes() == old(self).tier_sizes(),
            first_hit(old(self).generations(), digest@) is None ==> r == PutResult::Stored
                && final(self).generations() == old(self).generations().update(
                0,
                old(self).generations()[0].insert(digest@, bytes@),
            ) && final(self).unflushed() == old(self).unflushed().push((digest@, bytes@))
                && final(self).tier_sizes() == old(self).tier_sizes().update(
                0,
                old(self).tier_sizes()[0].saturating_add(bytes@.len() as usize),
            ),
            final(self).cached() == old(self).cached(),
    {
        let ghost g0 = self.generations();
        match self.find_tier(&digest) {
            Some(i) => {
                proof {
                    lemma_first_hit(g0, digest@, i as int);
                }
                PutResult::AlreadyThere
            },
            None => {
                let ghost n = bytes.len();
                let ghost bv = bytes@;
                let ghost bytes_len = bytes@.len();
                assert(!g0[0].contains_key(digest@)) by {
                    if g0[0].contains_key(digest@) {
                        assert(hit_at(g0, digest@, 0));
                    }
                }
                let r = self.newest.put(digest, bytes);
                proof {
                    let g1 = self.generations();
                    assert(g1 =~= g0.update(0, g0[0].insert(digest@, bv)));
                    assert(self.tier_sizes() =~= old(self).tier_sizes().update(
                        0,
                        old(self).tier_sizes()[0].saturating_add(bytes_len as usize),
                    ));
                    assert forall|i: int| 0 <= i < self.cache@.len() implies first_hit(
                        g1,
                        #[trigger] self.cache@[i].0,
                    ) == Some(self.cache@[i].1) by {
                        let d = self.cache@[i].0;
                        let k = choose|k: int| hit_at(g0, d, k);
                        lemma_first_hit(g0, d, k);
                        assert(d != digest@);
                        assert(hit_at(g1, d, k));
                        lemma_first_hit(g1, d, k);
                    }
                }
                r
            },
        }
    }

    /// Reads the bytes under `digest` from the newest tier that holds it,
    /// through the cache.
    pub fn get_bytes(&mut self, digest: &Digest) -> (r: Option<Vec<u8>>)
        requires
            old(self).wf(),
        ensures
            final(self).wf(),
            final(self).generations() == old(self).generations(),
            final(self).unflushed() == old(self).unflushed(),
            final(self).tier_sizes() == old(self).tier_sizes(),
            r is Some <==> first_hit(old(self).generations(), digest@) is Some,
            r matches Some(b) ==> first_hit(old(self).generations(), digest@) == Some(b@),
    {
        let ghost gens = self.generations();
        match self.cache.lookup(digest) {
            Some(b) => {
                proof {
                    let k = choose|k: int| 0 <= k < self.cache@.len() && self.cache@[k] == (digest@, b@);
                    assert(first_hit(gens, self.cache@[k].0) == Some(self.cache@[k].1));
                }
                return Some(b);
            },
            None => {},
        }
        let found = match self.find_tier(digest) {
            None => {
                return None;
            },
            Some(i) => {
                if i == 0 {
                    self.newest.get(digest)
                } else {
                    tiers_at(&self.older, i - 1).get(digest)
                }
            },
        };
        match found {
            Some(b) => {
                proof {
                    let i = choose|i: int| hit_at(gens, digest@, i);
                    lemma_first_hit(gens, digest@, i);
                }
                let ghost bv = b@;
                let ghost c0 = self.cache@;
                let keep = crate::backend::copy_bytes(&b);
                self.cache.insert(*digest, keep);
                proof {
                    assert forall|i: int| 0 <= i < self.cache@.len() implies first_hit(
                        gens,
                        #[trigger] self.cache@[i].0,
                    ) == Some(self.cache@[i].1) by {
                        let e = self.cache@[i];
                        assert(self.cache@.contains(e));
                        if c0.contains(e) {
                            let k = choose|k: int| 0 <= k < c0.len() && c0[k] == e;
                            assert(first_hit(gens, c0[k].0) == Some(c0[k].1));
                        }
                    }
                }
                Some(b)
            },
            None => None,
        }
    }

    /// The approximate number of bytes held: the sum of the tiers' counts,
    /// saturating at the largest `usize`.
    pub fn size(&self) -> (r: usize)
        requires
            self.wf(),
        ensures
            r == saturating_sum(self.tier_sizes()),
    {
        let ghost sizes = self.tier_sizes();
        let mut total: usize = self.newest.size();
        assert(sizes.subrange(0, 1).drop_last() =~= Seq::<usize>::empty());
        assert(sizes[0] == self.newest.used_spec());
        assert(saturating_sum(sizes.subrange(0, 1).drop_last()) == 0);
        assert(saturating_sum(sizes.subrange(0, 1)) == sizes[0]);
        let n = tiers_len(&self.older);
        let mut i: usize = 0;
        while i < n
            invariant
                self.wf(),
                sizes == self.tier_sizes(),
                n == tiers_of(self.older).len(),
                i <= n,
                total == saturating_sum(sizes.subrange(0, i + 1)),
            decreases n - i,
        {
            let t = tiers_at(&self.older, i);
            total = total.saturating_add(t.size());
            i = i + 1;
            assert(sizes.subrange(0, i + 1).drop_last() =~= sizes.subrange(0, i as int));
        }
        assert(sizes.subrange(0, n + 1) =~= sizes);
        total
    }

    /// Hands out the blobs written to the newest tier since the last flush,
    /// oldest first, so that they can be made durable; older tiers are never
    /// written.
    pub fn flush(&mut self) -> (r: Vec<(Digest, Vec<u8>)>)
        requires
            old(self).wf(),
        ensures
            final(self).wf(),
            final(self).generations() == old(self).generations(),
            final(self).tier_sizes() == old(self).tier_sizes(),
            final(self).cached() == old(self).cached(),
            final(self).unflushed() == Seq::<(Seq<u8>, Seq<u8>)>::empty(),
            r@.len() == old(self).unflushed().len(),
            forall|i: int|
                0 <= i < r@.len() ==> (#[trigger] r@[i]).0@ == old(self).unflushed()[i].0
                    && r@[i].1@ == old(self).unflushed()[i].1,
    {
        let r = self.newest.flush();
        assert(self.generations() =~= old(self).generations());
        assert(self.tier_sizes() =~= old(self).tier_sizes());
        r
    }
}

} // verus!
