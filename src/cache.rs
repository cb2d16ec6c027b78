//! A bounded cache of recently read blobs, keyed by digest. Stored blobs
//! never change, so an entry only ever leaves by eviction.
use crate::backend::{copy_bytes, Blob};
use crate::digest::{digest_eq, Digest};
use vstd::prelude::*;

verus! {

/// The number of bytes held by a sequence of cache entries.
pub open spec fn total_bytes(s: Seq<(Seq<u8>, Seq<u8>)>) -> nat
    decreases s.len(),
{
    if s.len() == 0 {
        0
    } else {
        total_bytes(s.drop_last()) + s.last().1.len()
    }
}

proof fn lemma_total_bytes_front(s: Seq<(Seq<u8>, Seq<u8>)>)
    requires
        s.len() > 0,
    ensures
        total_bytes(s) == s[0].1.len() + total_bytes(s.drop_first()),
    decreases s.len(),
{
    if s.len() > 1 {
        lemma_total_bytes_front(s.drop_last());
        assert(s.drop_last().drop_first() =~= s.drop_first().drop_last());
        assert(s.drop_first().last() == s.last());
    } else {
        assert(s.drop_first() =~= Seq::<(Seq<u8>, Seq<u8>)>::empty());
        assert(s.drop_last() =~= Seq::<(Seq<u8>, Seq<u8>)>::empty());
    }
}

/// A first-in, first-out cache bounded both in entries and in bytes.
pub struct Cache {
    entries: Vec<Blob>,
    max_entries: usize,
    max_bytes: usize,
    bytes: usize,
}

impl View for Cache {
    type V = Seq<(Seq<u8>, Seq<u8>)>;

    /// The entries, oldest first, as (digest, bytes).
    closed spec fn view(&self) -> Seq<(Seq<u8>, Seq<u8>)> {
        self.entries@.map_values(|b: Blob| (b.digest@, b.bytes@))
    }
}

impl Cache {
    pub closed spec fn max_entries_spec(&self) -> nat {
        self.max_entries as nat
    }

    pub closed spec fn max_bytes_spec(&self) -> nat {
        self.max_bytes as nat
    }

    /// Both bounds hold, and the byte count is exact.
    pub closed spec fn wf(&self) -> bool {
        &&& self.entries@.len() <= self.max_entries
        &&& self.bytes == total_bytes(self@)
        &&& self.bytes <= self.max_bytes
    }

    /// An empty cache holding at most `max_entries` entries and
    /// `max_bytes` bytes.
    pub fn new(max_entries: usize, max_bytes: usize) -> (r: Cache)
        ensures
            r.wf(),
            r@ == Seq::<(Seq<u8>, Seq<u8>)>::empty(),
            r.max_entries_spec() == max_entries,
            r.max_bytes_spec() == max_bytes,
    {
        let r = Cache { entries: Vec::new(), max_entries, max_bytes, bytes: 0 };
        assert(r@ =~= Seq::<(Seq<u8>, Seq<u8>)>::empty());
        r
    }

    /// The number of entries held.
    pub fn len(&self) -> (r: usize)
        ensures
            r == self@.len(),
    {
        self.entries.len()
    }

    /// The bytes cached under `digest`, if any.
    pub fn lookup(&self, digest: &Digest) -> (r: Option<Vec<u8>>)
        ensures
            r matches Some(b) ==> self@.contains((digest@, b@)),
            r is None ==> forall|i: int| 0 <= i < self@.len() ==> self@[i].0 != digest@,
    {
        let mut i: usize = 0;
        while i < self.entries.len()
            invariant
                i <= self.entries@.len(),
                forall|j: int| 0 <= j < i ==> self@[j].0 != digest@,
            decreases self.entries@.len() - i,
        {
            if digest_eq(&self.entries[i].digest, digest) {
                let b = copy_bytes(&self.entries[i].bytes);
                assert(self@[i as int] == (digest@, b@));
                return Some(b);
            }
            i = i + 1;
        }
        None
    }

    /// Caches `bytes` under `digest`, evicting the oldest entries as needed
    /// to stay within both bounds. Bytes larger than the byte bound are not
    /// cached; nothing is cached when the entry bound is zero.
    pub fn insert(&mut self, digest: Digest, bytes: Vec<u8>)
        requires
            old(self).wf(),
        ensures
            final(self).wf(),
            final(self).max_entries_spec() == old(self).max_entries_spec(),
            final(self).max_bytes_spec() == old(self).max_bytes_spec(),
            forall|e: (Seq<u8>, Seq<u8>)|
                #[trigger] final(self)@.contains(e) ==> old(self)@.contains(e) || e == (
                digest@,
                bytes@,
            ),
            (bytes@.len() <= old(self).max_bytes_spec() && old(self).max_entries_spec() > 0)
                ==> final(self)@.contains((digest@, bytes@)),
    {
        let n = bytes.len();
        if n > self.max_bytes || self.max_entries == 0 {
            return;
        }
        while self.entries.len() >= self.max_entries || self.bytes > self.max_bytes - n
            invariant
                self.wf(),
                self.max_entries == old(self).max_entries,
                self.max_bytes == old(self).max_bytes,
                n <= self.max_bytes,
                self.max_entries > 0,
                forall|e: (Seq<u8>, Seq<u8>)| #[trigger]
                    self@.contains(e) ==> old(self)@.contains(e),
            ensures
                self.wf(),
                self.max_entries == old(self).max_entries,
                self.max_bytes == old(self).max_bytes,
                self.entries@.len() < self.max_entries,
                self.bytes + n <= self.max_bytes,
                forall|e: (Seq<u8>, Seq<u8>)| #[trigger]
                    self@.contains(e) ==> old(self)@.contains(e),
            decreases self.entries@.len(),
        {
            if self.entries.len() == 0 {
                assert(self@ =~= Seq::<(Seq<u8>, Seq<u8>)>::empty());
                break;
            }
            let ghost before = self@;
            proof {
                lemma_total_bytes_front(before);
            }
            let gone = self.entries.remove(0);
            assert(self@ =~= before.drop_first());
            self.bytes = self.bytes - gone.bytes.len();
            assert forall|e: (Seq<u8>, Seq<u8>)| #[trigger] self@.contains(e) implies old(
                self,
            )@.contains(e) by {
                let k = choose|k: int| 0 <= k < self@.len() && self@[k] == e;
                assert(before[k + 1] == e);
                assert(before.contains(e));
            }
        }
        let ghost before = self@;
        self.bytes = self.bytes + n;
        self.entries.push(Blob { digest, bytes });
        proof {
            assert(self@ =~= before.push((digest@, bytes@)));
            assert(self@.drop_last() =~= before);
            assert(self@[self@.len() - 1] == (digest@, bytes@));
            assert forall|e: (Seq<u8>, Seq<u8>)| #[trigger] self@.contains(e) implies old(
                self,
            )@.contains(e) || e == (digest@, bytes@) by {
                let k = choose|k: int| 0 <= k < self@.len() && self@[k] == e;
                if k < before.len() {
                    assert(before[k] == e);
                    assert(before.contains(e));
                }
            }
        }
    }
}

} // verus!
