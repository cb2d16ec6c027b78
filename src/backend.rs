//! Backends: one storage tier each, mapping digests to the bytes stored
//! under them, with put-once semantics.
use crate::digest::{digest_eq, Digest};
use vstd::prelude::*;

verus! {

/// What a put did.
#[derive(PartialEq, Eq, Structural, Clone, Copy, Debug)]
pub enum PutResult {
    /// The bytes were not there and are stored now.
    Stored,
    /// Something was already stored under that digest; nothing changed.
    AlreadyThere,
}

/// A digest with the bytes stored under it.
pub struct Blob {
    pub digest: Digest,
    pub bytes: Vec<u8>,
}

/// The blobs of a sequence, keyed by digest (the first one of a digest wins).
pub open spec fn blobs_map(s: Seq<Blob>) -> Map<Seq<u8>, Seq<u8>>
    decreases s.len(),
{
    if s.len() == 0 {
        Map::empty()
    } else {
        let rest = blobs_map(s.drop_last());
        if rest.contains_key(s.last().digest@) {
            rest
        } else {
            rest.insert(s.last().digest@, s.last().bytes@)
        }
    }
}

/// A storage tier that holds its blobs in process memory, in the order in
/// which they were stored, together with a running byte count.
pub struct MemBackend {
    blobs: Vec<Blob>,
    used: usize,
    flushed: usize,
}

impl View for MemBackend {
    type V = Map<Seq<u8>, Seq<u8>>;

    closed spec fn view(&self) -> Map<Seq<u8>, Seq<u8>> {
        blobs_map(self.blobs@)
    }
}

/// Copies a byte vector.
pub fn copy_bytes(v: &Vec<u8>) -> (r: Vec<u8>)
    ensures
        r@ == v@,
{
    let mut r: Vec<u8> = Vec::with_capacity(v.len());
    let mut i: usize = 0;
    while i < v.len()
        invariant
            i <= v@.len(),
            r@ == v@.subrange(0, i as int),
        decreases v@.len() - i,
    {
        r.push(v[i]);
        i = i + 1;
        assert(r@ =~= v@.subrange(0, i as int));
    }
    assert(r@ =~= v@);
    r
}

impl MemBackend {
    /// Digests of the blobs are pairwise distinct.
    pub closed spec fn wf(&self) -> bool {
        &&& forall|i: int, j: int|
            0 <= i < j < self.blobs@.len() ==> self.blobs@[i].digest@ != self.blobs@[j].digest@
        &&& self.flushed <= self.blobs@.len()
    }

    /// The approximate number of bytes held.
    pub closed spec fn used_spec(&self) -> usize {
        self.used
    }

    /// The blobs stored since the last flush, in the order of storing.
    pub closed spec fn unflushed(&self) -> Seq<(Seq<u8>, Seq<u8>)> {
        self.blobs@.subrange(self.flushed as int, self.blobs@.len() as int).map_values(
            |b: Blob| (b.digest@, b.bytes@),
        )
    }

    /// An empty backend.
    pub fn new() -> (r: MemBackend)
        ensures
            r.wf(),
            r@ == Map::<Seq<u8>, Seq<u8>>::empty(),
            r.used_spec() == 0,
            r.unflushed() == Seq::<(Seq<u8>, Seq<u8>)>::empty(),
    {
        let r = MemBackend { blobs: Vec::new(), used: 0, flushed: 0 };
        assert(r.unflushed() =~= Seq::<(Seq<u8>, Seq<u8>)>::empty());
        r
    }

    /// Where the digest stands among the blobs, if it does.
    fn position(&self, digest: &Digest) -> (r: Option<usize>)
        requires
            self.wf(),
        ensures
            match r {
                Some(i) => i < self.blobs@.len() && self.blobs@[i as int].digest@ == digest@,
                None => forall|j: int|
                    0 <= j < self.blobs@.len() ==> self.blobs@[j].digest@ != digest@,
            },
    {
        let mut i: usize = 0;
        while i < self.blobs.len()
            invariant
                i <= self.blobs@.len(),
                forall|j: int| 0 <= j < i ==> self.blobs@[j].digest@ != digest@,
            decreases self.blobs@.len() - i,
        {
            if digest_eq(&self.blobs[i].digest, digest) {
                return Some(i);
            }
            i = i + 1;
        }
        None
    }

    /// Reads the bytes stored under `digest` in this backend.
    pub fn get(&self, digest: &Digest) -> (r: Option<Vec<u8>>)
        requires
            self.wf(),
        ensures
            r is Some <==> self@.contains_key(digest@),
            r matches Some(b) ==> b@ == self@[digest@],
    {
        proof {
            lemma_blobs_map(self.blobs@);
        }
        match self.position(digest) {
            Some(i) => Some(copy_bytes(&self.blobs[i].bytes)),
            None => None,
        }
    }

    /// Whether something is stored under `digest` in this backend.
    pub fn contains(&self, digest: &Digest) -> (r: bool)
        requires
            self.wf(),
        ensures
            r == self@.contains_key(digest@),
    {
        proof {
            lemma_blobs_map(self.blobs@);
        }
        self.position(digest).is_some()
    }

    /// Stores `bytes` under `digest` unless something is already stored
    /// under it, in which case nothing changes.
    pub fn put(&mut self, digest: Digest, bytes: Vec<u8>) -> (r: PutResult)
        requires
            old(self).wf(),
        ensures
            final(self).wf(),
            old(self)@.contains_key(digest@) ==> r == PutResult::AlreadyThere && *final(self)
                == *old(self),
            !old(self)@.contains_key(digest@) ==> r == PutResult::Stored && final(self)@
                == old(self)@.insert(digest@, bytes@) && final(self).used_spec()
                == old(self).used_spec().saturating_add(bytes@.len() as usize)
                && final(self).unflushed() == old(self).unflushed().push((digest@, bytes@)),
    {
        proof {
            lemma_blobs_map(self.blobs@);
        }
        if self.position(&digest).is_some() {
            return PutResult::AlreadyThere;
        }
        let ghost old_blobs = self.blobs@;
        let n = bytes.len();
        self.used = self.used.saturating_add(n);
        self.blobs.push(Blob { digest, bytes });
        proof {
            assert(self.blobs@.drop_last() =~= old_blobs);
            assert(self.unflushed() =~= old(self).unflushed().push((digest@, bytes@)));
        }
        PutResult::Stored
    }

    /// The approximate number of bytes held.
    pub fn size(&self) -> (r: usize)
        ensures
            r == self.used_spec(),
    {
        self.used
    }

    /// Hands out the blobs stored since the last flush, oldest first, and
    /// marks them as flushed.
    pub fn flush(&mut self) -> (r: Vec<(Digest, Vec<u8>)>)
        requires
            old(self).wf(),
        ensures
            final(self).wf(),
            final(self)@ == old(self)@,
            final(self).used_spec() == old(self).used_spec(),
            final(self).unflushed() == Seq::<(Seq<u8>, Seq<u8>)>::empty(),
            r@.len() == old(self).unflushed().len(),
            forall|i: int|
                0 <= i < r@.len() ==> (#[trigger] r@[i]).0@ == old(self).unflushed()[i].0
                    && r@[i].1@ == old(self).unflushed()[i].1,
    {
        let mut out: Vec<(Digest, Vec<u8>)> = Vec::new();
        let mut i: usize = self.flushed;
        while i < self.blobs.len()
            invariant
                self.wf(),
                self.flushed <= i <= self.blobs@.len(),
                self == old(self),
                out@.len() == i - self.flushed,
                forall|k: int|
                    0 <= k < out@.len() ==> (#[trigger] out@[k]).0@ == self.blobs@[self.flushed
                        + k].digest@ && out@[k].1@ == self.blobs@[self.flushed + k].bytes@,
            decreases self.blobs@.len() - i,
        {
            let b = &self.blobs[i];
            out.push((b.digest, copy_bytes(&b.bytes)));
            i = i + 1;
        }
        self.flushed = self.blobs.len();
        proof {
            assert(final(self).unflushed() =~= Seq::<(Seq<u8>, Seq<u8>)>::empty());
        }
        out
    }
}

/// With distinct digests, the map of a blob sequence holds exactly the
/// digests of its blobs, each with its bytes.
proof fn lemma_blobs_map(s: Seq<Blob>)
    requires
        forall|i: int, j: int| 0 <= i < j < s.len() ==> s[i].digest@ != s[j].digest@,
    ensures
        forall|k: Seq<u8>|
            #[trigger] blobs_map(s).contains_key(k) <==> exists|i: int|
                0 <= i < s.len() && s[i].digest@ == k,
        forall|i: int| 0 <= i < s.len() ==> blobs_map(s)[#[trigger] s[i].digest@] == s[i].bytes@,
    decreases s.len(),
{
    if s.len() > 0 {
        let t = s.drop_last();
        let last = s.last();
        lemma_blobs_map(t);
        assert forall|i: int| 0 <= i < t.len() implies t[i] == s[i] && t[i].digest@
            != last.digest@ by {}
        assert(!blobs_map(t).contains_key(last.digest@));
        assert(blobs_map(s) == blobs_map(t).insert(last.digest@, last.bytes@));
        assert forall|k: Seq<u8>|
            #[trigger] blobs_map(s).contains_key(k) <==> exists|i: int|
                0 <= i < s.len() && s[i].digest@ == k by {
            if k != last.digest@ && blobs_map(t).contains_key(k) {
                let i = choose|i: int| 0 <= i < t.len() && t[i].digest@ == k;
                assert(s[i].digest@ == k);
            }
            if k == last.digest@ {
                assert(s[s.len() - 1].digest@ == k);
            }
        }
    }
}

} // verus!
