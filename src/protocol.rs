//! Persisting values as Merkle DAGs of content-addressed nodes, and reading
//! them back.
use crate::backend::copy_bytes;
use crate::digest::{blake2b_of, digest_bytes, digest_eq, Digest, DIGEST_LEN};
use crate::node::{all_digests, decode, digest_views, encode, encode_node, lemma_parse_encode, parse_node};
use crate::store::{first_hit, hit_at, lemma_first_hit, Store, StoreError};
use vstd::prelude::*;

verus! {

broadcast use vstd::std_specs::vec::axiom_vec_index_decreases;

/// A handle on a persisted value: the digest of its root node.
#[derive(Clone, Copy, Debug)]
pub struct Snapshot {
    digest: Digest,
}

impl View for Snapshot {
    type V = Seq<u8>;

    closed spec fn view(&self) -> Seq<u8> {
        self.digest@
    }
}

impl PartialEq for Snapshot {
    /// Snapshots are equal when their digests are.
    fn eq(&self, other: &Snapshot) -> (r: bool) {
        digest_eq(&self.digest, &other.digest)
    }
}

impl vstd::std_specs::cmp::PartialEqSpecImpl for Snapshot {
    open spec fn obeys_eq_spec() -> bool {
        true
    }

    open spec fn eq_spec(&self, other: &Snapshot) -> bool {
        self@ == other@
    }
}

impl Snapshot {
    /// The snapshot of the value whose root is stored under `digest`.
    pub fn new(digest: Digest) -> (r: Snapshot)
        ensures
            r@ == digest@,
    {
        Snapshot { digest }
    }

    /// The digest of the root node.
    pub fn hash(&self) -> (r: &Digest)
        ensures
            r@ == self@,
    {
        &self.digest
    }

    /// The digest of the root node, as bytes.
    pub fn as_bytes(&self) -> (r: &[u8])
        ensures
            r@ == self@,
    {
        self.digest.as_slice()
    }
}

/// A node being written: the digests of its children so far, and its own
/// bytes so far.
pub struct Sink {
    children: Vec<Digest>,
    data: Vec<u8>,
}

impl View for Sink {
    type V = (Seq<Seq<u8>>, Seq<u8>);

    closed spec fn view(&self) -> (Seq<Seq<u8>>, Seq<u8>) {
        (digest_views(self.children@), self.data@)
    }
}

impl Sink {
    /// A node with no children and no bytes.
    pub fn new() -> (r: Sink)
        ensures
            r@ == (Seq::<Seq<u8>>::empty(), Seq::<u8>::empty()),
    {
        let r = Sink { children: Vec::new(), data: Vec::new() };
        assert(r@.0 =~= Seq::<Seq<u8>>::empty());
        r
    }

    /// Appends `bytes` to the node's own bytes.
    pub fn write(&mut self, bytes: &[u8])
        ensures
            final(self)@ == (old(self)@.0, old(self)@.1 + bytes@),
    {
        let mut i: usize = 0;
        while i < bytes.len()
            invariant
                i <= bytes@.len(),
                self.children == old(self).children,
                self.data@ == old(self).data@ + bytes@.subrange(0, i as int),
            decreases bytes@.len() - i,
        {
            self.data.push(bytes[i]);
            i = i + 1;
            assert(self.data@ =~= old(self).data@ + bytes@.subrange(0, i as int));
        }
        assert(bytes@.subrange(0, bytes@.len() as int) =~= bytes@);
    }

    /// Appends a child, given by the snapshot of its persisted value.
    pub fn embed(&mut self, child: &Snapshot)
        ensures
            final(self)@ == (old(self)@.0.push(child@), old(self)@.1),
    {
        self.children.push(child.digest);
        assert(digest_views(self.children@) =~= digest_views(old(self).children@).push(child@));
    }
}

/// A node being read: the digests of its children and its own bytes.
pub struct Source {
    children: Vec<Digest>,
    data: Vec<u8>,
}

impl View for Source {
    type V = (Seq<Seq<u8>>, Seq<u8>);

    closed spec fn view(&self) -> (Seq<Seq<u8>>, Seq<u8>) {
        (digest_views(self.children@), self.data@)
    }
}

impl Source {
    /// The number of children.
    pub fn child_count(&self) -> (r: usize)
        ensures
            r == self@.0.len(),
    {
        self.children.len()
    }

    /// The snapshot of child `i`.
    pub fn child(&self, i: usize) -> (r: Snapshot)
        requires
            i < self@.0.len(),
        ensures
            r@ == self@.0[i as int],
    {
        Snapshot { digest: self.children[i] }
    }

    /// The node's own bytes.
    pub fn data(&self) -> (r: &Vec<u8>)
        ensures
            r@ == self@.1,
    {
        &self.data
    }
}

/// A value: its own bytes and the values it owns.
pub struct Value {
    pub data: Vec<u8>,
    pub children: Vec<Value>,
}

/// The digest under which a value's root node is stored.
pub open spec fn value_digest(v: Value) -> Seq<u8>
    decreases v, 1nat,
{
    blake2b_of(encode_node(child_digests(v), v.data@))
}

/// The digests of a value's children, in order.
pub open spec fn child_digests(v: Value) -> Seq<Seq<u8>>
    decreases v, 0nat,
{
    Seq::new(
        v.children@.len(),
        |i: int|
            if 0 <= i < v.children@.len() {
                value_digest(v.children[i])
            } else {
                Seq::empty()
            },
    )
}

/// The bytes of a value's root node.
pub open spec fn value_bytes(v: Value) -> Seq<u8> {
    encode_node(child_digests(v), v.data@)
}

/// Some tier holds the digest of every part of `v`.
pub open spec fn present(gens: Seq<Map<Seq<u8>, Seq<u8>>>, v: Value) -> bool
    decreases v,
{
    &&& first_hit(gens, value_digest(v)) is Some
    &&& forall|i: int| 0 <= i < v.children@.len() ==> present(gens, #[trigger] v.children[i])
}

/// A read of the digest of every part of `v` finds the bytes of that part.
pub open spec fn holds(gens: Seq<Map<Seq<u8>, Seq<u8>>>, v: Value) -> bool
    decreases v,
{
    &&& value_digest(v).len() == DIGEST_LEN
    &&& first_hit(gens, value_digest(v)) == Some(value_bytes(v))
    &&& forall|i: int| 0 <= i < v.children@.len() ==> holds(gens, #[trigger] v.children[i])
}

/// `m` maps the digest of every part of `v` to the bytes of that part: no
/// two parts of `v` with different bytes share a digest.
pub open spec fn covers(m: Map<Seq<u8>, Seq<u8>>, v: Value) -> bool
    decreases v,
{
    &&& m.contains_key(value_digest(v))
    &&& m[value_digest(v)] == value_bytes(v)
    &&& forall|i: int| 0 <= i < v.children@.len() ==> covers(m, #[trigger] v.children[i])
}

/// Wherever the tiers hold a digest of `m`, a read finds what `m` maps it to.
pub open spec fn agrees(gens: Seq<Map<Seq<u8>, Seq<u8>>>, m: Map<Seq<u8>, Seq<u8>>) -> bool {
    forall|k: Seq<u8>|
        m.contains_key(k) && (#[trigger] first_hit(gens, k)) is Some ==> first_hit(gens, k) == Some(
            m[k],
        )
}

/// Every read that found something finds the same in `g1`.
pub open spec fn grows(g0: Seq<Map<Seq<u8>, Seq<u8>>>, g1: Seq<Map<Seq<u8>, Seq<u8>>>) -> bool {
    &&& g1.len() == g0.len()
    &&& forall|k: Seq<u8>| (#[trigger] first_hit(g0, k)) is Some ==> first_hit(g1, k) == first_hit(g0, k)
}

proof fn lemma_put_effect(
    g0: Seq<Map<Seq<u8>, Seq<u8>>>,
    g1: Seq<Map<Seq<u8>, Seq<u8>>>,
    d: Seq<u8>,
    b: Seq<u8>,
)
    requires
        g0.len() > 0,
        put_effect(g0, g1, d, b),
    ensures
        grows(g0, g1),
        first_hit(g0, d) is Some ==> first_hit(g1, d) == first_hit(g0, d),
        first_hit(g0, d) is None ==> first_hit(g1, d) == Some(b),
        forall|k: Seq<u8>| k != d ==> #[trigger] first_hit(g1, k) == first_hit(g0, k),
{
    if first_hit(g0, d) is None {
        assert(hit_at(g1, d, 0));
        lemma_first_hit(g1, d, 0);
        assert forall|k: Seq<u8>| k != d implies #[trigger] first_hit(g1, k) == first_hit(g0, k) by {
            assert forall|i: int| hit_at(g1, k, i) <==> hit_at(g0, k, i) by {
                assert forall|j: int| 0 <= j < g0.len() implies (g1[j].contains_key(k)
                    <==> g0[j].contains_key(k)) by {}
            }
            if exists|i: int| hit_at(g0, k, i) {
                let i = choose|i: int| hit_at(g0, k, i);
                lemma_first_hit(g0, k, i);
                lemma_first_hit(g1, k, i);
            }
        }
    }
}

proof fn lemma_present_grows(g0: Seq<Map<Seq<u8>, Seq<u8>>>, g1: Seq<Map<Seq<u8>, Seq<u8>>>, v: Value)
    requires
        grows(g0, g1),
        present(g0, v),
    ensures
        present(g1, v),
    decreases v,
{
    assert forall|i: int| 0 <= i < v.children@.len() implies present(g1, #[trigger] v.children[i]) by {
        lemma_present_grows(g0, g1, v.children[i]);
    }
}

proof fn lemma_holds_grows(g0: Seq<Map<Seq<u8>, Seq<u8>>>, g1: Seq<Map<Seq<u8>, Seq<u8>>>, v: Value)
    requires
        grows(g0, g1),
        holds(g0, v),
    ensures
        holds(g1, v),
    decreases v,
{
    assert forall|i: int| 0 <= i < v.children@.len() implies holds(g1, #[trigger] v.children[i]) by {
        lemma_holds_grows(g0, g1, v.children[i]);
    }
}

/// The default nesting budget of a restore: how many levels of children
/// below the root it follows.
pub const MAX_DEPTH: usize = 64;

/// How a restore of `d` that may follow `depth` levels of children ends:
/// `None` where it succeeds, else its error. A missing node gives
/// `NotFound`; bytes without the node layout, or children beyond the budget,
/// give `Decode`; children are restored in order and the first error wins.
pub open spec fn restore_error(gens: Seq<Map<Seq<u8>, Seq<u8>>>, d: Seq<u8>, depth: nat) -> Option<
    StoreError,
>
    decreases depth, 0nat, 0nat,
{
    match first_hit(gens, d) {
        None => Some(StoreError::NotFound),
        Some(b) => match parse_node(b) {
            None => Some(StoreError::Decode),
            Some((kids, _data)) => if kids.len() == 0 {
                None
            } else if depth == 0 {
                Some(StoreError::Decode)
            } else {
                kids_error(gens, kids, (depth - 1) as nat)
            },
        },
    }
}

/// The first error among restores of `kids`, in order.
pub open spec fn kids_error(gens: Seq<Map<Seq<u8>, Seq<u8>>>, kids: Seq<Seq<u8>>, depth: nat) -> Option<
    StoreError,
>
    decreases depth, 1nat, kids.len(),
{
    if kids.len() == 0 {
        None
    } else {
        match restore_error(gens, kids[0], depth) {
            Some(e) => Some(e),
            None => kids_error(gens, kids.drop_first(), depth),
        }
    }
}

/// `w` is what the nodes stored under `d` and below it read as.
pub open spec fn decodes(gens: Seq<Map<Seq<u8>, Seq<u8>>>, d: Seq<u8>, w: Value) -> bool
    decreases w,
{
    match first_hit(gens, d) {
        Some(b) => match parse_node(b) {
            Some((kids, data)) => {
                &&& w.data@ == data
                &&& w.children@.len() == kids.len()
                &&& forall|i: int|
                    0 <= i < w.children@.len() ==> decodes(gens, kids[i], #[trigger] w.children[i])
            },
            None => false,
        },
        None => false,
    }
}

/// `v` has no children deeper than `depth` levels below it.
pub open spec fn fits(v: Value, depth: nat) -> bool
    decreases v,
{
    v.children@.len() == 0 || (depth > 0 && forall|i: int|
        0 <= i < v.children@.len() ==> fits(#[trigger] v.children[i], (depth - 1) as nat))
}

/// Two values have the same bytes and the same children, recursively.
pub open spec fn same_value(a: Value, b: Value) -> bool
    decreases a,
{
    &&& a.data@ == b.data@
    &&& a.children@.len() == b.children@.len()
    &&& forall|i: int|
        0 <= i < a.children@.len() ==> same_value(#[trigger] a.children[i], b.children[i])
}

proof fn lemma_kids_error_step(gens: Seq<Map<Seq<u8>, Seq<u8>>>, kids: Seq<Seq<u8>>, i: int, depth: nat)
    requires
        0 <= i < kids.len(),
    ensures
        kids.subrange(i, kids.len() as int)[0] == kids[i],
        kids.subrange(i, kids.len() as int).drop_first() == kids.subrange(i + 1, kids.len() as int),
        restore_error(gens, kids[i], depth) is None ==> kids_error(
            gens,
            kids.subrange(i, kids.len() as int),
            depth,
        ) == kids_error(gens, kids.subrange(i + 1, kids.len() as int), depth),
        restore_error(gens, kids[i], depth) is Some ==> kids_error(
            gens,
            kids.subrange(i, kids.len() as int),
            depth,
        ) == restore_error(gens, kids[i], depth),
{
    assert(kids.subrange(i, kids.len() as int).drop_first() =~= kids.subrange(i + 1, kids.len() as int));
}

proof fn lemma_kids_ok(gens: Seq<Map<Seq<u8>, Seq<u8>>>, kids: Seq<Seq<u8>>, depth: nat)
    requires
        forall|i: int| 0 <= i < kids.len() ==> restore_error(gens, #[trigger] kids[i], depth) is None,
    ensures
        kids_error(gens, kids, depth) is None,
    decreases kids.len(),
{
    if kids.len() > 0 {
        let rest = kids.drop_first();
        assert forall|i: int| 0 <= i < rest.len() implies restore_error(gens, #[trigger] rest[i], depth)
            is None by {
            assert(rest[i] == kids[i + 1]);
        }
        lemma_kids_ok(gens, rest, depth);
        assert(restore_error(gens, kids[0], depth) is None);
    }
}

/// Round trip: where a read of the digest of every part of `v` finds that
/// part's bytes, and `v` nests no deeper than the budget, restoring the digest
/// of `v` succeeds, and what it reads is `v`.
pub proof fn lemma_round_trip(gens: Seq<Map<Seq<u8>, Seq<u8>>>, v: Value, depth: nat)
    requires
        holds(gens, v),
        fits(v, depth),
    ensures
        restore_error(gens, value_digest(v), depth) is None,
        forall|w: Value| #[trigger] decodes(gens, value_digest(v), w) ==> same_value(w, v),
    decreases v,
{
    let kids = child_digests(v);
    assert(all_digests(kids)) by {
        assert forall|i: int| 0 <= i < kids.len() implies (#[trigger] kids[i]).len() == DIGEST_LEN by {
            assert(holds(gens, v.children[i]));
        }
    }
    lemma_parse_encode(kids, v.data@);
    if v.children@.len() > 0 {
        let dd = (depth - 1) as nat;
        assert forall|i: int| 0 <= i < kids.len() implies restore_error(gens, #[trigger] kids[i], dd)
            is None by {
            assert(fits(v.children[i], dd));
            lemma_round_trip(gens, v.children[i], dd);
        }
        lemma_kids_ok(gens, kids, dd);
    }
    assert forall|w: Value| #[trigger] decodes(gens, value_digest(v), w) implies same_value(w, v) by {
        assert forall|i: int| 0 <= i < w.children@.len() implies same_value(
            #[trigger] w.children[i],
            v.children[i],
        ) by {
            let dd = (depth - 1) as nat;
            assert(decodes(gens, kids[i], w.children[i]));
            assert(fits(v.children[i], dd));
            lemma_round_trip(gens, v.children[i], dd);
        }
    }
}

/// Values with the same bytes and the same children, recursively, have the
/// same digest, however and whenever each was built.
pub proof fn lemma_same_digest(a: Value, b: Value)
    requires
        same_value(a, b),
    ensures
        value_digest(a) == value_digest(b),
        value_bytes(a) == value_bytes(b),
    decreases a,
{
    assert forall|i: int| 0 <= i < a.children@.len() implies value_digest(#[trigger] a.children[i])
        == value_digest(b.children[i]) by {
        lemma_same_digest(a.children[i], b.children[i]);
    }
    assert(child_digests(a) =~= child_digests(b));
}

/// Dedup: once `a` is persisted, every part of a value structurally equal to
/// `a` is already held, so persisting that value writes nothing.
pub proof fn lemma_dedup(gens: Seq<Map<Seq<u8>, Seq<u8>>>, a: Value, b: Value)
    requires
        same_value(a, b),
        present(gens, a),
    ensures
        present(gens, b),
        value_digest(a) == value_digest(b),
    decreases a,
{
    lemma_same_digest(a, b);
    assert forall|i: int| 0 <= i < b.children@.len() implies present(gens, #[trigger] b.children[i]) by {
        assert(present(gens, a.children[i]));
        lemma_dedup(gens, a.children[i], b.children[i]);
    }
}

/// Tiers that hold nothing agree with every map; so, from a fresh store,
/// persisting a value whose parts do not collide makes it restorable.
pub proof fn lemma_empty_agrees(gens: Seq<Map<Seq<u8>, Seq<u8>>>, m: Map<Seq<u8>, Seq<u8>>)
    requires
        forall|i: int| 0 <= i < gens.len() ==> #[trigger] gens[i] == Map::<Seq<u8>, Seq<u8>>::empty(),
    ensures
        agrees(gens, m),
{
    assert forall|k: Seq<u8>| #[trigger] first_hit(gens, k) is None by {
        assert forall|i: int| !hit_at(gens, k, i) by {
            if 0 <= i < gens.len() {
                assert(gens[i] == Map::<Seq<u8>, Seq<u8>>::empty());
            }
        }
    }
}

/// A restore of a digest that no tier holds fails with `NotFound`, whatever
/// the budget.
pub proof fn lemma_miss(gens: Seq<Map<Seq<u8>, Seq<u8>>>, d: Seq<u8>, depth: nat)
    requires
        first_hit(gens, d) is None,
    ensures
        restore_error(gens, d, depth) == Some(StoreError::NotFound),
{
}

/// What a put of `d` with `b` does to the tiers: nothing where some tier
/// holds `d`, else `d` goes to the newest tier.
pub open spec fn put_effect(
    g0: Seq<Map<Seq<u8>, Seq<u8>>>,
    g1: Seq<Map<Seq<u8>, Seq<u8>>>,
    d: Seq<u8>,
    b: Seq<u8>,
) -> bool {
    if first_hit(g0, d) is Some {
        g1 == g0
    } else {
        g1 == g0.update(0, g0[0].insert(d, b))
    }
}

impl Store {
    /// Closes a node: stores its bytes under their digest and returns the
    /// snapshot of that digest.
    pub fn fin(&mut self, sink: Sink) -> (r: Snapshot)
        requires
            old(self).wf(),
        ensures
            final(self).wf(),
            r@ == blake2b_of(encode_node(sink@.0, sink@.1)),
            put_effect(
                old(self).generations(),
                final(self).generations(),
                r@,
                encode_node(sink@.0, sink@.1),
            ),
    {
        let bytes = encode(&sink.children, &sink.data);
        let digest = digest_bytes(bytes.as_slice());
        let _ = self.put(digest, bytes);
        Snapshot { digest }
    }

    /// Persists `v`: each child first, in order, then the root node, whose
    /// bytes hold the children's digests. Returns the snapshot of the root.
    pub fn persist(&mut self, v: &Value) -> (r: Snapshot)
        requires
            old(self).wf(),
        ensures
            final(self).wf(),
            r@ == value_digest(*v),
            grows(old(self).generations(), final(self).generations()),
            present(final(self).generations(), *v),
            present(old(self).generations(), *v) ==> final(self).generations() == old(
                self,
            ).generations(),
            forall|m: Map<Seq<u8>, Seq<u8>>|
                agrees(old(self).generations(), m) && #[trigger] covers(m, *v) ==> agrees(
                    final(self).generations(),
                    m,
                ) && holds(final(self).generations(), *v),
        decreases v,
    {
        let ghost g0 = self.generations();
        let mut sink = Sink::new();
        let n = v.children.len();
        let mut i: usize = 0;
        while i < n
            invariant
                self.wf(),
                n == v.children@.len(),
                i <= n,
                grows(g0, self.generations()),
                sink@ == (child_digests(*v).subrange(0, i as int), Seq::<u8>::empty()),
                forall|j: int| 0 <= j < i ==> present(self.generations(), #[trigger] v.children[j]),
                present(g0, *v) ==> self.generations() == g0,
                forall|m: Map<Seq<u8>, Seq<u8>>|
                    agrees(g0, m) && #[trigger] covers(m, *v) ==> agrees(self.generations(), m)
                        && forall|j: int| 0 <= j < i ==> holds(self.generations(), #[trigger] v.children[j]),
            decreases n - i,
        {
            let ghost g1 = self.generations();
            let s = self.persist(&v.children[i]);
            sink.embed(&s);
            proof {
                let g2 = self.generations();
                assert(sink@.0 =~= child_digests(*v).subrange(0, i + 1));
                assert forall|j: int| 0 <= j <= i implies present(g2, #[trigger] v.children[j]) by {
                    if j < i {
                        lemma_present_grows(g1, g2, v.children[j]);
                    }
                }
                assert forall|m: Map<Seq<u8>, Seq<u8>>|
                    agrees(g0, m) && #[trigger] covers(m, *v) implies agrees(g2, m) && forall|j: int|
                        0 <= j <= i ==> holds(g2, #[trigger] v.children[j]) by {
                    assert(covers(m, v.children[i as int]));
                    assert forall|j: int| 0 <= j <= i implies holds(g2, #[trigger] v.children[j]) by {
                        if j < i {
                            lemma_holds_grows(g1, g2, v.children[j]);
                        }
                    }
                }
            }
            i = i + 1;
        }
        sink.write(v.data.as_slice());
        let ghost g1 = self.generations();
        proof {
            assert(child_digests(*v).subrange(0, n as int) =~= child_digests(*v));
            self.lemma_generations_len();
        }
        let r = self.fin(sink);
        proof {
            let g2 = self.generations();
            let d = value_digest(*v);
            lemma_put_effect(g1, g2, d, value_bytes(*v));
            assert forall|j: int| 0 <= j < n implies present(g2, #[trigger] v.children[j]) by {
                lemma_present_grows(g1, g2, v.children[j]);
            }
            if present(g0, *v) {
                assert(first_hit(g1, d) is Some);
            }
            assert forall|m: Map<Seq<u8>, Seq<u8>>|
                agrees(g0, m) && #[trigger] covers(m, *v) implies agrees(g2, m) && holds(g2, *v) by {
                assert forall|j: int| 0 <= j < n implies holds(g2, #[trigger] v.children[j]) by {
                    lemma_holds_grows(g1, g2, v.children[j]);
                }
                assert forall|k: Seq<u8>|
                    m.contains_key(k) && (#[trigger] first_hit(g2, k)) is Some implies first_hit(g2, k)
                        == Some(m[k]) by {
                    if k != d {
                        assert(first_hit(g2, k) == first_hit(g1, k));
                    }
                }
            }
        }
        r
    }

    /// Restores the value whose root is stored under the snapshot's digest,
    /// following at most `depth` levels of children.
    pub fn restore_within(&mut self, snap: &Snapshot, depth: usize) -> (r: Result<Value, StoreError>)
        requires
            old(self).wf(),
        ensures
            final(self).wf(),
            final(self).generations() == old(self).generations(),
            r is Ok <==> restore_error(old(self).generations(), snap@, depth as nat) is None,
            r matches Err(e) ==> restore_error(old(self).generations(), snap@, depth as nat) == Some(e),
            r matches Ok(w) ==> decodes(old(self).generations(), snap@, w),
        decreases depth,
    {
        let ghost gens = self.generations();
        let src = match self.open(snap) {
            Err(e) => {
                return Err(e);
            },
            Ok(s) => s,
        };
        let ghost kids = src@.0;
        let n = src.child_count();
        if n > 0 && depth == 0 {
            return Err(StoreError::Decode);
        }
        let mut children: Vec<Value> = Vec::new();
        let mut i: usize = 0;
        proof {
            assert(kids.subrange(0, n as int) =~= kids);
        }
        while i < n
            invariant
                self.wf(),
                self.generations() == gens,
                gens == old(self).generations(),
                first_hit(gens, snap@) matches Some(b) && parse_node(b) == Some(src@),
                n == kids.len(),
                kids == src@.0,
                i <= n,
                n > 0 ==> depth > 0,
                children@.len() == i,
                n > 0 ==> kids_error(gens, kids, (depth - 1) as nat) == kids_error(
                    gens,
                    kids.subrange(i as int, n as int),
                    (depth - 1) as nat,
                ),
                forall|j: int| 0 <= j < i ==> decodes(gens, kids[j], #[trigger] children@[j]),
            decreases n - i,
        {
            let c = src.child(i);
            proof {
                lemma_kids_error_step(gens, kids, i as int, (depth - 1) as nat);
            }
            match self.restore_within(&c, depth - 1) {
                Err(e) => {
                    return Err(e);
                },
                Ok(w) => {
                    children.push(w);
                },
            }
            i = i + 1;
        }
        let data = copy_bytes(src.data());
        let r = Value { data, children };
        proof {
            assert forall|j: int| 0 <= j < r.children@.len() implies decodes(
                gens,
                kids[j],
                #[trigger] r.children[j],
            ) by {
                assert(r.children[j] == children@[j]);
            }
            if n > 0 {
                assert(kids.subrange(n as int, n as int).len() == 0);
            }
        }
        Ok(r)
    }

    /// Restores the value whose root is stored under `hash`, following at
    /// most the default nesting budget of children.
    pub fn get_hash(&mut self, hash: &Digest) -> (r: Result<Value, StoreError>)
        requires
            old(self).wf(),
        ensures
            final(self).wf(),
            final(self).generations() == old(self).generations(),
            r is Ok <==> restore_error(old(self).generations(), hash@, MAX_DEPTH as nat) is None,
            r matches Err(e) ==> restore_error(old(self).generations(), hash@, MAX_DEPTH as nat) == Some(e),
            r matches Ok(w) ==> decodes(old(self).generations(), hash@, w),
    {
        self.restore_within(&Snapshot::new(*hash), MAX_DEPTH)
    }

    /// Restores the value of a snapshot, following at most the default
    /// nesting budget of children.
    pub fn restore(&mut self, snap: &Snapshot) -> (r: Result<Value, StoreError>)
        requires
            old(self).wf(),
        ensures
            final(self).wf(),
            final(self).generations() == old(self).generations(),
            r is Ok <==> restore_error(old(self).generations(), snap@, MAX_DEPTH as nat) is None,
            r matches Err(e) ==> restore_error(old(self).generations(), snap@, MAX_DEPTH as nat) == Some(e),
            r matches Ok(w) ==> decodes(old(self).generations(), snap@, w),
    {
        self.restore_within(snap, MAX_DEPTH)
    }

    /// Opens the node stored under the snapshot's digest for reading.
    pub fn open(&mut self, snap: &Snapshot) -> (r: Result<Source, StoreError>)
        requires
            old(self).wf(),
        ensures
            final(self).wf(),
            final(self).generations() == old(self).generations(),
            first_hit(old(self).generations(), snap@) is None <==> r == Err::<Source, StoreError>(
                StoreError::NotFound,
            ),
            r matches Err(e) ==> e == StoreError::NotFound || (first_hit(
                old(self).generations(),
                snap@,
            ) matches Some(b) && parse_node(b) is None),
            r matches Ok(s) ==> (first_hit(old(self).generations(), snap@) matches Some(b)
                && parse_node(b) == Some(s@)),
            (first_hit(old(self).generations(), snap@) matches Some(b) && parse_node(b) is Some)
                ==> r is Ok,
    {
        match self.get_bytes(&snap.digest) {
            None => Err(StoreError::NotFound),
            Some(b) => match decode(&b) {
                None => Err(StoreError::Decode),
                Some((children, data)) => Ok(Source { children, data }),
            },
        }
    }
}

} // verus!
