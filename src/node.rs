//! The layout of a stored node: the digests of its children, each behind a
//! 1 byte, then a 0 byte, then the node's own bytes.
use crate::digest::{Digest, DIGEST_LEN};
use vstd::prelude::*;

verus! {

/// Marks a child digest.
pub const CHILD_TAG: u8 = 1;

/// Ends the child digests; the node's own bytes follow.
pub const DATA_TAG: u8 = 0;

/// The views of a sequence of digests.
pub open spec fn digest_views(s: Seq<Digest>) -> Seq<Seq<u8>> {
    s.map_values(|d: Digest| d@)
}

/// The tagged child digests.
pub open spec fn child_prefix(kids: Seq<Seq<u8>>) -> Seq<u8>
    decreases kids.len(),
{
    if kids.len() == 0 {
        Seq::empty()
    } else {
        child_prefix(kids.drop_last()) + seq![CHILD_TAG] + kids.last()
    }
}

/// The bytes of a node with these child digests and own bytes.
pub open spec fn encode_node(kids: Seq<Seq<u8>>, data: Seq<u8>) -> Seq<u8> {
    child_prefix(kids) + seq![DATA_TAG] + data
}

/// Reads a node's child digests and own bytes, or `None` where the bytes do
/// not have the layout.
pub open spec fn parse_node(s: Seq<u8>) -> Option<(Seq<Seq<u8>>, Seq<u8>)>
    decreases s.len(),
{
    if s.len() == 0 {
        None
    } else if s[0] == DATA_TAG {
        Some((Seq::empty(), s.drop_first()))
    } else if s[0] == CHILD_TAG && s.len() >= 1 + DIGEST_LEN {
        match parse_node(s.subrange(1 + DIGEST_LEN, s.len() as int)) {
            Some((ks, d)) => Some((seq![s.subrange(1, 1 + DIGEST_LEN)] + ks, d)),
            None => None,
        }
    } else {
        None
    }
}

/// Every digest has the digest length.
pub open spec fn all_digests(kids: Seq<Seq<u8>>) -> bool {
    forall|i: int| 0 <= i < kids.len() ==> (#[trigger] kids[i]).len() == DIGEST_LEN
}

proof fn lemma_child_prefix_front(kids: Seq<Seq<u8>>)
    requires
        kids.len() > 0,
    ensures
        child_prefix(kids) == seq![CHILD_TAG] + kids[0] + child_prefix(kids.drop_first()),
    decreases kids.len(),
{
    if kids.len() > 1 {
        lemma_child_prefix_front(kids.drop_last());
        assert(kids.drop_last().drop_first() =~= kids.drop_first().drop_last());
        assert(kids.drop_first().last() == kids.last());
        assert(child_prefix(kids) =~= seq![CHILD_TAG] + kids[0] + child_prefix(kids.drop_first()));
    } else {
        assert(kids.drop_last() =~= Seq::<Seq<u8>>::empty());
        assert(kids.drop_first() =~= Seq::<Seq<u8>>::empty());
        assert(child_prefix(kids) =~= seq![CHILD_TAG] + kids[0] + child_prefix(kids.drop_first()));
    }
}

/// Reading the bytes of a node gives back its child digests and own bytes.
pub proof fn lemma_parse_encode(kids: Seq<Seq<u8>>, data: Seq<u8>)
    requires
        all_digests(kids),
    ensures
        parse_node(encode_node(kids, data)) == Some((kids, data)),
    decreases kids.len(),
{
    let s = encode_node(kids, data);
    if kids.len() == 0 {
        assert(s =~= seq![DATA_TAG] + data);
        assert(s.drop_first() =~= data);
    } else {
        lemma_child_prefix_front(kids);
        let rest = kids.drop_first();
        assert(all_digests(rest)) by {
            assert forall|i: int| 0 <= i < rest.len() implies (#[trigger] rest[i]).len()
                == DIGEST_LEN by {
                assert(rest[i] == kids[i + 1]);
            }
        }
        lemma_parse_encode(rest, data);
        assert(kids[0].len() == DIGEST_LEN);
        assert(s =~= seq![CHILD_TAG] + kids[0] + encode_node(rest, data));
        assert(s.subrange(1 + DIGEST_LEN, s.len() as int) =~= encode_node(rest, data));
        assert(s.subrange(1, 1 + DIGEST_LEN) =~= kids[0]);
        assert(seq![kids[0]] + rest =~= kids);
    }
}

/// The bytes of a node with these child digests and own bytes.
pub fn encode(children: &Vec<Digest>, data: &Vec<u8>) -> (r: Vec<u8>)
    ensures
        r@ == encode_node(digest_views(children@), data@),
{
    let ghost kids = digest_views(children@);
    let mut out: Vec<u8> = Vec::new();
    let mut i: usize = 0;
    while i < children.len()
        invariant
            i <= children@.len(),
            kids == digest_views(children@),
            out@ == child_prefix(kids.subrange(0, i as int)),
        decreases children@.len() - i,
    {
        out.push(CHILD_TAG);
        let d = &children[i];
        let mut j: usize = 0;
        let ghost start = out@;
        while j < DIGEST_LEN
            invariant
                j <= DIGEST_LEN,
                d@.len() == DIGEST_LEN,
                out@ == start + d@.subrange(0, j as int),
            decreases DIGEST_LEN - j,
        {
            out.push(d[j]);
            j = j + 1;
            assert(out@ =~= start + d@.subrange(0, j as int));
        }
        i = i + 1;
        proof {
            let ks = kids.subrange(0, i as int);
            assert(ks.drop_last() =~= kids.subrange(0, i - 1));
            assert(ks.last() == d@);
            assert(d@.subrange(0, DIGEST_LEN as int) =~= d@);
            assert(out@ =~= child_prefix(ks));
        }
    }
    assert(kids.subrange(0, children@.len() as int) =~= kids);
    out.push(DATA_TAG);
    let mut k: usize = 0;
    let ghost mid = out@;
    while k < data.len()
        invariant
            k <= data@.len(),
            out@ == mid + data@.subrange(0, k as int),
        decreases data@.len() - k,
    {
        out.push(data[k]);
        k = k + 1;
        assert(out@ =~= mid + data@.subrange(0, k as int));
    }
    assert(data@.subrange(0, data@.len() as int) =~= data@);
    assert(out@ =~= encode_node(kids, data@));
    out
}

/// What the parse of `rest` gives, behind the digests `front`.
pub open spec fn behind(
    front: Seq<Seq<u8>>,
    rest: Option<(Seq<Seq<u8>>, Seq<u8>)>,
) -> Option<(Seq<Seq<u8>>, Seq<u8>)> {
    match rest {
        Some((ks, d)) => Some((front + ks, d)),
        None => None,
    }
}

/// Reads a node's child digests and own bytes; `None` where the bytes do not
/// have the layout.
pub fn decode(bytes: &Vec<u8>) -> (r: Option<(Vec<Digest>, Vec<u8>)>)
    ensures
        r is None <==> parse_node(bytes@) is None,
        r matches Some((ks, d)) ==> parse_node(bytes@) == Some((digest_views(ks@), d@)),
{
    let ghost b = bytes@;
    let mut kids: Vec<Digest> = Vec::new();
    let mut p: usize = 0;
    proof {
        assert(b.subrange(0, b.len() as int) =~= b);
        assert(digest_views(kids@) =~= Seq::<Seq<u8>>::empty());
        if let Some((ks, dd)) = parse_node(b) {
            assert(Seq::<Seq<u8>>::empty() + ks =~= ks);
        }
    }
    while p < bytes.len() && bytes[p] == CHILD_TAG && bytes.len() - p >= 1 + DIGEST_LEN
        invariant
            p <= b.len(),
            b == bytes@,
            parse_node(b) == behind(digest_views(kids@), parse_node(b.subrange(p as int, b.len() as int))),
        decreases b.len() - p,
    {
        let ghost t = b.subrange(p as int, b.len() as int);
        let mut d: Digest = [0u8; 32];
        let mut j: usize = 0;
        while j < DIGEST_LEN
            invariant
                j <= DIGEST_LEN,
                p + 1 + DIGEST_LEN <= b.len(),
                b.len() <= usize::MAX,
                b == bytes@,
                d@.len() == DIGEST_LEN,
                forall|k: int| 0 <= k < j ==> d@[k] == b[p + 1 + k],
            decreases DIGEST_LEN - j,
        {
            d[j] = bytes[p + 1 + j];
            j = j + 1;
        }
        let ghost old_kids = kids@;
        kids.push(d);
        p = p + 1 + DIGEST_LEN;
        proof {
            assert(d@ =~= t.subrange(1, 1 + DIGEST_LEN));
            assert(t.subrange(1 + DIGEST_LEN, t.len() as int) =~= b.subrange(p as int, b.len() as int));
            assert(digest_views(kids@) =~= digest_views(old_kids) + seq![d@]);
            let tail = parse_node(b.subrange(p as int, b.len() as int));
            if let Some((ks, dd)) = tail {
                assert(digest_views(old_kids) + (seq![d@] + ks) =~= digest_views(kids@) + ks);
            }
        }
    }
    let ghost t = b.subrange(p as int, b.len() as int);
    if p < bytes.len() && bytes[p] == DATA_TAG {
        let mut data: Vec<u8> = Vec::new();
        let mut k: usize = p + 1;
        while k < bytes.len()
            invariant
                p < k <= b.len(),
                b == bytes@,
                data@ == b.subrange(p + 1, k as int),
            decreases b.len() - k,
        {
            data.push(bytes[k]);
            k = k + 1;
            assert(data@ =~= b.subrange(p + 1, k as int));
        }
        proof {
            assert(t.drop_first() =~= data@);
            assert(digest_views(kids@) + Seq::<Seq<u8>>::empty() =~= digest_views(kids@));
        }
        Some((kids, data))
    } else {
        None
    }
}

} // verus!
