//! The byte format of a stored postings list: what `bincode::serialize`
//! writes for a list of `(document id, word position)` pairs, that is the
//! list's length as a little-endian `u64`, then each pair as two
//! little-endian 64-bit integers.
use vstd::bytes::*;
use vstd::prelude::*;

verus! {

/// One `(document id, word position)` pair as eight little-endian bytes each.
pub open spec fn posting_bytes(p: (i64, i64)) -> Seq<u8> {
    spec_u64_to_le_bytes(p.0 as u64) + spec_u64_to_le_bytes(p.1 as u64)
}

/// The pairs of `v` one after the other.
pub open spec fn entries_bytes(v: Seq<(i64, i64)>) -> Seq<u8>
    decreases v.len(),
{
    if v.len() == 0 {
        Seq::<u8>::empty()
    } else {
        posting_bytes(v[0]) + entries_bytes(v.drop_first())
    }
}

/// The encoding of a postings list: its length, then its pairs.
pub open spec fn postings_bytes(v: Seq<(i64, i64)>) -> Seq<u8> {
    spec_u64_to_le_bytes(v.len() as u64) + entries_bytes(v)
}

/// `b` begins with the encoding of `v` (reading `b` gives `v`; what follows
/// the encoding is not read).
pub open spec fn encodes(b: Seq<u8>, v: Seq<(i64, i64)>) -> bool {
    v.len() <= u64::MAX && postings_bytes(v).is_prefix_of(b)
}

/// `b` begins with the encoding of some postings list.
pub open spec fn is_postings(b: Seq<u8>) -> bool {
    exists|v: Seq<(i64, i64)>| #[trigger] encodes(b, v)
}

/// The postings list that `b` begins with (meaningful when
/// `is_postings(b)`).
pub open spec fn decoded(b: Seq<u8>) -> Seq<(i64, i64)> {
    choose|v: Seq<(i64, i64)>| #[trigger] encodes(b, v)
}

#[verifier::external_type_specification]
#[verifier::external_body]
pub struct ExBincodeErrorKind(bincode::ErrorKind);

/// `bincode::serialize` on a list of pairs of `i64`, with bincode's default
/// configuration: fixed-width little-endian integers, the list's length first
/// as a `u64`, no size limit. Claimed: it succeeds (it writes into a `Vec`
/// with no limit, and every part of the value has a known length) and gives
/// `postings_bytes` of the list.
#[verifier::external_body]
pub(crate) fn serialize_postings(v: &Vec<(i64, i64)>) -> (r: Result<Vec<u8>, Box<bincode::ErrorKind>>)
    ensures
        r is Ok,
        r matches Ok(b) ==> b@ == postings_bytes(v@),
{
    bincode::serialize(v)
}

/// `bincode::deserialize` into a list of pairs of `i64`, with bincode's
/// default configuration, which accepts trailing bytes. Claimed: a list is
/// returned only when `b` begins with its encoding, and one is returned
/// whenever `b` begins with the encoding of some list. What error comes back
/// otherwise is not stated.
#[verifier::external_body]
pub(crate) fn deserialize_postings(b: &[u8]) -> (r: Result<Vec<(i64, i64)>, Box<bincode::ErrorKind>>)
    ensures
        r matches Ok(v) ==> postings_bytes(v@).is_prefix_of(b@),
        (exists|v: Seq<(i64, i64)>| v.len() <= u64::MAX && #[trigger] postings_bytes(v).is_prefix_of(b@))
            ==> r is Ok,
{
    bincode::deserialize(b)
}

/// Each pair takes sixteen bytes.
pub proof fn lemma_entries_len(v: Seq<(i64, i64)>)
    ensures
        entries_bytes(v).len() == 16 * v.len(),
    decreases v.len(),
{
    lemma_auto_spec_u64_to_from_le_bytes();
    if v.len() > 0 {
        lemma_entries_len(v.drop_first());
    }
}

proof fn lemma_i64_as_u64_injective(a: i64, b: i64)
    requires
        a as u64 == b as u64,
    ensures
        a == b,
{
    assert(a as u64 == b as u64 ==> a == b) by (bit_vector);
}

proof fn lemma_entries_injective(v: Seq<(i64, i64)>, w: Seq<(i64, i64)>)
    requires
        v.len() == w.len(),
        entries_bytes(v) == entries_bytes(w),
    ensures
        v == w,
    decreases v.len(),
{
    lemma_auto_spec_u64_to_from_le_bytes();
    if v.len() > 0 {
        let ev = entries_bytes(v);
        let ew = entries_bytes(w);
        lemma_entries_len(v.drop_first());
        lemma_entries_len(w.drop_first());
        let a0 = spec_u64_to_le_bytes(v[0].0 as u64);
        let a1 = spec_u64_to_le_bytes(v[0].1 as u64);
        let b0 = spec_u64_to_le_bytes(w[0].0 as u64);
        let b1 = spec_u64_to_le_bytes(w[0].1 as u64);
        assert(ev =~= a0 + a1 + entries_bytes(v.drop_first()));
        assert(ew =~= b0 + b1 + entries_bytes(w.drop_first()));
        assert(a0 =~= ev.subrange(0, 8));
        assert(b0 =~= ew.subrange(0, 8));
        assert(a1 =~= ev.subrange(8, 16));
        assert(b1 =~= ew.subrange(8, 16));
        assert(entries_bytes(v.drop_first()) =~= ev.subrange(16, ev.len() as int));
        assert(entries_bytes(w.drop_first()) =~= ew.subrange(16, ew.len() as int));
        assert(spec_u64_from_le_bytes(a0) == v[0].0 as u64);
        assert(spec_u64_from_le_bytes(b0) == w[0].0 as u64);
        assert(spec_u64_from_le_bytes(a1) == v[0].1 as u64);
        assert(spec_u64_from_le_bytes(b1) == w[0].1 as u64);
        lemma_i64_as_u64_injective(v[0].0, w[0].0);
        lemma_i64_as_u64_injective(v[0].1, w[0].1);
        lemma_entries_injective(v.drop_first(), w.drop_first());
        assert(v =~= seq![v[0]] + v.drop_first());
        assert(w =~= seq![w[0]] + w.drop_first());
    }
}

/// Two lists whose encodings both begin `b` are the same list: the format is
/// prefix-free and one-to-one.
pub proof fn lemma_postings_prefix_unique(b: Seq<u8>, v: Seq<(i64, i64)>, w: Seq<(i64, i64)>)
    requires
        v.len() <= u64::MAX,
        w.len() <= u64::MAX,
        postings_bytes(v).is_prefix_of(b),
        postings_bytes(w).is_prefix_of(b),
    ensures
        v == w,
{
    lemma_auto_spec_u64_to_from_le_bytes();
    lemma_entries_len(v);
    lemma_entries_len(w);
    let pv = postings_bytes(v);
    let pw = postings_bytes(w);
    assert(spec_u64_to_le_bytes(v.len() as u64) =~= pv.subrange(0, 8));
    assert(spec_u64_to_le_bytes(w.len() as u64) =~= pw.subrange(0, 8));
    assert(pv.subrange(0, 8) =~= b.subrange(0, 8));
    assert(pw.subrange(0, 8) =~= b.subrange(0, 8));
    assert(v.len() as u64 == w.len() as u64);
    assert(v.len() == w.len());
    assert(pv =~= pw);
    assert(entries_bytes(v) =~= pv.subrange(8, pv.len() as int));
    assert(entries_bytes(w) =~= pw.subrange(8, pw.len() as int));
    lemma_entries_injective(v, w);
}

/// Encoding a list and reading it back gives the list.
pub proof fn lemma_decoded_encoding(v: Seq<(i64, i64)>)
    requires
        v.len() <= u64::MAX,
    ensures
        is_postings(postings_bytes(v)),
        decoded(postings_bytes(v)) == v,
{
    let b = postings_bytes(v);
    assert(b.is_prefix_of(b));
    assert(encodes(b, v));
    let w = decoded(b);
    assert(encodes(b, w));
    lemma_postings_prefix_unique(b, v, w);
}

/// A list whose encoding begins an encoded list is that list.
pub proof fn lemma_prefix_of_postings(b: Seq<u8>, w: Seq<(i64, i64)>)
    requires
        is_postings(b),
        w.len() <= u64::MAX,
        postings_bytes(w).is_prefix_of(b),
    ensures
        w == decoded(b),
{
    let v = decoded(b);
    assert(encodes(b, v));
    lemma_postings_prefix_unique(b, v, w);
}

} // verus!
