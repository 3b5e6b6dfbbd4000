use vstd::prelude::*;
use crate::index::{
    find_term, index_wf, posting_before, postings_wf, u32_sorted, Index,
};
use crate::schema::Schema;
use crate::types::{DocMeta, Posting, SearchError, TermEntry};

verus! {

/// Magic number opening every serialized index artifact.
pub const INDEX_MAGIC: u32 = 0x78646931;

/// Little-endian encoding of a 32-bit value.
pub open spec fn enc_u32(x: u32) -> Seq<u8> {
    seq![
        (x % 256) as u8,
        ((x / 256) % 256) as u8,
        ((x / 0x10000) % 256) as u8,
        ((x / 0x1000000) % 256) as u8,
    ]
}

/// Little-endian encoding of a 64-bit value, low half first.
pub open spec fn enc_u64(x: u64) -> Seq<u8> {
    enc_u32((x % 0x100000000) as u32) + enc_u32((x / 0x100000000) as u32)
}

/// A length-prefixed byte string.
pub open spec fn enc_bytes(b: Seq<u8>) -> Seq<u8> {
    enc_u32(b.len() as u32) + b
}

pub open spec fn enc_positions(ps: Seq<u32>) -> Seq<u8>
    decreases ps.len(),
{
    if ps.len() == 0 {
        Seq::empty()
    } else {
        enc_positions(ps.drop_last()) + enc_u32(ps.last())
    }
}

pub open spec fn enc_posting(p: Posting) -> Seq<u8> {
    enc_u32(p.field) + enc_u32(p.doc) + enc_u32(p.positions@.len() as u32) + enc_positions(
        p.positions@,
    )
}

pub open spec fn enc_postings(ps: Seq<Posting>) -> Seq<u8>
    decreases ps.len(),
{
    if ps.len() == 0 {
        Seq::empty()
    } else {
        enc_postings(ps.drop_last()) + enc_posting(ps.last())
    }
}

pub open spec fn enc_term(t: TermEntry) -> Seq<u8> {
    enc_bytes(t.term@) + enc_u32(t.postings@.len() as u32) + enc_postings(t.postings@)
}

pub open spec fn enc_terms(ts: Seq<TermEntry>) -> Seq<u8>
    decreases ts.len(),
{
    if ts.len() == 0 {
        Seq::empty()
    } else {
        enc_terms(ts.drop_last()) + enc_term(ts.last())
    }
}

pub open spec fn enc_doc(d: DocMeta) -> Seq<u8> {
    enc_u32(d.id) + enc_u32(d.boost) + enc_bytes(d.title@)
}

pub open spec fn enc_docs(ds: Seq<DocMeta>) -> Seq<u8>
    decreases ds.len(),
{
    if ds.len() == 0 {
        Seq::empty()
    } else {
        enc_docs(ds.drop_last()) + enc_doc(ds.last())
    }
}

/// The versioned binary layout of an index artifact: magic, schema
/// fingerprint, document table, term dictionary, each section
/// length-prefixed for sequential deserialization.
pub open spec fn spec_encode(ix: Index) -> Seq<u8> {
    enc_u32(INDEX_MAGIC) + enc_u64(ix.fingerprint) + enc_u32(ix.docs@.len() as u32) + enc_docs(
        ix.docs@,
    ) + enc_u32(ix.terms@.len() as u32) + enc_terms(ix.terms@)
}

/// Whether the index's sections are small enough for their 32-bit
/// length prefixes.
pub open spec fn spec_encodable(ix: Index) -> bool {
    &&& ix.docs@.len() <= u32::MAX
    &&& ix.terms@.len() <= u32::MAX
    &&& forall|i: int| 0 <= i < ix.docs@.len() ==> (#[trigger] ix.docs@[i]).title@.len() <= u32::MAX
    &&& forall|i: int|
        0 <= i < ix.terms@.len() ==> (#[trigger] ix.terms@[i]).term@.len() <= u32::MAX
            && ix.terms@[i].postings@.len() <= u32::MAX
    &&& forall|i: int, q: int|
        0 <= i < ix.terms@.len() && 0 <= q < ix.terms@[i].postings@.len() ==> (
        #[trigger] ix.terms@[i].postings@[q]).positions@.len() <= u32::MAX
}

/// Appends the little-endian encoding of `x`.
pub fn write_u32(out: &mut Vec<u8>, x: u32)
    ensures
        final(out)@ == old(out)@ + enc_u32(x),
{
    out.push((x % 256) as u8);
    out.push(((x / 256) % 256) as u8);
    out.push(((x / 0x10000) % 256) as u8);
    out.push(((x / 0x1000000) % 256) as u8);
    proof {
        assert(out@ =~= old(out)@ + enc_u32(x));
    }
}

pub fn write_u64(out: &mut Vec<u8>, x: u64)
    ensures
        final(out)@ == old(out)@ + enc_u64(x),
{
    write_u32(out, (x % 0x100000000) as u32);
    write_u32(out, (x / 0x100000000) as u32);
    proof {
        assert(out@ =~= old(out)@ + enc_u64(x));
    }
}

pub fn write_bytes(out: &mut Vec<u8>, b: &Vec<u8>)
    requires
        b@.len() <= u32::MAX,
    ensures
        final(out)@ == old(out)@ + enc_bytes(b@),
{
    write_u32(out, b.len() as u32);
    let mut i: usize = 0;
    let ghost mid = out@;
    while i < b.len()
        invariant
            i <= b@.len(),
            out@ == mid + b@.take(i as int),
        decreases b@.len() - i,
    {
        proof {
            assert((mid + b@.take(i as int)).push(b@[i as int]) =~= mid + b@.take(i as int + 1));
        }
        out.push(b[i]);
        i = i + 1;
    }
    proof {
        assert(b@.take(i as int) =~= b@);
        assert(out@ =~= old(out)@ + enc_bytes(b@));
    }
}

/// Serializes an index into the artifact layout.
pub fn serialize(ix: &Index) -> (r: Vec<u8>)
    requires
        spec_encodable(*ix),
    ensures
        r@ == spec_encode(*ix),
{
    let mut out: Vec<u8> = Vec::new();
    proof {
        assert(Seq::<u8>::empty() + enc_u32(INDEX_MAGIC) =~= enc_u32(INDEX_MAGIC));
    }
    write_u32(&mut out, INDEX_MAGIC);
    write_u64(&mut out, ix.fingerprint);
    write_u32(&mut out, ix.docs.len() as u32);
    let ghost head = out@;
    let mut i: usize = 0;
    proof {
        assert(head + enc_docs(ix.docs@.take(0)) =~= head);
    }
    while i < ix.docs.len()
        invariant
            i <= ix.docs@.len(),
            spec_encodable(*ix),
            out@ == head + enc_docs(ix.docs@.take(i as int)),
        decreases ix.docs@.len() - i,
    {
        proof {
            assert(ix.docs@.take(i as int + 1).drop_last() =~= ix.docs@.take(i as int));
            assert(ix.docs@.take(i as int + 1).last() == ix.docs@[i as int]);
        }
        write_u32(&mut out, ix.docs[i].id);
        write_u32(&mut out, ix.docs[i].boost);
        write_bytes(&mut out, &ix.docs[i].title);
        proof {
            assert(out@ =~= head + enc_docs(ix.docs@.take(i as int + 1)));
        }
        i = i + 1;
    }
    proof {
        assert(ix.docs@.take(i as int) =~= ix.docs@);
    }
    write_u32(&mut out, ix.terms.len() as u32);
    let ghost head2 = out@;
    let mut t: usize = 0;
    proof {
        assert(head2 + enc_terms(ix.terms@.take(0)) =~= head2);
    }
    while t < ix.terms.len()
        invariant
            t <= ix.terms@.len(),
            spec_encodable(*ix),
            out@ == head2 + enc_terms(ix.terms@.take(t as int)),
        decreases ix.terms@.len() - t,
    {
        proof {
            assert(ix.terms@.take(t as int + 1).drop_last() =~= ix.terms@.take(t as int));
            assert(ix.terms@.take(t as int + 1).last() == ix.terms@[t as int]);
        }
        write_bytes(&mut out, &ix.terms[t].term);
        write_u32(&mut out, ix.terms[t].postings.len() as u32);
        let ghost head3 = out@;
        let mut q: usize = 0;
        proof {
            assert(head3 + enc_postings(ix.terms@[t as int].postings@.take(0)) =~= head3);
        }
        while q < ix.terms[t].postings.len()
            invariant
                t < ix.terms@.len(),
                q <= ix.terms@[t as int].postings@.len(),
                spec_encodable(*ix),
                out@ == head3 + enc_postings(ix.terms@[t as int].postings@.take(q as int)),
            decreases ix.terms@[t as int].postings@.len() - q,
        {
            let ghost ps = ix.terms@[t as int].postings@;
            proof {
                assert(ps.take(q as int + 1).drop_last() =~= ps.take(q as int));
                assert(ps.take(q as int + 1).last() == ps[q as int]);
            }
            write_u32(&mut out, ix.terms[t].postings[q].field);
            write_u32(&mut out, ix.terms[t].postings[q].doc);
            write_u32(&mut out, ix.terms[t].postings[q].positions.len() as u32);
            let ghost head4 = out@;
            let mut k: usize = 0;
            proof {
                assert(head4 + enc_positions(ps[q as int].positions@.take(0)) =~= head4);
            }
            while k < ix.terms[t].postings[q].positions.len()
                invariant
                    t < ix.terms@.len(),
                    q < ix.terms@[t as int].postings@.len(),
                    k <= ix.terms@[t as int].postings@[q as int].positions@.len(),
                    out@ == head4 + enc_positions(
                        ix.terms@[t as int].postings@[q as int].positions@.take(k as int),
                    ),
                decreases ix.terms@[t as int].postings@[q as int].positions@.len() - k,
            {
                let ghost pp = ix.terms@[t as int].postings@[q as int].positions@;
                proof {
                    assert(pp.take(k as int + 1).drop_last() =~= pp.take(k as int));
                    assert(pp.take(k as int + 1).last() == pp[k as int]);
                }
                write_u32(&mut out, ix.terms[t].postings[q].positions[k]);
                proof {
                    assert(out@ =~= head4 + enc_positions(pp.take(k as int + 1)));
                }
                k = k + 1;
            }
            proof {
                assert(ps[q as int].positions@.take(k as int) =~= ps[q as int].positions@);
                assert(out@ =~= head3 + enc_postings(ps.take(q as int + 1)));
            }
            q = q + 1;
        }
        proof {
            assert(ix.terms@[t as int].postings@.take(q as int) =~= ix.terms@[t as int].postings@);
            assert(out@ =~= head2 + enc_terms(ix.terms@.take(t as int + 1)));
        }
        t = t + 1;
    }
    proof {
        assert(ix.terms@.take(t as int) =~= ix.terms@);
        assert(out@ =~= spec_encode(*ix));
    }
    out
}

/// Reads a little-endian 32-bit value, returning it with the new cursor;
/// the consumed bytes are exactly its encoding.
pub fn read_u32(bytes: &Vec<u8>, pos: usize) -> (r: Option<(u32, usize)>)
    ensures
        match r {
            Some((x, p2)) => p2 == pos + 4 && p2 <= bytes@.len() && bytes@.subrange(
                pos as int,
                p2 as int,
            ) == enc_u32(x),
            None => pos + 4 > bytes@.len(),
        },
{
    if bytes.len() < 4 || pos > bytes.len() - 4 {
        return None;
    }
    let b0 = bytes[pos] as u32;
    let b1 = bytes[pos + 1] as u32;
    let b2 = bytes[pos + 2] as u32;
    let b3 = bytes[pos + 3] as u32;
    let x = b0 + b1 * 256 + b2 * 0x10000 + b3 * 0x1000000;
    proof {
        assert(x % 256 == b0 && (x / 256) % 256 == b1 && (x / 0x10000) % 256 == b2 && (x
            / 0x1000000) % 256 == b3) by (nonlinear_arith)
            requires
                b0 < 256 && b1 < 256 && b2 < 256 && b3 < 256,
                x == b0 + b1 * 256 + b2 * 0x10000 + b3 * 0x1000000,
        ;
        assert(bytes@.subrange(pos as int, pos + 4) =~= enc_u32(x));
    }
    Some((x, pos + 4))
}

pub fn read_u64(bytes: &Vec<u8>, pos: usize) -> (r: Option<(u64, usize)>)
    ensures
        match r {
            Some((x, p2)) => p2 == pos + 8 && p2 <= bytes@.len() && bytes@.subrange(
                pos as int,
                p2 as int,
            ) == enc_u64(x),
            None => pos + 8 > bytes@.len(),
        },
{
    let (lo, p1) = match read_u32(bytes, pos) {
        Some(v) => v,
        None => {
            return None;
        },
    };
    let (hi, p2) = match read_u32(bytes, p1) {
        Some(v) => v,
        None => {
            return None;
        },
    };
    let x = lo as u64 + (hi as u64) * 0x100000000;
    proof {
        assert(x % 0x100000000 == lo && x / 0x100000000 == hi) by (nonlinear_arith)
            requires
                lo < 0x100000000 && hi < 0x100000000,
                x == lo + hi * 0x100000000,
        ;
        assert(bytes@.subrange(pos as int, pos + 8) =~= enc_u64(x));
    }
    Some((x, pos + 8))
}

/// Reads a length-prefixed byte string.
pub fn read_bytes(bytes: &Vec<u8>, pos: usize) -> (r: Option<(Vec<u8>, usize)>)
    ensures
        match r {
            Some((v, p2)) => pos <= p2 <= bytes@.len() && v@.len() <= u32::MAX && bytes@.subrange(
                pos as int,
                p2 as int,
            ) == enc_bytes(v@),
            None => pos + 4 > bytes@.len() || (exists|n: u32|
                bytes@.subrange(pos as int, pos + 4) == #[trigger] enc_u32(n) && pos + 4 + n
                    > bytes@.len()),
        },
{
    let (len, p1) = match read_u32(bytes, pos) {
        Some(v) => v,
        None => {
            return None;
        },
    };
    let n = len as usize;
    let blen = bytes.len();
    if n > blen - p1 {
        proof {
            assert(bytes@.subrange(pos as int, pos + 4) == enc_u32(len) && pos + 4 + len
                > bytes@.len());
        }
        return None;
    }
    let mut v: Vec<u8> = Vec::new();
    let mut i: usize = 0;
    while i < n
        invariant
            i <= n,
            blen == bytes@.len(),
            p1 + n <= blen,
            v@ == bytes@.subrange(p1 as int, p1 + i),
        decreases n - i,
    {
        proof {
            assert(bytes@.subrange(p1 as int, p1 + i).push(bytes@[p1 + i]) =~= bytes@.subrange(
                p1 as int,
                p1 + i + 1,
            ));
        }
        v.push(bytes[p1 + i]);
        i = i + 1;
    }
    proof {
        assert(bytes@.subrange(pos as int, (p1 + n) as int) =~= enc_bytes(v@));
    }
    Some((v, p1 + n))
}


/// The encoding of the documents from position `i` on.
pub open spec fn enc_docs_from(ds: Seq<DocMeta>, i: int) -> Seq<u8>
    decreases ds.len() - i,
{
    if i < 0 || i >= ds.len() {
        Seq::empty()
    } else {
        enc_doc(ds[i]) + enc_docs_from(ds, i + 1)
    }
}

pub open spec fn enc_terms_from(ts: Seq<TermEntry>, i: int) -> Seq<u8>
    decreases ts.len() - i,
{
    if i < 0 || i >= ts.len() {
        Seq::empty()
    } else {
        enc_term(ts[i]) + enc_terms_from(ts, i + 1)
    }
}

pub open spec fn enc_postings_from(ps: Seq<Posting>, i: int) -> Seq<u8>
    decreases ps.len() - i,
{
    if i < 0 || i >= ps.len() {
        Seq::empty()
    } else {
        enc_posting(ps[i]) + enc_postings_from(ps, i + 1)
    }
}

pub open spec fn enc_positions_from(ps: Seq<u32>, i: int) -> Seq<u8>
    decreases ps.len() - i,
{
    if i < 0 || i >= ps.len() {
        Seq::empty()
    } else {
        enc_u32(ps[i]) + enc_positions_from(ps, i + 1)
    }
}

/// A list encoding splits at any point into the encoding of the prefix
/// and the encoding of the rest.
pub proof fn lemma_enc_docs_split(ds: Seq<DocMeta>, i: int)
    requires
        0 <= i <= ds.len(),
    ensures
        enc_docs(ds) == enc_docs(ds.take(i)) + enc_docs_from(ds, i),
    decreases ds.len() - i,
{
    if i == ds.len() {
        assert(ds.take(i) =~= ds);
        assert(enc_docs(ds.take(i)) + enc_docs_from(ds, i) =~= enc_docs(ds));
    } else {
        lemma_enc_docs_split(ds, i + 1);
        assert(ds.take(i + 1).drop_last() =~= ds.take(i));
        assert(ds.take(i + 1).last() == ds[i]);
        assert(enc_docs(ds.take(i)) + (enc_doc(ds[i]) + enc_docs_from(ds, i + 1)) =~= (enc_docs(
            ds.take(i),
        ) + enc_doc(ds[i])) + enc_docs_from(ds, i + 1));
    }
}

pub proof fn lemma_enc_terms_split(ts: Seq<TermEntry>, i: int)
    requires
        0 <= i <= ts.len(),
    ensures
        enc_terms(ts) == enc_terms(ts.take(i)) + enc_terms_from(ts, i),
    decreases ts.len() - i,
{
    if i == ts.len() {
        assert(ts.take(i) =~= ts);
        assert(enc_terms(ts.take(i)) + enc_terms_from(ts, i) =~= enc_terms(ts));
    } else {
        lemma_enc_terms_split(ts, i + 1);
        assert(ts.take(i + 1).drop_last() =~= ts.take(i));
        assert(ts.take(i + 1).last() == ts[i]);
        assert(enc_terms(ts.take(i)) + (enc_term(ts[i]) + enc_terms_from(ts, i + 1)) =~= (
        enc_terms(ts.take(i)) + enc_term(ts[i])) + enc_terms_from(ts, i + 1));
    }
}

pub proof fn lemma_enc_postings_split(ps: Seq<Posting>, i: int)
    requires
        0 <= i <= ps.len(),
    ensures
        enc_postings(ps) == enc_postings(ps.take(i)) + enc_postings_from(ps, i),
    decreases ps.len() - i,
{
    if i == ps.len() {
        assert(ps.take(i) =~= ps);
        assert(enc_postings(ps.take(i)) + enc_postings_from(ps, i) =~= enc_postings(ps));
    } else {
        lemma_enc_postings_split(ps, i + 1);
        assert(ps.take(i + 1).drop_last() =~= ps.take(i));
        assert(ps.take(i + 1).last() == ps[i]);
        assert(enc_postings(ps.take(i)) + (enc_posting(ps[i]) + enc_postings_from(ps, i + 1)) =~= (
        enc_postings(ps.take(i)) + enc_posting(ps[i])) + enc_postings_from(ps, i + 1));
    }
}

pub proof fn lemma_enc_positions_split(ps: Seq<u32>, i: int)
    requires
        0 <= i <= ps.len(),
    ensures
        enc_positions(ps) == enc_positions(ps.take(i)) + enc_positions_from(ps, i),
    decreases ps.len() - i,
{
    if i == ps.len() {
        assert(ps.take(i) =~= ps);
        assert(enc_positions(ps.take(i)) + enc_positions_from(ps, i) =~= enc_positions(ps));
    } else {
        lemma_enc_positions_split(ps, i + 1);
        assert(ps.take(i + 1).drop_last() =~= ps.take(i));
        assert(ps.take(i + 1).last() == ps[i]);
        assert(enc_positions(ps.take(i)) + (enc_u32(ps[i]) + enc_positions_from(ps, i + 1)) =~= (
        enc_positions(ps.take(i)) + enc_u32(ps[i])) + enc_positions_from(ps, i + 1));
    }
}

/// The four-byte encoding determines the value.
pub proof fn lemma_enc_u32_injective(a: u32, b: u32)
    requires
        enc_u32(a) == enc_u32(b),
    ensures
        a == b,
{
    assert(enc_u32(a)[0] == enc_u32(b)[0]);
    assert(enc_u32(a)[1] == enc_u32(b)[1]);
    assert(enc_u32(a)[2] == enc_u32(b)[2]);
    assert(enc_u32(a)[3] == enc_u32(b)[3]);
    assert(a == b) by (bit_vector)
        requires
            a % 256 == b % 256,
            (a / 256) % 256 == (b / 256) % 256,
            (a / 0x10000) % 256 == (b / 0x10000) % 256,
            (a / 0x1000000) % 256 == (b / 0x1000000) % 256,
    ;
}

/// The eight-byte encoding determines the value.
pub proof fn lemma_enc_u64_injective(a: u64, b: u64)
    requires
        enc_u64(a) == enc_u64(b),
    ensures
        a == b,
{
    assert(enc_u32((a % 0x100000000) as u32) =~= enc_u64(a).take(4));
    assert(enc_u32((b % 0x100000000) as u32) =~= enc_u64(b).take(4));
    assert(enc_u32((a / 0x100000000) as u32) =~= enc_u64(a).skip(4));
    assert(enc_u32((b / 0x100000000) as u32) =~= enc_u64(b).skip(4));
    lemma_enc_u32_injective((a % 0x100000000) as u32, (b % 0x100000000) as u32);
    lemma_enc_u32_injective((a / 0x100000000) as u32, (b / 0x100000000) as u32);
    assert(a == b) by (bit_vector)
        requires
            a % 0x100000000 == b % 0x100000000,
            a / 0x100000000 == b / 0x100000000,
    ;
}


/// Layout of one document record at parse position `pos`.
pub proof fn lemma_doc_layout(b: Seq<u8>, ds: Seq<DocMeta>, tail: Seq<u8>, pos: int, i: int)
    requires
        0 <= pos <= b.len(),
        0 <= i < ds.len(),
        b == b.subrange(0, pos) + enc_docs_from(ds, i) + tail,
        ds[i].title@.len() <= u32::MAX,
    ensures
        pos + 12 + ds[i].title@.len() <= b.len(),
        b.subrange(pos, pos + 4) == enc_u32(ds[i].id),
        b.subrange(pos + 4, pos + 8) == enc_u32(ds[i].boost),
        b.subrange(pos + 8, pos + 12) == enc_u32(ds[i].title@.len() as u32),
        b == b.subrange(0, pos + 12 + ds[i].title@.len()) + enc_docs_from(ds, i + 1) + tail,
{
    let d = ds[i];
    assert(b =~= b.subrange(0, pos) + enc_u32(d.id) + (enc_u32(d.boost) + (enc_u32(
        d.title@.len() as u32,
    ) + d.title@) + (enc_docs_from(ds, i + 1) + tail)));
    assert(b.subrange(pos, pos + 4) =~= enc_u32(d.id));
    assert(b.subrange(pos + 4, pos + 8) =~= enc_u32(d.boost));
    assert(b.subrange(pos + 8, pos + 12) =~= enc_u32(d.title@.len() as u32));
    assert(b =~= b.subrange(0, pos + 12 + d.title@.len()) + enc_docs_from(ds, i + 1) + tail);
}

/// Layout of one term record at parse position `pos`.
pub proof fn lemma_term_layout(b: Seq<u8>, ts: Seq<TermEntry>, pos: int, t: int)
    requires
        0 <= pos <= b.len(),
        0 <= t < ts.len(),
        b == b.subrange(0, pos) + enc_terms_from(ts, t),
        ts[t].term@.len() <= u32::MAX,
        ts[t].postings@.len() <= u32::MAX,
    ensures
        pos + 8 + ts[t].term@.len() <= b.len(),
        b.subrange(pos, pos + 4) == enc_u32(ts[t].term@.len() as u32),
        b.subrange(pos, pos + 4 + ts[t].term@.len()) == enc_bytes(ts[t].term@),
        b.subrange(pos + 4 + ts[t].term@.len(), pos + 8 + ts[t].term@.len()) == enc_u32(
            ts[t].postings@.len() as u32,
        ),
        b == b.subrange(0, pos + 8 + ts[t].term@.len()) + enc_postings_from(ts[t].postings@, 0)
            + enc_terms_from(ts, t + 1),
{
    let tl = ts[t].term@.len() as int;
    lemma_enc_postings_split(ts[t].postings@, 0);
    assert(enc_postings(ts[t].postings@.take(0)) =~= Seq::<u8>::empty());
    assert(enc_postings_from(ts[t].postings@, 0) == enc_postings(ts[t].postings@));
    assert(b =~= b.subrange(0, pos) + (enc_u32(ts[t].term@.len() as u32) + ts[t].term@) + (
    enc_u32(ts[t].postings@.len() as u32) + (enc_postings(ts[t].postings@) + enc_terms_from(
        ts,
        t + 1,
    ))));
    assert(b.subrange(pos, pos + 4) =~= enc_u32(ts[t].term@.len() as u32));
    assert(b.subrange(pos, pos + 4 + tl) =~= enc_bytes(ts[t].term@));
    assert(b.subrange(pos + 4 + tl, pos + 8 + tl) =~= enc_u32(ts[t].postings@.len() as u32));
    assert(b =~= b.subrange(0, pos + 8 + tl) + enc_postings_from(ts[t].postings@, 0)
        + enc_terms_from(ts, t + 1));
}

/// Layout of one posting record at parse position `qpos`.
pub proof fn lemma_posting_layout(b: Seq<u8>, ps: Seq<Posting>, tail: Seq<u8>, qpos: int, q: int)
    requires
        0 <= qpos <= b.len(),
        0 <= q < ps.len(),
        b == b.subrange(0, qpos) + enc_postings_from(ps, q) + tail,
    ensures
        qpos + 12 <= b.len(),
        b.subrange(qpos, qpos + 4) == enc_u32(ps[q].field),
        b.subrange(qpos + 4, qpos + 8) == enc_u32(ps[q].doc),
        b.subrange(qpos + 8, qpos + 12) == enc_u32(ps[q].positions@.len() as u32),
        b == b.subrange(0, qpos + 12) + enc_positions_from(ps[q].positions@, 0)
            + enc_postings_from(ps, q + 1) + tail,
{
    lemma_enc_positions_split(ps[q].positions@, 0);
    assert(enc_positions(ps[q].positions@.take(0)) =~= Seq::<u8>::empty());
    assert(enc_positions_from(ps[q].positions@, 0) == enc_positions(ps[q].positions@));
    assert(b =~= b.subrange(0, qpos) + enc_u32(ps[q].field) + (enc_u32(ps[q].doc) + enc_u32(
        ps[q].positions@.len() as u32,
    ) + (enc_positions(ps[q].positions@) + (enc_postings_from(ps, q + 1) + tail))));
    assert(b.subrange(qpos, qpos + 4) =~= enc_u32(ps[q].field));
    assert(b.subrange(qpos + 4, qpos + 8) =~= enc_u32(ps[q].doc));
    assert(b.subrange(qpos + 8, qpos + 12) =~= enc_u32(ps[q].positions@.len() as u32));
    assert(b =~= b.subrange(0, qpos + 12) + enc_positions_from(ps[q].positions@, 0)
        + enc_postings_from(ps, q + 1) + tail);
}

/// Layout of one position at parse position `rpos`.
pub proof fn lemma_position_layout(b: Seq<u8>, pp: Seq<u32>, tail: Seq<u8>, rpos: int, k: int)
    requires
        0 <= rpos <= b.len(),
        0 <= k < pp.len(),
        b == b.subrange(0, rpos) + enc_positions_from(pp, k) + tail,
    ensures
        rpos + 4 <= b.len(),
        b.subrange(rpos, rpos + 4) == enc_u32(pp[k]),
        b == b.subrange(0, rpos + 4) + enc_positions_from(pp, k + 1) + tail,
{
    assert(b =~= b.subrange(0, rpos) + enc_u32(pp[k]) + (enc_positions_from(pp, k + 1) + tail));
    assert(b.subrange(rpos, rpos + 4) =~= enc_u32(pp[k]));
    assert(b =~= b.subrange(0, rpos + 4) + enc_positions_from(pp, k + 1) + tail);
}

/// A byte string that `bytes` holds the serialization of a well-formed,
/// fingerprint-matching, encodable index.
#[verifier::opaque]
pub open spec fn spec_valid_artifact(b: Seq<u8>, ix: Index, fields: Seq<crate::schema::FieldDef>) -> bool {
    &&& index_wf(ix, fields.len() as int)
    &&& ix.fingerprint == crate::schema::spec_fingerprint(fields)
    &&& spec_encodable(ix)
    &&& b == spec_encode(ix)
}

/// Unpacks the validity of an artifact.
pub proof fn lemma_valid_artifact_facts(b: Seq<u8>, ix: Index, fields: Seq<crate::schema::FieldDef>)
    requires
        spec_valid_artifact(b, ix, fields),
    ensures
        index_wf(ix, fields.len() as int),
        ix.fingerprint == crate::schema::spec_fingerprint(fields),
        spec_encodable(ix),
        b == spec_encode(ix),
{
    reveal(spec_valid_artifact);
}

/// Packs the validity of an artifact: the serialization of any
/// well-formed, fingerprint-matching, encodable index is one.
pub proof fn lemma_valid_artifact_intro(b: Seq<u8>, ix: Index, fields: Seq<crate::schema::FieldDef>)
    requires
        index_wf(ix, fields.len() as int),
        ix.fingerprint == crate::schema::spec_fingerprint(fields),
        spec_encodable(ix),
        b == spec_encode(ix),
    ensures
        spec_valid_artifact(b, ix, fields),
{
    reveal(spec_valid_artifact);
}

/// Deserializes an index artifact for `schema`, validating it fully:
/// the call succeeds exactly on the serialization of a well-formed,
/// encodable index whose fingerprint matches the schema — such bytes are
/// always accepted, and nothing else is. A mismatched fingerprint is a
/// `SchemaMismatchError`; any structural fault — a short buffer, a bad
/// magic, an unordered or dangling posting, a duplicate term, trailing
/// bytes — is a `CorruptIndexError`.
#[verifier::rlimit(100)]
#[verifier::spinoff_prover]
pub fn load_index(bytes: &Vec<u8>, schema: &Schema) -> (r: Result<Index, SearchError>)
    requires
        schema.wf(),
    ensures
        match r {
            Ok(ix) => index_wf(ix, schema.fields@.len() as int) && ix.fingerprint
                == crate::schema::spec_fingerprint(schema.fields@) && bytes@ == spec_encode(ix),
            Err(e) => (e == SearchError::CorruptIndexError
                || e == SearchError::SchemaMismatchError) && (e
                == SearchError::SchemaMismatchError ==> exists|fp: u64|
                bytes@.len() >= 12 && bytes@.subrange(0, 12) == enc_u32(INDEX_MAGIC)
                    + #[trigger] enc_u64(fp) && fp != crate::schema::spec_fingerprint(
                    schema.fields@,
                )),
        },
        (exists|ix: Index| spec_valid_artifact(bytes@, ix, schema.fields@)) ==> r is Ok,
{
    let ghost nfields = schema.fields@.len() as int;
    let ghost has = exists|ix: Index| spec_valid_artifact(bytes@, ix, schema.fields@);
    let ghost ix0 = choose|ix: Index| spec_valid_artifact(bytes@, ix, schema.fields@);
    let ghost ds = ix0.docs@;
    let ghost ts = ix0.terms@;
    proof {
        if has {
            lemma_valid_artifact_facts(bytes@, ix0, schema.fields@);
            assert(bytes@ == enc_u32(INDEX_MAGIC) + enc_u64(ix0.fingerprint) + enc_u32(
                ds.len() as u32,
            ) + enc_docs(ds) + enc_u32(ts.len() as u32) + enc_terms(ts));
            assert(bytes@.subrange(0, 4) =~= enc_u32(INDEX_MAGIC));
        }
    }
    let (magic, p0) = match read_u32(bytes, 0) {
        Some(v) => v,
        None => {
            proof {
                if has {
                    assert(false);
                }
            }
            return Err(SearchError::CorruptIndexError);
        },
    };
    proof {
        if has {
            lemma_enc_u32_injective(magic, INDEX_MAGIC);
        }
    }
    if magic != INDEX_MAGIC {
        proof {
            if has {
                assert(false);
            }
        }
        return Err(SearchError::CorruptIndexError);
    }
    proof {
        if has {
            assert(bytes@.subrange(4, 12) =~= enc_u64(ix0.fingerprint));
        }
    }
    let (fp, p1) = match read_u64(bytes, p0) {
        Some(v) => v,
        None => {
            proof {
                if has {
                    assert(false);
                }
            }
            return Err(SearchError::CorruptIndexError);
        },
    };
    proof {
        if has {
            lemma_enc_u64_injective(fp, ix0.fingerprint);
        }
    }
    match schema.validate_against(fp) {
        Ok(()) => {},
        Err(e) => {
            proof {
                assert(bytes@.subrange(0, 12) =~= enc_u32(INDEX_MAGIC) + enc_u64(fp));
                if has {
                    assert(false);
                }
            }
            return Err(e);
        },
    }
    proof {
        if has {
            assert(bytes@.subrange(12, 16) =~= enc_u32(ds.len() as u32));
        }
    }
    let (ndocs, p2) = match read_u32(bytes, p1) {
        Some(v) => v,
        None => {
            proof {
                if has {
                    assert(false);
                }
            }
            return Err(SearchError::CorruptIndexError);
        },
    };
    proof {
        if has {
            lemma_enc_u32_injective(ndocs, ds.len() as u32);
        }
    }
    let nd = ndocs as usize;
    let mut docs: Vec<DocMeta> = Vec::new();
    let mut pos = p2;
    let ghost head = enc_u32(INDEX_MAGIC) + enc_u64(fp) + enc_u32(ndocs);
    proof {
        assert(bytes@.subrange(0, pos as int) =~= head + enc_docs(docs@));
        if has {
            assert(nd == ds.len());
            lemma_enc_docs_split(ds, 0);
            assert(enc_docs(ds.take(0)) =~= Seq::<u8>::empty());
            assert(bytes@ =~= bytes@.subrange(0, pos as int) + enc_docs_from(ds, 0) + (enc_u32(
                ts.len() as u32,
            ) + enc_terms(ts)));
        }
    }
    let mut i: usize = 0;
    while i < nd
        invariant
            i <= nd,
            docs@.len() == i,
            pos <= bytes@.len(),
            bytes@.subrange(0, pos as int) == head + enc_docs(docs@),
            forall|a: int, b: int| 0 <= a < b < docs@.len() ==> docs@[a].id < docs@[b].id,
            has == exists|ix: Index| spec_valid_artifact(bytes@, ix, schema.fields@),
            has ==> nd == ds.len(),
            has ==> (forall|a: int, b: int| 0 <= a < b < ds.len() ==> ds[a].id < ds[b].id),
            has ==> (forall|k: int|
                0 <= k < ds.len() ==> (#[trigger] ds[k]).title@.len() <= u32::MAX),
            has ==> (forall|k: int| 0 <= k < i ==> docs@[k].id == ds[k].id),
            has ==> bytes@ == bytes@.subrange(0, pos as int) + enc_docs_from(ds, i as int) + (
            enc_u32(ts.len() as u32) + enc_terms(ts)),
        decreases nd - i,
    {
        let ghost tail0 = enc_u32(ts.len() as u32) + enc_terms(ts);
        let ghost id0 = if has {
            ds[i as int].id
        } else {
            0u32
        };
        let ghost boost0 = if has {
            ds[i as int].boost
        } else {
            0u32
        };
        let ghost title0 = if has {
            ds[i as int].title@
        } else {
            Seq::empty()
        };
        proof {
            if has {
                lemma_doc_layout(bytes@, ds, tail0, pos as int, i as int);
            }
        }
        let (id, q0) = match read_u32(bytes, pos) {
            Some(v) => v,
            None => {
                proof {
                    if has {
                        assert(false);
                    }
                }
                return Err(SearchError::CorruptIndexError);
            },
        };
        proof {
            if has {
                lemma_enc_u32_injective(id, id0);
            }
        }
        let (boost, q1) = match read_u32(bytes, q0) {
            Some(v) => v,
            None => {
                proof {
                    if has {
                        assert(false);
                    }
                }
                return Err(SearchError::CorruptIndexError);
            },
        };
        proof {
            if has {
                assert(q1 == pos + 8);
                assert(title0.len() <= u32::MAX);
            }
        }
        let (title, q2) = match read_bytes(bytes, q1) {
            Some(v) => v,
            None => {
                proof {
                    if has {
                        if q1 + 4 > bytes@.len() {
                            assert(false);
                        } else {
                            let n = choose|n: u32|
                                bytes@.subrange(q1 as int, q1 + 4) == #[trigger] enc_u32(n) && q1
                                    + 4 + n > bytes@.len();
                            lemma_enc_u32_injective(n, title0.len() as u32);
                            assert(false);
                        }
                    }
                }
                return Err(SearchError::CorruptIndexError);
            },
        };
        proof {
            if has {
                assert(bytes@.subrange(q1 as int, q2 as int) == enc_bytes(title@));
                assert(q2 - q1 == 4 + title@.len());
                assert(bytes@.subrange(q1 as int, q1 + 4) =~= enc_bytes(title@).take(4));
                assert(enc_bytes(title@).take(4) =~= enc_u32(title@.len() as u32));
                lemma_enc_u32_injective(title@.len() as u32, title0.len() as u32);
                assert(title@.len() == title0.len());
                assert(q2 == pos + 12 + title0.len());
            }
        }
        if docs.len() > 0 && docs[docs.len() - 1].id >= id {
            proof {
                if has {
                    assert(docs@[i - 1].id == ds[i - 1].id);
                    assert(ds[i - 1].id < ds[i as int].id);
                    assert(false);
                }
            }
            return Err(SearchError::CorruptIndexError);
        }
        let ghost docs0 = docs@;
        docs.push(DocMeta { id, boost, title });
        proof {
            assert(docs@.drop_last() =~= docs0);
            assert(bytes@.subrange(0, q2 as int) =~= bytes@.subrange(0, pos as int)
                + bytes@.subrange(pos as int, q0 as int) + bytes@.subrange(q0 as int, q1 as int)
                + bytes@.subrange(q1 as int, q2 as int));
            assert(bytes@.subrange(0, q2 as int) =~= head + enc_docs(docs@));
            if has {
                assert(bytes@ == bytes@.subrange(0, q2 as int) + enc_docs_from(ds, i + 1) + tail0);
            }
        }
        pos = q2;
        i = i + 1;
    }
    proof {
        if has {
            assert(enc_docs_from(ds, nd as int) =~= Seq::<u8>::empty());
            assert(bytes@ =~= bytes@.subrange(0, pos as int) + enc_u32(ts.len() as u32)
                + enc_terms(ts));
            assert(pos + 4 <= bytes@.len());
            assert(bytes@.subrange(pos as int, pos + 4) =~= enc_u32(ts.len() as u32));
            assert(ts.len() <= u32::MAX);
        }
    }
    let (nterms, p3) = match read_u32(bytes, pos) {
        Some(v) => v,
        None => {
            proof {
                if has {
                    assert(false);
                }
            }
            return Err(SearchError::CorruptIndexError);
        },
    };
    proof {
        if has {
            lemma_enc_u32_injective(nterms, ts.len() as u32);
            assert(ts.len() <= u32::MAX);
        }
    }
    let nt = nterms as usize;
    let ghost head2 = head + enc_docs(docs@) + enc_u32(nterms);
    let mut terms: Vec<TermEntry> = Vec::new();
    proof {
        assert(bytes@.subrange(0, p3 as int) =~= bytes@.subrange(0, pos as int) + bytes@.subrange(
            pos as int,
            p3 as int,
        ));
        assert(bytes@.subrange(0, p3 as int) =~= head2 + enc_terms(terms@));
        if has {
            lemma_enc_terms_split(ts, 0);
            assert(enc_terms(ts.take(0)) =~= Seq::<u8>::empty());
            assert(bytes@ =~= bytes@.subrange(0, p3 as int) + enc_terms_from(ts, 0));
        }
    }
    pos = p3;
    let mut t: usize = 0;
    while t < nt
        invariant
            t <= nt,
            terms@.len() == t,
            pos <= bytes@.len(),
            nd == docs@.len(),
            schema.wf(),
            nfields == schema.fields@.len(),
            bytes@.subrange(0, pos as int) == head2 + enc_terms(terms@),
            crate::index::entries_wf(terms@, schema.fields@.len() as int, docs@.len() as int),
            has == exists|ix: Index| spec_valid_artifact(bytes@, ix, schema.fields@),
            has ==> nd == ds.len() && nt == ts.len(),
            has ==> crate::index::entries_wf(ts, nfields, ds.len() as int),
            has ==> (forall|k: int|
                0 <= k < ts.len() ==> (#[trigger] ts[k]).term@.len() <= u32::MAX
                    && ts[k].postings@.len() <= u32::MAX),
            has ==> (forall|k: int, q2: int|
                0 <= k < ts.len() && 0 <= q2 < ts[k].postings@.len() ==> (
                #[trigger] ts[k].postings@[q2]).positions@.len() <= u32::MAX),
            has ==> (forall|k: int| 0 <= k < t ==> terms@[k].term@ == ts[k].term@),
            has ==> bytes@ == bytes@.subrange(0, pos as int) + enc_terms_from(ts, t as int),
        decreases nt - t,
    {
        let ghost term0 = if has {
            ts[t as int].term@
        } else {
            Seq::empty()
        };
        let ghost ps0 = if has {
            ts[t as int].postings@
        } else {
            Seq::empty()
        };
        proof {
            if has {
                assert(crate::index::postings_wf(ps0, nfields, ds.len() as int));
                assert(term0.len() <= u32::MAX && ps0.len() <= u32::MAX);
                lemma_term_layout(bytes@, ts, pos as int, t as int);
            }
        }
        let (term, q0) = match read_bytes(bytes, pos) {
            Some(v) => v,
            None => {
                proof {
                    if has {
                        if pos + 4 > bytes@.len() {
                            assert(false);
                        } else {
                            let n = choose|n: u32|
                                bytes@.subrange(pos as int, pos + 4) == #[trigger] enc_u32(n)
                                    && pos + 4 + n > bytes@.len();
                            lemma_enc_u32_injective(n, term0.len() as u32);
                            assert(false);
                        }
                    }
                }
                return Err(SearchError::CorruptIndexError);
            },
        };
        proof {
            if has {
                assert(bytes@.subrange(pos as int, q0 as int) == enc_bytes(term@));
                assert(q0 - pos == 4 + term@.len());
                assert(bytes@.subrange(pos as int, pos + 4) =~= enc_bytes(term@).take(4));
                assert(enc_bytes(term@).take(4) =~= enc_u32(term@.len() as u32));
                lemma_enc_u32_injective(term@.len() as u32, term0.len() as u32);
                assert(term@.len() == term0.len());
                assert(q0 == pos + 4 + term0.len());
                assert(enc_bytes(term@) =~= enc_bytes(term0));
                assert(term@ =~= enc_bytes(term@).skip(4));
                assert(enc_bytes(term0).skip(4) =~= term0);
                assert(term@ == term0);
            }
        }
        if term.len() == 0 {
            proof {
                if has {
                    assert(term0.len() > 0);
                    assert(false);
                }
            }
            return Err(SearchError::CorruptIndexError);
        }
        match find_term(&terms, &term) {
            Some(_) => {
                proof {
                    if has {
                        let k = choose|k: int|
                            0 <= k < terms@.len() && #[trigger] terms@[k].term@ == term@;
                        assert(ts[k].term@ == ts[t as int].term@);
                        assert(false);
                    }
                }
                return Err(SearchError::CorruptIndexError);
            },
            None => {},
        }
        let (nps, q1) = match read_u32(bytes, q0) {
            Some(v) => v,
            None => {
                proof {
                    if has {
                        assert(false);
                    }
                }
                return Err(SearchError::CorruptIndexError);
            },
        };
        proof {
            if has {
                lemma_enc_u32_injective(nps, ps0.len() as u32);
            }
        }
        let npostings = nps as usize;
        if npostings == 0 {
            proof {
                if has {
                    assert(ps0.len() > 0);
                    assert(false);
                }
            }
            return Err(SearchError::CorruptIndexError);
        }
        let mut postings: Vec<Posting> = Vec::new();
        let mut qpos = q1;
        proof {
            assert(bytes@.subrange(pos as int, qpos as int) =~= enc_bytes(term@) + enc_u32(nps)
                + enc_postings(postings@));
            if has {
                assert(q1 == pos + 8 + term0.len());
                assert(bytes@ == bytes@.subrange(0, q1 as int) + enc_postings_from(ps0, 0)
                    + enc_terms_from(ts, t + 1));
            }
        }
        let mut q: usize = 0;
        while q < npostings
            invariant
                q <= npostings,
                postings@.len() == q,
                pos <= qpos <= bytes@.len(),
                nd == docs@.len(),
                schema.wf(),
                nfields == schema.fields@.len(),
                bytes@.subrange(pos as int, qpos as int) == enc_bytes(term@) + enc_u32(nps)
                    + enc_postings(postings@),
                postings_wf(postings@, schema.fields@.len() as int, docs@.len() as int),
                has == exists|ix: Index| spec_valid_artifact(bytes@, ix, schema.fields@),
                has ==> nd == ds.len() && npostings == ps0.len(),
                has ==> postings_wf(ps0, nfields, ds.len() as int),
                has ==> (forall|q2: int|
                    0 <= q2 < ps0.len() ==> (#[trigger] ps0[q2]).positions@.len() <= u32::MAX),
                has ==> (forall|k: int|
                    0 <= k < q ==> postings@[k].field == ps0[k].field && postings@[k].doc
                        == ps0[k].doc),
                has ==> bytes@ == bytes@.subrange(0, qpos as int) + enc_postings_from(ps0, q as int)
                    + enc_terms_from(ts, t + 1),
            decreases npostings - q,
        {
            let ghost pp0 = if has {
                ps0[q as int].positions@
            } else {
                Seq::empty()
            };
            let ghost tail2 = enc_postings_from(ps0, q + 1) + enc_terms_from(ts, t + 1);
            proof {
                if has {
                    assert(pp0.len() <= u32::MAX);
                    lemma_posting_layout(bytes@, ps0, enc_terms_from(ts, t + 1), qpos as int, q as int);
                }
            }
            let (field, r0) = match read_u32(bytes, qpos) {
                Some(v) => v,
                None => {
                    proof {
                        if has {
                            assert(false);
                        }
                    }
                    return Err(SearchError::CorruptIndexError);
                },
            };
            proof {
                if has {
                    lemma_enc_u32_injective(field, ps0[q as int].field);
                    assert((ps0[q as int].field as int) < nfields);
                }
            }
            if field as usize >= schema.fields.len() {
                proof {
                    if has {
                        assert(false);
                    }
                }
                return Err(SearchError::CorruptIndexError);
            }
            let (doc, r1) = match read_u32(bytes, r0) {
                Some(v) => v,
                None => {
                    proof {
                        if has {
                            assert(false);
                        }
                    }
                    return Err(SearchError::CorruptIndexError);
                },
            };
            proof {
                if has {
                    lemma_enc_u32_injective(doc, ps0[q as int].doc);
                    assert((ps0[q as int].doc as int) < ds.len());
                }
            }
            if doc as usize >= docs.len() {
                proof {
                    if has {
                        assert(false);
                    }
                }
                return Err(SearchError::CorruptIndexError);
            }
            let (npv, r2) = match read_u32(bytes, r1) {
                Some(v) => v,
                None => {
                    proof {
                        if has {
                            assert(false);
                        }
                    }
                    return Err(SearchError::CorruptIndexError);
                },
            };
            proof {
                if has {
                    lemma_enc_u32_injective(npv, pp0.len() as u32);
                }
            }
            let npositions = npv as usize;
            if npositions == 0 {
                proof {
                    if has {
                        assert(pp0.len() > 0);
                        assert(false);
                    }
                }
                return Err(SearchError::CorruptIndexError);
            }
            let mut positions: Vec<u32> = Vec::new();
            let mut rpos = r2;
            proof {
                assert(bytes@.subrange(r2 as int, rpos as int) =~= enc_positions(positions@));
                if has {
                    assert(r2 == qpos + 12);
                    assert(bytes@ =~= bytes@.subrange(0, r2 as int) + enc_positions_from(pp0, 0) + (
                    enc_postings_from(ps0, q + 1) + enc_terms_from(ts, t + 1)));
                }
            }
            let mut k: usize = 0;
            while k < npositions
                invariant
                    k <= npositions,
                    positions@.len() == k,
                    r2 <= rpos <= bytes@.len(),
                    bytes@.subrange(r2 as int, rpos as int) == enc_positions(positions@),
                    u32_sorted(positions@),
                    has == exists|ix: Index| spec_valid_artifact(bytes@, ix, schema.fields@),
                    has ==> npositions == pp0.len(),
                    has ==> (forall|j: int| 0 <= j < k ==> positions@[j] == pp0[j]),
                    has ==> u32_sorted(pp0),
                    has ==> bytes@ == bytes@.subrange(0, rpos as int) + enc_positions_from(
                        pp0,
                        k as int,
                    ) + tail2,
                    tail2 == enc_postings_from(ps0, q + 1) + enc_terms_from(ts, t + 1),
                decreases npositions - k,
            {
                proof {
                    if has {
                        lemma_position_layout(bytes@, pp0, tail2, rpos as int, k as int);
                    }
                }
                let (pv, r3) = match read_u32(bytes, rpos) {
                    Some(v) => v,
                    None => {
                        proof {
                            if has {
                                assert(false);
                            }
                        }
                        return Err(SearchError::CorruptIndexError);
                    },
                };
                proof {
                    if has {
                        lemma_enc_u32_injective(pv, pp0[k as int]);
                    }
                }
                if positions.len() > 0 && positions[positions.len() - 1] >= pv {
                    proof {
                        if has {
                            assert(positions@[k - 1] == pp0[k - 1]);
                            assert(pp0[k - 1] < pp0[k as int]);
                            assert(false);
                        }
                    }
                    return Err(SearchError::CorruptIndexError);
                }
                let ghost positions0 = positions@;
                positions.push(pv);
                proof {
                    assert(positions@.drop_last() =~= positions0);
                    assert(bytes@.subrange(r2 as int, r3 as int) =~= bytes@.subrange(
                        r2 as int,
                        rpos as int,
                    ) + bytes@.subrange(rpos as int, r3 as int));
                    assert(bytes@.subrange(r2 as int, r3 as int) =~= enc_positions(positions@));
                    if has {
                        assert(bytes@ == bytes@.subrange(0, r3 as int) + enc_positions_from(
                            pp0,
                            k + 1,
                        ) + tail2);
                    }
                }
                rpos = r3;
                k = k + 1;
            }
            if postings.len() > 0 {
                let lastq = postings.len() - 1;
                let ok = postings[lastq].doc < doc || (postings[lastq].doc == doc
                    && postings[lastq].field < field);
                if !ok {
                    proof {
                        if has {
                            assert(postings@[q - 1].field == ps0[q - 1].field && postings@[q
                                - 1].doc == ps0[q - 1].doc);
                            assert(posting_before(ps0[q - 1], ps0[q as int]));
                            assert(false);
                        }
                    }
                    return Err(SearchError::CorruptIndexError);
                }
            }
            let ghost postings0 = postings@;
            let newp = Posting { field, doc, positions };
            postings.push(newp);
            proof {
                assert(postings@.drop_last() =~= postings0);
                assert(forall|a: int|
                    0 <= a < postings0.len() - 1 ==> posting_before(
                        #[trigger] postings0[a],
                        postings0[postings0.len() - 1],
                    ));
                assert forall|a: int, b: int|
                    0 <= a < b < postings@.len() implies posting_before(
                    postings@[a],
                    postings@[b],
                ) by {
                    if b == postings@.len() - 1 {
                        if a < postings0.len() - 1 {
                            assert(posting_before(postings0[a], postings0[postings0.len() - 1]));
                        }
                    }
                }
                assert(bytes@.subrange(pos as int, rpos as int) =~= bytes@.subrange(
                    pos as int,
                    qpos as int,
                ) + bytes@.subrange(qpos as int, r0 as int) + bytes@.subrange(r0 as int, r1 as int)
                    + bytes@.subrange(r1 as int, r2 as int) + bytes@.subrange(
                    r2 as int,
                    rpos as int,
                ));
                assert(enc_posting(newp) =~= enc_u32(field) + enc_u32(doc) + enc_u32(npv)
                    + enc_positions(newp.positions@));
                assert(bytes@.subrange(pos as int, rpos as int) =~= enc_bytes(term@) + enc_u32(nps)
                    + enc_postings(postings@));
                if has {
                    assert(enc_positions_from(pp0, npositions as int) =~= Seq::<u8>::empty());
                    assert(bytes@ =~= bytes@.subrange(0, rpos as int) + enc_postings_from(
                        ps0,
                        q + 1,
                    ) + enc_terms_from(ts, t + 1));
                }
            }
            qpos = rpos;
            q = q + 1;
        }
        let ghost terms0 = terms@;
        let newt = TermEntry { term, postings };
        terms.push(newt);
        proof {
            assert(terms@.drop_last() =~= terms0);
            assert(enc_term(newt) =~= enc_bytes(newt.term@) + enc_u32(nps) + enc_postings(
                newt.postings@,
            ));
            assert(bytes@.subrange(0, qpos as int) =~= bytes@.subrange(0, pos as int)
                + bytes@.subrange(pos as int, qpos as int));
            assert(bytes@.subrange(0, qpos as int) =~= head2 + enc_terms(terms@));
            assert forall|a: int|
                0 <= a < terms@.len() implies crate::index::postings_wf(
                (#[trigger] terms@[a]).postings@,
                schema.fields@.len() as int,
                docs@.len() as int,
            ) by {
                if a < terms0.len() {
                    assert(terms@[a] == terms0[a]);
                }
            }
            if has {
                assert(enc_postings_from(ps0, npostings as int) =~= Seq::<u8>::empty());
                assert(bytes@ =~= bytes@.subrange(0, qpos as int) + enc_terms_from(ts, t + 1));
            }
        }
        pos = qpos;
        t = t + 1;
    }
    if pos != bytes.len() {
        proof {
            if has {
                assert(enc_terms_from(ts, nt as int) =~= Seq::<u8>::empty());
                assert(bytes@ =~= bytes@.subrange(0, pos as int));
                assert(false);
            }
        }
        return Err(SearchError::CorruptIndexError);
    }
    let ix = Index { fingerprint: fp, docs, terms };
    proof {
        assert(bytes@.subrange(0, pos as int) =~= bytes@);
        assert(bytes@ =~= spec_encode(ix));
        assert(ix.docs@.len() <= u32::MAX);
    }
    Ok(ix)
}

} // verus!
