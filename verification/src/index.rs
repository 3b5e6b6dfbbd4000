use vstd::prelude::*;
use crate::bytes::{bytes_eq, clone_bytes};
use crate::schema::{spec_fingerprint, Schema};
use crate::tokenize::{lemma_tokenize_props, spec_tokenize, token_views, tokenize};
use crate::types::{DocMeta, DocumentInput, Posting, TermEntry, MAX_FIELDS};

verus! {

/// The in-memory inverted index: a document metadata table and a term
/// dictionary with per-field postings, stamped with the fingerprint of
/// the schema it was built against.
pub struct Index {
    pub fingerprint: u64,
    pub docs: Vec<DocMeta>,
    pub terms: Vec<TermEntry>,
}

/// Strictly increasing sequence of positions.
pub open spec fn u32_sorted(s: Seq<u32>) -> bool {
    forall|k: int, l: int| 0 <= k < l < s.len() ==> s[k] < s[l]
}

/// Postings are kept ordered by (document, field).
pub open spec fn posting_before(a: Posting, b: Posting) -> bool {
    a.doc < b.doc || (a.doc == b.doc && a.field < b.field)
}

/// Well-formed postings list: every posting stays inside the schema's
/// field range and the document table, has at least one position, its
/// positions strictly increase, and the list is strictly ordered by
/// (document, field) — so a document occurs at most once per field.
pub open spec fn postings_wf(ps: Seq<Posting>, nfields: int, ndocs: int) -> bool {
    &&& forall|q: int|
        0 <= q < ps.len() ==> (#[trigger] ps[q]).field < nfields && ps[q].doc < ndocs
            && ps[q].positions@.len() > 0 && u32_sorted(ps[q].positions@)
    &&& forall|q1: int, q2: int| 0 <= q1 < q2 < ps.len() ==> posting_before(ps[q1], ps[q2])
}

/// Well-formed term dictionary: non-empty unique terms, each with a
/// non-empty well-formed postings list.
pub open spec fn entries_wf(terms: Seq<TermEntry>, nfields: int, ndocs: int) -> bool {
    &&& forall|i: int| 0 <= i < terms.len() ==> (#[trigger] terms[i]).term@.len() > 0
    &&& forall|i: int| 0 <= i < terms.len() ==> (#[trigger] terms[i]).postings@.len() > 0
    &&& forall|i: int, j: int| 0 <= i < j < terms.len() ==> terms[i].term@ != terms[j].term@
    &&& forall|i: int|
        0 <= i < terms.len() ==> postings_wf((#[trigger] terms[i]).postings@, nfields, ndocs)
}

/// A well-formed index for a schema with `nfields` fields: document ids
/// strictly increase (hence are unique), and the dictionary is well
/// formed, with no posting dangling outside the document table.
pub open spec fn index_wf(ix: Index, nfields: int) -> bool {
    &&& ix.docs@.len() <= u32::MAX
    &&& forall|i: int, j: int| 0 <= i < j < ix.docs@.len() ==> ix.docs@[i].id < ix.docs@[j].id
    &&& entries_wf(ix.terms@, nfields, ix.docs@.len() as int)
}

/// Whether position `p` occurs in a positions list.
pub open spec fn spec_pos_in(ps: Seq<u32>, p: int) -> bool {
    exists|k: int| 0 <= k < ps.len() && ps[k] == p
}

/// The dictionary records term `t` at token position `p` of field `f`
/// of document slot `d`.
pub open spec fn spec_indexed_at(terms: Seq<TermEntry>, t: Seq<u8>, f: int, d: int, p: int) -> bool {
    exists|i: int, q: int|
        0 <= i < terms.len() && 0 <= q < terms[i].postings@.len() && terms[i].term@ == t
            && terms[i].postings@[q].field == f && terms[i].postings@[q].doc == d && spec_pos_in(
            terms[i].postings@[q].positions@,
            p,
        )
}

/// The dictionary records term `t` somewhere in field `f` of document
/// slot `d`.
pub open spec fn spec_indexed(terms: Seq<TermEntry>, t: Seq<u8>, f: int, d: int) -> bool {
    exists|p: int| spec_indexed_at(terms, t, f, d, p)
}

/// Token `p` of field `f` of input document `d` is exactly the term `t`.
pub open spec fn spec_occurs(
    inputs: Seq<DocumentInput>,
    t: Seq<u8>,
    f: int,
    d: int,
    p: int,
) -> bool {
    &&& 0 <= d < inputs.len()
    &&& 0 <= f < inputs[d].fields@.len()
    &&& 0 <= p < spec_tokenize(inputs[d].fields@[f]@).len()
    &&& spec_tokenize(inputs[d].fields@[f]@)[p] == t
}

/// Build-order comparison of occurrence coordinates (document, field,
/// position).
pub open spec fn occ_before(d2: int, f2: int, p2: int, d: int, f: int, p: int) -> bool {
    d2 < d || (d2 == d && (f2 < f || (f2 == f && p2 < p)))
}

/// Every posting lies at or before build progress point (d, f, p): its
/// document is earlier, or its field is earlier within document `d`, or
/// it records positions of the current field all before token `p`.
pub open spec fn posting_progress(pb: Posting, d: int, f: int, p: int) -> bool {
    ||| pb.doc < d
    ||| pb.doc == d && pb.field < f
    ||| pb.doc == d && pb.field == f && (forall|k: int|
        0 <= k < pb.positions@.len() ==> pb.positions@[k] < p)
}

pub open spec fn entries_progress(terms: Seq<TermEntry>, d: int, f: int, p: int) -> bool {
    forall|i: int, q: int|
        0 <= i < terms.len() && 0 <= q < terms[i].postings@.len() ==> posting_progress(
            #[trigger] terms[i].postings@[q],
            d,
            f,
            p,
        )
}

/// Every token occurrence processed before progress point (d, f, p) is
/// recorded in the dictionary.
pub open spec fn entries_complete(
    inputs: Seq<DocumentInput>,
    terms: Seq<TermEntry>,
    d: int,
    f: int,
    p: int,
) -> bool {
    forall|t: Seq<u8>, d2: int, f2: int, p2: int|
        #[trigger] spec_occurs(inputs, t, f2, d2, p2) && occ_before(d2, f2, p2, d, f, p)
            ==> spec_indexed_at(terms, t, f2, d2, p2)
}

/// Everything the dictionary records is a real token occurrence of the
/// input documents.
pub open spec fn entries_sound(inputs: Seq<DocumentInput>, terms: Seq<TermEntry>) -> bool {
    forall|i: int, q: int, k: int|
        0 <= i < terms.len() && 0 <= q < terms[i].postings@.len() && 0 <= k
            < terms[i].postings@[q].positions@.len() ==> spec_occurs(
            inputs,
            terms[i].term@,
            terms[i].postings@[q].field as int,
            terms[i].postings@[q].doc as int,
            #[trigger] terms[i].postings@[q].positions@[k] as int,
        )
}

/// Exact dictionary lookup by linear scan: returns the entry holding
/// term `t` exactly when one exists.
pub fn find_term(terms: &Vec<TermEntry>, t: &Vec<u8>) -> (r: Option<usize>)
    ensures
        match r {
            Some(i) => i < terms@.len() && terms@[i as int].term@ == t@,
            None => forall|i: int| 0 <= i < terms@.len() ==> terms@[i].term@ != t@,
        },
{
    let mut i: usize = 0;
    while i < terms.len()
        invariant
            i <= terms@.len(),
            forall|k: int| 0 <= k < i ==> terms@[k].term@ != t@,
        decreases terms@.len() - i,
    {
        if bytes_eq(&terms[i].term, t) {
            return Some(i);
        }
        i = i + 1;
    }
    None
}

/// Records one token occurrence in the dictionary, preserving
/// well-formedness, soundness and completeness of everything recorded
/// so far and advancing the progress point from (d, f, p) to
/// (d, f, p + 1).
pub fn insert_occurrence(
    terms: &mut Vec<TermEntry>,
    tok: &Vec<u8>,
    d: usize,
    f: usize,
    p: usize,
    Ghost(inputs): Ghost<Seq<DocumentInput>>,
    Ghost(nfields): Ghost<int>,
    Ghost(ndocs): Ghost<int>,
)
    requires
        entries_wf(old(terms)@, nfields, ndocs),
        entries_progress(old(terms)@, d as int, f as int, p as int),
        entries_complete(inputs, old(terms)@, d as int, f as int, p as int),
        entries_sound(inputs, old(terms)@),
        (d as int) < ndocs,
        ndocs <= u32::MAX,
        (f as int) < nfields,
        nfields <= MAX_FIELDS,
        p < u32::MAX,
        tok@.len() > 0,
        spec_occurs(inputs, tok@, f as int, d as int, p as int),
    ensures
        entries_wf(final(terms)@, nfields, ndocs),
        entries_progress(final(terms)@, d as int, f as int, p + 1),
        entries_complete(inputs, final(terms)@, d as int, f as int, p + 1),
        entries_sound(inputs, final(terms)@),
{
    let ghost t0 = terms@;
    match find_term(terms, tok) {
        None => {
            let mut positions: Vec<u32> = Vec::new();
            positions.push(p as u32);
            let mut postings: Vec<Posting> = Vec::new();
            postings.push(Posting { field: f as u32, doc: d as u32, positions });
            terms.push(TermEntry { term: clone_bytes(tok), postings });
            proof {
                let t1 = terms@;
                assert(t1[t0.len() as int].term@ == tok@);
                assert(t1[t0.len() as int].postings@.len() == 1);
                assert(t1[t0.len() as int].postings@[0].positions@.len() == 1);
                assert(t1[t0.len() as int].postings@[0].positions@[0] == p as u32);
                assert forall|i: int, j: int| 0 <= i < j < t1.len() implies t1[i].term@
                    != t1[j].term@ by {
                    if j == t0.len() as int {
                        assert(t0[i].term@ != tok@);
                    }
                }
                assert forall|i: int| 0 <= i < t1.len() implies postings_wf(
                    (#[trigger] t1[i]).postings@,
                    nfields,
                    ndocs,
                ) by {
                    if i < t0.len() {
                        assert(postings_wf(t0[i].postings@, nfields, ndocs));
                    } else {
                        let ps = t1[i].postings@;
                        assert(ps[0].field == f as u32 && ps[0].doc == d as u32);
                        assert(u32_sorted(ps[0].positions@));
                    }
                }
                assert(entries_wf(t1, nfields, ndocs));
                assert forall|i: int, q: int, k: int|
                    0 <= i < t1.len() && 0 <= q < t1[i].postings@.len() && 0 <= k
                        < t1[i].postings@[q].positions@.len() implies spec_occurs(
                    inputs,
                    t1[i].term@,
                    t1[i].postings@[q].field as int,
                    t1[i].postings@[q].doc as int,
                    #[trigger] t1[i].postings@[q].positions@[k] as int,
                ) by {
                    if i < t0.len() {
                        assert(t1[i] == t0[i]);
                        assert(spec_occurs(
                            inputs,
                            t0[i].term@,
                            t0[i].postings@[q].field as int,
                            t0[i].postings@[q].doc as int,
                            t0[i].postings@[q].positions@[k] as int,
                        ));
                    } else {
                        assert(q == 0 && k == 0);
                        assert(t1[i].postings@[q].positions@[k] == p as u32);
                    }
                }
                assert forall|i: int, q: int|
                    0 <= i < t1.len() && 0 <= q < t1[i].postings@.len() implies posting_progress(
                    #[trigger] t1[i].postings@[q],
                    d as int,
                    f as int,
                    p + 1,
                ) by {
                    if i < t0.len() {
                        assert(posting_progress(t0[i].postings@[q], d as int, f as int, p as int));
                    }
                }
                assert forall|t: Seq<u8>, d2: int, f2: int, p2: int|
                    #[trigger] spec_occurs(inputs, t, f2, d2, p2) && occ_before(
                    d2,
                    f2,
                    p2,
                    d as int,
                    f as int,
                    p + 1,
                ) implies spec_indexed_at(t1, t, f2, d2, p2) by {
                    if occ_before(d2, f2, p2, d as int, f as int, p as int) {
                        assert(spec_indexed_at(t0, t, f2, d2, p2));
                        let (i, q) = choose|i: int, q: int|
                            0 <= i < t0.len() && 0 <= q < t0[i].postings@.len() && t0[i].term@ == t
                                && t0[i].postings@[q].field == f2 && t0[i].postings@[q].doc == d2
                                && spec_pos_in(t0[i].postings@[q].positions@, p2);
                        assert(t1[i] == t0[i]);
                        assert(spec_indexed_at(t1, t, f2, d2, p2));
                    } else {
                        // the occurrence being inserted right now
                        assert(d2 == d as int && f2 == f as int && p2 == p as int);
                        assert(t == tok@);
                        let i = t0.len() as int;
                        assert(t1[i].term@ == tok@);
                        assert(t1[i].postings@[0].positions@[0] == p as u32);
                        assert(spec_pos_in(t1[i].postings@[0].positions@, p as int));
                        assert(spec_indexed_at(t1, t, f2, d2, p2));
                    }
                }
            }
        },
        Some(ti) => {
            let lastq = terms[ti].postings.len() - 1;
            let ghost ps0 = t0[ti as int].postings@;
            let is_same = terms[ti].postings[lastq].doc == d as u32 && terms[ti].postings[lastq].field
                == f as u32;
            if is_same {
                terms[ti].postings[lastq].positions.push(p as u32);
                proof {
                    let t1 = terms@;
                    let lp0 = ps0[lastq as int];
                    let lp1 = t1[ti as int].postings@[lastq as int];
                    assert(lp1.positions@ == lp0.positions@.push(p as u32));
                    assert(posting_progress(lp0, d as int, f as int, p as int));
                    assert(lp1.field == lp0.field && lp1.doc == lp0.doc);
                    assert forall|i: int| 0 <= i < t1.len() && i != ti as int implies t1[i]
                        == t0[i] by {}
                    assert forall|q: int| 0 <= q < t1[ti as int].postings@.len() && q
                        != lastq as int implies t1[ti as int].postings@[q] == ps0[q] by {}
                    assert(u32_sorted(lp1.positions@)) by {
                        assert forall|k: int, l: int|
                            0 <= k < l < lp1.positions@.len() implies lp1.positions@[k]
                            < lp1.positions@[l] by {
                            if l < lp1.positions@.len() - 1 {
                                assert(u32_sorted(lp0.positions@));
                            } else {
                                assert(lp1.positions@[l] == p as u32);
                                assert(lp0.positions@[k] < p as u32);
                            }
                        }
                    }
                    assert forall|i: int, q: int|
                        0 <= i < t1.len() && 0 <= q < t1[i].postings@.len() implies posting_progress(
                        #[trigger] t1[i].postings@[q],
                        d as int,
                        f as int,
                        p + 1,
                    ) by {
                        if i == ti as int && q == lastq as int {
                        } else {
                            assert(t1[i].postings@[q] == t0[i].postings@[q]);
                            assert(posting_progress(
                                t0[i].postings@[q],
                                d as int,
                                f as int,
                                p as int,
                            ));
                        }
                    }
                    assert forall|i: int| 0 <= i < t1.len() implies postings_wf(
                        (#[trigger] t1[i]).postings@,
                        nfields,
                        ndocs,
                    ) by {
                        assert(postings_wf(t0[i].postings@, nfields, ndocs));
                        if i == ti as int {
                            let ps1 = t1[i].postings@;
                            assert forall|q: int| 0 <= q < ps1.len() implies (#[trigger] ps1[q]).field
                                < nfields && ps1[q].doc < ndocs && ps1[q].positions@.len() > 0
                                && u32_sorted(ps1[q].positions@) by {
                                if q != lastq as int {
                                    assert(ps1[q] == ps0[q]);
                                }
                            }
                            assert forall|q1: int, q2: int| 0 <= q1 < q2 < ps1.len()
                                implies posting_before(ps1[q1], ps1[q2]) by {
                                assert(posting_before(ps0[q1], ps0[q2]));
                            }
                        }
                    }
                    assert(entries_wf(t1, nfields, ndocs));
                    assert forall|i: int, q: int, k: int|
                        0 <= i < t1.len() && 0 <= q < t1[i].postings@.len() && 0 <= k
                            < t1[i].postings@[q].positions@.len() implies spec_occurs(
                        inputs,
                        t1[i].term@,
                        t1[i].postings@[q].field as int,
                        t1[i].postings@[q].doc as int,
                        #[trigger] t1[i].postings@[q].positions@[k] as int,
                    ) by {
                        if i == ti as int && q == lastq as int && k == t1[i].postings@[q].positions@.len() - 1 {
                            assert(t1[i].postings@[q].positions@[k] == p as u32);
                            assert(t1[i].term@ == tok@);
                        } else if i == ti as int && q == lastq as int {
                            assert(t1[i].postings@[q].positions@[k] == ps0[q].positions@[k]);
                            assert(spec_occurs(
                                inputs,
                                t0[i].term@,
                                t0[i].postings@[q].field as int,
                                t0[i].postings@[q].doc as int,
                                t0[i].postings@[q].positions@[k] as int,
                            ));
                        } else {
                            assert(t1[i].postings@[q] == t0[i].postings@[q]);
                            assert(spec_occurs(
                                inputs,
                                t0[i].term@,
                                t0[i].postings@[q].field as int,
                                t0[i].postings@[q].doc as int,
                                t0[i].postings@[q].positions@[k] as int,
                            ));
                        }
                    }
                    assert forall|t: Seq<u8>, d2: int, f2: int, p2: int|
                        #[trigger] spec_occurs(inputs, t, f2, d2, p2) && occ_before(
                        d2,
                        f2,
                        p2,
                        d as int,
                        f as int,
                        p + 1,
                    ) implies spec_indexed_at(t1, t, f2, d2, p2) by {
                        if occ_before(d2, f2, p2, d as int, f as int, p as int) {
                            assert(spec_indexed_at(t0, t, f2, d2, p2));
                            let (i, q) = choose|i: int, q: int|
                                0 <= i < t0.len() && 0 <= q < t0[i].postings@.len() && t0[i].term@
                                    == t && t0[i].postings@[q].field == f2
                                    && t0[i].postings@[q].doc == d2 && spec_pos_in(
                                    t0[i].postings@[q].positions@,
                                    p2,
                                );
                            if i == ti as int && q == lastq as int {
                                let k = choose|k: int|
                                    0 <= k < ps0[q].positions@.len() && ps0[q].positions@[k] == p2;
                                assert(t1[i].postings@[q].positions@[k] == p2);
                                assert(spec_pos_in(t1[i].postings@[q].positions@, p2));
                                assert(spec_indexed_at(t1, t, f2, d2, p2));
                            } else {
                                assert(t1[i].postings@[q] == t0[i].postings@[q]);
                                assert(t1[i].term@ == t0[i].term@);
                                assert(spec_indexed_at(t1, t, f2, d2, p2));
                            }
                        } else {
                            assert(d2 == d as int && f2 == f as int && p2 == p as int);
                            assert(t == tok@);
                            let i = ti as int;
                            let q = lastq as int;
                            let kk = t1[i].postings@[q].positions@.len() - 1;
                            assert(t1[i].postings@[q].positions@[kk] == p as u32);
                            assert(spec_pos_in(t1[i].postings@[q].positions@, p as int));
                            assert(spec_indexed_at(t1, t, f2, d2, p2));
                        }
                    }
                }
            } else {
                let mut positions: Vec<u32> = Vec::new();
                positions.push(p as u32);
                proof {
                    // the last posting is not at (d, f), so by the strict
                    // (doc, field) ordering no posting of this entry is:
                    // every posting sits strictly before (d, f).
                    let lq = ps0.len() - 1;
                    assert forall|q: int| 0 <= q < ps0.len() implies (ps0[q].doc < d as int || (
                    ps0[q].doc == d as int && ps0[q].field < f as int)) by {
                        assert(posting_progress(ps0[q], d as int, f as int, p as int));
                        if ps0[q].doc == d as int && ps0[q].field == f as int {
                            if q < lq {
                                assert(posting_before(ps0[q], ps0[lq]));
                                assert(posting_progress(ps0[lq], d as int, f as int, p as int));
                                assert(false);
                            } else {
                                assert(false);
                            }
                        }
                    }
                }
                terms[ti].postings.push(Posting { field: f as u32, doc: d as u32, positions });
                proof {
                    let t1 = terms@;
                    let newq = t1[ti as int].postings@.len() - 1;
                    assert(t1[ti as int].postings@[newq].positions@ =~= seq![p as u32]);
                    assert(t1[ti as int].postings@[newq].field == f as u32);
                    assert(t1[ti as int].postings@[newq].doc == d as u32);
                    assert forall|i: int| 0 <= i < t1.len() && i != ti as int implies t1[i]
                        == t0[i] by {}
                    assert forall|i: int| 0 <= i < t1.len() implies postings_wf(
                        (#[trigger] t1[i]).postings@,
                        nfields,
                        ndocs,
                    ) by {
                        assert(postings_wf(t0[i].postings@, nfields, ndocs));
                        if i == ti as int {
                            let ps1 = t1[i].postings@;
                            assert forall|q: int| 0 <= q < ps1.len() implies (#[trigger] ps1[q]).field
                                < nfields && ps1[q].doc < ndocs && ps1[q].positions@.len() > 0
                                && u32_sorted(ps1[q].positions@) by {
                                if q < newq {
                                    assert(ps1[q] == ps0[q]);
                                } else {
                                    assert(ps1[q].positions@.len() == 1);
                                }
                            }
                            assert forall|q1: int, q2: int| 0 <= q1 < q2 < ps1.len()
                                implies posting_before(ps1[q1], ps1[q2]) by {
                                if q2 < newq {
                                    assert(posting_before(ps0[q1], ps0[q2]));
                                } else {
                                    assert(ps1[q1] == ps0[q1]);
                                    assert(ps0[q1].doc < d as int || (ps0[q1].doc == d as int
                                        && ps0[q1].field < f as int));
                                }
                            }
                        }
                    }
                    assert(entries_wf(t1, nfields, ndocs));
                    assert forall|i: int, q: int, k: int|
                        0 <= i < t1.len() && 0 <= q < t1[i].postings@.len() && 0 <= k
                            < t1[i].postings@[q].positions@.len() implies spec_occurs(
                        inputs,
                        t1[i].term@,
                        t1[i].postings@[q].field as int,
                        t1[i].postings@[q].doc as int,
                        #[trigger] t1[i].postings@[q].positions@[k] as int,
                    ) by {
                        if i == ti as int && q == newq {
                            assert(t1[i].postings@[q].positions@[k] == p as u32);
                            assert(t1[i].term@ == tok@);
                        } else {
                            assert(t1[i].postings@[q] == t0[i].postings@[q]);
                            assert(t1[i].term@ == t0[i].term@);
                            assert(spec_occurs(
                                inputs,
                                t0[i].term@,
                                t0[i].postings@[q].field as int,
                                t0[i].postings@[q].doc as int,
                                t0[i].postings@[q].positions@[k] as int,
                            ));
                        }
                    }
                    assert forall|i: int, q: int|
                        0 <= i < t1.len() && 0 <= q < t1[i].postings@.len() implies posting_progress(
                        #[trigger] t1[i].postings@[q],
                        d as int,
                        f as int,
                        p + 1,
                    ) by {
                        if i == ti as int && q == newq {
                        } else {
                            assert(t1[i].postings@[q] == t0[i].postings@[q]);
                            assert(posting_progress(
                                t0[i].postings@[q],
                                d as int,
                                f as int,
                                p as int,
                            ));
                        }
                    }
                    assert forall|t: Seq<u8>, d2: int, f2: int, p2: int|
                        #[trigger] spec_occurs(inputs, t, f2, d2, p2) && occ_before(
                        d2,
                        f2,
                        p2,
                        d as int,
                        f as int,
                        p + 1,
                    ) implies spec_indexed_at(t1, t, f2, d2, p2) by {
                        if occ_before(d2, f2, p2, d as int, f as int, p as int) {
                            assert(spec_indexed_at(t0, t, f2, d2, p2));
                            let (i, q) = choose|i: int, q: int|
                                0 <= i < t0.len() && 0 <= q < t0[i].postings@.len() && t0[i].term@
                                    == t && t0[i].postings@[q].field == f2
                                    && t0[i].postings@[q].doc == d2 && spec_pos_in(
                                    t0[i].postings@[q].positions@,
                                    p2,
                                );
                            assert(t1[i].postings@[q] == t0[i].postings@[q]);
                            assert(t1[i].term@ == t0[i].term@);
                            assert(spec_indexed_at(t1, t, f2, d2, p2));
                        } else {
                            assert(d2 == d as int && f2 == f as int && p2 == p as int);
                            assert(t == tok@);
                            let i = ti as int;
                            assert(t1[i].postings@[newq].doc == d as u32);
                            assert(t1[i].postings@[newq].positions@[0] == p as u32);
                            assert(spec_pos_in(t1[i].postings@[newq].positions@, p as int));
                            assert(spec_indexed_at(t1, t, f2, d2, p2));
                        }
                    }
                }
            }
        },
    }
}

impl Index {
    /// Builds an index over `inputs` for `schema`: tokenizes every field
    /// of every document and records each token occurrence. The result
    /// is well formed, carries the schema's fingerprint and the given
    /// document metadata, and its dictionary records exactly the token
    /// occurrences of the inputs.
    pub fn build(schema: &Schema, inputs: &Vec<DocumentInput>) -> (r: Index)
        requires
            schema.wf(),
            inputs@.len() <= u32::MAX,
            forall|i: int|
                0 <= i < inputs@.len() ==> (#[trigger] inputs@[i]).fields@.len()
                    == schema.fields@.len(),
            forall|i: int, j: int| 0 <= i < j < inputs@.len() ==> inputs@[i].id < inputs@[j].id,
            forall|i: int, f: int|
                0 <= i < inputs@.len() && 0 <= f < inputs@[i].fields@.len()
                    ==> inputs@[i].fields@[f]@.len() <= u32::MAX,
        ensures
            index_wf(r, schema.fields@.len() as int),
            r.fingerprint == spec_fingerprint(schema.fields@),
            r.docs@.len() == inputs@.len(),
            forall|i: int|
                0 <= i < inputs@.len() ==> (#[trigger] r.docs@[i]).id == inputs@[i].id
                    && r.docs@[i].boost == inputs@[i].boost && r.docs@[i].title@
                    == inputs@[i].title@,
            forall|t: Seq<u8>, f: int, d: int, p: int|
                #![trigger spec_occurs(inputs@, t, f, d, p)]
                #![trigger spec_indexed_at(r.terms@, t, f, d, p)]
                spec_indexed_at(r.terms@, t, f, d, p) <==> spec_occurs(inputs@, t, f, d, p),
    {
        let ghost nfields = schema.fields@.len() as int;
        let ghost n = inputs@.len() as int;
        let mut docs: Vec<DocMeta> = Vec::new();
        let mut d: usize = 0;
        while d < inputs.len()
            invariant
                d <= inputs@.len(),
                docs@.len() == d,
                forall|i: int|
                    0 <= i < d ==> (#[trigger] docs@[i]).id == inputs@[i].id && docs@[i].boost
                        == inputs@[i].boost && docs@[i].title@ == inputs@[i].title@,
            decreases inputs@.len() - d,
        {
            let inp = &inputs[d];
            docs.push(DocMeta { id: inp.id, boost: inp.boost, title: clone_bytes(&inp.title) });
            d = d + 1;
        }
        let mut terms: Vec<TermEntry> = Vec::new();
        let mut d: usize = 0;
        while d < inputs.len()
            invariant
                d <= inputs@.len(),
                n == inputs@.len(),
                nfields == schema.fields@.len(),
                nfields <= MAX_FIELDS,
                n <= u32::MAX,
                forall|i: int|
                    0 <= i < inputs@.len() ==> (#[trigger] inputs@[i]).fields@.len() == nfields,
                forall|i: int, f: int|
                    0 <= i < inputs@.len() && 0 <= f < inputs@[i].fields@.len()
                        ==> inputs@[i].fields@[f]@.len() <= u32::MAX,
                entries_wf(terms@, nfields, n),
                entries_progress(terms@, d as int, 0, 0),
                entries_complete(inputs@, terms@, d as int, 0, 0),
                entries_sound(inputs@, terms@),
            decreases inputs@.len() - d,
        {
            let inp = &inputs[d];
            let mut f: usize = 0;
            while f < inp.fields.len()
                invariant
                    d < inputs@.len(),
                    inp == inputs@[d as int],
                    f <= inp.fields@.len(),
                    n == inputs@.len(),
                    nfields == schema.fields@.len(),
                    nfields <= MAX_FIELDS,
                    n <= u32::MAX,
                    inp.fields@.len() == nfields,
                    forall|ff: int|
                        0 <= ff < inp.fields@.len() ==> inp.fields@[ff]@.len() <= u32::MAX,
                    entries_wf(terms@, nfields, n),
                    entries_progress(terms@, d as int, f as int, 0),
                    entries_complete(inputs@, terms@, d as int, f as int, 0),
                    entries_sound(inputs@, terms@),
                decreases inp.fields@.len() - f,
            {
                let toks = tokenize(&inp.fields[f]);
                proof {
                    lemma_tokenize_props(inp.fields@[f as int]@);
                }
                let mut p: usize = 0;
                while p < toks.len()
                    invariant
                        d < inputs@.len(),
                        inp == inputs@[d as int],
                        f < inp.fields@.len(),
                        p <= toks@.len(),
                        n == inputs@.len(),
                        nfields == schema.fields@.len(),
                        nfields <= MAX_FIELDS,
                        n <= u32::MAX,
                        inp.fields@.len() == nfields,
                        inp.fields@[f as int]@.len() <= u32::MAX,
                        token_views(toks@) == spec_tokenize(inp.fields@[f as int]@),
                        toks@.len() <= u32::MAX,
                        forall|i: int| 0 <= i < toks@.len() ==> token_views(toks@)[i].len() > 0,
                        entries_wf(terms@, nfields, n),
                        entries_progress(terms@, d as int, f as int, p as int),
                        entries_complete(inputs@, terms@, d as int, f as int, p as int),
                        entries_sound(inputs@, terms@),
                    decreases toks@.len() - p,
                {
                    proof {
                        assert(token_views(toks@)[p as int] == toks@[p as int]@);
                        assert(spec_occurs(inputs@, toks@[p as int]@, f as int, d as int, p as int));
                    }
                    insert_occurrence(
                        &mut terms,
                        &toks[p],
                        d,
                        f,
                        p,
                        Ghost(inputs@),
                        Ghost(nfields),
                        Ghost(n),
                    );
                    p = p + 1;
                }
                proof {
                    // advance progress and completeness to field f + 1
                    assert forall|i: int, q: int|
                        0 <= i < terms@.len() && 0 <= q < terms@[i].postings@.len()
                            implies posting_progress(
                        #[trigger] terms@[i].postings@[q],
                        d as int,
                        f + 1,
                        0,
                    ) by {
                        assert(posting_progress(terms@[i].postings@[q], d as int, f as int, p as int));
                    }
                    assert forall|t: Seq<u8>, d2: int, f2: int, p2: int|
                        #[trigger] spec_occurs(inputs@, t, f2, d2, p2) && occ_before(
                        d2,
                        f2,
                        p2,
                        d as int,
                        f + 1,
                        0,
                    ) implies spec_indexed_at(terms@, t, f2, d2, p2) by {
                        if d2 == d as int && f2 == f as int {
                            assert(p2 < spec_tokenize(inputs@[d2].fields@[f2]@).len());
                            assert(occ_before(d2, f2, p2, d as int, f as int, p as int));
                        } else {
                            assert(occ_before(d2, f2, p2, d as int, f as int, p as int));
                        }
                    }
                }
                f = f + 1;
            }
            proof {
                // advance progress and completeness to document d + 1
                assert forall|i: int, q: int|
                    0 <= i < terms@.len() && 0 <= q < terms@[i].postings@.len()
                        implies posting_progress(
                    #[trigger] terms@[i].postings@[q],
                    d + 1,
                    0,
                    0,
                ) by {
                    assert(posting_progress(terms@[i].postings@[q], d as int, f as int, 0));
                }
                assert forall|t: Seq<u8>, d2: int, f2: int, p2: int|
                    #[trigger] spec_occurs(inputs@, t, f2, d2, p2) && occ_before(
                    d2,
                    f2,
                    p2,
                    d + 1,
                    0,
                    0,
                ) implies spec_indexed_at(terms@, t, f2, d2, p2) by {
                    if d2 == d as int {
                        assert(f2 < inputs@[d2].fields@.len());
                        assert(occ_before(d2, f2, p2, d as int, f as int, 0));
                    } else {
                        assert(occ_before(d2, f2, p2, d as int, f as int, 0));
                    }
                }
            }
            d = d + 1;
        }
        let fingerprint = schema.fingerprint();
        let r = Index { fingerprint, docs, terms };
        proof {
            assert forall|t: Seq<u8>, f: int, dd: int, p: int|
                #![trigger spec_occurs(inputs@, t, f, dd, p)]
                #![trigger spec_indexed_at(r.terms@, t, f, dd, p)]
                spec_indexed_at(r.terms@, t, f, dd, p) <==> spec_occurs(
                inputs@,
                t,
                f,
                dd,
                p,
            ) by {
                if spec_indexed_at(r.terms@, t, f, dd, p) {
                    let (i, q) = choose|i: int, q: int|
                        0 <= i < r.terms@.len() && 0 <= q < r.terms@[i].postings@.len()
                            && r.terms@[i].term@ == t && r.terms@[i].postings@[q].field == f
                            && r.terms@[i].postings@[q].doc == dd && spec_pos_in(
                            r.terms@[i].postings@[q].positions@,
                            p,
                        );
                    let k = choose|k: int|
                        0 <= k < r.terms@[i].postings@[q].positions@.len()
                            && r.terms@[i].postings@[q].positions@[k] == p;
                    assert(spec_occurs(inputs@, t, f, dd, p));
                }
                if spec_occurs(inputs@, t, f, dd, p) {
                    assert(occ_before(dd, f, p, n, 0, 0));
                    assert(spec_indexed_at(r.terms@, t, f, dd, p));
                }
            }
        }
        r
    }
}

} // verus!
