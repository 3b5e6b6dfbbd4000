use vstd::prelude::*;
use crate::distance::{fuzzy_penalty, spec_fuzzy_penalty};
use crate::index::{entries_wf, posting_before, Index};
use crate::query::Candidate;
use crate::schema::{FieldDef, Schema};
use crate::types::{DocMeta, MatchSpan, Posting, ResultEntry, SearchError, TermEntry, TF_CAP};

verus! {

/// Largest possible scoring contribution of a single posting:
/// the largest field weight times the term-frequency cap times the
/// exact-match penalty scale.
pub const CONTRIB_MAX: u64 = 4294967295 * 25500;

pub open spec fn min_int(a: int, b: int) -> int {
    if a <= b {
        a
    } else {
        b
    }
}

/// The views of an executable candidate list.
pub open spec fn cand_views(cs: Seq<Candidate>) -> Seq<(int, nat)> {
    cs.map_values(|c: Candidate| (c.term_idx as int, c.dist as nat))
}

/// Scoring contribution of one posting matched at edit distance `dist`:
/// field weight times capped term frequency times the fuzzy penalty.
pub open spec fn spec_contrib(fields: Seq<FieldDef>, dist: nat, pb: Posting) -> nat {
    (fields[pb.field as int].weight as nat) * min_int(
        pb.positions@.len() as int,
        TF_CAP as int,
    ) as nat * spec_fuzzy_penalty(dist)
}

/// Sum of the contributions of the postings of one dictionary term that
/// belong to document slot `dd`.
pub open spec fn spec_sum_postings(fields: Seq<FieldDef>, ps: Seq<Posting>, dist: nat, dd: int) -> nat
    decreases ps.len(),
{
    if ps.len() == 0 {
        0
    } else {
        spec_sum_postings(fields, ps.drop_last(), dist, dd) + (if ps.last().doc == dd {
            spec_contrib(fields, dist, ps.last())
        } else {
            0
        })
    }
}

/// Whether any posting in `ps` belongs to document slot `dd`.
pub open spec fn spec_seen_in(ps: Seq<Posting>, dd: int) -> bool {
    exists|q: int| 0 <= q < ps.len() && ps[q].doc == dd
}

/// Base score of document slot `dd`: the summed contributions of all
/// resolved query terms.
pub open spec fn spec_doc_base(
    fields: Seq<FieldDef>,
    terms: Seq<TermEntry>,
    cands: Seq<(int, nat)>,
    dd: int,
) -> nat
    decreases cands.len(),
{
    if cands.len() == 0 {
        0
    } else {
        spec_doc_base(fields, terms, cands.drop_last(), dd) + spec_sum_postings(
            fields,
            terms[cands.last().0].postings@,
            cands.last().1,
            dd,
        )
    }
}

/// How many resolved query terms match document slot `dd` at all.
pub open spec fn spec_doc_matched(terms: Seq<TermEntry>, cands: Seq<(int, nat)>, dd: int) -> nat
    decreases cands.len(),
{
    if cands.len() == 0 {
        0
    } else {
        spec_doc_matched(terms, cands.drop_last(), dd) + (if spec_seen_in(
            terms[cands.last().0].postings@,
            dd,
        ) {
            1nat
        } else {
            0nat
        })
    }
}

/// Aggregate score: the base score multiplied by the number of distinct
/// matched query terms (the coordination bonus, favoring documents that
/// match more of the query).
pub open spec fn spec_doc_score(
    fields: Seq<FieldDef>,
    terms: Seq<TermEntry>,
    cands: Seq<(int, nat)>,
    dd: int,
) -> nat {
    spec_doc_base(fields, terms, cands, dd) * spec_doc_matched(terms, cands, dd)
}

pub open spec fn spec_matched_doc(terms: Seq<TermEntry>, cands: Seq<(int, nat)>, dd: int) -> bool {
    spec_doc_matched(terms, cands, dd) > 0
}

/// Match spans of one postings list for document slot `dd`, in postings
/// order.
pub open spec fn spec_spans_postings(ps: Seq<Posting>, dd: int) -> Seq<(u32, Seq<u32>)>
    decreases ps.len(),
{
    if ps.len() == 0 {
        Seq::empty()
    } else {
        spec_spans_postings(ps.drop_last(), dd) + (if ps.last().doc == dd {
            seq![(ps.last().field, ps.last().positions@)]
        } else {
            Seq::empty()
        })
    }
}

/// All match spans of document slot `dd`, grouped by resolved query term
/// in resolution order.
pub open spec fn spec_doc_spans(
    terms: Seq<TermEntry>,
    cands: Seq<(int, nat)>,
    dd: int,
) -> Seq<(u32, Seq<u32>)>
    decreases cands.len(),
{
    if cands.len() == 0 {
        Seq::empty()
    } else {
        spec_doc_spans(terms, cands.drop_last(), dd) + spec_spans_postings(
            terms[cands.last().0].postings@,
            dd,
        )
    }
}

pub open spec fn span_views(s: Seq<MatchSpan>) -> Seq<(u32, Seq<u32>)> {
    s.map_values(|m: MatchSpan| (m.field, m.positions@))
}

/// A candidate list is valid for a dictionary when every entry index is
/// in range.
pub open spec fn cands_valid(cands: Seq<(int, nat)>, terms: Seq<TermEntry>) -> bool {
    forall|k: int| 0 <= k < cands.len() ==> 0 <= (#[trigger] cands[k]).0 < terms.len()
}

/// Each posting contributes at most `CONTRIB_MAX`.
pub proof fn lemma_contrib_bound(fields: Seq<FieldDef>, dist: nat, pb: Posting)
    requires
        (pb.field as int) < fields.len(),
    ensures
        spec_contrib(fields, dist, pb) <= CONTRIB_MAX,
{
    let w = fields[pb.field as int].weight as nat;
    let tf = min_int(pb.positions@.len() as int, TF_CAP as int) as nat;
    let pen = spec_fuzzy_penalty(dist);
    assert(100nat / (dist + 1) <= 100) by (nonlinear_arith);
    assert(pen <= 100);
    assert(w <= 4294967295 && tf <= 255);
    assert(w * tf * pen <= 4294967295 * 255 * 100) by (nonlinear_arith)
        requires
            w <= 4294967295,
            tf <= 255,
            pen <= 100,
    ;
}

/// The postings of one term contribute to one document at most
/// `maxf * CONTRIB_MAX`, where `maxf` strictly bounds the fields of the
/// postings of that document — a document matches a term in at most one
/// posting per field.
pub proof fn lemma_sum_postings_bound(
    fields: Seq<FieldDef>,
    ps: Seq<Posting>,
    dist: nat,
    dd: int,
    maxf: int,
)
    requires
        0 <= maxf,
        forall|q: int| 0 <= q < ps.len() ==> (#[trigger] ps[q]).field < fields.len(),
        forall|q1: int, q2: int| 0 <= q1 < q2 < ps.len() ==> posting_before(ps[q1], ps[q2]),
        forall|q: int| 0 <= q < ps.len() && (#[trigger] ps[q]).doc == dd ==> (ps[q].field as int)
            < maxf,
    ensures
        spec_sum_postings(fields, ps, dist, dd) <= maxf * CONTRIB_MAX,
    decreases ps.len(),
{
    if ps.len() == 0 {
        assert(0 <= maxf * CONTRIB_MAX) by (nonlinear_arith)
            requires
                0 <= maxf,
        ;
    } else {
        let pre = ps.drop_last();
        let last = ps.last();
        assert(forall|q1: int, q2: int|
            0 <= q1 < q2 < pre.len() ==> posting_before(pre[q1], pre[q2]));
        if last.doc == dd {
            let fl = last.field as int;
            assert forall|q: int| 0 <= q < pre.len() && (#[trigger] pre[q]).doc == dd implies (
            pre[q].field as int) < fl by {
                assert(posting_before(ps[q], last));
            }
            lemma_sum_postings_bound(fields, pre, dist, dd, fl);
            lemma_contrib_bound(fields, dist, last);
            assert(fl * CONTRIB_MAX + CONTRIB_MAX <= maxf * CONTRIB_MAX) by (nonlinear_arith)
                requires
                    fl + 1 <= maxf,
                    0 <= fl,
            ;
        } else {
            lemma_sum_postings_bound(fields, pre, dist, dd, maxf);
        }
    }
}

/// The base score is bounded by the number of resolved terms times the
/// per-term bound.
pub proof fn lemma_doc_base_bound(
    fields: Seq<FieldDef>,
    terms: Seq<TermEntry>,
    cands: Seq<(int, nat)>,
    dd: int,
    ndocs: int,
)
    requires
        cands_valid(cands, terms),
        entries_wf(terms, fields.len() as int, ndocs),
    ensures
        spec_doc_base(fields, terms, cands, dd) <= cands.len() * (fields.len() * CONTRIB_MAX),
    decreases cands.len(),
{
    if cands.len() == 0 {
    } else {
        let pre = cands.drop_last();
        let last = cands.last();
        assert(cands_valid(pre, terms));
        lemma_doc_base_bound(fields, terms, pre, dd, ndocs);
        let ps = terms[last.0].postings@;
        assert(crate::index::postings_wf(ps, fields.len() as int, ndocs));
        lemma_sum_postings_bound(fields, ps, last.1, dd, fields.len() as int);
        assert((cands.len() - 1) * (fields.len() * CONTRIB_MAX) + fields.len() * CONTRIB_MAX
            == cands.len() * (fields.len() * CONTRIB_MAX)) by (nonlinear_arith);
    }
}

/// A document matches at most as many terms as there are.
pub proof fn lemma_doc_matched_le(terms: Seq<TermEntry>, cands: Seq<(int, nat)>, dd: int)
    ensures
        spec_doc_matched(terms, cands, dd) <= cands.len(),
    decreases cands.len(),
{
    if cands.len() == 0 {
    } else {
        lemma_doc_matched_le(terms, cands.drop_last(), dd);
    }
}

/// First scoring pass: walks the postings of every resolved query term
/// and accumulates, for every document slot, the base score, the count
/// of matched terms, and the match spans.
pub fn score_documents(
    fields: &Vec<FieldDef>,
    terms: &Vec<TermEntry>,
    cands: &Vec<Candidate>,
    ndocs: usize,
) -> (r: (Vec<u64>, Vec<u32>, Vec<Vec<MatchSpan>>))
    requires
        entries_wf(terms@, fields@.len() as int, ndocs as int),
        cands_valid(cand_views(cands@), terms@),
        cands@.len() <= 16,
        fields@.len() <= 64,
    ensures
        r.0@.len() == ndocs && r.1@.len() == ndocs && r.2@.len() == ndocs,
        forall|dd: int|
            0 <= dd < ndocs ==> r.0@[dd] == spec_doc_base(
                fields@,
                terms@,
                cand_views(cands@),
                dd,
            ),
        forall|dd: int|
            0 <= dd < ndocs ==> r.1@[dd] == spec_doc_matched(terms@, cand_views(cands@), dd),
        forall|dd: int|
            0 <= dd < ndocs ==> span_views(r.2@[dd]@) == spec_doc_spans(
                terms@,
                cand_views(cands@),
                dd,
            ),
{
    let ghost cv = cand_views(cands@);
    let mut scores: Vec<u64> = Vec::new();
    let mut matched: Vec<u32> = Vec::new();
    let mut spans: Vec<Vec<MatchSpan>> = Vec::new();
    let mut dd: usize = 0;
    while dd < ndocs
        invariant
            dd <= ndocs,
            scores@.len() == dd && matched@.len() == dd && spans@.len() == dd,
            forall|k: int| 0 <= k < dd ==> scores@[k] == 0,
            forall|k: int| 0 <= k < dd ==> matched@[k] == 0,
            forall|k: int| 0 <= k < dd ==> spans@[k]@.len() == 0,
        decreases ndocs - dd,
    {
        scores.push(0);
        matched.push(0);
        spans.push(Vec::new());
        dd = dd + 1;
    }
    proof {
        assert(cv.take(0) =~= Seq::<(int, nat)>::empty());
        assert forall|k: int| 0 <= k < ndocs implies span_views(spans@[k]@) == spec_doc_spans(
            terms@,
            cv.take(0),
            k,
        ) by {
            assert(span_views(spans@[k]@) =~= Seq::<(u32, Seq<u32>)>::empty());
        }
    }
    let mut c: usize = 0;
    while c < cands.len()
        invariant
            c <= cands@.len(),
            cv == cand_views(cands@),
            cands@.len() <= 16,
            fields@.len() <= 64,
            entries_wf(terms@, fields@.len() as int, ndocs as int),
            cands_valid(cv, terms@),
            scores@.len() == ndocs && matched@.len() == ndocs && spans@.len() == ndocs,
            forall|k: int| 0 <= k < ndocs ==> scores@[k] == spec_doc_base(fields@, terms@, cv.take(c as int), k),
            forall|k: int|
                0 <= k < ndocs ==> matched@[k] == spec_doc_matched(terms@, cv.take(c as int), k),
            forall|k: int|
                0 <= k < ndocs ==> span_views(spans@[k]@) == spec_doc_spans(
                    terms@,
                    cv.take(c as int),
                    k,
                ),
        decreases cands@.len() - c,
    {
        let ti = cands[c].term_idx;
        let dist = cands[c].dist;
        proof {
            assert(cv[c as int] == (ti as int, dist as nat));
        }
        let pen = fuzzy_penalty(dist);
        let nps = terms[ti].postings.len();
        let mut q: usize = 0;
        proof {
            let ps = terms@[ti as int].postings@;
            assert(ps.take(0) =~= Seq::<Posting>::empty());
        }
        while q < nps
            invariant
                q <= nps,
                c < cands@.len(),
                cv == cand_views(cands@),
                cands@.len() <= 16,
                fields@.len() <= 64,
                entries_wf(terms@, fields@.len() as int, ndocs as int),
                cands_valid(cv, terms@),
                ti < terms@.len(),
                cv[c as int] == (ti as int, dist as nat),
                nps == terms@[ti as int].postings@.len(),
                pen == spec_fuzzy_penalty(dist as nat),
                pen <= 100,
                scores@.len() == ndocs && matched@.len() == ndocs && spans@.len() == ndocs,
                forall|k: int|
                    0 <= k < ndocs ==> scores@[k] == spec_doc_base(fields@, terms@, cv.take(c as int), k)
                        + spec_sum_postings(
                        fields@,
                        terms@[ti as int].postings@.take(q as int),
                        dist as nat,
                        k,
                    ),
                forall|k: int|
                    0 <= k < ndocs ==> matched@[k] == spec_doc_matched(terms@, cv.take(c as int), k)
                        + (if spec_seen_in(terms@[ti as int].postings@.take(q as int), k) {
                        1int
                    } else {
                        0int
                    }),
                forall|k: int|
                    0 <= k < ndocs ==> span_views(spans@[k]@) == spec_doc_spans(
                        terms@,
                        cv.take(c as int),
                        k,
                    ) + spec_spans_postings(
                        terms@[ti as int].postings@.take(q as int),
                        k,
                    ),
            decreases nps - q,
        {
            let ghost ps = terms@[ti as int].postings@;
            proof {
                assert(ps.take(q as int + 1).drop_last() =~= ps.take(q as int));
                assert(ps.take(q as int + 1).last() == ps[q as int]);
            }
            let pdoc = terms[ti].postings[q].doc as usize;
            let pfield = terms[ti].postings[q].field as usize;
            proof {
                assert(crate::index::postings_wf(ps, fields@.len() as int, ndocs as int));
                assert(ps[q as int].field < fields@.len());
                assert(ps[q as int].doc < ndocs);
            }
            let npos = terms[ti].postings[q].positions.len();
            let tf: u64 = if npos > TF_CAP as usize {
                TF_CAP
            } else {
                npos as u64
            };
            let w = fields[pfield].weight as u64;
            proof {
                assert(w * tf <= 4294967295 * 255) by (nonlinear_arith)
                    requires
                        w <= 4294967295,
                        tf <= 255,
                ;
                assert(w * tf * pen <= 4294967295 * 255 * 100) by (nonlinear_arith)
                    requires
                        w * tf <= 4294967295 * 255,
                        pen <= 100,
                ;
                assert(w * tf * pen == spec_contrib(fields@, dist as nat, ps[q as int]));
            }
            let gain = w * tf * pen;
            proof {
                lemma_doc_base_bound(fields@, terms@, cv.take(c as int), pdoc as int, ndocs as int)
                ;
                assert(cv.take(c as int).len() * (fields@.len() * CONTRIB_MAX) <= 16 * (64
                    * CONTRIB_MAX)) by (nonlinear_arith)
                    requires
                        0 <= cv.take(c as int).len() <= 16,
                        0 <= fields@.len() <= 64,
                ;
                lemma_sum_postings_bound(
                    fields@,
                    ps.take(q as int),
                    dist as nat,
                    pdoc as int,
                    fields@.len() as int,
                );
                assert(fields@.len() * CONTRIB_MAX <= 64 * CONTRIB_MAX) by (nonlinear_arith)
                    requires
                        0 <= fields@.len() <= 64,
                ;
            }
            let ghost scores0 = scores@;
            let prev_score = scores[pdoc];
            scores[pdoc] = prev_score + gain;
            proof {
                assert forall|k: int| 0 <= k < ndocs implies scores@[k] == spec_doc_base(
                    fields@,
                    terms@,
                    cv.take(c as int),
                    k,
                ) + spec_sum_postings(fields@, ps.take(q as int + 1), dist as nat, k) by {
                    if k == pdoc as int {
                        assert(scores@[k] == scores0[k] + gain);
                    } else {
                        assert(scores@[k] == scores0[k]);
                    }
                }
            }
            // count each resolved term once per document: postings are
            // ordered by (document, field), so a document's postings for
            // this term are contiguous
            let first_for_doc = q == 0 || terms[ti].postings[q - 1].doc as usize != pdoc;
            proof {
                if first_for_doc {
                    if spec_seen_in(ps.take(q as int), pdoc as int) {
                        let q2 = choose|q2: int|
                            0 <= q2 < q && (#[trigger] ps.take(q as int)[q2]).doc == pdoc as int;
                        assert(posting_before(ps[q2], ps[q as int - 1]) || q2 == q - 1);
                        assert(posting_before(ps[q as int - 1], ps[q as int]));
                        assert(false);
                    }
                } else {
                    assert(ps.take(q as int)[q as int - 1].doc == pdoc as int);
                    assert(spec_seen_in(ps.take(q as int), pdoc as int));
                }
                assert(spec_seen_in(ps.take(q as int + 1), pdoc as int)) by {
                    assert(ps.take(q as int + 1)[q as int].doc == pdoc as int);
                }
                assert forall|k: int|
                    0 <= k < ndocs && k != pdoc as int implies (spec_seen_in(
                    ps.take(q as int + 1),
                    k,
                ) == spec_seen_in(ps.take(q as int), k)) by {
                    if spec_seen_in(ps.take(q as int + 1), k) {
                        let q2 = choose|q2: int|
                            0 <= q2 < q + 1 && (#[trigger] ps.take(q as int + 1)[q2]).doc == k;
                        assert(q2 != q);
                        assert(ps.take(q as int)[q2].doc == k);
                    }
                }
            }
            let ghost matched0 = matched@;
            if first_for_doc {
                let prev_m = matched[pdoc];
                proof {
                    lemma_doc_matched_le(terms@, cv.take(c as int), pdoc as int);
                }
                matched[pdoc] = prev_m + 1;
            }
            proof {
                assert forall|k: int| 0 <= k < ndocs implies matched@[k] == spec_doc_matched(
                    terms@,
                    cv.take(c as int),
                    k,
                ) + (if spec_seen_in(ps.take(q as int + 1), k) {
                    1int
                } else {
                    0int
                }) by {
                    if k != pdoc as int {
                        assert(matched@[k] == matched0[k]);
                    }
                }
            }
            let mut posv: Vec<u32> = Vec::new();
            let mut pk: usize = 0;
            while pk < terms[ti].postings[q].positions.len()
                invariant
                    ti < terms@.len(),
                    q < terms@[ti as int].postings@.len(),
                    pk <= terms@[ti as int].postings@[q as int].positions@.len(),
                    posv@ == terms@[ti as int].postings@[q as int].positions@.take(pk as int),
                decreases terms@[ti as int].postings@[q as int].positions@.len() - pk,
            {
                proof {
                    let pp = terms@[ti as int].postings@[q as int].positions@;
                    assert(pp.take(pk as int).push(pp[pk as int]) =~= pp.take(pk as int + 1));
                }
                posv.push(terms[ti].postings[q].positions[pk]);
                pk = pk + 1;
            }
            proof {
                let pp = terms@[ti as int].postings@[q as int].positions@;
                assert(posv@ =~= pp);
            }
            let ghost spans0 = spans@;
            spans[pdoc].push(MatchSpan { field: pfield as u32, positions: posv });
            proof {
                assert(span_views(spans@[pdoc as int]@) =~= span_views(spans0[pdoc as int]@)
                    + seq![(ps[q as int].field, ps[q as int].positions@)]);
                assert(spec_spans_postings(ps.take(q as int + 1), pdoc as int)
                    == spec_spans_postings(ps.take(q as int), pdoc as int) + seq![
                    (ps[q as int].field, ps[q as int].positions@),
                ]);
                assert forall|k: int| 0 <= k < ndocs implies span_views(spans@[k]@)
                    == spec_doc_spans(terms@, cv.take(c as int), k) + spec_spans_postings(
                    ps.take(q as int + 1),
                    k,
                ) by {
                    if k == pdoc as int {
                        assert(span_views(spans@[k]@) =~= spec_doc_spans(
                            terms@,
                            cv.take(c as int),
                            k,
                        ) + spec_spans_postings(ps.take(q as int + 1), k));
                    } else {
                        assert(spans@[k] == spans0[k]);
                        assert(spec_spans_postings(ps.take(q as int + 1), k)
                            =~= spec_spans_postings(ps.take(q as int), k));
                    }
                }
            }
            q = q + 1;
        }
        proof {
            let ps = terms@[ti as int].postings@;
            assert(ps.take(q as int) =~= ps);
            assert(cv.take(c as int + 1).drop_last() =~= cv.take(c as int));
            assert(cv.take(c as int + 1).last() == cv[c as int]);
            assert forall|k: int| 0 <= k < ndocs implies span_views(spans@[k]@) == spec_doc_spans(
                terms@,
                cv.take(c as int + 1),
                k,
            ) by {
                assert(span_views(spans@[k]@) == spec_doc_spans(terms@, cv.take(c as int), k)
                    + spec_spans_postings(ps.take(q as int), k));
                assert(spec_spans_postings(ps.take(q as int), k) == spec_spans_postings(ps, k));
                assert(spec_doc_spans(terms@, cv.take(c as int + 1), k) == spec_doc_spans(
                    terms@,
                    cv.take(c as int),
                    k,
                ) + spec_spans_postings(ps, k));
            }
        }
        c = c + 1;
    }
    proof {
        assert(cv.take(cands@.len() as int) =~= cv);
    }
    (scores, matched, spans)
}


/// Strict ranking order between two document slots: higher score first,
/// then higher static boost, then smaller document id — a strict total
/// order on distinct documents, so result order is reproducible.
pub open spec fn spec_key_gt(s1: int, b1: int, i1: int, s2: int, b2: int, i2: int) -> bool {
    s1 > s2 || (s1 == s2 && (b1 > b2 || (b1 == b2 && i1 < i2)))
}

pub open spec fn spec_rank_gt(
    fields: Seq<FieldDef>,
    terms: Seq<TermEntry>,
    cands: Seq<(int, nat)>,
    docs: Seq<DocMeta>,
    d1: int,
    d2: int,
) -> bool {
    spec_key_gt(
        spec_doc_score(fields, terms, cands, d1) as int,
        docs[d1].boost as int,
        docs[d1].id as int,
        spec_doc_score(fields, terms, cands, d2) as int,
        docs[d2].boost as int,
        docs[d2].id as int,
    )
}

/// How many document slots in [lo, n) match at least one resolved term.
pub open spec fn spec_count_from(
    terms: Seq<TermEntry>,
    cands: Seq<(int, nat)>,
    lo: int,
    n: int,
) -> nat
    decreases n - lo,
{
    if lo >= n {
        0
    } else {
        (if spec_matched_doc(terms, cands, lo) {
            1nat
        } else {
            0nat
        }) + spec_count_from(terms, cands, lo + 1, n)
    }
}

/// A correct result entry for document slot `dd`: the document's id, its
/// aggregate score, and its match spans.
pub open spec fn spec_entry_ok(
    docs: Seq<DocMeta>,
    fields: Seq<FieldDef>,
    terms: Seq<TermEntry>,
    cands: Seq<(int, nat)>,
    dd: int,
    e: ResultEntry,
) -> bool {
    &&& e.doc_id == docs[dd].id
    &&& e.score == spec_doc_score(fields, terms, cands, dd)
    &&& span_views(e.spans@) == spec_doc_spans(terms, cands, dd)
}

/// The ranked, capped result list `entries` is correct for the resolved
/// query `cands`, witnessed by the document slots `sel` it was drawn
/// from: entries pair off with matched documents, are strictly ordered
/// by rank, number min(limit, matched), and any matched document left
/// out lost to every returned one (or the list is under the limit and
/// holds every matched document).
#[verifier::opaque]
pub open spec fn spec_results_match(
    docs: Seq<DocMeta>,
    fields: Seq<FieldDef>,
    terms: Seq<TermEntry>,
    cands: Seq<(int, nat)>,
    entries: Seq<ResultEntry>,
    sel: Seq<int>,
    limit: int,
) -> bool {
    &&& entries.len() == sel.len()
    &&& sel.len() as int == min_int(limit, spec_count_from(terms, cands, 0, docs.len() as int) as int)
    &&& forall|i: int|
        0 <= i < sel.len() ==> 0 <= #[trigger] sel[i] < docs.len() && spec_matched_doc(
            terms,
            cands,
            sel[i],
        )
    &&& forall|i: int|
        0 <= i < sel.len() ==> spec_entry_ok(docs, fields, terms, cands, sel[i], #[trigger] entries[i])
    &&& forall|i: int, j: int|
        0 <= i < j < sel.len() ==> spec_rank_gt(fields, terms, cands, docs, sel[i], sel[j])
    &&& forall|dd: int|
        0 <= dd < docs.len() && #[trigger] spec_matched_doc(terms, cands, dd) ==> ((exists|i: int|
            0 <= i < sel.len() && sel[i] == dd) || (sel.len() == limit && forall|i: int|
            0 <= i < sel.len() ==> spec_rank_gt(fields, terms, cands, docs, #[trigger] sel[i], dd)))
}

/// Decides the strict ranking order on (score, boost, id) keys.
pub fn key_gt(s1: u64, b1: u32, i1: u32, s2: u64, b2: u32, i2: u32) -> (r: bool)
    ensures
        r == spec_key_gt(s1 as int, b1 as int, i1 as int, s2 as int, b2 as int, i2 as int),
{
    s1 > s2 || (s1 == s2 && (b1 > b2 || (b1 == b2 && i1 < i2)))
}

/// Second pass: selects the matched documents, orders them by rank and
/// cuts the list at `limit`.
pub fn rank_results(
    docs: &Vec<DocMeta>,
    fields: &Vec<FieldDef>,
    terms: &Vec<TermEntry>,
    cands: &Vec<Candidate>,
    scores: &Vec<u64>,
    matched: &Vec<u32>,
    spans: Vec<Vec<MatchSpan>>,
    limit: usize,
) -> (r: Vec<ResultEntry>)
    requires
        entries_wf(terms@, fields@.len() as int, docs@.len() as int),
        cands_valid(cand_views(cands@), terms@),
        cands@.len() <= 16,
        fields@.len() <= 64,
        scores@.len() == docs@.len(),
        matched@.len() == docs@.len(),
        spans@.len() == docs@.len(),
        forall|i: int, j: int| 0 <= i < j < docs@.len() ==> docs@[i].id < docs@[j].id,
        forall|dd: int|
            0 <= dd < docs@.len() ==> scores@[dd] == spec_doc_base(
                fields@,
                terms@,
                cand_views(cands@),
                dd,
            ),
        forall|dd: int|
            0 <= dd < docs@.len() ==> matched@[dd] == spec_doc_matched(
                terms@,
                cand_views(cands@),
                dd,
            ),
        forall|dd: int|
            0 <= dd < docs@.len() ==> span_views(spans@[dd]@) == spec_doc_spans(
                terms@,
                cand_views(cands@),
                dd,
            ),
    ensures
        exists|sel: Seq<int>|
            #[trigger] spec_results_match(
                docs@,
                fields@,
                terms@,
                cand_views(cands@),
                r@,
                sel,
                limit as int,
            ),
{
    let ghost cv = cand_views(cands@);
    let ghost spans0 = spans@;
    let n = docs.len();
    let mut spansv = spans;
    let mut entries: Vec<ResultEntry> = Vec::new();
    let mut boosts: Vec<u32> = Vec::new();
    let ghost mut sel: Seq<int> = Seq::empty();
    let mut dd: usize = n;
    proof {
        assert(spans0.take(n as int) =~= spans0);
    }
    while dd > 0
        invariant
            dd <= n,
            n == docs@.len(),
            cv == cand_views(cands@),
            cands@.len() <= 16,
            fields@.len() <= 64,
            entries_wf(terms@, fields@.len() as int, docs@.len() as int),
            cands_valid(cv, terms@),
            scores@.len() == n && matched@.len() == n && spans0.len() == n,
            forall|i: int, j: int| 0 <= i < j < docs@.len() ==> docs@[i].id < docs@[j].id,
            forall|k: int|
                0 <= k < n ==> scores@[k] == spec_doc_base(fields@, terms@, cv, k),
            forall|k: int|
                0 <= k < n ==> matched@[k] == spec_doc_matched(terms@, cv, k),
            forall|k: int|
                0 <= k < n ==> span_views(spans0[k]@) == spec_doc_spans(terms@, cv, k),
            spansv@ == spans0.take(dd as int),
            entries@.len() == sel.len() && boosts@.len() == sel.len(),
            forall|i: int| 0 <= i < sel.len() ==> dd <= #[trigger] sel[i] < n,
            forall|i: int| 0 <= i < sel.len() ==> spec_matched_doc(terms@, cv, #[trigger] sel[i]),
            forall|i: int|
                0 <= i < sel.len() ==> spec_entry_ok(
                    docs@,
                    fields@,
                    terms@,
                    cv,
                    sel[i],
                    #[trigger] entries@[i],
                ),
            forall|i: int| 0 <= i < sel.len() ==> boosts@[i] == docs@[#[trigger] sel[i]].boost,
            forall|i: int, j: int|
                0 <= i < j < sel.len() ==> spec_rank_gt(fields@, terms@, cv, docs@, sel[i], sel[j]),
            forall|d2: int|
                dd <= d2 < n && #[trigger] spec_matched_doc(terms@, cv, d2) ==> exists|i: int|
                    0 <= i < sel.len() && sel[i] == d2,
            sel.len() == spec_count_from(terms@, cv, dd as int, n as int),
        decreases dd,
    {
        dd = dd - 1;
        proof {
            assert(spans0.take(dd as int + 1).last() == spans0[dd as int]);
            assert(spans0.take(dd as int + 1).drop_last() =~= spans0.take(dd as int));
        }
        let sp = spansv.pop().unwrap();
        let m = matched[dd];
        if m > 0 {
            proof {
                lemma_doc_base_bound(fields@, terms@, cv, dd as int, n as int);
                lemma_doc_matched_le(terms@, cv, dd as int);
                assert(cv.len() * (fields@.len() * CONTRIB_MAX) <= 16 * (64 * CONTRIB_MAX))
                    by (nonlinear_arith)
                    requires
                        0 <= cv.len() <= 16,
                        0 <= fields@.len() <= 64,
                ;
                assert(scores@[dd as int] * (matched@[dd as int] as int) <= 16 * (64 * CONTRIB_MAX)
                    * 16) by (nonlinear_arith)
                    requires
                        0 <= scores@[dd as int] <= 16 * (64 * CONTRIB_MAX),
                        0 <= (matched@[dd as int] as int) <= 16,
                ;
            }
            let sc = scores[dd] * (m as u64);
            let boost = docs[dd].boost;
            let id = docs[dd].id;
            let entry = ResultEntry { doc_id: id, score: sc, spans: sp };
            let mut pos: usize = 0;
            while pos < entries.len()
                invariant
                    pos <= entries@.len(),
                    n == docs@.len(),
                    dd < n,
                    cv == cand_views(cands@),
                    sc == spec_doc_score(fields@, terms@, cv, dd as int),
                    boost == docs@[dd as int].boost,
                    id == docs@[dd as int].id,
                    entries@.len() == sel.len() && boosts@.len() == sel.len(),
                    forall|i: int| 0 <= i < sel.len() ==> dd < #[trigger] sel[i] < n,
                    forall|i: int, j: int| 0 <= i < j < docs@.len() ==> docs@[i].id < docs@[j].id,
                    forall|i: int|
                        0 <= i < sel.len() ==> spec_entry_ok(
                            docs@,
                            fields@,
                            terms@,
                            cv,
                            sel[i],
                            #[trigger] entries@[i],
                        ),
                    forall|i: int|
                        0 <= i < sel.len() ==> boosts@[i] == docs@[#[trigger] sel[i]].boost,
                    forall|k: int|
                        0 <= k < pos ==> spec_rank_gt(
                            fields@,
                            terms@,
                            cv,
                            docs@,
                            #[trigger] sel[k],
                            dd as int,
                        ),
                ensures
                    pos <= entries@.len(),
                    pos < entries@.len() ==> spec_rank_gt(
                        fields@,
                        terms@,
                        cv,
                        docs@,
                        dd as int,
                        sel[pos as int],
                    ),
                    forall|k: int|
                        0 <= k < pos ==> spec_rank_gt(
                            fields@,
                            terms@,
                            cv,
                            docs@,
                            #[trigger] sel[k],
                            dd as int,
                        ),
                decreases entries@.len() - pos,
            {
                let stop = key_gt(sc, boost, id, entries[pos].score, boosts[pos], entries[pos].doc_id);
                if stop {
                    proof {
                        assert(spec_entry_ok(docs@, fields@, terms@, cv, sel[pos as int], entries@[pos as int]));
                    }
                    break;
                }
                proof {
                    assert(docs@[dd as int].id < docs@[sel[pos as int]].id);
                }
                pos = pos + 1;
            }
            let ghost sel0 = sel;
            let ghost entries0 = entries@;
            entries.insert(pos, entry);
            boosts.insert(pos, boost);
            proof {
                sel = sel0.insert(pos as int, dd as int);
                assert(sel.len() == sel0.len() + 1);
                assert forall|i: int| 0 <= i < sel.len() implies ((i < pos ==> #[trigger] sel[i]
                    == sel0[i]) && (i == pos ==> sel[i] == dd as int) && (i > pos ==> sel[i]
                    == sel0[i - 1])) by {}
                assert forall|i: int| 0 <= i < sel.len() implies ((i < pos ==> #[trigger] entries@[i]
                    == entries0[i]) && (i == pos ==> entries@[i] == entry) && (i > pos
                    ==> entries@[i] == entries0[i - 1])) by {}
                assert(span_views(entry.spans@) == spec_doc_spans(terms@, cv, dd as int));
                assert(spec_entry_ok(docs@, fields@, terms@, cv, dd as int, entry));
                assert forall|i: int, j: int| 0 <= i < j < sel.len() implies spec_rank_gt(
                    fields@,
                    terms@,
                    cv,
                    docs@,
                    sel[i],
                    sel[j],
                ) by {
                    if j == pos {
                        assert(spec_rank_gt(fields@, terms@, cv, docs@, sel0[i], dd as int));
                    } else if i == pos {
                        if pos < entries0.len() {
                            // the scan stopped here: the new entry outranks
                            // the one previously at this slot, and by the old
                            // ordering everything after it as well
                            assert(spec_rank_gt(fields@, terms@, cv, docs@, dd as int, sel0[pos as int]));
                            if j - 1 > pos {
                                assert(spec_rank_gt(fields@, terms@, cv, docs@, sel0[pos as int], sel0[j - 1]));
                            }
                        }
                    } else if i < pos && j > pos {
                        assert(spec_rank_gt(fields@, terms@, cv, docs@, sel0[i], sel0[j - 1]));
                    } else if i < pos && j < pos {
                        assert(spec_rank_gt(fields@, terms@, cv, docs@, sel0[i], sel0[j]));
                    } else {
                        assert(spec_rank_gt(fields@, terms@, cv, docs@, sel0[i - 1], sel0[j - 1]));
                    }
                }
                assert forall|d2: int|
                    dd <= d2 < n && #[trigger] spec_matched_doc(terms@, cv, d2) implies exists|i: int|
                    0 <= i < sel.len() && sel[i] == d2 by {
                    if d2 == dd as int {
                        assert(sel[pos as int] == d2);
                    } else {
                        let i0 = choose|i: int| 0 <= i < sel0.len() && sel0[i] == d2;
                        if i0 < pos {
                            assert(sel[i0] == d2);
                        } else {
                            assert(sel[i0 + 1] == d2);
                        }
                    }
                }
            }
        }
        proof {
            assert(sel.len() == spec_count_from(terms@, cv, dd as int, n as int));
        }
    }
    proof {
        assert(spans0.take(0) =~= Seq::<Vec<MatchSpan>>::empty());
    }
    let ghost full_sel = sel;
    let ghost full_len = entries@.len() as int;
    if entries.len() > limit {
        entries.truncate(limit);
        proof {
            sel = full_sel.take(limit as int);
        }
    }
    proof {
        let cnt = spec_count_from(terms@, cv, 0, n as int) as int;
        assert(full_len == cnt);
        assert(entries@.len() as int == min_int(limit as int, cnt));
        assert(sel.len() == entries@.len());
        assert forall|i: int| 0 <= i < sel.len() implies spec_entry_ok(
            docs@,
            fields@,
            terms@,
            cv,
            sel[i],
            #[trigger] entries@[i],
        ) by {
            assert(sel[i] == full_sel[i]);
        }
        assert forall|d2: int|
            0 <= d2 < n && #[trigger] spec_matched_doc(terms@, cv, d2) implies ((exists|i: int|
            0 <= i < sel.len() && sel[i] == d2) || (sel.len() == limit && forall|i: int|
            0 <= i < sel.len() ==> spec_rank_gt(fields@, terms@, cv, docs@, #[trigger] sel[i], d2))) by {
            let i0 = choose|i: int| 0 <= i < full_sel.len() && full_sel[i] == d2;
            if i0 < sel.len() {
                assert(sel[i0] == d2);
            } else {
                assert(full_len > limit as int);
                assert(sel.len() == limit);
                assert forall|i: int| 0 <= i < sel.len() implies spec_rank_gt(
                    fields@,
                    terms@,
                    cv,
                    docs@,
                    #[trigger] sel[i],
                    d2,
                ) by {
                    assert(spec_rank_gt(fields@, terms@, cv, docs@, full_sel[i], full_sel[i0]));
                }
            }
        }
        reveal(spec_results_match);
        assert(spec_results_match(docs@, fields@, terms@, cv, entries@, sel, limit as int));
    }
    entries
}


/// Resolution of a whole (deduplicated) query-token sequence: the
/// candidates of the tokens that resolved, in token order.
pub open spec fn spec_cands(terms: Seq<TermEntry>, qts: Seq<Seq<u8>>) -> Seq<(int, nat)>
    decreases qts.len(),
{
    if qts.len() == 0 {
        Seq::empty()
    } else {
        let pre = spec_cands(terms, qts.drop_last());
        match crate::query::spec_resolve(terms, qts.last()) {
            None => pre,
            Some(c) => pre.push(c),
        }
    }
}

/// A best fuzzy candidate always lies inside the scanned range.
pub proof fn lemma_best_fuzzy_range(terms: Seq<TermEntry>, qt: Seq<u8>, upto: int)
    ensures
        crate::query::spec_best_fuzzy(terms, qt, upto) is Some ==> 0 <= crate::query::spec_best_fuzzy(
            terms,
            qt,
            upto,
        ).unwrap().0 < upto,
    decreases upto,
{
    if upto > 0 {
        lemma_best_fuzzy_range(terms, qt, upto - 1);
    }
}

/// Resolved candidates always index real dictionary entries, and there
/// are at most as many as query tokens.
pub proof fn lemma_cands_valid(terms: Seq<TermEntry>, qts: Seq<Seq<u8>>)
    ensures
        cands_valid(spec_cands(terms, qts), terms),
        spec_cands(terms, qts).len() <= qts.len(),
    decreases qts.len(),
{
    if qts.len() > 0 {
        lemma_cands_valid(terms, qts.drop_last());
        match crate::query::spec_resolve(terms, qts.last()) {
            None => {},
            Some(c) => {
                lemma_best_fuzzy_range(terms, qts.last(), terms.len() as int);
                if crate::query::spec_dict_has(terms, qts.last()) {
                }
            },
        }
    }
}

/// The search engine: a schema, and — once a load has succeeded — the
/// current index. A failed load never disturbs the loaded index.
pub struct Engine {
    pub schema: Schema,
    pub index: Option<Index>,
}

impl Engine {
    /// The engine's invariant: a well-formed schema and, when an index
    /// is loaded, a well-formed index carrying this schema's
    /// fingerprint.
    pub open spec fn wf(self) -> bool {
        &&& self.schema.wf()
        &&& match self.index {
            Some(ix) => crate::index::index_wf(ix, self.schema.fields@.len() as int)
                && ix.fingerprint == crate::schema::spec_fingerprint(self.schema.fields@),
            None => true,
        }
    }

    /// Creates an engine with no index loaded.
    pub fn new(schema: Schema) -> (r: Engine)
        requires
            schema.wf(),
        ensures
            r.wf(),
            r.index is None,
            r.schema == schema,
    {
        Engine { schema, index: None }
    }

    /// Installs an index built in memory for this engine's schema.
    pub fn set_index(&mut self, ix: Index)
        requires
            old(self).wf(),
            crate::index::index_wf(ix, old(self).schema.fields@.len() as int),
            ix.fingerprint == crate::schema::spec_fingerprint(old(self).schema.fields@),
        ensures
            final(self).wf(),
            final(self).schema == old(self).schema,
            final(self).index == Some(ix),
    {
        self.index = Some(ix);
    }

    /// Loads a serialized index artifact. Loading is all-or-nothing:
    /// on success the new index wholly replaces the previous one; on
    /// failure the engine — including any previously loaded index — is
    /// left untouched and stays fully usable.
    pub fn load(&mut self, bytes: &Vec<u8>) -> (r: Result<(), SearchError>)
        requires
            old(self).wf(),
        ensures
            final(self).wf(),
            final(self).schema == old(self).schema,
            r is Ok ==> (final(self).index is Some && bytes@ == crate::codec::spec_encode(
                final(self).index.unwrap(),
            )),
            r is Err ==> (*final(self) == *old(self) && (r->Err_0
                == SearchError::CorruptIndexError || r->Err_0
                == SearchError::SchemaMismatchError)),
            (exists|ix: Index|
                crate::codec::spec_valid_artifact(bytes@, ix, old(self).schema.fields@)) ==> r
                is Ok,
            r is Err && r->Err_0 == SearchError::SchemaMismatchError ==> exists|fp: u64|
                bytes@.len() >= 12 && bytes@.subrange(0, 12) == crate::codec::enc_u32(
                    crate::codec::INDEX_MAGIC,
                ) + #[trigger] crate::codec::enc_u64(fp) && fp
                    != crate::schema::spec_fingerprint(old(self).schema.fields@),
    {
        match crate::codec::load_index(bytes, &self.schema) {
            Ok(ix) => {
                self.index = Some(ix);
                Ok(())
            },
            Err(e) => Err(e),
        }
    }

    /// Executes a query string against the loaded index.
    ///
    /// Fails with `NoIndexLoadedError` exactly when no index is loaded,
    /// and with `InvalidQueryError` exactly when the query tokenizes to
    /// more than `MAX_QUERY_TERMS` terms. Otherwise the result is the
    /// ranked, capped list of matching documents described by
    /// `spec_results_match`, for the candidates resolved from the
    /// deduplicated token sequence of the query. Query terms combine
    /// with OR semantics: any resolved term may match a document, and
    /// the coordination bonus ranks documents matching more distinct
    /// terms above those matching fewer.
    #[verifier::rlimit(100)]
    pub fn query(&self, text: &Vec<u8>, limit: usize) -> (r: Result<
        Vec<ResultEntry>,
        SearchError,
    >)
        requires
            self.wf(),
        ensures
            (self.index is None) <==> r == Err::<Vec<ResultEntry>, SearchError>(
                SearchError::NoIndexLoadedError,
            ),
            r is Err ==> (r->Err_0 == SearchError::NoIndexLoadedError || (r->Err_0
                == SearchError::InvalidQueryError && crate::tokenize::spec_tokenize(text@).len()
                > crate::types::MAX_QUERY_TERMS)),
            r is Ok ==> ({
                &&& self.index is Some
                &&& crate::tokenize::spec_tokenize(text@).len() <= crate::types::MAX_QUERY_TERMS
                &&& exists|sel: Seq<int>|
                    #[trigger] spec_results_match(
                        self.index.unwrap().docs@,
                        self.schema.fields@,
                        self.index.unwrap().terms@,
                        spec_cands(
                            self.index.unwrap().terms@,
                            crate::query::spec_dedup(crate::tokenize::spec_tokenize(text@)),
                        ),
                        r->Ok_0@,
                        sel,
                        limit as int,
                    )
            }),
    {
        match &self.index {
            Some(ix) => {
                let r = run_query(&self.schema, ix, text, limit);
                proof {
                    assert(self.index == Some(*ix));
                    if r is Ok {
                        let sel = choose|sel: Seq<int>|
                            #[trigger] spec_results_match(
                                ix.docs@,
                                self.schema.fields@,
                                ix.terms@,
                                spec_cands(
                                    ix.terms@,
                                    crate::query::spec_dedup(
                                        crate::tokenize::spec_tokenize(text@),
                                    ),
                                ),
                                r->Ok_0@,
                                sel,
                                limit as int,
                            );
                        assert(spec_results_match(
                            self.index.unwrap().docs@,
                            self.schema.fields@,
                            self.index.unwrap().terms@,
                            spec_cands(
                                self.index.unwrap().terms@,
                                crate::query::spec_dedup(
                                    crate::tokenize::spec_tokenize(text@),
                                ),
                            ),
                            r->Ok_0@,
                            sel,
                            limit as int,
                        ));
                    }
                }
                r
            },
            None => Err(SearchError::NoIndexLoadedError),
        }
    }
}

/// The query pipeline on a well-formed index: tokenizes and bounds the
/// query, deduplicates the tokens, resolves each against the dictionary,
/// scores every document and returns the ranked, capped results.
fn run_query(schema: &Schema, ix: &Index, text: &Vec<u8>, limit: usize) -> (r: Result<
    Vec<ResultEntry>,
    SearchError,
>)
    requires
        schema.wf(),
        crate::index::index_wf(*ix, schema.fields@.len() as int),
    ensures
        r is Err ==> (r->Err_0 == SearchError::InvalidQueryError
            && crate::tokenize::spec_tokenize(text@).len() > crate::types::MAX_QUERY_TERMS),
        r is Ok ==> ({
            &&& crate::tokenize::spec_tokenize(text@).len() <= crate::types::MAX_QUERY_TERMS
            &&& exists|sel: Seq<int>|
                #[trigger] spec_results_match(
                    ix.docs@,
                    schema.fields@,
                    ix.terms@,
                    spec_cands(
                        ix.terms@,
                        crate::query::spec_dedup(crate::tokenize::spec_tokenize(text@)),
                    ),
                    r->Ok_0@,
                    sel,
                    limit as int,
                )
        }),
{
    let toks = crate::tokenize::tokenize(text);
    if toks.len() > crate::types::MAX_QUERY_TERMS {
        return Err(SearchError::InvalidQueryError);
    }
    let ghost tview = crate::tokenize::token_views(toks@);
    let dt = crate::query::dedup_tokens(&toks);
    let ghost dview = crate::tokenize::token_views(dt@);
    let mut cands: Vec<Candidate> = Vec::new();
    let mut i: usize = 0;
    proof {
        assert(dview.take(0) =~= Seq::<Seq<u8>>::empty());
        assert(cand_views(cands@) =~= Seq::<(int, nat)>::empty());
    }
    while i < dt.len()
        invariant
            i <= dt@.len(),
            dview == crate::tokenize::token_views(dt@),
            schema.wf(),
            crate::index::index_wf(*ix, schema.fields@.len() as int),
            cands@.len() <= i,
            cand_views(cands@) == spec_cands(ix.terms@, dview.take(i as int)),
            cands_valid(cand_views(cands@), ix.terms@),
        decreases dt@.len() - i,
    {
        proof {
            assert(dview.take(i as int + 1).drop_last() =~= dview.take(i as int));
            assert(dview.take(i as int + 1).last() == dview[i as int]);
            assert(dview[i as int] == dt@[i as int]@);
        }
        match crate::query::resolve_term(&ix.terms, &dt[i]) {
            Some(c) => {
                let ghost prev = cand_views(cands@);
                cands.push(c);
                proof {
                    assert(cand_views(cands@) =~= prev.push((c.term_idx as int, c.dist as nat)));
                }
            },
            None => {},
        }
        i = i + 1;
    }
    proof {
        assert(dview.take(dt@.len() as int) =~= dview);
        assert(tview == crate::tokenize::spec_tokenize(text@));
    }
    let (scores, matched, spans) = score_documents(
        &schema.fields,
        &ix.terms,
        &cands,
        ix.docs.len(),
    );
    let out = rank_results(
        &ix.docs,
        &schema.fields,
        &ix.terms,
        &cands,
        &scores,
        &matched,
        spans,
        limit,
    );
    let r: Result<Vec<ResultEntry>, SearchError> = Ok(out);
    proof {
        let sel = choose|sel: Seq<int>|
            #[trigger] spec_results_match(
                ix.docs@,
                schema.fields@,
                ix.terms@,
                cand_views(cands@),
                r->Ok_0@,
                sel,
                limit as int,
            );
        assert(cand_views(cands@) == spec_cands(
            ix.terms@,
            crate::query::spec_dedup(crate::tokenize::spec_tokenize(text@)),
        ));
        assert(spec_results_match(
            ix.docs@,
            schema.fields@,
            ix.terms@,
            spec_cands(
                ix.terms@,
                crate::query::spec_dedup(crate::tokenize::spec_tokenize(text@)),
            ),
            r->Ok_0@,
            sel,
            limit as int,
        ));
    }
    r
}

/// Ranking monotonicity: a query returns at most `limit` entries, with
/// non-increasing scores along the returned sequence.
pub proof fn lemma_ranking_monotone(
    docs: Seq<DocMeta>,
    fields: Seq<FieldDef>,
    terms: Seq<TermEntry>,
    cands: Seq<(int, nat)>,
    entries: Seq<ResultEntry>,
    sel: Seq<int>,
    limit: int,
)
    requires
        0 <= limit,
        spec_results_match(docs, fields, terms, cands, entries, sel, limit),
    ensures
        entries.len() <= limit,
        forall|i: int, j: int|
            0 <= i < j < entries.len() ==> (#[trigger] entries[i]).score >= (
            #[trigger] entries[j]).score,
{
    reveal(spec_results_match);
    assert forall|i: int, j: int|
        0 <= i < j < entries.len() implies (#[trigger] entries[i]).score >= (
    #[trigger] entries[j]).score by {
        assert(spec_entry_ok(docs, fields, terms, cands, sel[i], entries[i]));
        assert(spec_entry_ok(docs, fields, terms, cands, sel[j], entries[j]));
        assert(spec_rank_gt(fields, terms, cands, docs, sel[i], sel[j]));
    }
}

/// A list of distinct matched document slots within [lo, n) is never
/// longer than the count of matched slots there.
pub proof fn lemma_distinct_matched_le_count(
    terms: Seq<TermEntry>,
    cands: Seq<(int, nat)>,
    sel: Seq<int>,
    lo: int,
    n: int,
)
    requires
        forall|i: int| 0 <= i < sel.len() ==> lo <= #[trigger] sel[i] < n,
        forall|i: int| 0 <= i < sel.len() ==> spec_matched_doc(terms, cands, #[trigger] sel[i]),
        forall|i: int, j: int| 0 <= i < j < sel.len() ==> sel[i] != sel[j],
    ensures
        sel.len() <= spec_count_from(terms, cands, lo, n),
    decreases n - lo,
{
    if lo >= n {
        assert(sel.len() == 0) by {
            if sel.len() > 0 {
                assert(lo <= sel[0] < n);
            }
        }
    } else {
        if exists|i: int| 0 <= i < sel.len() && sel[i] == lo {
            let i0 = choose|i: int| 0 <= i < sel.len() && #[trigger] sel[i] == lo;
            let sel2 = sel.remove(i0);
            assert forall|i: int| 0 <= i < sel2.len() implies lo + 1 <= #[trigger] sel2[i]
                < n by {
                if i < i0 {
                    assert(sel2[i] == sel[i]);
                    assert(sel[i] != sel[i0]);
                } else {
                    assert(sel2[i] == sel[i + 1]);
                    assert(sel[i + 1] != sel[i0]);
                }
            }
            assert forall|i: int| 0 <= i < sel2.len() implies spec_matched_doc(
                terms,
                cands,
                #[trigger] sel2[i],
            ) by {
                if i < i0 {
                    assert(sel2[i] == sel[i]);
                } else {
                    assert(sel2[i] == sel[i + 1]);
                }
            }
            assert forall|i: int, j: int| 0 <= i < j < sel2.len() implies sel2[i] != sel2[j] by {
                if j < i0 {
                    assert(sel2[i] == sel[i] && sel2[j] == sel[j]);
                } else if i < i0 {
                    assert(sel2[i] == sel[i] && sel2[j] == sel[j + 1]);
                } else {
                    assert(sel2[i] == sel[i + 1] && sel2[j] == sel[j + 1]);
                }
            }
            lemma_distinct_matched_le_count(terms, cands, sel2, lo + 1, n);
            assert(spec_matched_doc(terms, cands, lo));
        } else {
            assert forall|i: int| 0 <= i < sel.len() implies lo + 1 <= #[trigger] sel[i] < n by {
                assert(sel[i] != lo);
            }
            lemma_distinct_matched_le_count(terms, cands, sel, lo + 1, n);
        }
    }
}

/// If some resolved candidate's postings reach document slot `dd`, the
/// document counts as matched.
pub proof fn lemma_matched_pos(terms: Seq<TermEntry>, cands: Seq<(int, nat)>, dd: int, k: int)
    requires
        0 <= k < cands.len(),
        spec_seen_in(terms[cands[k].0].postings@, dd),
    ensures
        spec_matched_doc(terms, cands, dd),
    decreases cands.len(),
{
    if k == cands.len() - 1 {
        assert(cands.last() == cands[k]);
    } else {
        assert(cands.drop_last()[k] == cands[k]);
        lemma_matched_pos(terms, cands.drop_last(), dd, k);
    }
}

/// Completeness of exact match: if document slot `dd` is indexed with
/// term `t` in some field, some resolved candidate is the dictionary
/// entry of `t`, and the limit admits every matched document, then the
/// returned results contain that document.
pub proof fn lemma_exact_match_complete(
    docs: Seq<DocMeta>,
    fields: Seq<FieldDef>,
    terms: Seq<TermEntry>,
    cands: Seq<(int, nat)>,
    entries: Seq<ResultEntry>,
    sel: Seq<int>,
    limit: int,
    t: Seq<u8>,
    f: int,
    dd: int,
)
    requires
        spec_results_match(docs, fields, terms, cands, entries, sel, limit),
        forall|i: int, j: int| 0 <= i < j < docs.len() ==> docs[i].id < docs[j].id,
        forall|i: int, j: int| 0 <= i < j < terms.len() ==> terms[i].term@ != terms[j].term@,
        cands_valid(cands, terms),
        crate::index::spec_indexed(terms, t, f, dd),
        0 <= dd < docs.len(),
        exists|k: int| 0 <= k < cands.len() && terms[(#[trigger] cands[k]).0].term@ == t,
        spec_count_from(terms, cands, 0, docs.len() as int) <= limit,
    ensures
        exists|i: int| 0 <= i < entries.len() && (#[trigger] entries[i]).doc_id == docs[dd].id,
{
    reveal(spec_results_match);
    let k = choose|k: int| 0 <= k < cands.len() && terms[(#[trigger] cands[k]).0].term@ == t;
    let p = choose|p: int| crate::index::spec_indexed_at(terms, t, f, dd, p);
    let (ei, q) = choose|ei: int, q: int|
        0 <= ei < terms.len() && 0 <= q < terms[ei].postings@.len() && terms[ei].term@ == t
            && terms[ei].postings@[q].field == f && terms[ei].postings@[q].doc == dd
            && crate::index::spec_pos_in(terms[ei].postings@[q].positions@, p);
    assert(spec_seen_in(terms[cands[k].0].postings@, dd)) by {
        let ci = cands[k].0;
        assert(0 <= ci < terms.len());
        // the dictionary is duplicate-free, so the candidate's entry is
        // the one holding the posting
        if ci < ei {
            assert(terms[ci].term@ != terms[ei].term@);
        } else if ei < ci {
            assert(terms[ei].term@ != terms[ci].term@);
        }
        assert(ci == ei);
        assert(terms[ei].postings@[q].doc == dd);
    }
    assert(spec_matched_doc(terms, cands, dd)) by {
        lemma_matched_pos(terms, cands, dd, k);
    }
    if exists|i: int| 0 <= i < sel.len() && #[trigger] sel[i] == dd {
        let i0 = choose|i: int| 0 <= i < sel.len() && #[trigger] sel[i] == dd;
        assert(spec_entry_ok(docs, fields, terms, cands, dd, entries[i0]));
        assert(entries[i0].doc_id == docs[dd].id);
    } else {
        // dd was cut: the list is full at `limit` with documents that
        // all outrank dd; but then, counting dd itself, more than
        // `limit` documents match, contradicting the premise
        assert(sel.len() == limit);
        let sel2 = sel.push(dd);
        assert forall|i: int, j: int| 0 <= i < j < sel2.len() implies sel2[i] != sel2[j] by {
            if j == sel.len() {
                assert(sel2[i] == sel[i] && sel2[j] == dd);
            } else {
                assert(sel2[i] == sel[i] && sel2[j] == sel[j]);
                assert(spec_rank_gt(fields, terms, cands, docs, sel[i], sel[j]));
                if sel[i] == sel[j] {
                    assert(false);
                }
            }
        }
        assert forall|i: int| 0 <= i < sel2.len() implies 0 <= #[trigger] sel2[i]
            < docs.len() by {
            if i < sel.len() {
                assert(sel2[i] == sel[i]);
            }
        }
        assert forall|i: int| 0 <= i < sel2.len() implies spec_matched_doc(
            terms,
            cands,
            #[trigger] sel2[i],
        ) by {
            if i < sel.len() {
                assert(sel2[i] == sel[i]);
            }
        }
        lemma_distinct_matched_le_count(terms, cands, sel2, 0, docs.len() as int);
        assert(false);
    }
}


/// A query token that is in the dictionary always yields a candidate
/// for its own dictionary entry.
pub proof fn lemma_cands_contain(terms: Seq<TermEntry>, qts: Seq<Seq<u8>>, t: Seq<u8>)
    requires
        crate::query::spec_tok_in(qts, t),
        crate::query::spec_dict_has(terms, t),
    ensures
        exists|k: int|
            0 <= k < spec_cands(terms, qts).len() && terms[(#[trigger] spec_cands(
                terms,
                qts,
            )[k]).0].term@ == t,
    decreases qts.len(),
{
    let cs = spec_cands(terms, qts);
    if qts.last() == t {
        let c = crate::query::spec_resolve(terms, t).unwrap();
        assert(terms[c.0].term@ == t);
        assert(cs.last() == c);
        assert(cs[cs.len() - 1] == c);
    } else {
        let i = choose|i: int| 0 <= i < qts.len() && qts[i] == t;
        assert(qts.drop_last()[i] == t);
        assert(crate::query::spec_tok_in(qts.drop_last(), t));
        lemma_cands_contain(terms, qts.drop_last(), t);
        let pre = spec_cands(terms, qts.drop_last());
        let k = choose|k: int| 0 <= k < pre.len() && terms[(#[trigger] pre[k]).0].term@ == t;
        assert(cs[k] == pre[k]);
    }
}

/// Completeness of exact match, end to end: when the query holds a token
/// `t` that is a dictionary term, document slot `dd` is indexed with `t`
/// in some field, and the limit admits every matched document, then the
/// query's results contain that document.
pub proof fn lemma_query_exact_completeness(
    docs: Seq<DocMeta>,
    fields: Seq<FieldDef>,
    terms: Seq<TermEntry>,
    qtoks: Seq<Seq<u8>>,
    entries: Seq<ResultEntry>,
    sel: Seq<int>,
    limit: int,
    t: Seq<u8>,
    f: int,
    dd: int,
)
    requires
        spec_results_match(
            docs,
            fields,
            terms,
            spec_cands(terms, crate::query::spec_dedup(qtoks)),
            entries,
            sel,
            limit,
        ),
        forall|i: int, j: int| 0 <= i < j < docs.len() ==> docs[i].id < docs[j].id,
        forall|i: int, j: int| 0 <= i < j < terms.len() ==> terms[i].term@ != terms[j].term@,
        crate::query::spec_tok_in(qtoks, t),
        crate::index::spec_indexed(terms, t, f, dd),
        0 <= dd < docs.len(),
        spec_count_from(
            terms,
            spec_cands(terms, crate::query::spec_dedup(qtoks)),
            0,
            docs.len() as int,
        ) <= limit,
    ensures
        exists|i: int| 0 <= i < entries.len() && (#[trigger] entries[i]).doc_id == docs[dd].id,
{
    let cands = spec_cands(terms, crate::query::spec_dedup(qtoks));
    assert(crate::query::spec_dict_has(terms, t)) by {
        let p = choose|p: int| crate::index::spec_indexed_at(terms, t, f, dd, p);
        let (ei, q) = choose|ei: int, q: int|
            0 <= ei < terms.len() && 0 <= q < terms[ei].postings@.len() && terms[ei].term@ == t
                && terms[ei].postings@[q].field == f && terms[ei].postings@[q].doc == dd
                && crate::index::spec_pos_in(terms[ei].postings@[q].positions@, p);
        assert(terms[ei].term@ == t);
    }
    crate::query::lemma_dedup_keeps(qtoks, Seq::empty(), t);
    lemma_cands_contain(terms, crate::query::spec_dedup(qtoks), t);
    lemma_cands_valid(terms, crate::query::spec_dedup(qtoks));
    lemma_exact_match_complete(
        docs,
        fields,
        terms,
        cands,
        entries,
        sel,
        limit,
        t,
        f,
        dd,
    );
}

/// Monotonic fuzzy penalty: where a field carries positive weight, an
/// occurrence matched at any positive edit distance — in particular any
/// in-threshold fuzzy match — contributes strictly less to the score
/// than the same occurrence matched exactly, and the contribution never
/// grows as the edit distance does.
pub proof fn lemma_fuzzy_contribution_less(fields: Seq<FieldDef>, pb: Posting, d: nat)
    requires
        0 < d,
        0 <= (pb.field as int) < fields.len(),
        fields[pb.field as int].weight > 0,
        pb.positions@.len() > 0,
    ensures
        spec_contrib(fields, d, pb) < spec_contrib(fields, 0, pb),
{
    let w = fields[pb.field as int].weight as nat;
    let tf = min_int(pb.positions@.len() as int, TF_CAP as int) as nat;
    crate::distance::lemma_fuzzy_penalty_monotone(0, d);
    assert(spec_fuzzy_penalty(0) == 100) by (nonlinear_arith);
    assert(spec_fuzzy_penalty(d) < spec_fuzzy_penalty(0));
    assert(w * tf * spec_fuzzy_penalty(d) < w * tf * spec_fuzzy_penalty(0)) by (nonlinear_arith)
        requires
            1 <= w,
            1 <= tf,
            spec_fuzzy_penalty(d) < spec_fuzzy_penalty(0),
    ;
}

/// The score contribution of a match never increases as the edit
/// distance grows, whatever the field's weight.
pub proof fn lemma_contribution_monotone(fields: Seq<FieldDef>, pb: Posting, d1: nat, d2: nat)
    requires
        d1 <= d2,
        0 <= (pb.field as int) < fields.len(),
    ensures
        spec_contrib(fields, d2, pb) <= spec_contrib(fields, d1, pb),
{
    let w = fields[pb.field as int].weight as nat;
    let tf = min_int(pb.positions@.len() as int, TF_CAP as int) as nat;
    crate::distance::lemma_fuzzy_penalty_monotone(d1, d2);
    assert(w * tf * spec_fuzzy_penalty(d2) <= w * tf * spec_fuzzy_penalty(d1)) by (
    nonlinear_arith)
        requires
            spec_fuzzy_penalty(d2) <= spec_fuzzy_penalty(d1),
            0 <= w,
            0 <= tf,
    ;
}

} // verus!
