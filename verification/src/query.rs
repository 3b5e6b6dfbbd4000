use vstd::prelude::*;
use crate::bytes::{bytes_eq, lex_lt, spec_lex_lt};
use crate::distance::{
    edit_distance, fuzzy_threshold, spec_edit_distance, spec_fuzzy_threshold,
};
use crate::index::find_term;
use crate::types::{TermEntry, MAX_FUZZY_LEN};

verus! {

/// A resolved query term: a dictionary entry index and the edit distance
/// at which the query term matched it (0 for an exact match).
pub struct Candidate {
    pub term_idx: usize,
    pub dist: usize,
}

/// Whether the dictionary holds term `t` exactly.
pub open spec fn spec_dict_has(terms: Seq<TermEntry>, t: Seq<u8>) -> bool {
    exists|i: int| 0 <= i < terms.len() && terms[i].term@ == t
}

/// Candidate (i1, d1) outranks (i2, d2): smaller edit distance first,
/// then larger posting count (document-field frequency), then the
/// lexicographically smaller term — a strict total order on distinct
/// dictionary entries, making fuzzy resolution deterministic.
pub open spec fn spec_cand_better(terms: Seq<TermEntry>, i1: int, d1: nat, i2: int, d2: nat) -> bool {
    ||| d1 < d2
    ||| (d1 == d2 && terms[i1].postings@.len() > terms[i2].postings@.len())
    ||| (d1 == d2 && terms[i1].postings@.len() == terms[i2].postings@.len() && spec_lex_lt(
        terms[i1].term@,
        terms[i2].term@,
    ))
}

/// The best fuzzy candidate for query term `qt` among the first `upto`
/// dictionary entries: entries within the length cap whose edit distance
/// stays within the threshold compete under `spec_cand_better`.
pub open spec fn spec_best_fuzzy(terms: Seq<TermEntry>, qt: Seq<u8>, upto: int) -> Option<
    (int, nat),
>
    decreases upto,
{
    if upto <= 0 {
        None
    } else {
        let prev = spec_best_fuzzy(terms, qt, upto - 1);
        let i = upto - 1;
        let d = spec_edit_distance(terms[i].term@, qt);
        let eligible = terms[i].term@.len() <= MAX_FUZZY_LEN && d <= spec_fuzzy_threshold(
            qt.len(),
        );
        if !eligible {
            prev
        } else {
            match prev {
                None => Some((i, d)),
                Some(pb) => if spec_cand_better(terms, i, d, pb.0, pb.1) {
                    Some((i, d))
                } else {
                    prev
                },
            }
        }
    }
}

/// Resolution of one query term: its exact dictionary entry when one
/// exists, otherwise — for terms short enough for fuzzy lookup — the
/// best in-threshold fuzzy candidate, otherwise nothing.
pub open spec fn spec_resolve(terms: Seq<TermEntry>, qt: Seq<u8>) -> Option<(int, nat)> {
    if spec_dict_has(terms, qt) {
        Some((choose|i: int| 0 <= i < terms.len() && terms[i].term@ == qt, 0nat))
    } else if qt.len() <= MAX_FUZZY_LEN && spec_fuzzy_threshold(qt.len()) > 0 {
        spec_best_fuzzy(terms, qt, terms.len() as int)
    } else {
        None
    }
}

/// Resolves one query term against the dictionary.
pub fn resolve_term(terms: &Vec<TermEntry>, qt: &Vec<u8>) -> (r: Option<Candidate>)
    requires
        forall|i: int, j: int| 0 <= i < j < terms@.len() ==> terms@[i].term@ != terms@[j].term@,
    ensures
        match r {
            Some(c) => ({
                &&& spec_resolve(terms@, qt@) is Some
                &&& c.term_idx < terms@.len()
                &&& (c.term_idx as int, c.dist as nat) == spec_resolve(terms@, qt@).unwrap()
            }),
            None => spec_resolve(terms@, qt@) is None,
        },
{
    match find_term(terms, qt) {
        Some(i) => {
            proof {
                let j = choose|j: int| 0 <= j < terms@.len() && terms@[j].term@ == qt@;
                assert(j == i as int);
            }
            Some(Candidate { term_idx: i, dist: 0 })
        },
        None => {
            if qt.len() > MAX_FUZZY_LEN || fuzzy_threshold(qt.len()) == 0 {
                return None;
            }
            let thr = fuzzy_threshold(qt.len());
            let mut best: Option<Candidate> = None;
            let mut i: usize = 0;
            while i < terms.len()
                invariant
                    i <= terms@.len(),
                    qt@.len() <= MAX_FUZZY_LEN,
                    match best {
                        Some(c) => ({
                            &&& spec_best_fuzzy(terms@, qt@, i as int) is Some
                            &&& c.term_idx < terms@.len()
                            &&& (c.term_idx as int, c.dist as nat) == spec_best_fuzzy(
                                terms@,
                                qt@,
                                i as int,
                            ).unwrap()
                        }),
                        None => spec_best_fuzzy(terms@, qt@, i as int) is None,
                    },
                    thr == spec_fuzzy_threshold(qt@.len()),
                decreases terms@.len() - i,
            {
                if terms[i].term.len() <= MAX_FUZZY_LEN {
                    let d = edit_distance(&terms[i].term, qt);
                    if d <= thr {
                        match &best {
                            None => {
                                best = Some(Candidate { term_idx: i, dist: d });
                            },
                            Some(b) => {
                                let better = d < b.dist || (d == b.dist && (
                                terms[i].postings.len() > terms[b.term_idx].postings.len() || (
                                terms[i].postings.len() == terms[b.term_idx].postings.len()
                                    && lex_lt(&terms[i].term, &terms[b.term_idx].term))));
                                if better {
                                    best = Some(Candidate { term_idx: i, dist: d });
                                }
                            },
                        }
                    }
                }
                i = i + 1;
            }
            proof {
                if spec_dict_has(terms@, qt@) {
                    let j = choose|j: int| 0 <= j < terms@.len() && terms@[j].term@ == qt@;
                    assert(false);
                }
            }
            best
        },
    }
}

/// Keep-first deduplication of the query's token sequence, so each
/// distinct term contributes once and the coordination bonus counts
/// distinct matched terms.
pub open spec fn spec_tok_in(acc: Seq<Seq<u8>>, t: Seq<u8>) -> bool {
    exists|i: int| 0 <= i < acc.len() && acc[i] == t
}

pub open spec fn spec_dedup_acc(s: Seq<Seq<u8>>, acc: Seq<Seq<u8>>) -> Seq<Seq<u8>>
    decreases s.len(),
{
    if s.len() == 0 {
        acc
    } else if spec_tok_in(acc, s[0]) {
        spec_dedup_acc(s.skip(1), acc)
    } else {
        spec_dedup_acc(s.skip(1), acc.push(s[0]))
    }
}

pub open spec fn spec_dedup(s: Seq<Seq<u8>>) -> Seq<Seq<u8>> {
    spec_dedup_acc(s, Seq::empty())
}

/// Deduplication keeps every token that occurs in the input (or was
/// already accumulated).
pub proof fn lemma_dedup_keeps(s: Seq<Seq<u8>>, acc: Seq<Seq<u8>>, t: Seq<u8>)
    requires
        spec_tok_in(s, t) || spec_tok_in(acc, t),
    ensures
        spec_tok_in(spec_dedup_acc(s, acc), t),
    decreases s.len(),
{
    if s.len() == 0 {
    } else {
        let rest = s.skip(1);
        if spec_tok_in(acc, s[0]) {
            if spec_tok_in(s, t) && !spec_tok_in(acc, t) {
                let i = choose|i: int| 0 <= i < s.len() && s[i] == t;
                assert(i != 0 || spec_tok_in(acc, t));
                if i != 0 {
                    assert(rest[i - 1] == t);
                }
            }
            lemma_dedup_keeps(rest, acc, t);
        } else {
            let acc2 = acc.push(s[0]);
            if spec_tok_in(acc, t) {
                let j = choose|j: int| 0 <= j < acc.len() && acc[j] == t;
                assert(acc2[j] == t);
            } else if s[0] == t {
                assert(acc2[acc.len() as int] == t);
            } else {
                let i = choose|i: int| 0 <= i < s.len() && s[i] == t;
                assert(rest[i - 1] == t);
            }
            lemma_dedup_keeps(rest, acc2, t);
        }
    }
}

fn tok_in(acc: &Vec<Vec<u8>>, t: &Vec<u8>) -> (r: bool)
    ensures
        r <==> spec_tok_in(crate::tokenize::token_views(acc@), t@),
{
    let mut i: usize = 0;
    while i < acc.len()
        invariant
            i <= acc@.len(),
            forall|k: int| 0 <= k < i ==> acc@[k]@ != t@,
        decreases acc@.len() - i,
    {
        if bytes_eq(&acc[i], t) {
            proof {
                assert(crate::tokenize::token_views(acc@)[i as int] == t@);
            }
            return true;
        }
        i = i + 1;
    }
    proof {
        assert forall|k: int| 0 <= k < acc@.len() implies crate::tokenize::token_views(acc@)[k]
            != t@ by {
            assert(crate::tokenize::token_views(acc@)[k] == acc@[k]@);
        }
    }
    false
}

/// Deduplicates the token list, keeping first occurrences in order.
pub fn dedup_tokens(toks: &Vec<Vec<u8>>) -> (r: Vec<Vec<u8>>)
    ensures
        crate::tokenize::token_views(r@) == spec_dedup(crate::tokenize::token_views(toks@)),
        r@.len() <= toks@.len(),
{
    let ghost full = crate::tokenize::token_views(toks@);
    let mut out: Vec<Vec<u8>> = Vec::new();
    let mut i: usize = 0;
    proof {
        assert(full.skip(0) =~= full);
        assert(crate::tokenize::token_views(out@) =~= Seq::<Seq<u8>>::empty());
    }
    while i < toks.len()
        invariant
            i <= toks@.len(),
            full == crate::tokenize::token_views(toks@),
            out@.len() <= i,
            spec_dedup_acc(full.skip(i as int), crate::tokenize::token_views(out@)) == spec_dedup(
                full,
            ),
        decreases toks@.len() - i,
    {
        proof {
            assert(full.skip(i as int)[0] == full[i as int]);
            assert(full[i as int] == toks@[i as int]@);
            assert(full.skip(i as int).skip(1) =~= full.skip(i as int + 1));
        }
        if !tok_in(&out, &toks[i]) {
            let ghost prev = crate::tokenize::token_views(out@);
            out.push(crate::bytes::clone_bytes(&toks[i]));
            proof {
                assert(crate::tokenize::token_views(out@) =~= prev.push(toks@[i as int]@));
            }
        }
        i = i + 1;
    }
    proof {
        assert(full.skip(i as int) =~= Seq::<Seq<u8>>::empty());
    }
    out
}

} // verus!
