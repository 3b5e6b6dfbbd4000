use vstd::prelude::*;
use crate::types::MAX_FUZZY_LEN;

verus! {

/// Relevance scale of an exact-match contribution; fuzzy matches are
/// penalized by dividing this scale by one plus the edit distance.
pub const SCORE_SCALE: u64 = 100;

pub open spec fn min_nat(x: nat, y: nat) -> nat {
    if x <= y {
        x
    } else {
        y
    }
}

/// Levenshtein edit distance between two byte strings: the least number
/// of single-byte insertions, deletions and substitutions turning one
/// into the other.
pub open spec fn spec_edit_distance(a: Seq<u8>, b: Seq<u8>) -> nat
    decreases a.len(), b.len(),
{
    if a.len() == 0 {
        b.len()
    } else if b.len() == 0 {
        a.len()
    } else {
        let d_sub = spec_edit_distance(a.drop_last(), b.drop_last()) + (
        if a.last() == b.last() {
            0nat
        } else {
            1nat
        });
        let d_del = spec_edit_distance(a.drop_last(), b) + 1;
        let d_ins = spec_edit_distance(a, b.drop_last()) + 1;
        min_nat(min_nat(d_sub, d_del), d_ins)
    }
}

/// The edit distance never exceeds the summed lengths.
pub proof fn lemma_edit_distance_le(a: Seq<u8>, b: Seq<u8>)
    ensures
        spec_edit_distance(a, b) <= a.len() + b.len(),
    decreases a.len(), b.len(),
{
    if a.len() == 0 {
    } else if b.len() == 0 {
    } else {
        lemma_edit_distance_le(a.drop_last(), b.drop_last());
        lemma_edit_distance_le(a.drop_last(), b);
        lemma_edit_distance_le(a, b.drop_last());
    }
}

/// Edit-distance threshold used for fuzzy lookup of a query term of the
/// given length: very short terms must match exactly, medium terms allow
/// one edit, longer terms two.
pub open spec fn spec_fuzzy_threshold(len: nat) -> nat {
    if len <= 2 {
        0
    } else if len <= 4 {
        1
    } else {
        2
    }
}

pub fn fuzzy_threshold(len: usize) -> (r: usize)
    ensures
        r == spec_fuzzy_threshold(len as nat),
{
    if len <= 2 {
        0
    } else if len <= 4 {
        1
    } else {
        2
    }
}

/// Penalty multiplier applied to a match found at edit distance `d`:
/// the full scale for an exact match, strictly less for any `d > 0`.
pub open spec fn spec_fuzzy_penalty(d: nat) -> nat {
    (SCORE_SCALE as nat) / (d + 1)
}

/// Computes the distance-penalized weight multiplier for a match at
/// edit distance `d`.
pub fn fuzzy_penalty(d: usize) -> (r: u64)
    ensures
        r == spec_fuzzy_penalty(d as nat),
        d == 0 ==> r == SCORE_SCALE,
        d > 0 ==> r < SCORE_SCALE,
{
    proof {
        assert(100u64 as nat / ((d as nat) + 1) <= 100 && (d as nat > 0 ==> 100u64 as nat / ((
        d as nat) + 1) < 100) && 100u64 as nat / 1 == 100) by (nonlinear_arith);
    }
    if d >= 100 {
        proof {
            assert(100nat / ((d as nat) + 1) == 0) by (nonlinear_arith)
                requires
                    d >= 100,
            ;
        }
        0
    } else {
        SCORE_SCALE / (d as u64 + 1)
    }
}

/// The penalty multiplier never increases as the edit distance grows,
/// and is strictly smaller for any inexact match than for an exact one.
pub proof fn lemma_fuzzy_penalty_monotone(d1: nat, d2: nat)
    requires
        d1 <= d2,
    ensures
        spec_fuzzy_penalty(d2) <= spec_fuzzy_penalty(d1),
        d1 == 0 && d2 > 0 ==> spec_fuzzy_penalty(d2) < spec_fuzzy_penalty(d1),
{
    assert(100nat / (d2 + 1) <= 100nat / (d1 + 1) && (d1 == 0 && d2 > 0 ==> 100nat / (d2 + 1)
        < 100nat / (d1 + 1))) by (nonlinear_arith)
        requires
            d1 <= d2,
    ;
}

/// Dynamic-programming computation of the Levenshtein distance between
/// `a` and `b`, row by row over prefixes of the two strings.
pub fn edit_distance(a: &Vec<u8>, b: &Vec<u8>) -> (r: usize)
    requires
        a@.len() <= MAX_FUZZY_LEN,
        b@.len() <= MAX_FUZZY_LEN,
    ensures
        r == spec_edit_distance(a@, b@),
{
    let n = a.len();
    let m = b.len();
    let mut prev: Vec<usize> = Vec::new();
    let mut j: usize = 0;
    while j <= m
        invariant
            j <= m + 1,
            m == b@.len(),
            m <= MAX_FUZZY_LEN,
            prev@.len() == j,
            forall|k: int| 0 <= k < j ==> prev@[k] == k,
        decreases m + 1 - j,
    {
        prev.push(j);
        j = j + 1;
    }
    proof {
        assert forall|k: int| 0 <= k <= m implies prev@[k] == spec_edit_distance(
            a@.take(0),
            b@.take(k),
        ) by {
            assert(a@.take(0) =~= Seq::<u8>::empty());
            assert(b@.take(k).len() == k);
        }
    }
    let mut i: usize = 1;
    while i <= n
        invariant
            1 <= i <= n + 1,
            n == a@.len(),
            m == b@.len(),
            n <= MAX_FUZZY_LEN,
            m <= MAX_FUZZY_LEN,
            prev@.len() == m + 1,
            forall|k: int|
                0 <= k <= m ==> prev@[k] == spec_edit_distance(a@.take(i - 1), b@.take(k)),
        decreases n + 1 - i,
    {
        let mut curr: Vec<usize> = Vec::new();
        curr.push(i);
        proof {
            assert(a@.take(i as int).len() == i);
            assert(b@.take(0) =~= Seq::<u8>::empty());
            assert(spec_edit_distance(a@.take(i as int), b@.take(0)) == i);
        }
        let mut j: usize = 1;
        while j <= m
            invariant
                1 <= i <= n,
                1 <= j <= m + 1,
                n == a@.len(),
                m == b@.len(),
                n <= MAX_FUZZY_LEN,
                m <= MAX_FUZZY_LEN,
                prev@.len() == m + 1,
                forall|k: int|
                    0 <= k <= m ==> prev@[k] == spec_edit_distance(a@.take(i - 1), b@.take(k)),
                curr@.len() == j,
                forall|k: int|
                    0 <= k < j ==> curr@[k] == spec_edit_distance(a@.take(i as int), b@.take(k)),
            decreases m + 1 - j,
        {
            let cost: usize = if a[i - 1] == b[j - 1] {
                0
            } else {
                1
            };
            proof {
                lemma_edit_distance_le(a@.take(i - 1), b@.take(j - 1));
                lemma_edit_distance_le(a@.take(i - 1), b@.take(j as int));
                lemma_edit_distance_le(a@.take(i as int), b@.take(j - 1));
            }
            let d_sub: usize = prev[j - 1] + cost;
            let d_del: usize = prev[j] + 1;
            let d_ins: usize = curr[j - 1] + 1;
            let mut best: usize = d_sub;
            if d_del < best {
                best = d_del;
            }
            if d_ins < best {
                best = d_ins;
            }
            proof {
                let ai = a@.take(i as int);
                let bj = b@.take(j as int);
                assert(ai.len() == i && bj.len() == j);
                assert(ai.drop_last() =~= a@.take(i - 1));
                assert(bj.drop_last() =~= b@.take(j - 1));
                assert(ai.last() == a@[i - 1] && bj.last() == b@[j - 1]);
                assert(spec_edit_distance(ai, bj) == best);
            }
            curr.push(best);
            j = j + 1;
        }
        prev = curr;
        i = i + 1;
    }
    proof {
        assert(a@.take(n as int) =~= a@);
        assert(b@.take(m as int) =~= b@);
    }
    prev[m]
}

} // verus!
