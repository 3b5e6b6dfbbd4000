use vstd::prelude::*;

verus! {

/// Normalization of a single ASCII byte: letters are lowercased, digits
/// kept; the result is 0 for any byte that does not belong to a token.
pub open spec fn spec_fold_byte(b: u8) -> u8 {
    if 97 <= b && b <= 122 {
        b
    } else if 48 <= b && b <= 57 {
        b
    } else if 65 <= b && b <= 90 {
        (b + 32) as u8
    } else {
        0
    }
}

/// Diacritic stripping for the Latin-1 supplement block: maps the second
/// byte of a two-byte UTF-8 sequence starting with 0xC3 to the lowercase
/// ASCII base letter, or 0 when the character is not a folded letter.
pub open spec fn spec_fold_accent(b: u8) -> u8 {
    if (0x80 <= b && b <= 0x85) || (0xA0 <= b && b <= 0xA5) {
        97  // a
    } else if b == 0x87 || b == 0xA7 {
        99  // c
    } else if (0x88 <= b && b <= 0x8B) || (0xA8 <= b && b <= 0xAB) {
        101  // e
    } else if (0x8C <= b && b <= 0x8F) || (0xAC <= b && b <= 0xAF) {
        105  // i
    } else if b == 0x91 || b == 0xB1 {
        110  // n
    } else if (0x92 <= b && b <= 0x96) || b == 0x98 || (0xB2 <= b && b <= 0xB6) || b == 0xB8 {
        111  // o
    } else if (0x99 <= b && b <= 0x9C) || (0xB9 <= b && b <= 0xBC) {
        117  // u
    } else if b == 0x9D || b == 0xBD || b == 0xBF {
        121  // y
    } else {
        0
    }
}

pub fn fold_byte(b: u8) -> (r: u8)
    ensures
        r == spec_fold_byte(b),
{
    if 97 <= b && b <= 122 {
        b
    } else if 48 <= b && b <= 57 {
        b
    } else if 65 <= b && b <= 90 {
        b + 32
    } else {
        0
    }
}

pub fn fold_accent(b: u8) -> (r: u8)
    ensures
        r == spec_fold_accent(b),
{
    if (0x80 <= b && b <= 0x85) || (0xA0 <= b && b <= 0xA5) {
        97
    } else if b == 0x87 || b == 0xA7 {
        99
    } else if (0x88 <= b && b <= 0x8B) || (0xA8 <= b && b <= 0xAB) {
        101
    } else if (0x8C <= b && b <= 0x8F) || (0xAC <= b && b <= 0xAF) {
        105
    } else if b == 0x91 || b == 0xB1 {
        110
    } else if (0x92 <= b && b <= 0x96) || b == 0x98 || (0xB2 <= b && b <= 0xB6) || b == 0xB8 {
        111
    } else if (0x99 <= b && b <= 0x9C) || (0xB9 <= b && b <= 0xBC) {
        117
    } else if b == 0x9D || b == 0xBD || b == 0xBF {
        121
    } else {
        0
    }
}

/// Closes the token under construction: a non-empty token is appended to
/// the accumulated token list, an empty one is discarded.
pub open spec fn word_break(cur: Seq<u8>, acc: Seq<Seq<u8>>) -> Seq<Seq<u8>> {
    if cur.len() > 0 {
        acc.push(cur)
    } else {
        acc
    }
}

/// The tokens of `s`, given a token `cur` under construction and tokens
/// `acc` already produced. Word bytes extend `cur`; anything else ends it.
pub open spec fn spec_tokens_from(s: Seq<u8>, cur: Seq<u8>, acc: Seq<Seq<u8>>) -> Seq<Seq<u8>>
    decreases s.len(),
{
    if s.len() == 0 {
        word_break(cur, acc)
    } else if spec_fold_byte(s[0]) != 0 {
        spec_tokens_from(s.skip(1), cur.push(spec_fold_byte(s[0])), acc)
    } else if s[0] == 0xC3 && s.len() >= 2 && 0x80 <= s[1] && s[1] <= 0xBF {
        if spec_fold_accent(s[1]) != 0 {
            spec_tokens_from(s.skip(2), cur.push(spec_fold_accent(s[1])), acc)
        } else {
            spec_tokens_from(s.skip(2), Seq::empty(), word_break(cur, acc))
        }
    } else {
        spec_tokens_from(s.skip(1), Seq::empty(), word_break(cur, acc))
    }
}

/// The normalized token sequence of a text: lowercased, diacritics
/// folded, split at every byte that is not a letter or digit. A pure
/// function of the input; empty input yields the empty sequence.
pub open spec fn spec_tokenize(s: Seq<u8>) -> Seq<Seq<u8>> {
    spec_tokens_from(s, Seq::empty(), Seq::empty())
}

/// The views of a produced token list.
pub open spec fn token_views(toks: Seq<Vec<u8>>) -> Seq<Seq<u8>> {
    toks.map_values(|t: Vec<u8>| t@)
}

/// Splits `text` into normalized tokens. Tokenization is deterministic:
/// the result is exactly `spec_tokenize(text@)`, at index-build time and
/// at query time alike.
pub fn tokenize(text: &Vec<u8>) -> (r: Vec<Vec<u8>>)
    ensures
        token_views(r@) == spec_tokenize(text@),
{
    let mut out: Vec<Vec<u8>> = Vec::new();
    let mut cur: Vec<u8> = Vec::new();
    let mut i: usize = 0;
    proof {
        assert(text@.skip(0) =~= text@);
        assert(token_views(Seq::empty()) =~= Seq::<Seq<u8>>::empty());
    }
    while i < text.len()
        invariant
            i <= text.len(),
            spec_tokens_from(text@.skip(i as int), cur@, token_views(out@)) == spec_tokenize(
                text@,
            ),
        decreases text@.len() - i,
    {
        let ghost rest = text@.skip(i as int);
        proof {
            assert(rest[0] == text@[i as int]);
        }
        let b = text[i];
        let c = fold_byte(b);
        if c != 0 {
            proof {
                assert(rest.skip(1) =~= text@.skip(i as int + 1));
            }
            cur.push(c);
            i = i + 1;
        } else if b == 0xC3 && i + 1 < text.len() && 0x80 <= text[i + 1] && text[i + 1] <= 0xBF {
            proof {
                assert(rest[1] == text@[i as int + 1]);
                assert(rest.skip(2) =~= text@.skip(i as int + 2));
            }
            let a = fold_accent(text[i + 1]);
            if a != 0 {
                cur.push(a);
            } else {
                if cur.len() > 0 {
                    proof {
                        assert(token_views(out@.push(cur)) =~= token_views(out@).push(cur@));
                    }
                    out.push(cur);
                    cur = Vec::new();
                } else {
                    proof {
                        assert(cur@ =~= Seq::<u8>::empty());
                    }
                }
            }
            i = i + 2;
        } else {
            proof {
                assert(rest.skip(1) =~= text@.skip(i as int + 1));
            }
            if cur.len() > 0 {
                proof {
                    assert(token_views(out@.push(cur)) =~= token_views(out@).push(cur@));
                }
                out.push(cur);
                cur = Vec::new();
            } else {
                proof {
                    assert(cur@ =~= Seq::<u8>::empty());
                }
            }
            i = i + 1;
        }
    }
    proof {
        assert(text@.skip(i as int) =~= Seq::<u8>::empty());
    }
    if cur.len() > 0 {
        proof {
            assert(token_views(out@.push(cur)) =~= token_views(out@).push(cur@));
        }
        out.push(cur);
    }
    out
}


/// Every produced token is non-empty, and a text of `n` bytes yields at
/// most `n` tokens.
pub proof fn lemma_tokens_from_props(s: Seq<u8>, cur: Seq<u8>, acc: Seq<Seq<u8>>)
    requires
        forall|i: int| 0 <= i < acc.len() ==> acc[i].len() > 0,
    ensures
        forall|i: int|
            0 <= i < spec_tokens_from(s, cur, acc).len() ==> spec_tokens_from(s, cur, acc)[i].len()
                > 0,
        spec_tokens_from(s, cur, acc).len() <= acc.len() + s.len() + (if cur.len() > 0 {
            1int
        } else {
            0int
        }),
    decreases s.len(),
{
    if s.len() == 0 {
    } else if spec_fold_byte(s[0]) != 0 {
        lemma_tokens_from_props(s.skip(1), cur.push(spec_fold_byte(s[0])), acc);
    } else if s[0] == 0xC3 && s.len() >= 2 && 0x80 <= s[1] && s[1] <= 0xBF {
        if spec_fold_accent(s[1]) != 0 {
            lemma_tokens_from_props(s.skip(2), cur.push(spec_fold_accent(s[1])), acc);
        } else {
            lemma_tokens_from_props(s.skip(2), Seq::empty(), word_break(cur, acc));
        }
    } else {
        lemma_tokens_from_props(s.skip(1), Seq::empty(), word_break(cur, acc));
    }
}

/// The token properties at the top level: non-empty tokens, at most one
/// token per input byte.
pub proof fn lemma_tokenize_props(s: Seq<u8>)
    ensures
        forall|i: int| 0 <= i < spec_tokenize(s).len() ==> spec_tokenize(s)[i].len() > 0,
        spec_tokenize(s).len() <= s.len(),
{
    lemma_tokens_from_props(s, Seq::empty(), Seq::empty());
}

/// Tokenization is deterministic: equal texts always yield equal token
/// sequences, whether tokenized at index-build time or at query time.
pub proof fn lemma_tokenize_deterministic(a: Seq<u8>, b: Seq<u8>)
    requires
        a == b,
    ensures
        spec_tokenize(a) == spec_tokenize(b),
{
}

} // verus!
