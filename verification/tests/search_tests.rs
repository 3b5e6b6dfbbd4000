use embed_search::codec::{load_index, serialize, write_u32, write_u64, INDEX_MAGIC};
use embed_search::distance::{edit_distance, fuzzy_penalty, fuzzy_threshold};
use embed_search::engine::Engine;
use embed_search::index::Index;
use embed_search::schema::Schema;
use embed_search::tokenize::tokenize;
use embed_search::types::{DocumentInput, SearchError};

fn two_field_schema() -> Schema {
    let mut schema = Schema::new();
    schema.define_field(b"title".to_vec(), 2).unwrap();
    schema.define_field(b"body".to_vec(), 1).unwrap();
    schema
}

fn guide_docs() -> Vec<DocumentInput> {
    vec![
        DocumentInput {
            id: 1,
            boost: 0,
            title: b"Rust Guide".to_vec(),
            fields: vec![b"Rust Guide".to_vec(), b"systems programming".to_vec()],
        },
        DocumentInput {
            id: 2,
            boost: 0,
            title: b"Go Guide".to_vec(),
            fields: vec![b"Go Guide".to_vec(), b"concurrency patterns".to_vec()],
        },
    ]
}

fn loaded_engine() -> Engine {
    let schema = two_field_schema();
    let ix = Index::build(&schema, &guide_docs());
    let mut engine = Engine::new(schema);
    engine.set_index(ix);
    engine
}

#[test]
fn tokenize_splits_and_lowercases() {
    let toks = tokenize(&b"Hello, World! 42".to_vec());
    assert_eq!(toks, vec![b"hello".to_vec(), b"world".to_vec(), b"42".to_vec()]);
}

#[test]
fn tokenize_strips_diacritics() {
    // "Caf\u{e9} r\u{fc}st" in UTF-8
    let text = "Café rüst".as_bytes().to_vec();
    let toks = tokenize(&text);
    assert_eq!(toks, vec![b"cafe".to_vec(), b"rust".to_vec()]);
}

#[test]
fn tokenize_empty_input_yields_no_tokens() {
    assert_eq!(tokenize(&Vec::new()), Vec::<Vec<u8>>::new());
    assert_eq!(tokenize(&b"  ,,; !".to_vec()), Vec::<Vec<u8>>::new());
}

#[test]
fn tokenize_is_deterministic() {
    let text = b"The Quick brown FOX, jumps; over 7 lazy dogs".to_vec();
    assert_eq!(tokenize(&text), tokenize(&text));
}

#[test]
fn edit_distance_exact_values() {
    assert_eq!(edit_distance(&b"kitten".to_vec(), &b"sitting".to_vec()), 3);
    assert_eq!(edit_distance(&b"rust".to_vec(), &b"rast".to_vec()), 1);
    assert_eq!(edit_distance(&b"abc".to_vec(), &b"abc".to_vec()), 0);
    assert_eq!(edit_distance(&Vec::new(), &b"abc".to_vec()), 3);
}

#[test]
fn fuzzy_penalty_decreases_with_distance() {
    assert_eq!(fuzzy_penalty(0), 100);
    assert_eq!(fuzzy_penalty(1), 50);
    assert_eq!(fuzzy_penalty(2), 33);
    assert!(fuzzy_penalty(1) < fuzzy_penalty(0));
}

#[test]
fn fuzzy_threshold_scales_with_length() {
    assert_eq!(fuzzy_threshold(2), 0);
    assert_eq!(fuzzy_threshold(4), 1);
    assert_eq!(fuzzy_threshold(10), 2);
}

#[test]
fn duplicate_field_is_rejected() {
    let mut schema = Schema::new();
    assert!(schema.define_field(b"title".to_vec(), 2).is_ok());
    assert_eq!(
        schema.define_field(b"title".to_vec(), 1),
        Err(SearchError::DuplicateFieldError)
    );
    // the failed call left the schema usable
    assert!(schema.define_field(b"body".to_vec(), 1).is_ok());
}

#[test]
fn fingerprint_depends_on_fields_and_weights() {
    let a = two_field_schema();
    let mut b = Schema::new();
    b.define_field(b"title".to_vec(), 2).unwrap();
    b.define_field(b"body".to_vec(), 3).unwrap();
    assert_ne!(a.fingerprint(), b.fingerprint());
    assert_eq!(a.fingerprint(), two_field_schema().fingerprint());
}

#[test]
fn validate_against_detects_mismatch() {
    let schema = two_field_schema();
    let fp = schema.fingerprint();
    assert!(schema.validate_against(fp).is_ok());
    assert_eq!(
        schema.validate_against(fp ^ 1),
        Err(SearchError::SchemaMismatchError)
    );
}

#[test]
fn query_before_load_fails() {
    let engine = Engine::new(two_field_schema());
    assert!(matches!(
        engine.query(&b"rust".to_vec(), 10),
        Err(SearchError::NoIndexLoadedError)
    ));
}

#[test]
fn exact_query_returns_matching_document() {
    let engine = loaded_engine();
    let results = engine.query(&b"rust".to_vec(), 10).unwrap();
    assert_eq!(results.len(), 1);
    assert_eq!(results[0].doc_id, 1);
    // title weight 2, one occurrence, exact match at full penalty scale,
    // one matched term: 2 * 1 * 100 * 1
    assert_eq!(results[0].score, 200);
    // the match span points into the title field (field 0), first token
    assert_eq!(results[0].spans.len(), 1);
    assert_eq!(results[0].spans[0].field, 0);
    assert_eq!(results[0].spans[0].positions, vec![0]);
}

#[test]
fn shared_term_returns_both_documents_ranked() {
    let engine = loaded_engine();
    let results = engine.query(&b"guide".to_vec(), 10).unwrap();
    assert_eq!(results.len(), 2);
    assert_eq!(results[0].doc_id, 1);
    assert_eq!(results[1].doc_id, 2);
    assert!(results[0].score >= results[1].score);
}

#[test]
fn fuzzy_query_scores_below_exact() {
    let engine = loaded_engine();
    let exact = engine.query(&b"rust".to_vec(), 10).unwrap();
    let fuzzy = engine.query(&b"rast".to_vec(), 10).unwrap();
    assert_eq!(fuzzy.len(), 1);
    assert_eq!(fuzzy[0].doc_id, 1);
    // one edit away: the penalty halves the exact-match scale
    assert_eq!(fuzzy[0].score, 100);
    assert!(fuzzy[0].score < exact[0].score);
}

#[test]
fn limit_caps_results_and_scores_are_sorted() {
    let engine = loaded_engine();
    let capped = engine.query(&b"guide".to_vec(), 1).unwrap();
    assert_eq!(capped.len(), 1);
    assert_eq!(capped[0].doc_id, 1);
    let all = engine.query(&b"guide rust systems".to_vec(), 10).unwrap();
    for w in all.windows(2) {
        assert!(w[0].score >= w[1].score);
    }
}

#[test]
fn coordination_bonus_prefers_broader_matches() {
    let engine = loaded_engine();
    // doc 1 matches both terms, doc 2 only one
    let results = engine.query(&b"rust guide".to_vec(), 10).unwrap();
    assert_eq!(results.len(), 2);
    assert_eq!(results[0].doc_id, 1);
    // doc 1: (200 + 200) base, doubled by matching both terms; doc 2: 200
    assert_eq!(results[0].score, 800);
    assert_eq!(results[1].score, 200);
    assert!(results[0].score > results[1].score);
}

#[test]
fn empty_query_returns_empty_results() {
    let engine = loaded_engine();
    let results = engine.query(&b"  ".to_vec(), 10).unwrap();
    assert!(results.is_empty());
}

#[test]
fn overlong_query_is_invalid() {
    let engine = loaded_engine();
    let text = b"a b c d e f g h i j k l m n o p q".to_vec();
    assert!(matches!(
        engine.query(&text, 10),
        Err(SearchError::InvalidQueryError)
    ));
}

#[test]
fn zero_weight_field_matches_with_zero_score() {
    let mut schema = Schema::new();
    schema.define_field(b"tags".to_vec(), 0).unwrap();
    let docs = vec![DocumentInput {
        id: 7,
        boost: 0,
        title: b"tagged".to_vec(),
        fields: vec![b"hidden".to_vec()],
    }];
    let ix = Index::build(&schema, &docs);
    let mut engine = Engine::new(schema);
    engine.set_index(ix);
    let results = engine.query(&b"hidden".to_vec(), 10).unwrap();
    assert_eq!(results.len(), 1);
    assert_eq!(results[0].doc_id, 7);
    assert_eq!(results[0].score, 0);
}

#[test]
fn serialize_then_load_round_trips() {
    let schema = two_field_schema();
    let ix = Index::build(&schema, &guide_docs());
    let bytes = serialize(&ix);
    let mut engine = Engine::new(two_field_schema());
    engine.load(&bytes).unwrap();
    let results = engine.query(&b"rust".to_vec(), 10).unwrap();
    assert_eq!(results.len(), 1);
    assert_eq!(results[0].doc_id, 1);
}

#[test]
fn truncated_index_is_corrupt_and_previous_index_stays() {
    let schema = two_field_schema();
    let ix = Index::build(&schema, &guide_docs());
    let mut bytes = serialize(&ix);
    let mut engine = Engine::new(two_field_schema());
    engine.load(&bytes).unwrap();
    bytes.truncate(bytes.len() - 3);
    assert_eq!(engine.load(&bytes), Err(SearchError::CorruptIndexError));
    // the failed load left the previously loaded index queryable
    let results = engine.query(&b"guide".to_vec(), 10).unwrap();
    assert_eq!(results.len(), 2);
}

#[test]
fn dangling_posting_is_corrupt() {
    let schema = two_field_schema();
    let mut bytes = Vec::new();
    write_u32(&mut bytes, INDEX_MAGIC);
    write_u64(&mut bytes, schema.fingerprint());
    write_u32(&mut bytes, 1); // one document
    write_u32(&mut bytes, 1); // id
    write_u32(&mut bytes, 0); // boost
    write_u32(&mut bytes, 0); // empty title
    write_u32(&mut bytes, 1); // one term
    write_u32(&mut bytes, 2); // term of two bytes
    bytes.push(b'a');
    bytes.push(b'b');
    write_u32(&mut bytes, 1); // one posting
    write_u32(&mut bytes, 0); // field 0
    write_u32(&mut bytes, 5); // document slot 5: does not exist
    write_u32(&mut bytes, 1); // one position
    write_u32(&mut bytes, 0);
    assert!(matches!(
        load_index(&bytes, &schema),
        Err(SearchError::CorruptIndexError)
    ));
}

#[test]
fn foreign_fingerprint_is_schema_mismatch() {
    let schema = two_field_schema();
    let other = {
        let mut s = Schema::new();
        s.define_field(b"title".to_vec(), 9).unwrap();
        s
    };
    let ix = Index::build(&other, &vec![DocumentInput {
        id: 1,
        boost: 0,
        title: Vec::new(),
        fields: vec![b"text".to_vec()],
    }]);
    let bytes = serialize(&ix);
    assert!(matches!(
        load_index(&bytes, &schema),
        Err(SearchError::SchemaMismatchError)
    ));
}

#[test]
fn trailing_bytes_are_corrupt() {
    let schema = two_field_schema();
    let ix = Index::build(&schema, &guide_docs());
    let mut bytes = serialize(&ix);
    bytes.push(0);
    assert!(matches!(
        load_index(&bytes, &schema),
        Err(SearchError::CorruptIndexError)
    ));
}

#[test]
fn boost_breaks_score_ties() {
    let mut schema = Schema::new();
    schema.define_field(b"title".to_vec(), 1).unwrap();
    let docs = vec![
        DocumentInput {
            id: 1,
            boost: 0,
            title: b"first".to_vec(),
            fields: vec![b"shared term".to_vec()],
        },
        DocumentInput {
            id: 2,
            boost: 5,
            title: b"second".to_vec(),
            fields: vec![b"shared term".to_vec()],
        },
    ];
    let ix = Index::build(&schema, &docs);
    let mut engine = Engine::new(schema);
    engine.set_index(ix);
    let results = engine.query(&b"shared".to_vec(), 10).unwrap();
    assert_eq!(results.len(), 2);
    // equal scores: the higher static boost wins the tie
    assert_eq!(results[0].score, results[1].score);
    assert_eq!(results[0].doc_id, 2);
    assert_eq!(results[1].doc_id, 1);
}

#[test]
fn fuzzy_tie_breaks_lexicographically() {
    let mut schema = Schema::new();
    schema.define_field(b"body".to_vec(), 1).unwrap();
    let docs = vec![
        DocumentInput {
            id: 1,
            boost: 0,
            title: Vec::new(),
            fields: vec![b"cat".to_vec()],
        },
        DocumentInput {
            id: 2,
            boost: 0,
            title: Vec::new(),
            fields: vec![b"car".to_vec()],
        },
    ];
    let ix = Index::build(&schema, &docs);
    let mut engine = Engine::new(schema);
    engine.set_index(ix);
    // "caw" is one edit from both "cat" and "car"; equal distance and
    // equal frequency fall back to lexicographic order, so "car" wins
    let results = engine.query(&b"caw".to_vec(), 10).unwrap();
    assert_eq!(results.len(), 1);
    assert_eq!(results[0].doc_id, 2);
}

#[test]
fn term_frequency_raises_score() {
    let mut schema = Schema::new();
    schema.define_field(b"body".to_vec(), 1).unwrap();
    let docs = vec![DocumentInput {
        id: 1,
        boost: 0,
        title: Vec::new(),
        fields: vec![b"echo echo echo".to_vec()],
    }];
    let ix = Index::build(&schema, &docs);
    let mut engine = Engine::new(schema);
    engine.set_index(ix);
    let results = engine.query(&b"echo".to_vec(), 10).unwrap();
    assert_eq!(results.len(), 1);
    // weight 1, frequency 3, full penalty scale, one matched term
    assert_eq!(results[0].score, 300);
    assert_eq!(results[0].spans[0].positions, vec![0, 1, 2]);
}

#[test]
fn repeated_query_terms_are_deduplicated() {
    let engine = loaded_engine();
    let once = engine.query(&b"rust".to_vec(), 10).unwrap();
    let twice = engine.query(&b"rust rust".to_vec(), 10).unwrap();
    assert_eq!(once.len(), twice.len());
    assert_eq!(once[0].doc_id, twice[0].doc_id);
    assert_eq!(once[0].score, twice[0].score);
}
