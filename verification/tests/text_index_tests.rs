use full_text_index::payload_index::BuildIndexResult;
use full_text_index::payload_index::FieldIndex;
use full_text_index::payload_index::FullTextIndex;
use full_text_index::payload_index::PayloadIndexState;
use full_text_index::postings::PostingList;
use full_text_index::query::HardwareCounter;
use full_text_index::storage::StorageError;
use full_text_index::tokenizer::tokenize;
use full_text_index::tokenizer::TokenizerConfig;

fn config(positions: bool) -> TokenizerConfig {
    TokenizerConfig {
        lowercase: true,
        min_token_len: 1,
        max_token_len: 40,
        positions_enabled: positions,
        stop_words: Vec::new(),
    }
}

fn bytes(s: &str) -> Vec<u8> {
    s.as_bytes().to_vec()
}

#[test]
fn tokenizer_splits_and_normalizes() {
    let cfg = config(false);
    let toks = tokenize(&bytes("Quick, Brown FOX!"), &cfg);
    assert_eq!(toks.len(), 3);
    assert_eq!(toks[0], bytes("quick"));
    assert_eq!(toks[1], bytes("brown"));
    assert_eq!(toks[2], bytes("fox"));
}

#[test]
fn tokenizer_drops_short_long_and_stop_words() {
    let mut cfg = config(false);
    cfg.min_token_len = 3;
    cfg.max_token_len = 5;
    cfg.stop_words = vec![bytes("the")];
    let toks = tokenize(&bytes("the ox jumped over a gate"), &cfg);
    // "the" is a stop word, "ox" and "a" too short, "jumped" too long.
    assert_eq!(toks, vec![bytes("over"), bytes("gate")]);
}

#[test]
fn posting_list_stays_sorted_and_deduplicated() {
    let mut pl = PostingList::new();
    pl.insert(5);
    pl.insert(1);
    pl.insert(9);
    pl.insert(5);
    pl.insert(3);
    assert_eq!(pl.ids, vec![1, 3, 5, 9]);
    pl.remove(5);
    assert_eq!(pl.ids, vec![1, 3, 9]);
    pl.remove(7);
    assert_eq!(pl.ids, vec![1, 3, 9]);
    assert!(pl.contains(3));
    assert!(!pl.contains(5));
}

#[test]
fn intersection_matches_brute_force() {
    let mut a = PostingList::new();
    let mut b = PostingList::new();
    for x in [1u32, 2, 4, 6, 8, 10, 50, 90] {
        a.insert(x);
    }
    for x in [2u32, 3, 6, 9, 10, 90, 91] {
        b.insert(x);
    }
    let r = a.intersect(&b);
    let brute: Vec<u32> = a.ids.iter().cloned().filter(|x| b.ids.contains(x)).collect();
    assert_eq!(r.ids, brute);
    assert_eq!(r.ids, vec![2, 6, 10, 90]);
}

#[test]
fn and_query_scenario() {
    // Insert point 1 "quick brown fox" and point 2 "quick fox" with no stop
    // words; the AND query {"quick","fox"} returns {1, 2}, {"brown"} only {1}.
    let mut ix = FullTextIndex::new(config(false));
    let mut hw = HardwareCounter::new();
    ix.insert_document(1, &bytes("quick brown fox")).unwrap();
    ix.insert_document(2, &bytes("quick fox")).unwrap();
    assert_eq!(ix.query(&bytes("quick fox"), &mut hw), vec![1, 2]);
    assert_eq!(ix.query(&bytes("brown"), &mut hw), vec![1]);
    assert_eq!(ix.query(&bytes("wolf"), &mut hw), Vec::<u32>::new());
}

#[test]
fn cardinality_scenario() {
    let mut ix = FullTextIndex::new(config(false));
    let mut hw = HardwareCounter::new();
    ix.insert_document(1, &bytes("quick brown fox")).unwrap();
    ix.insert_document(2, &bytes("quick fox")).unwrap();
    let e = ix.estimate_cardinality(&bytes("quick fox"), &mut hw);
    assert_eq!(e.max, 2);
    assert_eq!(e.min, 0);
    // A single known term is exact.
    let e1 = ix.estimate_cardinality(&bytes("brown"), &mut hw);
    assert_eq!(e1.min, 1);
    assert_eq!(e1.max, 1);
    // An unknown term collapses both bounds to zero.
    let e0 = ix.estimate_cardinality(&bytes("wolf"), &mut hw);
    assert_eq!((e0.min, e0.max), (0, 0));
    // The bounds bracket the real result.
    let res = ix.query(&bytes("quick fox"), &mut hw);
    assert!(e.min <= res.len() && res.len() <= e.max);
}

#[test]
fn phrase_scenario() {
    // With positions on, the phrase "quick fox" misses point 1
    // ("quick brown fox": not adjacent) and hits point 2 ("quick fox").
    let mut ix = FullTextIndex::new(config(true));
    let mut hw = HardwareCounter::new();
    ix.insert_document(1, &bytes("quick brown fox")).unwrap();
    ix.insert_document(2, &bytes("quick fox")).unwrap();
    let hits = ix.query_phrase(&bytes("quick fox"), &mut hw).unwrap();
    assert_eq!(hits, vec![2]);
    let hits2 = ix.query_phrase(&bytes("quick brown"), &mut hw).unwrap();
    assert_eq!(hits2, vec![1]);
    let hits3 = ix.query_phrase(&bytes("brown fox"), &mut hw).unwrap();
    assert_eq!(hits3, vec![1]);
}

#[test]
fn deletion_completeness() {
    let mut ix = FullTextIndex::new(config(false));
    let mut hw = HardwareCounter::new();
    ix.insert_document(1, &bytes("quick brown fox")).unwrap();
    ix.insert_document(2, &bytes("quick fox")).unwrap();
    ix.remove_document(1).unwrap();
    assert_eq!(ix.query(&bytes("quick"), &mut hw), vec![2]);
    assert_eq!(ix.query(&bytes("brown"), &mut hw), Vec::<u32>::new());
    // Removal of a point that was never indexed is a quiet no-op.
    ix.remove_document(77).unwrap();
    assert_eq!(ix.query(&bytes("fox"), &mut hw), vec![2]);
}

#[test]
fn reinsertion_replaces() {
    let mut ix = FullTextIndex::new(config(false));
    let mut hw = HardwareCounter::new();
    ix.insert_document(1, &bytes("old words here")).unwrap();
    ix.insert_document(1, &bytes("new text")).unwrap();
    assert_eq!(ix.query(&bytes("old"), &mut hw), Vec::<u32>::new());
    assert_eq!(ix.query(&bytes("new"), &mut hw), vec![1]);
}

#[test]
fn build_round_trip_preserves_queries() {
    let mut ix = FullTextIndex::new(config(true));
    let mut hw = HardwareCounter::new();
    ix.insert_document(1, &bytes("quick brown fox")).unwrap();
    ix.insert_document(2, &bytes("quick fox")).unwrap();
    ix.insert_document(9, &bytes("a very distant fox indeed")).unwrap();
    let before_and = ix.query(&bytes("quick fox"), &mut hw);
    let before_single = ix.query(&bytes("fox"), &mut hw);
    let before_phrase = ix.query_phrase(&bytes("quick fox"), &mut hw).unwrap();
    let frozen = ix.freeze();
    assert_eq!(frozen.query(&bytes("quick fox"), &mut hw), before_and);
    assert_eq!(frozen.query(&bytes("fox"), &mut hw), before_single);
    assert_eq!(
        frozen.query_phrase(&bytes("quick fox"), &mut hw).unwrap(),
        before_phrase
    );
    // A frozen generation accepts no writes.
    let mut frozen = frozen;
    assert!(frozen.insert_document(5, &bytes("more")).is_err());
    assert!(frozen.remove_document(1).is_err());
}

#[test]
fn persist_round_trip_preserves_queries() {
    let mut ix = FullTextIndex::new(config(true));
    let mut hw = HardwareCounter::new();
    ix.insert_document(1, &bytes("quick brown fox")).unwrap();
    ix.insert_document(2, &bytes("quick fox")).unwrap();
    ix.insert_document(1000000, &bytes("far away fox")).unwrap();
    let frozen = ix.freeze();
    let image = frozen.flush_bytes().unwrap();
    let reloaded = FullTextIndex::open(config(true), &image).unwrap();
    assert_eq!(
        reloaded.query(&bytes("quick fox"), &mut hw),
        frozen.query(&bytes("quick fox"), &mut hw)
    );
    assert_eq!(
        reloaded.query(&bytes("fox"), &mut hw),
        frozen.query(&bytes("fox"), &mut hw)
    );
    assert_eq!(
        reloaded.query_phrase(&bytes("quick fox"), &mut hw).unwrap(),
        frozen.query_phrase(&bytes("quick fox"), &mut hw).unwrap()
    );
    // The reloaded generation writes back the very bytes it was read from.
    assert_eq!(reloaded.flush_bytes().unwrap(), image);
}

#[test]
fn flush_is_idempotent() {
    let mut ix = FullTextIndex::new(config(true));
    ix.insert_document(1, &bytes("quick brown fox")).unwrap();
    ix.insert_document(2, &bytes("quick fox")).unwrap();
    let frozen = ix.freeze();
    let a = frozen.flush_bytes().unwrap();
    let b = frozen.flush_bytes().unwrap();
    assert_eq!(a, b);
}

#[test]
fn open_rejects_unknown_version() {
    let mut ix = FullTextIndex::new(config(false));
    ix.insert_document(1, &bytes("one token")).unwrap();
    let mut image = ix.freeze().flush_bytes().unwrap();
    image[0] = 99;
    match FullTextIndex::open(config(false), &image) {
        Err(StorageError::UnsupportedVersion) => {}
        other => panic!("expected an unsupported-version error, got {:?}", other.is_ok()),
    }
}

#[test]
fn open_rejects_truncated_image() {
    let mut ix = FullTextIndex::new(config(false));
    ix.insert_document(1, &bytes("one token")).unwrap();
    let image = ix.freeze().flush_bytes().unwrap();
    let cut = image[..image.len() - 1].to_vec();
    assert!(FullTextIndex::open(config(false), &cut).is_err());
    let tiny = image[..2].to_vec();
    assert!(FullTextIndex::open(config(false), &tiny).is_err());
}

#[test]
fn compression_round_trip() {
    // A dense list compresses to one byte per gap, a sparse one to four.
    let dense: Vec<u32> = (100..400).collect();
    let ent = full_text_index::immutable_index::compress_ids(&dense);
    assert!(!ent.wide);
    assert_eq!(ent.decode(), dense);
    let sparse: Vec<u32> = vec![5, 100000, 3000000000];
    let ent2 = full_text_index::immutable_index::compress_ids(&sparse);
    assert!(ent2.wide);
    assert_eq!(ent2.decode(), sparse);
    let empty: Vec<u32> = Vec::new();
    let ent3 = full_text_index::immutable_index::compress_ids(&empty);
    assert_eq!(ent3.decode(), empty);
}

#[test]
fn protocol_build_apply_drop() {
    let mut state = PayloadIndexState::new();
    let mut hw = HardwareCounter::new();
    state.overwrite_payload(1, &bytes("quick brown fox"), &mut hw).unwrap();
    state.overwrite_payload(2, &bytes("quick fox"), &mut hw).unwrap();
    let built = state.build_index(&bytes("body"), &config(false), &mut hw);
    let artifacts = match built {
        BuildIndexResult::Built(v) => v,
        _ => panic!("expected a build"),
    };
    state.apply_index(bytes("body"), artifacts).unwrap();
    assert_eq!(state.query_points(&bytes("body"), &bytes("quick fox"), &mut hw), vec![1, 2]);
    assert_eq!(state.indexed_points(&bytes("body")), 2);
    // Same schema again: already built.
    match state.build_index(&bytes("body"), &config(false), &mut hw) {
        BuildIndexResult::AlreadyBuilt => {}
        _ => panic!("expected already-built"),
    }
    // A different schema is incompatible.
    match state.build_index(&bytes("body"), &config(true), &mut hw) {
        BuildIndexResult::IncompatibleSchema => {}
        _ => panic!("expected incompatible schema"),
    }
    state.drop_index_if_incompatible(&bytes("body"), &config(false)).unwrap();
    assert_eq!(state.query_points(&bytes("body"), &bytes("quick"), &mut hw), vec![1, 2]);
    state.drop_index_if_incompatible(&bytes("body"), &config(true)).unwrap();
    assert_eq!(state.query_points(&bytes("body"), &bytes("quick"), &mut hw), Vec::<u32>::new());
    // Dropping a missing index is not an error.
    state.drop_index(&bytes("body")).unwrap();
}

#[test]
fn protocol_payload_crud_updates_indexes() {
    let mut state = PayloadIndexState::new();
    let mut hw = HardwareCounter::new();
    let built = state.build_index(&bytes("text"), &config(false), &mut hw);
    let artifacts = match built {
        BuildIndexResult::Built(v) => v,
        _ => panic!("expected a build"),
    };
    state.apply_index(bytes("text"), artifacts).unwrap();
    state.set_payload(7, &bytes("hello world"), &mut hw).unwrap();
    assert_eq!(state.query_points(&bytes("text"), &bytes("hello"), &mut hw), vec![7]);
    assert_eq!(state.get_payload(7, &mut hw).unwrap(), bytes("hello world"));
    state.overwrite_payload(7, &bytes("farewell world"), &mut hw).unwrap();
    assert_eq!(state.query_points(&bytes("text"), &bytes("hello"), &mut hw), Vec::<u32>::new());
    assert_eq!(state.query_points(&bytes("text"), &bytes("farewell"), &mut hw), vec![7]);
    let old = state.clear_payload(7, &mut hw).unwrap();
    assert_eq!(old.unwrap(), bytes("farewell world"));
    assert!(state.get_payload(7, &mut hw).is_none());
    assert_eq!(state.query_points(&bytes("text"), &bytes("farewell"), &mut hw), Vec::<u32>::new());
    // Clearing an absent payload is a quiet no-op.
    assert!(state.clear_payload(7, &mut hw).unwrap().is_none());
}

#[test]
fn filter_context_and_blocks() {
    let mut ix = FullTextIndex::new(config(false));
    let mut hw = HardwareCounter::new();
    ix.insert_document(1, &bytes("red green blue")).unwrap();
    ix.insert_document(2, &bytes("red blue")).unwrap();
    ix.insert_document(3, &bytes("red")).unwrap();
    assert!(ix.check_point(&bytes("red blue"), 1, &mut hw));
    assert!(ix.check_point(&bytes("red blue"), 2, &mut hw));
    assert!(!ix.check_point(&bytes("red blue"), 3, &mut hw));
    let blocks = ix.payload_blocks(2, &mut hw);
    let mut names: Vec<Vec<u8>> = blocks.iter().map(|b| b.0.clone()).collect();
    names.sort();
    assert_eq!(names, vec![bytes("blue"), bytes("red")]);
    for b in &blocks {
        assert!(b.1 >= 2);
    }
}

#[test]
fn estimate_nested_uses_same_bounds() {
    let mut state = PayloadIndexState::new();
    let mut hw = HardwareCounter::new();
    state.overwrite_payload(4, &bytes("alpha beta"), &mut hw).unwrap();
    let built = state.build_index(&bytes("note"), &config(false), &mut hw);
    let artifacts = match built {
        BuildIndexResult::Built(v) => v,
        _ => panic!("expected a build"),
    };
    state.apply_index(bytes("note"), artifacts).unwrap();
    let e = state.estimate_nested_cardinality(&bytes("note"), &bytes("alpha"), &mut hw);
    assert_eq!((e.min, e.max), (1, 1));
    let missing = state.estimate_cardinality(&bytes("absent"), &bytes("alpha"), &mut hw);
    assert_eq!((missing.min, missing.max), (0, 0));
}

#[test]
fn counter_is_threaded_through_queries() {
    let mut ix = FullTextIndex::new(config(false));
    let mut hw = HardwareCounter::new();
    ix.insert_document(1, &bytes("count these tokens")).unwrap();
    assert_eq!(hw.cost, 0);
    let _ = ix.query(&bytes("count tokens"), &mut hw);
    assert!(hw.cost > 0);
    let was = hw.cost;
    let _ = ix.estimate_cardinality(&bytes("count"), &mut hw);
    assert!(hw.cost >= was);
}

#[test]
fn field_index_enum_carries_text_index() {
    let ix = FullTextIndex::new(config(false));
    let field = FieldIndex::FullText(ix);
    match field {
        FieldIndex::FullText(_) => {}
    }
}

#[test]
fn set_indexed_builds_from_payloads() {
    let mut state = PayloadIndexState::new();
    let mut hw = HardwareCounter::new();
    state.overwrite_payload(3, &bytes("green tea"), &mut hw).unwrap();
    state.set_indexed(&bytes("drink"), &config(false), &mut hw).unwrap();
    assert_eq!(state.query_points(&bytes("drink"), &bytes("tea"), &mut hw), vec![3]);
    // Marking an already indexed field keeps it.
    state.set_indexed(&bytes("drink"), &config(false), &mut hw).unwrap();
    assert_eq!(state.query_points(&bytes("drink"), &bytes("green"), &mut hw), vec![3]);
}

#[test]
fn indexed_fields_enumerates_keys_and_schemas() {
    let mut state = PayloadIndexState::new();
    let mut hw = HardwareCounter::new();
    state.set_indexed(&bytes("alpha"), &config(false), &mut hw).unwrap();
    state.set_indexed(&bytes("beta"), &config(true), &mut hw).unwrap();
    let fields = state.indexed_fields();
    assert_eq!(fields.len(), 2);
    let mut keys: Vec<Vec<u8>> = fields.iter().map(|f| f.0.clone()).collect();
    keys.sort();
    assert_eq!(keys, vec![bytes("alpha"), bytes("beta")]);
    for f in &fields {
        if f.0 == bytes("beta") {
            assert!(f.1.positions_enabled);
        } else {
            assert!(!f.1.positions_enabled);
        }
    }
    assert_eq!(
        state.get_payload_sequential(1, &mut hw),
        state.get_payload(1, &mut hw)
    );
}

#[test]
fn dropping_one_field_keeps_the_others() {
    let mut state = PayloadIndexState::new();
    let mut hw = HardwareCounter::new();
    state.overwrite_payload(1, &bytes("shared text"), &mut hw).unwrap();
    state.set_indexed(&bytes("one"), &config(false), &mut hw).unwrap();
    state.set_indexed(&bytes("two"), &config(false), &mut hw).unwrap();
    state.drop_index(&bytes("one")).unwrap();
    assert_eq!(state.query_points(&bytes("one"), &bytes("shared"), &mut hw), Vec::<u32>::new());
    assert_eq!(state.query_points(&bytes("two"), &bytes("shared"), &mut hw), vec![1]);
}
