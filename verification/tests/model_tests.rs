use aura_tokenizer::BPETokenizer;
use aura_tokenizer::CharLevelTokenizer;
use aura_tokenizer::Tokenizer;
use aura_tokenizer::TokenizerError;
use aura_tokenizer::UnigramTokenizer;
use aura_tokenizer::WordPieceTokenizer;

#[test]
fn wordpiece_greedy_longest_match() {
    let vocab = vec![
        "hell".to_string(),
        "hello".to_string(),
        "##o".to_string(),
        "##lo".to_string(),
    ];
    let t = WordPieceTokenizer::from_vocab_lines(&vocab);
    // "hello" is itself a token, so the greedy longest match emits one id.
    let enc = t.encode("hello");
    assert_eq!(enc.input_ids.len(), 1);
    assert_eq!(t.decode(&enc.input_ids, true), "hello");
}

#[test]
fn wordpiece_continuation_marker_stripped() {
    let vocab = vec!["hell".to_string(), "##o".to_string()];
    let t = WordPieceTokenizer::from_vocab_lines(&vocab);
    let enc = t.encode("hello");
    assert_eq!(enc.input_ids.len(), 2);
    assert_eq!(t.decode(&enc.input_ids, true), "hello");
}

#[test]
fn wordpiece_unmatched_word_is_single_unknown() {
    let vocab = vec!["hell".to_string(), "##o".to_string()];
    let t = WordPieceTokenizer::from_vocab_lines(&vocab);
    let enc = t.encode("zzz");
    // One emission for the whole pre-token, not one per character.
    assert_eq!(enc.input_ids, vec![t.inner.unk_id as i32]);
}

#[test]
fn charlevel_first_occurrence_ids_and_frozen_vocab() {
    let mut t = CharLevelTokenizer::new();
    t.train_from_lines(&vec!["abca".to_string()], 1000).unwrap();
    let enc = t.encode("abc");
    assert_eq!(enc.input_ids.len(), 3);
    let unk = t.inner.unk_id as i32;
    assert!(enc.input_ids.iter().all(|&id| id != unk));
    // A codepoint never trained maps to the unknown id: the vocabulary is
    // frozen after training.
    let enc2 = t.encode("z");
    assert_eq!(enc2.input_ids, vec![unk]);
    assert_eq!(t.decode(&enc.input_ids, true), "abc");
}

#[test]
fn unigram_viterbi_round_trip() {
    let mut t = UnigramTokenizer::new();
    t.train_from_lines(&vec!["banana band bandana".to_string()], 400).unwrap();
    let enc = t.encode("banana");
    assert!(!enc.input_ids.is_empty());
    assert_eq!(t.decode(&enc.input_ids, true), "banana");
}

#[test]
fn unigram_fallback_only_when_unsegmentable() {
    let t = UnigramTokenizer::from_vocab_lines(&vec!["ab".to_string()]);
    let unk = t.inner.unk_id as i32;
    // "abab" is segmentable, so no unknown fallback.
    let enc = t.encode("abab");
    assert!(enc.input_ids.iter().all(|&x| x != unk));
    assert_eq!(t.decode(&enc.input_ids, true), "abab");
    // "abc" has no segmentation into {"ab"}: one unknown for the chunk.
    let enc2 = t.encode("abc");
    assert_eq!(enc2.input_ids, vec![unk]);
}

#[test]
fn unigram_prefers_higher_scoring_segmentation() {
    let mut t = UnigramTokenizer::from_vocab_lines(&vec![
        "a".to_string(),
        "b".to_string(),
        "ab".to_string(),
    ]);
    let a = t.inner.token_to_id("a");
    let b = t.inner.token_to_id("b");
    let ab = t.inner.token_to_id("ab");
    // With "ab" scored highest, the single token wins.
    t.inner.scores[a as usize] = 1;
    t.inner.scores[b as usize] = 1;
    t.inner.scores[ab as usize] = 10;
    assert_eq!(t.encode("ab").input_ids, vec![ab]);
    // With "ab" scored far below, the two-token path wins.
    t.inner.scores[ab as usize] = -100;
    assert_eq!(t.encode("ab").input_ids, vec![a, b]);
}

#[test]
fn unigram_tie_prefers_longer_token() {
    let t = UnigramTokenizer::from_vocab_lines(&vec![
        "a".to_string(),
        "b".to_string(),
        "ab".to_string(),
    ]);
    let ab = t.inner.token_to_id("ab");
    // All scores equal: the longer token is preferred on the tie.
    assert_eq!(t.encode("ab").input_ids, vec![ab]);
}

#[test]
fn bpe_variant_matches_generic() {
    let corpus = vec!["some shared corpus line".to_string()];
    let mut a = BPETokenizer::new();
    a.train_from_lines(&corpus, 400).unwrap();
    let mut b = Tokenizer::new_bpe();
    b.train_from_lines(&corpus, 400).unwrap();
    assert_eq!(a.encode("shared line").input_ids, b.encode("shared line").input_ids);
}

#[test]
fn bpe_merges_reduce_token_count() {
    let mut t = Tokenizer::new_bpe();
    t.train_from_lines(&vec!["aaaa aaaa aaaa".to_string()], 300).unwrap();
    let enc = t.encode("aaaa");
    // Training merged repeated pairs, so the word takes fewer ids than bytes.
    assert!(enc.input_ids.len() < 4);
    assert_eq!(t.decode(&enc.input_ids, true), "aaaa");
}

#[test]
fn trained_token_maps_back_to_its_text() {
    let mut t = Tokenizer::new_bpe();
    t.train_from_lines(&vec!["ababab".to_string()], 300).unwrap();
    let enc = t.encode("ab");
    assert_eq!(enc.input_ids.len(), 1);
    assert_eq!(t.id_to_token(enc.input_ids[0]), "ab");
    assert_eq!(t.token_to_id("ab"), enc.input_ids[0]);
}

#[test]
fn training_errors_leave_state_unchanged() {
    let mut t = Tokenizer::new_bpe();
    let before = t.save_string();
    // Empty corpus.
    assert_eq!(t.train_from_lines(&vec![], 1000), Err(TokenizerError::Training));
    // Target vocabulary smaller than the base alphabet.
    assert_eq!(
        t.train_from_lines(&vec!["abc".to_string()], 10),
        Err(TokenizerError::Training)
    );
    assert_eq!(t.save_string(), before);
}

#[test]
fn unigram_training_error_conditions() {
    let mut t = UnigramTokenizer::new();
    assert_eq!(t.train_from_lines(&vec![], 1000), Err(TokenizerError::Training));
    assert_eq!(
        t.train_from_lines(&vec!["abc".to_string()], 3),
        Err(TokenizerError::Training)
    );
}

#[test]
fn charlevel_training_error_on_empty_corpus() {
    let mut t = CharLevelTokenizer::new();
    assert_eq!(t.train_from_lines(&vec![], 1000), Err(TokenizerError::Training));
}
