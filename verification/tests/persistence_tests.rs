use aura_tokenizer::BPETokenizer;
use aura_tokenizer::Tokenizer;
use aura_tokenizer::TokenizerError;

#[test]
fn save_then_load_reproduces_behavior() {
    let corpus = vec!["round trips are load-bearing".to_string()];
    let mut t = Tokenizer::new_bpe();
    t.train_from_lines(&corpus, 400).unwrap();
    t.set_normalization_form("NFC").unwrap();
    t.set_lowercase(true);
    t.create_bert_post_processor(true);
    t.add_special_tokens(vec!["[FOO]".to_string()]);
    let saved = t.save_string();
    let loaded = Tokenizer::from_saved(&saved).unwrap();
    let texts = ["round trips", "Load-BEARING", "", "outside ßtext"];
    for text in texts.iter() {
        let a = t.encode(text);
        let b = loaded.encode(text);
        assert_eq!(a.input_ids, b.input_ids);
        assert_eq!(a.attention_mask, b.attention_mask);
        assert_eq!(t.decode(&a.input_ids, true), loaded.decode(&b.input_ids, true));
    }
    assert_eq!(t.token_to_id("[FOO]"), loaded.token_to_id("[FOO]"));
    assert_eq!(loaded.save_string(), saved);
}

#[test]
fn load_rejects_version_mismatch() {
    assert_eq!(
        Tokenizer::from_saved("aura-tokenizer-v9\nbpe\n").err(),
        Some(TokenizerError::Format)
    );
}

#[test]
fn load_rejects_structural_corruption() {
    // Far too short.
    assert_eq!(Tokenizer::from_saved("").err(), Some(TokenizerError::Format));
    // A well-formed save, then a corrupted token count.
    let t = Tokenizer::new_bpe();
    let saved = t.save_string();
    let corrupt = saved.replacen("7\n", "999\n", 1);
    assert_eq!(Tokenizer::from_saved(&corrupt).err(), Some(TokenizerError::Format));
}

#[test]
fn load_rejects_duplicate_tokens() {
    let t = Tokenizer::new_bpe();
    let saved = t.save_string();
    // Duplicate the "[PAD]" vocabulary line over the "[BOS]" one.
    let lines: Vec<&str> = saved.lines().collect();
    let mut forged: Vec<String> = lines.iter().map(|s| s.to_string()).collect();
    // Vocabulary entries start at line 11; copy entry 1 over entry 2.
    let dup = forged[12].clone();
    forged[13] = dup;
    let body = forged.join("\n");
    assert_eq!(Tokenizer::from_saved(&body).err(), Some(TokenizerError::Format));
}

#[test]
fn wordpiece_save_then_load() {
    let vocab = vec!["hell".to_string(), "##o".to_string()];
    let t = aura_tokenizer::WordPieceTokenizer::from_vocab_lines(&vocab);
    let loaded = Tokenizer::from_saved(&t.save_string()).unwrap();
    let a = t.encode("hello");
    let b = loaded.encode("hello");
    assert_eq!(a.input_ids, b.input_ids);
    assert_eq!(loaded.decode(&b.input_ids, true), "hello");
}

#[test]
fn unigram_save_then_load() {
    let mut t = aura_tokenizer::UnigramTokenizer::new();
    t.train_from_lines(&vec!["scores persist too".to_string()], 400).unwrap();
    let loaded = Tokenizer::from_saved(&t.save_string()).unwrap();
    let a = t.encode("scores persist");
    let b = loaded.encode("scores persist");
    assert_eq!(a.input_ids, b.input_ids);
}

#[test]
fn negative_scores_survive_persistence() {
    let mut t = aura_tokenizer::UnigramTokenizer::new();
    t.inner.scores[0] = -42;
    t.inner.scores[1] = i64::MIN;
    let loaded = Tokenizer::from_saved(&t.save_string()).unwrap();
    assert_eq!(loaded.scores[0], -42);
    assert_eq!(loaded.scores[1], i64::MIN);
}

#[test]
fn bpe_from_vocab_and_merges_lines() {
    let vocab = vec!["a".to_string(), "b".to_string(), "ab".to_string()];
    let merges = vec!["a b".to_string()];
    let t = BPETokenizer::from_vocab_lines(&vocab, &merges);
    let enc = t.encode("ab");
    assert_eq!(enc.input_ids.len(), 1);
    assert_eq!(t.decode(&enc.input_ids, true), "ab");
}

#[test]
fn bpe_merges_apply_in_rank_order() {
    let vocab = vec![
        "a".to_string(),
        "b".to_string(),
        "ab".to_string(),
        "abb".to_string(),
    ];
    // Rank 0 fuses (a, b); rank 1 can then fuse (ab, b): one id for "abb".
    let forward = BPETokenizer::from_vocab_lines(
        &vocab,
        &vec!["a b".to_string(), "ab b".to_string()],
    );
    assert_eq!(forward.encode("abb").input_ids.len(), 1);
    // Reversed ranks: (ab, b) finds nothing among base units, then (a, b)
    // fuses once - two ids. Rank order is observable.
    let reversed = BPETokenizer::from_vocab_lines(
        &vocab,
        &vec!["ab b".to_string(), "a b".to_string()],
    );
    assert_eq!(reversed.encode("abb").input_ids.len(), 2);
    assert_eq!(reversed.decode(&reversed.encode("abb").input_ids, true), "abb");
}
