use aura_tokenizer::Tokenizer;

#[test]
fn test_full_pipeline() {
    // 1. The corpus, one line.
    let corpus = vec!["Hello world! This is a test corpus for Aura Tokenizer.".to_string()];

    // 2. Initialize Tokenizer
    let mut tokenizer = Tokenizer::new_bpe();

    // 3. Train
    tokenizer.train_from_lines(&corpus, 1000).unwrap();

    // 4. Configure
    tokenizer.set_normalization_form("NFC").unwrap();
    tokenizer.set_lowercase(true);
    tokenizer.create_bert_post_processor(true);

    // 5. Encode
    let text = "Hello World";
    let encoding = tokenizer.encode(text);

    // Verify
    assert!(!encoding.input_ids.is_empty());
    println!("IDs: {:?}", encoding.input_ids);

    // 6. Decode
    let decoded = tokenizer.decode(&encoding.input_ids, true);
    // Note: Decoded might be lowercased due to configuration
    assert!(decoded.to_lowercase().contains("hello"));
}

#[test]
fn round_trip_identity_bpe() {
    let corpus = vec!["hello world".to_string()];
    let mut t = Tokenizer::new_bpe();
    t.train_from_lines(&corpus, 400).unwrap();
    let enc = t.encode("hello world");
    let back = t.decode(&enc.input_ids, true);
    assert_eq!(back, "hello world");
}

#[test]
fn round_trip_arbitrary_bytes() {
    let corpus = vec!["abc".to_string()];
    let mut t = Tokenizer::new_bpe();
    t.train_from_lines(&corpus, 300).unwrap();
    // Trained byte-level BPE covers input far outside the corpus.
    let text = "Grüße, 世界!";
    let enc = t.encode(text);
    assert_eq!(t.decode(&enc.input_ids, true), text);
}

#[test]
fn training_is_deterministic() {
    let corpus = vec!["the quick brown fox jumps over the lazy dog".to_string()];
    let mut a = Tokenizer::new_bpe();
    let mut b = Tokenizer::new_bpe();
    a.train_from_lines(&corpus, 500).unwrap();
    b.train_from_lines(&corpus, 500).unwrap();
    assert_eq!(a.get_vocab_size(), b.get_vocab_size());
    assert_eq!(a.save_string(), b.save_string());
    let ea = a.encode("quick fox");
    let eb = b.encode("quick fox");
    assert_eq!(ea.input_ids, eb.input_ids);
}

#[test]
fn byte_level_coverage_no_unknown() {
    let corpus = vec!["x".to_string()];
    let mut t = Tokenizer::new_bpe();
    t.train_from_lines(&corpus, 300).unwrap();
    let unk = t.unk_id as i32;
    let enc = t.encode("ßé∂ƒ©˙ wholly untrained input");
    assert!(!enc.input_ids.is_empty());
    assert!(enc.input_ids.iter().all(|&id| id != unk));
}

#[test]
fn empty_input_empty_encoding() {
    let corpus = vec!["abc".to_string()];
    let mut t = Tokenizer::new_bpe();
    t.train_from_lines(&corpus, 300).unwrap();
    let enc = t.encode("");
    assert_eq!(enc.input_ids.len(), 0);
    assert_eq!(enc.attention_mask.len(), 0);
}

#[test]
fn empty_input_only_wrapper_after_postprocessor() {
    let corpus = vec!["abc".to_string()];
    let mut t = Tokenizer::new_bpe();
    t.train_from_lines(&corpus, 300).unwrap();
    t.create_bert_post_processor(true);
    let enc = t.encode("");
    // Exactly the class and separator boundary tokens, nothing else.
    assert_eq!(enc.input_ids, vec![t.cls_id as i32, t.sep_id as i32]);
    assert_eq!(enc.attention_mask, vec![1, 1]);
    assert_eq!(t.decode(&enc.input_ids, true), "");
}

#[test]
fn special_tokens_stable_ids() {
    let mut t = Tokenizer::new_bpe();
    t.add_special_tokens(vec!["[FOO]".to_string()]);
    let id = t.token_to_id("[FOO]");
    assert!(id >= 0);
    assert_eq!(t.id_to_token(id), "[FOO]");
    // Training on a corpus lacking the literal never moves or emits it.
    t.train_from_lines(&vec!["plain words only".to_string()], 400).unwrap();
    assert_eq!(t.token_to_id("[FOO]"), id);
    assert_eq!(t.id_to_token(id), "[FOO]");
    let enc = t.encode("plain words only");
    assert!(enc.input_ids.iter().all(|&x| x != id));
}

#[test]
fn decode_keeps_specials_when_not_skipping() {
    let corpus = vec!["abc".to_string()];
    let mut t = Tokenizer::new_bpe();
    t.train_from_lines(&corpus, 300).unwrap();
    t.create_bert_post_processor(true);
    let enc = t.encode("abc");
    let shown = t.decode(&enc.input_ids, false);
    assert!(shown.contains("[CLS]"));
    assert!(shown.contains("[SEP]"));
    assert!(!t.decode(&enc.input_ids, true).contains("[CLS]"));
}

#[test]
fn registered_special_tokens_are_never_split() {
    let mut t = Tokenizer::new_bpe();
    t.add_special_tokens(vec!["[FOO]".to_string()]);
    let foo = t.token_to_id("[FOO]");
    assert!(foo >= 0);
    t.train_from_lines(&vec!["plain body text".to_string()], 400).unwrap();
    let enc = t.encode("body [FOO] text[FOO]");
    // Each occurrence is emitted as the single reserved id, unsplit.
    assert_eq!(enc.input_ids.iter().filter(|&&x| x == foo).count(), 2);
    // Shown when not skipping, omitted when skipping.
    assert!(t.decode(&enc.input_ids, false).contains("[FOO]"));
    assert!(!t.decode(&enc.input_ids, true).contains("[FOO]"));
}

#[test]
fn default_specials_in_text_are_protected() {
    let mut t = Tokenizer::new_bpe();
    t.train_from_lines(&vec!["some words".to_string()], 400).unwrap();
    let enc = t.encode("[UNK]");
    assert_eq!(enc.input_ids, vec![t.unk_id as i32]);
    assert_eq!(t.decode(&enc.input_ids, false), "[UNK]");
}

#[test]
fn unknown_token_lookups_are_sentinels() {
    let t = Tokenizer::new_bpe();
    assert_eq!(t.token_to_id("never-added"), -1);
    assert_eq!(t.id_to_token(123456), "");
    assert_eq!(t.id_to_token(-7), "");
}

#[test]
fn default_special_tokens_present() {
    let t = Tokenizer::new_bpe();
    assert_eq!(t.get_vocab_size(), 7);
    assert_eq!(t.token_to_id("[UNK]"), 0);
    assert_eq!(t.token_to_id("[PAD]"), 1);
    assert_eq!(t.token_to_id("[SEP]"), 5);
    assert_eq!(t.token_to_id("[CLS]"), 6);
    assert_eq!(t.id_to_token(4), "[MASK]");
}
