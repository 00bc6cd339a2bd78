use aura_tokenizer::Tokenizer;
use aura_tokenizer::TokenizerError;
use aura_tokenizer::normalize::NormForm;
use aura_tokenizer::normalize::normalize;
use aura_tokenizer::normalize::parse_form;

#[test]
fn nfc_composes() {
    // 'e' followed by a combining acute accent composes to one codepoint.
    let decomposed = "e\u{301}";
    let composed = normalize(decomposed, NormForm::Nfc, false, false);
    assert_eq!(composed, "\u{e9}");
}

#[test]
fn nfd_decomposes() {
    let composed = "\u{e9}";
    let decomposed = normalize(composed, NormForm::Nfd, false, false);
    assert_eq!(decomposed, "e\u{301}");
}

#[test]
fn normalize_is_idempotent() {
    let input = "Mixed te\u{301}xt \u{e9}\u{fa} with marks";
    let once = normalize(input, NormForm::Nfc, false, false);
    let twice = normalize(&once, NormForm::Nfc, false, false);
    assert_eq!(once, twice);
    let once_d = normalize(input, NormForm::Nfd, false, false);
    let twice_d = normalize(&once_d, NormForm::Nfd, false, false);
    assert_eq!(once_d, twice_d);
}

#[test]
fn accent_stripping_removes_marks() {
    let stripped = normalize("caf\u{e9}", NormForm::Identity, true, false);
    assert_eq!(stripped, "cafe");
}

#[test]
fn lowercasing_folds_case() {
    let folded = normalize("MiXeD Case", NormForm::Identity, false, true);
    assert_eq!(folded, "mixed case");
}

#[test]
fn unsupported_form_is_config_error() {
    assert_eq!(parse_form("NFX"), Err(TokenizerError::Config));
    let mut t = Tokenizer::new_bpe();
    assert_eq!(t.set_normalization_form("bogus"), Err(TokenizerError::Config));
    assert_eq!(t.set_normalization_form("NFKC"), Ok(()));
}

#[test]
fn empty_pattern_is_config_error() {
    let mut t = Tokenizer::new_bpe();
    assert_eq!(t.add_pre_tokenizer_pattern(""), Err(TokenizerError::Config));
    assert_eq!(t.add_pre_tokenizer_pattern("--"), Ok(()));
}

#[test]
fn pattern_becomes_its_own_chunk() {
    let corpus = vec!["aa--bb".to_string()];
    let mut t = Tokenizer::new_bpe();
    t.train_from_lines(&corpus, 300).unwrap();
    t.add_pre_tokenizer_pattern("--").unwrap();
    let enc = t.encode("aa--bb");
    // The partition keeps every byte, so decoding still round-trips.
    assert_eq!(t.decode(&enc.input_ids, true), "aa--bb");
}

#[test]
fn whitespace_and_punctuation_split() {
    let corpus = vec!["hi, there".to_string()];
    let mut t = Tokenizer::new_bpe();
    t.train_from_lines(&corpus, 300).unwrap();
    // Punctuation and spaces are kept by the partition: exact round trip.
    let enc = t.encode("hi, there");
    assert_eq!(t.decode(&enc.input_ids, true), "hi, there");
}
