use vstd::prelude::*;
use vstd::utf8::decode_utf8;
use vstd::utf8::encode_utf8;
use vstd::utf8::valid_utf8;

use crate::errors::TokenizerError;
use crate::normalize::NormForm;
use crate::normalize::spec_parse_form;
use crate::postprocess::spec_post;
use crate::tokenizer::Encoding;
use crate::tokenizer::Model;
use crate::tokenizer::Tokenizer;
use crate::pretokenize::PreToken;
use crate::tokenizer::among_args;
use crate::tokenizer::core_decomposition;
use crate::tokenizer::emitted_ok;
use crate::tokenizer::lossy_text_of;
use crate::tokenizer::spec_decode_bytes;
use crate::vocab::bytes_complete;
use crate::vocab::concat_bytes;
use crate::vocab::has_token;
use crate::vocab::ids_valid;

verus! {

/// The byte-pair-encoding tokenizer: merge-rule-based subword model over bytes.
pub struct BPETokenizer {
    pub inner: Tokenizer,
}

impl BPETokenizer {
    /// An untrained instance with the default special tokens and identity
    /// normalization.
    pub fn new() -> (t: BPETokenizer)
        ensures
            t.inner.wf(),
            t.inner.model is Bpe,
            t.inner.form == NormForm::Identity,
            !t.inner.strip_accents,
            !t.inner.lowercase,
            !t.inner.post_bert,
            t.inner.patterns@.len() == 0,
            t.inner.merges@.len() == 0,
            t.inner.vocab.spec_tokens().len() == 7,
            t.inner.unk_id == 0,
            t.inner.cls_id == 6,
            t.inner.sep_id == 5,
            t.inner.vocab.spec_tokens()[0] == encode_utf8("[UNK]"@),
            t.inner.vocab.spec_tokens()[5] == encode_utf8("[SEP]"@),
            t.inner.vocab.spec_tokens()[6] == encode_utf8("[CLS]"@),
            forall|i: int| 0 <= i < 7 ==> (#[trigger] t.inner.vocab.spec_special()[i]),
            forall|i: int|
                0 <= i < t.inner.vocab.spec_tokens().len() ==> (#[trigger]
                t.inner.vocab.spec_tokens()[i]).len() >= 2,
    {
        BPETokenizer { inner: Tokenizer::new_with_model(Model::Bpe) }
    }

    /// Builds a tokenizer from the lines of a vocabulary file and a
    /// merges file (the files' logical schema; reading them is the
    /// caller's concern). Unless the id space fills up, every nonempty
    /// vocabulary line's token is present afterward.
    pub fn from_vocab_lines(vocab_lines: &Vec<String>, merges_lines: &Vec<String>) -> (t:
        BPETokenizer)
        ensures
            t.inner.wf(),
            t.inner.model is Bpe,
            t.inner.vocab.spec_tokens().len() < 0x7fff_ffff ==> forall|i: int|
                0 <= i < vocab_lines@.len() && (#[trigger] vocab_lines@[i])@.len() >= 1
                    ==> has_token(t.inner.vocab.spec_tokens(), encode_utf8(vocab_lines@[i]@)),
            t.inner.merges@ == crate::tokenizer::spec_lines_rules(
                t.inner.vocab.spec_tokens(),
                merges_lines@,
            ),
    {
        let mut t = BPETokenizer::new();
        t.inner.load_vocab_lines(vocab_lines);
        t.inner.load_merges_lines(merges_lines);
        proof {
            assert(t.inner.merges@ =~= crate::tokenizer::spec_lines_rules(
                t.inner.vocab.spec_tokens(),
                merges_lines@,
            ));
        }
        t
    }

    /// Encodes one input string through the shared pipeline: registered
    /// special tokens in the input are emitted unsplit as their ids, and
    /// for a trained byte-complete BPE vocabulary the core ids spell
    /// exactly the normalized input's UTF-8 bytes.
    pub fn encode(&self, text: &str) -> (r: Encoding)
        requires
            self.inner.wf(),
        ensures
            r.attention_mask@.len() == r.input_ids@.len(),
            forall|k: int| 0 <= k < r.attention_mask@.len() ==> r.attention_mask@[k] == 1i32,
            forall|k: int|
                0 <= k < r.input_ids@.len() ==> 0 <= (#[trigger] r.input_ids@[k])
                    < self.inner.vocab.spec_tokens().len(),
            text@.len() == 0 && !self.inner.spec_post_on() ==> r.input_ids@.len() == 0,
            text@.len() == 0 && self.inner.spec_post_on() ==> r.input_ids@ == seq![
                self.inner.cls_id as i32,
                self.inner.sep_id as i32,
            ],
            exists|chunks: Seq<PreToken>, parts: Seq<Seq<usize>>, core: Seq<usize>|
                {
                    &&& ids_valid(self.inner.vocab.spec_tokens(), core)
                    &&& r.input_ids@ == spec_post(
                        self.inner.post_bert,
                        self.inner.post_add_special,
                        self.inner.cls_id,
                        self.inner.sep_id,
                        core,
                    ).map_values(|id: usize| id as i32)
                    &&& #[trigger] core_decomposition(
                        self.inner,
                        self.inner.spec_norm(text@),
                        chunks,
                        parts,
                        core,
                    )
                    &&& (self.inner.model is Bpe && bytes_complete(
                        self.inner.vocab.spec_tokens(),
                    ) ==> concat_bytes(self.inner.vocab.spec_tokens(), core) == encode_utf8(
                        self.inner.spec_norm(text@),
                    ))
                    &&& (text@.len() == 0 ==> core.len() == 0)
                    &&& (self.inner.model is Bpe && bytes_complete(
                        self.inner.vocab.spec_tokens(),
                    ) ==> forall|k: int|
                        0 <= k < core.len() ==> emitted_ok(
                            self.inner,
                            encode_utf8(self.inner.spec_norm(text@)),
                            #[trigger] core[k],
                        ))
                },
    {
        self.inner.encode(text)
    }

    /// Decodes ids back to text: valid ids contribute their token strings
    /// (continuation markers stripped for WordPiece), special tokens are
    /// omitted when asked, invalid ids are ignored.
    pub fn decode(&self, ids: &[i32], skip_special_tokens: bool) -> (r: String)
        requires
            self.inner.wf(),
        ensures
            r@ == lossy_text_of(
                spec_decode_bytes(
                    self.inner.vocab.spec_tokens(),
                    self.inner.vocab.spec_special(),
                    self.inner.model is WordPiece,
                    ids@,
                    skip_special_tokens,
                ),
            ),
            valid_utf8(
                spec_decode_bytes(
                    self.inner.vocab.spec_tokens(),
                    self.inner.vocab.spec_special(),
                    self.inner.model is WordPiece,
                    ids@,
                    skip_special_tokens,
                ),
            ) ==> r@ == decode_utf8(
                spec_decode_bytes(
                    self.inner.vocab.spec_tokens(),
                    self.inner.vocab.spec_special(),
                    self.inner.model is WordPiece,
                    ids@,
                    skip_special_tokens,
                ),
            ),
    {
        self.inner.decode(ids, skip_special_tokens)
    }

    /// The serialized form of this tokenizer, in the library's versioned
    /// text format.
    pub fn save_string(&self) -> (r: String)
        requires
            self.inner.wf(),
        ensures
            r@.len() >= 18,
            r@.subrange(0, 18) == "aura-tokenizer-v1\n"@,
    {
        self.inner.save_string()
    }

    /// The number of vocabulary entries.
    pub fn get_vocab_size(&self) -> (r: usize)
        ensures
            r == self.inner.vocab.spec_tokens().len(),
    {
        self.inner.get_vocab_size()
    }

    /// Selects the normalization form by name; an unknown name is a
    /// configuration error and the instance is unchanged.
    pub fn set_normalization_form(&mut self, form: &str) -> (r: Result<(), TokenizerError>)
        ensures
            match r {
                Ok(()) => spec_parse_form(form@) is Ok && *final(self) == (BPETokenizer {
                    inner: (Tokenizer {
                        form: spec_parse_form(form@).unwrap(),
                        ..old(self).inner
                    }),
                }),
                Err(e) => {
                    &&& e == TokenizerError::Config
                    &&& spec_parse_form(form@) is Err
                    &&& *final(self) == *old(self)
                },
            },
    {
        self.inner.set_normalization_form(form)
    }

    /// Trains the model on corpus lines; failure leaves the instance
    /// exactly as it was, and happens precisely when no line yields a
    /// word under the current normalization, or (for the byte-level
    /// trainers) the target is below the base alphabet or the id space
    /// would be exhausted.
    pub fn train_from_lines(&mut self, lines: &Vec<String>, vocab_size: usize) -> (r: Result<
        (),
        TokenizerError,
    >)
        requires
            old(self).inner.wf(),
        ensures
            match r {
                Ok(()) => {
                    &&& final(self).inner.wf()
                    &&& final(self).inner.vocab.extends(old(self).inner.vocab)
                    &&& final(self).inner.model == old(self).inner.model
                    &&& final(self).inner.unk_id == old(self).inner.unk_id
                    &&& final(self).inner.cls_id == old(self).inner.cls_id
                    &&& final(self).inner.sep_id == old(self).inner.sep_id
                    &&& ((final(self).inner.model is Bpe || final(self).inner.model is Unigram)
                        ==> bytes_complete(final(self).inner.vocab.spec_tokens()))
                    &&& (final(self).inner.model is Bpe ==> forall|j: int|
                        0 <= j < final(self).inner.merges@.len()
                            ==> !final(self).inner.vocab.spec_special()[(#[trigger]
                        final(self).inner.merges@[j]).result as int])
                    &&& forall|i: int|
                        old(self).inner.vocab.spec_tokens().len() <= i
                            < final(self).inner.vocab.spec_tokens().len() ==> !(#[trigger]
                        final(self).inner.vocab.spec_special()[i])
                    &&& ((final(self).inner.model is Bpe || final(self).inner.model is Unigram)
                        ==> (final(self).inner.vocab.spec_tokens().len() <= vocab_size
                        || final(self).inner.vocab.spec_tokens().len()
                            <= old(self).inner.vocab.spec_tokens().len() + 256))
                },
                Err(e) => {
                    &&& e == TokenizerError::Training
                    &&& *final(self) == *old(self)
                },
            },
            r is Err <==> ({
                ||| (forall|i: int|
                    0 <= i < lines@.len() ==> (#[trigger] old(self).inner.spec_norm(
                        lines@[i]@,
                    )).len() == 0)
                ||| ((old(self).inner.model is Bpe || old(self).inner.model is Unigram) && (
                vocab_size < 256 || old(self).inner.vocab.spec_tokens().len() > 0x7fff_ffff
                    - 256))
            }),
    {
        self.inner.train_from_lines(lines, vocab_size)
    }

    /// Turns accent stripping on or off.
    pub fn set_strip_accents(&mut self, strip: bool)
        ensures
            *final(self) == (BPETokenizer {
                inner: (Tokenizer { strip_accents: strip, ..old(self).inner }),
            }),
    {
        self.inner.set_strip_accents(strip);
    }

    /// Turns lowercasing on or off.
    pub fn set_lowercase(&mut self, lowercase: bool)
        ensures
            *final(self) == (BPETokenizer {
                inner: (Tokenizer { lowercase: lowercase, ..old(self).inner }),
            }),
    {
        self.inner.set_lowercase(lowercase);
    }

    /// Registers one pre-tokenizer pattern; an empty pattern is a
    /// configuration error.
    pub fn add_pre_tokenizer_pattern(&mut self, pattern: &str) -> (r: Result<(), TokenizerError>)
        ensures
            match r {
                Ok(()) => {
                    &&& pattern@.len() >= 1
                    &&& *final(self) == (BPETokenizer {
                        inner: (Tokenizer {
                            patterns: final(self).inner.patterns,
                            ..old(self).inner
                        }),
                    })
                    &&& final(self).inner.patterns@.len() == old(self).inner.patterns@.len() + 1
                    &&& final(self).inner.patterns@.last()@ == pattern@
                },
                Err(e) => {
                    &&& e == TokenizerError::Config
                    &&& pattern@.len() == 0
                    &&& *final(self) == *old(self)
                },
            },
    {
        self.inner.add_pre_tokenizer_pattern(pattern)
    }

    /// Installs the BERT-style post-processor.
    pub fn create_bert_post_processor(&mut self, add_special_tokens: bool)
        ensures
            *final(self) == (BPETokenizer {
                inner: (Tokenizer {
                    post_bert: true,
                    post_add_special: add_special_tokens,
                    ..old(self).inner
                }),
            }),
    {
        self.inner.create_bert_post_processor(add_special_tokens);
    }

    /// Registers special tokens: each nonempty string is afterwards in the
    /// vocabulary as a reserved, protected token; ids already assigned
    /// never move, and the vocabulary grows only by the arguments' tokens.
    pub fn add_special_tokens(&mut self, tokens: Vec<String>)
        requires
            old(self).inner.wf(),
            old(self).inner.vocab.spec_tokens().len() + tokens@.len() <= 0x7fff_ffff,
        ensures
            final(self).inner.wf(),
            final(self).inner.vocab.extends(old(self).inner.vocab),
            final(self).inner.model == old(self).inner.model,
            forall|t2: int|
                0 <= t2 < tokens@.len() && (#[trigger] tokens@[t2])@.len() >= 1 ==> has_token(
                    final(self).inner.vocab.spec_tokens(),
                    encode_utf8(tokens@[t2]@),
                ),
            forall|i: int|
                old(self).inner.vocab.spec_tokens().len() <= i
                    < final(self).inner.vocab.spec_tokens().len() ==> (#[trigger]
                final(self).inner.vocab.spec_special()[i]),
            final(self).inner.vocab.spec_tokens().len()
                <= old(self).inner.vocab.spec_tokens().len() + tokens@.len(),
            forall|i: int|
                old(self).inner.vocab.spec_tokens().len() <= i
                    < final(self).inner.vocab.spec_tokens().len() ==> among_args(
                    tokens@,
                    #[trigger] final(self).inner.vocab.spec_tokens()[i],
                ),
    {
        self.inner.add_special_tokens(tokens);
    }
}

impl Default for BPETokenizer {
    /// Same as `new`.
    fn default() -> (t: BPETokenizer)
        ensures
            t.inner.wf(),
            t.inner.model is Bpe,
    {
        BPETokenizer::new()
    }
}

/// The WordPiece tokenizer: greedy longest-match-first segmentation with a continuation marker.
pub struct WordPieceTokenizer {
    pub inner: Tokenizer,
}

impl WordPieceTokenizer {
    /// An untrained instance with the default special tokens and identity
    /// normalization.
    pub fn new() -> (t: WordPieceTokenizer)
        ensures
            t.inner.wf(),
            t.inner.model is WordPiece,
            t.inner.form == NormForm::Identity,
            !t.inner.strip_accents,
            !t.inner.lowercase,
            !t.inner.post_bert,
            t.inner.patterns@.len() == 0,
            t.inner.merges@.len() == 0,
            t.inner.vocab.spec_tokens().len() == 7,
            t.inner.unk_id == 0,
            t.inner.cls_id == 6,
            t.inner.sep_id == 5,
            t.inner.vocab.spec_tokens()[0] == encode_utf8("[UNK]"@),
            t.inner.vocab.spec_tokens()[5] == encode_utf8("[SEP]"@),
            t.inner.vocab.spec_tokens()[6] == encode_utf8("[CLS]"@),
            forall|i: int| 0 <= i < 7 ==> (#[trigger] t.inner.vocab.spec_special()[i]),
            forall|i: int|
                0 <= i < t.inner.vocab.spec_tokens().len() ==> (#[trigger]
                t.inner.vocab.spec_tokens()[i]).len() >= 2,
    {
        WordPieceTokenizer { inner: Tokenizer::new_with_model(Model::WordPiece) }
    }

    /// Builds a tokenizer from the lines of a vocabulary file. Unless the
    /// id space fills up, every nonempty line's token is present
    /// afterward.
    pub fn from_vocab_lines(vocab_lines: &Vec<String>) -> (t: WordPieceTokenizer)
        ensures
            t.inner.wf(),
            t.inner.model is WordPiece,
            t.inner.vocab.spec_tokens().len() < 0x7fff_ffff ==> forall|i: int|
                0 <= i < vocab_lines@.len() && (#[trigger] vocab_lines@[i])@.len() >= 1
                    ==> has_token(t.inner.vocab.spec_tokens(), encode_utf8(vocab_lines@[i]@)),
    {
        let mut t = WordPieceTokenizer::new();
        t.inner.load_vocab_lines(vocab_lines);
        t
    }

    /// Encodes one input string through the shared pipeline: registered
    /// special tokens in the input are emitted unsplit as their ids, and
    /// for a trained byte-complete BPE vocabulary the core ids spell
    /// exactly the normalized input's UTF-8 bytes.
    pub fn encode(&self, text: &str) -> (r: Encoding)
        requires
            self.inner.wf(),
        ensures
            r.attention_mask@.len() == r.input_ids@.len(),
            forall|k: int| 0 <= k < r.attention_mask@.len() ==> r.attention_mask@[k] == 1i32,
            forall|k: int|
                0 <= k < r.input_ids@.len() ==> 0 <= (#[trigger] r.input_ids@[k])
                    < self.inner.vocab.spec_tokens().len(),
            text@.len() == 0 && !self.inner.spec_post_on() ==> r.input_ids@.len() == 0,
            text@.len() == 0 && self.inner.spec_post_on() ==> r.input_ids@ == seq![
                self.inner.cls_id as i32,
                self.inner.sep_id as i32,
            ],
            exists|chunks: Seq<PreToken>, parts: Seq<Seq<usize>>, core: Seq<usize>|
                {
                    &&& ids_valid(self.inner.vocab.spec_tokens(), core)
                    &&& r.input_ids@ == spec_post(
                        self.inner.post_bert,
                        self.inner.post_add_special,
                        self.inner.cls_id,
                        self.inner.sep_id,
                        core,
                    ).map_values(|id: usize| id as i32)
                    &&& #[trigger] core_decomposition(
                        self.inner,
                        self.inner.spec_norm(text@),
                        chunks,
                        parts,
                        core,
                    )
                    &&& (self.inner.model is Bpe && bytes_complete(
                        self.inner.vocab.spec_tokens(),
                    ) ==> concat_bytes(self.inner.vocab.spec_tokens(), core) == encode_utf8(
                        self.inner.spec_norm(text@),
                    ))
                    &&& (text@.len() == 0 ==> core.len() == 0)
                    &&& (self.inner.model is Bpe && bytes_complete(
                        self.inner.vocab.spec_tokens(),
                    ) ==> forall|k: int|
                        0 <= k < core.len() ==> emitted_ok(
                            self.inner,
                            encode_utf8(self.inner.spec_norm(text@)),
                            #[trigger] core[k],
                        ))
                },
    {
        self.inner.encode(text)
    }

    /// Decodes ids back to text: valid ids contribute their token strings
    /// (continuation markers stripped for WordPiece), special tokens are
    /// omitted when asked, invalid ids are ignored.
    pub fn decode(&self, ids: &[i32], skip_special_tokens: bool) -> (r: String)
        requires
            self.inner.wf(),
        ensures
            r@ == lossy_text_of(
                spec_decode_bytes(
                    self.inner.vocab.spec_tokens(),
                    self.inner.vocab.spec_special(),
                    self.inner.model is WordPiece,
                    ids@,
                    skip_special_tokens,
                ),
            ),
            valid_utf8(
                spec_decode_bytes(
                    self.inner.vocab.spec_tokens(),
                    self.inner.vocab.spec_special(),
                    self.inner.model is WordPiece,
                    ids@,
                    skip_special_tokens,
                ),
            ) ==> r@ == decode_utf8(
                spec_decode_bytes(
                    self.inner.vocab.spec_tokens(),
                    self.inner.vocab.spec_special(),
                    self.inner.model is WordPiece,
                    ids@,
                    skip_special_tokens,
                ),
            ),
    {
        self.inner.decode(ids, skip_special_tokens)
    }

    /// The serialized form of this tokenizer, in the library's versioned
    /// text format.
    pub fn save_string(&self) -> (r: String)
        requires
            self.inner.wf(),
        ensures
            r@.len() >= 18,
            r@.subrange(0, 18) == "aura-tokenizer-v1\n"@,
    {
        self.inner.save_string()
    }

    /// The number of vocabulary entries.
    pub fn get_vocab_size(&self) -> (r: usize)
        ensures
            r == self.inner.vocab.spec_tokens().len(),
    {
        self.inner.get_vocab_size()
    }

    /// Selects the normalization form by name; an unknown name is a
    /// configuration error and the instance is unchanged.
    pub fn set_normalization_form(&mut self, form: &str) -> (r: Result<(), TokenizerError>)
        ensures
            match r {
                Ok(()) => spec_parse_form(form@) is Ok && *final(self) == (WordPieceTokenizer {
                    inner: (Tokenizer {
                        form: spec_parse_form(form@).unwrap(),
                        ..old(self).inner
                    }),
                }),
                Err(e) => {
                    &&& e == TokenizerError::Config
                    &&& spec_parse_form(form@) is Err
                    &&& *final(self) == *old(self)
                },
            },
    {
        self.inner.set_normalization_form(form)
    }

    /// Turns lowercasing on or off.
    pub fn set_lowercase(&mut self, lowercase: bool)
        ensures
            *final(self) == (WordPieceTokenizer {
                inner: (Tokenizer { lowercase: lowercase, ..old(self).inner }),
            }),
    {
        self.inner.set_lowercase(lowercase);
    }

    /// Installs the BERT-style post-processor.
    pub fn create_bert_post_processor(&mut self, add_special_tokens: bool)
        ensures
            *final(self) == (WordPieceTokenizer {
                inner: (Tokenizer {
                    post_bert: true,
                    post_add_special: add_special_tokens,
                    ..old(self).inner
                }),
            }),
    {
        self.inner.create_bert_post_processor(add_special_tokens);
    }
}

impl Default for WordPieceTokenizer {
    /// Same as `new`.
    fn default() -> (t: WordPieceTokenizer)
        ensures
            t.inner.wf(),
            t.inner.model is WordPiece,
    {
        WordPieceTokenizer::new()
    }
}

/// The Unigram tokenizer: Viterbi segmentation under per-token scores.
pub struct UnigramTokenizer {
    pub inner: Tokenizer,
}

impl UnigramTokenizer {
    /// An untrained instance with the default special tokens and identity
    /// normalization.
    pub fn new() -> (t: UnigramTokenizer)
        ensures
            t.inner.wf(),
            t.inner.model is Unigram,
            t.inner.form == NormForm::Identity,
            !t.inner.strip_accents,
            !t.inner.lowercase,
            !t.inner.post_bert,
            t.inner.patterns@.len() == 0,
            t.inner.merges@.len() == 0,
            t.inner.vocab.spec_tokens().len() == 7,
            t.inner.unk_id == 0,
            t.inner.cls_id == 6,
            t.inner.sep_id == 5,
            t.inner.vocab.spec_tokens()[0] == encode_utf8("[UNK]"@),
            t.inner.vocab.spec_tokens()[5] == encode_utf8("[SEP]"@),
            t.inner.vocab.spec_tokens()[6] == encode_utf8("[CLS]"@),
            forall|i: int| 0 <= i < 7 ==> (#[trigger] t.inner.vocab.spec_special()[i]),
            forall|i: int|
                0 <= i < t.inner.vocab.spec_tokens().len() ==> (#[trigger]
                t.inner.vocab.spec_tokens()[i]).len() >= 2,
    {
        UnigramTokenizer { inner: Tokenizer::new_with_model(Model::Unigram) }
    }

    /// Builds a tokenizer from the lines of a vocabulary file. Unless the
    /// id space fills up, every nonempty line's token is present
    /// afterward.
    pub fn from_vocab_lines(vocab_lines: &Vec<String>) -> (t: UnigramTokenizer)
        ensures
            t.inner.wf(),
            t.inner.model is Unigram,
            t.inner.vocab.spec_tokens().len() < 0x7fff_ffff ==> forall|i: int|
                0 <= i < vocab_lines@.len() && (#[trigger] vocab_lines@[i])@.len() >= 1
                    ==> has_token(t.inner.vocab.spec_tokens(), encode_utf8(vocab_lines@[i]@)),
    {
        let mut t = UnigramTokenizer::new();
        t.inner.load_vocab_lines(vocab_lines);
        t
    }

    /// Encodes one input string through the shared pipeline: registered
    /// special tokens in the input are emitted unsplit as their ids, and
    /// for a trained byte-complete BPE vocabulary the core ids spell
    /// exactly the normalized input's UTF-8 bytes.
    pub fn encode(&self, text: &str) -> (r: Encoding)
        requires
            self.inner.wf(),
        ensures
            r.attention_mask@.len() == r.input_ids@.len(),
            forall|k: int| 0 <= k < r.attention_mask@.len() ==> r.attention_mask@[k] == 1i32,
            forall|k: int|
                0 <= k < r.input_ids@.len() ==> 0 <= (#[trigger] r.input_ids@[k])
                    < self.inner.vocab.spec_tokens().len(),
            text@.len() == 0 && !self.inner.spec_post_on() ==> r.input_ids@.len() == 0,
            text@.len() == 0 && self.inner.spec_post_on() ==> r.input_ids@ == seq![
                self.inner.cls_id as i32,
                self.inner.sep_id as i32,
            ],
            exists|chunks: Seq<PreToken>, parts: Seq<Seq<usize>>, core: Seq<usize>|
                {
                    &&& ids_valid(self.inner.vocab.spec_tokens(), core)
                    &&& r.input_ids@ == spec_post(
                        self.inner.post_bert,
                        self.inner.post_add_special,
                        self.inner.cls_id,
                        self.inner.sep_id,
                        core,
                    ).map_values(|id: usize| id as i32)
                    &&& #[trigger] core_decomposition(
                        self.inner,
                        self.inner.spec_norm(text@),
                        chunks,
                        parts,
                        core,
                    )
                    &&& (self.inner.model is Bpe && bytes_complete(
                        self.inner.vocab.spec_tokens(),
                    ) ==> concat_bytes(self.inner.vocab.spec_tokens(), core) == encode_utf8(
                        self.inner.spec_norm(text@),
                    ))
                    &&& (text@.len() == 0 ==> core.len() == 0)
                    &&& (self.inner.model is Bpe && bytes_complete(
                        self.inner.vocab.spec_tokens(),
                    ) ==> forall|k: int|
                        0 <= k < core.len() ==> emitted_ok(
                            self.inner,
                            encode_utf8(self.inner.spec_norm(text@)),
                            #[trigger] core[k],
                        ))
                },
    {
        self.inner.encode(text)
    }

    /// Decodes ids back to text: valid ids contribute their token strings
    /// (continuation markers stripped for WordPiece), special tokens are
    /// omitted when asked, invalid ids are ignored.
    pub fn decode(&self, ids: &[i32], skip_special_tokens: bool) -> (r: String)
        requires
            self.inner.wf(),
        ensures
            r@ == lossy_text_of(
                spec_decode_bytes(
                    self.inner.vocab.spec_tokens(),
                    self.inner.vocab.spec_special(),
                    self.inner.model is WordPiece,
                    ids@,
                    skip_special_tokens,
                ),
            ),
            valid_utf8(
                spec_decode_bytes(
                    self.inner.vocab.spec_tokens(),
                    self.inner.vocab.spec_special(),
                    self.inner.model is WordPiece,
                    ids@,
                    skip_special_tokens,
                ),
            ) ==> r@ == decode_utf8(
                spec_decode_bytes(
                    self.inner.vocab.spec_tokens(),
                    self.inner.vocab.spec_special(),
                    self.inner.model is WordPiece,
                    ids@,
                    skip_special_tokens,
                ),
            ),
    {
        self.inner.decode(ids, skip_special_tokens)
    }

    /// The serialized form of this tokenizer, in the library's versioned
    /// text format.
    pub fn save_string(&self) -> (r: String)
        requires
            self.inner.wf(),
        ensures
            r@.len() >= 18,
            r@.subrange(0, 18) == "aura-tokenizer-v1\n"@,
    {
        self.inner.save_string()
    }

    /// The number of vocabulary entries.
    pub fn get_vocab_size(&self) -> (r: usize)
        ensures
            r == self.inner.vocab.spec_tokens().len(),
    {
        self.inner.get_vocab_size()
    }

    /// Selects the normalization form by name; an unknown name is a
    /// configuration error and the instance is unchanged.
    pub fn set_normalization_form(&mut self, form: &str) -> (r: Result<(), TokenizerError>)
        ensures
            match r {
                Ok(()) => spec_parse_form(form@) is Ok && *final(self) == (UnigramTokenizer {
                    inner: (Tokenizer {
                        form: spec_parse_form(form@).unwrap(),
                        ..old(self).inner
                    }),
                }),
                Err(e) => {
                    &&& e == TokenizerError::Config
                    &&& spec_parse_form(form@) is Err
                    &&& *final(self) == *old(self)
                },
            },
    {
        self.inner.set_normalization_form(form)
    }

    /// Trains the model on corpus lines; failure leaves the instance
    /// exactly as it was, and happens precisely when no line yields a
    /// word under the current normalization, or (for the byte-level
    /// trainers) the target is below the base alphabet or the id space
    /// would be exhausted.
    pub fn train_from_lines(&mut self, lines: &Vec<String>, vocab_size: usize) -> (r: Result<
        (),
        TokenizerError,
    >)
        requires
            old(self).inner.wf(),
        ensures
            match r {
                Ok(()) => {
                    &&& final(self).inner.wf()
                    &&& final(self).inner.vocab.extends(old(self).inner.vocab)
                    &&& final(self).inner.model == old(self).inner.model
                    &&& final(self).inner.unk_id == old(self).inner.unk_id
                    &&& final(self).inner.cls_id == old(self).inner.cls_id
                    &&& final(self).inner.sep_id == old(self).inner.sep_id
                    &&& ((final(self).inner.model is Bpe || final(self).inner.model is Unigram)
                        ==> bytes_complete(final(self).inner.vocab.spec_tokens()))
                    &&& (final(self).inner.model is Bpe ==> forall|j: int|
                        0 <= j < final(self).inner.merges@.len()
                            ==> !final(self).inner.vocab.spec_special()[(#[trigger]
                        final(self).inner.merges@[j]).result as int])
                    &&& forall|i: int|
                        old(self).inner.vocab.spec_tokens().len() <= i
                            < final(self).inner.vocab.spec_tokens().len() ==> !(#[trigger]
                        final(self).inner.vocab.spec_special()[i])
                    &&& ((final(self).inner.model is Bpe || final(self).inner.model is Unigram)
                        ==> (final(self).inner.vocab.spec_tokens().len() <= vocab_size
                        || final(self).inner.vocab.spec_tokens().len()
                            <= old(self).inner.vocab.spec_tokens().len() + 256))
                },
                Err(e) => {
                    &&& e == TokenizerError::Training
                    &&& *final(self) == *old(self)
                },
            },
            r is Err <==> ({
                ||| (forall|i: int|
                    0 <= i < lines@.len() ==> (#[trigger] old(self).inner.spec_norm(
                        lines@[i]@,
                    )).len() == 0)
                ||| ((old(self).inner.model is Bpe || old(self).inner.model is Unigram) && (
                vocab_size < 256 || old(self).inner.vocab.spec_tokens().len() > 0x7fff_ffff
                    - 256))
            }),
    {
        self.inner.train_from_lines(lines, vocab_size)
    }

    /// Turns lowercasing on or off.
    pub fn set_lowercase(&mut self, lowercase: bool)
        ensures
            *final(self) == (UnigramTokenizer {
                inner: (Tokenizer { lowercase: lowercase, ..old(self).inner }),
            }),
    {
        self.inner.set_lowercase(lowercase);
    }
}

impl Default for UnigramTokenizer {
    /// Same as `new`.
    fn default() -> (t: UnigramTokenizer)
        ensures
            t.inner.wf(),
            t.inner.model is Unigram,
    {
        UnigramTokenizer::new()
    }
}

/// The character-level tokenizer: one codepoint per token.
pub struct CharLevelTokenizer {
    pub inner: Tokenizer,
}

impl CharLevelTokenizer {
    /// An untrained instance with the default special tokens and identity
    /// normalization.
    pub fn new() -> (t: CharLevelTokenizer)
        ensures
            t.inner.wf(),
            t.inner.model is CharLevel,
            t.inner.form == NormForm::Identity,
            !t.inner.strip_accents,
            !t.inner.lowercase,
            !t.inner.post_bert,
            t.inner.patterns@.len() == 0,
            t.inner.merges@.len() == 0,
            t.inner.vocab.spec_tokens().len() == 7,
            t.inner.unk_id == 0,
            t.inner.cls_id == 6,
            t.inner.sep_id == 5,
            t.inner.vocab.spec_tokens()[0] == encode_utf8("[UNK]"@),
            t.inner.vocab.spec_tokens()[5] == encode_utf8("[SEP]"@),
            t.inner.vocab.spec_tokens()[6] == encode_utf8("[CLS]"@),
            forall|i: int| 0 <= i < 7 ==> (#[trigger] t.inner.vocab.spec_special()[i]),
            forall|i: int|
                0 <= i < t.inner.vocab.spec_tokens().len() ==> (#[trigger]
                t.inner.vocab.spec_tokens()[i]).len() >= 2,
    {
        CharLevelTokenizer { inner: Tokenizer::new_with_model(Model::CharLevel) }
    }

    /// Encodes one input string through the shared pipeline: registered
    /// special tokens in the input are emitted unsplit as their ids, and
    /// for a trained byte-complete BPE vocabulary the core ids spell
    /// exactly the normalized input's UTF-8 bytes.
    pub fn encode(&self, text: &str) -> (r: Encoding)
        requires
            self.inner.wf(),
        ensures
            r.attention_mask@.len() == r.input_ids@.len(),
            forall|k: int| 0 <= k < r.attention_mask@.len() ==> r.attention_mask@[k] == 1i32,
            forall|k: int|
                0 <= k < r.input_ids@.len() ==> 0 <= (#[trigger] r.input_ids@[k])
                    < self.inner.vocab.spec_tokens().len(),
            text@.len() == 0 && !self.inner.spec_post_on() ==> r.input_ids@.len() == 0,
            text@.len() == 0 && self.inner.spec_post_on() ==> r.input_ids@ == seq![
                self.inner.cls_id as i32,
                self.inner.sep_id as i32,
            ],
            exists|chunks: Seq<PreToken>, parts: Seq<Seq<usize>>, core: Seq<usize>|
                {
                    &&& ids_valid(self.inner.vocab.spec_tokens(), core)
                    &&& r.input_ids@ == spec_post(
                        self.inner.post_bert,
                        self.inner.post_add_special,
                        self.inner.cls_id,
                        self.inner.sep_id,
                        core,
                    ).map_values(|id: usize| id as i32)
                    &&& #[trigger] core_decomposition(
                        self.inner,
                        self.inner.spec_norm(text@),
                        chunks,
                        parts,
                        core,
                    )
                    &&& (self.inner.model is Bpe && bytes_complete(
                        self.inner.vocab.spec_tokens(),
                    ) ==> concat_bytes(self.inner.vocab.spec_tokens(), core) == encode_utf8(
                        self.inner.spec_norm(text@),
                    ))
                    &&& (text@.len() == 0 ==> core.len() == 0)
                    &&& (self.inner.model is Bpe && bytes_complete(
                        self.inner.vocab.spec_tokens(),
                    ) ==> forall|k: int|
                        0 <= k < core.len() ==> emitted_ok(
                            self.inner,
                            encode_utf8(self.inner.spec_norm(text@)),
                            #[trigger] core[k],
                        ))
                },
    {
        self.inner.encode(text)
    }

    /// Decodes ids back to text: valid ids contribute their token strings
    /// (continuation markers stripped for WordPiece), special tokens are
    /// omitted when asked, invalid ids are ignored.
    pub fn decode(&self, ids: &[i32], skip_special_tokens: bool) -> (r: String)
        requires
            self.inner.wf(),
        ensures
            r@ == lossy_text_of(
                spec_decode_bytes(
                    self.inner.vocab.spec_tokens(),
                    self.inner.vocab.spec_special(),
                    self.inner.model is WordPiece,
                    ids@,
                    skip_special_tokens,
                ),
            ),
            valid_utf8(
                spec_decode_bytes(
                    self.inner.vocab.spec_tokens(),
                    self.inner.vocab.spec_special(),
                    self.inner.model is WordPiece,
                    ids@,
                    skip_special_tokens,
                ),
            ) ==> r@ == decode_utf8(
                spec_decode_bytes(
                    self.inner.vocab.spec_tokens(),
                    self.inner.vocab.spec_special(),
                    self.inner.model is WordPiece,
                    ids@,
                    skip_special_tokens,
                ),
            ),
    {
        self.inner.decode(ids, skip_special_tokens)
    }

    /// The serialized form of this tokenizer, in the library's versioned
    /// text format.
    pub fn save_string(&self) -> (r: String)
        requires
            self.inner.wf(),
        ensures
            r@.len() >= 18,
            r@.subrange(0, 18) == "aura-tokenizer-v1\n"@,
    {
        self.inner.save_string()
    }

    /// The number of vocabulary entries.
    pub fn get_vocab_size(&self) -> (r: usize)
        ensures
            r == self.inner.vocab.spec_tokens().len(),
    {
        self.inner.get_vocab_size()
    }

    /// Selects the normalization form by name; an unknown name is a
    /// configuration error and the instance is unchanged.
    pub fn set_normalization_form(&mut self, form: &str) -> (r: Result<(), TokenizerError>)
        ensures
            match r {
                Ok(()) => spec_parse_form(form@) is Ok && *final(self) == (CharLevelTokenizer {
                    inner: (Tokenizer {
                        form: spec_parse_form(form@).unwrap(),
                        ..old(self).inner
                    }),
                }),
                Err(e) => {
                    &&& e == TokenizerError::Config
                    &&& spec_parse_form(form@) is Err
                    &&& *final(self) == *old(self)
                },
            },
    {
        self.inner.set_normalization_form(form)
    }

    /// Trains the model on corpus lines; failure leaves the instance
    /// exactly as it was, and happens precisely when no line yields a
    /// word under the current normalization, or (for the byte-level
    /// trainers) the target is below the base alphabet or the id space
    /// would be exhausted.
    pub fn train_from_lines(&mut self, lines: &Vec<String>, vocab_size: usize) -> (r: Result<
        (),
        TokenizerError,
    >)
        requires
            old(self).inner.wf(),
        ensures
            match r {
                Ok(()) => {
                    &&& final(self).inner.wf()
                    &&& final(self).inner.vocab.extends(old(self).inner.vocab)
                    &&& final(self).inner.model == old(self).inner.model
                    &&& final(self).inner.unk_id == old(self).inner.unk_id
                    &&& final(self).inner.cls_id == old(self).inner.cls_id
                    &&& final(self).inner.sep_id == old(self).inner.sep_id
                    &&& ((final(self).inner.model is Bpe || final(self).inner.model is Unigram)
                        ==> bytes_complete(final(self).inner.vocab.spec_tokens()))
                    &&& (final(self).inner.model is Bpe ==> forall|j: int|
                        0 <= j < final(self).inner.merges@.len()
                            ==> !final(self).inner.vocab.spec_special()[(#[trigger]
                        final(self).inner.merges@[j]).result as int])
                    &&& forall|i: int|
                        old(self).inner.vocab.spec_tokens().len() <= i
                            < final(self).inner.vocab.spec_tokens().len() ==> !(#[trigger]
                        final(self).inner.vocab.spec_special()[i])
                    &&& ((final(self).inner.model is Bpe || final(self).inner.model is Unigram)
                        ==> (final(self).inner.vocab.spec_tokens().len() <= vocab_size
                        || final(self).inner.vocab.spec_tokens().len()
                            <= old(self).inner.vocab.spec_tokens().len() + 256))
                },
                Err(e) => {
                    &&& e == TokenizerError::Training
                    &&& *final(self) == *old(self)
                },
            },
            r is Err <==> ({
                ||| (forall|i: int|
                    0 <= i < lines@.len() ==> (#[trigger] old(self).inner.spec_norm(
                        lines@[i]@,
                    )).len() == 0)
                ||| ((old(self).inner.model is Bpe || old(self).inner.model is Unigram) && (
                vocab_size < 256 || old(self).inner.vocab.spec_tokens().len() > 0x7fff_ffff
                    - 256))
            }),
    {
        self.inner.train_from_lines(lines, vocab_size)
    }
}

impl Default for CharLevelTokenizer {
    /// Same as `new`.
    fn default() -> (t: CharLevelTokenizer)
        ensures
            t.inner.wf(),
            t.inner.model is CharLevel,
    {
        CharLevelTokenizer::new()
    }
}

} // verus!
