use vstd::prelude::*;
use vstd::string::StrSliceExecFns;
use vstd::string::StringExecFns;
use vstd::utf8::decode_utf8;
use vstd::utf8::encode_utf8;
use vstd::utf8::encode_utf8_decode_utf8;
use vstd::utf8::valid_utf8;

use crate::bpe;
use crate::bpe::MergeRule;
use crate::bpe::is_rule_result;
use crate::bpe::rule_wf;
use crate::bpe::spec_apply_rules;
use crate::bpe::spec_base_ids;
use crate::charlevel;
use crate::errors::TokenizerError;
use crate::normalize;
use crate::normalize::NormForm;
use crate::normalize::spec_normalize;
use crate::normalize::spec_parse_form;
use crate::normalize::str_chars;
use crate::postprocess::apply_post;
use crate::postprocess::spec_post;
use crate::pretokenize::PreToken;
use crate::pretokenize::partition;
use crate::pretokenize::pretokenize;
use crate::pretokenize::pretokenize_with_specials;
use crate::unigram;
use crate::unigram::seg_score;
use crate::unigram::segmentable;
use crate::vocab::Vocab;
use crate::vocab::bytes_complete;
use crate::vocab::bytes_covered;
use crate::vocab::concat_bytes;
use crate::vocab::has_token;
use crate::vocab::ids_valid;
use crate::vocab::lemma_has_token_extends;
use crate::wordpiece;
use crate::wordpiece::concat_wp;
use crate::wordpiece::wp_greedy_trace;
use crate::wordpiece::wp_strip;
use crate::wordpiece::wp_unmatched;

verus! {

/// One encoded input: token ids and the parallel attention mask, 1 for
/// every real content position. Created fresh per `encode` call and owned
/// by the caller.
#[derive(Debug, Clone)]
pub struct Encoding {
    pub input_ids: Vec<i32>,
    pub attention_mask: Vec<i32>,
}

/// The reserved special-token strings a tokenizer is built with.
pub struct TokenizerConfig {
    pub unk_token: String,
    pub pad_token: String,
    pub bos_token: String,
    pub eos_token: String,
    pub mask_token: String,
    pub sep_token: String,
    pub cls_token: String,
}

/// The default special-token set.
pub fn default_config() -> (c: TokenizerConfig)
    ensures
        c.unk_token@ == "[UNK]"@,
        c.pad_token@ == "[PAD]"@,
        c.bos_token@ == "[BOS]"@,
        c.eos_token@ == "[EOS]"@,
        c.mask_token@ == "[MASK]"@,
        c.sep_token@ == "[SEP]"@,
        c.cls_token@ == "[CLS]"@,
{
    TokenizerConfig {
        unk_token: String::from_str("[UNK]"),
        pad_token: String::from_str("[PAD]"),
        bos_token: String::from_str("[BOS]"),
        eos_token: String::from_str("[EOS]"),
        mask_token: String::from_str("[MASK]"),
        sep_token: String::from_str("[SEP]"),
        cls_token: String::from_str("[CLS]"),
    }
}

/// The closed set of subword models the pipeline runs.
#[derive(Clone, Copy, Debug, PartialEq, Eq, Structural)]
pub enum Model {
    Bpe,
    WordPiece,
    Unigram,
    CharLevel,
}

/// The tokenizer: one model variant plus the shared pipeline state — the
/// vocabulary, the model tables (merge rules or scores), the normalizer
/// and pre-tokenizer configuration, and the post-processor setting.
pub struct Tokenizer {
    pub model: Model,
    pub vocab: Vocab,
    pub merges: Vec<MergeRule>,
    pub scores: Vec<i64>,
    pub form: NormForm,
    pub strip_accents: bool,
    pub lowercase: bool,
    pub patterns: Vec<String>,
    pub post_bert: bool,
    pub post_add_special: bool,
    pub unk_id: usize,
    pub cls_id: usize,
    pub sep_id: usize,
}

impl Tokenizer {
    /// Well-formedness: the vocabulary is sound, the reserved ids point at
    /// special tokens, every merge rule is consistent with the vocabulary,
    /// and a Unigram model carries one score per token.
    pub open spec fn wf(self) -> bool {
        &&& self.vocab.wf()
        &&& self.unk_id < self.vocab.spec_tokens().len()
        &&& self.cls_id < self.vocab.spec_tokens().len()
        &&& self.sep_id < self.vocab.spec_tokens().len()
        &&& self.vocab.spec_special().len() == self.vocab.spec_tokens().len()
        &&& self.vocab.spec_special()[self.unk_id as int]
        &&& self.vocab.spec_special()[self.cls_id as int]
        &&& self.vocab.spec_special()[self.sep_id as int]
        &&& (forall|j: int|
            0 <= j < self.merges@.len() ==> rule_wf(self.vocab.spec_tokens(), #[trigger]
            self.merges@[j]))
        &&& (self.model is Unigram ==> self.scores@.len() == self.vocab.spec_tokens().len())
    }

    /// The normalization the current configuration performs.
    pub open spec fn spec_norm(self, s: Seq<char>) -> Seq<char> {
        spec_normalize(self.form, self.strip_accents, self.lowercase, s)
    }

    /// Whether the post-processor wraps sequences in boundary tokens.
    pub open spec fn spec_post_on(self) -> bool {
        self.post_bert && self.post_add_special
    }

    /// An untrained tokenizer of the given model kind with the default
    /// special tokens and identity normalization.
    pub fn new_with_model(model: Model) -> (t: Tokenizer)
        ensures
            t.wf(),
            t.model == model,
            t.form == NormForm::Identity,
            !t.strip_accents,
            !t.lowercase,
            !t.post_bert,
            t.patterns@.len() == 0,
            t.merges@.len() == 0,
            forall|i: int|
                0 <= i < t.vocab.spec_tokens().len() ==> (#[trigger]
                t.vocab.spec_tokens()[i]).len() >= 2,
            t.vocab.spec_tokens().len() == 7,
            t.unk_id == 0,
            t.cls_id == 6,
            t.sep_id == 5,
            t.vocab.spec_tokens()[0] == encode_utf8("[UNK]"@),
            t.vocab.spec_tokens()[1] == encode_utf8("[PAD]"@),
            t.vocab.spec_tokens()[2] == encode_utf8("[BOS]"@),
            t.vocab.spec_tokens()[3] == encode_utf8("[EOS]"@),
            t.vocab.spec_tokens()[4] == encode_utf8("[MASK]"@),
            t.vocab.spec_tokens()[5] == encode_utf8("[SEP]"@),
            t.vocab.spec_tokens()[6] == encode_utf8("[CLS]"@),
            forall|i: int| 0 <= i < 7 ==> (#[trigger] t.vocab.spec_special()[i]),
    {
        let config = default_config();
        proof {
            reveal_strlit("[UNK]");
            reveal_strlit("[PAD]");
            reveal_strlit("[BOS]");
            reveal_strlit("[EOS]");
            reveal_strlit("[MASK]");
            reveal_strlit("[SEP]");
            reveal_strlit("[CLS]");
        }
        proof {
            assert(("[UNK]"@)[1] == 'U');
            assert(("[PAD]"@)[1] == 'P');
            assert(("[BOS]"@)[1] == 'B');
            assert(("[EOS]"@)[1] == 'E');
            assert(("[MASK]"@)[1] == 'M');
            assert(("[SEP]"@)[1] == 'S');
            assert(("[CLS]"@)[1] == 'C');
        }
        proof {
            lemma_encode_utf8_len_ge("[UNK]"@);
            lemma_encode_utf8_len_ge("[PAD]"@);
            lemma_encode_utf8_len_ge("[BOS]"@);
            lemma_encode_utf8_len_ge("[EOS]"@);
            lemma_encode_utf8_len_ge("[MASK]"@);
            lemma_encode_utf8_len_ge("[SEP]"@);
            lemma_encode_utf8_len_ge("[CLS]"@);
        }
        let mut vocab = Vocab::new();
        let unk_id = push_special(&mut vocab, &config.unk_token);
        proof {
            assert forall|i: int|
                0 <= i < vocab.spec_tokens().len() implies vocab.spec_tokens()[i] != encode_utf8(
                "[PAD]"@,
            ) by {
                if i == 0 {
                    lemma_encode_utf8_injective("[UNK]"@, "[PAD]"@);
                }
            }
        }
        let _pad = push_special(&mut vocab, &config.pad_token);
        proof {
            assert forall|i: int|
                0 <= i < vocab.spec_tokens().len() implies vocab.spec_tokens()[i] != encode_utf8(
                "[BOS]"@,
            ) by {
                if i == 0 {
                    lemma_encode_utf8_injective("[UNK]"@, "[BOS]"@);
                } else if i == 1 {
                    lemma_encode_utf8_injective("[PAD]"@, "[BOS]"@);
                }
            }
        }
        let _bos = push_special(&mut vocab, &config.bos_token);
        proof {
            assert forall|i: int|
                0 <= i < vocab.spec_tokens().len() implies vocab.spec_tokens()[i] != encode_utf8(
                "[EOS]"@,
            ) by {
                if i == 0 {
                    lemma_encode_utf8_injective("[UNK]"@, "[EOS]"@);
                } else if i == 1 {
                    lemma_encode_utf8_injective("[PAD]"@, "[EOS]"@);
                } else if i == 2 {
                    lemma_encode_utf8_injective("[BOS]"@, "[EOS]"@);
                }
            }
        }
        let _eos = push_special(&mut vocab, &config.eos_token);
        proof {
            assert forall|i: int|
                0 <= i < vocab.spec_tokens().len() implies vocab.spec_tokens()[i] != encode_utf8(
                "[MASK]"@,
            ) by {
                if i == 0 {
                    lemma_encode_utf8_injective("[UNK]"@, "[MASK]"@);
                } else if i == 1 {
                    lemma_encode_utf8_injective("[PAD]"@, "[MASK]"@);
                } else if i == 2 {
                    lemma_encode_utf8_injective("[BOS]"@, "[MASK]"@);
                } else if i == 3 {
                    lemma_encode_utf8_injective("[EOS]"@, "[MASK]"@);
                }
            }
        }
        let _mask = push_special(&mut vocab, &config.mask_token);
        proof {
            assert forall|i: int|
                0 <= i < vocab.spec_tokens().len() implies vocab.spec_tokens()[i] != encode_utf8(
                "[SEP]"@,
            ) by {
                if i == 0 {
                    lemma_encode_utf8_injective("[UNK]"@, "[SEP]"@);
                } else if i == 1 {
                    lemma_encode_utf8_injective("[PAD]"@, "[SEP]"@);
                } else if i == 2 {
                    lemma_encode_utf8_injective("[BOS]"@, "[SEP]"@);
                } else if i == 3 {
                    lemma_encode_utf8_injective("[EOS]"@, "[SEP]"@);
                } else if i == 4 {
                    lemma_encode_utf8_injective("[MASK]"@, "[SEP]"@);
                }
            }
        }
        let sep_id = push_special(&mut vocab, &config.sep_token);
        proof {
            assert forall|i: int|
                0 <= i < vocab.spec_tokens().len() implies vocab.spec_tokens()[i] != encode_utf8(
                "[CLS]"@,
            ) by {
                if i == 0 {
                    lemma_encode_utf8_injective("[UNK]"@, "[CLS]"@);
                } else if i == 1 {
                    lemma_encode_utf8_injective("[PAD]"@, "[CLS]"@);
                } else if i == 2 {
                    lemma_encode_utf8_injective("[BOS]"@, "[CLS]"@);
                } else if i == 3 {
                    lemma_encode_utf8_injective("[EOS]"@, "[CLS]"@);
                } else if i == 4 {
                    lemma_encode_utf8_injective("[MASK]"@, "[CLS]"@);
                } else if i == 5 {
                    lemma_encode_utf8_injective("[SEP]"@, "[CLS]"@);
                }
            }
        }
        let cls_id = push_special(&mut vocab, &config.cls_token);
        let mut scores: Vec<i64> = Vec::new();
        let vl = vocab.len();
        let mut t: usize = 0;
        while t < vl
            invariant
                t <= vl,
                scores@.len() == t,
            decreases vl - t,
        {
            scores.push(0);
            t = t + 1;
        }
        proof {
            vocab.lemma_wf_facts();
        }
        Tokenizer {
            model,
            vocab,
            merges: Vec::new(),
            scores,
            form: NormForm::Identity,
            strip_accents: false,
            lowercase: false,
            patterns: Vec::new(),
            post_bert: false,
            post_add_special: false,
            unk_id,
            cls_id,
            sep_id,
        }
    }

    /// An untrained byte-pair-encoding tokenizer.
    pub fn new_bpe() -> (t: Tokenizer)
        ensures
            t.wf(),
            t.model is Bpe,
            t.form == NormForm::Identity,
            !t.strip_accents,
            !t.lowercase,
            !t.post_bert,
            t.patterns@.len() == 0,
            t.merges@.len() == 0,
            forall|i: int|
                0 <= i < t.vocab.spec_tokens().len() ==> (#[trigger]
                t.vocab.spec_tokens()[i]).len() >= 2,
            t.vocab.spec_tokens().len() == 7,
            t.unk_id == 0,
            t.cls_id == 6,
            t.sep_id == 5,
            t.vocab.spec_tokens()[0] == encode_utf8("[UNK]"@),
            t.vocab.spec_tokens()[5] == encode_utf8("[SEP]"@),
            t.vocab.spec_tokens()[6] == encode_utf8("[CLS]"@),
            forall|i: int| 0 <= i < 7 ==> (#[trigger] t.vocab.spec_special()[i]),
    {
        Tokenizer::new_with_model(Model::Bpe)
    }

    /// The number of vocabulary entries.
    pub fn get_vocab_size(&self) -> (r: usize)
        ensures
            r == self.vocab.spec_tokens().len(),
    {
        self.vocab.len()
    }

    /// Selects the normalization form by name; an unknown name is a
    /// configuration error and the instance is unchanged.
    pub fn set_normalization_form(&mut self, form: &str) -> (r: Result<(), TokenizerError>)
        ensures
            match r {
                Ok(()) => spec_parse_form(form@) is Ok && *final(self) == (Tokenizer {
                    form: spec_parse_form(form@).unwrap(),
                    ..*old(self)
                }),
                Err(e) => {
                    &&& e == TokenizerError::Config
                    &&& spec_parse_form(form@) is Err
                    &&& *final(self) == *old(self)
                },
            },
    {
        match normalize::parse_form(form) {
            Ok(f) => {
                self.form = f;
                Ok(())
            },
            Err(e) => Err(e),
        }
    }

    /// Turns accent stripping on or off.
    pub fn set_strip_accents(&mut self, strip: bool)
        ensures
            *final(self) == (Tokenizer { strip_accents: strip, ..*old(self) }),
    {
        self.strip_accents = strip;
    }

    /// Turns lowercasing on or off.
    pub fn set_lowercase(&mut self, lowercase: bool)
        ensures
            *final(self) == (Tokenizer { lowercase: lowercase, ..*old(self) }),
    {
        self.lowercase = lowercase;
    }

    /// Registers one pre-tokenizer pattern, applied after the default rule
    /// in registration order; an empty pattern is a configuration error.
    pub fn add_pre_tokenizer_pattern(&mut self, pattern: &str) -> (r: Result<(), TokenizerError>)
        ensures
            match r {
                Ok(()) => {
                    &&& pattern@.len() >= 1
                    &&& *final(self) == (Tokenizer {
                        patterns: final(self).patterns,
                        ..*old(self)
                    })
                    &&& final(self).patterns@.len() == old(self).patterns@.len() + 1
                    &&& final(self).patterns@.last()@ == pattern@
                    &&& final(self).patterns@.take(old(self).patterns@.len() as int) == old(
                        self,
                    ).patterns@
                },
                Err(e) => {
                    &&& e == TokenizerError::Config
                    &&& pattern@.len() == 0
                    &&& *final(self) == *old(self)
                },
            },
    {
        if pattern.unicode_len() == 0 {
            return Err(TokenizerError::Config);
        }
        self.patterns.push(pattern.to_owned());
        proof {
            assert(final(self).patterns@.take(old(self).patterns@.len() as int) =~= old(
                self,
            ).patterns@);
        }
        Ok(())
    }

    /// Installs the BERT-style post-processor: when `add_special_tokens`
    /// is on, encoded sequences are wrapped in the class and separator
    /// tokens; otherwise post-processing is the identity.
    pub fn create_bert_post_processor(&mut self, add_special_tokens: bool)
        ensures
            *final(self) == (Tokenizer {
                post_bert: true,
                post_add_special: add_special_tokens,
                ..*old(self)
            }),
    {
        self.post_bert = true;
        self.post_add_special = add_special_tokens;
    }
}

/// Pushes one reserved special token, reusing its id if the string is
/// already present.
fn push_special(vocab: &mut Vocab, tok: &String) -> (id: usize)
    requires
        old(vocab).wf(),
        old(vocab).spec_special().len() == old(vocab).spec_tokens().len(),
        tok@.len() >= 1,
        old(vocab).spec_tokens().len() < 0x7fff_ffff,
        forall|i: int|
            0 <= i < old(vocab).spec_special().len() ==> (#[trigger] old(vocab).spec_special()[i]),
    ensures
        final(vocab).wf(),
        final(vocab).extends(*old(vocab)),
        final(vocab).spec_special().len() == final(vocab).spec_tokens().len(),
        id < final(vocab).spec_tokens().len(),
        final(vocab).spec_tokens()[id as int] == encode_utf8(tok@),
        final(vocab).spec_special()[id as int],
        final(vocab).spec_tokens().len() <= old(vocab).spec_tokens().len() + 1,
        forall|i: int|
            old(vocab).spec_tokens().len() <= i < final(vocab).spec_tokens().len() ==> (#[trigger]
            final(vocab).spec_tokens()[i]) == encode_utf8(tok@),
        forall|i: int|
            0 <= i < final(vocab).spec_special().len() ==> (#[trigger]
            final(vocab).spec_special()[i]),
        (forall|i: int|
            0 <= i < old(vocab).spec_tokens().len() ==> old(vocab).spec_tokens()[i]
                != encode_utf8(tok@)) ==> (id == old(vocab).spec_tokens().len()
            && final(vocab).spec_tokens().len() == old(vocab).spec_tokens().len() + 1),
{
    let bytes = tok.as_str().as_bytes_vec();
    proof {
        lemma_encode_utf8_nonempty(tok@);
        old(vocab).lemma_wf_facts();
    }
    let ghost v1 = *vocab;
    let id = vocab.get_or_push(bytes, true);
    proof {
        vocab.lemma_wf_facts();
    }
    id
}

/// The UTF-8 encoding is at least one byte per character.
pub proof fn lemma_encode_utf8_len_ge(s: Seq<char>)
    ensures
        encode_utf8(s).len() >= s.len(),
    decreases s.len(),
{
    if s.len() > 0 {
        vstd::utf8::char_is_scalar(s[0]);
        assert(encode_utf8(s) == vstd::utf8::encode_scalar(s[0] as u32) + encode_utf8(
            s.drop_first(),
        ));
        lemma_encode_utf8_len_ge(s.drop_first());
    }
}

/// Distinct character sequences have distinct UTF-8 encodings.
proof fn lemma_encode_utf8_injective(a: Seq<char>, b: Seq<char>)
    requires
        a != b,
    ensures
        encode_utf8(a) != encode_utf8(b),
{
    if encode_utf8(a) == encode_utf8(b) {
        encode_utf8_decode_utf8(a);
        encode_utf8_decode_utf8(b);
        assert(false);
    }
}

/// A nonempty character sequence has a nonempty UTF-8 encoding.
proof fn lemma_encode_utf8_nonempty(s: Seq<char>)
    requires
        s.len() >= 1,
    ensures
        encode_utf8(s).len() >= 1,
{
    vstd::utf8::char_is_scalar(s[0]);
    assert(encode_utf8(s) == vstd::utf8::encode_scalar(s[0] as u32) + encode_utf8(s.drop_first()));
}

/// The position of the first space byte in `b` from `i` on, or -1.
pub open spec fn first_space_at(b: Seq<u8>, i: int) -> int
    decreases b.len() - i,
{
    if i < 0 || i >= b.len() {
        -1
    } else if b[i] == 0x20u8 {
        i
    } else {
        first_space_at(b, i + 1)
    }
}

proof fn lemma_first_space_found(b: Seq<u8>, i: int, p: int)
    requires
        0 <= i <= p < b.len(),
        b[p] == 0x20u8,
        forall|m: int| i <= m < p ==> b[m] != 0x20u8,
    ensures
        first_space_at(b, i) == p,
    decreases p - i,
{
    if i < p {
        lemma_first_space_found(b, i + 1, p);
    }
}

proof fn lemma_first_space_none(b: Seq<u8>, i: int)
    requires
        0 <= i,
        forall|m: int| i <= m < b.len() ==> b[m] != 0x20u8,
    ensures
        first_space_at(b, i) == -1,
    decreases b.len() - i,
{
    if i < b.len() {
        lemma_first_space_none(b, i + 1);
    }
}

/// The id of the token spelling `b`, where one exists.
pub open spec fn token_index(toks: Seq<Seq<u8>>, b: Seq<u8>) -> usize {
    choose|i: usize| i < toks.len() && toks[i as int] == b
}

/// The merge rule a line denotes: two space-separated token strings whose
/// tokens and fusion are all in the vocabulary; anything else denotes no
/// rule.
pub open spec fn spec_line_rule(toks: Seq<Seq<u8>>, lb: Seq<u8>) -> Option<MergeRule> {
    let sp = first_space_at(lb, 0);
    if sp < 1 || sp + 1 >= lb.len() {
        Option::None
    } else {
        let l = lb.subrange(0, sp);
        let r = lb.subrange(sp + 1, lb.len() as int);
        if has_token(toks, l) && has_token(toks, r) && has_token(toks, l + r) {
            Option::Some(
                MergeRule {
                    left: token_index(toks, l),
                    right: token_index(toks, r),
                    result: token_index(toks, l + r),
                },
            )
        } else {
            Option::None
        }
    }
}

/// The rules a sequence of merge lines denotes, in line order.
pub open spec fn spec_lines_rules(toks: Seq<Seq<u8>>, lines: Seq<String>) -> Seq<MergeRule>
    decreases lines.len(),
{
    if lines.len() == 0 {
        Seq::empty()
    } else {
        spec_lines_rules(toks, lines.drop_last()) + (match spec_line_rule(
            toks,
            encode_utf8(lines.last()@),
        ) {
            Option::Some(rule) => seq![rule],
            Option::None => Seq::<MergeRule>::empty(),
        })
    }
}

/// The id `find` returns is the spec-level token index.
proof fn lemma_found_is_token_index(v: Vocab, id: usize, b: Seq<u8>)
    requires
        v.wf(),
        id < v.spec_tokens().len(),
        v.spec_tokens()[id as int] == b,
    ensures
        token_index(v.spec_tokens(), b) == id,
{
    v.lemma_wf_facts();
    let toks = v.spec_tokens();
    assert(id < toks.len() && toks[id as int] == b);
    let i = token_index(toks, b);
    assert(i < toks.len() && toks[i as int] == b);
    if (i as int) < (id as int) {
        assert(toks[i as int] != toks[id as int]);
    } else if (i as int) > (id as int) {
        assert(toks[id as int] != toks[i as int]);
    }
}

/// Extending the line list by one line appends that line's rule, if any.
proof fn lemma_lines_rules_step(toks: Seq<Seq<u8>>, lines: Seq<String>, i: int)
    requires
        0 <= i < lines.len(),
    ensures
        spec_lines_rules(toks, lines.subrange(0, i + 1)) == spec_lines_rules(
            toks,
            lines.subrange(0, i),
        ) + (match spec_line_rule(toks, encode_utf8(lines[i]@)) {
            Option::Some(rule) => seq![rule],
            Option::None => Seq::<MergeRule>::empty(),
        }),
{
    assert(lines.subrange(0, i + 1).drop_last() =~= lines.subrange(0, i));
    assert(lines.subrange(0, i + 1).last() == lines[i]);
}

/// Merge rules consistent with a vocabulary stay consistent when the
/// vocabulary only grows.
proof fn lemma_rules_extend(v1: Vocab, v2: Vocab, rules: Seq<MergeRule>)
    requires
        v2.extends(v1),
        forall|j: int| 0 <= j < rules.len() ==> rule_wf(v1.spec_tokens(), #[trigger] rules[j]),
    ensures
        forall|j: int| 0 <= j < rules.len() ==> rule_wf(v2.spec_tokens(), #[trigger] rules[j]),
{
    assert forall|j: int|
        0 <= j < rules.len() implies rule_wf(v2.spec_tokens(), #[trigger] rules[j]) by {
        assert(rule_wf(v1.spec_tokens(), rules[j]));
    }
}

/// UTF-8 encoding distributes over concatenation.
pub proof fn lemma_encode_utf8_concat(a: Seq<char>, b: Seq<char>)
    ensures
        encode_utf8(a + b) == encode_utf8(a) + encode_utf8(b),
    decreases a.len(),
{
    if a.len() == 0 {
        assert(a + b =~= b);
        assert(encode_utf8(a + b) =~= encode_utf8(a) + encode_utf8(b));
    } else {
        assert((a + b).drop_first() =~= a.drop_first() + b);
        lemma_encode_utf8_concat(a.drop_first(), b);
        assert(encode_utf8(a + b) =~= encode_utf8(a) + encode_utf8(b));
    }
}

/// One pipeline step extends the accumulated core ids: the bytes spelled
/// grow by exactly the chunk's bytes, and the id classification carries.
proof fn lemma_core_extend(
    t: Tokenizer,
    nv: Seq<char>,
    out0: Seq<usize>,
    widsv: Seq<usize>,
    outv: Seq<usize>,
    cstart: int,
    cend: int,
)
    requires
        0 <= cstart <= cend <= nv.len(),
        outv == out0 + widsv,
        concat_bytes(t.vocab.spec_tokens(), out0) == encode_utf8(nv.subrange(0, cstart)),
        concat_bytes(t.vocab.spec_tokens(), widsv) == encode_utf8(nv.subrange(cstart, cend)),
        forall|k: int| 0 <= k < out0.len() ==> emitted_ok(t, encode_utf8(nv), #[trigger] out0[k]),
        forall|i: int| 0 <= i < widsv.len() ==> emitted_ok(t, encode_utf8(nv), #[trigger] widsv[i]),
    ensures
        concat_bytes(t.vocab.spec_tokens(), outv) == encode_utf8(nv.subrange(0, cend)),
        forall|k: int| 0 <= k < outv.len() ==> emitted_ok(t, encode_utf8(nv), #[trigger] outv[k]),
{
    let toks = t.vocab.spec_tokens();
    lemma_concat_bytes_append(toks, out0, widsv);
    lemma_encode_utf8_concat(nv.subrange(0, cstart), nv.subrange(cstart, cend));
    assert(nv.subrange(0, cstart) + nv.subrange(cstart, cend) =~= nv.subrange(0, cend));
    assert forall|k: int|
        0 <= k < outv.len() implies emitted_ok(t, encode_utf8(nv), #[trigger] outv[k]) by {
        if k < out0.len() {
            assert(outv[k] == out0[k]);
        } else {
            assert(outv[k] == widsv[k - out0.len()]);
        }
    }
}

/// Concatenated id sequences spell the concatenation of what each spells.
pub proof fn lemma_concat_bytes_append(toks: Seq<Seq<u8>>, a: Seq<usize>, b: Seq<usize>)
    ensures
        concat_bytes(toks, a + b) == concat_bytes(toks, a) + concat_bytes(toks, b),
    decreases a.len(),
{
    if a.len() == 0 {
        assert(a + b =~= b);
        assert(concat_bytes(toks, a + b) =~= concat_bytes(toks, a) + concat_bytes(toks, b));
    } else {
        assert((a + b).drop_first() =~= a.drop_first() + b);
        lemma_concat_bytes_append(toks, a.drop_first(), b);
        assert(concat_bytes(toks, a + b) =~= concat_bytes(toks, a) + concat_bytes(toks, b));
    }
}

/// `needle` occurs as a contiguous run inside `hay`.
pub open spec fn contains_bytes(hay: Seq<u8>, needle: Seq<u8>) -> bool {
    exists|p: int|
        0 <= p && p + needle.len() <= hay.len() && #[trigger] hay.subrange(p, p + needle.len())
            == needle
}

/// The bytes of any character span occur inside the whole string's bytes.
proof fn lemma_contains_middle(s: Seq<char>, a: int, b: int)
    requires
        0 <= a <= b <= s.len(),
    ensures
        contains_bytes(encode_utf8(s), encode_utf8(s.subrange(a, b))),
{
    let m = encode_utf8(s.subrange(a, b));
    lemma_encode_utf8_concat(s.take(a), s.subrange(a, b));
    assert(s.take(a) + s.subrange(a, b) =~= s.take(b));
    lemma_encode_utf8_concat(s.take(b), s.skip(b));
    assert(s.take(b) + s.skip(b) =~= s);
    let p = encode_utf8(s.take(a)).len() as int;
    assert(encode_utf8(s.take(b)) == encode_utf8(s.take(a)) + m);
    assert(encode_utf8(s) == encode_utf8(s.take(b)) + encode_utf8(s.skip(b)));
    assert(encode_utf8(s).subrange(p, p + m.len() as int) =~= m);
}

/// Byte-wise equality of two vectors.
fn bytes_eq(a: &Vec<u8>, b: &Vec<u8>) -> (r: bool)
    ensures
        r == (a@ == b@),
{
    if a.len() != b.len() {
        proof {
            assert(a@ != b@);
        }
        return false;
    }
    let n = a.len();
    let mut i: usize = 0;
    while i < n
        invariant
            i <= n,
            n == a@.len(),
            n == b@.len(),
            forall|t: int| 0 <= t < i ==> a@[t] == b@[t],
        decreases n - i,
    {
        if a[i] != b[i] {
            return false;
        }
        i = i + 1;
    }
    proof {
        assert(a@ =~= b@);
    }
    true
}

/// `b` is the UTF-8 encoding of one of the argument strings.
pub open spec fn among_args(args: Seq<String>, b: Seq<u8>) -> bool {
    exists|t2: int| 0 <= t2 < args.len() && encode_utf8((#[trigger] args[t2])@) == b
}

/// The id sequences of all chunks, in order, as one sequence.
pub open spec fn flatten_ids(parts: Seq<Seq<usize>>) -> Seq<usize>
    decreases parts.len(),
{
    if parts.len() == 0 {
        Seq::empty()
    } else {
        parts[0] + flatten_ids(parts.drop_first())
    }
}

proof fn lemma_flatten_push(parts: Seq<Seq<usize>>, x: Seq<usize>)
    ensures
        flatten_ids(parts.push(x)) == flatten_ids(parts) + x,
    decreases parts.len(),
{
    if parts.len() == 0 {
        assert(parts.push(x).drop_first() =~= parts);
        assert(flatten_ids(parts.push(x)) =~= flatten_ids(parts) + x);
    } else {
        assert(parts.push(x).drop_first() =~= parts.drop_first().push(x));
        lemma_flatten_push(parts.drop_first(), x);
        assert(flatten_ids(parts.push(x)) =~= flatten_ids(parts) + x);
    }
}

/// What the pipeline guarantees for one chunk's ids: a protected special
/// chunk is exactly its single reserved id, and any other chunk carries
/// the active model's per-word contract over the chunk's UTF-8 bytes —
/// BPE's byte spelling, WordPiece's greedy longest-match trace and
/// single-unknown fallback, Unigram's exact spelling or single unknown,
/// CharLevel's one id per codepoint. (Opaque: reveal `chunk_ok` to use
/// the per-model content.)
#[verifier::opaque]
pub open spec fn chunk_ok(t: Tokenizer, ctext: Seq<char>, csid: Option<usize>, wids: Seq<usize>)
    -> bool {
    let toks = t.vocab.spec_tokens();
    let wb = encode_utf8(ctext);
    match csid {
        Some(sid) => wids == seq![sid] && sid < toks.len() && toks[sid as int] == wb,
        None => match t.model {
            Model::Bpe => {
                &&& wids == spec_apply_rules(t.merges@, spec_base_ids(toks, t.unk_id, wb))
                &&& (bytes_covered(toks, wb) ==> concat_bytes(toks, wids) == wb)
                &&& (bytes_covered(toks, wb) ==> forall|k: int|
                    0 <= k < wids.len() ==> toks[(#[trigger] wids[k]) as int].len() == 1
                        || is_rule_result(t.merges@, wids[k]))
            },
            Model::WordPiece => {
                &&& (wids == seq![t.unk_id] || concat_wp(toks, wids, true) == wb)
                &&& (wids == seq![t.unk_id] || exists|ps: Seq<int>| #[trigger] wp_greedy_trace(
                    toks,
                    wb,
                    wids,
                    ps,
                ))
                &&& (wids == seq![t.unk_id] && wb != toks[t.unk_id as int] ==> exists|p: int|
                    0 <= p < wb.len() && #[trigger] wp_unmatched(toks, wb, p))
            },
            Model::Unigram => {
                &&& (wids == seq![t.unk_id] || concat_bytes(toks, wids) == wb)
                &&& (wb.len() > 0 && wb.len() < usize::MAX && segmentable(toks, wb)
                    ==> concat_bytes(toks, wids) == wb)
                &&& (wb.len() < usize::MAX ==> forall|seg: Seq<usize>|
                    ids_valid(toks, seg) && #[trigger] concat_bytes(toks, seg) == wb
                        ==> seg_score(t.scores@, seg) <= seg_score(t.scores@, wids))
            },
            Model::CharLevel => {
                &&& wids.len() == ctext.len()
                &&& forall|k: int|
                    0 <= k < ctext.len() ==> (if has_token(toks, encode_utf8(seq![ctext[k]])) {
                        toks[(#[trigger] wids[k]) as int] == encode_utf8(seq![ctext[k]])
                    } else {
                        wids[k] == t.unk_id
                    })
            },
        },
    }
}

/// The core ids decompose as the in-order concatenation of per-chunk
/// encodings over a protected partition of the normalized input.
pub open spec fn core_decomposition(
    t: Tokenizer,
    norm: Seq<char>,
    chunks: Seq<PreToken>,
    parts: Seq<Seq<usize>>,
    core: Seq<usize>,
) -> bool {
    &&& partition(chunks, norm, 0, norm.len() as int)
    &&& parts.len() == chunks.len()
    &&& (forall|k: int|
        0 <= k < chunks.len() ==> chunk_ok(t, (#[trigger] chunks[k]).text@, chunks[k].special_id,
        parts[k]))
    &&& core == flatten_ids(parts)
}

/// One id a trained byte-level encoding may emit: a single-byte token, a
/// merge result, or a protected special token that occurs literally in
/// the normalized input's bytes.
pub open spec fn emitted_ok(t: Tokenizer, norm_bytes: Seq<u8>, id: usize) -> bool {
    ||| t.vocab.spec_tokens()[id as int].len() == 1
    ||| is_rule_result(t.merges@, id)
    ||| (t.vocab.spec_special()[id as int] && contains_bytes(
        norm_bytes,
        t.vocab.spec_tokens()[id as int],
    ))
}

impl Tokenizer {
    /// The registered special tokens whose bytes decode to text, as
    /// (id, string) pairs in id order: the strings the input scanner
    /// protects from segmentation.
    fn collect_specials(&self) -> (r: Vec<(usize, String)>)
        requires
            self.wf(),
        ensures
            forall|j: int|
                0 <= j < r@.len() ==> {
                    &&& (#[trigger] r@[j]).0 < self.vocab.spec_tokens().len()
                    &&& self.vocab.spec_special()[r@[j].0 as int]
                    &&& encode_utf8((r@[j].1)@) == self.vocab.spec_tokens()[r@[j].0 as int]
                },
    {
        let n = self.vocab.len();
        let mut out: Vec<(usize, String)> = Vec::new();
        let mut id: usize = 0;
        while id < n
            invariant
                id <= n,
                n == self.vocab.spec_tokens().len(),
                self.wf(),
                forall|j: int|
                    0 <= j < out@.len() ==> {
                        &&& (#[trigger] out@[j]).0 < self.vocab.spec_tokens().len()
                        &&& self.vocab.spec_special()[out@[j].0 as int]
                        &&& encode_utf8((out@[j].1)@) == self.vocab.spec_tokens()[out@[j].0 as int]
                    },
            decreases n - id,
        {
            if self.vocab.is_special(id) {
                let tb = self.vocab.token_bytes(id);
                let s = bytes_to_string(tb);
                let rb = s.as_str().as_bytes_vec();
                if bytes_eq(&rb, tb) {
                    out.push((id, s));
                }
            }
            id = id + 1;
        }
        out
    }

    /// The core of `encode`: normalization, special-token protection,
    /// pre-tokenization and the model, before post-processing. Registered
    /// special tokens occurring in the normalized input are emitted as
    /// their single ids, never split. For a byte-complete BPE vocabulary
    /// the output ids spell exactly the UTF-8 bytes of the normalized
    /// input, and every id is a single-byte token, a merge result, or a
    /// special token occurring literally in the input — never the unknown
    /// fallback.
    #[verifier::rlimit(100)]
    pub fn encode_core(&self, text: &str) -> (ids: Vec<usize>)
        requires
            self.wf(),
        ensures
            ids_valid(self.vocab.spec_tokens(), ids@),
            text@.len() == 0 ==> ids@.len() == 0,
            self.model is Bpe && bytes_complete(self.vocab.spec_tokens()) ==> concat_bytes(
                self.vocab.spec_tokens(),
                ids@,
            ) == encode_utf8(self.spec_norm(text@)),
            self.model is Bpe && bytes_complete(self.vocab.spec_tokens()) ==> forall|k: int|
                0 <= k < ids@.len() ==> emitted_ok(
                    *self,
                    encode_utf8(self.spec_norm(text@)),
                    #[trigger] ids@[k],
                ),
            exists|chunks: Seq<PreToken>, parts: Seq<Seq<usize>>| #[trigger] core_decomposition(
                *self,
                self.spec_norm(text@),
                chunks,
                parts,
                ids@,
            ),
    {
        let ghost toks = self.vocab.spec_tokens();
        let specials = self.collect_specials();
        let norm = normalize::normalize(text, self.form, self.strip_accents, self.lowercase);
        let ghost nv = norm@;
        let chunks = pretokenize_with_specials(norm.as_str(), &specials, &self.patterns);
        let nchunks = chunks.len();
        let mut out: Vec<usize> = Vec::new();
        let ghost mut parts: Seq<Seq<usize>> = Seq::empty();
        let mut k: usize = 0;
        while k < nchunks
            invariant
                k <= nchunks,
                nchunks == chunks@.len(),
                self.wf(),
                toks == self.vocab.spec_tokens(),
                nv == self.spec_norm(text@),
                partition(chunks@, nv, 0, nv.len() as int),
                crate::pretokenize::marks_ok(chunks@, specials@),
                forall|j: int|
                    0 <= j < specials@.len() ==> {
                        &&& (#[trigger] specials@[j]).0 < toks.len()
                        &&& self.vocab.spec_special()[specials@[j].0 as int]
                        &&& encode_utf8((specials@[j].1)@) == toks[specials@[j].0 as int]
                    },
                ids_valid(toks, out@),
                chunks@.len() == 0 ==> out@.len() == 0,
                parts.len() == k,
                out@ == flatten_ids(parts),
                forall|k2: int|
                    0 <= k2 < k ==> chunk_ok(*self, (#[trigger] chunks@[k2]).text@,
                    chunks@[k2].special_id, parts[k2]),
                self.model is Bpe && bytes_complete(toks) ==> concat_bytes(toks, out@)
                    == encode_utf8(
                    nv.subrange(
                        0,
                        if k == 0 {
                            0int
                        } else {
                            chunks@[k - 1].end as int
                        },
                    ),
                ),
                self.model is Bpe && bytes_complete(toks) ==> forall|k2: int|
                    0 <= k2 < out@.len() ==> emitted_ok(*self, encode_utf8(nv), #[trigger]
                    out@[k2]),
            decreases nchunks - k,
        {
            let chunk = &chunks[k];
            let wb = chunk.text.as_str().as_bytes_vec();
            let ghost done: int = if k == 0 {
                0int
            } else {
                chunks@[k - 1].end as int
            };
            let ghost cstart = chunks@[k as int].start as int;
            let ghost cend = chunks@[k as int].end as int;
            proof {
                if k > 0 {
                    assert(chunks@[k as int].start == chunks@[k as int - 1].end);
                }
                assert(cstart == done);
                assert(chunk.text@ == nv.subrange(cstart, cend));
                assert(wb@ == encode_utf8(chunk.text@));
            }
            let wids = match chunk.special_id {
                Some(sid) => {
                    proof {
                        assert(chunks@[k as int].special_id == Some(sid));
                        assert(exists|j: int|
                            0 <= j < specials@.len() && (#[trigger] specials@[j]).0 == sid
                                && specials@[j].1@ == chunks@[k as int].text@);
                        let j = choose|j: int|
                            0 <= j < specials@.len() && (#[trigger] specials@[j]).0 == sid
                                && specials@[j].1@ == chunks@[k as int].text@;
                        assert(sid < toks.len());
                        assert(self.vocab.spec_special()[sid as int]);
                        assert(wb@ == toks[sid as int]);
                        lemma_contains_middle(nv, cstart, cend);
                        assert(contains_bytes(encode_utf8(nv), toks[sid as int]));
                    }
                    let mut v: Vec<usize> = Vec::new();
                    v.push(sid);
                    proof {
                        assert(v@ =~= seq![sid]);
                        assert(v@.drop_first() =~= Seq::<usize>::empty());
                        assert(concat_bytes(toks, v@.drop_first()) =~= Seq::<u8>::empty());
                        assert(concat_bytes(toks, v@) =~= toks[sid as int]);
                    }
                    v
                },
                None => {
                    match self.model {
                        Model::Bpe => {
                            proof {
                                if bytes_complete(toks) {
                                    assert(bytes_covered(toks, wb@));
                                }
                            }
                            bpe::encode_word(&self.vocab, &self.merges, self.unk_id, &wb)
                        },
                        Model::WordPiece => wordpiece::encode_word_wp(
                            &self.vocab,
                            self.unk_id,
                            &wb,
                        ),
                        Model::Unigram => unigram::encode_word_uni(
                            &self.vocab,
                            &self.scores,
                            self.unk_id,
                            &wb,
                        ),
                        Model::CharLevel => {
                            let cs = str_chars(chunk.text.as_str());
                            charlevel::encode_chars(&self.vocab, self.unk_id, &cs)
                        },
                    }
                },
            };
            proof {
                if self.model is Bpe && bytes_complete(toks) {
                    assert(concat_bytes(toks, wids@) == wb@);
                    assert forall|i: int|
                        0 <= i < wids@.len() implies emitted_ok(*self, encode_utf8(nv), #[trigger]
                        wids@[i]) by {
                        match chunks@[k as int].special_id {
                            Some(sid) => {
                                assert(wids@[i] == sid);
                            },
                            None => {
                                assert(toks[wids@[i] as int].len() == 1 || is_rule_result(
                                    self.merges@,
                                    wids@[i],
                                ));
                            },
                        }
                    }
                }
            }
            let ghost out0 = out@;
            let ghost widsv = wids@;
            let mut moved = wids;
            out.append(&mut moved);
            proof {
                assert(out@ == out0 + widsv);
                assert(chunk_ok(*self, chunks@[k as int].text@, chunks@[k as int].special_id,
                    widsv)) by {
                    reveal(chunk_ok);
                }
                lemma_flatten_push(parts, widsv);
                parts = parts.push(widsv);
                if self.model is Bpe && bytes_complete(toks) {
                    assert(concat_bytes(toks, widsv) == wb@);
                    lemma_core_extend(*self, nv, out0, widsv, out@, cstart, cend);
                }
            }
            k = k + 1;
        }
        proof {
            if nchunks == 0 {
                assert(nv.len() == 0);
                if self.model is Bpe && bytes_complete(toks) {
                    assert(nv.subrange(0, 0) =~= nv);
                }
            } else {
                assert(chunks@[nchunks - 1].end == nv.len());
                if self.model is Bpe && bytes_complete(toks) {
                    assert(nv.subrange(0, nv.len() as int) =~= nv);
                }
            }
            if text@.len() == 0 {
                assert(nv.len() == 0);
                if chunks@.len() > 0 {
                    assert(chunks@[0].start < chunks@[0].end <= nv.len());
                    assert(false);
                }
            }
            assert(nv == self.spec_norm(text@));
            assert(core_decomposition(*self, self.spec_norm(text@), chunks@, parts, out@));
        }
        out
    }

    /// Encodes one input string: normalization, pre-tokenization, the
    /// model, then post-processing. Always succeeds for well-formed
    /// input — unknown content degrades to the unknown id, never an
    /// error. An empty input yields an empty encoding before
    /// post-processing, and only the boundary-token wrapper after it.
    pub fn encode(&self, text: &str) -> (r: Encoding)
        requires
            self.wf(),
        ensures
            r.attention_mask@.len() == r.input_ids@.len(),
            forall|k: int| 0 <= k < r.attention_mask@.len() ==> r.attention_mask@[k] == 1i32,
            forall|k: int|
                0 <= k < r.input_ids@.len() ==> 0 <= (#[trigger] r.input_ids@[k])
                    < self.vocab.spec_tokens().len(),
            text@.len() == 0 && !self.spec_post_on() ==> r.input_ids@.len() == 0,
            text@.len() == 0 && self.spec_post_on() ==> r.input_ids@ == seq![
                self.cls_id as i32,
                self.sep_id as i32,
            ],
            exists|chunks: Seq<PreToken>, parts: Seq<Seq<usize>>, core: Seq<usize>|
                {
                    &&& ids_valid(self.vocab.spec_tokens(), core)
                    &&& r.input_ids@ == spec_post(
                        self.post_bert,
                        self.post_add_special,
                        self.cls_id,
                        self.sep_id,
                        core,
                    ).map_values(|id: usize| id as i32)
                    &&& #[trigger] core_decomposition(
                        *self,
                        self.spec_norm(text@),
                        chunks,
                        parts,
                        core,
                    )
                    &&& (self.model is Bpe && bytes_complete(self.vocab.spec_tokens())
                        ==> concat_bytes(self.vocab.spec_tokens(), core) == encode_utf8(
                        self.spec_norm(text@),
                    ))
                    &&& (text@.len() == 0 ==> core.len() == 0)
                    &&& (self.model is Bpe && bytes_complete(self.vocab.spec_tokens()) ==> forall|
                        k: int,
                    |
                        0 <= k < core.len() ==> emitted_ok(
                            *self,
                            encode_utf8(self.spec_norm(text@)),
                            #[trigger] core[k],
                        ))
                },
    {
        let core = self.encode_core(text);
        let ghost corev = core@;
        let (wrapped, mask) = apply_post(
            self.post_bert,
            self.post_add_special,
            self.cls_id,
            self.sep_id,
            core,
        );
        let n = wrapped.len();
        let mut ids: Vec<i32> = Vec::new();
        let mut k: usize = 0;
        proof {
            self.vocab.lemma_wf_facts();
        }
        while k < n
            invariant
                k <= n,
                n == wrapped@.len(),
                self.wf(),
                ids_valid(self.vocab.spec_tokens(), wrapped@),
                self.vocab.spec_tokens().len() <= 0x7fff_ffff,
                ids@.len() == k,
                forall|k2: int|
                    0 <= k2 < k ==> (#[trigger] ids@[k2]) == wrapped@[k2] as i32,
            decreases n - k,
        {
            let id = wrapped[k];
            proof {
                assert(id < self.vocab.spec_tokens().len());
            }
            ids.push(id as i32);
            k = k + 1;
        }
        proof {
            assert(ids@ =~= wrapped@.map_values(|id: usize| id as i32));
            assert forall|k2: int|
                0 <= k2 < ids@.len() implies 0 <= (#[trigger] ids@[k2])
                < self.vocab.spec_tokens().len() by {
                assert(wrapped@[k2] < self.vocab.spec_tokens().len());
            }
            if text@.len() == 0 {
                assert(corev.len() == 0);
                if self.spec_post_on() {
                    assert(wrapped@ =~= seq![self.cls_id] + corev + seq![self.sep_id]);
                    assert(ids@ =~= seq![self.cls_id as i32, self.sep_id as i32]);
                }
            }
        }
        Encoding { input_ids: ids, attention_mask: mask }
    }
}

/// What decoding spells, one id at a time from the front: a valid id
/// contributes its token's bytes (with the continuation marker stripped
/// for WordPiece), a special id contributes nothing when skipping is on,
/// and an out-of-range id contributes nothing.
pub open spec fn spec_decode_bytes(
    toks: Seq<Seq<u8>>,
    specials: Seq<bool>,
    strip: bool,
    ids: Seq<i32>,
    skip: bool,
) -> Seq<u8>
    decreases ids.len(),
{
    if ids.len() == 0 {
        Seq::empty()
    } else {
        let pre = spec_decode_bytes(toks, specials, strip, ids.drop_last(), skip);
        let id = ids.last();
        if 0 <= id < toks.len() {
            if skip && specials[id as int] {
                pre
            } else if strip {
                pre + wp_strip(toks[id as int])
            } else {
                pre + toks[id as int]
            }
        } else {
            pre
        }
    }
}

/// What `String::from_utf8_lossy` returns: a function of the bytes alone.
pub uninterp spec fn lossy_text_of(b: Seq<u8>) -> Seq<char>;

/// Relies on `String::from_utf8_lossy`: the result depends on the bytes
/// alone, and bytes that are valid UTF-8 convert to exactly their decoded
/// characters.
#[verifier::external_body]
pub(crate) fn bytes_to_string(b: &Vec<u8>) -> (r: String)
    ensures
        r@ == lossy_text_of(b@),
        valid_utf8(b@) ==> r@ == decode_utf8(b@),
{
    String::from_utf8_lossy(b.as_slice()).into_owned()
}

impl Tokenizer {
    /// Decodes ids back to text: each valid id contributes its token
    /// string (continuation markers stripped for WordPiece), special
    /// tokens are omitted when `skip_special_tokens` is on, and invalid
    /// ids are ignored. Decoding does not undo lossy normalization, by
    /// design.
    pub fn decode(&self, ids: &[i32], skip_special_tokens: bool) -> (r: String)
        requires
            self.wf(),
        ensures
            r@ == lossy_text_of(
                spec_decode_bytes(
                    self.vocab.spec_tokens(),
                    self.vocab.spec_special(),
                    self.model is WordPiece,
                    ids@,
                    skip_special_tokens,
                ),
            ),
            valid_utf8(
                spec_decode_bytes(
                    self.vocab.spec_tokens(),
                    self.vocab.spec_special(),
                    self.model is WordPiece,
                    ids@,
                    skip_special_tokens,
                ),
            ) ==> r@ == decode_utf8(
                spec_decode_bytes(
                    self.vocab.spec_tokens(),
                    self.vocab.spec_special(),
                    self.model is WordPiece,
                    ids@,
                    skip_special_tokens,
                ),
            ),
    {
        let ghost toks = self.vocab.spec_tokens();
        let ghost sp = self.vocab.spec_special();
        let strip = match self.model {
            Model::WordPiece => true,
            _ => false,
        };
        let n = ids.len();
        let mut out: Vec<u8> = Vec::new();
        let mut k: usize = 0;
        while k < n
            invariant
                k <= n,
                n == ids@.len(),
                self.wf(),
                toks == self.vocab.spec_tokens(),
                sp == self.vocab.spec_special(),
                strip == (self.model is WordPiece),
                out@ == spec_decode_bytes(toks, sp, strip, ids@.take(k as int), skip_special_tokens),
            decreases n - k,
        {
            let ghost pre = out@;
            let id = ids[k];
            proof {
                assert(ids@.take(k as int + 1).drop_last() =~= ids@.take(k as int));
                assert(ids@.take(k as int + 1).last() == ids@[k as int]);
            }
            if id >= 0 {
                let idu = id as usize;
                if idu < self.vocab.len() {
                    let skip_this = skip_special_tokens && self.vocab.is_special(idu);
                    if !skip_this {
                        let tb = self.vocab.token_bytes(idu);
                        if strip && tb.len() >= 2 {
                            let m0 = tb[0];
                            let m1 = tb[1];
                            if m0 == 0x23u8 && m1 == 0x23u8 {
                                let tl = tb.len();
                                let mut j: usize = 2;
                                while j < tl
                                    invariant
                                        2 <= j <= tl,
                                        tl == tb@.len(),
                                        tb@ == toks[ids@[k as int] as int],
                                        k < ids@.len(),
                                        out@ == pre + tb@.subrange(2, j as int),
                                    decreases tl - j,
                                {
                                    out.push(tb[j]);
                                    proof {
                                        assert(out@ =~= pre + tb@.subrange(2, j as int + 1));
                                    }
                                    j = j + 1;
                                }
                                proof {
                                    assert(tb@.subrange(2, tl as int) =~= wp_strip(tb@));
                                }
                            } else {
                                out.extend_from_slice(tb.as_slice());
                                proof {
                                    assert(wp_strip(tb@) == tb@);
                                }
                            }
                        } else {
                            out.extend_from_slice(tb.as_slice());
                            proof {
                                if strip {
                                    assert(wp_strip(tb@) == tb@);
                                }
                            }
                        }
                    }
                }
            }
            k = k + 1;
        }
        proof {
            assert(ids@.take(n as int) =~= ids@);
        }
        bytes_to_string(&out)
    }

    /// The id of a token string, or -1 when it is not in the vocabulary.
    pub fn token_to_id(&self, token: &str) -> (r: i32)
        requires
            self.wf(),
        ensures
            has_token(self.vocab.spec_tokens(), encode_utf8(token@)) ==> {
                &&& 0 <= r
                &&& (r as int) < self.vocab.spec_tokens().len()
                &&& self.vocab.spec_tokens()[r as int] == encode_utf8(token@)
            },
            !has_token(self.vocab.spec_tokens(), encode_utf8(token@)) ==> r == -1,
    {
        let b = token.as_bytes_vec();
        proof {
            self.vocab.lemma_wf_facts();
        }
        match self.vocab.find(&b) {
            Some(id) => {
                proof {
                    assert(has_token(self.vocab.spec_tokens(), encode_utf8(token@)));
                }
                id as i32
            },
            None => {
                proof {
                    if has_token(self.vocab.spec_tokens(), encode_utf8(token@)) {
                        let i = choose|i: int|
                            0 <= i < self.vocab.spec_tokens().len() && self.vocab.spec_tokens()[i]
                                == encode_utf8(token@);
                        assert(self.vocab.spec_tokens()[i] != b@);
                        assert(false);
                    }
                }
                -1
            },
        }
    }

    /// The token string of an id, or the empty string for an id outside
    /// the vocabulary (a sentinel, not an error, by design).
    pub fn id_to_token(&self, id: i32) -> (r: String)
        requires
            self.wf(),
        ensures
            0 <= id && (id as int) < self.vocab.spec_tokens().len() ==> {
                &&& r@ == lossy_text_of(self.vocab.spec_tokens()[id as int])
                &&& valid_utf8(self.vocab.spec_tokens()[id as int]) ==> r@ == decode_utf8(
                    self.vocab.spec_tokens()[id as int],
                )
            },
            !(0 <= id && (id as int) < self.vocab.spec_tokens().len()) ==> r@.len() == 0,
    {
        if id >= 0 && (id as usize) < self.vocab.len() {
            let tb = self.vocab.token_bytes(id as usize);
            let mut v: Vec<u8> = Vec::new();
            v.extend_from_slice(tb.as_slice());
            proof {
                assert(v@ =~= tb@);
            }
            bytes_to_string(&v)
        } else {
            String::new()
        }
    }

    /// Registers special tokens: each nonempty string is added to the
    /// vocabulary as a reserved token (reusing its id if present) and is
    /// afterwards found by `token_to_id`. Ids already assigned never
    /// move.
    pub fn add_special_tokens(&mut self, tokens: Vec<String>)
        requires
            old(self).wf(),
            old(self).vocab.spec_tokens().len() + tokens@.len() <= 0x7fff_ffff,
        ensures
            final(self).wf(),
            final(self).vocab.extends(old(self).vocab),
            *final(self) == (Tokenizer {
                vocab: final(self).vocab,
                scores: final(self).scores,
                ..*old(self)
            }),
            forall|t: int|
                0 <= t < tokens@.len() && (#[trigger] tokens@[t])@.len() >= 1 ==> has_token(
                    final(self).vocab.spec_tokens(),
                    encode_utf8(tokens@[t]@),
                ),
            forall|i: int|
                old(self).vocab.spec_tokens().len() <= i < final(self).vocab.spec_tokens().len()
                    ==> (#[trigger] final(self).vocab.spec_special()[i]),
            final(self).vocab.spec_tokens().len() <= old(self).vocab.spec_tokens().len()
                + tokens@.len(),
            forall|i: int|
                old(self).vocab.spec_tokens().len() <= i < final(self).vocab.spec_tokens().len()
                    ==> among_args(tokens@, #[trigger] final(self).vocab.spec_tokens()[i]),
    {
        let ghost v0 = old(self).vocab;
        let n = tokens.len();
        let mut t: usize = 0;
        while t < n
            invariant
                t <= n,
                n == tokens@.len(),
                old(self).wf(),
                self.vocab.wf(),
                self.vocab.extends(v0),
                self.vocab.spec_special().len() == self.vocab.spec_tokens().len(),
                v0 == old(self).vocab,
                v0.spec_tokens().len() + n <= 0x7fff_ffff,
                self.vocab.spec_tokens().len() <= v0.spec_tokens().len() + t,
                *self == (Tokenizer { vocab: self.vocab, ..*old(self) }),
                self.scores@ == old(self).scores@,
                old(self).model is Unigram ==> self.scores@.len()
                    <= self.vocab.spec_tokens().len(),
                forall|t2: int|
                    0 <= t2 < t && (#[trigger] tokens@[t2])@.len() >= 1 ==> has_token(
                        self.vocab.spec_tokens(),
                        encode_utf8(tokens@[t2]@),
                    ),
                forall|i: int|
                    v0.spec_tokens().len() <= i < self.vocab.spec_tokens().len() ==> (#[trigger]
                    self.vocab.spec_special()[i]),
                forall|i: int|
                    v0.spec_tokens().len() <= i < self.vocab.spec_tokens().len() ==> among_args(
                        tokens@,
                        #[trigger] self.vocab.spec_tokens()[i],
                    ),
            decreases n - t,
        {
            let tok = &tokens[t];
            let bytes = tok.as_str().as_bytes_vec();
            if bytes.len() >= 1 {
                let ghost v1 = self.vocab;
                let _ = self.vocab.get_or_push(bytes, true);
                proof {
                    v1.lemma_wf_facts();
                    self.vocab.lemma_wf_facts();
                    assert(has_token(self.vocab.spec_tokens(), encode_utf8(tokens@[t as int]@)));
                    assert forall|i: int|
                        v0.spec_tokens().len() <= i
                            < self.vocab.spec_tokens().len() implies among_args(
                        tokens@,
                        #[trigger] self.vocab.spec_tokens()[i],
                    ) by {
                        if i < v1.spec_tokens().len() {
                            assert(self.vocab.spec_tokens()[i] == v1.spec_tokens()[i]);
                            assert(among_args(tokens@, v1.spec_tokens()[i]));
                        } else {
                            assert(self.vocab.spec_tokens()[i] == encode_utf8(tokens@[t as int]@));
                            assert(among_args(tokens@, encode_utf8(tokens@[t as int]@)));
                        }
                    }
                    assert forall|t2: int|
                        0 <= t2 < t + 1 && (#[trigger] tokens@[t2])@.len() >= 1 implies has_token(
                        self.vocab.spec_tokens(),
                        encode_utf8(tokens@[t2]@),
                    ) by {
                        if t2 < t {
                            assert(has_token(v1.spec_tokens(), encode_utf8(tokens@[t2]@)));
                            let i = choose|i: int|
                                0 <= i < v1.spec_tokens().len() && v1.spec_tokens()[i]
                                    == encode_utf8(tokens@[t2]@);
                            assert(self.vocab.spec_tokens()[i] == encode_utf8(tokens@[t2]@));
                        }
                    }
                }
            } else {
                proof {
                    if tokens@[t as int]@.len() >= 1 {
                        lemma_encode_utf8_nonempty(tokens@[t as int]@);
                        assert(false);
                    }
                }
            }
            t = t + 1;
        }
        while self.scores.len() < self.vocab.len()
            invariant
                self.vocab.wf(),
                old(self).wf(),
                self.vocab.extends(v0),
                v0 == old(self).vocab,
                self.vocab.spec_special().len() == self.vocab.spec_tokens().len(),
                *self == (Tokenizer {
                    vocab: self.vocab,
                    scores: self.scores,
                    ..*old(self)
                }),
                forall|t2: int|
                    0 <= t2 < n && (#[trigger] tokens@[t2])@.len() >= 1 ==> has_token(
                        self.vocab.spec_tokens(),
                        encode_utf8(tokens@[t2]@),
                    ),
                forall|i: int|
                    v0.spec_tokens().len() <= i < self.vocab.spec_tokens().len() ==> (#[trigger]
                    self.vocab.spec_special()[i]),
                n == tokens@.len(),
                self.vocab.spec_tokens().len() <= v0.spec_tokens().len() + n,
                forall|i: int|
                    v0.spec_tokens().len() <= i < self.vocab.spec_tokens().len() ==> among_args(
                        tokens@,
                        #[trigger] self.vocab.spec_tokens()[i],
                    ),
                old(self).model is Unigram ==> self.scores@.len()
                    <= self.vocab.spec_tokens().len(),
            decreases self.vocab.spec_tokens().len() - self.scores@.len(),
        {
            self.scores.push(0);
        }
        proof {
            self.vocab.lemma_wf_facts();
            assert(self.vocab.spec_special()[self.unk_id as int]);
            assert(self.vocab.spec_special()[self.cls_id as int]);
            assert(self.vocab.spec_special()[self.sep_id as int]);
            assert forall|j: int|
                0 <= j < self.merges@.len() implies rule_wf(self.vocab.spec_tokens(), #[trigger]
                self.merges@[j]) by {
                assert(rule_wf(old(self).vocab.spec_tokens(), self.merges@[j]));
            }
        }
    }

    /// Grows the score table to one entry per vocabulary id, so a Unigram
    /// model stays consistent after the vocabulary grows.
    fn sync_scores(&mut self)
        requires
            old(self).vocab.wf(),
        ensures
            *final(self) == (Tokenizer { scores: final(self).scores, ..*old(self) }),
            final(self).scores@.len() >= old(self).scores@.len(),
            old(self).scores@.len() <= old(self).vocab.spec_tokens().len()
                ==> final(self).scores@.len() == final(self).vocab.spec_tokens().len(),
    {
        proof {
            self.vocab.lemma_wf_facts();
        }
        while self.scores.len() < self.vocab.len()
            invariant
                self.vocab.wf(),
                *self == (Tokenizer { scores: self.scores, ..*old(self) }),
                self.scores@.len() >= old(self).scores@.len(),
                old(self).scores@.len() <= old(self).vocab.spec_tokens().len()
                    ==> self.scores@.len() <= self.vocab.spec_tokens().len(),
            decreases self.vocab.spec_tokens().len() - self.scores@.len(),
        {
            self.scores.push(0);
        }
    }

    /// Loads vocabulary entries, one token string per line in id order,
    /// skipping empty lines and strings already present: the logical
    /// schema of a plain vocabulary file. Unless the id space fills up,
    /// every nonempty line's token is in the vocabulary afterward.
    pub fn load_vocab_lines(&mut self, lines: &Vec<String>)
        requires
            old(self).wf(),
        ensures
            final(self).wf(),
            final(self).vocab.extends(old(self).vocab),
            *final(self) == (Tokenizer {
                vocab: final(self).vocab,
                scores: final(self).scores,
                ..*old(self)
            }),
            final(self).vocab.spec_tokens().len() < 0x7fff_ffff ==> forall|i: int|
                0 <= i < lines@.len() && (#[trigger] lines@[i])@.len() >= 1 ==> has_token(
                    final(self).vocab.spec_tokens(),
                    encode_utf8(lines@[i]@),
                ),
    {
        let ghost v0 = old(self).vocab;
        let n = lines.len();
        let mut li: usize = 0;
        while li < n
            invariant
                li <= n,
                n == lines@.len(),
                old(self).wf(),
                self.vocab.wf(),
                self.vocab.extends(v0),
                v0 == old(self).vocab,
                self.vocab.spec_special().len() == self.vocab.spec_tokens().len(),
                *self == (Tokenizer { vocab: self.vocab, ..*old(self) }),
                old(self).model is Unigram ==> self.scores@.len()
                    <= self.vocab.spec_tokens().len(),
                self.vocab.spec_tokens().len() < 0x7fff_ffff ==> forall|i: int|
                    0 <= i < li && (#[trigger] lines@[i])@.len() >= 1 ==> has_token(
                        self.vocab.spec_tokens(),
                        encode_utf8(lines@[i]@),
                    ),
            decreases n - li,
        {
            let bytes = lines[li].as_str().as_bytes_vec();
            if bytes.len() >= 1 && self.vocab.len() < 0x7fff_ffff {
                let ghost v1 = self.vocab;
                let _ = self.vocab.get_or_push(bytes, false);
                proof {
                    v1.lemma_wf_facts();
                    self.vocab.lemma_wf_facts();
                    assert(has_token(self.vocab.spec_tokens(), encode_utf8(lines@[li as int]@)));
                    if self.vocab.spec_tokens().len() < 0x7fff_ffff {
                        assert forall|i: int|
                            0 <= i < li && (#[trigger] lines@[i])@.len() >= 1 implies has_token(
                            self.vocab.spec_tokens(),
                            encode_utf8(lines@[i]@),
                        ) by {
                            lemma_has_token_extends(
                                v1.spec_tokens(),
                                self.vocab.spec_tokens(),
                                encode_utf8(lines@[i]@),
                            );
                        }
                    }
                }
            } else {
                proof {
                    if lines@[li as int]@.len() >= 1 && bytes@.len() == 0 {
                        lemma_encode_utf8_nonempty(lines@[li as int]@);
                        assert(false);
                    }
                }
            }
            li = li + 1;
        }
        self.sync_scores();
        proof {
            self.vocab.lemma_wf_facts();
            assert(self.vocab.spec_special()[self.unk_id as int]);
            assert(self.vocab.spec_special()[self.cls_id as int]);
            assert(self.vocab.spec_special()[self.sep_id as int]);
            assert forall|j: int|
                0 <= j < self.merges@.len() implies rule_wf(self.vocab.spec_tokens(), #[trigger]
                self.merges@[j]) by {
                assert(rule_wf(old(self).vocab.spec_tokens(), self.merges@[j]));
            }
        }
    }

    /// Loads merge rules: each line holds two token strings separated by
    /// one space, and a rule is recorded only when both tokens and their
    /// fusion are in the vocabulary, so every recorded rule is consistent.
    /// Rules already present keep their ranks; loaded rules follow in
    /// line order.
    pub fn load_merges_lines(&mut self, lines: &Vec<String>)
        requires
            old(self).wf(),
        ensures
            final(self).wf(),
            *final(self) == (Tokenizer { merges: final(self).merges, ..*old(self) }),
            final(self).merges@ == old(self).merges@ + spec_lines_rules(
                old(self).vocab.spec_tokens(),
                lines@,
            ),
    {
        let ghost toks = self.vocab.spec_tokens();
        let n = lines.len();
        let mut li: usize = 0;
        while li < n
            invariant
                li <= n,
                n == lines@.len(),
                old(self).wf(),
                self.vocab.wf(),
                toks == self.vocab.spec_tokens(),
                *self == (Tokenizer { merges: self.merges, ..*old(self) }),
                self.merges@ == old(self).merges@ + spec_lines_rules(
                    toks,
                    lines@.subrange(0, li as int),
                ),
                forall|j: int|
                    0 <= j < self.merges@.len() ==> rule_wf(self.vocab.spec_tokens(), #[trigger]
                    self.merges@[j]),
            decreases n - li,
        {
            let bytes = lines[li].as_str().as_bytes_vec();
            let ghost bv = bytes@;
            let mut sep_at: usize = 0;
            let mut found = false;
            let mut q: usize = 0;
            while q < bytes.len()
                invariant
                    q <= bv.len(),
                    bv == bytes@,
                    found ==> sep_at < q && bv[sep_at as int] == 0x20u8 && (forall|m: int|
                        0 <= m < sep_at ==> bv[m] != 0x20u8),
                    !found ==> forall|m: int| 0 <= m < q ==> bv[m] != 0x20u8,
                decreases bv.len() - q,
            {
                if !found && bytes[q] == 0x20u8 {
                    sep_at = q;
                    found = true;
                }
                q = q + 1;
            }
            proof {
                if found {
                    lemma_first_space_found(bv, 0, sep_at as int);
                } else {
                    lemma_first_space_none(bv, 0);
                }
            }
            let ghost merges0 = self.merges@;
            if found && sep_at >= 1 && sep_at + 1 < bytes.len() {
                let mut lb: Vec<u8> = Vec::new();
                let mut i: usize = 0;
                while i < sep_at
                    invariant
                        i <= sep_at,
                        sep_at < bv.len(),
                        bv == bytes@,
                        lb@ =~= bv.subrange(0, i as int),
                    decreases sep_at - i,
                {
                    lb.push(bytes[i]);
                    proof {
                        assert(lb@ =~= bv.subrange(0, i as int + 1));
                    }
                    i = i + 1;
                }
                let mut rb: Vec<u8> = Vec::new();
                let mut j: usize = sep_at + 1;
                while j < bytes.len()
                    invariant
                        sep_at + 1 <= j <= bv.len(),
                        bv == bytes@,
                        rb@ =~= bv.subrange(sep_at as int + 1, j as int),
                    decreases bv.len() - j,
                {
                    rb.push(bytes[j]);
                    proof {
                        assert(rb@ =~= bv.subrange(sep_at as int + 1, j as int + 1));
                    }
                    j = j + 1;
                }
                let mut fused: Vec<u8> = Vec::new();
                fused.extend_from_slice(lb.as_slice());
                fused.extend_from_slice(rb.as_slice());
                proof {
                    assert(fused@ =~= lb@ + rb@);
                    assert(lb@ =~= bv.subrange(0, sep_at as int));
                    assert(rb@ =~= bv.subrange(sep_at as int + 1, bv.len() as int));
                }
                let lid = self.vocab.find(&lb);
                let rid = self.vocab.find(&rb);
                let fid = self.vocab.find(&fused);
                match (lid, rid, fid) {
                    (Some(l), Some(r), Some(f)) => {
                        proof {
                            self.vocab.lemma_wf_facts();
                            lemma_found_is_token_index(self.vocab, l, lb@);
                            lemma_found_is_token_index(self.vocab, r, rb@);
                            lemma_found_is_token_index(self.vocab, f, fused@);
                            assert(spec_line_rule(toks, bv) == Option::Some(
                                MergeRule { left: l, right: r, result: f },
                            ));
                        }
                        self.merges.push(MergeRule { left: l, right: r, result: f });
                    },
                    _ => {
                        proof {
                            match spec_line_rule(toks, bv) {
                                Option::Some(rule) => {
                                    if lid is None {
                                        let ghost sl = bv.subrange(0, sep_at as int);
                                        assert(has_token(toks, sl));
                                        let i2 = choose|i2: int|
                                            0 <= i2 < toks.len() && toks[i2] == sl;
                                        assert(toks[i2] != lb@);
                                        assert(false);
                                    } else if rid is None {
                                        let ghost sr = bv.subrange(
                                            sep_at as int + 1,
                                            bv.len() as int,
                                        );
                                        assert(has_token(toks, sr));
                                        let i2 = choose|i2: int|
                                            0 <= i2 < toks.len() && toks[i2] == sr;
                                        assert(toks[i2] != rb@);
                                        assert(false);
                                    } else {
                                        let ghost sl = bv.subrange(0, sep_at as int);
                                        let ghost sr = bv.subrange(
                                            sep_at as int + 1,
                                            bv.len() as int,
                                        );
                                        assert(has_token(toks, sl + sr));
                                        let i2 = choose|i2: int|
                                            0 <= i2 < toks.len() && toks[i2] == sl + sr;
                                        assert(toks[i2] != fused@);
                                        assert(false);
                                    }
                                },
                                Option::None => {},
                            }
                        }
                    },
                }
            } else {
                proof {
                    assert(spec_line_rule(toks, bv) is None);
                }
            }
            proof {
                assert(bv == encode_utf8(lines@[li as int]@));
                lemma_lines_rules_step(toks, lines@, li as int);
                assert(self.merges@ =~= old(self).merges@ + spec_lines_rules(
                    toks,
                    lines@.subrange(0, li as int + 1),
                ));
            }
            li = li + 1;
        }
        proof {
            assert(lines@.subrange(0, n as int) =~= lines@);
        }
    }

    /// Trains the model on corpus lines: each line is normalized and
    /// pre-tokenized under the current configuration, and the model's
    /// trainer runs over the resulting words. On failure the instance is
    /// left exactly in its pre-training state; on success the vocabulary
    /// only grows — reserved special ids never move — and the trained
    /// byte-level models cover every byte.
    pub fn train_from_lines(&mut self, lines: &Vec<String>, vocab_size: usize) -> (r: Result<
        (),
        TokenizerError,
    >)
        requires
            old(self).wf(),
        ensures
            match r {
                Ok(()) => {
                    &&& final(self).wf()
                    &&& final(self).vocab.extends(old(self).vocab)
                    &&& final(self).model == old(self).model
                    &&& final(self).form == old(self).form
                    &&& final(self).strip_accents == old(self).strip_accents
                    &&& final(self).lowercase == old(self).lowercase
                    &&& final(self).post_bert == old(self).post_bert
                    &&& final(self).post_add_special == old(self).post_add_special
                    &&& final(self).unk_id == old(self).unk_id
                    &&& final(self).cls_id == old(self).cls_id
                    &&& final(self).sep_id == old(self).sep_id
                    &&& (final(self).model is Bpe || final(self).model is Unigram)
                        ==> bytes_complete(final(self).vocab.spec_tokens())
                    &&& (final(self).model is Bpe ==> forall|j: int|
                        0 <= j < final(self).merges@.len()
                            ==> !final(self).vocab.spec_special()[(#[trigger]
                        final(self).merges@[j]).result as int])
                    &&& forall|i: int|
                        old(self).vocab.spec_tokens().len() <= i
                            < final(self).vocab.spec_tokens().len() ==> !(#[trigger]
                        final(self).vocab.spec_special()[i])
                    &&& ((final(self).model is Bpe || final(self).model is Unigram)
                        ==> (final(self).vocab.spec_tokens().len() <= vocab_size
                        || final(self).vocab.spec_tokens().len()
                            <= old(self).vocab.spec_tokens().len() + 256))
                },
                Err(e) => {
                    &&& e == TokenizerError::Training
                    &&& *final(self) == *old(self)
                },
            },
            r is Err <==> ({
                ||| (forall|i: int|
                    0 <= i < lines@.len() ==> (#[trigger] old(self).spec_norm(
                        lines@[i]@,
                    )).len() == 0)
                ||| ((old(self).model is Bpe || old(self).model is Unigram) && (vocab_size < 256
                    || old(self).vocab.spec_tokens().len() > 0x7fff_ffff - 256))
            }),
    {
        let mut words: Vec<Vec<u8>> = Vec::new();
        let mut word_texts: Vec<String> = Vec::new();
        let mut li: usize = 0;
        while li < lines.len()
            invariant
                li <= lines@.len(),
                self == old(self),
                word_texts@.len() == words@.len(),
                (words@.len() == 0) <==> (forall|i: int|
                    0 <= i < li ==> (#[trigger] self.spec_norm(lines@[i]@)).len() == 0),
            decreases lines@.len() - li,
        {
            let norm = normalize::normalize(
                lines[li].as_str(),
                self.form,
                self.strip_accents,
                self.lowercase,
            );
            let ghost nv = norm@;
            let chunks = pretokenize(norm.as_str(), &self.patterns);
            proof {
                if nv.len() == 0 {
                    if chunks@.len() > 0 {
                        assert(chunks@[0].start < chunks@[0].end <= nv.len());
                        assert(false);
                    }
                } else {
                    assert(chunks@.len() > 0);
                }
            }
            let ghost words0 = words@;
            let mut c: usize = 0;
            while c < chunks.len()
                invariant
                    c <= chunks@.len(),
                    self == old(self),
                    word_texts@.len() == words@.len(),
                    words@.len() == words0.len() + c,
                decreases chunks@.len() - c,
            {
                words.push(chunks[c].text.as_str().as_bytes_vec());
                word_texts.push(chunks[c].text.clone());
                c = c + 1;
            }
            proof {
                assert(self.spec_norm(lines@[li as int]@) == nv);
                if words@.len() == 0 {
                    assert(words0.len() == 0);
                    assert(chunks@.len() == 0);
                    assert(nv.len() == 0);
                } else {
                    if !(nv.len() == 0) {
                        assert(!(forall|i: int|
                            0 <= i < li + 1 ==> (#[trigger] self.spec_norm(lines@[i]@)).len()
                                == 0)) by {
                            assert(self.spec_norm(lines@[li as int]@).len() != 0);
                        }
                    } else {
                        assert(words@.len() == words0.len());
                    }
                }
            }
            li = li + 1;
        }
        proof {
            assert((words@.len() == 0) <==> (forall|i: int|
                0 <= i < lines@.len() ==> (#[trigger] self.spec_norm(lines@[i]@)).len() == 0));
        }
        match self.model {
            Model::Bpe => {
                let trained = bpe::train_bpe(&mut self.vocab, &words, vocab_size);
                match trained {
                    Ok(rules) => {
                        self.merges = rules;
                        proof {
                            self.vocab.lemma_wf_facts();
                        }
                        Ok(())
                    },
                    Err(e) => Err(e),
                }
            },
            Model::WordPiece => {
                let trained = charlevel::train_char(&mut self.vocab, &word_texts);
                match trained {
                    Ok(()) => {
                        proof {
                            self.vocab.lemma_wf_facts();
                            lemma_rules_extend(old(self).vocab, self.vocab, self.merges@);
                        }
                        Ok(())
                    },
                    Err(e) => Err(e),
                }
            },
            Model::Unigram => {
                let trained = unigram::train_uni(&mut self.vocab, &words, vocab_size);
                match trained {
                    Ok(scores) => {
                        self.scores = scores;
                        proof {
                            self.vocab.lemma_wf_facts();
                            lemma_rules_extend(old(self).vocab, self.vocab, self.merges@);
                        }
                        Ok(())
                    },
                    Err(e) => Err(e),
                }
            },
            Model::CharLevel => {
                let trained = charlevel::train_char(&mut self.vocab, &word_texts);
                match trained {
                    Ok(()) => {
                        proof {
                            self.vocab.lemma_wf_facts();
                            lemma_rules_extend(old(self).vocab, self.vocab, self.merges@);
                        }
                        Ok(())
                    },
                    Err(e) => Err(e),
                }
            },
        }
    }
}

} // verus!
