use vstd::prelude::*;
use vstd::string::StrSliceExecFns;
use vstd::utf8::encode_utf8;

use crate::errors::TokenizerError;
use crate::normalize::chars_to_string;
use crate::normalize::str_chars;
use crate::vocab::Vocab;
use crate::vocab::has_token;
use crate::vocab::ids_valid;
use crate::vocab::lemma_has_token_extends;

verus! {

/// The UTF-8 bytes of one character.
fn char_bytes(c: char) -> (r: Vec<u8>)
    ensures
        r@ == encode_utf8(seq![c]),
        r@.len() >= 1,
{
    let mut v: Vec<char> = Vec::new();
    v.push(c);
    let s = chars_to_string(&v);
    proof {
        assert(s@ =~= seq![c]);
        assert(seq![c].drop_first() =~= Seq::<char>::empty());
        vstd::utf8::char_is_scalar(c);
    }
    s.as_str().as_bytes_vec()
}

/// Character-level training: walks the corpus chunks and assigns ids to
/// codepoints in first-occurrence order; the vocabulary is frozen
/// afterward, so unseen codepoints degrade to the unknown id at encode
/// time. Unless the id space fills up, every corpus codepoint's token is
/// present afterward. Fails, leaving the vocabulary untouched, exactly
/// when the corpus has no chunks.
pub fn train_char(vocab: &mut Vocab, words: &Vec<String>) -> (r: Result<(), TokenizerError>)
    requires
        old(vocab).wf(),
    ensures
        match r {
            Ok(()) => {
                &&& final(vocab).wf()
                &&& final(vocab).extends(*old(vocab))
                &&& forall|i: int|
                    old(vocab).spec_tokens().len() <= i < final(vocab).spec_tokens().len() ==> !(
                    #[trigger] final(vocab).spec_special()[i])
                &&& (final(vocab).spec_tokens().len() < 0x7fff_ffff ==> forall|w: int, k: int|
                    #![trigger words@[w]@[k]]
                    0 <= w < words@.len() && 0 <= k < words@[w]@.len() ==> has_token(
                        final(vocab).spec_tokens(),
                        encode_utf8(seq![words@[w]@[k]]),
                    ))
            },
            Err(e) => {
                &&& e == TokenizerError::Training
                &&& *final(vocab) == *old(vocab)
            },
        },
        r is Err <==> words@.len() == 0,
{
    let ghost v0 = *old(vocab);
    if words.len() == 0 {
        return Err(TokenizerError::Training);
    }
    proof {
        vocab.lemma_wf_facts();
    }
    let mut w: usize = 0;
    while w < words.len()
        invariant
            w <= words@.len(),
            vocab.wf(),
            vocab.extends(v0),
            vocab.spec_special().len() == vocab.spec_tokens().len(),
            forall|i: int|
                v0.spec_tokens().len() <= i < vocab.spec_tokens().len() ==> !(#[trigger]
                vocab.spec_special()[i]),
            vocab.spec_tokens().len() < 0x7fff_ffff ==> forall|w2: int, k2: int|
                #![trigger words@[w2]@[k2]]
                0 <= w2 < w && 0 <= k2 < words@[w2]@.len() ==> has_token(
                    vocab.spec_tokens(),
                    encode_utf8(seq![words@[w2]@[k2]]),
                ),
        decreases words@.len() - w,
    {
        let cs = str_chars(words[w].as_str());
        let mut k: usize = 0;
        while k < cs.len()
            invariant
                w < words@.len(),
                k <= cs@.len(),
                cs@ == words@[w as int]@,
                vocab.wf(),
                vocab.extends(v0),
                vocab.spec_special().len() == vocab.spec_tokens().len(),
                forall|i: int|
                    v0.spec_tokens().len() <= i < vocab.spec_tokens().len() ==> !(#[trigger]
                    vocab.spec_special()[i]),
                vocab.spec_tokens().len() < 0x7fff_ffff ==> forall|w2: int, k2: int|
                    #![trigger words@[w2]@[k2]]
                    0 <= w2 < w && 0 <= k2 < words@[w2]@.len() ==> has_token(
                        vocab.spec_tokens(),
                        encode_utf8(seq![words@[w2]@[k2]]),
                    ),
                vocab.spec_tokens().len() < 0x7fff_ffff ==> forall|k2: int|
                    0 <= k2 < k ==> has_token(
                        vocab.spec_tokens(),
                        encode_utf8(seq![#[trigger] words@[w as int]@[k2]]),
                    ),
        decreases cs@.len() - k,
    {
            let b = char_bytes(cs[k]);
            if vocab.len() < 0x7fff_ffff {
                let ghost v1 = *vocab;
                let _ = vocab.get_or_push(b, false);
                proof {
                    v1.lemma_wf_facts();
                    vocab.lemma_wf_facts();
                    assert(has_token(vocab.spec_tokens(), encode_utf8(seq![words@[w as int]@[k
                        as int]])));
                    if vocab.spec_tokens().len() < 0x7fff_ffff {
                        assert forall|w2: int, k2: int|
                            #![trigger words@[w2]@[k2]]
                            0 <= w2 < w && 0 <= k2 < words@[w2]@.len() implies has_token(
                            vocab.spec_tokens(),
                            encode_utf8(seq![words@[w2]@[k2]]),
                        ) by {
                            lemma_has_token_extends(
                                v1.spec_tokens(),
                                vocab.spec_tokens(),
                                encode_utf8(seq![words@[w2]@[k2]]),
                            );
                        }
                        assert forall|k2: int| 0 <= k2 < k implies has_token(
                            vocab.spec_tokens(),
                            encode_utf8(seq![#[trigger] words@[w as int]@[k2]]),
                        ) by {
                            lemma_has_token_extends(
                                v1.spec_tokens(),
                                vocab.spec_tokens(),
                                encode_utf8(seq![words@[w as int]@[k2]]),
                            );
                        }
                    }
                }
            }
            k = k + 1;
        }
        w = w + 1;
    }
    Ok(())
}

/// Character-level encoding: each input codepoint maps one-to-one to the
/// id of its single-codepoint token, or to the unknown id when the
/// codepoint was never trained.
pub fn encode_chars(vocab: &Vocab, unk_id: usize, word: &Vec<char>) -> (ids: Vec<usize>)
    requires
        vocab.wf(),
        unk_id < vocab.spec_tokens().len(),
    ensures
        ids_valid(vocab.spec_tokens(), ids@),
        ids@.len() == word@.len(),
        forall|k: int|
            0 <= k < word@.len() ==> {
                if has_token(vocab.spec_tokens(), encode_utf8(seq![word@[k]])) {
                    vocab.spec_tokens()[(#[trigger] ids@[k]) as int] == encode_utf8(
                        seq![word@[k]],
                    )
                } else {
                    ids@[k] == unk_id
                }
            },
{
    let ghost toks = vocab.spec_tokens();
    let mut out: Vec<usize> = Vec::new();
    let mut k: usize = 0;
    while k < word.len()
        invariant
            vocab.wf(),
            toks == vocab.spec_tokens(),
            unk_id < toks.len(),
            k <= word@.len(),
            out@.len() == k,
            ids_valid(toks, out@),
            forall|k2: int|
                0 <= k2 < k ==> {
                    if has_token(toks, encode_utf8(seq![word@[k2]])) {
                        toks[(#[trigger] out@[k2]) as int] == encode_utf8(seq![word@[k2]])
                    } else {
                        out@[k2] == unk_id
                    }
                },
        decreases word@.len() - k,
    {
        let b = char_bytes(word[k]);
        match vocab.find(&b) {
            Some(id) => {
                out.push(id);
                proof {
                    assert(has_token(toks, encode_utf8(seq![word@[k as int]])));
                }
            },
            None => {
                out.push(unk_id);
                proof {
                    if has_token(toks, encode_utf8(seq![word@[k as int]])) {
                        let i = choose|i: int|
                            0 <= i < toks.len() && toks[i] == encode_utf8(seq![word@[k as int]]);
                        assert(toks[i] != b@);
                        assert(false);
                    }
                }
            },
        }
        k = k + 1;
    }
    out
}

} // verus!
