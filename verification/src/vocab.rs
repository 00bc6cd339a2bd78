use vstd::prelude::*;

use crate::trie::Trie;

verus! {

/// The vocabulary: a bijective mapping from token byte strings to integer
/// ids, contiguous from 0, with a per-token special flag. A trie indexes
/// the tokens for exact and longest-prefix lookup in time linear in the
/// query, independent of the vocabulary size.
pub struct Vocab {
    tokens: Vec<Vec<u8>>,
    special: Vec<bool>,
    index: Trie,
}

impl Vocab {
    /// The token strings, in id order.
    pub closed spec fn spec_tokens(self) -> Seq<Seq<u8>> {
        Seq::new(self.tokens@.len(), |i: int| self.tokens@[i]@)
    }

    /// Which ids are reserved special tokens.
    pub closed spec fn spec_special(self) -> Seq<bool> {
        self.special@
    }

    /// Well-formedness: ids are contiguous from 0, no token is empty, no
    /// two tokens are equal, and the trie indexes exactly the tokens.
    pub closed spec fn wf(self) -> bool {
        &&& self.special@.len() == self.tokens@.len()
        &&& self.tokens@.len() <= 0x7fff_ffff
        &&& (forall|i: int| 0 <= i < self.tokens@.len() ==> self.tokens@[i]@.len() >= 1)
        &&& (forall|i: int, j: int|
            0 <= i < j < self.tokens@.len() ==> self.tokens@[i]@ != self.tokens@[j]@)
        &&& (forall|i: int|
            0 <= i < self.tokens@.len() ==> self.index.spec_get(#[trigger] self.tokens@[i]@)
                == Some(i as usize))
        &&& (forall|k: Seq<u8>|
            #[trigger] self.index.spec_get(k) matches Some(id) ==> id < self.tokens@.len()
                && self.tokens@[id as int]@ == k)
    }

    /// Every well-formed vocabulary has distinct, nonempty tokens and at
    /// most `i32::MAX` of them.
    pub proof fn lemma_wf_facts(self)
        requires
            self.wf(),
        ensures
            self.spec_tokens().len() <= 0x7fff_ffff,
            self.spec_special().len() == self.spec_tokens().len(),
            forall|i: int| 0 <= i < self.spec_tokens().len() ==> self.spec_tokens()[i].len() >= 1,
            forall|i: int, j: int|
                0 <= i < j < self.spec_tokens().len() ==> self.spec_tokens()[i]
                    != self.spec_tokens()[j],
    {
    }

    /// An empty vocabulary.
    pub fn new() -> (v: Vocab)
        ensures
            v.wf(),
            v.spec_tokens().len() == 0,
            v.spec_special().len() == 0,
    {
        Vocab { tokens: Vec::new(), special: Vec::new(), index: Trie::new() }
    }

    /// The number of tokens.
    pub fn len(&self) -> (r: usize)
        ensures
            r == self.spec_tokens().len(),
    {
        self.tokens.len()
    }

    /// The byte string of the token with id `id`.
    pub fn token_bytes(&self, id: usize) -> (r: &Vec<u8>)
        requires
            id < self.spec_tokens().len(),
        ensures
            r@ == self.spec_tokens()[id as int],
    {
        &self.tokens[id]
    }

    /// Whether the token with id `id` is a reserved special token.
    pub fn is_special(&self, id: usize) -> (r: bool)
        requires
            self.wf(),
            id < self.spec_tokens().len(),
        ensures
            r == self.spec_special()[id as int],
    {
        self.special[id]
    }

    /// Exact lookup: the id of the token whose bytes equal `tok`.
    pub fn find(&self, tok: &Vec<u8>) -> (r: Option<usize>)
        requires
            self.wf(),
        ensures
            match r {
                Some(id) => id < self.spec_tokens().len() && self.spec_tokens()[id as int] == tok@,
                None => forall|i: int|
                    0 <= i < self.spec_tokens().len() ==> self.spec_tokens()[i] != tok@,
            },
    {
        let r = self.index.lookup(tok);
        proof {
            if r is None {
                assert forall|i: int|
                    0 <= i < self.spec_tokens().len() implies self.spec_tokens()[i] != tok@ by {
                    if self.spec_tokens()[i] == tok@ {
                        assert(self.index.spec_get(self.tokens@[i]@) == Some(i as usize));
                    }
                }
            }
        }
        r
    }

    /// Appends a token not yet present, giving it the next id.
    pub fn push_token(&mut self, tok: Vec<u8>, is_special: bool) -> (id: usize)
        requires
            old(self).wf(),
            tok@.len() >= 1,
            old(self).spec_tokens().len() < 0x7fff_ffff,
            forall|i: int|
                0 <= i < old(self).spec_tokens().len() ==> old(self).spec_tokens()[i] != tok@,
        ensures
            final(self).wf(),
            id == old(self).spec_tokens().len(),
            final(self).spec_tokens() == old(self).spec_tokens().push(tok@),
            final(self).spec_special() == old(self).spec_special().push(is_special),
    {
        let id = self.tokens.len();
        self.index.insert(&tok, id);
        self.tokens.push(tok);
        self.special.push(is_special);
        proof {
            assert(final(self).spec_tokens() =~= old(self).spec_tokens().push(tok@));
            assert forall|i: int|
                0 <= i < self.tokens@.len() implies self.index.spec_get(
                #[trigger] self.tokens@[i]@,
            ) == Some(i as usize) by {
                if i < id {
                    assert(self.tokens@[i] == old(self).tokens@[i]);
                    assert(old(self).spec_tokens()[i] != tok@);
                    assert(old(self).index.spec_get(old(self).tokens@[i]@) == Some(i as usize));
                } else {
                    assert(self.tokens@[i]@ == tok@);
                }
            }
        }
        id
    }

    /// The id of `tok`, inserting it first if it is not yet present.
    pub fn get_or_push(&mut self, tok: Vec<u8>, is_special: bool) -> (id: usize)
        requires
            old(self).wf(),
            tok@.len() >= 1,
            old(self).spec_tokens().len() < 0x7fff_ffff,
        ensures
            final(self).wf(),
            id < final(self).spec_tokens().len(),
            final(self).spec_tokens()[id as int] == tok@,
            (exists|i: int|
                0 <= i < old(self).spec_tokens().len() && old(self).spec_tokens()[i] == tok@)
                ==> *final(self) == *old(self),
            !(exists|i: int|
                0 <= i < old(self).spec_tokens().len() && old(self).spec_tokens()[i] == tok@) ==> {
                &&& final(self).spec_tokens() == old(self).spec_tokens().push(tok@)
                &&& final(self).spec_special() == old(self).spec_special().push(is_special)
                &&& id == old(self).spec_tokens().len()
            },
    {
        let r = self.find(&tok);
        match r {
            Some(id) => id,
            None => self.push_token(tok, is_special),
        }
    }

    /// Longest-prefix match: the token of greatest length whose bytes equal
    /// a prefix of `text` starting at `start`. Ties cannot occur because
    /// the tokens are distinct.
    pub fn longest_match(&self, text: &Vec<u8>, start: usize) -> (r: Option<(usize, usize)>)
        requires
            self.wf(),
            start <= text@.len(),
        ensures
            match r {
                Some(p) => {
                    &&& 1 <= p.1
                    &&& start + p.1 <= text@.len()
                    &&& p.0 < self.spec_tokens().len()
                    &&& self.spec_tokens()[p.0 as int] == text@.subrange(start as int, start + p.1)
                    &&& forall|i: int, m: int|
                        #![trigger self.spec_tokens()[i], text@.subrange(start as int, start + m)]
                        0 <= i < self.spec_tokens().len() && p.1 < m <= text@.len() - start
                            ==> self.spec_tokens()[i] != text@.subrange(start as int, start + m)
                },
                None => forall|i: int, m: int|
                    #![trigger self.spec_tokens()[i], text@.subrange(start as int, start + m)]
                    0 <= i < self.spec_tokens().len() && 1 <= m <= text@.len() - start
                        ==> self.spec_tokens()[i] != text@.subrange(start as int, start + m),
            },
    {
        let r = self.index.longest_prefix(text, start);
        proof {
            match r {
                Some(p) => {
                    assert forall|i: int, m: int|
                        #![trigger self.spec_tokens()[i], text@.subrange(start as int, start + m)]
                        0 <= i < self.spec_tokens().len() && p.1 < m <= text@.len()
                            - start implies self.spec_tokens()[i] != text@.subrange(
                        start as int,
                        start + m,
                    ) by {
                        if self.spec_tokens()[i] == text@.subrange(start as int, start + m) {
                            assert(self.index.spec_get(self.tokens@[i]@) == Some(i as usize));
                            assert(self.index.spec_get(
                                text@.subrange(start as int, start + m),
                            ) is None);
                        }
                    }
                },
                None => {
                    assert forall|i: int, m: int|
                        #![trigger self.spec_tokens()[i], text@.subrange(start as int, start + m)]
                        0 <= i < self.spec_tokens().len() && 1 <= m <= text@.len()
                            - start implies self.spec_tokens()[i] != text@.subrange(
                        start as int,
                        start + m,
                    ) by {
                        if self.spec_tokens()[i] == text@.subrange(start as int, start + m) {
                            assert(self.index.spec_get(self.tokens@[i]@) == Some(i as usize));
                            assert(self.index.spec_get(
                                text@.subrange(start as int, start + m),
                            ) is None);
                        }
                    }
                },
            }
        }
        r
    }
}

/// Every id in `ids` is a valid index into `toks`.
pub open spec fn ids_valid(toks: Seq<Seq<u8>>, ids: Seq<usize>) -> bool {
    forall|k: int| 0 <= k < ids.len() ==> (#[trigger] ids[k]) < toks.len()
}

/// The bytes the id sequence `ids` spells: the tokens' byte strings
/// concatenated in order.
pub open spec fn concat_bytes(toks: Seq<Seq<u8>>, ids: Seq<usize>) -> Seq<u8>
    decreases ids.len(),
{
    if ids.len() == 0 {
        Seq::empty()
    } else {
        toks[ids[0] as int] + concat_bytes(toks, ids.drop_first())
    }
}

/// Appending one id appends that token's bytes.
pub proof fn lemma_concat_bytes_push(toks: Seq<Seq<u8>>, ids: Seq<usize>, x: usize)
    ensures
        concat_bytes(toks, ids.push(x)) == concat_bytes(toks, ids) + toks[x as int],
    decreases ids.len(),
{
    if ids.len() == 0 {
        assert(ids.push(x).drop_first() =~= ids);
        assert(concat_bytes(toks, ids.push(x)) =~= concat_bytes(toks, ids) + toks[x as int]);
    } else {
        assert(ids.push(x).drop_first() =~= ids.drop_first().push(x));
        lemma_concat_bytes_push(toks, ids.drop_first(), x);
        assert(concat_bytes(toks, ids.push(x)) =~= concat_bytes(toks, ids) + toks[x as int]);
    }
}

/// The vocabulary has a token whose bytes are exactly `b`.
pub open spec fn has_token(toks: Seq<Seq<u8>>, b: Seq<u8>) -> bool {
    exists|i: int| 0 <= i < toks.len() && toks[i] == b
}

/// The vocabulary has a token for the single byte `b`.
pub open spec fn has_byte_token(toks: Seq<Seq<u8>>, b: u8) -> bool {
    exists|i: int| 0 <= i < toks.len() && toks[i] == seq![b]
}

/// The vocabulary has a token for every byte of `word`: byte-level
/// encoding of `word` cannot fall back to the unknown token.
pub open spec fn bytes_covered(toks: Seq<Seq<u8>>, word: Seq<u8>) -> bool {
    forall|j: int| 0 <= j < word.len() ==> has_byte_token(toks, #[trigger] word[j])
}

/// The vocabulary has a token for every byte whatsoever.
pub open spec fn bytes_complete(toks: Seq<Seq<u8>>) -> bool {
    forall|b: u8| has_byte_token(toks, b)
}

/// A token stays present when the vocabulary only grows.
pub proof fn lemma_has_token_extends(t1: Seq<Seq<u8>>, t2: Seq<Seq<u8>>, b: Seq<u8>)
    requires
        t1.len() <= t2.len(),
        forall|i: int| 0 <= i < t1.len() ==> t2[i] == t1[i],
        has_token(t1, b),
    ensures
        has_token(t2, b),
{
    let i = choose|i: int| 0 <= i < t1.len() && t1[i] == b;
    assert(t2[i] == b);
}

/// Byte coverage survives appending tokens: a vocabulary that extends a
/// complete one pointwise is itself complete.
pub proof fn lemma_bytes_complete_extends(t1: Seq<Seq<u8>>, t2: Seq<Seq<u8>>)
    requires
        t1.len() <= t2.len(),
        forall|i: int| 0 <= i < t1.len() ==> t2[i] == t1[i],
        bytes_complete(t1),
    ensures
        bytes_complete(t2),
{
    assert forall|b: u8| has_byte_token(t2, b) by {
        assert(has_byte_token(t1, b));
        let i = choose|i: int| 0 <= i < t1.len() && t1[i] == seq![b];
        assert(t2[i] == seq![b]);
    }
}

impl Vocab {
    /// `self` keeps every token and special flag of `prev`, in place:
    /// ids already assigned are never reassigned.
    pub open spec fn extends(self, prev: Vocab) -> bool {
        &&& prev.spec_tokens().len() <= self.spec_tokens().len()
        &&& prev.spec_special().len() <= self.spec_special().len()
        &&& (forall|i: int|
            0 <= i < prev.spec_tokens().len() ==> self.spec_tokens()[i] == prev.spec_tokens()[i])
        &&& (forall|i: int|
            0 <= i < prev.spec_special().len() ==> self.spec_special()[i]
                == prev.spec_special()[i])
    }
}

} // verus!
