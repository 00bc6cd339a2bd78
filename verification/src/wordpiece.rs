use vstd::prelude::*;

use crate::vocab::Vocab;
use crate::vocab::ids_valid;

verus! {

/// The WordPiece continuation marker: a token beginning with these two
/// bytes (`##`) is a non-initial fragment of a word.
pub open spec fn wp_marker() -> Seq<u8> {
    seq![0x23u8, 0x23u8]
}

/// A token's bytes with the continuation marker removed, if it carries one.
pub open spec fn wp_strip(tok: Seq<u8>) -> Seq<u8> {
    if tok.len() >= 2 && tok[0] == 0x23u8 && tok[1] == 0x23u8 {
        tok.skip(2)
    } else {
        tok
    }
}

/// The bytes a WordPiece id sequence spells: the first token plain, every
/// later token with its continuation marker removed.
pub open spec fn concat_wp(toks: Seq<Seq<u8>>, ids: Seq<usize>, first: bool) -> Seq<u8>
    decreases ids.len(),
{
    if ids.len() == 0 {
        Seq::empty()
    } else {
        (if first {
            toks[ids[0] as int]
        } else {
            wp_strip(toks[ids[0] as int])
        }) + concat_wp(toks, ids.drop_first(), false)
    }
}

proof fn lemma_concat_wp_push(toks: Seq<Seq<u8>>, ids: Seq<usize>, x: usize, first: bool)
    requires
        ids.len() >= 1,
    ensures
        concat_wp(toks, ids.push(x), first) == concat_wp(toks, ids, first) + wp_strip(
            toks[x as int],
        ),
    decreases ids.len(),
{
    reveal_with_fuel(concat_wp, 4);
    assert(ids.push(x).drop_first() =~= ids.drop_first().push(x));
    if ids.len() == 1 {
        let d = ids.drop_first().push(x);
        assert(d.drop_first() =~= Seq::<usize>::empty());
        assert(concat_wp(toks, ids.push(x), first) =~= concat_wp(toks, ids, first) + wp_strip(
            toks[x as int],
        ));
    } else {
        lemma_concat_wp_push(toks, ids.drop_first(), x, false);
        assert(concat_wp(toks, ids.push(x), first) =~= concat_wp(toks, ids, first) + wp_strip(
            toks[x as int],
        ));
    }
}

/// The query the matcher probes at position `p` of a word: the word itself
/// at the start, and the marker followed by the remaining suffix afterward.
pub open spec fn wp_query(w: Seq<u8>, p: int) -> Seq<u8> {
    if p == 0 {
        w
    } else {
        wp_marker() + w.skip(p)
    }
}

/// No usable vocabulary token matches at position `p`: no token equals any
/// prefix of the query longer than the bare marker.
pub open spec fn wp_unmatched(toks: Seq<Seq<u8>>, w: Seq<u8>, p: int) -> bool {
    forall|i: int, m: int|
        #![trigger toks[i], wp_query(w, p).take(m)]
        0 <= i < toks.len() && (if p == 0 {
            1int
        } else {
            3int
        }) <= m <= wp_query(w, p).len() ==> toks[i] != wp_query(w, p).take(m)
}

/// Token `id` matches `l` content bytes of `w` at position `p`: its bytes
/// are the corresponding query prefix, marker included after the start.
pub open spec fn wp_match_at(toks: Seq<Seq<u8>>, w: Seq<u8>, p: int, id: usize, l: int) -> bool {
    &&& 0 <= id < toks.len()
    &&& 1 <= l
    &&& 0 <= p && p + l <= w.len()
    &&& toks[id as int] == wp_query(w, p).take(
        l + (if p == 0 {
            0int
        } else {
            2int
        }),
    )
}

/// The id sequence is exactly the greedy longest-match-first trace over
/// `w`: `ps` are the match boundaries, each emitted token matches its
/// span, and no token matches a longer span at any boundary.
pub open spec fn wp_greedy_trace(toks: Seq<Seq<u8>>, w: Seq<u8>, ids: Seq<usize>, ps: Seq<int>)
    -> bool {
    &&& ps.len() == ids.len() + 1
    &&& ps[0] == 0
    &&& ps[ps.len() - 1] == w.len()
    &&& (forall|k: int|
        0 <= k < ids.len() ==> wp_match_at(toks, w, ps[k], #[trigger] ids[k], ps[k + 1] - ps[k]))
    &&& (forall|k: int, i2: usize, l2: int|
        #![trigger wp_match_at(toks, w, ps[k], i2, l2)]
        0 <= k < ids.len() && l2 > ps[k + 1] - ps[k] ==> !wp_match_at(toks, w, ps[k], i2, l2))
}

/// Greedy longest-match-first WordPiece encoding of one pre-token's bytes:
/// the longest vocabulary match is emitted at each position, later matches
/// carrying the `##` continuation marker; when some non-empty remainder
/// has no usable match, the whole pre-token maps to the unknown id in a
/// single emission, by design. (Greedy matching is the reference
/// algorithm's deliberate approximation of optimal segmentation.)
pub fn encode_word_wp(vocab: &Vocab, unk_id: usize, word: &Vec<u8>) -> (ids: Vec<usize>)
    requires
        vocab.wf(),
        unk_id < vocab.spec_tokens().len(),
    ensures
        ids_valid(vocab.spec_tokens(), ids@),
        word@.len() == 0 ==> ids@.len() == 0,
        ids@ == seq![unk_id] || concat_wp(vocab.spec_tokens(), ids@, true) == word@,
        ids@ == seq![unk_id] || exists|ps: Seq<int>| #[trigger] wp_greedy_trace(
            vocab.spec_tokens(),
            word@,
            ids@,
            ps,
        ),
        ids@ == seq![unk_id] && word@ != vocab.spec_tokens()[unk_id as int] ==> exists|p: int|
            0 <= p < word@.len() && #[trigger] wp_unmatched(vocab.spec_tokens(), word@, p),
{
    let ghost toks = vocab.spec_tokens();
    let n = word.len();
    let mut out: Vec<usize> = Vec::new();
    let ghost mut trace: Seq<int> = seq![0];
    let mut p: usize = 0;
    while p < n
        invariant
            vocab.wf(),
            toks == vocab.spec_tokens(),
            unk_id < toks.len(),
            p <= n,
            n == word@.len(),
            ids_valid(toks, out@),
            concat_wp(toks, out@, true) == word@.take(p as int),
            p == 0 ==> out@.len() == 0,
            p > 0 ==> out@.len() >= 1,
            trace.len() == out@.len() + 1,
            trace[0] == 0,
            trace[trace.len() - 1] == p,
            forall|k: int|
                0 <= k < out@.len() ==> wp_match_at(toks, word@, trace[k], #[trigger] out@[k],
                trace[k + 1] - trace[k]),
            forall|k: int, i2: usize, l2: int|
                #![trigger wp_match_at(toks, word@, trace[k], i2, l2)]
                0 <= k < out@.len() && l2 > trace[k + 1] - trace[k] ==> !wp_match_at(
                    toks,
                    word@,
                    trace[k],
                    i2,
                    l2,
                ),
        decreases n - p,
    {
        let off: usize = if p == 0 {
            0
        } else {
            2
        };
        let mut buf: Vec<u8> = Vec::new();
        if p > 0 {
            buf.push(0x23u8);
            buf.push(0x23u8);
        }
        let mut q: usize = p;
        while q < n
            invariant
                p <= q <= n,
                n == word@.len(),
                off == (if p == 0 {
                    0int
                } else {
                    2int
                }),
                buf@.len() == off + q - p,
                buf@ =~= wp_query(word@, p as int).take(off + q - p),
            decreases n - q,
        {
            buf.push(word[q]);
            proof {
                assert(buf@ =~= wp_query(word@, p as int).take(off + (q + 1) - p));
            }
            q = q + 1;
        }
        proof {
            assert(buf@ =~= wp_query(word@, p as int));
        }
        let m = vocab.longest_match(&buf, 0);
        let usable: Option<(usize, usize)> = match m {
            Some(pair) => if pair.1 > off {
                Some(pair)
            } else {
                None
            },
            None => None,
        };
        match usable {
            Some(pair) => {
                let (id, l) = pair;
                let ghost out0 = out@;
                let ghost trace0 = trace;
                out.push(id);
                proof {
                    trace = trace.push(p + (l - off) as int);
                    let qv = wp_query(word@, p as int);
                    assert(wp_match_at(toks, word@, p as int, id, l - off)) by {
                        assert(toks[id as int] == buf@.subrange(0, l as int));
                        assert(buf@.subrange(0, l as int) =~= qv.take(l as int));
                    }
                    assert forall|i2: usize, l2: int|
                        l2 > l - off implies !wp_match_at(toks, word@, p as int, i2, l2) by {
                        if wp_match_at(toks, word@, p as int, i2, l2) {
                            let m = l2 + (if p == 0int {
                                0int
                            } else {
                                2int
                            });
                            let probe = buf@.subrange(0int, 0 + m);
                            assert(qv.take(m) =~= probe);
                            assert(toks[i2 as int] != probe);
                        }
                    }
                    assert forall|k: int|
                        0 <= k < out@.len() implies wp_match_at(toks, word@, trace[k], #[trigger]
                        out@[k], trace[k + 1] - trace[k]) by {
                        if k < out0.len() {
                            assert(out@[k] == out0[k]);
                            assert(trace[k] == trace0[k]);
                            assert(trace[k + 1] == trace0[k + 1]);
                        } else {
                            assert(out@[k] == id);
                            assert(trace[k] == p as int);
                        }
                    }
                    assert forall|k: int, i2: usize, l2: int|
                        #![trigger wp_match_at(toks, word@, trace[k], i2, l2)]
                        0 <= k < out@.len() && l2 > trace[k + 1] - trace[k] implies !wp_match_at(
                            toks,
                            word@,
                            trace[k],
                            i2,
                            l2,
                    ) by {
                        if k < out0.len() {
                            assert(out0[k] == out@[k]);
                            assert(trace[k] == trace0[k]);
                            assert(trace[k + 1] == trace0[k + 1]);
                            assert(!wp_match_at(toks, word@, trace0[k], i2, l2));
                        } else {
                            assert(trace[k] == p as int);
                            assert(trace[k + 1] == p + (l - off) as int);
                            assert(l2 > l - off);
                            assert(!wp_match_at(toks, word@, p as int, i2, l2));
                        }
                    }
                    assert(toks[id as int] == buf@.subrange(0, l as int));
                    if p == 0 {
                        reveal_with_fuel(concat_wp, 3);
                        assert(buf@.subrange(0, l as int) =~= word@.take(l as int));
                        assert(out@ =~= seq![id]);
                        assert(out@.drop_first() =~= Seq::<usize>::empty());
                        assert(concat_wp(toks, out@, true) =~= word@.take(l as int));
                    } else {
                        assert(toks[id as int][0] == 0x23u8);
                        assert(toks[id as int][1] == 0x23u8);
                        assert(wp_strip(toks[id as int]) =~= word@.subrange(
                            p as int,
                            p + (l - off),
                        ));
                        lemma_concat_wp_push(toks, out0, id, true);
                        assert(word@.take(p as int) + word@.subrange(p as int, p + (l - off))
                            =~= word@.take(p + (l - off)));
                    }
                }
                p = p + (l - off);
            },
            None => {
                proof {
                    let ghost qv = wp_query(word@, p as int);
                    assert forall|i: int, mm: int|
                        #![trigger toks[i], qv.take(mm)]
                        0 <= i < toks.len() && (if p == 0int {
                            1int
                        } else {
                            3int
                        }) <= mm <= qv.len() implies toks[i] != qv.take(mm) by {
                        let probe = buf@.subrange(0int, 0 + mm);
                        assert(qv.take(mm) =~= probe);
                        match m {
                            Some(pair) => {
                                assert(pair.1 <= off);
                            },
                            None => {},
                        }
                    }
                    assert(wp_unmatched(toks, word@, p as int));
                    assert((p as int) < word@.len());
                }
                let mut fallback: Vec<usize> = Vec::new();
                fallback.push(unk_id);
                proof {
                    assert(fallback@ =~= seq![unk_id]);
                }
                return fallback;
            },
        }
    }
    proof {
        assert(word@.take(n as int) =~= word@);
        assert(wp_greedy_trace(toks, word@, out@, trace));
        if out@ == seq![unk_id] && word@ != toks[unk_id as int] {
            assert(concat_wp(toks, out@, true) == toks[unk_id as int]) by {
                reveal_with_fuel(concat_wp, 3);
                assert(out@.drop_first() =~= Seq::<usize>::empty());
                assert(concat_wp(toks, out@, true) =~= toks[unk_id as int]);
            }
            assert(false);
        }
    }
    out
}

} // verus!
