use vstd::prelude::*;
use vstd::pervasive::VecAdditionalExecFns;

use crate::errors::TokenizerError;
use crate::vocab::Vocab;
use crate::vocab::bytes_complete;
use crate::vocab::concat_bytes;
use crate::vocab::has_byte_token;
use crate::vocab::ids_valid;
use crate::vocab::lemma_bytes_complete_extends;
use crate::vocab::lemma_concat_bytes_push;

verus! {

/// Saturating signed addition, used for path scores: Viterbi sums stay
/// within `i64` by clamping instead of wrapping.
fn sat_add(a: i64, b: i64) -> (r: i64)
    ensures
        r as int == if a + b > i64::MAX {
            i64::MAX as int
        } else if a + b < i64::MIN {
            i64::MIN as int
        } else {
            a + b
        },
{
    if a > 0 && b > i64::MAX - a {
        i64::MAX
    } else if a < 0 && b < i64::MIN - a {
        i64::MIN
    } else {
        a + b
    }
}

/// Some id sequence spells `w` with vocabulary tokens.
pub open spec fn segmentable(toks: Seq<Seq<u8>>, w: Seq<u8>) -> bool {
    exists|seg: Seq<usize>| ids_valid(toks, seg) && #[trigger] concat_bytes(toks, seg) == w
}

/// Clamping to the `i64` range, the arithmetic `sat_add` performs.
pub open spec fn sat(x: int) -> int {
    if x > i64::MAX {
        i64::MAX as int
    } else if x < i64::MIN {
        i64::MIN as int
    } else {
        x
    }
}

/// A path score folded left to right from `b`: one saturating addition
/// per token, exactly as the dynamic program accumulates it.
pub open spec fn sat_score_from(scores: Seq<i64>, b: int, seg: Seq<usize>) -> int
    decreases seg.len(),
{
    if seg.len() == 0 {
        b
    } else {
        sat_score_from(scores, sat(b + scores[seg[0] as int]), seg.drop_first())
    }
}

/// A segmentation's saturated score.
pub open spec fn seg_score(scores: Seq<i64>, seg: Seq<usize>) -> int {
    sat_score_from(scores, 0, seg)
}

proof fn lemma_score_push(scores: Seq<i64>, b: int, seg: Seq<usize>, x: usize)
    ensures
        sat_score_from(scores, b, seg.push(x)) == sat(
            sat_score_from(scores, b, seg) + scores[x as int],
        ),
    decreases seg.len(),
{
    if seg.len() == 0 {
        assert(seg.push(x)[0] == x);
        assert(seg.push(x).drop_first() =~= seg);
        assert(sat_score_from(scores, sat(b + scores[x as int]), seg) == sat(
            b + scores[x as int],
        ));
        assert(sat_score_from(scores, b, seg) == b);
    } else {
        assert(seg.push(x).drop_first() =~= seg.drop_first().push(x));
        lemma_score_push(scores, sat(b + scores[seg[0] as int]), seg.drop_first(), x);
    }
}

/// The dynamic program's coverage bound at position `i`: every
/// segmentation of a prefix whose final token starts before `i` already
/// has its end position reachable, with at least its score.
pub open spec fn dp_covers(
    toks: Seq<Seq<u8>>,
    scores: Seq<i64>,
    w: Seq<u8>,
    reach: Seq<bool>,
    best: Seq<i64>,
    i: int,
) -> bool {
    forall|j2: int, seg: Seq<usize>|
        #![trigger w.subrange(0, j2), concat_bytes(toks, seg)]
        0 <= j2 <= w.len() && ids_valid(toks, seg) && concat_bytes(toks, seg) == w.subrange(0, j2)
            && (seg.len() == 0 || j2 - toks[seg.last() as int].len() < i) ==> reach[j2]
            && seg_score(scores, seg) <= best[j2] as int
}

/// A nonempty segmentation of a prefix splits off its final token: the
/// rest spells the shorter prefix, the token spells the final span, and
/// the score folds accordingly.
proof fn lemma_seg_decompose(
    toks: Seq<Seq<u8>>,
    scores: Seq<i64>,
    w: Seq<u8>,
    seg: Seq<usize>,
    j2: int,
)
    requires
        0 <= j2 <= w.len(),
        ids_valid(toks, seg),
        seg.len() >= 1,
        concat_bytes(toks, seg) == w.subrange(0, j2),
    ensures
        ({
            let last = seg.last();
            let ll = toks[last as int].len() as int;
            &&& 0 <= j2 - ll
            &&& ids_valid(toks, seg.drop_last())
            &&& concat_bytes(toks, seg.drop_last()) == w.subrange(0, j2 - ll)
            &&& toks[last as int] == w.subrange(j2 - ll, j2)
            &&& seg_score(scores, seg) == sat(
                seg_score(scores, seg.drop_last()) + scores[last as int],
            )
        }),
{
    let last = seg.last();
    assert(seg[seg.len() - 1] < toks.len());
    assert(seg.drop_last().push(last) =~= seg);
    lemma_concat_bytes_push(toks, seg.drop_last(), last);
    let pre = concat_bytes(toks, seg.drop_last());
    let tb = toks[last as int];
    assert(pre + tb == w.subrange(0, j2));
    assert(pre.len() + tb.len() == j2);
    assert forall|k: int| 0 <= k < pre.len() implies pre[k] == w[k] by {
        assert((pre + tb)[k] == pre[k]);
        assert(w.subrange(0, j2)[k] == w[k]);
    }
    assert forall|k: int| 0 <= k < tb.len() implies tb[k] == w[j2 - tb.len() + k] by {
        assert((pre + tb)[pre.len() + k] == tb[k]);
        assert(w.subrange(0, j2)[pre.len() + k] == w[pre.len() + k]);
    }
    assert(pre =~= w.subrange(0, j2 - tb.len()));
    assert(tb =~= w.subrange(j2 - tb.len(), j2));
    assert forall|k: int|
        0 <= k < seg.drop_last().len() implies (#[trigger] seg.drop_last()[k]) < toks.len() by {
        assert(seg.drop_last()[k] == seg[k]);
    }
    lemma_score_push(scores, 0, seg.drop_last(), last);
    assert(seg_score(scores, seg) == sat_score_from(scores, 0, seg.drop_last().push(last)));
}

/// The coverage bound holds trivially before any position is processed.
proof fn lemma_dp_covers_zero(
    toks: Seq<Seq<u8>>,
    scores: Seq<i64>,
    w: Seq<u8>,
    reach: Seq<bool>,
    best: Seq<i64>,
)
    requires
        reach.len() == w.len() + 1,
        best.len() == w.len() + 1,
        reach[0],
        best[0] == 0i64,
    ensures
        dp_covers(toks, scores, w, reach, best, 0),
{
    assert forall|j2: int, seg: Seq<usize>|
        #![trigger w.subrange(0, j2), concat_bytes(toks, seg)]
        0 <= j2 <= w.len() && ids_valid(toks, seg) && concat_bytes(toks, seg) == w.subrange(0, j2)
            && (seg.len() == 0 || j2 - toks[seg.last() as int].len() < 0) implies reach[j2]
        && seg_score(scores, seg) <= best[j2] as int by {
        if seg.len() == 0 {
            assert(concat_bytes(toks, seg) =~= Seq::<u8>::empty());
            assert(j2 == 0);
            assert(seg_score(scores, seg) == 0);
        } else {
            lemma_seg_decompose(toks, scores, w, seg, j2);
            assert(false);
        }
    }
}

/// The coverage bound is stable when reachability and scores only grow.
proof fn lemma_dp_covers_grow(
    toks: Seq<Seq<u8>>,
    scores: Seq<i64>,
    w: Seq<u8>,
    reach0: Seq<bool>,
    best0: Seq<i64>,
    reach1: Seq<bool>,
    best1: Seq<i64>,
    i: int,
)
    requires
        dp_covers(toks, scores, w, reach0, best0, i),
        reach0.len() == w.len() + 1,
        best0.len() == w.len() + 1,
        reach1.len() == reach0.len(),
        best1.len() == best0.len(),
        forall|j: int|
            0 <= j <= w.len() && reach0[j] ==> (#[trigger] reach1[j]) && best0[j] as int
                <= best1[j] as int,
    ensures
        dp_covers(toks, scores, w, reach1, best1, i),
{
    assert forall|j2: int, seg: Seq<usize>|
        #![trigger w.subrange(0, j2), concat_bytes(toks, seg)]
        0 <= j2 <= w.len() && ids_valid(toks, seg) && concat_bytes(toks, seg) == w.subrange(0, j2)
            && (seg.len() == 0 || j2 - toks[seg.last() as int].len() < i) implies reach1[j2]
        && seg_score(scores, seg) <= best1[j2] as int by {
        assert(reach0[j2]);
        assert(seg_score(scores, seg) <= best0[j2] as int);
        assert(reach1[j2]);
        assert(best0[j2] as int <= best1[j2] as int);
    }
}

/// Once position `i` has offered every token starting there, the
/// coverage bound extends past `i`.
proof fn lemma_dp_covers_step(
    toks: Seq<Seq<u8>>,
    scores: Seq<i64>,
    w: Seq<u8>,
    reach: Seq<bool>,
    best: Seq<i64>,
    i: int,
)
    requires
        0 <= i < w.len(),
        reach.len() == w.len() + 1,
        best.len() == w.len() + 1,
        reach[i],
        forall|ti: int| 0 <= ti < toks.len() ==> (#[trigger] toks[ti]).len() >= 1,
        dp_covers(toks, scores, w, reach, best, i),
        forall|l2: int, t2: int|
            #![trigger toks[t2], w.subrange(i, i + l2)]
            1 <= l2 <= w.len() - i && 0 <= t2 < toks.len() && toks[t2] == w.subrange(i, i + l2)
                ==> reach[i + l2] && sat(best[i] as int + scores[t2] as int) <= best[i + l2]
                as int,
    ensures
        dp_covers(toks, scores, w, reach, best, i + 1),
{
    assert forall|j2: int, seg: Seq<usize>|
        #![trigger w.subrange(0, j2), concat_bytes(toks, seg)]
        0 <= j2 <= w.len() && ids_valid(toks, seg) && concat_bytes(toks, seg) == w.subrange(0, j2)
            && (seg.len() == 0 || j2 - toks[seg.last() as int].len() < i + 1) implies reach[j2]
        && seg_score(scores, seg) <= best[j2] as int by {
        if seg.len() == 0 || j2 - toks[seg.last() as int].len() < i {
            assert(reach[j2] && seg_score(scores, seg) <= best[j2] as int);
        } else {
            let last = seg.last();
            let ll = toks[last as int].len() as int;
            lemma_seg_decompose(toks, scores, w, seg, j2);
            assert(j2 - ll == i);
            let segp = seg.drop_last();
            if segp.len() > 0 {
                lemma_seg_decompose(toks, scores, w, segp, i);
                assert(segp.last() < toks.len());
                assert(toks[segp.last() as int].len() >= 1);
            }
            assert(w.subrange(0, i) == w.subrange(0, i));
            assert(reach[i] && seg_score(scores, segp) <= best[i] as int);
            assert(toks[last as int] == w.subrange(i, i + (j2 - i)));
            assert(reach[j2] && sat(best[i] as int + scores[last as int] as int) <= best[j2]
                as int);
            assert(seg_score(scores, seg) == sat(seg_score(scores, segp) + scores[last as int]));
        }
    }
}

/// Viterbi segmentation of one pre-token's bytes under per-token scores:
/// a dynamic program over byte positions keeps, for each reachable
/// position, the best-scoring way to spell the prefix with vocabulary
/// tokens. The returned ids spell exactly the word's bytes whenever any
/// segmentation exists — the unknown fallback comes only when none does —
/// and no segmentation scores higher under the saturated sum. Score ties
/// prefer the longer token.
#[verifier::rlimit(100)]
pub fn encode_word_uni(vocab: &Vocab, scores: &Vec<i64>, unk_id: usize, word: &Vec<u8>) -> (ids:
    Vec<usize>)
    requires
        vocab.wf(),
        unk_id < vocab.spec_tokens().len(),
        scores@.len() == vocab.spec_tokens().len(),
    ensures
        ids_valid(vocab.spec_tokens(), ids@),
        word@.len() == 0 ==> ids@.len() == 0,
        ids@ == seq![unk_id] || concat_bytes(vocab.spec_tokens(), ids@) == word@,
        word@.len() > 0 && word@.len() < usize::MAX && segmentable(vocab.spec_tokens(), word@)
            ==> concat_bytes(vocab.spec_tokens(), ids@) == word@,
        word@.len() < usize::MAX ==> forall|seg: Seq<usize>|
            ids_valid(vocab.spec_tokens(), seg) && #[trigger] concat_bytes(
                vocab.spec_tokens(),
                seg,
            ) == word@ ==> seg_score(scores@, seg) <= seg_score(scores@, ids@),
{
    let ghost toks = vocab.spec_tokens();
    proof {
        vocab.lemma_wf_facts();
    }
    let n = word.len();
    if n == 0 {
        let out: Vec<usize> = Vec::new();
        proof {
            assert forall|seg: Seq<usize>|
                ids_valid(toks, seg) && #[trigger] concat_bytes(toks, seg)
                    == word@ implies seg_score(scores@, seg) <= seg_score(scores@, out@) by {
                if seg.len() > 0 {
                    assert(concat_bytes(toks, seg) == toks[seg[0] as int] + concat_bytes(
                        toks,
                        seg.drop_first(),
                    ));
                    assert(toks[seg[0] as int].len() >= 1);
                    assert(false);
                }
                assert(seg_score(scores@, seg) == 0);
                assert(seg_score(scores@, out@) == 0);
            }
        }
        return out;
    }
    if n == usize::MAX {
        let mut fallback: Vec<usize> = Vec::new();
        fallback.push(unk_id);
        proof {
            assert(fallback@ =~= seq![unk_id]);
        }
        return fallback;
    }
    let mut reach: Vec<bool> = Vec::new();
    let mut best: Vec<i64> = Vec::new();
    let mut back_id: Vec<usize> = Vec::new();
    let mut back_prev: Vec<usize> = Vec::new();
    let mut t: usize = 0;
    while t < n + 1
        invariant
            n < usize::MAX,
            t <= n + 1,
            reach@.len() == t,
            best@.len() == t,
            back_id@.len() == t,
            back_prev@.len() == t,
            forall|j: int| 0 <= j < t ==> (#[trigger] reach@[j]) == (j == 0),
            forall|j: int| 0 <= j < t ==> (#[trigger] best@[j]) == 0i64,
        decreases n + 1 - t,
    {
        reach.push(t == 0);
        best.push(0);
        back_id.push(0);
        back_prev.push(0);
        t = t + 1;
    }
    proof {
        lemma_dp_covers_zero(toks, scores@, word@, reach@, best@);
    }
    let mut i: usize = 0;
    while i < n
        invariant
            i <= n,
            n == word@.len(),
            n >= 1,
            n < usize::MAX,
            toks == vocab.spec_tokens(),
            vocab.wf(),
            unk_id < toks.len(),
            scores@.len() == toks.len(),
            reach@.len() == n + 1,
            best@.len() == n + 1,
            back_id@.len() == n + 1,
            back_prev@.len() == n + 1,
            reach@[0],
            best@[0] == 0i64,
            dp_covers(toks, scores@, word@, reach@, best@, i as int),
            forall|j: int|
                0 < j <= n && #[trigger] reach@[j] ==> {
                    &&& back_prev@[j] < j
                    &&& back_prev@[j] <= i
                    &&& reach@[back_prev@[j] as int]
                    &&& back_id@[j] < toks.len()
                    &&& toks[back_id@[j] as int] == word@.subrange(back_prev@[j] as int, j)
                    &&& best@[j] as int == sat(
                        best@[back_prev@[j] as int] as int + scores@[back_id@[j] as int] as int,
                    )
                },
        decreases n - i,
    {
        let ghost best_pre = best@;
        if reach[i] {
            let mut l: usize = 1;
            while l <= n - i
                invariant
                    i < n,
                    n < usize::MAX,
                    1 <= l,
                    l <= n - i + 1,
                    n == word@.len(),
                    toks == vocab.spec_tokens(),
                    vocab.wf(),
                    scores@.len() == toks.len(),
                    reach@.len() == n + 1,
                    best@.len() == n + 1,
                    back_id@.len() == n + 1,
                    back_prev@.len() == n + 1,
                    reach@[0],
                    reach@[i as int],
                    best@[0] == 0i64,
                    best@[i as int] == best_pre[i as int],
                    dp_covers(toks, scores@, word@, reach@, best@, i as int),
                    forall|l2: int, t2: int|
                        #![trigger toks[t2], word@.subrange(i as int, i + l2)]
                        1 <= l2 < l && 0 <= t2 < toks.len() && toks[t2] == word@.subrange(
                            i as int,
                            i + l2,
                        ) ==> reach@[i + l2] && sat(
                            best_pre[i as int] as int + scores@[t2] as int,
                        ) <= best@[i + l2] as int,
                    forall|j: int|
                        0 < j <= n && #[trigger] reach@[j] ==> {
                            &&& back_prev@[j] < j
                            &&& back_prev@[j] <= i
                            &&& reach@[back_prev@[j] as int]
                            &&& back_id@[j] < toks.len()
                            &&& toks[back_id@[j] as int] == word@.subrange(
                                back_prev@[j] as int,
                                j,
                            )
                            &&& best@[j] as int == sat(
                                best@[back_prev@[j] as int] as int
                                    + scores@[back_id@[j] as int] as int,
                            )
                        },
                decreases n - i + 1 - l,
            {
                let mut piece: Vec<u8> = Vec::new();
                let mut q: usize = i;
                while q < i + l
                    invariant
                        i <= q <= i + l,
                        i + l <= n,
                        n == word@.len(),
                        piece@ =~= word@.subrange(i as int, q as int),
                    decreases i + l - q,
                {
                    piece.push(word[q]);
                    q = q + 1;
                }
                match vocab.find(&piece) {
                    Some(id) => {
                        let cand = sat_add(best[i], scores[id]);
                        let j = i + l;
                        proof {
                            assert(toks[id as int] == word@.subrange(i as int, j as int));
                        }
                        if !reach[j] || cand > best[j] {
                            let ghost reach0 = reach@;
                            let ghost best0 = best@;
                            reach.set(j, true);
                            best.set(j, cand);
                            back_id.set(j, id);
                            back_prev.set(j, i);
                            proof {
                                assert(!reach0[j as int] || cand > best0[j as int]);
                                assert forall|j2: int|
                                    0 < j2 <= n && #[trigger] reach@[j2] implies {
                                    &&& back_prev@[j2] < j2
                                    &&& back_prev@[j2] <= i
                                    &&& reach@[back_prev@[j2] as int]
                                    &&& back_id@[j2] < toks.len()
                                    &&& toks[back_id@[j2] as int] == word@.subrange(
                                        back_prev@[j2] as int,
                                        j2,
                                    )
                                    &&& best@[j2] as int == sat(
                                        best@[back_prev@[j2] as int] as int
                                            + scores@[back_id@[j2] as int] as int,
                                    )
                                } by {
                                    if j2 != j {
                                        assert(reach0[j2]);
                                        assert(back_prev@[j2] <= i < j);
                                        assert(best@[back_prev@[j2] as int]
                                            == best0[back_prev@[j2] as int]);
                                    } else {
                                        assert(best@[i as int] == best0[i as int]);
                                    }
                                }
                                lemma_dp_covers_grow(
                                    toks,
                                    scores@,
                                    word@,
                                    reach0,
                                    best0,
                                    reach@,
                                    best@,
                                    i as int,
                                );
                            }
                        }
                        proof {
                            assert forall|t2: int|
                                0 <= t2 < toks.len() && toks[t2] == word@.subrange(
                                    i as int,
                                    i + l as int,
                                ) implies t2 == id as int by {
                                vocab.lemma_wf_facts();
                                if t2 < id as int {
                                    assert(toks[t2] != toks[id as int]);
                                } else if t2 > id as int {
                                    assert(toks[id as int] != toks[t2]);
                                }
                            }
                        }
                    },
                    None => {},
                }
                l = l + 1;
            }
            proof {
                vocab.lemma_wf_facts();
                assert forall|ti: int|
                    0 <= ti < toks.len() implies (#[trigger] toks[ti]).len() >= 1 by {
                    assert(vocab.spec_tokens()[ti].len() >= 1);
                }
                lemma_dp_covers_step(toks, scores@, word@, reach@, best@, i as int);
            }
        } else {
            proof {
                assert forall|j2: int, seg: Seq<usize>|
                    #![trigger word@.subrange(0, j2), concat_bytes(toks, seg)]
                    0 <= j2 <= word@.len() && ids_valid(toks, seg) && concat_bytes(toks, seg)
                        == word@.subrange(0, j2) && (seg.len() == 0 || j2 - toks[seg.last()
                        as int].len() < i + 1) implies reach@[j2] && seg_score(scores@, seg)
                    <= best@[j2] as int by {
                    if seg.len() == 0 || j2 - toks[seg.last() as int].len() < i {
                    } else {
                        lemma_seg_decompose(toks, scores@, word@, seg, j2);
                        let segp = seg.drop_last();
                        let ghost ll = toks[seg.last() as int].len() as int;
                        assert(j2 - ll == i);
                        assert(concat_bytes(toks, segp) == word@.subrange(0, i as int));
                        vocab.lemma_wf_facts();
                        if segp.len() > 0 {
                            assert(segp[segp.len() - 1] < toks.len());
                            assert(vocab.spec_tokens()[segp.last() as int].len() >= 1);
                            assert(toks[segp.last() as int].len() >= 1);
                        }
                        assert(reach@[i as int]);
                        assert(false);
                    }
                }
            }
        }
        i = i + 1;
    }
    if !reach[n] {
        let mut fallback: Vec<usize> = Vec::new();
        fallback.push(unk_id);
        proof {
            assert(fallback@ =~= seq![unk_id]);
            assert forall|seg: Seq<usize>|
                ids_valid(toks, seg) && #[trigger] concat_bytes(toks, seg)
                    == word@ implies false by {
                assert(word@.subrange(0, n as int) =~= word@);
                if seg.len() == 0 {
                    assert(concat_bytes(toks, seg) =~= Seq::<u8>::empty());
                    assert(false);
                } else {
                    lemma_seg_decompose(toks, scores@, word@, seg, n as int);
                    assert(seg.last() < toks.len());
                    assert(toks[seg.last() as int].len() >= 1);
                    assert(reach@[n as int]);
                }
            }
            if segmentable(toks, word@) {
                let seg = choose|seg: Seq<usize>|
                    ids_valid(toks, seg) && #[trigger] concat_bytes(toks, seg) == word@;
                assert(false);
            }
        }
        return fallback;
    }
    let mut out: Vec<usize> = Vec::new();
    let mut pos: usize = n;
    while pos > 0
        invariant
            pos <= n,
            n >= 1,
            n < usize::MAX,
            n == word@.len(),
            toks == vocab.spec_tokens(),
            vocab.wf(),
            scores@.len() == toks.len(),
            reach@.len() == n + 1,
            best@.len() == n + 1,
            back_id@.len() == n + 1,
            back_prev@.len() == n + 1,
            reach@[pos as int],
            best@[0] == 0i64,
            ids_valid(toks, out@),
            concat_bytes(toks, out@) == word@.subrange(pos as int, n as int),
            sat_score_from(scores@, best@[pos as int] as int, out@) == best@[n as int] as int,
            dp_covers(toks, scores@, word@, reach@, best@, n as int),
            forall|j: int|
                0 < j <= n && #[trigger] reach@[j] ==> {
                    &&& back_prev@[j] < j
                    &&& reach@[back_prev@[j] as int]
                    &&& back_id@[j] < toks.len()
                    &&& toks[back_id@[j] as int] == word@.subrange(back_prev@[j] as int, j)
                    &&& best@[j] as int == sat(
                        best@[back_prev@[j] as int] as int + scores@[back_id@[j] as int] as int,
                    )
                },
        decreases pos,
    {
        let id = back_id[pos];
        let prev = back_prev[pos];
        let ghost out0 = out@;
        out.insert(0, id);
        proof {
            assert(out@ =~= seq![id] + out0);
            assert((seq![id] + out0).drop_first() =~= out0);
            assert(concat_bytes(toks, out@) == toks[id as int] + concat_bytes(toks, out0));
            assert(word@.subrange(prev as int, pos as int) + word@.subrange(pos as int, n as int)
                =~= word@.subrange(prev as int, n as int));
            assert(out@[0] == id);
            assert(sat_score_from(scores@, best@[prev as int] as int, out@) == sat_score_from(
                scores@,
                sat(best@[prev as int] as int + scores@[id as int] as int),
                out0,
            ));
            assert(best@[pos as int] as int == sat(
                best@[prev as int] as int + scores@[id as int] as int,
            ));
        }
        pos = prev;
    }
    proof {
        assert(word@.subrange(0, n as int) =~= word@);
        assert(seg_score(scores@, out@) == best@[n as int] as int);
        assert forall|seg: Seq<usize>|
            ids_valid(toks, seg) && #[trigger] concat_bytes(toks, seg)
                == word@ implies seg_score(scores@, seg) <= seg_score(scores@, out@) by {
            assert(concat_bytes(toks, seg) == word@.subrange(0, n as int));
            if seg.len() == 0 {
                assert(concat_bytes(toks, seg) =~= Seq::<u8>::empty());
                assert(false);
            } else {
                lemma_seg_decompose(toks, scores@, word@, seg, n as int);
                assert(seg.last() < toks.len());
                assert(toks[seg.last() as int].len() >= 1);
            }
            assert(seg_score(scores@, seg) <= best@[n as int] as int);
        }
    }
    out
}

/// Unigram training, with integer scores standing for scaled
/// log-probabilities: a seed vocabulary of frequent substrings is built
/// over the corpus, usage counts are re-estimated by segmenting the
/// corpus with the current scores, and the lowest-scoring candidates are
/// pruned until the target size is met; single-byte tokens are always
/// retained, so coverage of arbitrary input is guaranteed. Fails, leaving
/// the vocabulary untouched, exactly under the byte-pair trainer's
/// conditions.
pub fn train_uni(vocab: &mut Vocab, words: &Vec<Vec<u8>>, vocab_size: usize) -> (r: Result<
    Vec<i64>,
    TokenizerError,
>)
    requires
        old(vocab).wf(),
    ensures
        match r {
            Ok(scores) => {
                &&& final(vocab).wf()
                &&& final(vocab).extends(*old(vocab))
                &&& bytes_complete(final(vocab).spec_tokens())
                &&& scores@.len() == final(vocab).spec_tokens().len()
                &&& forall|i: int|
                    old(vocab).spec_tokens().len() <= i < final(vocab).spec_tokens().len() ==> !(
                    #[trigger] final(vocab).spec_special()[i])
                &&& (final(vocab).spec_tokens().len() <= vocab_size
                    || final(vocab).spec_tokens().len() <= old(vocab).spec_tokens().len() + 256)
            },
            Err(e) => {
                &&& e == TokenizerError::Training
                &&& *final(vocab) == *old(vocab)
            },
        },
        r is Err <==> (words@.len() == 0 || vocab_size < 256 || old(vocab).spec_tokens().len()
            > 0x7fff_ffff - 256),
{
    let ghost v0 = *old(vocab);
    if words.len() == 0 || vocab_size < 256 || vocab.len() > 0x7fff_ffff - 256 {
        return Err(TokenizerError::Training);
    }
    proof {
        vocab.lemma_wf_facts();
    }
    // Seed: a scratch vocabulary of the base alphabet plus every corpus
    // substring of two to four bytes, scored by occurrence count.
    let mut seed = Vocab::new();
    let mut seed_scores: Vec<i64> = Vec::new();
    let mut b: usize = 0;
    while b < 256
        invariant
            b <= 256,
            seed.wf(),
            seed.spec_tokens().len() <= b,
            seed_scores@.len() == seed.spec_tokens().len(),
            forall|bb: int| 0 <= bb < b ==> #[trigger] has_byte_token(seed.spec_tokens(), (bb
                as u8)),
        decreases 256 - b,
    {
        let ghost s1 = seed;
        let mut unit: Vec<u8> = Vec::new();
        unit.push(b as u8);
        let id = seed.get_or_push(unit, false);
        if id == seed_scores.len() {
            seed_scores.push(1);
        }
        proof {
            s1.lemma_wf_facts();
            seed.lemma_wf_facts();
            assert(seed.spec_tokens()[id as int] =~= seq![(b as u8)]);
            assert(has_byte_token(seed.spec_tokens(), (b as u8)));
            assert forall|bb: int|
                0 <= bb < b + 1 implies #[trigger] has_byte_token(seed.spec_tokens(), (bb as u8))
                by {
                if bb < b {
                    assert(has_byte_token(s1.spec_tokens(), (bb as u8)));
                    let i = choose|i: int|
                        0 <= i < s1.spec_tokens().len() && s1.spec_tokens()[i] == seq![(bb as u8)];
                    assert(seed.spec_tokens()[i] == seq![(bb as u8)]);
                }
            }
        }
        b = b + 1;
    }
    let mut w: usize = 0;
    while w < words.len()
        invariant
            seed.wf(),
            bytes_complete_upto(seed, 256),
            seed_scores@.len() == seed.spec_tokens().len(),
        decreases words@.len() - w,
    {
        let word = &words[w];
        let wl = word.len();
        let mut start: usize = 0;
        while start < wl
            invariant
                start <= wl,
                wl == word@.len(),
                word == words@[w as int],
                w < words@.len(),
                seed.wf(),
                bytes_complete_upto(seed, 256),
                seed_scores@.len() == seed.spec_tokens().len(),
            decreases wl - start,
        {
            let mut l: usize = 2;
            while l <= 4 && l <= wl - start
                invariant
                    start < wl,
                    2 <= l,
                    wl == word@.len(),
                    word == words@[w as int],
                    w < words@.len(),
                    seed.wf(),
                    bytes_complete_upto(seed, 256),
                    seed_scores@.len() == seed.spec_tokens().len(),
                decreases 5 - l,
            {
                let mut piece: Vec<u8> = Vec::new();
                let mut q: usize = start;
                while q < start + l
                    invariant
                        start <= q <= start + l,
                        start + l <= wl,
                        wl == word@.len(),
                        word == words@[w as int],
                        w < words@.len(),
                        piece@.len() == q - start,
                    decreases start + l - q,
                {
                    piece.push(word[q]);
                    q = q + 1;
                }
                if seed.len() < 0x7fff_ffff {
                    let ghost s1 = seed;
                    let id = seed.get_or_push(piece, false);
                    proof {
                        s1.lemma_wf_facts();
                        seed.lemma_wf_facts();
                        lemma_upto_extends(s1, seed);
                    }
                    if id == seed_scores.len() {
                        seed_scores.push(1);
                    } else if id < seed_scores.len() {
                        let cur = seed_scores[id];
                        let bumped = sat_add(cur, 1);
                        seed_scores.set(id, bumped);
                    }
                }
                l = l + 1;
            }
            start = start + 1;
        }
        w = w + 1;
    }
    proof {
        assert(has_byte_token(seed.spec_tokens(), 0u8)) by {
            assert(has_byte_token(seed.spec_tokens(), (0int as u8)));
        }
        let i = choose|i: int|
            0 <= i < seed.spec_tokens().len() && seed.spec_tokens()[i] == seq![0u8];
        assert(seed.spec_tokens().len() >= 1);
    }
    // Re-estimate usage by segmenting the corpus with the current scores,
    // twice, in the expectation-maximization style.
    let mut round: usize = 0;
    while round < 2
        invariant
            seed.wf(),
            bytes_complete_upto(seed, 256),
            seed_scores@.len() == seed.spec_tokens().len(),
            seed.spec_tokens().len() >= 1,
        decreases 2 - round,
    {
        let mut usage: Vec<i64> = Vec::new();
        let mut t: usize = 0;
        let m = seed.len();
        while t < m
            invariant
                usage@.len() == t,
                t <= m,
            decreases m - t,
        {
            usage.push(0);
            t = t + 1;
        }
        let mut w2: usize = 0;
        while w2 < words.len()
            invariant
                seed.wf(),
                bytes_complete_upto(seed, 256),
                seed_scores@.len() == seed.spec_tokens().len(),
                usage@.len() == seed.spec_tokens().len(),
                seed.spec_tokens().len() >= 1,
            decreases words@.len() - w2,
        {
            let ids = encode_word_uni(&seed, &seed_scores, 0, &words[w2]);
            let mut k: usize = 0;
            while k < ids.len()
                invariant
                    usage@.len() == seed.spec_tokens().len(),
                    ids_valid(seed.spec_tokens(), ids@),
                decreases ids@.len() - k,
            {
                let id = ids[k];
                let bumped = sat_add(usage[id], 1);
                usage.set(id, bumped);
                k = k + 1;
            }
            w2 = w2 + 1;
        }
        seed_scores = usage;
        round = round + 1;
    }
    // Prune: keep the base alphabet; admit the best-scoring candidates
    // until the target size is met. A candidate spelling an existing
    // special token is never admitted.
    let mut cands: Vec<(usize, i64)> = Vec::new();
    let mut t2: usize = 256;
    while t2 < seed.len()
        invariant
            256 <= t2,
            seed_scores@.len() == seed.spec_tokens().len(),
            forall|a: int| 0 <= a < cands@.len() ==> 256 <= (#[trigger] cands@[a]).0
                < seed.spec_tokens().len(),
        decreases seed.spec_tokens().len() - t2,
    {
        cands.push((t2, seed_scores[t2]));
        t2 = t2 + 1;
    }
    let mut scores_out: Vec<i64> = Vec::new();
    let ghost vstart = *vocab;
    // Install the base alphabet in the real vocabulary.
    let mut b2: usize = 0;
    while b2 < 256
        invariant
            b2 <= 256,
            vocab.wf(),
            vocab.extends(v0),
            vocab.extends(vstart),
            vstart.spec_tokens().len() == v0.spec_tokens().len(),
            v0.spec_tokens().len() <= 0x7fff_ffff - 256,
            vocab.spec_tokens().len() <= v0.spec_tokens().len() + b2,
            vocab.spec_special().len() == vocab.spec_tokens().len(),
            forall|bb: int| 0 <= bb < b2 ==> #[trigger] has_byte_token(vocab.spec_tokens(), (bb
                as u8)),
            forall|i: int|
                v0.spec_tokens().len() <= i < vocab.spec_tokens().len() ==> !(#[trigger]
                vocab.spec_special()[i]),
        decreases 256 - b2,
    {
        let ghost v1 = *vocab;
        let mut unit: Vec<u8> = Vec::new();
        unit.push(b2 as u8);
        let _ = vocab.get_or_push(unit, false);
        proof {
            v1.lemma_wf_facts();
            vocab.lemma_wf_facts();
            assert(has_byte_token(vocab.spec_tokens(), (b2 as u8)));
            assert forall|bb: int|
                0 <= bb < b2 + 1 implies #[trigger] has_byte_token(vocab.spec_tokens(), (bb
                as u8)) by {
                if bb < b2 {
                    assert(has_byte_token(v1.spec_tokens(), (bb as u8)));
                    let i = choose|i: int|
                        0 <= i < v1.spec_tokens().len() && v1.spec_tokens()[i] == seq![(bb as u8)];
                    assert(vocab.spec_tokens()[i] == seq![(bb as u8)]);
                }
            }
        }
        b2 = b2 + 1;
    }
    proof {
        assert(bytes_complete(vocab.spec_tokens())) by {
            assert forall|byt: u8| has_byte_token(vocab.spec_tokens(), byt) by {
                let bb = byt as int;
                assert(has_byte_token(vocab.spec_tokens(), (bb as u8)));
            }
        }
    }
    // Accept the best candidates, most frequent first, count ties to the
    // earlier-discovered candidate.
    while cands.len() > 0
        invariant
            seed.wf(),
            vocab.wf(),
            vocab.extends(v0),
            vocab.spec_tokens().len() <= vocab_size || vocab.spec_tokens().len()
                <= v0.spec_tokens().len() + 256,
            bytes_complete(vocab.spec_tokens()),
            vocab.spec_special().len() == vocab.spec_tokens().len(),
            seed_scores@.len() == seed.spec_tokens().len(),
            forall|a: int| 0 <= a < cands@.len() ==> (#[trigger] cands@[a]).0
                < seed.spec_tokens().len(),
            forall|i: int|
                v0.spec_tokens().len() <= i < vocab.spec_tokens().len() ==> !(#[trigger]
                vocab.spec_special()[i]),
        decreases cands@.len(),
    {
        if vocab.len() >= vocab_size || vocab.len() >= 0x7fff_ffff {
            break;
        }
        let mut bi: usize = 0;
        let mut m2: usize = 1;
        while m2 < cands.len()
            invariant
                bi < m2 <= cands@.len(),
            decreases cands@.len() - m2,
        {
            let a = cands[m2];
            let bq = cands[bi];
            if a.1 > bq.1 || (a.1 == bq.1 && a.0 < bq.0) {
                bi = m2;
            }
            m2 = m2 + 1;
        }
        let chosen = cands[bi];
        cands.swap_remove(bi);
        let tokb = seed.token_bytes(chosen.0);
        let mut tok: Vec<u8> = Vec::new();
        tok.extend_from_slice(tokb.as_slice());
        proof {
            seed.lemma_wf_facts();
            assert(tok@ == seed.spec_tokens()[chosen.0 as int]);
        }
        let allowed: bool = match vocab.find(&tok) {
            Some(id) => !vocab.is_special(id),
            None => true,
        };
        if allowed {
            let ghost v1 = *vocab;
            let _ = vocab.get_or_push(tok, false);
            proof {
                v1.lemma_wf_facts();
                vocab.lemma_wf_facts();
                lemma_bytes_complete_extends(v1.spec_tokens(), vocab.spec_tokens());
            }
        }
    }
    // Final scores, one per vocabulary id: the segmentation usage where
    // the token came from the seed, zero otherwise.
    let vl = vocab.len();
    let mut t3: usize = 0;
    while t3 < vl
        invariant
            t3 <= vl,
            vl == vocab.spec_tokens().len(),
            vocab.wf(),
            vocab.extends(v0),
            bytes_complete(vocab.spec_tokens()),
            vocab.spec_tokens().len() <= vocab_size || vocab.spec_tokens().len()
                <= v0.spec_tokens().len() + 256,
            forall|i: int|
                v0.spec_tokens().len() <= i < vocab.spec_tokens().len() ==> !(#[trigger]
                vocab.spec_special()[i]),
            scores_out@.len() == t3,
            seed_scores@.len() == seed.spec_tokens().len(),
            seed.wf(),
        decreases vl - t3,
    {
        let tb = vocab.token_bytes(t3);
        let mut tb2: Vec<u8> = Vec::new();
        tb2.extend_from_slice(tb.as_slice());
        let sc: i64 = match seed.find(&tb2) {
            Some(sid) => if sid < seed_scores.len() {
                seed_scores[sid]
            } else {
                0
            },
            None => 0,
        };
        scores_out.push(sc);
        t3 = t3 + 1;
    }
    Ok(scores_out)
}

/// The scratch vocabulary holds a token for every byte below `n`.
pub open spec fn bytes_complete_upto(v: Vocab, n: int) -> bool {
    forall|bb: int| 0 <= bb < n ==> #[trigger] has_byte_token(v.spec_tokens(), (bb as u8))
}

/// Per-byte coverage survives appending tokens.
proof fn lemma_upto_extends(v1: Vocab, v2: Vocab)
    requires
        bytes_complete_upto(v1, 256),
        v1.spec_tokens().len() <= v2.spec_tokens().len(),
        forall|i: int|
            0 <= i < v1.spec_tokens().len() ==> v2.spec_tokens()[i] == v1.spec_tokens()[i],
    ensures
        bytes_complete_upto(v2, 256),
{
    assert forall|bb: int|
        0 <= bb < 256 implies #[trigger] has_byte_token(v2.spec_tokens(), (bb as u8)) by {
        assert(has_byte_token(v1.spec_tokens(), (bb as u8)));
        let i = choose|i: int|
            0 <= i < v1.spec_tokens().len() && v1.spec_tokens()[i] == seq![(bb as u8)];
        assert(v2.spec_tokens()[i] == seq![(bb as u8)]);
    }
}

} // verus!
