use vstd::prelude::*;
use vstd::pervasive::VecAdditionalExecFns;

use crate::errors::TokenizerError;
use crate::vocab::Vocab;
use crate::vocab::bytes_covered;
use crate::vocab::bytes_complete;
use crate::vocab::concat_bytes;
use crate::vocab::has_byte_token;
use crate::vocab::ids_valid;
use crate::vocab::lemma_bytes_complete_extends;
use crate::vocab::lemma_concat_bytes_push;

verus! {

/// One merge rule: the tokens `left` and `right`, when adjacent, fuse into
/// the token `result`. Rules are totally ordered by discovery rank; the
/// rank is the rule's position in the rule list.
#[derive(Clone, Copy, Debug, PartialEq, Eq, Structural)]
pub struct MergeRule {
    pub left: usize,
    pub right: usize,
    pub result: usize,
}

/// A merge rule is consistent with a vocabulary: its three ids are valid
/// and the result token spells the two parts' bytes, in order.
pub open spec fn rule_wf(toks: Seq<Seq<u8>>, r: MergeRule) -> bool {
    &&& r.left < toks.len()
    &&& r.right < toks.len()
    &&& r.result < toks.len()
    &&& toks[r.result as int] == toks[r.left as int] + toks[r.right as int]
}

/// Some rule in the list produces `id`.
pub open spec fn is_rule_result(rules: Seq<MergeRule>, id: usize) -> bool {
    exists|j: int| 0 <= j < rules.len() && (#[trigger] rules[j]).result == id
}

/// One rule applied across an id sequence, left to right: every adjacent
/// occurrence of (left, right) fuses into the result.
pub open spec fn spec_apply_rule(rule: MergeRule, ids: Seq<usize>) -> Seq<usize>
    decreases ids.len(),
{
    if ids.len() == 0 {
        Seq::empty()
    } else if ids.len() >= 2 && ids[0] == rule.left && ids[1] == rule.right {
        seq![rule.result] + spec_apply_rule(rule, ids.skip(2))
    } else {
        seq![ids[0]] + spec_apply_rule(rule, ids.skip(1))
    }
}

/// The rules applied in rank order, lowest rank first.
pub open spec fn spec_apply_rules(rules: Seq<MergeRule>, ids: Seq<usize>) -> Seq<usize>
    decreases rules.len(),
{
    if rules.len() == 0 {
        ids
    } else {
        spec_apply_rules(rules.drop_first(), spec_apply_rule(rules[0], ids))
    }
}

/// The base unit mapping: each byte stands for its single-byte token,
/// or the unknown id where the vocabulary lacks one.
pub open spec fn spec_base_ids(toks: Seq<Seq<u8>>, unk_id: usize, w: Seq<u8>) -> Seq<usize> {
    Seq::new(
        w.len(),
        |j: int|
            if has_byte_token(toks, w[j]) {
                crate::tokenizer::token_index(toks, seq![w[j]])
            } else {
                unk_id
            },
    )
}

/// Applies one merge rule across an id sequence, left to right: every
/// adjacent occurrence of (left, right) becomes the result id. The bytes
/// the sequence spells are unchanged, and every output id is either one of
/// the input ids or the rule's result.
fn apply_rule(ids: &Vec<usize>, rule: &MergeRule, Ghost(toks): Ghost<Seq<Seq<u8>>>) -> (out: Vec<
    usize>)
    requires
        rule_wf(toks, *rule),
        ids_valid(toks, ids@),
    ensures
        ids_valid(toks, out@),
        concat_bytes(toks, out@) == concat_bytes(toks, ids@),
        forall|k: int| 0 <= k < out@.len() ==> ids@.contains(#[trigger] out@[k]) || out@[k]
            == rule.result,
        out@.len() <= ids@.len(),
        out@ == spec_apply_rule(*rule, ids@),
{
    let n = ids.len();
    let mut out: Vec<usize> = Vec::new();
    let mut i: usize = 0;
    proof {
        assert(ids@.skip(0) =~= ids@);
    }
    while i < n
        invariant
            i <= n,
            n == ids@.len(),
            rule_wf(toks, *rule),
            ids_valid(toks, ids@),
            ids_valid(toks, out@),
            concat_bytes(toks, out@) == concat_bytes(toks, ids@.take(i as int)),
            forall|k: int| 0 <= k < out@.len() ==> ids@.contains(#[trigger] out@[k]) || out@[k]
                == rule.result,
            out@.len() <= i,
            out@ + spec_apply_rule(*rule, ids@.skip(i as int)) == spec_apply_rule(*rule, ids@),
        decreases n - i,
    {
        let ghost out0 = out@;
        if i + 1 < n && ids[i] == rule.left && ids[i + 1] == rule.right {
            out.push(rule.result);
            proof {
                lemma_concat_bytes_push(toks, out0, rule.result);
                assert(ids@.take(i as int + 2) =~= ids@.take(i as int).push(ids@[i as int]).push(
                    ids@[i as int + 1],
                ));
                lemma_concat_bytes_push(toks, ids@.take(i as int).push(ids@[i as int]), ids@[i
                    as int + 1]);
                lemma_concat_bytes_push(toks, ids@.take(i as int), ids@[i as int]);
                assert(concat_bytes(toks, out@) =~= concat_bytes(toks, ids@.take(i as int + 2)));
                assert(ids@.skip(i as int)[0] == ids@[i as int]);
                assert(ids@.skip(i as int)[1] == ids@[i as int + 1]);
                assert(ids@.skip(i as int).skip(2) =~= ids@.skip(i as int + 2));
                assert(out@ + spec_apply_rule(*rule, ids@.skip(i as int + 2)) =~= out0 + (seq![
                    rule.result,
                ] + spec_apply_rule(*rule, ids@.skip(i as int + 2))));
                assert(out@ + spec_apply_rule(*rule, ids@.skip(i as int + 2)) == spec_apply_rule(
                    *rule,
                    ids@,
                ));
            }
            i = i + 2;
        } else {
            out.push(ids[i]);
            proof {
                lemma_concat_bytes_push(toks, out0, ids@[i as int]);
                assert(ids@.take(i as int + 1) =~= ids@.take(i as int).push(ids@[i as int]));
                lemma_concat_bytes_push(toks, ids@.take(i as int), ids@[i as int]);
                assert(ids@.skip(i as int)[0] == ids@[i as int]);
                if i + 1 < n {
                    assert(ids@.skip(i as int)[1] == ids@[i as int + 1]);
                }
                assert(ids@.skip(i as int).skip(1) =~= ids@.skip(i as int + 1));
                assert(out@ + spec_apply_rule(*rule, ids@.skip(i as int + 1)) =~= out0 + (seq![
                    ids@[i as int],
                ] + spec_apply_rule(*rule, ids@.skip(i as int + 1))));
                assert(out@ + spec_apply_rule(*rule, ids@.skip(i as int + 1)) == spec_apply_rule(
                    *rule,
                    ids@,
                ));
            }
            i = i + 1;
        }
    }
    proof {
        assert(ids@.take(n as int) =~= ids@);
        assert(ids@.skip(n as int) =~= Seq::<usize>::empty());
        assert(spec_apply_rule(*rule, Seq::<usize>::empty()) =~= Seq::<usize>::empty());
        assert(out@ =~= out@ + spec_apply_rule(*rule, ids@.skip(n as int)));
    }
    out
}

/// Byte-level BPE encoding of one pre-token's bytes: the word is split
/// into single-byte units (an uncovered byte degrades to the unknown id,
/// never an error), then the merge rules are applied in rank order. When
/// the vocabulary covers every byte of the word, the output ids spell
/// exactly the word's bytes, and each output id is a single-byte token or
/// a merge result — in particular, never the unknown fallback.
pub fn encode_word(vocab: &Vocab, rules: &Vec<MergeRule>, unk_id: usize, word: &Vec<u8>) -> (ids:
    Vec<usize>)
    requires
        vocab.wf(),
        unk_id < vocab.spec_tokens().len(),
        forall|j: int| 0 <= j < rules@.len() ==> rule_wf(vocab.spec_tokens(), #[trigger] rules@[j]),
    ensures
        ids_valid(vocab.spec_tokens(), ids@),
        bytes_covered(vocab.spec_tokens(), word@) ==> concat_bytes(vocab.spec_tokens(), ids@)
            == word@,
        bytes_covered(vocab.spec_tokens(), word@) ==> forall|k: int|
            0 <= k < ids@.len() ==> vocab.spec_tokens()[(#[trigger] ids@[k]) as int].len() == 1
                || is_rule_result(rules@, ids@[k]),
        ids@ == spec_apply_rules(rules@, spec_base_ids(vocab.spec_tokens(), unk_id, word@)),
{
    let ghost toks = vocab.spec_tokens();
    let ghost base = spec_base_ids(toks, unk_id, word@);
    let n = word.len();
    let mut cur: Vec<usize> = Vec::new();
    let mut j: usize = 0;
    while j < n
        invariant
            j <= n,
            n == word@.len(),
            toks == vocab.spec_tokens(),
            base == spec_base_ids(toks, unk_id, word@),
            vocab.wf(),
            unk_id < toks.len(),
            ids_valid(toks, cur@),
            cur@.len() == j,
            forall|k: int| 0 <= k < j ==> cur@[k] == base[k],
            bytes_covered(toks, word@) ==> concat_bytes(toks, cur@) == word@.take(j as int),
            bytes_covered(toks, word@) ==> forall|k: int|
                0 <= k < cur@.len() ==> toks[(#[trigger] cur@[k]) as int].len() == 1,
        decreases n - j,
    {
        let mut unit: Vec<u8> = Vec::new();
        unit.push(word[j]);
        let ghost cur0 = cur@;
        match vocab.find(&unit) {
            Some(id) => {
                cur.push(id);
                proof {
                    lemma_concat_bytes_push(toks, cur0, id);
                    assert(unit@ =~= seq![word@[j as int]]);
                    if bytes_covered(toks, word@) {
                        assert(word@.take(j as int + 1) =~= word@.take(j as int) + seq![word@[j
                            as int]]);
                    }
                    assert(cur@[j as int] == base[j as int]) by {
                        assert(id < toks.len() && toks[id as int] == seq![word@[j as int]]);
                        assert(has_byte_token(toks, word@[j as int]));
                        let ti = crate::tokenizer::token_index(toks, seq![word@[j as int]]);
                        assert(ti < toks.len() && toks[ti as int] == seq![word@[j as int]]);
                        vocab.lemma_wf_facts();
                        if (ti as int) < (id as int) {
                            assert(toks[ti as int] != toks[id as int]);
                        } else if (ti as int) > (id as int) {
                            assert(toks[id as int] != toks[ti as int]);
                        }
                    }
                }
            },
            None => {
                cur.push(unk_id);
                proof {
                    assert(unit@ =~= seq![word@[j as int]]);
                    assert(!has_byte_token(toks, word@[j as int])) by {
                        if has_byte_token(toks, word@[j as int]) {
                            let i = choose|i: int|
                                0 <= i < toks.len() && toks[i] == seq![word@[j as int]];
                            assert(toks[i] == unit@);
                            assert(false);
                        }
                    }
                    assert(cur@[j as int] == base[j as int]);
                    if bytes_covered(toks, word@) {
                        assert(has_byte_token(toks, word@[j as int]));
                        assert(false);
                    }
                }
            },
        }
        j = j + 1;
    }
    proof {
        assert(word@.take(n as int) =~= word@);
        assert(cur@ =~= base);
        assert(rules@.skip(0) =~= rules@);
    }
    let mut r: usize = 0;
    while r < rules.len()
        invariant
            r <= rules@.len(),
            toks == vocab.spec_tokens(),
            base == spec_base_ids(toks, unk_id, word@),
            vocab.wf(),
            forall|j2: int| 0 <= j2 < rules@.len() ==> rule_wf(toks, #[trigger] rules@[j2]),
            ids_valid(toks, cur@),
            spec_apply_rules(rules@.skip(r as int), cur@) == spec_apply_rules(rules@, base),
            bytes_covered(toks, word@) ==> concat_bytes(toks, cur@) == word@,
            bytes_covered(toks, word@) ==> forall|k: int|
                0 <= k < cur@.len() ==> toks[(#[trigger] cur@[k]) as int].len() == 1
                    || is_rule_result(rules@, cur@[k]),
        decreases rules@.len() - r,
    {
        let ghost cur0 = cur@;
        let next = apply_rule(&cur, &rules[r], Ghost(toks));
        proof {
            assert(rules@.skip(r as int)[0] == rules@[r as int]);
            assert(rules@.skip(r as int).drop_first() =~= rules@.skip(r as int + 1));
            assert(spec_apply_rules(rules@.skip(r as int), cur0) == spec_apply_rules(
                rules@.skip(r as int + 1),
                spec_apply_rule(rules@[r as int], cur0),
            ));
            if bytes_covered(toks, word@) {
                assert forall|k: int|
                    0 <= k < next@.len() implies toks[(#[trigger] next@[k]) as int].len() == 1
                    || is_rule_result(rules@, next@[k]) by {
                    if next@[k] == rules@[r as int].result {
                        assert(is_rule_result(rules@, next@[k]));
                    } else {
                        assert(cur0.contains(next@[k]));
                        let m = choose|m: int| 0 <= m < cur0.len() && cur0[m] == next@[k];
                        assert(toks[cur0[m] as int].len() == 1 || is_rule_result(rules@, cur0[m]));
                    }
                }
            }
        }
        cur = next;
        r = r + 1;
    }
    proof {
        assert(rules@.skip(rules@.len() as int) =~= Seq::<MergeRule>::empty());
        assert(spec_apply_rules(Seq::<MergeRule>::empty(), cur@) == cur@);
    }
    cur
}

/// `p` beats `q` in merge selection: a strictly greater count, or an equal
/// count and a lexicographically smaller pair. This is a strict total
/// order on entries with distinct pairs, so selection is deterministic.
pub open spec fn beats(p: (usize, usize, usize), q: (usize, usize, usize)) -> bool {
    ||| p.2 > q.2
    ||| (p.2 == q.2 && (p.0 < q.0 || (p.0 == q.0 && p.1 < q.1)))
}

fn beats_exec(p: (usize, usize, usize), q: (usize, usize, usize)) -> (r: bool)
    ensures
        r == beats(p, q),
{
    p.2 > q.2 || (p.2 == q.2 && (p.0 < q.0 || (p.0 == q.0 && p.1 < q.1)))
}

/// Merge selection cannot resolve a tie two ways: two entries that each
/// beat every other entry are the same entry. Training is therefore
/// deterministic: the most frequent pair wins, and an exact count tie goes
/// to the lexicographically smaller pair.
pub proof fn lemma_selection_unique(counts: Seq<(usize, usize, usize)>, a: int, b: int)
    requires
        0 <= a < counts.len(),
        0 <= b < counts.len(),
        forall|m: int| 0 <= m < counts.len() && m != a ==> beats(counts[a], #[trigger] counts[m]),
        forall|m: int| 0 <= m < counts.len() && m != b ==> beats(counts[b], #[trigger] counts[m]),
    ensures
        a == b,
{
    if a != b {
        assert(beats(counts[a], counts[b]));
        assert(beats(counts[b], counts[a]));
    }
}

/// Picks the winning pair: the entry that beats every other entry.
/// Requires distinct pairs so that the comparison is strict.
fn select_best(counts: &Vec<(usize, usize, usize)>) -> (idx: usize)
    requires
        counts@.len() >= 1,
        forall|a: int, b: int|
            0 <= a < b < counts@.len() ==> ((#[trigger] counts@[a]).0, counts@[a].1) != ((
            #[trigger] counts@[b]).0, counts@[b].1),
    ensures
        idx < counts@.len(),
        forall|m: int| 0 <= m < counts@.len() && m != idx ==> beats(counts@[idx as int], #[trigger]
            counts@[m]),
{
    let mut idx: usize = 0;
    let mut m: usize = 1;
    while m < counts.len()
        invariant
            idx < m <= counts@.len(),
            forall|a: int, b: int|
                0 <= a < b < counts@.len() ==> ((#[trigger] counts@[a]).0, counts@[a].1) != ((
                #[trigger] counts@[b]).0, counts@[b].1),
            forall|k: int| 0 <= k < m && k != idx ==> beats(counts@[idx as int], #[trigger]
                counts@[k]),
        decreases counts@.len() - m,
    {
        if beats_exec(counts[m], counts[idx]) {
            proof {
                assert forall|k: int| 0 <= k < m + 1 && k != m implies beats(counts@[m as int],
                    #[trigger] counts@[k]) by {
                    if k != idx {
                        assert(beats(counts@[idx as int], counts@[k]));
                    }
                }
            }
            idx = m;
        } else {
            proof {
                let a = counts@[idx as int];
                let bq = counts@[m as int];
                assert((a.0, a.1) != (bq.0, bq.1));
                assert(beats(a, bq));
            }
        }
        m = m + 1;
    }
    idx
}

/// Counts adjacent id pairs across the corpus representation. Each pair
/// appears once in the result, with both ids valid.
fn count_pairs(repr: &Vec<Vec<usize>>, ntoks: usize) -> (r: Vec<(usize, usize, usize)>)
    requires
        forall|w: int, k: int|
            0 <= w < repr@.len() && 0 <= k < (#[trigger] repr@[w])@.len() ==> (#[trigger]
                repr@[w]@[k]) < ntoks,
    ensures
        forall|a: int| 0 <= a < r@.len() ==> (#[trigger] r@[a]).0 < ntoks && r@[a].1 < ntoks,
        forall|a: int, b: int|
            0 <= a < b < r@.len() ==> ((#[trigger] r@[a]).0, r@[a].1) != ((#[trigger] r@[b]).0,
            r@[b].1),
{
    let mut counts: Vec<(usize, usize, usize)> = Vec::new();
    let mut w: usize = 0;
    while w < repr.len()
        invariant
            w <= repr@.len(),
            forall|w2: int, k: int|
                0 <= w2 < repr@.len() && 0 <= k < (#[trigger] repr@[w2])@.len() ==> (#[trigger]
                    repr@[w2]@[k]) < ntoks,
            forall|a: int| 0 <= a < counts@.len() ==> (#[trigger] counts@[a]).0 < ntoks
                && counts@[a].1 < ntoks,
            forall|a: int, b: int|
                0 <= a < b < counts@.len() ==> ((#[trigger] counts@[a]).0, counts@[a].1) != ((
                #[trigger] counts@[b]).0, counts@[b].1),
        decreases repr@.len() - w,
    {
        let word = &repr[w];
        let wl = word.len();
        let mut k: usize = 0;
        while wl > 0 && k < wl - 1
            invariant
                w < repr@.len(),
                word == repr@[w as int],
                wl == word@.len(),
                k <= wl,
                forall|w2: int, k2: int|
                    0 <= w2 < repr@.len() && 0 <= k2 < (#[trigger] repr@[w2])@.len() ==> (
                    #[trigger] repr@[w2]@[k2]) < ntoks,
                forall|a: int| 0 <= a < counts@.len() ==> (#[trigger] counts@[a]).0 < ntoks
                    && counts@[a].1 < ntoks,
                forall|a: int, b: int|
                    0 <= a < b < counts@.len() ==> ((#[trigger] counts@[a]).0, counts@[a].1) != ((
                    #[trigger] counts@[b]).0, counts@[b].1),
            decreases word@.len() - k,
        {
            let x = word[k];
            let y = word[k + 1];
            let mut found = false;
            let mut c: usize = 0;
            while c < counts.len()
                invariant
                    c <= counts@.len(),
                    !found ==> forall|a: int|
                        0 <= a < c ==> ((#[trigger] counts@[a]).0, counts@[a].1) != (x, y),
                    forall|a: int| 0 <= a < counts@.len() ==> (#[trigger] counts@[a]).0 < ntoks
                        && counts@[a].1 < ntoks,
                    forall|a: int, b: int|
                        0 <= a < b < counts@.len() ==> ((#[trigger] counts@[a]).0, counts@[a].1)
                            != ((#[trigger] counts@[b]).0, counts@[b].1),
                decreases counts@.len() - c,
            {
                if !found && counts[c].0 == x && counts[c].1 == y {
                    let entry = counts[c];
                    let bumped = if entry.2 < usize::MAX {
                        entry.2 + 1
                    } else {
                        entry.2
                    };
                    counts.set(c, (entry.0, entry.1, bumped));
                    proof {
                        assert forall|a: int, b: int|
                            0 <= a < b < counts@.len() implies ((#[trigger] counts@[a]).0,
                        counts@[a].1) != ((#[trigger] counts@[b]).0, counts@[b].1) by {}
                    }
                    found = true;
                }
                c = c + 1;
            }
            if !found {
                counts.push((x, y, 1));
            }
            k = k + 1;
        }
        w = w + 1;
    }
    counts
}

/// Picks the merge to record this round: the winning pair whose fused
/// bytes do not spell a special token (a special token is never produced
/// by statistical training). Losing candidates that would collide with a
/// special token are discarded and selection repeats; `None` means no
/// candidate is left.
fn select_pair(vocab: &Vocab, counts: Vec<(usize, usize, usize)>) -> (r: Option<(usize, usize, Vec<
    u8>)>)
    requires
        vocab.wf(),
        forall|a: int|
            0 <= a < counts@.len() ==> (#[trigger] counts@[a]).0 < vocab.spec_tokens().len()
                && counts@[a].1 < vocab.spec_tokens().len(),
        forall|a: int, b: int|
            0 <= a < b < counts@.len() ==> ((#[trigger] counts@[a]).0, counts@[a].1) != ((
            #[trigger] counts@[b]).0, counts@[b].1),
    ensures
        match r {
            Some(p) => {
                &&& p.0 < vocab.spec_tokens().len()
                &&& p.1 < vocab.spec_tokens().len()
                &&& p.2@ == vocab.spec_tokens()[p.0 as int] + vocab.spec_tokens()[p.1 as int]
                &&& p.2@.len() >= 1
                &&& forall|i: int|
                    0 <= i < vocab.spec_tokens().len() && vocab.spec_tokens()[i] == p.2@
                        ==> !(#[trigger] vocab.spec_special()[i])
            },
            None => true,
        },
{
    let mut cand = counts;
    while cand.len() > 0
        invariant
            vocab.wf(),
            forall|a: int|
                0 <= a < cand@.len() ==> (#[trigger] cand@[a]).0 < vocab.spec_tokens().len()
                    && cand@[a].1 < vocab.spec_tokens().len(),
            forall|a: int, b: int|
                0 <= a < b < cand@.len() ==> ((#[trigger] cand@[a]).0, cand@[a].1) != ((#[trigger]
                cand@[b]).0, cand@[b].1),
        decreases cand@.len(),
    {
        let idx = select_best(&cand);
        let e = cand[idx];
        let mut new_tok: Vec<u8> = Vec::new();
        new_tok.extend_from_slice(vocab.token_bytes(e.0).as_slice());
        new_tok.extend_from_slice(vocab.token_bytes(e.1).as_slice());
        proof {
            vocab.lemma_wf_facts();
            assert(new_tok@ =~= vocab.spec_tokens()[e.0 as int] + vocab.spec_tokens()[e.1 as int]);
        }
        let keep: bool = match vocab.find(&new_tok) {
            Some(id) => !vocab.is_special(id),
            None => true,
        };
        if keep {
            proof {
                vocab.lemma_wf_facts();
                assert forall|i: int|
                    0 <= i < vocab.spec_tokens().len() && vocab.spec_tokens()[i]
                        == new_tok@ implies !(#[trigger] vocab.spec_special()[i]) by {}
            }
            return Some((e.0, e.1, new_tok));
        }
        let ghost cand0 = cand@;
        cand.swap_remove(idx);
        proof {
            let len0 = cand0.len() as int;
            assert forall|a: int|
                0 <= a < cand@.len() implies (#[trigger] cand@[a]).0 < vocab.spec_tokens().len()
                && cand@[a].1 < vocab.spec_tokens().len() by {
                assert(cand@[a] == if a == idx { cand0[len0 - 1] } else { cand0[a] });
            }
            assert forall|a: int, b: int|
                0 <= a < b < cand@.len() implies ((#[trigger] cand@[a]).0, cand@[a].1) != ((
            #[trigger] cand@[b]).0, cand@[b].1) by {
                let fa: int = if a == idx { len0 - 1 } else { a };
                let fb: int = if b == idx { len0 - 1 } else { b };
                assert(cand@[a] == cand0[fa]);
                assert(cand@[b] == cand0[fb]);
                if fa < fb {
                    assert(((cand0[fa]).0, cand0[fa].1) != ((cand0[fb]).0, cand0[fb].1));
                } else {
                    assert(((cand0[fb]).0, cand0[fb].1) != ((cand0[fa]).0, cand0[fa].1));
                }
            }
        }
    }
    None
}

/// Trains byte-level BPE merge rules over the corpus words, growing the
/// vocabulary toward `vocab_size`.
///
/// The whole base alphabet (a token for every byte) is installed first, so
/// trained encoding covers arbitrary input. Each round counts all adjacent
/// symbol pairs across the corpus representation, fuses the most frequent
/// pair (count ties go to the lexicographically smaller pair, so training
/// is deterministic), records the merge with the next rank, and rewrites
/// the corpus; rounds stop when the vocabulary reaches `vocab_size` or no
/// candidate pair remains.
///
/// Fails, leaving the vocabulary untouched, exactly when the corpus has no
/// words, when `vocab_size` is smaller than the base alphabet, or when the
/// vocabulary cannot take the base alphabet without exhausting the id
/// space.
pub fn train_bpe(vocab: &mut Vocab, words: &Vec<Vec<u8>>, vocab_size: usize) -> (r: Result<
    Vec<MergeRule>,
    TokenizerError,
>)
    requires
        old(vocab).wf(),
    ensures
        match r {
            Ok(rules) => {
                &&& final(vocab).wf()
                &&& final(vocab).extends(*old(vocab))
                &&& bytes_complete(final(vocab).spec_tokens())
                &&& forall|j: int|
                    0 <= j < rules@.len() ==> rule_wf(final(vocab).spec_tokens(), #[trigger]
                    rules@[j])
                &&& forall|j: int|
                    0 <= j < rules@.len() ==> !final(vocab).spec_special()[(#[trigger]
                    rules@[j]).result as int]
                &&& forall|i: int|
                    old(vocab).spec_tokens().len() <= i < final(vocab).spec_tokens().len()
                        ==> !(#[trigger] final(vocab).spec_special()[i])
                &&& (final(vocab).spec_tokens().len() <= vocab_size
                    || final(vocab).spec_tokens().len() <= old(vocab).spec_tokens().len() + 256)
            },
            Err(e) => {
                &&& e == TokenizerError::Training
                &&& *final(vocab) == *old(vocab)
            },
        },
        r is Err <==> (words@.len() == 0 || vocab_size < 256 || old(vocab).spec_tokens().len()
            > 0x7fff_ffff - 256),
{
    let ghost v0 = *old(vocab);
    if words.len() == 0 || vocab_size < 256 || vocab.len() > 0x7fff_ffff - 256 {
        return Err(TokenizerError::Training);
    }
    proof {
        vocab.lemma_wf_facts();
    }
    let base_len = vocab.len();
    let mut b: usize = 0;
    while b < 256
        invariant
            b <= 256,
            vocab.wf(),
            vocab.extends(v0),
            base_len == v0.spec_tokens().len(),
            base_len <= 0x7fff_ffff - 256,
            vocab.spec_tokens().len() <= base_len + b,
            forall|bb: int| 0 <= bb < b ==> #[trigger] has_byte_token(vocab.spec_tokens(), (bb as u8)),
            vocab.spec_special().len() == vocab.spec_tokens().len(),
            forall|i: int|
                base_len <= i < vocab.spec_tokens().len() ==> !(#[trigger]
                vocab.spec_special()[i]),
        decreases 256 - b,
    {
        let ghost v1 = *vocab;
        let mut unit: Vec<u8> = Vec::new();
        unit.push(b as u8);
        let id = vocab.get_or_push(unit, false);
        proof {
            v1.lemma_wf_facts();
            vocab.lemma_wf_facts();
            assert(vocab.spec_tokens()[id as int] =~= seq![(b as u8)]);
            assert(has_byte_token(vocab.spec_tokens(), (b as u8)));
            assert forall|bb: int|
                0 <= bb < b + 1 implies #[trigger] has_byte_token(vocab.spec_tokens(), (bb as u8)) by {
                if bb < b {
                    assert(has_byte_token(v1.spec_tokens(), (bb as u8)));
                    let i = choose|i: int|
                        0 <= i < v1.spec_tokens().len() && v1.spec_tokens()[i] == seq![(bb as u8)];
                    assert(vocab.spec_tokens()[i] == seq![(bb as u8)]);
                }
            }
        }
        b = b + 1;
    }
    proof {
        assert(bytes_complete(vocab.spec_tokens())) by {
            assert forall|byt: u8| has_byte_token(vocab.spec_tokens(), byt) by {
                let bb = byt as int;
                assert(has_byte_token(vocab.spec_tokens(), (bb as u8)));
            }
        }
    }
    proof {
        assert(has_byte_token(vocab.spec_tokens(), 0u8));
        let i = choose|i: int|
            0 <= i < vocab.spec_tokens().len() && vocab.spec_tokens()[i] == seq![0u8];
        assert(vocab.spec_tokens().len() >= 1);
    }
    let empty_rules: Vec<MergeRule> = Vec::new();
    let mut repr: Vec<Vec<usize>> = Vec::new();
    let mut w: usize = 0;
    while w < words.len()
        invariant
            vocab.wf(),
            vocab.extends(v0),
            bytes_complete(vocab.spec_tokens()),
            vocab.spec_special().len() == vocab.spec_tokens().len(),
            v0.spec_tokens().len() <= 0x7fff_ffff - 256,
            forall|i: int|
                v0.spec_tokens().len() <= i < vocab.spec_tokens().len() ==> !(#[trigger]
                vocab.spec_special()[i]),
            vocab.spec_tokens().len() >= 1,
            vocab.spec_tokens().len() <= v0.spec_tokens().len() + 256,
            forall|w2: int, k: int|
                0 <= w2 < repr@.len() && 0 <= k < (#[trigger] repr@[w2])@.len() ==> (#[trigger]
                    repr@[w2]@[k]) < vocab.spec_tokens().len(),
            empty_rules@.len() == 0,
        decreases words@.len() - w,
    {
        let ids = encode_word(vocab, &empty_rules, 0, &words[w]);
        repr.push(ids);
        w = w + 1;
    }
    let mut rules: Vec<MergeRule> = Vec::new();
    let mut fuel = vocab_size;
    while fuel > 0
        invariant
            vocab.wf(),
            vocab.extends(v0),
            bytes_complete(vocab.spec_tokens()),
            vocab.spec_special().len() == vocab.spec_tokens().len(),
            forall|j: int|
                0 <= j < rules@.len() ==> rule_wf(vocab.spec_tokens(), #[trigger] rules@[j]),
            forall|j: int|
                0 <= j < rules@.len() ==> !vocab.spec_special()[(#[trigger] rules@[j]).result
                    as int],
            forall|i: int|
                v0.spec_tokens().len() <= i < vocab.spec_tokens().len() ==> !(#[trigger]
                vocab.spec_special()[i]),
            forall|w2: int, k: int|
                0 <= w2 < repr@.len() && 0 <= k < (#[trigger] repr@[w2])@.len() ==> (#[trigger]
                    repr@[w2]@[k]) < vocab.spec_tokens().len(),
            vocab.spec_tokens().len() <= vocab_size || vocab.spec_tokens().len()
                <= v0.spec_tokens().len() + 256,
        decreases fuel,
    {
        if vocab.len() >= vocab_size || vocab.len() >= 0x7fff_ffff {
            break;
        }
        let counts = count_pairs(&repr, vocab.len());
        let picked = select_pair(vocab, counts);
        match picked {
            None => {
                break;
            },
            Some(p) => {
                let ghost v1 = *vocab;
                let result = vocab.get_or_push(p.2, false);
                let rule = MergeRule { left: p.0, right: p.1, result };
                proof {
                    v1.lemma_wf_facts();
                    vocab.lemma_wf_facts();
                    assert(rule_wf(vocab.spec_tokens(), rule));
                    assert(!vocab.spec_special()[result as int]);
                    assert forall|j: int|
                        0 <= j < rules@.len() implies rule_wf(vocab.spec_tokens(), #[trigger]
                        rules@[j]) by {
                        assert(rule_wf(v1.spec_tokens(), rules@[j]));
                    }
                    lemma_bytes_complete_extends(v1.spec_tokens(), vocab.spec_tokens());
                }
                rules.push(rule);
                let mut new_repr: Vec<Vec<usize>> = Vec::new();
                let mut w2: usize = 0;
                while w2 < repr.len()
                    invariant
                        vocab.wf(),
                        rule_wf(vocab.spec_tokens(), rule),
                        forall|w3: int, k: int|
                            0 <= w3 < repr@.len() && 0 <= k < (#[trigger] repr@[w3])@.len() ==> (
                            #[trigger] repr@[w3]@[k]) < vocab.spec_tokens().len(),
                        forall|w3: int, k: int|
                            0 <= w3 < new_repr@.len() && 0 <= k < (#[trigger]
                            new_repr@[w3])@.len() ==> (#[trigger] new_repr@[w3]@[k])
                                < vocab.spec_tokens().len(),
                    decreases repr@.len() - w2,
                {
                    let merged = apply_rule(&repr[w2], &rule, Ghost(vocab.spec_tokens()));
                    new_repr.push(merged);
                    w2 = w2 + 1;
                }
                repr = new_repr;
            },
        }
        fuel = fuel - 1;
    }
    Ok(rules)
}

} // verus!
