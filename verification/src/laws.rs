use vstd::prelude::*;
use vstd::utf8::decode_utf8;
use vstd::utf8::encode_utf8;
use vstd::utf8::encode_utf8_decode_utf8;
use vstd::utf8::encode_utf8_valid_utf8;
use vstd::utf8::valid_utf8;

use crate::bpe::is_rule_result;
use crate::tokenizer::Tokenizer;
use crate::tokenizer::contains_bytes;
use crate::tokenizer::emitted_ok;
use crate::tokenizer::spec_decode_bytes;
use crate::postprocess::spec_post;
use crate::vocab::Vocab;
use crate::vocab::concat_bytes;
use crate::vocab::ids_valid;
use crate::vocab::lemma_concat_bytes_push;

verus! {

/// Decoding a sequence of valid, non-special ids with special-token
/// skipping on spells exactly the concatenation of their tokens' bytes.
proof fn lemma_decode_concat(toks: Seq<Seq<u8>>, sp: Seq<bool>, ids: Seq<usize>)
    requires
        sp.len() == toks.len(),
        toks.len() <= 0x7fff_ffff,
        ids_valid(toks, ids),
        forall|k: int| 0 <= k < ids.len() ==> !sp[(#[trigger] ids[k]) as int],
    ensures
        spec_decode_bytes(toks, sp, false, ids.map_values(|id: usize| id as i32), true)
            == concat_bytes(toks, ids),
    decreases ids.len(),
{
    let m = ids.map_values(|id: usize| id as i32);
    if ids.len() == 0 {
        assert(m.len() == 0);
        assert(concat_bytes(toks, ids) =~= Seq::<u8>::empty());
    } else {
        let d = ids.drop_last();
        assert(m.drop_last() =~= d.map_values(|id: usize| id as i32));
        assert(ids_valid(toks, d)) by {
            assert(forall|k: int| 0 <= k < d.len() ==> d[k] == ids[k]);
        }
        lemma_decode_concat(toks, sp, d);
        assert(m.last() == ids.last() as i32);
        assert(0 <= m.last() < toks.len());
        assert(!sp[m.last() as int]);
        lemma_concat_bytes_push(toks, d, ids.last());
        assert(d.push(ids.last()) =~= ids);
    }
}

/// Appending a special id changes nothing when skipping is on.
proof fn lemma_decode_skip_last(toks: Seq<Seq<u8>>, sp: Seq<bool>, ids: Seq<i32>, x: i32)
    requires
        sp.len() == toks.len(),
        0 <= x < toks.len(),
        sp[x as int],
    ensures
        spec_decode_bytes(toks, sp, false, ids.push(x), true) == spec_decode_bytes(
            toks,
            sp,
            false,
            ids,
            true,
        ),
{
    assert(ids.push(x).drop_last() =~= ids);
    assert(ids.push(x).last() == x);
}

/// Prepending a special id changes nothing when skipping is on.
proof fn lemma_decode_skip_first(toks: Seq<Seq<u8>>, sp: Seq<bool>, ids: Seq<i32>, c: i32)
    requires
        sp.len() == toks.len(),
        0 <= c < toks.len(),
        sp[c as int],
    ensures
        spec_decode_bytes(toks, sp, false, seq![c] + ids, true) == spec_decode_bytes(
            toks,
            sp,
            false,
            ids,
            true,
        ),
    decreases ids.len(),
{
    if ids.len() == 0 {
        assert(seq![c] + ids =~= seq![c]);
        assert(seq![c].drop_last() =~= Seq::<i32>::empty());
        assert(seq![c].last() == c);
        assert(spec_decode_bytes(toks, sp, false, Seq::<i32>::empty(), true) =~= Seq::<u8>::empty());
    } else {
        assert((seq![c] + ids).drop_last() =~= seq![c] + ids.drop_last());
        assert((seq![c] + ids).last() == ids.last());
        lemma_decode_skip_first(toks, sp, ids.drop_last(), c);
    }
}

/// When the normalized input holds no registered special token, trained
/// byte-level BPE output never carries a special id: each id is then a
/// single-byte token or a merge result, single-byte tokens are not
/// reserved, and training never lets a merge produce a reserved token.
pub proof fn lemma_core_not_special(t: Tokenizer, norm_bytes: Seq<u8>, core: Seq<usize>)
    requires
        t.wf(),
        ids_valid(t.vocab.spec_tokens(), core),
        forall|k: int| 0 <= k < core.len() ==> emitted_ok(t, norm_bytes, #[trigger] core[k]),
        forall|i: int|
            0 <= i < t.vocab.spec_tokens().len() && (#[trigger] t.vocab.spec_tokens()[i]).len()
                == 1 ==> !t.vocab.spec_special()[i],
        forall|j: int|
            0 <= j < t.merges@.len() ==> !t.vocab.spec_special()[(#[trigger]
            t.merges@[j]).result as int],
        forall|i: int|
            0 <= i < t.vocab.spec_tokens().len() && #[trigger] t.vocab.spec_special()[i]
                ==> !contains_bytes(norm_bytes, t.vocab.spec_tokens()[i]),
    ensures
        forall|k: int|
            0 <= k < core.len() ==> !t.vocab.spec_special()[(#[trigger] core[k]) as int],
{
    assert forall|k: int|
        0 <= k < core.len() implies !t.vocab.spec_special()[(#[trigger] core[k]) as int] by {
        assert(emitted_ok(t, norm_bytes, core[k]));
        if t.vocab.spec_tokens()[core[k] as int].len() == 1 {
        } else if is_rule_result(t.merges@, core[k]) {
            let j = choose|j: int|
                0 <= j < t.merges@.len() && (#[trigger] t.merges@[j]).result == core[k];
            assert(!t.vocab.spec_special()[t.merges@[j].result as int]);
        } else {
            assert(t.vocab.spec_special()[core[k] as int]);
            assert(!contains_bytes(norm_bytes, t.vocab.spec_tokens()[core[k] as int]));
            assert(false);
        }
    }
}

/// Coverage: byte-level BPE encoding never produces the unknown id
/// as a fallback. Every byte is representable, so each output id is a
/// single-byte token, a merge result, or a protected special occurring in
/// the input; the unknown token is longer than one byte, training never
/// makes it a merge result, and the input does not spell it literally.
pub proof fn lemma_no_unknown(t: Tokenizer, norm_bytes: Seq<u8>, core: Seq<usize>)
    requires
        t.wf(),
        ids_valid(t.vocab.spec_tokens(), core),
        forall|k: int| 0 <= k < core.len() ==> emitted_ok(t, norm_bytes, #[trigger] core[k]),
        t.vocab.spec_tokens()[t.unk_id as int].len() != 1,
        forall|j: int|
            0 <= j < t.merges@.len() ==> !t.vocab.spec_special()[(#[trigger]
            t.merges@[j]).result as int],
        !contains_bytes(norm_bytes, t.vocab.spec_tokens()[t.unk_id as int]),
    ensures
        forall|k: int| 0 <= k < core.len() ==> (#[trigger] core[k]) != t.unk_id,
{
    assert forall|k: int| 0 <= k < core.len() implies (#[trigger] core[k]) != t.unk_id by {
        if core[k] == t.unk_id {
            assert(emitted_ok(t, norm_bytes, core[k]));
            assert(t.vocab.spec_tokens()[core[k] as int].len() != 1);
            if is_rule_result(t.merges@, core[k]) {
                let j = choose|j: int|
                    0 <= j < t.merges@.len() && (#[trigger] t.merges@[j]).result == core[k];
                assert(!t.vocab.spec_special()[t.merges@[j].result as int]);
                assert(t.vocab.spec_special()[t.unk_id as int]);
            } else {
                assert(contains_bytes(norm_bytes, t.vocab.spec_tokens()[core[k] as int]));
            }
            assert(false);
        }
    }
}

/// Round-trip: the ids a byte-complete BPE tokenizer encodes — any core
/// whose bytes spell the normalized input, wrapped by the post-processor
/// — decode, with special tokens skipped, to exactly the normalized
/// input. With identity normalization and accent-stripping and
/// lowercasing off, the normalized input is the input itself.
pub proof fn lemma_round_trip(t: Tokenizer, core: Seq<usize>, x: Seq<char>)
    requires
        t.wf(),
        ids_valid(t.vocab.spec_tokens(), core),
        concat_bytes(t.vocab.spec_tokens(), core) == encode_utf8(t.spec_norm(x)),
        forall|k: int|
            0 <= k < core.len() ==> !t.vocab.spec_special()[(#[trigger] core[k]) as int],
    ensures
        ({
            let wrapped = spec_post(
                t.post_bert,
                t.post_add_special,
                t.cls_id,
                t.sep_id,
                core,
            ).map_values(|id: usize| id as i32);
            let bytes = spec_decode_bytes(
                t.vocab.spec_tokens(),
                t.vocab.spec_special(),
                false,
                wrapped,
                true,
            );
            valid_utf8(bytes) && decode_utf8(bytes) == t.spec_norm(x)
        }),
{
    let toks = t.vocab.spec_tokens();
    let sp = t.vocab.spec_special();
    let corem = core.map_values(|id: usize| id as i32);
    let wrapped = spec_post(t.post_bert, t.post_add_special, t.cls_id, t.sep_id, core).map_values(
        |id: usize| id as i32,
    );
    t.vocab.lemma_wf_facts();
    if t.post_bert && t.post_add_special {
        let inner = seq![t.cls_id as i32] + corem;
        assert(wrapped =~= inner.push(t.sep_id as i32)) by {
            assert(spec_post(t.post_bert, t.post_add_special, t.cls_id, t.sep_id, core)
                =~= seq![t.cls_id] + core + seq![t.sep_id]);
        }
        lemma_decode_skip_last(toks, sp, inner, t.sep_id as i32);
        lemma_decode_skip_first(toks, sp, corem, t.cls_id as i32);
        lemma_decode_concat(toks, sp, core);
        assert(spec_decode_bytes(toks, sp, false, wrapped, true) == concat_bytes(toks, core));
    } else {
        assert(wrapped =~= corem);
        lemma_decode_concat(toks, sp, core);
    }
    encode_utf8_valid_utf8(t.spec_norm(x));
    encode_utf8_decode_utf8(t.spec_norm(x));
}

/// After default construction and training, no single-byte token is
/// reserved: every token the tokenizer started with is at least two bytes
/// and keeps its id, and training marks nothing it adds as special. With
/// this, trained byte-level output never collides with a reserved id.
pub proof fn lemma_singles_not_special(v1: Vocab, v2: Vocab)
    requires
        v2.extends(v1),
        forall|i: int| 0 <= i < v1.spec_tokens().len() ==> (#[trigger] v1.spec_tokens()[i]).len()
            >= 2,
        forall|i: int|
            v1.spec_tokens().len() <= i < v2.spec_tokens().len() ==> !(#[trigger]
            v2.spec_special()[i]),
    ensures
        forall|i: int|
            0 <= i < v2.spec_tokens().len() && (#[trigger] v2.spec_tokens()[i]).len() == 1
                ==> !v2.spec_special()[i],
{
    assert forall|i: int|
        0 <= i < v2.spec_tokens().len() && (#[trigger] v2.spec_tokens()[i]).len()
            == 1 implies !v2.spec_special()[i] by {
        if i < v1.spec_tokens().len() {
            assert(v2.spec_tokens()[i] == v1.spec_tokens()[i]);
        }
    }
}

/// The whole round trip, with premises matching `encode`'s contract: for
/// a trained byte-complete BPE tokenizer whose normalized input spells no
/// reserved token literally, the post-processed ids of any core that
/// spells the normalized input decode — skipping special tokens — to
/// exactly the normalized input. With identity normalization and both
/// folds off, that is the input itself.
pub proof fn lemma_pipeline_round_trip(t: Tokenizer, core: Seq<usize>, x: Seq<char>)
    requires
        t.wf(),
        t.model is Bpe,
        ids_valid(t.vocab.spec_tokens(), core),
        concat_bytes(t.vocab.spec_tokens(), core) == encode_utf8(t.spec_norm(x)),
        forall|k: int|
            0 <= k < core.len() ==> emitted_ok(t, encode_utf8(t.spec_norm(x)), #[trigger]
            core[k]),
        forall|i: int|
            0 <= i < t.vocab.spec_tokens().len() && (#[trigger] t.vocab.spec_tokens()[i]).len()
                == 1 ==> !t.vocab.spec_special()[i],
        forall|j: int|
            0 <= j < t.merges@.len() ==> !t.vocab.spec_special()[(#[trigger]
            t.merges@[j]).result as int],
        forall|i: int|
            0 <= i < t.vocab.spec_tokens().len() && #[trigger] t.vocab.spec_special()[i]
                ==> !contains_bytes(encode_utf8(t.spec_norm(x)), t.vocab.spec_tokens()[i]),
    ensures
        ({
            let wrapped = spec_post(
                t.post_bert,
                t.post_add_special,
                t.cls_id,
                t.sep_id,
                core,
            ).map_values(|id: usize| id as i32);
            let bytes = spec_decode_bytes(
                t.vocab.spec_tokens(),
                t.vocab.spec_special(),
                false,
                wrapped,
                true,
            );
            valid_utf8(bytes) && decode_utf8(bytes) == t.spec_norm(x)
        }),
{
    lemma_core_not_special(t, encode_utf8(t.spec_norm(x)), core);
    lemma_round_trip(t, core, x);
}

/// Reserved ids are never reassigned: when the vocabulary only grows —
/// training or registering further tokens — every id already assigned
/// keeps its token string and its special flag.
pub proof fn lemma_ids_stable(v1: Vocab, v2: Vocab, id: int)
    requires
        v2.extends(v1),
        0 <= id < v1.spec_tokens().len(),
        v1.spec_special().len() == v1.spec_tokens().len(),
    ensures
        v2.spec_tokens()[id] == v1.spec_tokens()[id],
        v2.spec_special()[id] == v1.spec_special()[id],
{
}



} // verus!
