use vstd::prelude::*;
use vstd::string::StrSliceExecFns;
use vstd::string::StringExecFns;

use crate::normalize::str_chars;

verus! {

/// One coarse text span produced before subword modeling, with its
/// character offsets into the string handed to the pre-tokenizer. A chunk
/// carved out as a registered special token carries that token's id and
/// is never handed to a model.
pub struct PreToken {
    pub text: String,
    pub start: usize,
    pub end: usize,
    pub special_id: Option<usize>,
}

/// ASCII whitespace, the split class the default rule uses.
pub open spec fn is_ws(c: char) -> bool {
    let u = c as u32;
    u == 0x20 || u == 0x09 || u == 0x0a || u == 0x0d
}

/// ASCII punctuation, always split into chunks of its own.
pub open spec fn is_punct(c: char) -> bool {
    let u = c as u32;
    (0x21 <= u && u <= 0x2f) || (0x3a <= u && u <= 0x40) || (0x5b <= u && u <= 0x60) || (0x7b <= u
        && u <= 0x7e)
}

/// Whether the default rule splits between two adjacent characters:
/// at every whitespace/non-whitespace transition and around punctuation.
pub open spec fn is_boundary(a: char, b: char) -> bool {
    is_ws(a) != is_ws(b) || is_punct(a) || is_punct(b)
}

fn ws_exec(c: char) -> (r: bool)
    ensures
        r == is_ws(c),
{
    let u = c as u32;
    u == 0x20 || u == 0x09 || u == 0x0a || u == 0x0d
}

fn punct_exec(c: char) -> (r: bool)
    ensures
        r == is_punct(c),
{
    let u = c as u32;
    (0x21 <= u && u <= 0x2f) || (0x3a <= u && u <= 0x40) || (0x5b <= u && u <= 0x60) || (0x7b <= u
        && u <= 0x7e)
}

fn boundary_exec(a: char, b: char) -> (r: bool)
    ensures
        r == is_boundary(a, b),
{
    ws_exec(a) != ws_exec(b) || punct_exec(a) || punct_exec(b)
}

/// The chunks `toks` cover `s` from character `lo` to `hi` exactly: each
/// chunk is the nonempty span of `s` its offsets name, and the chunks are
/// adjacent and in order.
pub open spec fn partition(toks: Seq<PreToken>, s: Seq<char>, lo: int, hi: int) -> bool {
    &&& (forall|k: int|
        0 <= k < toks.len() ==> (#[trigger] toks[k]).start < toks[k].end <= s.len()
            && toks[k].text@ == s.subrange(toks[k].start as int, toks[k].end as int))
    &&& (if toks.len() == 0 {
        lo == hi
    } else {
        toks[0].start == lo && toks[toks.len() - 1].end == hi
    })
    &&& (forall|k: int| 1 <= k < toks.len() ==> (#[trigger] toks[k]).start == toks[k - 1].end)
}

/// The chunk texts in order, as one character sequence.
pub open spec fn concat_texts(toks: Seq<PreToken>) -> Seq<char>
    decreases toks.len(),
{
    if toks.len() == 0 {
        Seq::empty()
    } else {
        toks[0].text@ + concat_texts(toks.drop_first())
    }
}

/// A partition's chunks concatenate back to the span they cover: the
/// pre-tokenizer loses no characters.
#[verifier::rlimit(100)]
pub proof fn lemma_partition_concat(toks: Seq<PreToken>, s: Seq<char>, lo: int, hi: int)
    requires
        partition(toks, s, lo, hi),
        0 <= lo,
        hi <= s.len(),
    ensures
        lo <= hi,
        concat_texts(toks) == s.subrange(lo, hi),
    decreases toks.len(),
{
    if toks.len() == 0 {
        assert(concat_texts(toks) =~= s.subrange(lo, hi));
    } else {
        let e0 = toks[0].end as int;
        let d = toks.drop_first();
        assert(partition(d, s, e0, hi)) by {
            assert forall|k: int| 0 <= k < d.len() implies #[trigger] d[k] == toks[k + 1] by {}
        }
        lemma_partition_concat(d, s, e0, hi);
        assert(concat_texts(toks) == s.subrange(lo, hi)) by {
            assert(toks[0].text@ == s.subrange(lo, e0));
            assert(concat_texts(d) == s.subrange(e0, hi));
            assert(s.subrange(lo, e0) + s.subrange(e0, hi) =~= s.subrange(lo, hi));
        }
    }
}

/// Splits on whitespace transitions and punctuation, keeping every
/// character: the chunks partition the input, and when no user pattern is
/// registered, chunks break exactly at the default boundaries.
fn split_default(text: &str) -> (r: Vec<PreToken>)
    ensures
        partition(r@, text@, 0, text@.len() as int),
        forall|k: int, m: int|
            #![trigger r@[k], text@[m]]
            0 <= k < r@.len() && r@[k].start < m < r@[k].end ==> !is_boundary(
                text@[m - 1],
                text@[m],
            ),
        forall|k: int|
            1 <= k < r@.len() ==> is_boundary(
                text@[(#[trigger] r@[k]).start - 1],
                text@[r@[k].start as int],
            ),
{
    let cs = str_chars(text);
    let n = cs.len();
    let mut out: Vec<PreToken> = Vec::new();
    let mut i: usize = 0;
    while i < n
        invariant
            i <= n,
            n == text@.len(),
            cs@ == text@,
            partition(out@, text@, 0, i as int),
            forall|k: int, m: int|
                #![trigger out@[k], text@[m]]
                0 <= k < out@.len() && out@[k].start < m < out@[k].end
                    ==> !is_boundary(text@[m - 1], text@[m]),
            forall|k: int|
                1 <= k < out@.len() ==> is_boundary(
                    text@[(#[trigger] out@[k]).start - 1],
                    text@[out@[k].start as int],
                ),
            0 < i < n ==> is_boundary(text@[i - 1], text@[i as int]),
        decreases n - i,
    {
        let start = i;
        let mut j = i + 1;
        while j < n && !boundary_exec(cs[j - 1], cs[j])
            invariant
                start < j <= n,
                n == text@.len(),
                cs@ == text@,
                forall|m: int| start < m < j ==> !is_boundary(text@[m - 1], #[trigger] text@[m]),
            decreases n - j,
        {
            j = j + 1;
        }
        let piece = PreToken {
            text: text.substring_char(start, j).to_owned(),
            start,
            end: j,
            special_id: None,
        };
        out.push(piece);
        i = j;
    }
    out
}

/// Default-splits one unmarked span, appending its pieces: the same
/// whitespace/punctuation rule as `split_default`, within the span.
fn split_default_span(text: &str, cs: &Vec<char>, tok: &PreToken, out: &mut Vec<PreToken>)
    requires
        cs@ == text@,
        tok.start < tok.end <= text@.len(),
        partition(old(out)@, text@, 0, tok.start as int),
    ensures
        partition(final(out)@, text@, 0, tok.end as int),
        forall|k: int| 0 <= k < old(out)@.len() ==> final(out)@[k] == old(out)@[k],
        final(out)@.len() >= old(out)@.len(),
        forall|k: int|
            old(out)@.len() <= k < final(out)@.len() ==> (#[trigger]
            final(out)@[k]).special_id is None,
{
    let ghost base = old(out)@;
    let e = tok.end;
    let mut i = tok.start;
    while i < e
        invariant
            tok.start <= i <= e <= text@.len(),
            e == tok.end,
            cs@ == text@,
            partition(out@, text@, 0, i as int),
            out@.len() >= base.len(),
            forall|k: int| 0 <= k < base.len() ==> out@[k] == base[k],
            forall|k: int|
                base.len() <= k < out@.len() ==> (#[trigger] out@[k]).special_id is None,
        decreases e - i,
    {
        let start = i;
        let mut j = i + 1;
        while j < e && !boundary_exec(cs[j - 1], cs[j])
            invariant
                start < j <= e <= text@.len(),
                cs@ == text@,
            decreases e - j,
        {
            j = j + 1;
        }
        let piece = PreToken {
            text: text.substring_char(start, j).to_owned(),
            start,
            end: j,
            special_id: None,
        };
        let ghost prev = out@;
        out.push(piece);
        proof {
            assert(forall|k: int| 0 <= k < prev.len() ==> out@[k] == prev[k]);
        }
        i = j;
    }
}

/// True when the characters of `pat` occur in `s` starting at `pos`.
fn match_at(cs: &Vec<char>, pat: &Vec<char>, pos: usize) -> (r: bool)
    requires
        pos + pat@.len() <= cs@.len(),
    ensures
        r == (cs@.subrange(pos as int, pos + pat@.len()) == pat@),
{
    let m = pat.len();
    let total = cs.len();
    let mut k: usize = 0;
    while k < m
        invariant
            k <= m,
            m == pat@.len(),
            pos + m <= cs@.len(),
            cs@.len() <= usize::MAX,
            forall|t: int| 0 <= t < k ==> cs@[pos + t] == pat@[t],
        decreases m - k,
    {
        if cs[pos + k] != pat[k] {
            proof {
                assert(cs@.subrange(pos as int, pos + pat@.len())[k as int] != pat@[k as int]);
            }
            return false;
        }
        k = k + 1;
    }
    proof {
        assert(cs@.subrange(pos as int, pos + pat@.len()) =~= pat@);
    }
    true
}

/// Splits one chunk at the occurrences of one literal pattern, leftmost
/// first: each occurrence becomes a chunk of its own, carrying `mark`,
/// and the remainder partitions the rest of the span unmarked.
fn split_chunk_on(
    text: &str,
    cs: &Vec<char>,
    tok: &PreToken,
    pat: &Vec<char>,
    out: &mut Vec<PreToken>,
    mark: Option<usize>,
)
    requires
        cs@ == text@,
        tok.start < tok.end <= text@.len(),
        tok.text@ == text@.subrange(tok.start as int, tok.end as int),
        pat@.len() >= 1,
        partition(old(out)@, text@, 0, tok.start as int),
    ensures
        partition(final(out)@, text@, 0, tok.end as int),
        forall|k: int| 0 <= k < old(out)@.len() ==> final(out)@[k] == old(out)@[k],
        final(out)@.len() >= old(out)@.len(),
        forall|k: int|
            old(out)@.len() <= k < final(out)@.len() ==> ((#[trigger] final(out)@[k]).special_id
                == mark && final(out)@[k].text@ == pat@) || final(out)@[k].special_id is None,
{
    let ghost base = old(out)@;
    let mut a = tok.start;
    let mut i = tok.start;
    let e = tok.end;
    while i < e
        invariant
            tok.start <= a <= i <= e <= text@.len(),
            e == tok.end,
            cs@ == text@,
            pat@.len() >= 1,
            partition(out@, text@, 0, a as int),
            out@.len() >= base.len(),
            forall|k: int| 0 <= k < base.len() ==> out@[k] == base[k],
            forall|k: int|
                base.len() <= k < out@.len() ==> ((#[trigger] out@[k]).special_id == mark
                    && out@[k].text@ == pat@) || out@[k].special_id is None,
        decreases e - i,
    {
        if pat.len() <= e - i && match_at(cs, pat, i) {
            if a < i {
                let piece = PreToken {
                    text: text.substring_char(a, i).to_owned(),
                    start: a,
                    end: i,
                    special_id: None,
                };
                let ghost prev = out@;
                out.push(piece);
                proof {
                    assert(forall|k: int| 0 <= k < prev.len() ==> out@[k] == prev[k]);
                }
            }
            let stop = i + pat.len();
            let piece = PreToken {
                text: text.substring_char(i, stop).to_owned(),
                start: i,
                end: stop,
                special_id: mark,
            };
            let ghost prev = out@;
            out.push(piece);
            proof {
                assert(forall|k: int| 0 <= k < prev.len() ==> out@[k] == prev[k]);
                assert(out@[prev.len() as int].text@ == pat@) by {
                    assert(text@.subrange(i as int, stop as int) == pat@);
                }
            }
            a = stop;
            i = stop;
        } else {
            i = i + 1;
        }
    }
    if a < e {
        let piece = PreToken {
            text: text.substring_char(a, e).to_owned(),
            start: a,
            end: e,
            special_id: None,
        };
        let ghost prev = out@;
        out.push(piece);
        proof {
            assert(forall|k: int| 0 <= k < prev.len() ==> out@[k] == prev[k]);
        }
    }
}

/// Splits normalized text into pre-tokens: the default whitespace and
/// punctuation rule first, then each registered pattern in registration
/// order, every occurrence of a pattern becoming a chunk of its own.
/// The chunks always partition the input, so no character is lost.
pub fn pretokenize(text: &str, patterns: &Vec<String>) -> (r: Vec<PreToken>)
    ensures
        partition(r@, text@, 0, text@.len() as int),
        patterns@.len() == 0 ==> forall|k: int, m: int|
            #![trigger r@[k], text@[m]]
            0 <= k < r@.len() && r@[k].start < m < r@[k].end ==> !is_boundary(
                text@[m - 1],
                text@[m],
            ),
        patterns@.len() == 0 ==> forall|k: int|
            1 <= k < r@.len() ==> is_boundary(
                text@[(#[trigger] r@[k]).start - 1],
                text@[r@[k].start as int],
            ),
{
    let mut toks = split_default(text);
    if patterns.len() == 0 {
        return toks;
    }
    let cs = str_chars(text);
    let mut q: usize = 0;
    while q < patterns.len()
        invariant
            cs@ == text@,
            partition(toks@, text@, 0, text@.len() as int),
        decreases patterns@.len() - q,
    {
        let pat = str_chars(patterns[q].as_str());
        if pat.len() >= 1 {
            let mut refined: Vec<PreToken> = Vec::new();
            let mut k: usize = 0;
            while k < toks.len()
                invariant
                    cs@ == text@,
                    k <= toks@.len(),
                    pat@.len() >= 1,
                    partition(toks@, text@, 0, text@.len() as int),
                    partition(
                        refined@,
                        text@,
                        0,
                        if k == 0 {
                            0
                        } else {
                            toks@[k - 1].end as int
                        },
                    ),
                decreases toks@.len() - k,
            {
                proof {
                    if k > 0 {
                        assert(toks@[k as int].start == toks@[k as int - 1].end);
                    }
                }
                split_chunk_on(text, &cs, &toks[k], &pat, &mut refined, None);
                k = k + 1;
            }
            proof {
                if toks@.len() > 0 {
                    assert(toks@[toks@.len() - 1].end == text@.len());
                }
            }
            toks = refined;
        }
        q = q + 1;
    }
    toks
}

/// Every marked chunk names a registered special token and spells exactly
/// that token's string.
pub open spec fn marks_ok(toks: Seq<PreToken>, specials: Seq<(usize, String)>) -> bool {
    forall|k: int|
        0 <= k < toks.len() ==> ((#[trigger] toks[k]).special_id matches Some(id) ==> exists|
            j: int,
        |
            0 <= j < specials.len() && (#[trigger] specials[j]).0 == id && specials[j].1@
                == toks[k].text@)
}

/// Splits text into pre-tokens with registered special tokens protected:
/// each occurrence of a special token's string (matched leftmost first,
/// earlier list entries taking priority) becomes a chunk of its own
/// carrying that token's id, and is split no further — not by the default
/// rule, not by any user pattern. The remaining spans go through the
/// default whitespace/punctuation rule and then the user patterns. The
/// chunks always partition the input.
pub fn pretokenize_with_specials(
    text: &str,
    specials: &Vec<(usize, String)>,
    patterns: &Vec<String>,
) -> (r: Vec<PreToken>)
    ensures
        partition(r@, text@, 0, text@.len() as int),
        marks_ok(r@, specials@),
{
    let cs = str_chars(text);
    let n = cs.len();
    let mut toks: Vec<PreToken> = Vec::new();
    if n > 0 {
        let whole = PreToken {
            text: text.substring_char(0, n).to_owned(),
            start: 0,
            end: n,
            special_id: None,
        };
        toks.push(whole);
        proof {
            assert(text@.subrange(0, n as int) =~= text@);
        }
    }
    // Carve each registered special token out of the unmarked spans.
    let mut j: usize = 0;
    while j < specials.len()
        invariant
            cs@ == text@,
            n == text@.len(),
            partition(toks@, text@, 0, n as int),
            marks_ok(toks@, specials@),
        decreases specials@.len() - j,
    {
        let pat = str_chars(specials[j].1.as_str());
        if pat.len() >= 1 {
            let ghost sid = specials@[j as int].0;
            let mut refined: Vec<PreToken> = Vec::new();
            let mut k: usize = 0;
            while k < toks.len()
                invariant
                    cs@ == text@,
                    n == text@.len(),
                    k <= toks@.len(),
                    j < specials@.len(),
                    pat@.len() >= 1,
                    pat@ == (specials@[j as int].1)@,
                    sid == specials@[j as int].0,
                    partition(toks@, text@, 0, n as int),
                    marks_ok(toks@, specials@),
                    partition(
                        refined@,
                        text@,
                        0,
                        if k == 0 {
                            0
                        } else {
                            toks@[k - 1].end as int
                        },
                    ),
                    marks_ok(refined@, specials@),
                decreases toks@.len() - k,
            {
                proof {
                    if k > 0 {
                        assert(toks@[k as int].start == toks@[k as int - 1].end);
                    }
                }
                let is_marked = match toks[k].special_id {
                    Some(_) => true,
                    None => false,
                };
                let ghost refined0 = refined@;
                if is_marked {
                    let kept = PreToken {
                        text: toks[k].text.clone(),
                        start: toks[k].start,
                        end: toks[k].end,
                        special_id: toks[k].special_id,
                    };
                    refined.push(kept);
                    proof {
                        assert(forall|m: int| 0 <= m < refined0.len() ==> refined@[m] == refined0[m]);
                        assert(refined@.last().text@ == toks@[k as int].text@);
                    }
                } else {
                    split_chunk_on(text, &cs, &toks[k], &pat, &mut refined, Some(specials[j].0));
                    proof {
                        assert forall|m: int|
                            0 <= m < refined@.len() implies ((#[trigger]
                        refined@[m]).special_id matches Some(id) ==> exists|j2: int|
                            0 <= j2 < specials@.len() && (#[trigger] specials@[j2]).0 == id
                                && specials@[j2].1@ == refined@[m].text@) by {
                            if m < refined0.len() {
                                assert(refined@[m] == refined0[m]);
                            }
                        }
                    }
                }
                k = k + 1;
            }
            proof {
                if toks@.len() > 0 {
                    assert(toks@[toks@.len() - 1].end == text@.len());
                }
            }
            toks = refined;
        }
        j = j + 1;
    }
    // Default-split what is not a protected special.
    let mut refined: Vec<PreToken> = Vec::new();
    let mut k: usize = 0;
    while k < toks.len()
        invariant
            cs@ == text@,
            n == text@.len(),
            k <= toks@.len(),
            partition(toks@, text@, 0, n as int),
            marks_ok(toks@, specials@),
            partition(
                refined@,
                text@,
                0,
                if k == 0 {
                    0
                } else {
                    toks@[k - 1].end as int
                },
            ),
            marks_ok(refined@, specials@),
        decreases toks@.len() - k,
    {
        proof {
            if k > 0 {
                assert(toks@[k as int].start == toks@[k as int - 1].end);
            }
        }
        let is_marked = match toks[k].special_id {
            Some(_) => true,
            None => false,
        };
        let ghost refined0 = refined@;
        if is_marked {
            let kept = PreToken {
                text: toks[k].text.clone(),
                start: toks[k].start,
                end: toks[k].end,
                special_id: toks[k].special_id,
            };
            refined.push(kept);
            proof {
                assert(forall|m: int| 0 <= m < refined0.len() ==> refined@[m] == refined0[m]);
                assert(refined@.last().text@ == toks@[k as int].text@);
            }
        } else {
            split_default_span(text, &cs, &toks[k], &mut refined);
            proof {
                assert forall|m: int|
                    0 <= m < refined@.len() implies ((#[trigger]
                refined@[m]).special_id matches Some(id) ==> exists|j2: int|
                    0 <= j2 < specials@.len() && (#[trigger] specials@[j2]).0 == id
                        && specials@[j2].1@ == refined@[m].text@) by {
                    if m < refined0.len() {
                        assert(refined@[m] == refined0[m]);
                    }
                }
            }
        }
        k = k + 1;
    }
    proof {
        if toks@.len() > 0 {
            assert(toks@[toks@.len() - 1].end == text@.len());
        }
    }
    let mut toks = refined;
    // User patterns, on the unmarked chunks only.
    let mut q: usize = 0;
    while q < patterns.len()
        invariant
            cs@ == text@,
            n == text@.len(),
            partition(toks@, text@, 0, n as int),
            marks_ok(toks@, specials@),
        decreases patterns@.len() - q,
    {
        let pat = str_chars(patterns[q].as_str());
        if pat.len() >= 1 {
            let mut refined: Vec<PreToken> = Vec::new();
            let mut k2: usize = 0;
            while k2 < toks.len()
                invariant
                    cs@ == text@,
                    n == text@.len(),
                    k2 <= toks@.len(),
                    pat@.len() >= 1,
                    partition(toks@, text@, 0, n as int),
                    marks_ok(toks@, specials@),
                    partition(
                        refined@,
                        text@,
                        0,
                        if k2 == 0 {
                            0
                        } else {
                            toks@[k2 - 1].end as int
                        },
                    ),
                    marks_ok(refined@, specials@),
                decreases toks@.len() - k2,
            {
                proof {
                    if k2 > 0 {
                        assert(toks@[k2 as int].start == toks@[k2 as int - 1].end);
                    }
                }
                let is_marked = match toks[k2].special_id {
                    Some(_) => true,
                    None => false,
                };
                let ghost refined0 = refined@;
                if is_marked {
                    let kept = PreToken {
                        text: toks[k2].text.clone(),
                        start: toks[k2].start,
                        end: toks[k2].end,
                        special_id: toks[k2].special_id,
                    };
                    refined.push(kept);
                    proof {
                        assert(forall|m: int| 0 <= m < refined0.len() ==> refined@[m] == refined0[m]);
                        assert(refined@.last().text@ == toks@[k2 as int].text@);
                    }
                } else {
                    split_chunk_on(text, &cs, &toks[k2], &pat, &mut refined, None);
                    proof {
                        assert forall|m: int|
                            0 <= m < refined@.len() implies ((#[trigger]
                        refined@[m]).special_id matches Some(id) ==> exists|j2: int|
                            0 <= j2 < specials@.len() && (#[trigger] specials@[j2]).0 == id
                                && specials@[j2].1@ == refined@[m].text@) by {
                            if m < refined0.len() {
                                assert(refined@[m] == refined0[m]);
                            }
                        }
                    }
                }
                k2 = k2 + 1;
            }
            proof {
                if toks@.len() > 0 {
                    assert(toks@[toks@.len() - 1].end == text@.len());
                }
            }
            toks = refined;
        }
        q = q + 1;
    }
    toks
}

} // verus!
