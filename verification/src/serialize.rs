use vstd::prelude::*;
use vstd::string::StrSliceExecFns;
use vstd::string::StringExecFns;

use crate::bpe::MergeRule;
use crate::bpe::rule_wf;
use crate::errors::TokenizerError;
use crate::normalize::NormForm;
use crate::tokenizer::Model;
use crate::tokenizer::Tokenizer;
use crate::vocab::Vocab;

verus! {

/// The leading line of the persisted format; loading anything else is a
/// format error (version mismatch).
fn format_header() -> (r: String)
    ensures
        r@ == "aura-tokenizer-v1"@,
{
    String::from_str("aura-tokenizer-v1")
}

/// One decimal digit as its ASCII character.
fn digit_char(d: u8) -> (r: char)
    requires
        d < 10,
{
    (0x30u8 + d) as char
}

/// A number in decimal.
fn fmt_u64(n: u64) -> (r: String)
{
    let mut digits: Vec<char> = Vec::new();
    let mut m = n;
    loop
        invariant
            true,
        decreases m,
    {
        let d = (m % 10) as u8;
        digits.push(digit_char(d));
        m = m / 10;
        if m == 0 {
            break;
        }
    }
    let mut ordered: Vec<char> = Vec::new();
    let mut i = digits.len();
    while i > 0
        invariant
            i <= digits@.len(),
        decreases i,
    {
        i = i - 1;
        ordered.push(digits[i]);
    }
    crate::normalize::chars_to_string(&ordered)
}

/// A signed number in decimal.
fn fmt_i64(n: i64) -> (r: String)
{
    if n < 0 {
        let mut s = String::from_str("-");
        let mag: u64 = if n == i64::MIN {
            0x8000_0000_0000_0000u64
        } else {
            (-n) as u64
        };
        s.append(fmt_u64(mag).as_str());
        s
    } else {
        fmt_u64(n as u64)
    }
}

/// Two hex digits per byte.
fn fmt_hex(bytes: &Vec<u8>) -> (r: String)
{
    let mut out: Vec<char> = Vec::new();
    let mut i: usize = 0;
    while i < bytes.len()
        invariant
            true,
        decreases bytes@.len() - i,
    {
        let b = bytes[i];
        let hi = b / 16;
        let lo = b % 16;
        out.push(hex_char(hi));
        out.push(hex_char(lo));
        i = i + 1;
    }
    crate::normalize::chars_to_string(&out)
}

fn hex_char(d: u8) -> (r: char)
    requires
        d < 16,
{
    if d < 10 {
        (0x30u8 + d) as char
    } else {
        (0x61u8 + (d - 10)) as char
    }
}

fn hex_val(c: char) -> (r: Option<u8>)
    ensures
        r matches Some(v) ==> v < 16,
{
    let u = c as u32;
    if 0x30 <= u && u <= 0x39 {
        Some((u - 0x30) as u8)
    } else if 0x61 <= u && u <= 0x66 {
        Some((u - 0x61 + 10) as u8)
    } else {
        None
    }
}

/// Decodes a hex line back to bytes; an odd length or a stray character
/// is a format error.
fn parse_hex(s: &Vec<char>) -> (r: Option<Vec<u8>>)
{
    let n = s.len();
    if n % 2 != 0 {
        return None;
    }
    let mut out: Vec<u8> = Vec::new();
    let mut i: usize = 0;
    while i + 1 < n
        invariant
            n == s@.len(),
            i % 2 == 0,
        decreases n - i,
    {
        let hi = hex_val(s[i]);
        let lo = hex_val(s[i + 1]);
        match (hi, lo) {
            (Some(h), Some(l)) => {
                out.push(h * 16 + l);
            },
            _ => {
                return None;
            },
        }
        i = i + 2;
    }
    Some(out)
}

/// Parses an unsigned decimal; empty input, a stray character or a value
/// past `2^63` (the largest signed magnitude) is a format error.
fn parse_u64(s: &Vec<char>) -> (r: Option<u64>)
    ensures
        r matches Some(v) ==> v <= 0x8000_0000_0000_0000,
{
    let n = s.len();
    if n == 0 {
        return None;
    }
    let mut acc: u64 = 0;
    let mut i: usize = 0;
    while i < n
        invariant
            n == s@.len(),
            acc <= 0x8000_0000_0000_0000,
        decreases n - i,
    {
        let u = s[i] as u32;
        if !(0x30 <= u && u <= 0x39) {
            return None;
        }
        let d = (u - 0x30) as u64;
        if acc > 0x0ccc_cccc_cccc_ccccu64 || (acc == 0x0ccc_cccc_cccc_ccccu64 && d > 8) {
            return None;
        }
        acc = acc * 10 + d;
        i = i + 1;
    }
    Some(acc)
}

/// Parses a signed decimal.
fn parse_i64(s: &Vec<char>) -> (r: Option<i64>)
{
    let n = s.len();
    if n == 0 {
        return None;
    }
    if s[0] == '-' {
        let mut rest: Vec<char> = Vec::new();
        let mut i: usize = 1;
        while i < n
            invariant
                n == s@.len(),
            decreases n - i,
        {
            rest.push(s[i]);
            i = i + 1;
        }
        match parse_u64(&rest) {
            Some(v) => {
                if v == 0x8000_0000_0000_0000 {
                    Some(i64::MIN)
                } else {
                    Some(-(v as i64))
                }
            },
            None => None,
        }
    } else {
        match parse_u64(s) {
            Some(v) => {
                if v <= 0x7fff_ffff_ffff_ffff {
                    Some(v as i64)
                } else {
                    None
                }
            },
            None => None,
        }
    }
}

/// Splits text into lines at each newline character; the first returned
/// line is exactly the text up to the first newline.
fn split_lines(s: &Vec<char>) -> (r: Vec<Vec<char>>)
    ensures
        r@.len() >= 1,
        r@[0]@.len() <= s@.len(),
        forall|k: int| 0 <= k < r@[0]@.len() ==> r@[0]@[k] == s@[k] && s@[k] != '\n',
        r@.len() >= 2 ==> r@[0]@.len() < s@.len() && s@[r@[0]@.len() as int] == '\n',
{
    let mut out: Vec<Vec<char>> = Vec::new();
    let mut cur: Vec<char> = Vec::new();
    let mut i: usize = 0;
    while i < s.len()
        invariant
            i <= s@.len(),
            out@.len() == 0 ==> cur@ == s@.subrange(0, i as int) && (forall|k: int|
                0 <= k < i ==> s@[k] != '\n'),
            out@.len() >= 1 ==> {
                &&& out@[0]@.len() < s@.len()
                &&& (forall|k: int|
                    0 <= k < out@[0]@.len() ==> out@[0]@[k] == s@[k] && s@[k] != '\n')
                &&& s@[out@[0]@.len() as int] == '\n'
            },
        decreases s@.len() - i,
    {
        let c = s[i];
        let ghost out0 = out@;
        if c == '\n' {
            out.push(cur);
            cur = Vec::new();
            proof {
                if out0.len() == 0 {
                    assert(out@[0]@ =~= s@.subrange(0, i as int));
                } else {
                    assert(out@[0] == out0[0]);
                }
            }
        } else {
            cur.push(c);
            proof {
                if out@.len() == 0 {
                    assert(cur@ =~= s@.subrange(0, i as int + 1));
                }
            }
        }
        i = i + 1;
    }
    let ghost out0 = out@;
    out.push(cur);
    proof {
        if out0.len() == 0 {
            assert(out@[0]@ =~= s@.subrange(0, s@.len() as int));
            assert(out@[0]@ =~= s@);
        } else {
            assert(out@[0] == out0[0]);
        }
    }
    out
}

impl Tokenizer {
    /// Serializes the whole tokenizer — vocabulary, special flags, merge
    /// rules, scores, configuration — to the versioned text format that
    /// `from_saved` reads back.
    pub fn save_string(&self) -> (r: String)
        requires
            self.wf(),
        ensures
            r@.len() >= 18,
            r@.subrange(0, 18) == "aura-tokenizer-v1\n"@,
    {
        let nl = String::from_str("\n");
        proof {
            reveal_strlit("aura-tokenizer-v1");
            reveal_strlit("aura-tokenizer-v1\n");
            reveal_strlit("\n");
        }
        let mut out = format_header();
        out.append(nl.as_str());
        proof {
            assert(out@ =~= "aura-tokenizer-v1\n"@);
        }
        out.append(
            match self.model {
                Model::Bpe => "bpe",
                Model::WordPiece => "wordpiece",
                Model::Unigram => "unigram",
                Model::CharLevel => "charlevel",
            },
        );
        out.append(nl.as_str());
        out.append(
            match self.form {
                NormForm::Identity => "identity",
                NormForm::Nfc => "NFC",
                NormForm::Nfd => "NFD",
                NormForm::Nfkc => "NFKC",
                NormForm::Nfkd => "NFKD",
            },
        );
        out.append(nl.as_str());
        out.append(if self.strip_accents { "1" } else { "0" });
        out.append(nl.as_str());
        out.append(if self.lowercase { "1" } else { "0" });
        out.append(nl.as_str());
        out.append(if self.post_bert { "1" } else { "0" });
        out.append(nl.as_str());
        out.append(if self.post_add_special { "1" } else { "0" });
        out.append(nl.as_str());
        out.append(fmt_u64(self.unk_id as u64).as_str());
        out.append(nl.as_str());
        out.append(fmt_u64(self.cls_id as u64).as_str());
        out.append(nl.as_str());
        out.append(fmt_u64(self.sep_id as u64).as_str());
        out.append(nl.as_str());
        let nt = self.vocab.len();
        out.append(fmt_u64(nt as u64).as_str());
        out.append(nl.as_str());
        let mut i: usize = 0;
        while i < nt
            invariant
                nt == self.vocab.spec_tokens().len(),
                self.wf(),
                out@.len() >= 18,
                out@.subrange(0, 18) == "aura-tokenizer-v1\n"@,
            decreases nt - i,
        {
            let ghost o0 = out@;
            out.append(if self.vocab.is_special(i) { "1" } else { "0" });
            out.append(fmt_hex(self.vocab.token_bytes(i)).as_str());
            out.append(nl.as_str());
            proof {
                assert(out@.subrange(0, 18) =~= o0.subrange(0, 18));
            }
            i = i + 1;
        }
        out.append(fmt_u64(self.merges.len() as u64).as_str());
        out.append(nl.as_str());
        let mut j: usize = 0;
        while j < self.merges.len()
            invariant
                out@.len() >= 18,
                out@.subrange(0, 18) == "aura-tokenizer-v1\n"@,
            decreases self.merges@.len() - j,
        {
            let ghost o0 = out@;
            let rule = self.merges[j];
            out.append(fmt_u64(rule.left as u64).as_str());
            out.append(" ");
            out.append(fmt_u64(rule.right as u64).as_str());
            out.append(" ");
            out.append(fmt_u64(rule.result as u64).as_str());
            out.append(nl.as_str());
            proof {
                assert(out@.subrange(0, 18) =~= o0.subrange(0, 18));
            }
            j = j + 1;
        }
        out.append(fmt_u64(self.scores.len() as u64).as_str());
        out.append(nl.as_str());
        let mut k: usize = 0;
        while k < self.scores.len()
            invariant
                out@.len() >= 18,
                out@.subrange(0, 18) == "aura-tokenizer-v1\n"@,
            decreases self.scores@.len() - k,
        {
            let ghost o0 = out@;
            out.append(fmt_i64(self.scores[k]).as_str());
            out.append(nl.as_str());
            proof {
                assert(out@.subrange(0, 18) =~= o0.subrange(0, 18));
            }
            k = k + 1;
        }
        out.append(fmt_u64(self.patterns.len() as u64).as_str());
        out.append(nl.as_str());
        let mut q: usize = 0;
        while q < self.patterns.len()
            invariant
                out@.len() >= 18,
                out@.subrange(0, 18) == "aura-tokenizer-v1\n"@,
            decreases self.patterns@.len() - q,
        {
            let ghost o0 = out@;
            out.append(fmt_hex(&self.patterns[q].as_str().as_bytes_vec()).as_str());
            out.append(nl.as_str());
            proof {
                assert(out@.subrange(0, 18) =~= o0.subrange(0, 18));
            }
            q = q + 1;
        }
        out
    }

    /// Reads a tokenizer back from the versioned text format. A version
    /// mismatch or structural corruption — a missing field, a malformed
    /// number, a duplicate or empty token, an id out of range, a merge
    /// rule that does not spell its parts — is a format error, and no
    /// instance is produced.
    pub fn from_saved(data: &str) -> (r: Result<Tokenizer, TokenizerError>)
        ensures
            r matches Ok(t) ==> t.wf(),
            r is Ok ==> data@.len() >= 18 && data@.subrange(0, 18) == "aura-tokenizer-v1\n"@,
            r is Err ==> r == Result::<Tokenizer, TokenizerError>::Err(TokenizerError::Format),
    {
        let chars = crate::normalize::str_chars(data);
        let lines = split_lines(&chars);
        let ghost line0 = lines@[0]@;
        let mut at: usize = 0;
        if lines.len() < 11 {
            return Err(TokenizerError::Format);
        }
        let header = crate::normalize::chars_to_string(&lines[0]);
        if !(header == format_header()) {
            return Err(TokenizerError::Format);
        }
        let model_s = crate::normalize::chars_to_string(&lines[1]);
        let model = if model_s == String::from_str("bpe") {
            Model::Bpe
        } else if model_s == String::from_str("wordpiece") {
            Model::WordPiece
        } else if model_s == String::from_str("unigram") {
            Model::Unigram
        } else if model_s == String::from_str("charlevel") {
            Model::CharLevel
        } else {
            return Err(TokenizerError::Format);
        };
        let form_s = crate::normalize::chars_to_string(&lines[2]);
        let form = if form_s == String::from_str("identity") {
            NormForm::Identity
        } else if form_s == String::from_str("NFC") {
            NormForm::Nfc
        } else if form_s == String::from_str("NFD") {
            NormForm::Nfd
        } else if form_s == String::from_str("NFKC") {
            NormForm::Nfkc
        } else if form_s == String::from_str("NFKD") {
            NormForm::Nfkd
        } else {
            return Err(TokenizerError::Format);
        };
        let strip_accents = match parse_flag(&lines[3]) {
            Some(b) => b,
            None => {
                return Err(TokenizerError::Format);
            },
        };
        let lowercase = match parse_flag(&lines[4]) {
            Some(b) => b,
            None => {
                return Err(TokenizerError::Format);
            },
        };
        let post_bert = match parse_flag(&lines[5]) {
            Some(b) => b,
            None => {
                return Err(TokenizerError::Format);
            },
        };
        let post_add_special = match parse_flag(&lines[6]) {
            Some(b) => b,
            None => {
                return Err(TokenizerError::Format);
            },
        };
        let unk_id = match parse_index(&lines[7]) {
            Some(v) => v,
            None => {
                return Err(TokenizerError::Format);
            },
        };
        let cls_id = match parse_index(&lines[8]) {
            Some(v) => v,
            None => {
                return Err(TokenizerError::Format);
            },
        };
        let sep_id = match parse_index(&lines[9]) {
            Some(v) => v,
            None => {
                return Err(TokenizerError::Format);
            },
        };
        let ntokens = match parse_index(&lines[10]) {
            Some(v) => v,
            None => {
                return Err(TokenizerError::Format);
            },
        };
        at = 11;
        if ntokens > 0x7fff_fffe {
            return Err(TokenizerError::Format);
        }
        let mut vocab = Vocab::new();
        let mut i: usize = 0;
        while i < ntokens
            invariant
                vocab.wf(),
                vocab.spec_special().len() == vocab.spec_tokens().len(),
                vocab.spec_tokens().len() == i,
                i <= ntokens,
                ntokens <= 0x7fff_fffe,
            decreases ntokens - i,
        {
            if at >= lines.len() {
                return Err(TokenizerError::Format);
            }
            let line = &lines[at];
            if line.len() < 1 {
                return Err(TokenizerError::Format);
            }
            let flag = line[0];
            let special = if flag == '1' {
                true
            } else if flag == '0' {
                false
            } else {
                return Err(TokenizerError::Format);
            };
            let mut rest: Vec<char> = Vec::new();
            let mut q: usize = 1;
            while q < line.len()
                invariant
                    true,
                decreases line@.len() - q,
            {
                rest.push(line[q]);
                q = q + 1;
            }
            let bytes = match parse_hex(&rest) {
                Some(b) => b,
                None => {
                    return Err(TokenizerError::Format);
                },
            };
            if bytes.len() == 0 {
                return Err(TokenizerError::Format);
            }
            match vocab.find(&bytes) {
                Some(_) => {
                    return Err(TokenizerError::Format);
                },
                None => {},
            }
            let _ = vocab.push_token(bytes, special);
            at = at + 1;
            i = i + 1;
        }
        if !(unk_id < ntokens && cls_id < ntokens && sep_id < ntokens) {
            return Err(TokenizerError::Format);
        }
        if !(vocab.is_special(unk_id) && vocab.is_special(cls_id) && vocab.is_special(sep_id)) {
            return Err(TokenizerError::Format);
        }
        if at >= lines.len() {
            return Err(TokenizerError::Format);
        }
        let nmerges = match parse_index(&lines[at]) {
            Some(v) => v,
            None => {
                return Err(TokenizerError::Format);
            },
        };
        at = at + 1;
        let mut merges: Vec<MergeRule> = Vec::new();
        let mut j: usize = 0;
        while j < nmerges
            invariant
                vocab.wf(),
                forall|m: int|
                    0 <= m < merges@.len() ==> rule_wf(vocab.spec_tokens(), #[trigger]
                    merges@[m]),
            decreases nmerges - j,
        {
            if at >= lines.len() {
                return Err(TokenizerError::Format);
            }
            match parse_rule(&lines[at], &vocab) {
                Some(rule) => {
                    merges.push(rule);
                },
                None => {
                    return Err(TokenizerError::Format);
                },
            }
            at = at + 1;
            j = j + 1;
        }
        if at >= lines.len() {
            return Err(TokenizerError::Format);
        }
        let nscores = match parse_index(&lines[at]) {
            Some(v) => v,
            None => {
                return Err(TokenizerError::Format);
            },
        };
        at = at + 1;
        let mut scores: Vec<i64> = Vec::new();
        let mut k: usize = 0;
        while k < nscores
            invariant
                scores@.len() == k,
            decreases nscores - k,
        {
            if at >= lines.len() {
                return Err(TokenizerError::Format);
            }
            match parse_i64(&lines[at]) {
                Some(v) => {
                    scores.push(v);
                },
                None => {
                    return Err(TokenizerError::Format);
                },
            }
            at = at + 1;
            k = k + 1;
        }
        while scores.len() < vocab.len()
            invariant
                vocab.wf(),
            decreases vocab.spec_tokens().len() - scores@.len(),
        {
            scores.push(0);
        }
        if scores.len() != vocab.len() {
            return Err(TokenizerError::Format);
        }
        proof {
            vocab.lemma_wf_facts();
        }
        if at >= lines.len() {
            return Err(TokenizerError::Format);
        }
        let npatterns = match parse_index(&lines[at]) {
            Some(v) => v,
            None => {
                return Err(TokenizerError::Format);
            },
        };
        at = at + 1;
        let mut patterns: Vec<String> = Vec::new();
        let mut q2: usize = 0;
        while q2 < npatterns
            invariant
                true,
            decreases npatterns - q2,
        {
            if at >= lines.len() {
                return Err(TokenizerError::Format);
            }
            match parse_hex(&lines[at]) {
                Some(b) => {
                    patterns.push(bytes_to_pattern(&b));
                },
                None => {
                    return Err(TokenizerError::Format);
                },
            }
            at = at + 1;
            q2 = q2 + 1;
        }
        proof {
            reveal_strlit("aura-tokenizer-v1");
            reveal_strlit("aura-tokenizer-v1\n");
            assert(line0 == "aura-tokenizer-v1"@);
            assert(lines@.len() >= 2);
            assert(data@.len() >= 18);
            assert(data@.subrange(0, 18) =~= "aura-tokenizer-v1\n"@) by {
                assert(forall|k: int| 0 <= k < 17 ==> data@[k] == line0[k]);
                assert(data@[17] == '\n');
            }
        }
        Ok(
            Tokenizer {
                model,
                vocab,
                merges,
                scores,
                form,
                strip_accents,
                lowercase,
                patterns,
                post_bert,
                post_add_special,
                unk_id,
                cls_id,
                sep_id,
            },
        )
    }
}

/// A persisted pattern back as a string (patterns are stored as the hex
/// of their UTF-8 bytes).
fn bytes_to_pattern(b: &Vec<u8>) -> (r: String)
{
    crate::tokenizer::bytes_to_string(b)
}

/// A 0-or-1 line as a flag.
fn parse_flag(s: &Vec<char>) -> (r: Option<bool>)
{
    if s.len() != 1 {
        None
    } else if s[0] == '1' {
        Some(true)
    } else if s[0] == '0' {
        Some(false)
    } else {
        None
    }
}

/// A decimal line as an index.
fn parse_index(s: &Vec<char>) -> (r: Option<usize>)
{
    match parse_u64(s) {
        Some(v) => {
            if v <= usize::MAX as u64 {
                Some(v as usize)
            } else {
                None
            }
        },
        None => None,
    }
}

/// One merge line: three decimal ids, a rule accepted only when the
/// result token spells its parts' bytes.
fn parse_rule(line: &Vec<char>, vocab: &Vocab) -> (r: Option<MergeRule>)
    requires
        vocab.wf(),
    ensures
        r matches Some(rule) ==> rule_wf(vocab.spec_tokens(), rule),
{
    let mut fields: Vec<Vec<char>> = Vec::new();
    let mut cur: Vec<char> = Vec::new();
    let mut i: usize = 0;
    while i < line.len()
        invariant
            true,
        decreases line@.len() - i,
    {
        let c = line[i];
        if c == ' ' {
            fields.push(cur);
            cur = Vec::new();
        } else {
            cur.push(c);
        }
        i = i + 1;
    }
    fields.push(cur);
    if fields.len() != 3 {
        return None;
    }
    let l = match parse_index(&fields[0]) {
        Some(v) => v,
        None => {
            return None;
        },
    };
    let rgt = match parse_index(&fields[1]) {
        Some(v) => v,
        None => {
            return None;
        },
    };
    let res = match parse_index(&fields[2]) {
        Some(v) => v,
        None => {
            return None;
        },
    };
    let n = vocab.len();
    if !(l < n && rgt < n && res < n) {
        return None;
    }
    let mut fused: Vec<u8> = Vec::new();
    fused.extend_from_slice(vocab.token_bytes(l).as_slice());
    fused.extend_from_slice(vocab.token_bytes(rgt).as_slice());
    let matches_result = match vocab.find(&fused) {
        Some(id) => id == res,
        None => false,
    };
    if matches_result {
        proof {
            assert(fused@ =~= vocab.spec_tokens()[l as int] + vocab.spec_tokens()[rgt as int]);
        }
        Some(MergeRule { left: l, right: rgt, result: res })
    } else {
        None
    }
}

} // verus!
