use vstd::prelude::*;
use vstd::string::StrSliceExecFns;
use vstd::string::StringExecFns;

use unicode_normalization::UnicodeNormalization;

use crate::errors::TokenizerError;

verus! {

/// The closed set of Unicode normalization forms the engine supports.
/// `Identity` leaves text unchanged and is the initial configuration.
#[derive(Clone, Copy, Debug, PartialEq, Eq, Structural)]
pub enum NormForm {
    Identity,
    Nfc,
    Nfd,
    Nfkc,
    Nfkd,
}

/// What canonical composition (NFC) returns for a character sequence.
pub uninterp spec fn nfc_of(s: Seq<char>) -> Seq<char>;

/// What canonical decomposition (NFD) returns for a character sequence.
pub uninterp spec fn nfd_of(s: Seq<char>) -> Seq<char>;

/// What compatibility composition (NFKC) returns for a character sequence.
pub uninterp spec fn nfkc_of(s: Seq<char>) -> Seq<char>;

/// What compatibility decomposition (NFKD) returns for a character sequence.
pub uninterp spec fn nfkd_of(s: Seq<char>) -> Seq<char>;

/// What locale-invariant Unicode lowercasing returns for a character sequence.
pub uninterp spec fn lower_of(s: Seq<char>) -> Seq<char>;

/// Whether a character is a combining mark.
pub uninterp spec fn is_mark(c: char) -> bool;

/// Relies on unicode_normalization's `nfc` (UAX #15 canonical composition):
/// the result depends on the characters alone, normalization is idempotent
/// (UAX #15), and an empty string stays empty.
#[verifier::external_body]
fn nfc_str(s: &str) -> (r: String)
    ensures
        r@ == nfc_of(s@),
        nfc_of(r@) == r@,
        s@.len() == 0 ==> r@.len() == 0,
{
    s.nfc().collect()
}

/// Relies on unicode_normalization's `nfd` (UAX #15 canonical decomposition):
/// the result depends on the characters alone, normalization is idempotent
/// (UAX #15), and an empty string stays empty.
#[verifier::external_body]
fn nfd_str(s: &str) -> (r: String)
    ensures
        r@ == nfd_of(s@),
        nfd_of(r@) == r@,
        s@.len() == 0 ==> r@.len() == 0,
{
    s.nfd().collect()
}

/// Relies on unicode_normalization's `nfkc` (UAX #15 compatibility
/// composition): the result depends on the characters alone, normalization
/// is idempotent (UAX #15), and an empty string stays empty.
#[verifier::external_body]
fn nfkc_str(s: &str) -> (r: String)
    ensures
        r@ == nfkc_of(s@),
        nfkc_of(r@) == r@,
        s@.len() == 0 ==> r@.len() == 0,
{
    s.nfkc().collect()
}

/// Relies on unicode_normalization's `nfkd` (UAX #15 compatibility
/// decomposition): the result depends on the characters alone, normalization
/// is idempotent (UAX #15), and an empty string stays empty.
#[verifier::external_body]
fn nfkd_str(s: &str) -> (r: String)
    ensures
        r@ == nfkd_of(s@),
        nfkd_of(r@) == r@,
        s@.len() == 0 ==> r@.len() == 0,
{
    s.nfkd().collect()
}

/// Relies on `str::to_lowercase`: the Unicode lowercase mapping, a function
/// of the characters alone; an empty string stays empty.
#[verifier::external_body]
fn lower_str(s: &str) -> (r: String)
    ensures
        r@ == lower_of(s@),
        s@.len() == 0 ==> r@.len() == 0,
{
    s.to_lowercase()
}

/// Relies on unicode_normalization's `char::is_combining_mark` (the Unicode
/// Mark categories): a function of the character alone.
#[verifier::external_body]
fn char_is_mark(c: char) -> (r: bool)
    ensures
        r == is_mark(c),
{
    unicode_normalization::char::is_combining_mark(c)
}

/// Relies on `String::from_iter` over characters: the string of exactly the
/// given characters, in order.
#[verifier::external_body]
pub(crate) fn chars_to_string(v: &Vec<char>) -> (r: String)
    ensures
        r@ == v@,
{
    v.iter().collect()
}

/// The characters of `s` as a vector.
pub fn str_chars(s: &str) -> (r: Vec<char>)
    ensures
        r@ == s@,
{
    let n = s.unicode_len();
    let mut out: Vec<char> = Vec::new();
    let mut i: usize = 0;
    while i < n
        invariant
            i <= n,
            n == s@.len(),
            out@ == s@.subrange(0, i as int),
        decreases n - i,
    {
        out.push(s.get_char(i));
        proof {
            assert(out@ =~= s@.subrange(0, i as int + 1));
        }
        i = i + 1;
    }
    proof {
        assert(s@.subrange(0, n as int) =~= s@);
    }
    out
}

/// Not a combining mark.
pub open spec fn not_mark(c: char) -> bool {
    !is_mark(c)
}

/// The characters left after removing combining marks.
pub open spec fn strip_marks(s: Seq<char>) -> Seq<char> {
    s.filter(|c: char| not_mark(c))
}

/// A normalization form applied to a character sequence.
pub open spec fn apply_form(form: NormForm, s: Seq<char>) -> Seq<char> {
    match form {
        NormForm::Identity => s,
        NormForm::Nfc => nfc_of(s),
        NormForm::Nfd => nfd_of(s),
        NormForm::Nfkc => nfkc_of(s),
        NormForm::Nfkd => nfkd_of(s),
    }
}

/// The whole normalization pipeline: the configured form, then optional
/// accent stripping (combining marks removed after canonical
/// decomposition), then optional lowercasing.
pub open spec fn spec_normalize(form: NormForm, strip: bool, lower: bool, s: Seq<char>) -> Seq<
    char,
> {
    let a = apply_form(form, s);
    let b = if strip {
        strip_marks(nfd_of(a))
    } else {
        a
    };
    if lower {
        lower_of(b)
    } else {
        b
    }
}

/// Removes combining marks after canonical decomposition.
fn strip_accents(s: &str) -> (r: String)
    ensures
        r@ == strip_marks(nfd_of(s@)),
        s@.len() == 0 ==> r@.len() == 0,
{
    let d = nfd_str(s);
    let cs = str_chars(d.as_str());
    let ghost dv = d@;
    let mut out: Vec<char> = Vec::new();
    let mut i: usize = 0;
    while i < cs.len()
        invariant
            i <= cs@.len(),
            cs@ == dv,
            out@ == dv.subrange(0, i as int).filter(|c: char| not_mark(c)),
        decreases cs@.len() - i,
    {
        let c = cs[i];
        let keep = !char_is_mark(c);
        proof {
            let pre = dv.subrange(0, i as int);
            let pre1 = dv.subrange(0, i as int + 1);
            assert(pre1.drop_last() =~= pre);
            assert(pre1.last() == dv[i as int]);
            reveal_with_fuel(Seq::<_>::filter, 2);
        }
        if keep {
            out.push(c);
        }
        i = i + 1;
    }
    proof {
        assert(dv.subrange(0, cs@.len() as int) =~= dv);
    }
    chars_to_string(&out)
}

/// Applies a normalization form to `s`.
fn run_form(form: NormForm, s: &str) -> (r: String)
    ensures
        r@ == apply_form(form, s@),
        apply_form(form, r@) == r@,
        s@.len() == 0 ==> r@.len() == 0,
{
    match form {
        NormForm::Identity => s.to_owned(),
        NormForm::Nfc => nfc_str(s),
        NormForm::Nfd => nfd_str(s),
        NormForm::Nfkc => nfkc_str(s),
        NormForm::Nfkd => nfkd_str(s),
    }
}

/// Normalizes raw input: the configured form, optional accent stripping,
/// optional lowercasing. With stripping and lowercasing disabled the result
/// is idempotent: normalizing it again under the same form returns it
/// unchanged.
pub fn normalize(text: &str, form: NormForm, strip_accents_on: bool, lowercase_on: bool) -> (r:
    String)
    ensures
        r@ == spec_normalize(form, strip_accents_on, lowercase_on, text@),
        !strip_accents_on && !lowercase_on ==> spec_normalize(form, false, false, r@) == r@,
        text@.len() == 0 ==> r@.len() == 0,
{
    let a = run_form(form, text);
    let b = if strip_accents_on {
        strip_accents(a.as_str())
    } else {
        a
    };
    if lowercase_on {
        lower_str(b.as_str())
    } else {
        b
    }
}

/// The string form names the engine accepts, mapped to forms; anything
/// else is a configuration error.
pub open spec fn spec_parse_form(s: Seq<char>) -> Result<NormForm, TokenizerError> {
    if s == "NFC"@ {
        Ok(NormForm::Nfc)
    } else if s == "NFD"@ {
        Ok(NormForm::Nfd)
    } else if s == "NFKC"@ {
        Ok(NormForm::Nfkc)
    } else if s == "NFKD"@ {
        Ok(NormForm::Nfkd)
    } else if s == "identity"@ {
        Ok(NormForm::Identity)
    } else {
        Err(TokenizerError::Config)
    }
}

/// Parses a normalization form name; unsupported names are a
/// configuration error, by design.
pub fn parse_form(s: &str) -> (r: Result<NormForm, TokenizerError>)
    ensures
        r == spec_parse_form(s@),
{
    let t = s.to_owned();
    if t == String::from_str("NFC") {
        Ok(NormForm::Nfc)
    } else if t == String::from_str("NFD") {
        Ok(NormForm::Nfd)
    } else if t == String::from_str("NFKC") {
        Ok(NormForm::Nfkc)
    } else if t == String::from_str("NFKD") {
        Ok(NormForm::Nfkd)
    } else if t == String::from_str("identity") {
        Ok(NormForm::Identity)
    } else {
        Err(TokenizerError::Config)
    }
}

} // verus!
