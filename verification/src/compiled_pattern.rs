//! A compiled regex that carries the pattern it was compiled from.

use vstd::prelude::*;
use regex::{Captures, Regex};
use crate::pwfilter::mask_field;

verus! {

#[verifier::external_type_specification]
#[verifier::external_body]
pub struct ExRegex(Regex);

#[verifier::external_type_specification]
#[verifier::external_body]
pub struct ExRegexError(regex::Error);

/// Whether `Regex::new` accepts `pattern` (within its default size limit).
pub uninterp spec fn regex_compiles(pattern: Seq<char>) -> bool;

/// What `Regex::replace_all` returns for the regex of `pattern` on `text`
/// where each match is replaced by `mask_field` of its group 1.
pub uninterp spec fn regex_masked(pattern: Seq<char>, text: Seq<char>) -> Seq<char>;

/// A regex and the pattern it was compiled from. Its fields are private to
/// this module, and `regex_new` is the only place that makes one, so the
/// regex is always the one compiled from the pattern.
pub struct CompiledPattern {
    re: Regex,
    pattern: String,
}

impl CompiledPattern {
    /// The pattern the regex was compiled from.
    pub closed spec fn pattern(&self) -> Seq<char> {
        self.pattern@
    }
}

/// `Regex::new`: compiles `pattern`; fails exactly where `regex_compiles`
/// says it does (a syntax error or a regex over the size limit). The
/// compiled regex is handed out together with its pattern.
#[verifier::external_body]
pub(crate) fn regex_new(pattern: &str) -> (r: Result<CompiledPattern, regex::Error>)
    ensures
        r is Ok <==> regex_compiles(pattern@),
        r matches Ok(c) ==> c.pattern() == pattern@,
{
    match Regex::new(pattern) {
        Ok(re) => Ok(CompiledPattern { re, pattern: pattern.to_owned() }),
        Err(e) => Err(e),
    }
}

/// `Regex::replace_all` of the regex on `text`, each match replaced by
/// `mask_field` of its group 1.
#[verifier::external_body]
pub(crate) fn regex_replace_all_masked(c: &CompiledPattern, text: &str) -> (r: String)
    ensures
        r@ == regex_masked(c.pattern(), text@),
{
    c.re.replace_all(text, |caps: &Captures| mask_field(&caps[1])).into_owned()
}

} // verus!
