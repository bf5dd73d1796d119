//! Masking passwords in access log lines before they are written out.

use vstd::prelude::*;
use crate::compiled_pattern::{
    regex_compiles, regex_masked, regex_new, regex_replace_all_masked, CompiledPattern,
};

verus! {

/// A password parameter of a query: the name in group 1, then `=` and the value.
pub const PASSWORD_PATTERN: &'static str = "(password|pw|pass|passw|passwd)=[^& \\t\\n]*";

/// A password parameter with its value hidden: `name=***`.
pub open spec fn masked(name: Seq<char>) -> Seq<char> {
    name + "=***"@
}

/// The replacement of a password parameter named `name`.
pub fn mask_field(name: &str) -> (r: String)
    ensures
        r@ == masked(name@),
{
    let mut r = name.to_owned();
    r.append("=***");
    r
}

/// Why the filter could not be set up.
#[derive(Debug)]
pub enum FilterError {
    /// The password pattern did not compile.
    InvalidPattern,
}

/// The compiled password pattern.
pub struct PasswordFilter {
    compiled: CompiledPattern,
}

impl PasswordFilter {
    /// The pattern the filter's regex was compiled from.
    pub closed spec fn pattern(&self) -> Seq<char> {
        self.compiled.pattern()
    }

    /// The filter's regex is the one compiled from `PASSWORD_PATTERN`.
    #[verifier::type_invariant]
    spec fn compiled_from_password_pattern(&self) -> bool {
        self.compiled.pattern() == PASSWORD_PATTERN@
    }

    /// Compile the password pattern.
    pub fn new() -> (r: Result<Self, FilterError>)
        ensures
            r is Ok <==> regex_compiles(PASSWORD_PATTERN@),
            r matches Ok(f) ==> f.pattern() == PASSWORD_PATTERN@,
    {
        match regex_new(PASSWORD_PATTERN) {
            Ok(compiled) => Ok(Self { compiled }),
            Err(_) => Err(FilterError::InvalidPattern),
        }
    }

    /// The log line as written out: a line break appended, then every
    /// password parameter masked.
    pub fn filter_line(&self, line: &str) -> (r: String)
        ensures
            r@ == regex_masked(self.pattern(), line@.push('\n')),
            r@ == regex_masked(PASSWORD_PATTERN@, line@.push('\n')),
    {
        proof {
            use_type_invariant(self);
        }
        let mut text = line.to_owned();
        crate::text::push_char(&mut text, '\n');
        regex_replace_all_masked(&self.compiled, text.as_str())
    }
}

} // verus!
