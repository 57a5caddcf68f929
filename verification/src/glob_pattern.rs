//! Shell-style glob patterns, compiled and matched by the `glob` crate.
use vstd::prelude::*;

verus! {

#[verifier::external_type_specification]
#[verifier::external_body]
pub struct ExPattern(glob::Pattern);

/// Whether `glob::Pattern::new` accepts `pattern`.
pub uninterp spec fn glob_compiles(pattern: Seq<char>) -> bool;

/// Whether the pattern compiled from `pattern` matches `value` under the
/// default match options.
pub uninterp spec fn glob_matches(pattern: Seq<char>, value: Seq<char>) -> bool;

/// A compiled pattern together with the text it was compiled from.
pub struct CompiledGlob {
    source: String,
    compiled: glob::Pattern,
}

impl View for CompiledGlob {
    type V = Seq<char>;

    /// The text the pattern was compiled from.
    closed spec fn view(&self) -> Seq<char> {
        self.source@
    }
}

/// Compiles `pattern` with `glob::Pattern::new`.
///
/// Trusted: the contract claims that the compilation succeeds exactly when
/// `glob_compiles` holds of the text, which names what `Pattern::new` decides
/// (it reads the text alone; its `**` rule goes by the target's path
/// separator, `/` on the Unix targets this program runs on), and that the
/// compiled pattern remembers the text it was compiled from.
#[verifier::external_body]
pub(crate) fn compile_glob(pattern: &str) -> (r: Option<CompiledGlob>)
    ensures
        r is Some <==> glob_compiles(pattern@),
        r matches Some(g) ==> g@ == pattern@,
{
    match glob::Pattern::new(pattern) {
        Ok(compiled) => Some(CompiledGlob { source: pattern.to_string(), compiled }),
        Err(_) => None,
    }
}

/// Matches `value` against a compiled pattern with `glob::Pattern::matches`.
///
/// Trusted: the contract claims that the result is `glob_matches` of the
/// pattern's text and the value; `Pattern::matches` uses the default match
/// options and reads nothing but the compiled pattern and the value.
#[verifier::external_body]
pub(crate) fn glob_pattern_matches(g: &CompiledGlob, value: &str) -> (r: bool)
    ensures
        r == glob_matches(g@, value@),
{
    g.compiled.matches(value)
}

} // verus!
