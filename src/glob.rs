//! The file pattern, compiled and matched by the `globset` crate.

use vstd::prelude::*;
use globset::{Glob, GlobSet, GlobSetBuilder};

verus! {

#[verifier::external_type_specification]
#[verifier::external_body]
pub struct ExGlobSet(GlobSet);

#[verifier::external_type_specification]
#[verifier::external_body]
pub struct ExGlobError(globset::Error);

/// Whether the pattern parses (`globset::Glob::new`) and a set holding it
/// builds (`globset::GlobSetBuilder::build`).
pub uninterp spec fn glob_compiles(pattern: Seq<char>) -> bool;

/// Whether the set built from `pattern` matches `path`.
pub uninterp spec fn glob_matches(pattern: Seq<char>, path: Seq<char>) -> bool;

/// The longest pattern, in characters, that is compiled. Beyond it the
/// literal-suffix automaton that `GlobSetBuilder::build` makes with
/// `AhoCorasick::new(..).unwrap()` could run out of state ids (about
/// `i32::MAX` of them, one per byte of the literal) and panic.
pub const MAX_PATTERN_LEN: usize = 500_000_000;

/// A compiled glob together with the pattern it was compiled from.
///
/// The fields are private and only [`GlobFilter::compile`] builds a value,
/// so `set` is always built from `pattern` alone.
pub struct GlobFilter {
    pattern: String,
    set: GlobSet,
}

impl GlobFilter {
    /// The pattern this filter was compiled from.
    pub closed spec fn spec_pattern(&self) -> Seq<char> {
        self.pattern@
    }

    /// Relies on `globset::Glob::new` (parses the pattern with default
    /// options) and `globset::GlobSetBuilder::build` (compiles it, returning
    /// a regex that cannot be built as an error): a filter, or why there is none.
    #[verifier::external_body]
    pub(crate) fn compile(pattern: &str) -> (r: Result<GlobFilter, globset::Error>)
        requires
            pattern@.len() <= MAX_PATTERN_LEN,
        ensures
            r.is_ok() == glob_compiles(pattern@),
            r matches Ok(g) ==> g.spec_pattern() == pattern@,
    {
        let glob = Glob::new(pattern)?;
        let mut builder = GlobSetBuilder::new();
        builder.add(glob);
        let set = builder.build()?;
        Ok(GlobFilter { pattern: pattern.to_string(), set })
    }

    /// Relies on `globset::GlobSet::is_match`: whether the path matches the
    /// set's one pattern.
    #[verifier::external_body]
    pub(crate) fn is_match(&self, path: &str) -> (r: bool)
        ensures
            r == glob_matches(self.spec_pattern(), path@),
    {
        self.set.is_match(path)
    }

    /// The pattern this filter was compiled from.
    pub fn pattern(&self) -> (r: &str)
        ensures
            r@ == self.spec_pattern(),
    {
        self.pattern.as_str()
    }
}

} // verus!
