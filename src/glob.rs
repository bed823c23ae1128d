//! Segment-scoped glob matchers, compiled once by globset.
use vstd::prelude::*;

use globset::{Glob, GlobSet, GlobSetBuilder};
use vstd::utf8::encode_utf8;

verus! {

#[verifier::external_type_specification]
#[verifier::external_body]
pub struct ExGlobSet(globset::GlobSet);

#[verifier::external_type_specification]
#[verifier::external_body]
pub struct ExGlobError(globset::Error);

/// The longest glob pattern, in UTF-8 bytes, that is handed to globset. Its
/// literal parts go to an Aho-Corasick automaton, which cannot index a
/// pattern of `i32::MAX - 1` bytes or more.
pub const MAX_GLOB_BYTES: usize = 1073741824;

/// Whether globset parses `pattern` as a glob (default options) and builds a
/// matcher for it within its regex size limit.
pub uninterp spec fn glob_is_valid(pattern: Seq<char>) -> bool;

/// Whether the matcher that globset builds from `pattern` accepts `segment`.
pub uninterp spec fn glob_accepts(pattern: Seq<char>, segment: Seq<char>) -> bool;

/// A glob pattern together with the matcher built from it.
pub struct SegmentGlob {
    raw: String,
    matcher: GlobSet,
}

impl View for SegmentGlob {
    type V = Seq<char>;

    closed spec fn view(&self) -> Seq<char> {
        self.raw@
    }
}

impl SegmentGlob {
    /// Relies on `globset::Glob::new` (default options), which fails on the
    /// patterns that are not globs, and on `GlobSetBuilder::build` for that one
    /// glob, which fails when its regex exceeds globset's size limit.
    #[verifier::external_body]
    pub(crate) fn compile(pattern: &str) -> (r: Result<SegmentGlob, globset::Error>)
        requires
            encode_utf8(pattern@).len() <= MAX_GLOB_BYTES,
        ensures
            r is Ok <==> glob_is_valid(pattern@),
            r matches Ok(g) ==> g@ == pattern@,
    {
        let glob = Glob::new(pattern)?;
        let matcher = GlobSetBuilder::new().add(glob).build()?;
        Ok(SegmentGlob { raw: pattern.to_string(), matcher })
    }

    /// Relies on `globset::GlobSet::is_match` for the set of this one glob:
    /// whether the glob matches `segment`.
    #[verifier::external_body]
    pub(crate) fn is_match(&self, segment: &str) -> (r: bool)
        ensures
            r == glob_accepts(self@, segment@),
    {
        self.matcher.is_match(segment)
    }

    /// The pattern this glob was compiled from.
    pub fn pattern(&self) -> (r: &str)
        ensures
            r@ == self@,
    {
        self.raw.as_str()
    }
}

} // verus!
