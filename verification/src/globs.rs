//! Basename globs, matched by the `globset` crate.
use vstd::prelude::*;
use globset::{Glob, GlobSet, GlobSetBuilder};

verus! {

#[verifier::external_type_specification]
#[verifier::external_body]
pub struct ExGlob(globset::Glob);

#[verifier::external_type_specification]
#[verifier::external_body]
pub struct ExGlobSet(globset::GlobSet);

#[verifier::external_type_specification]
#[verifier::external_body]
pub struct ExGlobSetBuilder(globset::GlobSetBuilder);

/// The pattern text that a `Glob` was built from.
pub uninterp spec fn glob_text(g: Glob) -> Seq<char>;

/// The patterns added to a `GlobSetBuilder`, in order.
pub uninterp spec fn builder_patterns(b: GlobSetBuilder) -> Seq<Seq<char>>;

/// The patterns a `GlobSet` was built from.
pub uninterp spec fn globset_patterns(s: GlobSet) -> Seq<Seq<char>>;

/// What `Glob::new` gives for a pattern: `None` when it accepts it, else
/// the `Display` text of its error.
pub uninterp spec fn glob_new_error(pattern: Seq<char>) -> Option<Seq<char>>;

/// What `GlobSetBuilder::build` gives for the added patterns: `None` when it
/// succeeds, else the `Display` text of its error.
pub uninterp spec fn globset_build_error(patterns: Seq<Seq<char>>) -> Option<Seq<char>>;

/// Whether the glob built from `pattern` (default options) matches `path`.
pub uninterp spec fn glob_matches(pattern: Seq<char>, path: Seq<char>) -> bool;

/// Whether any of the patterns matches the path.
pub open spec fn any_glob_matches(patterns: Seq<Seq<char>>, path: Seq<char>) -> bool {
    exists|i: int| 0 <= i < patterns.len() && glob_matches(#[trigger] patterns[i], path)
}

/// `Glob::new`. Whether it succeeds, and the error text when not, are named
/// by `glob_new_error`; the glob keeps the pattern text (as `Glob::glob`
/// shows). The glob grammar itself is not stated.
#[verifier::external_body]
pub fn new_glob(pattern: &str) -> (r: Result<Glob, String>)
    ensures
        r is Ok <==> glob_new_error(pattern@) is None,
        r matches Ok(g) ==> glob_text(g) == pattern@,
        r matches Err(e) ==> glob_new_error(pattern@) == Some(e@),
{
    match Glob::new(pattern) {
        Ok(g) => Ok(g),
        Err(e) => Err(e.to_string()),
    }
}

/// `GlobSetBuilder::new`: a builder with no patterns.
#[verifier::external_body]
pub fn new_builder() -> (r: GlobSetBuilder)
    ensures
        builder_patterns(r) == Seq::<Seq<char>>::empty(),
{
    GlobSetBuilder::new()
}

/// `GlobSetBuilder::add`: appends the glob's pattern.
#[verifier::external_body]
pub fn builder_add(b: &mut GlobSetBuilder, g: Glob)
    ensures
        builder_patterns(*final(b)) == builder_patterns(*old(b)).push(glob_text(g)),
{
    b.add(g);
}

/// `GlobSetBuilder::build`. Whether it succeeds for the added patterns, and
/// the error text when not, are named by `globset_build_error`; the set
/// holds those patterns.
#[verifier::external_body]
pub fn builder_build(b: &GlobSetBuilder) -> (r: Result<GlobSet, String>)
    ensures
        r is Ok <==> globset_build_error(builder_patterns(*b)) is None,
        r matches Ok(s) ==> globset_patterns(s) == builder_patterns(*b),
        r matches Err(e) ==> globset_build_error(builder_patterns(*b)) == Some(e@),
{
    match b.build() {
        Ok(s) => Ok(s),
        Err(e) => Err(e.to_string()),
    }
}

/// `GlobSet::is_match`: as its documentation says, true exactly when some
/// glob of the set matches the path (each glob's matching is named by
/// `glob_matches`).
#[verifier::external_body]
pub fn globset_is_match(s: &GlobSet, path: &str) -> (r: bool)
    ensures
        r == (exists|i: int| 0 <= i < globset_patterns(*s).len() && glob_matches(#[trigger] globset_patterns(*s)[i], path@)),
{
    s.is_match(path)
}

} // verus!
