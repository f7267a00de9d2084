//! Glob patterns, matched as a `globset::GlobSet`: which patterns are
//! valid, which sets of them `globset` can compile, and which paths a set
//! matches (those that some pattern of it matches).

use vstd::prelude::*;
use globset::{GlobSet, GlobSetBuilder};

verus! {

#[verifier::external_type_specification]
#[verifier::external_body]
pub struct ExGlobSetBuilder(globset::GlobSetBuilder);

#[verifier::external_type_specification]
#[verifier::external_body]
pub struct ExGlobSet(globset::GlobSet);

/// Whether `globset` accepts `pattern` as a glob (`Glob::new` succeeds).
pub uninterp spec fn glob_parses(pattern: Seq<char>) -> bool;

/// Whether the glob `pattern` matches the path whose bytes are `path`, as
/// `globset` decides it.
pub uninterp spec fn glob_matches(pattern: Seq<char>, path: Seq<u8>) -> bool;

/// Whether `GlobSetBuilder::build` succeeds on these patterns (it fails
/// when `globset` cannot compile the regular expressions they need).
pub uninterp spec fn glob_set_builds(patterns: Seq<Seq<char>>) -> bool;

/// The patterns added to a builder, in the order they were added.
pub uninterp spec fn builder_patterns(b: GlobSetBuilder) -> Seq<Seq<char>>;

/// The patterns a built set was made of, in order.
pub uninterp spec fn set_patterns(s: GlobSet) -> Seq<Seq<char>>;

/// `GlobSetBuilder::new`: a builder with no pattern.
#[verifier::external_body]
fn new_glob_set_builder() -> (b: GlobSetBuilder)
    ensures
        builder_patterns(b) == Seq::<Seq<char>>::empty(),
{
    GlobSetBuilder::new()
}

/// Turns `pattern` into a glob (`Glob::new`) and, when that succeeds, adds
/// it to the builder (`GlobSetBuilder::add`); reports whether it was added.
/// A pattern that is not a glob leaves the builder as it was.
#[verifier::external_body]
fn add_glob(b: &mut GlobSetBuilder, pattern: &str) -> (added: bool)
    ensures
        added == glob_parses(pattern@),
        added ==> builder_patterns(*final(b)) == builder_patterns(*old(b)).push(pattern@),
        !added ==> builder_patterns(*final(b)) == builder_patterns(*old(b)),
{
    match globset::Glob::new(pattern) {
        Ok(glob) => {
            b.add(glob);
            true
        },
        Err(_) => false,
    }
}

/// `GlobSetBuilder::build`: the set of the patterns added so far, unless
/// `globset` rejects them. A builder with no pattern always builds (the
/// empty set, which matches nothing).
#[verifier::external_body]
fn build_glob_set(b: &GlobSetBuilder) -> (r: Option<GlobSet>)
    ensures
        r is Some == glob_set_builds(builder_patterns(*b)),
        builder_patterns(*b).len() == 0 ==> r is Some,
        r matches Some(s) ==> set_patterns(s) == builder_patterns(*b),
{
    b.build().ok()
}

/// `GlobSet::is_empty`: the set holds no pattern.
#[verifier::external_body]
pub(crate) fn glob_set_is_empty(s: &GlobSet) -> (r: bool)
    ensures
        r == (set_patterns(*s).len() == 0),
{
    s.is_empty()
}

/// `GlobSet::is_match_candidate` on the path given by its bytes
/// (`Candidate::from_bytes`): true when some pattern of the set matches it.
#[verifier::external_body]
pub(crate) fn glob_set_is_match(s: &GlobSet, path: &[u8]) -> (r: bool)
    ensures
        r == (exists|i: int|
            0 <= i < set_patterns(*s).len() && glob_matches(#[trigger] set_patterns(*s)[i], path@)),
{
    s.is_match_candidate(&globset::Candidate::from_bytes(path))
}

/// The text of each pattern of a list.
pub open spec fn texts(v: Seq<String>) -> Seq<Seq<char>> {
    v.map_values(|s: String| s@)
}

/// Position of the first pattern that is not a valid glob, if any.
pub open spec fn first_invalid(pats: Seq<Seq<char>>) -> Option<int>
    decreases pats.len(),
{
    if pats.len() == 0 {
        None
    } else {
        match first_invalid(pats.drop_last()) {
            Some(i) => Some(i),
            None => if glob_parses(pats.last()) {
                None
            } else {
                Some(pats.len() - 1)
            },
        }
    }
}

/// The first invalid pattern is a pattern of the list, is invalid, and
/// every pattern before it is valid; when there is none, every pattern is
/// valid.
pub proof fn lemma_first_invalid_bounds(pats: Seq<Seq<char>>)
    ensures
        match first_invalid(pats) {
            Some(i) => 0 <= i < pats.len() && !glob_parses(pats[i]) && forall|k: int|
                0 <= k < i ==> glob_parses(#[trigger] pats[k]),
            None => forall|k: int| 0 <= k < pats.len() ==> glob_parses(#[trigger] pats[k]),
        },
    decreases pats.len(),
{
    if pats.len() > 0 {
        lemma_first_invalid_bounds(pats.drop_last());
        assert forall|k: int| 0 <= k < pats.len() - 1 implies pats.drop_last()[k] == pats[k] by {}
    }
}

/// Whether some pattern of `pats` matches `path`; an empty list matches
/// nothing, as an empty `GlobSet` does.
pub open spec fn any_glob_matches(pats: Seq<Seq<char>>, path: Seq<u8>) -> bool {
    exists|i: int| 0 <= i < pats.len() && glob_matches(#[trigger] pats[i], path)
}

/// Why a list of patterns gave no glob set.
#[derive(Clone, Copy, Debug, PartialEq, Eq)]
pub enum GlobSetError {
    /// The pattern at this position is not a valid glob.
    InvalidPattern(usize),
    /// Every pattern is valid, but `globset` could not compile them together.
    Rejected,
}

/// Builds one glob set of all `patterns`, in order; fails at the first
/// pattern that is not a valid glob, or when the set cannot be compiled.
/// An empty list gives the empty set.
pub fn build_globset(patterns: &Vec<String>) -> (r: Result<GlobSet, GlobSetError>)
    ensures
        match r {
            Ok(s) => {
                &&& first_invalid(texts(patterns@)) is None
                &&& glob_set_builds(texts(patterns@))
                &&& set_patterns(s) == texts(patterns@)
            },
            Err(GlobSetError::InvalidPattern(i)) => first_invalid(texts(patterns@)) == Some(i as int),
            Err(GlobSetError::Rejected) => {
                &&& first_invalid(texts(patterns@)) is None
                &&& !glob_set_builds(texts(patterns@))
            },
        },
        patterns@.len() == 0 ==> r is Ok,
{
    let mut builder = new_glob_set_builder();
    let mut i: usize = 0;
    assert(texts(patterns@).take(0) =~= Seq::<Seq<char>>::empty());
    while i < patterns.len()
        invariant
            i <= patterns@.len(),
            builder_patterns(builder) == texts(patterns@).take(i as int),
            first_invalid(texts(patterns@).take(i as int)) is None,
        decreases patterns@.len() - i,
    {
        let ghost t = texts(patterns@);
        assert(t.take(i + 1).drop_last() =~= t.take(i as int));
        assert(t.take(i + 1).last() == patterns@[i as int]@);
        if !add_glob(&mut builder, patterns[i].as_str()) {
            proof {
                lemma_first_invalid_prefix(t, i + 1);
            }
            return Err(GlobSetError::InvalidPattern(i));
        }
        assert(builder_patterns(builder) =~= t.take(i + 1));
        i = i + 1;
    }
    assert(texts(patterns@).take(i as int) =~= texts(patterns@));
    match build_glob_set(&builder) {
        Some(s) => Ok(s),
        None => Err(GlobSetError::Rejected),
    }
}

/// If the first `k` patterns hold no invalid one and the last of them is
/// invalid, it is the first invalid pattern of the whole list.
proof fn lemma_first_invalid_prefix(t: Seq<Seq<char>>, k: int)
    requires
        1 <= k <= t.len(),
        first_invalid(t.take(k - 1)) is None,
        !glob_parses(t[k - 1]),
    ensures
        first_invalid(t) == Some(k - 1),
    decreases t.len(),
{
    assert(t.take(k).drop_last() =~= t.take(k - 1));
    if k < t.len() {
        assert(t.drop_last().take(k - 1) =~= t.take(k - 1));
        lemma_first_invalid_prefix(t.drop_last(), k);
    } else {
        assert(t.drop_last() =~= t.take(k - 1));
    }
}

} // verus!
