//! Which files under the scanned path are MBZ backups to scan: `.mbz` files,
//! kept when they match the inclusion globs (if any) and do not match the
//! exclusion globs. Walking the directory tree is left to the caller.

use vstd::prelude::*;
use globset::{Glob, GlobSet, GlobSetBuilder};
use crate::mbz::{last_index, names_view};
use crate::text::{chars_eq_str, chars_of, slice_chars};

verus! {

#[verifier::external_type_specification]
#[verifier::external_body]
pub struct ExGlobSet(GlobSet);

#[verifier::external_type_specification]
#[verifier::external_body]
pub struct ExGlobSetBuilder(GlobSetBuilder);

/// The patterns added to a glob-set builder, in order.
pub uninterp spec fn builder_patterns(b: GlobSetBuilder) -> Seq<Seq<char>>;

/// The patterns a glob set was built from, in order.
pub uninterp spec fn set_patterns(s: GlobSet) -> Seq<Seq<char>>;

/// The error globset's `Glob::new` reports for a pattern, if any.
pub uninterp spec fn pattern_error(p: Seq<char>) -> Option<Seq<char>>;

/// The error `GlobSetBuilder::build` reports for these patterns, if any.
pub uninterp spec fn build_error(ps: Seq<Seq<char>>) -> Option<Seq<char>>;

/// Whether some pattern of `ps` matches `path` (globset's `is_match`).
pub uninterp spec fn globs_match(ps: Seq<Seq<char>>, path: Seq<char>) -> bool;

/// An empty builder.
///
/// Trusted: `GlobSetBuilder::new` starts with no patterns.
#[verifier::external_body]
fn new_builder() -> (b: GlobSetBuilder)
    ensures
        builder_patterns(b) == Seq::<Seq<char>>::empty(),
{
    GlobSetBuilder::new()
}

/// Compile pattern `p` and add it to `b`.
///
/// Trusted: `Glob::new` either fails with an error (reported by its
/// `Display`, the builder untouched) or yields the glob that
/// `GlobSetBuilder::add` appends to the builder's patterns.
#[verifier::external_body]
fn add_pattern(b: &mut GlobSetBuilder, p: &str) -> (r: Result<(), String>)
    ensures
        match r {
            Ok(()) => pattern_error(p@) is None && builder_patterns(*final(b)) == builder_patterns(*old(b)).push(p@),
            Err(e) => pattern_error(p@) == Some(e@) && builder_patterns(*final(b)) == builder_patterns(*old(b)),
        },
{
    match Glob::new(p) {
        Ok(g) => {
            b.add(g);
            Ok(())
        },
        Err(e) => Err(e.to_string()),
    }
}

/// Build the set of the builder's patterns.
///
/// Trusted: `GlobSetBuilder::build` either fails with an error (reported by
/// its `Display`) or yields a set of exactly the builder's patterns.
#[verifier::external_body]
fn build_set(b: &GlobSetBuilder) -> (r: Result<GlobSet, String>)
    ensures
        match r {
            Ok(s) => build_error(builder_patterns(*b)) is None && set_patterns(s) == builder_patterns(*b),
            Err(e) => build_error(builder_patterns(*b)) == Some(e@),
        },
{
    b.build().map_err(|e| e.to_string())
}

/// Whether a pattern of `s` matches `path`.
///
/// Trusted: `GlobSet::is_match` on the path; named `globs_match` over the
/// set's patterns.
#[verifier::external_body]
fn set_matches(s: &GlobSet, path: &str) -> (r: bool)
    ensures
        r == globs_match(set_patterns(*s), path@),
{
    s.is_match(std::path::Path::new(path))
}

/// The error building a filter from `ps` reports: the first pattern that
/// does not compile, else the set's build error; none without patterns.
pub open spec fn filter_error(ps: Seq<Seq<char>>) -> Option<Seq<char>> {
    if ps.len() == 0 {
        None
    } else {
        match crate::seqs::first_index(ps, |p: Seq<char>| pattern_error(p) is Some) {
            Some(i) => pattern_error(ps[i]),
            None => build_error(ps),
        }
    }
}

/// A set of glob patterns; with no patterns it is inactive.
pub struct PathFilter {
    set: Option<GlobSet>,
    patterns: Ghost<Seq<Seq<char>>>,
}

impl PathFilter {
    /// The set holds exactly the filter's patterns; an inactive filter has
    /// none.
    #[verifier::type_invariant]
    spec fn wf(&self) -> bool {
        match self.set {
            Some(s) => set_patterns(s) == self.patterns@,
            None => self.patterns@.len() == 0,
        }
    }

    /// The filter's patterns (empty when inactive).
    pub closed spec fn patterns(&self) -> Seq<Seq<char>> {
        self.patterns@
    }

    /// The filter has patterns.
    pub closed spec fn active(&self) -> bool {
        self.set is Some
    }

    /// A filter of `patterns`, or the error compiling them reports.
    pub fn new(patterns: &Vec<String>) -> (r: Result<PathFilter, String>)
        ensures
            match r {
                Ok(f) => filter_error(names_view(patterns@)) is None && f.patterns() == names_view(patterns@)
                    && f.active() == (patterns@.len() > 0),
                Err(e) => filter_error(names_view(patterns@)) == Some(e@),
            },
    {
        let ghost ps = names_view(patterns@);
        if patterns.len() == 0 {
            return Ok(PathFilter { set: None, patterns: Ghost(ps) });
        }
        let mut b = new_builder();
        let mut i: usize = 0;
        while i < patterns.len()
            invariant
                i <= patterns@.len(),
                ps == names_view(patterns@),
                builder_patterns(b) == ps.take(i as int),
                forall|j: int| 0 <= j < i ==> pattern_error(#[trigger] ps[j]) is None,
            decreases patterns@.len() - i,
        {
            let ghost before = builder_patterns(b);
            match add_pattern(&mut b, patterns[i].as_str()) {
                Ok(()) => {
                    assert(ps.take(i as int + 1) =~= ps.take(i as int).push(ps[i as int]));
                },
                Err(e) => {
                    proof {
                        crate::seqs::lemma_first_index(ps, |p: Seq<char>| pattern_error(p) is Some, i as int);
                    }
                    return Err(e);
                },
            }
            i += 1;
        }
        proof {
            crate::seqs::lemma_first_index(ps, |p: Seq<char>| pattern_error(p) is Some, ps.len() as int);
        }
        assert(ps.take(patterns@.len() as int) =~= ps);
        match build_set(&b) {
            Ok(s) => Ok(PathFilter { set: Some(s), patterns: Ghost(ps) }),
            Err(e) => Err(e),
        }
    }

    /// Whether the filter is active and one of its patterns matches `path`.
    pub fn matches(&self, path: &str) -> (r: bool)
        ensures
            r == (self.active() && globs_match(self.patterns(), path@)),
    {
        proof {
            use_type_invariant(self);
        }
        match &self.set {
            Some(s) => set_matches(s, path),
            None => false,
        }
    }

    /// Whether the filter has patterns.
    pub fn is_active(&self) -> (r: bool)
        ensures
            r == self.active(),
    {
        self.set.is_some()
    }
}

/// Matches the character `ch`.
pub open spec fn is_ch(ch: char) -> spec_fn(char) -> bool {
    |x: char| x == ch
}

/// The file name of `path` has the extension `mbz`: what follows its last
/// `/` has a `.` after its first character, and what follows the last `.`
/// is `mbz` (`Path::extension` for paths without a trailing separator).
pub open spec fn has_mbz_extension(path: Seq<char>) -> bool {
    let name = match last_index(path, is_ch('/')) {
        Some(i) => path.skip(i + 1),
        None => path,
    };
    match last_index(name, is_ch('.')) {
        Some(d) => d > 0 && name.skip(d + 1) == "mbz"@,
        None => false,
    }
}

/// Position of the last `ch` in `s`.
fn last_of(s: &[char], ch: char) -> (r: Option<usize>)
    ensures
        match r {
            Some(i) => last_index(s@, is_ch(ch)) == Some(i as int) && i < s@.len(),
            None => last_index(s@, is_ch(ch)) is None,
        },
{
    let mut i: usize = s.len();
    assert(s@.take(i as int) =~= s@);
    while i > 0
        invariant
            i <= s@.len(),
            last_index(s@, is_ch(ch)) == last_index(s@.take(i as int), is_ch(ch)),
        decreases i,
    {
        assert(s@.take(i as int).last() == s@[i - 1]);
        assert(s@.take(i as int).drop_last() =~= s@.take(i - 1));
        if s[i - 1] == ch {
            return Some(i - 1);
        }
        i -= 1;
    }
    None
}

/// Whether `path` names an `.mbz` file.
pub fn is_mbz_path(path: &str) -> (r: bool)
    ensures
        r == has_mbz_extension(path@),
{
    let c = chars_of(path);
    let n = c.len();
    let start: usize = match last_of(c.as_slice(), '/') {
        Some(i) => {
            assert(i < n);
            i + 1
        },
        None => 0,
    };
    let name = slice_chars(c.as_slice(), start, c.len());
    assert(start == 0 ==> name@ =~= path@);
    assert(start > 0 ==> name@ =~= path@.skip(start as int));
    match last_of(name.as_slice(), '.') {
        None => false,
        Some(d) => {
            if d == 0 {
                return false;
            }
            let ext = slice_chars(name.as_slice(), d + 1, name.len());
            assert(ext@ =~= name@.skip(d + 1));
            chars_eq_str(ext.as_slice(), "mbz")
        },
    }
}

/// What to do with a file found under the scanned path.
#[derive(Debug, PartialEq, Eq, Structural)]
pub enum Candidate {
    Scan,
    NotMbz,
    NotIncluded,
    Excluded,
}

/// The decision for `path`: not an `.mbz` file; not matched by an active
/// wanted filter; matched by the unwanted filter; or scanned.
pub open spec fn candidate_for(path: Seq<char>, wanted: PathFilter, unwanted: PathFilter) -> Candidate {
    if !has_mbz_extension(path) {
        Candidate::NotMbz
    } else if wanted.active() && !globs_match(wanted.patterns(), path) {
        Candidate::NotIncluded
    } else if unwanted.active() && globs_match(unwanted.patterns(), path) {
        Candidate::Excluded
    } else {
        Candidate::Scan
    }
}

pub fn classify(path: &str, wanted: &PathFilter, unwanted: &PathFilter) -> (c: Candidate)
    ensures
        c == candidate_for(path@, *wanted, *unwanted),
{
    if !is_mbz_path(path) {
        Candidate::NotMbz
    } else if wanted.is_active() && !wanted.matches(path) {
        Candidate::NotIncluded
    } else if unwanted.matches(path) {
        Candidate::Excluded
    } else {
        Candidate::Scan
    }
}

} // verus!
