//! Symbols and the fuzzy matching policy that decides when one symbol
//! satisfies another.

use std::path::Path;
use vstd::prelude::*;

verus! {

/// A named declaration together with the path of the file it was declared in.
#[derive(Debug)]
pub struct DependencySymbol {
    pub name: String,
    pub path: String,
}

impl Clone for DependencySymbol {
    fn clone(&self) -> (r: Self)
        ensures
            r == *self,
    {
        DependencySymbol { name: self.name.clone(), path: self.path.clone() }
    }
}

/// Symbols are equal when their names and paths are.
impl PartialEq for DependencySymbol {
    fn eq(&self, other: &Self) -> (r: bool) {
        self.name == other.name && self.path == other.path
    }
}

impl vstd::std_specs::cmp::PartialEqSpecImpl for DependencySymbol {
    open spec fn obeys_eq_spec() -> bool {
        true
    }

    open spec fn eq_spec(&self, other: &DependencySymbol) -> bool {
        self.name@ == other.name@ && self.path@ == other.path@
    }
}

/// What `Path::parent` of the first path compares equal to that of the second.
pub uninterp spec fn parent_dirs_equal(a: Seq<char>, b: Seq<char>) -> bool;

/// What `Path::file_stem` gives for a path, as text.
pub uninterp spec fn path_file_stem(p: Seq<char>) -> Option<Seq<char>>;

/// Two paths lie in the same parent directory. Path equality is reflexive and
/// symmetric, so a path shares its parent with itself, and the comparison
/// reads the same either way round.
pub open spec fn same_parent_dir(a: Seq<char>, b: Seq<char>) -> bool {
    a == b || parent_dirs_equal(a, b) || parent_dirs_equal(b, a)
}

/// Relies on `Path::parent` and the equality of the two `Option<&Path>` values
/// that it gives.
#[verifier::external_body]
fn parents_match(a: &str, b: &str) -> (r: bool)
    ensures
        r == (a@ == b@ || parent_dirs_equal(a@, b@) || parent_dirs_equal(b@, a@)),
{
    Path::new(a).parent() == Path::new(b).parent()
}

/// Relies on `Path::file_stem`: the file name without its last extension.
/// A stem of a `&str` path is valid text, so the conversion loses nothing.
#[verifier::external_body]
pub(crate) fn file_stem_of(p: &str) -> (r: Option<String>)
    ensures
        r matches Some(s) ==> path_file_stem(p@) == Some(s@),
        r is None ==> path_file_stem(p@) is None,
{
    Path::new(p).file_stem().map(|s| s.to_string_lossy().into_owned())
}

/// Whether `a` is satisfied by `b` under `level`:
/// 0 exact, 1 same name, directory and stem, 2 same name and directory,
/// 3 same name, and anything above accepts every pair.
pub open spec fn symbol_matches(a: DependencySymbol, b: DependencySymbol, level: nat) -> bool {
    if level == 0 {
        a.name@ == b.name@ && a.path@ == b.path@
    } else if level == 1 {
        a.name@ == b.name@ && same_parent_dir(a.path@, b.path@) && path_file_stem(a.path@)
            == path_file_stem(b.path@)
    } else if level == 2 {
        a.name@ == b.name@ && same_parent_dir(a.path@, b.path@)
    } else if level == 3 {
        a.name@ == b.name@
    } else {
        true
    }
}

impl DependencySymbol {
    pub fn depends_on(&self, other: &Self, fuzz_depends_level: usize) -> (r: bool)
        ensures
            r == symbol_matches(*self, *other, fuzz_depends_level as nat),
    {
        if fuzz_depends_level == 0 {
            *self == *other
        } else if fuzz_depends_level == 1 {
            if !(self.name == other.name) || !parents_match(self.path.as_str(), other.path.as_str()) {
                return false;
            }
            let sa = file_stem_of(self.path.as_str());
            let sb = file_stem_of(other.path.as_str());
            match (sa, sb) {
                (Some(x), Some(y)) => x == y,
                (None, None) => true,
                _ => false,
            }
        } else if fuzz_depends_level == 2 {
            self.name == other.name && parents_match(self.path.as_str(), other.path.as_str())
        } else if fuzz_depends_level == 3 {
            self.name == other.name
        } else {
            true
        }
    }
}

/// Matching reads the same either way round, at every level.
pub proof fn lemma_match_symmetric(a: DependencySymbol, b: DependencySymbol, level: nat)
    ensures
        symbol_matches(a, b, level) == symbol_matches(b, a, level),
{
}

/// A match at one level is a match at every looser level.
pub proof fn lemma_match_monotone(a: DependencySymbol, b: DependencySymbol, level: nat, looser: nat)
    requires
        level <= looser,
        symbol_matches(a, b, level),
    ensures
        symbol_matches(a, b, looser),
{
}

} // verus!
