//! UTF-8 paths, held as strings. Their structure (components, parents,
//! joining) is the `camino` crate's.
use vstd::prelude::*;

verus! {

/// What `camino::Utf8Path::parent` gives for a path.
pub uninterp spec fn camino_parent(path: Seq<char>) -> Option<Seq<char>>;

/// What `camino::Utf8Path::join` gives for a base path and a path to adjoin.
pub uninterp spec fn camino_join(base: Seq<char>, path: Seq<char>) -> Seq<char>;

/// What `camino::Utf8Path`'s `==` (component-wise equality) answers.
pub uninterp spec fn camino_eq(a: Seq<char>, b: Seq<char>) -> bool;

/// What `camino::Utf8Path::ends_with` answers for a path and a child path.
pub uninterp spec fn camino_ends_with(path: Seq<char>, child: Seq<char>) -> bool;

/// Calls `camino::Utf8Path::parent`; the contract claims that the result is
/// `camino_parent` of the path.
#[verifier::external_body]
pub(crate) fn parent(path: &str) -> (r: Option<String>)
    ensures
        match r {
            Some(p) => camino_parent(path@) == Some(p@),
            None => camino_parent(path@) is None,
        },
{
    camino::Utf8Path::new(path).parent().map(|p| p.as_str().to_owned())
}

/// Calls `camino::Utf8Path::join`; the contract claims that the result is
/// `camino_join` of the two paths.
#[verifier::external_body]
pub(crate) fn join(base: &str, path: &str) -> (r: String)
    ensures
        r@ == camino_join(base@, path@),
{
    camino::Utf8Path::new(base).join(path).into_string()
}

/// Calls `camino::Utf8Path`'s `==`; the contract claims that the answer is
/// `camino_eq` of the two paths, and that a path equals itself (`Utf8Path`
/// implements `Eq`).
#[verifier::external_body]
pub(crate) fn same_path(a: &str, b: &str) -> (r: bool)
    ensures
        r == camino_eq(a@, b@),
        a@ == b@ ==> r,
{
    camino::Utf8Path::new(a) == camino::Utf8Path::new(b)
}

/// Calls `camino::Utf8Path::ends_with`; the contract claims that the answer
/// is `camino_ends_with` of the path and the child.
#[verifier::external_body]
pub(crate) fn ends_with(path: &str, child: &str) -> (r: bool)
    ensures
        r == camino_ends_with(path@, child@),
{
    camino::Utf8Path::new(path).ends_with(child)
}

} // verus!
