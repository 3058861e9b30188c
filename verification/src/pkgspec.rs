//! Package specifications as `cargo pkgid` writes them: a name, a name and
//! version (`name:1.2.3`), or a url with an optional `#name`, `#version` or
//! `#name:version` fragment.
use vstd::prelude::*;
use crate::cm::Package;
use crate::errors::Error;
use crate::text::{chars_of, find, rfind, ends_with, find_chars, rfind_chars, ends_with_chars, pattern, slice, string_from, str_eq};
use crate::version::{Version, VersionModel, semver_parse_version};

verus! {

/// What `char::is_alphabetic` answers: whether the character has Unicode's
/// `Alphabetic` property.
pub uninterp spec fn unicode_alphabetic(c: char) -> bool;

/// Whether the character is alphabetic: among ASCII characters exactly the
/// letters; otherwise as Unicode's `Alphabetic` property says.
pub open spec fn alphabetic(c: char) -> bool {
    if (c as u32) < 128 {
        ('a' <= c <= 'z' || 'A' <= c <= 'Z')
    } else {
        unicode_alphabetic(c)
    }
}

/// Calls `char::is_alphabetic`. The contract claims that the answer is
/// `unicode_alphabetic` of the character, and, as Unicode's property lists
/// show, that among ASCII characters exactly the letters have the property
/// (see [`alphabetic`]).
#[verifier::external_body]
fn is_alphabetic(c: char) -> (r: bool)
    ensures
        r == unicode_alphabetic(c),
        r == alphabetic(c),
{
    c.is_alphabetic()
}

/// A character allowed in a package name: `-`, `_` or an ASCII letter or digit.
pub open spec fn is_name_char(c: char) -> bool {
    c == '-' || c == '_' || ('0' <= c <= '9') || ('a' <= c <= 'z') || ('A' <= c <= 'Z')
}

/// The name `n`, or the reason it is refused.
pub open spec fn named(n: Seq<char>) -> Result<Seq<char>, Seq<char>> {
    if forall|i: int| 0 <= i < n.len() ==> is_name_char(#[trigger] n[i]) {
        Ok(n)
    } else {
        Err("found an invalid character for the package name"@)
    }
}

/// The version written `t`, or the reason it is refused.
pub open spec fn versioned(t: Seq<char>) -> Result<VersionModel, Seq<char>> {
    match semver_parse_version(t) {
        Some(v) => Ok(v),
        None => Err("failed to parse version"@),
    }
}

/// The last path segment of a url, or the reason the url is refused.
pub open spec fn url_path_name(url: Seq<char>) -> Result<Seq<char>, Seq<char>> {
    if ends_with(url, "/"@) {
        Err("url ends with /"@)
    } else {
        match rfind(url, "://"@) {
            Some(ind) => match rfind(url, "/"@) {
                Some(pind) => if pind == ind + 2 {
                    Err("path required for urls"@)
                } else {
                    Ok(url.skip(pind + 1))
                },
                None => Err("path required for urls"@),
            },
            None => Err("missing url scheme"@),
        }
    }
}

/// The name and version given by the part `nv` of a specification (the
/// whole specification, or a url's fragment) and by the url, if any.
pub open spec fn name_and_or_version(nv: Option<Seq<char>>, url: Option<Seq<char>>) -> Result<
    (Seq<char>, Option<VersionModel>),
    Seq<char>,
> {
    let path_name: Result<Option<Seq<char>>, Seq<char>> = match url {
        Some(u) => match url_path_name(u) {
            Ok(p) => Ok(Some(p)),
            Err(e) => Err(e),
        },
        None => Ok(None),
    };
    match path_name {
        Err(e) => Err(e),
        Ok(path_name) => match nv {
            Some(nv) => match find(nv, ":"@) {
                Some(ind) => if ind == nv.len() - 1 {
                    Err("package spec cannot end with ':'"@)
                } else {
                    match named(nv.take(ind)) {
                        Err(e) => Err(e),
                        Ok(n) => match versioned(nv.skip(ind + 1)) {
                            Err(e) => Err(e),
                            Ok(v) => Ok((n, Some(v))),
                        },
                    }
                },
                None => match path_name {
                    Some(name) => if alphabetic(nv[0]) {
                        match named(nv) {
                            Ok(n) => Ok((n, None)),
                            Err(e) => Err(e),
                        }
                    } else {
                        match versioned(nv) {
                            Err(e) => Err(e),
                            Ok(v) => match named(name) {
                                Ok(n) => Ok((n, Some(v))),
                                Err(e) => Err(e),
                            },
                        }
                    },
                    None => match named(nv) {
                        Ok(n) => Ok((n, None)),
                        Err(e) => Err(e),
                    },
                },
            },
            None => match path_name {
                Some(p) => match named(p) {
                    Ok(n) => Ok((n, None)),
                    Err(e) => Err(e),
                },
                None => Err(Seq::empty()),
            },
        },
    }
}

/// The name, version and url of the specification written `s`, or the
/// reason it is refused.
pub open spec fn pkgspec_parse(s: Seq<char>) -> Result<
    (Seq<char>, Option<VersionModel>, Option<Seq<char>>),
    Seq<char>,
> {
    if find(s, "/"@) is Some {
        let url = if find(s, "://"@) is Some {
            s
        } else {
            "cargo://"@ + s
        };
        match find(url, "#"@) {
            Some(ind) => if ind == url.len() - 1 {
                Err("package spec cannot end with '#'"@)
            } else {
                match name_and_or_version(Some(url.skip(ind + 1)), Some(url.take(ind))) {
                    Ok((n, v)) => Ok((n, v, Some(url.take(ind)))),
                    Err(e) => Err(e),
                }
            },
            None => match name_and_or_version(None, Some(url)) {
                Ok((n, v)) => Ok((n, v, Some(url))),
                Err(e) => Err(e),
            },
        }
    } else {
        match name_and_or_version(Some(s), None) {
            Ok((n, v)) => Ok((n, v, None)),
            Err(e) => Err(e),
        }
    }
}

/// The plain-value form of an optional version.
pub open spec fn opt_version(v: Option<Version>) -> Option<VersionModel> {
    match v {
        Some(v) => Some(v@),
        None => None,
    }
}

/// A package specification. See `cargo pkgid` for more information.
#[derive(Debug, Clone)]
pub struct PkgSpec {
    pub name: String,
    pub version: Option<Version>,
    pub url: Option<String>,
}

impl View for PkgSpec {
    type V = (Seq<char>, Option<VersionModel>, Option<Seq<char>>);

    open spec fn view(&self) -> (Seq<char>, Option<VersionModel>, Option<Seq<char>>) {
        (
            self.name@,
            opt_version(self.version),
            match self.url {
                Some(u) => Some(u@),
                None => None,
            },
        )
    }
}

fn validate_name(n: &Vec<char>) -> (r: Result<String, Error>)
    ensures
        match r {
            Ok(s) => named(n@) == Ok::<Seq<char>, Seq<char>>(s@),
            Err(e) => named(n@) matches Err(m) && e.is_invalid_pkg_spec(m),
        },
{
    let mut i: usize = 0;
    while i < n.len()
        invariant
            i <= n.len(),
            forall|j: int| 0 <= j < i ==> is_name_char(#[trigger] n@[j]),
        decreases n.len() - i,
    {
        let c = n[i];
        if !(c == '-' || c == '_' || ('0' <= c && c <= '9') || ('a' <= c && c <= 'z') || ('A' <= c
            && c <= 'Z')) {
            proof {
                assert(!is_name_char(n@[i as int]));
            }
            return Err(Error::InvalidPkgSpec("found an invalid character for the package name"));
        }
        i += 1;
    }
    Ok(string_from(n.as_slice()))
}

fn parse_version(t: &Vec<char>) -> (r: Result<Version, Error>)
    ensures
        match r {
            Ok(v) => versioned(t@) == Ok::<VersionModel, Seq<char>>(v@),
            Err(e) => versioned(t@) matches Err(m) && e.is_invalid_pkg_spec(m),
        },
{
    let text = string_from(t.as_slice());
    match Version::parse(text.as_str()) {
        Some(v) => Ok(v),
        None => Err(Error::InvalidPkgSpec("failed to parse version")),
    }
}

fn path_name(url: &Vec<char>) -> (r: Result<Vec<char>, Error>)
    ensures
        match r {
            Ok(p) => url_path_name(url@) == Ok::<Seq<char>, Seq<char>>(p@),
            Err(e) => url_path_name(url@) matches Err(m) && e.is_invalid_pkg_spec(m),
        },
{
    proof {
        reveal_strlit("/");
        reveal_strlit("://");
    }
    if ends_with_chars(url, &pattern("/")) {
        return Err(Error::InvalidPkgSpec("url ends with /"));
    }
    let n = url.len();
    let scheme = pattern("://");
    let slash = pattern("/");
    match rfind_chars(url, &scheme) {
        Some(ind) => match rfind_chars(url, &slash) {
            Some(pind) => {
                if pind == ind + 2 {
                    return Err(Error::InvalidPkgSpec("path required for urls"));
                }
                Ok(slice(url, pind + 1, n))
            },
            None => Err(Error::InvalidPkgSpec("path required for urls")),
        },
        None => Err(Error::InvalidPkgSpec("missing url scheme")),
    }
}

fn name_and_or_version_of(nv: Option<&Vec<char>>, url: Option<&Vec<char>>) -> (r: Result<
    (String, Option<Version>),
    Error,
>)
    requires
        nv is Some && url is Some ==> nv->0@.len() > 0,
        nv is None ==> url is Some,
    ensures
        match r {
            Ok((n, v)) => name_and_or_version(
                match nv {
                    Some(x) => Some(x@),
                    None => None,
                },
                match url {
                    Some(x) => Some(x@),
                    None => None,
                },
            ) == Ok::<(Seq<char>, Option<VersionModel>), Seq<char>>((n@, opt_version(v))),
            Err(e) => name_and_or_version(
                match nv {
                    Some(x) => Some(x@),
                    None => None,
                },
                match url {
                    Some(x) => Some(x@),
                    None => None,
                },
            ) matches Err(m) && e.is_invalid_pkg_spec(m),
        },
{
    proof {
        reveal_strlit(":");
    }
    let path_name_v: Option<Vec<char>> = match url {
        Some(u) => match path_name(u) {
            Ok(p) => Some(p),
            Err(e) => return Err(e),
        },
        None => None,
    };
    match nv {
        Some(nv) => match find_chars(nv, &pattern(":")) {
            Some(ind) => {
                if ind == nv.len() - 1 {
                    return Err(Error::InvalidPkgSpec("package spec cannot end with ':'"));
                }
                let name = validate_name(&slice(nv, 0, ind))?;
                let version = parse_version(&slice(nv, ind + 1, nv.len()))?;
                proof {
                    assert(nv@.subrange(0, ind as int) =~= nv@.take(ind as int));
                    assert(nv@.subrange(ind + 1, nv@.len() as int) =~= nv@.skip(ind + 1));
                }
                Ok((name, Some(version)))
            },
            None => match path_name_v {
                Some(name) => {
                    if is_alphabetic(nv[0]) {
                        Ok((validate_name(nv)?, None))
                    } else {
                        let version = parse_version(nv)?;
                        Ok((validate_name(&name)?, Some(version)))
                    }
                },
                None => Ok((validate_name(nv)?, None)),
            },
        },
        None => match path_name_v {
            Some(p) => Ok((validate_name(&p)?, None)),
            None => Err(Error::InvalidPkgSpec("")),
        },
    }
}

impl PkgSpec {
    /// Parses a package specification; the error says why the text was
    /// refused.
    pub fn parse(s: &str) -> (r: Result<PkgSpec, Error>)
        ensures
            match r {
                Ok(spec) => pkgspec_parse(s@) == Ok::<
                    (Seq<char>, Option<VersionModel>, Option<Seq<char>>),
                    Seq<char>,
                >(spec@),
                Err(e) => pkgspec_parse(s@) matches Err(m) && e.is_invalid_pkg_spec(m),
            },
    {
        proof {
            reveal_strlit("/");
            reveal_strlit("://");
            reveal_strlit("#");
        }
        let sv = chars_of(s);
        if find_chars(&sv, &pattern("/")).is_some() {
            let url: Vec<char> = if find_chars(&sv, &pattern("://")).is_some() {
                sv
            } else {
                let mut u = chars_of("cargo://");
                let mut rest = sv;
                u.append(&mut rest);
                u
            };
            match find_chars(&url, &pattern("#")) {
                Some(ind) => {
                    if ind == url.len() - 1 {
                        return Err(Error::InvalidPkgSpec("package spec cannot end with '#'"));
                    }
                    let url_no_frag = slice(&url, 0, ind);
                    let frag = slice(&url, ind + 1, url.len());
                    proof {
                        assert(url_no_frag@ =~= url@.take(ind as int));
                        assert(frag@ =~= url@.skip(ind + 1));
                    }
                    let (name, version) = name_and_or_version_of(Some(&frag), Some(&url_no_frag))?;
                    Ok(PkgSpec { url: Some(string_from(url_no_frag.as_slice())), name, version })
                },
                None => {
                    let (name, version) = name_and_or_version_of(None, Some(&url))?;
                    Ok(PkgSpec { url: Some(string_from(url.as_slice())), name, version })
                },
            }
        } else {
            let (name, version) = name_and_or_version_of(Some(&sv), None)?;
            Ok(PkgSpec { url: None, name, version })
        }
    }
}

impl std::str::FromStr for PkgSpec {
    type Err = Error;

    /// Parses as [`PkgSpec::parse`] does.
    fn from_str(s: &str) -> (r: Result<Self, Self::Err>)
        ensures
            match r {
                Ok(spec) => pkgspec_parse(s@) == Ok::<
                    (Seq<char>, Option<VersionModel>, Option<Seq<char>>),
                    Seq<char>,
                >(spec@),
                Err(e) => pkgspec_parse(s@) matches Err(m) && e.is_invalid_pkg_spec(m),
            },
    {
        PkgSpec::parse(s)
    }
}

} // verus!

verus! {

/// Where the url of a package source begins: after the first `+`, if any.
pub open spec fn source_begin(src: Seq<char>) -> int {
    match find(src, "+"@) {
        Some(i) => i + 1,
        None => 0,
    }
}

/// Where the url of a package source ends: at the first `?`, else at the
/// first `#`, else at the end.
pub open spec fn source_end(src: Seq<char>) -> int {
    match find(src, "?"@) {
        Some(i) => i,
        None => match find(src, "#"@) {
            Some(i) => i,
            None => src.len() as int,
        },
    }
}

/// The specification names the package and, where it gives a version, its
/// version.
pub open spec fn names_package(
    spec: (Seq<char>, Option<VersionModel>, Option<Seq<char>>),
    krate: Package,
) -> bool {
    spec.0 == krate.name@ && match spec.1 {
        Some(v) => v == krate.version@,
        None => true,
    }
}

/// Matching `spec` against `krate` can take the url out of the package's
/// source: the url's end does not come before its beginning.
pub open spec fn source_url_defined(
    spec: (Seq<char>, Option<VersionModel>, Option<Seq<char>>),
    krate: Package,
) -> bool {
    names_package(spec, krate) && spec.2 is Some && krate.source is Some ==> source_begin(
        krate.source->0.repr@,
    ) <= source_end(krate.source->0.repr@)
}

/// Whether the specification `spec` matches the package `krate`: same name,
/// same version where the specification gives one, and, where both have one,
/// the specification's url is the url inside the package's source.
pub open spec fn pkgspec_matches(
    spec: (Seq<char>, Option<VersionModel>, Option<Seq<char>>),
    krate: Package,
) -> bool {
    names_package(spec, krate) && match (spec.2, krate.source) {
        (Some(url), Some(src)) => url == src.repr@.subrange(
            source_begin(src.repr@),
            source_end(src.repr@),
        ),
        _ => true,
    }
}

impl PkgSpec {
    /// Whether the specification can be matched against the package: where
    /// it names the package and both have a url, the url's end in the
    /// package's source does not come before its beginning.
    pub fn can_match(&self, krate: &Package) -> (r: bool)
        ensures
            r == source_url_defined(self@, *krate),
    {
        proof {
            reveal_strlit("+");
            reveal_strlit("?");
            reveal_strlit("#");
        }
        if !str_eq(self.name.as_str(), krate.name.as_str()) {
            return true;
        }
        if let Some(vers) = &self.version {
            if !vers.same(&krate.version) {
                return true;
            }
        }
        let src = match (&self.url, &krate.source) {
            (Some(_), Some(src)) => src,
            _ => return true,
        };
        let sv = chars_of(src.repr.as_str());
        let n = sv.len();
        let begin = match find_chars(&sv, &pattern("+")) {
            Some(i) => i + 1,
            None => 0,
        };
        let end = match find_chars(&sv, &pattern("?")) {
            Some(i) => i,
            None => match find_chars(&sv, &pattern("#")) {
                Some(i) => i,
                None => n,
            },
        };
        begin <= end
    }

    /// Whether the specification matches the package.
    pub fn matches(&self, krate: &Package) -> (r: bool)
        requires
            source_url_defined(self@, *krate),
        ensures
            r == pkgspec_matches(self@, *krate),
    {
        proof {
            reveal_strlit("+");
            reveal_strlit("?");
            reveal_strlit("#");
        }
        if !str_eq(self.name.as_str(), krate.name.as_str()) {
            return false;
        }
        if let Some(vers) = &self.version {
            if !vers.same(&krate.version) {
                return false;
            }
        }
        let (url, src) = match (&self.url, &krate.source) {
            (Some(url), Some(src)) => (url, src),
            _ => return true,
        };
        let sv = chars_of(src.repr.as_str());
        let n = sv.len();
        let begin = match find_chars(&sv, &pattern("+")) {
            Some(i) => i + 1,
            None => 0,
        };
        let end = match find_chars(&sv, &pattern("?")) {
            Some(i) => i,
            None => match find_chars(&sv, &pattern("#")) {
                Some(i) => i,
                None => n,
            },
        };
        let part = string_from(slice(&sv, begin, end).as_slice());
        str_eq(url.as_str(), part.as_str())
    }
}

} // verus!
