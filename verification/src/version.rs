//! Semantic versions and version requirements, held as plain values. Parsing
//! and requirement matching are done by the `semver` crate.
use vstd::prelude::*;

verus! {

/// A semantic version: `major.minor.patch[-pre][+build]`.
#[derive(Debug, Clone)]
pub struct Version {
    pub major: u64,
    pub minor: u64,
    pub patch: u64,
    /// The pre-release part, empty when there is none.
    pub pre: String,
    /// The build metadata, empty when there is none.
    pub build: String,
}

/// The plain-value form of a [`Version`].
pub type VersionModel = (u64, u64, u64, Seq<char>, Seq<char>);

impl View for Version {
    type V = VersionModel;

    open spec fn view(&self) -> VersionModel {
        (self.major, self.minor, self.patch, self.pre@, self.build@)
    }
}

/// The comparison operator of a [`Comparator`].
#[derive(Debug, Clone, Copy, PartialEq, Eq, Structural)]
pub enum Operator {
    Exact,
    Greater,
    GreaterEq,
    Less,
    LessEq,
    Tilde,
    Caret,
    Wildcard,
}

/// One comparator of a version requirement, such as `>=1.2`.
#[derive(Debug, Clone)]
pub struct Comparator {
    pub op: Operator,
    pub major: u64,
    pub minor: Option<u64>,
    pub patch: Option<u64>,
    pub pre: String,
}

/// The plain-value form of a [`Comparator`].
pub type ComparatorModel = (Operator, u64, Option<u64>, Option<u64>, Seq<char>);

impl View for Comparator {
    type V = ComparatorModel;

    open spec fn view(&self) -> ComparatorModel {
        (self.op, self.major, self.minor, self.patch, self.pre@)
    }
}

/// A version requirement: a list of comparators that must all hold.
#[derive(Debug, Clone)]
pub struct VersionReq {
    pub comparators: Vec<Comparator>,
}

impl View for VersionReq {
    type V = Seq<ComparatorModel>;

    open spec fn view(&self) -> Seq<ComparatorModel> {
        self.comparators@.map_values(|c: Comparator| c@)
    }
}

#[verifier::external_type_specification]
#[verifier::external_body]
pub struct ExSemverOp(semver::Op);

/// What `semver::Version::parse` gives for a text, as plain values.
pub uninterp spec fn semver_parse_version(text: Seq<char>) -> Option<VersionModel>;

/// What `semver::VersionReq::parse` gives for a text, as plain values.
pub uninterp spec fn semver_parse_req(text: Seq<char>) -> Option<Seq<ComparatorModel>>;

/// What `semver::VersionReq::matches` answers for a requirement and a version.
pub uninterp spec fn semver_req_matches(req: Seq<ComparatorModel>, version: VersionModel) -> bool;

/// Calls `semver::Version::parse`. The contract claims that the result is
/// `semver_parse_version` of the text, with the pre-release and build parts
/// taken by their `as_str`.
#[verifier::external_body]
fn semver_version_parse(text: &str) -> (r: Option<Version>)
    ensures
        match r {
            Some(v) => semver_parse_version(text@) == Some(v@),
            None => semver_parse_version(text@) is None,
        },
{
    match semver::Version::parse(text) {
        Ok(v) => Some(Version {
            major: v.major,
            minor: v.minor,
            patch: v.patch,
            pre: v.pre.as_str().to_owned(),
            build: v.build.as_str().to_owned(),
        }),
        Err(_) => None,
    }
}

/// Moves a `semver::Op` into the library's [`Operator`], one variant for one.
#[verifier::external_body]
fn op_from_semver(op: semver::Op) -> Operator {
    match op {
        semver::Op::Exact => Operator::Exact,
        semver::Op::Greater => Operator::Greater,
        semver::Op::GreaterEq => Operator::GreaterEq,
        semver::Op::Less => Operator::Less,
        semver::Op::LessEq => Operator::LessEq,
        semver::Op::Tilde => Operator::Tilde,
        semver::Op::Caret => Operator::Caret,
        _ => Operator::Wildcard,
    }
}

/// Moves the library's [`Operator`] into a `semver::Op`, one variant for one.
#[verifier::external_body]
fn op_to_semver(op: Operator) -> semver::Op {
    match op {
        Operator::Exact => semver::Op::Exact,
        Operator::Greater => semver::Op::Greater,
        Operator::GreaterEq => semver::Op::GreaterEq,
        Operator::Less => semver::Op::Less,
        Operator::LessEq => semver::Op::LessEq,
        Operator::Tilde => semver::Op::Tilde,
        Operator::Caret => semver::Op::Caret,
        Operator::Wildcard => semver::Op::Wildcard,
    }
}

/// Calls `semver::VersionReq::parse`. The contract claims that the result is
/// `semver_parse_req` of the text, each comparator moved field by field.
#[verifier::external_body]
fn semver_req_parse(text: &str) -> (r: Option<VersionReq>)
    ensures
        match r {
            Some(req) => semver_parse_req(text@) == Some(req@),
            None => semver_parse_req(text@) is None,
        },
{
    semver::VersionReq::parse(text).ok().map(|req| VersionReq {
        comparators: req.comparators.into_iter().map(|c| Comparator {
            op: op_from_semver(c.op),
            major: c.major,
            minor: c.minor,
            patch: c.patch,
            pre: c.pre.as_str().to_owned(),
        }).collect(),
    })
}

/// Calls `semver::VersionReq::matches` on the requirement and version moved
/// back into `semver`'s types. The contract claims that the answer is
/// `semver_req_matches` of the two, and, as `semver`'s documentation of
/// `VersionReq::STAR` says, that a requirement without comparators matches
/// a version without a pre-release part, and, of a version `semver` parsed
/// (whose pre-release text `semver` accepts), exactly those. A pre-release
/// text that `semver` refuses is taken as empty, so of other versions no
/// more is said.
#[verifier::external_body]
fn semver_matches(req: &VersionReq, v: &Version) -> (r: bool)
    ensures
        r == semver_req_matches(req@, v@),
        req@.len() == 0 && v.pre@.len() == 0 ==> r,
        req@.len() == 0 && (exists|t: Seq<char>| semver_parse_version(t) == Some(v@)) ==> (r <==> v.pre@.len() == 0),
{
    let sv = semver::Version {
        major: v.major,
        minor: v.minor,
        patch: v.patch,
        pre: semver::Prerelease::new(&v.pre).unwrap_or(semver::Prerelease::EMPTY),
        build: semver::BuildMetadata::new(&v.build).unwrap_or(semver::BuildMetadata::EMPTY),
    };
    let comparators = req.comparators.iter().map(|c| semver::Comparator {
        op: op_to_semver(c.op),
        major: c.major,
        minor: c.minor,
        patch: c.patch,
        pre: semver::Prerelease::new(&c.pre).unwrap_or(semver::Prerelease::EMPTY),
    }).collect();
    semver::VersionReq { comparators }.matches(&sv)
}

impl Version {
    /// Parses a semantic version; `None` where `semver` refuses the text.
    pub fn parse(text: &str) -> (r: Option<Version>)
        ensures
            match r {
                Some(v) => semver_parse_version(text@) == Some(v@),
                None => semver_parse_version(text@) is None,
            },
    {
        semver_version_parse(text)
    }

    /// Whether two versions are equal: every part, build metadata included,
    /// is the same (the equality `semver::Version` derives).
    pub fn same(&self, other: &Version) -> (r: bool)
        ensures
            r == (self@ == other@),
    {
        self.major == other.major && self.minor == other.minor && self.patch == other.patch
            && self.pre == other.pre && self.build == other.build
    }
}

impl PartialEq for Version {
    fn eq(&self, other: &Self) -> (r: bool) {
        self.same(other)
    }
}

impl vstd::std_specs::cmp::PartialEqSpecImpl for Version {
    open spec fn obeys_eq_spec() -> bool {
        true
    }

    open spec fn eq_spec(&self, other: &Self) -> bool {
        self@ == other@
    }
}

impl Eq for Version {
}

impl VersionReq {
    /// The requirement without comparators, written `*`.
    pub fn star() -> (r: VersionReq)
        ensures
            r@.len() == 0,
    {
        VersionReq { comparators: Vec::new() }
    }

    /// Parses a version requirement; `None` where `semver` refuses the text.
    pub fn parse(text: &str) -> (r: Option<VersionReq>)
        ensures
            match r {
                Some(req) => semver_parse_req(text@) == Some(req@),
                None => semver_parse_req(text@) is None,
            },
    {
        semver_req_parse(text)
    }

    /// Whether `v` satisfies the requirement, as `semver` decides it.
    pub fn matches(&self, v: &Version) -> (r: bool)
        ensures
            r == semver_req_matches(self@, v@),
            self@.len() == 0 && v.pre@.len() == 0 ==> r,
            self@.len() == 0 && (exists|t: Seq<char>| semver_parse_version(t) == Some(v@)) ==> (r
                <==> v.pre@.len() == 0),
    {
        semver_matches(self, v)
    }
}

} // verus!
