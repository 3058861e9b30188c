//! The library's own model of the output of `cargo metadata`: packages,
//! their dependencies and targets, and the resolved dependency graph.
use vstd::prelude::*;
use crate::text::{chars_of, concat, contains_str, str_eq, strs, seq_lt, Order, compare_str};
use crate::version::{Version, VersionModel, VersionReq};
use crate::paths;
use crate::search::{first_index, lemma_first_index_some, lemma_first_index_none};

verus! {

/// An "opaque" identifier for a package. Its `repr` is cargo's string form of
/// the id, such as `name version (source)`.
#[derive(Clone, Debug, PartialEq, Eq, PartialOrd, Ord, Hash)]
pub struct PackageId {
    /// The underlying string representation of the id.
    pub repr: String,
}

impl View for PackageId {
    type V = Seq<char>;

    open spec fn view(&self) -> Seq<char> {
        self.repr@
    }
}

impl PackageId {
    /// Compares two ids by their representations, in the order of `String`'s `Ord`.
    pub fn compare(&self, other: &PackageId) -> (r: Order)
        ensures
            r == Order::Equal <==> self@ == other@,
            r == Order::Less <==> seq_lt(self@, other@),
            r == Order::Greater <==> seq_lt(other@, self@),
    {
        compare_str(self.repr.as_str(), other.repr.as_str())
    }

    /// Whether two ids have the same representation.
    pub fn same(&self, other: &PackageId) -> (r: bool)
        ensures
            r == (self@ == other@),
    {
        str_eq(self.repr.as_str(), other.repr.as_str())
    }

    /// A copy of the id.
    pub fn duplicate(&self) -> (r: PackageId)
        ensures
            r@ == self@,
    {
        PackageId { repr: self.repr.clone() }
    }
}

/// The representations of a sequence of ids.
pub open spec fn ids(v: Seq<PackageId>) -> Seq<Seq<char>> {
    v.map_values(|x: PackageId| x@)
}

/// The source of a package, such as crates.io.
#[derive(Clone, Debug, PartialEq, Eq)]
pub struct Source {
    /// The underlying string representation of a source.
    pub repr: String,
}

/// The representation of the crates.io source.
pub open spec fn crates_io_repr() -> Seq<char> {
    "registry+https://github.com/rust-lang/crates.io-index"@
}

impl Source {
    /// Returns true if the source is crates.io.
    pub fn is_crates_io(&self) -> (r: bool)
        ensures
            r == (self.repr@ == crates_io_repr()),
    {
        str_eq(self.repr.as_str(), "registry+https://github.com/rust-lang/crates.io-index")
    }
}

/// Dependencies can come in three kinds.
#[derive(Eq, PartialEq, Structural, Clone, Debug, Copy, Hash)]
pub enum DependencyKind {
    /// The 'normal' kind
    Normal,
    /// Those used in tests only
    Development,
    /// Those used in build scripts only
    Build,
}

impl Default for DependencyKind {
    fn default() -> (r: Self)
        ensures
            r == DependencyKind::Normal,
    {
        DependencyKind::Normal
    }
}

/// The name of a dependency kind, as cargo writes it.
pub open spec fn dependency_kind_name(kind: DependencyKind) -> Seq<char> {
    match kind {
        DependencyKind::Normal => "normal"@,
        DependencyKind::Development => "dev"@,
        DependencyKind::Build => "build"@,
    }
}

/// The dependency kind that cargo writes with a name; no name means `Normal`.
pub open spec fn dependency_kind_named(name: Option<Seq<char>>) -> Option<DependencyKind> {
    match name {
        None => Some(DependencyKind::Normal),
        Some(n) => if n == "normal"@ {
            Some(DependencyKind::Normal)
        } else if n == "dev"@ {
            Some(DependencyKind::Development)
        } else if n == "build"@ {
            Some(DependencyKind::Build)
        } else {
            None
        },
    }
}

impl DependencyKind {
    /// The name of the kind: `normal`, `dev` or `build`.
    pub fn as_str(&self) -> (r: &'static str)
        ensures
            r@ == dependency_kind_name(*self),
    {
        match self {
            DependencyKind::Normal => "normal",
            DependencyKind::Development => "dev",
            DependencyKind::Build => "build",
        }
    }

    /// The kind for the `kind` field of cargo's output, which is absent for
    /// normal dependencies; `None` for a name cargo does not use.
    pub fn from_name(name: Option<&str>) -> (r: Option<DependencyKind>)
        ensures
            r == dependency_kind_named(
                match name {
                    Some(n) => Some(n@),
                    None => None,
                },
            ),
    {
        match name {
            None => Some(DependencyKind::Normal),
            Some(n) => {
                if str_eq(n, "normal") {
                    Some(DependencyKind::Normal)
                } else if str_eq(n, "dev") {
                    Some(DependencyKind::Development)
                } else if str_eq(n, "build") {
                    Some(DependencyKind::Build)
                } else {
                    None
                }
            },
        }
    }
}

/// Kind of target.
#[derive(Clone, Copy, Debug, PartialEq, Eq, Structural, Hash, PartialOrd, Ord)]
pub enum TargetKind {
    /// `cargo bench` target
    Bench,
    /// Binary executable target
    Bin,
    /// Custom build target
    CustomBuild,
    /// Dynamic system library target
    CDyLib,
    /// Dynamic Rust library target
    DyLib,
    /// Example target
    Example,
    /// Rust library
    Lib,
    /// Procedural Macro
    ProcMacro,
    /// Rust library for use as an intermediate artifact
    RLib,
    /// Static system library
    StaticLib,
    /// Test target
    Test,
}

/// The target kind cargo writes with a name.
pub open spec fn target_kind_named(v: Seq<char>) -> Option<TargetKind> {
    if v == "example"@ {
        Some(TargetKind::Example)
    } else if v == "test"@ {
        Some(TargetKind::Test)
    } else if v == "bench"@ {
        Some(TargetKind::Bench)
    } else if v == "custom-build"@ {
        Some(TargetKind::CustomBuild)
    } else if v == "bin"@ {
        Some(TargetKind::Bin)
    } else if v == "lib"@ {
        Some(TargetKind::Lib)
    } else if v == "rlib"@ {
        Some(TargetKind::RLib)
    } else if v == "dylib"@ {
        Some(TargetKind::DyLib)
    } else if v == "cdylib"@ {
        Some(TargetKind::CDyLib)
    } else if v == "staticlib"@ {
        Some(TargetKind::StaticLib)
    } else if v == "proc-macro"@ {
        Some(TargetKind::ProcMacro)
    } else {
        None
    }
}

/// The name cargo writes for a target kind.
pub open spec fn target_kind_text(k: TargetKind) -> Seq<char> {
    match k {
        TargetKind::Example => "example"@,
        TargetKind::Test => "test"@,
        TargetKind::Bench => "bench"@,
        TargetKind::CustomBuild => "custom-build"@,
        TargetKind::Bin => "bin"@,
        TargetKind::Lib => "lib"@,
        TargetKind::RLib => "rlib"@,
        TargetKind::DyLib => "dylib"@,
        TargetKind::CDyLib => "cdylib"@,
        TargetKind::StaticLib => "staticlib"@,
        TargetKind::ProcMacro => "proc-macro"@,
    }
}

/// Reading back the name of a target kind gives the same kind.
pub proof fn target_kind_text_roundtrip(k: TargetKind)
    ensures
        target_kind_named(target_kind_text(k)) == Some(k),
{
    reveal_strlit("example");
    reveal_strlit("test");
    reveal_strlit("bench");
    reveal_strlit("custom-build");
    reveal_strlit("bin");
    reveal_strlit("lib");
    reveal_strlit("rlib");
    reveal_strlit("dylib");
    reveal_strlit("cdylib");
    reveal_strlit("staticlib");
    reveal_strlit("proc-macro");
    assert("bin"@[0] != "lib"@[0]);
    assert("test"@[0] != "rlib"@[0]);
    assert("bench"@[0] != "dylib"@[0]);
    assert("example"@.len() == 7);
    assert("test"@.len() == 4);
    assert("bench"@.len() == 5);
    assert("custom-build"@.len() == 12);
    assert("bin"@.len() == 3);
    assert("lib"@.len() == 3);
    assert("rlib"@.len() == 4);
    assert("dylib"@.len() == 5);
    assert("cdylib"@.len() == 6);
    assert("staticlib"@.len() == 9);
    assert("proc-macro"@.len() == 10);
}

impl TargetKind {
    /// The name cargo writes for the target kind.
    pub fn as_str(&self) -> (r: &'static str)
        ensures
            r@ == target_kind_text(*self),
    {
        match self {
            TargetKind::Example => "example",
            TargetKind::Test => "test",
            TargetKind::Bench => "bench",
            TargetKind::CustomBuild => "custom-build",
            TargetKind::Bin => "bin",
            TargetKind::Lib => "lib",
            TargetKind::RLib => "rlib",
            TargetKind::DyLib => "dylib",
            TargetKind::CDyLib => "cdylib",
            TargetKind::StaticLib => "staticlib",
            TargetKind::ProcMacro => "proc-macro",
        }
    }

    /// Parses a target kind, failing with `unknown target kind <value>`.
    pub fn parse(value: &str) -> (r: Result<TargetKind, String>)
        ensures
            match r {
                Ok(k) => target_kind_named(value@) == Some(k),
                Err(msg) => target_kind_named(value@) is None && msg@ == "unknown target kind "@
                    + value@,
            },
    {
        if str_eq(value, "example") {
            Ok(TargetKind::Example)
        } else if str_eq(value, "test") {
            Ok(TargetKind::Test)
        } else if str_eq(value, "bench") {
            Ok(TargetKind::Bench)
        } else if str_eq(value, "custom-build") {
            Ok(TargetKind::CustomBuild)
        } else if str_eq(value, "bin") {
            Ok(TargetKind::Bin)
        } else if str_eq(value, "lib") {
            Ok(TargetKind::Lib)
        } else if str_eq(value, "rlib") {
            Ok(TargetKind::RLib)
        } else if str_eq(value, "dylib") {
            Ok(TargetKind::DyLib)
        } else if str_eq(value, "cdylib") {
            Ok(TargetKind::CDyLib)
        } else if str_eq(value, "staticlib") {
            Ok(TargetKind::StaticLib)
        } else if str_eq(value, "proc-macro") {
            Ok(TargetKind::ProcMacro)
        } else {
            Err(concat("unknown target kind ", value))
        }
    }
}

impl std::str::FromStr for TargetKind {
    type Err = String;

    /// Parses as [`TargetKind::parse`] does.
    fn from_str(value: &str) -> (r: Result<Self, Self::Err>)
        ensures
            match r {
                Ok(k) => target_kind_named(value@) == Some(k),
                Err(msg) => target_kind_named(value@) is None && msg@ == "unknown target kind "@ + value@,
            },
    {
        TargetKind::parse(value)
    }
}

/// The crate types of cargo: `bin`, `lib`, `rlib`, `dylib`, `cdylib`,
/// `staticlib`, `proc-macro`.
#[derive(Clone, Copy, Debug, PartialEq, Eq, Structural, Hash, PartialOrd, Ord)]
pub enum CrateType {
    /// Binary executable target
    Bin,
    /// Dynamic system library target
    CDyLib,
    /// Dynamic Rust library target
    DyLib,
    /// Rust library
    Lib,
    /// Procedural Macro
    ProcMacro,
    /// Rust library for use as an intermediate artifact
    RLib,
    /// Static system library
    StaticLib,
}

/// The crate type cargo writes with a name.
pub open spec fn crate_type_named(v: Seq<char>) -> Option<CrateType> {
    if v == "bin"@ {
        Some(CrateType::Bin)
    } else if v == "lib"@ {
        Some(CrateType::Lib)
    } else if v == "rlib"@ {
        Some(CrateType::RLib)
    } else if v == "dylib"@ {
        Some(CrateType::DyLib)
    } else if v == "cdylib"@ {
        Some(CrateType::CDyLib)
    } else if v == "staticlib"@ {
        Some(CrateType::StaticLib)
    } else if v == "proc-macro"@ {
        Some(CrateType::ProcMacro)
    } else {
        None
    }
}

/// The name cargo writes for a crate type.
pub open spec fn crate_type_text(k: CrateType) -> Seq<char> {
    match k {
        CrateType::Bin => "bin"@,
        CrateType::Lib => "lib"@,
        CrateType::RLib => "rlib"@,
        CrateType::DyLib => "dylib"@,
        CrateType::CDyLib => "cdylib"@,
        CrateType::StaticLib => "staticlib"@,
        CrateType::ProcMacro => "proc-macro"@,
    }
}

/// Reading back the name of a crate type gives the same type.
pub proof fn crate_type_text_roundtrip(k: CrateType)
    ensures
        crate_type_named(crate_type_text(k)) == Some(k),
{
    reveal_strlit("bin");
    reveal_strlit("lib");
    reveal_strlit("rlib");
    reveal_strlit("dylib");
    reveal_strlit("cdylib");
    reveal_strlit("staticlib");
    reveal_strlit("proc-macro");
    assert("bin"@[0] != "lib"@[0]);
    assert("bin"@.len() == 3);
    assert("lib"@.len() == 3);
    assert("rlib"@.len() == 4);
    assert("dylib"@.len() == 5);
    assert("cdylib"@.len() == 6);
    assert("staticlib"@.len() == 9);
    assert("proc-macro"@.len() == 10);
}

impl CrateType {
    /// The name cargo writes for the crate type.
    pub fn as_str(&self) -> (r: &'static str)
        ensures
            r@ == crate_type_text(*self),
    {
        match self {
            CrateType::Bin => "bin",
            CrateType::Lib => "lib",
            CrateType::RLib => "rlib",
            CrateType::DyLib => "dylib",
            CrateType::CDyLib => "cdylib",
            CrateType::StaticLib => "staticlib",
            CrateType::ProcMacro => "proc-macro",
        }
    }

    /// Parses a crate type, failing with `unknown crate type <value>`.
    pub fn parse(value: &str) -> (r: Result<CrateType, String>)
        ensures
            match r {
                Ok(k) => crate_type_named(value@) == Some(k),
                Err(msg) => crate_type_named(value@) is None && msg@ == "unknown crate type "@
                    + value@,
            },
    {
        if str_eq(value, "bin") {
            Ok(CrateType::Bin)
        } else if str_eq(value, "lib") {
            Ok(CrateType::Lib)
        } else if str_eq(value, "rlib") {
            Ok(CrateType::RLib)
        } else if str_eq(value, "dylib") {
            Ok(CrateType::DyLib)
        } else if str_eq(value, "cdylib") {
            Ok(CrateType::CDyLib)
        } else if str_eq(value, "staticlib") {
            Ok(CrateType::StaticLib)
        } else if str_eq(value, "proc-macro") {
            Ok(CrateType::ProcMacro)
        } else {
            Err(concat("unknown crate type ", value))
        }
    }
}

impl std::str::FromStr for CrateType {
    type Err = String;

    /// Parses as [`CrateType::parse`] does.
    fn from_str(value: &str) -> (r: Result<Self, Self::Err>)
        ensures
            match r {
                Ok(k) => crate_type_named(value@) == Some(k),
                Err(msg) => crate_type_named(value@) is None && msg@ == "unknown crate type "@ + value@,
            },
    {
        CrateType::parse(value)
    }
}

/// The Rust edition.
#[derive(Debug, Clone, Copy, PartialEq, Eq, Structural, PartialOrd, Ord, Hash)]
pub enum Edition {
    /// Edition 2015
    E2015,
    /// Edition 2018
    E2018,
    /// Edition 2021
    E2021,
    /// Edition 2024
    E2024,
}

/// The year of an edition, as text.
pub open spec fn edition_text(e: Edition) -> Seq<char> {
    match e {
        Edition::E2015 => "2015"@,
        Edition::E2018 => "2018"@,
        Edition::E2021 => "2021"@,
        Edition::E2024 => "2024"@,
    }
}

/// The edition of a year written as text.
pub open spec fn edition_named(v: Seq<char>) -> Option<Edition> {
    if v == "2015"@ {
        Some(Edition::E2015)
    } else if v == "2018"@ {
        Some(Edition::E2018)
    } else if v == "2021"@ {
        Some(Edition::E2021)
    } else if v == "2024"@ {
        Some(Edition::E2024)
    } else {
        None
    }
}

impl Edition {
    /// Return the string representation of the edition.
    pub fn as_str(&self) -> (r: &'static str)
        ensures
            r@ == edition_text(*self),
    {
        match self {
            Edition::E2015 => "2015",
            Edition::E2018 => "2018",
            Edition::E2021 => "2021",
            Edition::E2024 => "2024",
        }
    }

    /// Parses an edition, failing with `unknown edition <value>`.
    pub fn parse(value: &str) -> (r: Result<Edition, String>)
        ensures
            match r {
                Ok(e) => edition_named(value@) == Some(e),
                Err(msg) => edition_named(value@) is None && msg@ == "unknown edition "@ + value@,
            },
    {
        if str_eq(value, "2015") {
            Ok(Edition::E2015)
        } else if str_eq(value, "2018") {
            Ok(Edition::E2018)
        } else if str_eq(value, "2021") {
            Ok(Edition::E2021)
        } else if str_eq(value, "2024") {
            Ok(Edition::E2024)
        } else {
            Err(concat("unknown edition ", value))
        }
    }
}

/// Reading back the text of an edition gives the same edition.
pub proof fn edition_text_roundtrip(e: Edition)
    ensures
        edition_named(edition_text(e)) == Some(e),
{
    reveal_strlit("2015");
    reveal_strlit("2018");
    reveal_strlit("2021");
    reveal_strlit("2024");
    assert("2015"@[3] != "2018"@[3]);
    assert("2015"@[3] != "2021"@[3]);
    assert("2015"@[3] != "2024"@[3]);
    assert("2018"@[3] != "2021"@[3]);
    assert("2018"@[3] != "2024"@[3]);
    assert("2021"@[3] != "2024"@[3]);
}

impl Default for Edition {
    fn default() -> (r: Self)
        ensures
            r == Edition::E2015,
    {
        Edition::E2015
    }
}

impl std::str::FromStr for Edition {
    type Err = String;

    /// Parses as [`Edition::parse`] does.
    fn from_str(value: &str) -> (r: Result<Self, Self::Err>)
        ensures
            match r {
                Ok(e) => edition_named(value@) == Some(e),
                Err(msg) => edition_named(value@) is None && msg@ == "unknown edition "@ + value@,
            },
    {
        Edition::parse(value)
    }
}

} // verus!

verus! {

/// The keys of a sequence of feature entries.
pub open spec fn entry_keys(e: Seq<(String, Vec<String>)>) -> Seq<Seq<char>> {
    e.map_values(|x: (String, Vec<String>)| x.0@)
}

/// Every key is smaller than the keys after it.
pub open spec fn strictly_sorted(k: Seq<Seq<char>>) -> bool {
    forall|i: int, j: int| 0 <= i < j < k.len() ==> seq_lt(#[trigger] k[i], #[trigger] k[j])
}

proof fn lemma_sorted_index_of(k: Seq<Seq<char>>, i: int)
    requires
        strictly_sorted(k),
        0 <= i < k.len(),
    ensures
        k.index_of(k[i]) == i,
{
    let j = k.index_of(k[i]);
    assert(k.contains(k[i]));
    crate::text::lemma_lt_irreflexive(k[i]);
    if j < i {
        assert(seq_lt(k[j], k[i]));
    } else if j > i {
        assert(seq_lt(k[i], k[j]));
    }
}

/// The features of a package: each feature name mapped to the features and
/// dependencies it enables. Entries are kept ordered by name, as in a
/// `BTreeMap`.
#[derive(Debug)]
pub struct FeatureMap {
    entries: Vec<(String, Vec<String>)>,
}

impl FeatureMap {
    /// The feature names, in order.
    pub closed spec fn keys(&self) -> Seq<Seq<char>> {
        entry_keys(self.entries@)
    }

    #[verifier::type_invariant]
    closed spec fn sorted(&self) -> bool {
        strictly_sorted(self.keys())
    }

    /// The entries, in order of their names.
    pub closed spec fn entry_seq(&self) -> Seq<(String, Vec<String>)> {
        self.entries@
    }
}

impl Clone for FeatureMap {
    fn clone(&self) -> (r: Self)
        ensures
            r@ == self@,
            r.keys() == self.keys(),
    {
        proof {
            use_type_invariant(self);
        }
        let mut entries: Vec<(String, Vec<String>)> = Vec::new();
        let mut i: usize = 0;
        while i < self.entries.len()
            invariant
                i <= self.entries@.len(),
                entries@.len() == i,
                forall|k: int| 0 <= k < i ==> #[trigger] entries@[k].0@ == self.entries@[k].0@ && strs(entries@[k].1@) == strs(self.entries@[k].1@),
            decreases self.entries.len() - i,
        {
            let name = self.entries[i].0.clone();
            let mut subs: Vec<String> = Vec::new();
            let mut j: usize = 0;
            while j < self.entries[i].1.len()
                invariant
                    i < self.entries@.len(),
                    j <= self.entries@[i as int].1@.len(),
                    subs@ == self.entries@[i as int].1@.take(j as int),
                decreases self.entries@[i as int].1@.len() - j,
            {
                subs.push(self.entries[i].1[j].clone());
                j += 1;
            }
            proof {
                assert(subs@ =~= self.entries@[i as int].1@);
            }
            entries.push((name, subs));
            i += 1;
        }
        proof {
            assert(entry_keys(entries@) =~= self.keys());
        }
        let r = FeatureMap { entries };
        proof {
            assert(r.keys() =~= self.keys());
            assert forall|k: Seq<char>| #[trigger] r@.contains_key(k) implies r@[k] == self@[k] by {
                let q = self.keys().index_of(k);
                assert(strs(entries@[q].1@) == strs(self.entries@[q].1@));
            }
            assert(r@ =~= self@);
        }
        r
    }
}

impl View for FeatureMap {
    type V = Map<Seq<char>, Seq<Seq<char>>>;

    closed spec fn view(&self) -> Map<Seq<char>, Seq<Seq<char>>> {
        Map::new(
            |k: Seq<char>| self.keys().contains(k),
            |k: Seq<char>| strs(self.entries@[self.keys().index_of(k)].1@),
        )
    }
}

impl FeatureMap {
    /// An empty map.
    pub fn new() -> (r: FeatureMap)
        ensures
            r@ == Map::<Seq<char>, Seq<Seq<char>>>::empty(),
    {
        let r = FeatureMap { entries: Vec::new() };
        assert(r@ =~= Map::<Seq<char>, Seq<Seq<char>>>::empty());
        r
    }

    /// The entries, ordered by name, each name once.
    pub fn entries(&self) -> (r: &Vec<(String, Vec<String>)>)
        ensures
            r@ == self.entry_seq(),
            strictly_sorted(entry_keys(r@)),
            forall|i: int|
                0 <= i < r@.len() ==> self@.contains_key(#[trigger] r@[i].0@) && self@[r@[i].0@]
                    == strs(r@[i].1@),
            forall|k: Seq<char>| #[trigger]
                self@.contains_key(k) ==> entry_keys(r@).contains(k),
    {
        proof {
            use_type_invariant(self);
            assert forall|i: int| 0 <= i < self.entries@.len() implies self@.contains_key(
                #[trigger] self.entries@[i].0@,
            ) && self@[self.entries@[i].0@] == strs(self.entries@[i].1@) by {
                assert(self.keys()[i] == self.entries@[i].0@);
                lemma_sorted_index_of(self.keys(), i);
            }
        }
        &self.entries
    }

    /// The position of the entry named `key`, if there is one.
    fn position(&self, key: &str) -> (r: Option<usize>)
        ensures
            match r {
                Some(i) => i < self.keys().len() && self.keys()[i as int] == key@,
                None => !self.keys().contains(key@),
            },
    {
        let mut i: usize = 0;
        while i < self.entries.len()
            invariant
                i <= self.entries@.len(),
                forall|j: int| 0 <= j < i ==> self.keys()[j] != key@,
            decreases self.entries.len() - i,
        {
            if str_eq(self.entries[i].0.as_str(), key) {
                return Some(i);
            }
            i += 1;
        }
        None
    }

    /// The features enabled by the feature `key`.
    pub fn get(&self, key: &str) -> (r: Option<&Vec<String>>)
        ensures
            match r {
                Some(v) => self@.contains_key(key@) && self@[key@] == strs(v@),
                None => !self@.contains_key(key@),
            },
    {
        proof {
            use_type_invariant(self);
        }
        match self.position(key) {
            Some(i) => {
                proof {
                    lemma_sorted_index_of(self.keys(), i as int);
                }
                Some(&self.entries[i].1)
            },
            None => None,
        }
    }

    /// Whether the map has a feature named `key`.
    pub fn contains_key(&self, key: &str) -> (r: bool)
        ensures
            r == self@.contains_key(key@),
    {
        self.position(key).is_some()
    }

    /// The number of features.
    pub fn len(&self) -> (r: usize)
        ensures
            r == self@.dom().len(),
            self@.dom().finite(),
    {
        proof {
            use_type_invariant(self);
            let k = self.keys();
            assert forall|i: int, j: int| 0 <= i < k.len() && 0 <= j < k.len() && i != j implies k[i]
                != k[j] by {
                crate::text::lemma_lt_irreflexive(k[i]);
                if i < j {
                    assert(seq_lt(k[i], k[j]));
                } else {
                    assert(seq_lt(k[j], k[i]));
                }
            }
            assert(k.no_duplicates());
            k.unique_seq_to_set();
            assert(self@.dom() =~= k.to_set());
            vstd::seq_lib::seq_to_set_is_finite(k);
        }
        self.entries.len()
    }

    /// Sets the features enabled by the feature `key`, replacing what the
    /// feature enabled before, if anything.
    pub fn insert(&mut self, key: String, value: Vec<String>)
        ensures
            final(self)@ == old(self)@.insert(key@, strs(value@)),
    {
        proof {
            use_type_invariant(&*self);
        }
        let ghost old_keys = self.keys();
        let ghost old_map = self@;
        let mut p: usize = 0;
        while p < self.entries.len()
            invariant
                p <= self.entries@.len(),
                self.keys() == old_keys,
                strictly_sorted(old_keys),
                forall|j: int| 0 <= j < p ==> seq_lt(#[trigger] old_keys[j], key@),
            ensures
                p <= self.entries@.len(),
                self.keys() == old_keys,
                forall|j: int| 0 <= j < p ==> seq_lt(#[trigger] old_keys[j], key@),
                p < self.entries@.len() ==> !seq_lt(old_keys[p as int], key@),
            decreases self.entries.len() - p,
        {
            if compare_str(self.entries[p].0.as_str(), key.as_str()) != Order::Less {
                break;
            }
            p += 1;
        }
        let ghost key_v = key@;
        let ghost val_v = strs(value@);

        if p < self.entries.len() && str_eq(self.entries[p].0.as_str(), key.as_str()) {
            proof {
                lemma_sorted_index_of(old_keys, p as int);
            }
            let mut entries: Vec<(String, Vec<String>)> = Vec::new();
            std::mem::swap(&mut entries, &mut self.entries);
            entries.set(p, (key, value));
            proof {
                assert(entry_keys(entries@) =~= old_keys);
            }
            self.entries = entries;
            proof {
                assert(self.keys() =~= old_keys);
                assert forall|k: Seq<char>| #[trigger] self@.contains_key(k) == old_map.insert(key_v, val_v).contains_key(k) by {}
                assert forall|k: Seq<char>| #[trigger] self@.contains_key(k) implies self@[k] == old_map.insert(key_v, val_v)[k] by {
                    let i = self.keys().index_of(k);
                    assert(self.keys().contains(k));
                    lemma_sorted_index_of(old_keys, i);
                    if k == key_v {
                    } else {
                        assert(i != p);
                    }
                }
                assert(self@ =~= old_map.insert(key_v, val_v));
            }
        } else {
            proof {
                if p < old_keys.len() {
                    crate::text::lemma_lt_total(old_keys[p as int], key_v);
                    assert(seq_lt(key_v, old_keys[p as int]));
                }
            }
            let mut entries: Vec<(String, Vec<String>)> = Vec::new();
            std::mem::swap(&mut entries, &mut self.entries);
            entries.insert(p, (key, value));
            proof {
                let nk = entry_keys(entries@);
                assert(nk =~= old_keys.take(p as int).push(key_v) + old_keys.skip(p as int));
                assert forall|i: int, j: int| 0 <= i < j < nk.len() implies seq_lt(#[trigger] nk[i], #[trigger] nk[j]) by {
                    if j < p {
                    } else if j == p {
                    } else if i == p {
                        if j - 1 > p {
                            crate::text::lemma_lt_transitive(key_v, old_keys[p as int], old_keys[j - 1]);
                        }
                    } else if i < p {
                        if j - 1 == p {
                            crate::text::lemma_lt_transitive(old_keys[i], key_v, old_keys[p as int]);
                        } else {
                            crate::text::lemma_lt_transitive(old_keys[i], key_v, old_keys[p as int]);
                            crate::text::lemma_lt_transitive(old_keys[i], old_keys[p as int], old_keys[j - 1]);
                        }
                    } else {
                    }
                }
            }
            self.entries = entries;
            proof {
                let nk = self.keys();
                assert(nk =~= old_keys.take(p as int).push(key_v) + old_keys.skip(p as int));
                assert(!old_keys.contains(key_v)) by {
                    if old_keys.contains(key_v) {
                        let q = choose|q: int| 0 <= q < old_keys.len() && old_keys[q] == key_v;
                        crate::text::lemma_lt_irreflexive(key_v);
                        if q < p {
                        } else {
                            if q > p {
                                crate::text::lemma_lt_transitive(key_v, old_keys[p as int], old_keys[q]);
                            }
                        }
                    }
                }
                assert forall|k: Seq<char>| #[trigger] self@.contains_key(k) == old_map.insert(key_v, val_v).contains_key(k) by {
                    if old_keys.contains(k) {
                        let q = choose|q: int| 0 <= q < old_keys.len() && old_keys[q] == k;
                        if q < p {
                            assert(nk[q] == k);
                        } else {
                            assert(nk[q + 1] == k);
                        }
                    }
                    if nk.contains(k) {
                        let q = choose|q: int| 0 <= q < nk.len() && nk[q] == k;
                        if q < p {
                            assert(old_keys[q] == k);
                        } else if q > p {
                            assert(old_keys[q - 1] == k);
                        }
                    }
                    assert(nk[p as int] == key_v);
                }
                assert forall|k: Seq<char>| #[trigger] self@.contains_key(k) implies self@[k] == old_map.insert(key_v, val_v)[k] by {
                    let i = nk.index_of(k);
                    assert(nk.contains(k));
                    lemma_sorted_index_of(nk, i);
                    if i < p {
                        assert(old_keys[i] == k);
                        lemma_sorted_index_of(old_keys, i);
                    } else if i > p {
                        assert(old_keys[i - 1] == k);
                        lemma_sorted_index_of(old_keys, i - 1);
                    }
                }
                assert(self@ =~= old_map.insert(key_v, val_v));
            }
        }
    }
}

} // verus!

verus! {

/// A dependency of a package, as declared in its manifest.
#[derive(Clone, Debug)]
pub struct Dependency {
    /// Name as given in the `Cargo.toml`
    pub name: String,
    /// The source of dependency
    pub source: Option<String>,
    /// The required version
    pub req: VersionReq,
    /// The kind of dependency this is
    pub kind: DependencyKind,
    /// Whether this dependency is required or optional
    pub optional: bool,
    /// Whether the default features in this dependency are used.
    pub uses_default_features: bool,
    /// The list of features enabled for this dependency.
    pub features: Vec<String>,
    /// The target this dependency is specific to.
    pub target: Option<String>,
    /// If the dependency is renamed, this is the new name for the dependency.
    pub rename: Option<String>,
    /// The URL of the index of the registry where this dependency is from.
    pub registry: Option<String>,
    /// The file system path for a local path dependency.
    pub path: Option<String>,
}

/// A single target (lib, bin, example, ...) provided by a crate.
#[derive(Clone, Debug)]
pub struct Target {
    /// Name as given in the `Cargo.toml` or generated from the file name
    pub name: String,
    /// Kinds of the target.
    pub kind: Vec<TargetKind>,
    /// The crate types of the target.
    pub crate_types: Vec<CrateType>,
    /// This target is built only if these features are enabled.
    pub required_features: Vec<String>,
    /// Path to the main source file of the target
    pub src_path: String,
    /// Rust edition for this target
    pub edition: Edition,
    /// Whether or not this target has doc tests enabled.
    pub doctest: bool,
    /// Whether or not this target is tested by default by `cargo test`.
    pub test: bool,
    /// Whether or not this target is documented by `cargo doc`.
    pub doc: bool,
}

impl Target {
    fn is_kind(&self, name: TargetKind) -> (r: bool)
        ensures
            r == self.kind@.contains(name),
    {
        let mut i: usize = 0;
        while i < self.kind.len()
            invariant
                i <= self.kind@.len(),
                forall|j: int| 0 <= j < i ==> self.kind@[j] != name,
            decreases self.kind.len() - i,
        {
            if self.kind[i] == name {
                return true;
            }
            i += 1;
        }
        false
    }

    /// Return true if this target is of kind "lib".
    pub fn is_lib(&self) -> (r: bool)
        ensures
            r == self.kind@.contains(TargetKind::Lib),
    {
        self.is_kind(TargetKind::Lib)
    }

    /// Return true if this target is of kind "bin".
    pub fn is_bin(&self) -> (r: bool)
        ensures
            r == self.kind@.contains(TargetKind::Bin),
    {
        self.is_kind(TargetKind::Bin)
    }

    /// Return true if this target is of kind "example".
    pub fn is_example(&self) -> (r: bool)
        ensures
            r == self.kind@.contains(TargetKind::Example),
    {
        self.is_kind(TargetKind::Example)
    }

    /// Return true if this target is of kind "test".
    pub fn is_test(&self) -> (r: bool)
        ensures
            r == self.kind@.contains(TargetKind::Test),
    {
        self.is_kind(TargetKind::Test)
    }

    /// Return true if this target is of kind "bench".
    pub fn is_bench(&self) -> (r: bool)
        ensures
            r == self.kind@.contains(TargetKind::Bench),
    {
        self.is_kind(TargetKind::Bench)
    }

    /// Return true if this target is of kind "custom-build".
    pub fn is_custom_build(&self) -> (r: bool)
        ensures
            r == self.kind@.contains(TargetKind::CustomBuild),
    {
        self.is_kind(TargetKind::CustomBuild)
    }

    /// Return true if this target is of kind "proc-macro".
    pub fn is_proc_macro(&self) -> (r: bool)
        ensures
            r == self.kind@.contains(TargetKind::ProcMacro),
    {
        self.is_kind(TargetKind::ProcMacro)
    }
}

/// One or more crates described by a single `Cargo.toml`.
#[derive(Clone, Debug)]
pub struct Package {
    /// The `name` field as given in the `Cargo.toml`
    pub name: String,
    /// The `version` field as specified in the `Cargo.toml`
    pub version: Version,
    /// The `authors` field as specified in the `Cargo.toml`
    pub authors: Vec<String>,
    /// An opaque identifier for a package
    pub id: PackageId,
    /// The source of the package, e.g. crates.io or `None` for local projects.
    pub source: Option<Source>,
    /// The `description` field as specified in the `Cargo.toml`
    pub description: Option<String>,
    /// List of dependencies of this particular package
    pub dependencies: Vec<Dependency>,
    /// The `license` field as specified in the `Cargo.toml`
    pub license: Option<String>,
    /// The `license-file` field, relative to the manifest.
    pub license_file: Option<String>,
    /// Targets provided by the crate (lib, bin, example, test, ...)
    pub targets: Vec<Target>,
    /// Features provided by the crate, mapped to the features required by that feature.
    pub features: FeatureMap,
    /// Path containing the `Cargo.toml`
    pub manifest_path: String,
    /// The `categories` field as specified in the `Cargo.toml`
    pub categories: Vec<String>,
    /// The `keywords` field as specified in the `Cargo.toml`
    pub keywords: Vec<String>,
    /// The `readme` field, relative to the manifest.
    pub readme: Option<String>,
    /// The `repository` URL as specified in the `Cargo.toml`
    pub repository: Option<String>,
    /// The `homepage` URL as specified in the `Cargo.toml`.
    pub homepage: Option<String>,
    /// The `documentation` URL as specified in the `Cargo.toml`.
    pub documentation: Option<String>,
    /// The default Rust edition for the package.
    pub edition: Edition,
    /// Contents of the free form `package.metadata` section, as JSON text.
    pub metadata: String,
    /// The name of a native library the package is linking to.
    pub links: Option<String>,
    /// List of registries to which this package may be published.
    pub publish: Option<Vec<String>>,
    /// The `default-run` field as given in the `Cargo.toml`
    pub default_run: Option<String>,
    /// The `rust-version` field as specified in the `Cargo.toml`.
    pub rust_version: Option<Version>,
}

/// The path of `file` taken relative to the directory of the manifest
/// `manifest` (the manifest itself where it has no parent).
pub open spec fn beside_manifest(manifest: Seq<char>, file: Seq<char>) -> Seq<char> {
    paths::camino_join(
        match paths::camino_parent(manifest) {
            Some(p) => p,
            None => manifest,
        },
        file,
    )
}

impl Package {
    fn beside_manifest(&self, file: &String) -> (r: String)
        ensures
            r@ == beside_manifest(self.manifest_path@, file@),
    {
        match paths::parent(self.manifest_path.as_str()) {
            Some(dir) => paths::join(dir.as_str(), file.as_str()),
            None => paths::join(self.manifest_path.as_str(), file.as_str()),
        }
    }

    /// Full path to the license file if one is present in the manifest.
    pub fn license_file(&self) -> (r: Option<String>)
        ensures
            match self.license_file {
                Some(f) => r is Some && r->0@ == beside_manifest(self.manifest_path@, f@),
                None => r is None,
            },
    {
        match &self.license_file {
            Some(file) => Some(self.beside_manifest(file)),
            None => None,
        }
    }

    /// Full path to the readme file if one is present in the manifest.
    pub fn readme(&self) -> (r: Option<String>)
        ensures
            match self.readme {
                Some(f) => r is Some && r->0@ == beside_manifest(self.manifest_path@, f@),
                None => r is None,
            },
    {
        match &self.readme {
            Some(file) => Some(self.beside_manifest(file)),
            None => None,
        }
    }
}

/// Information about a dependency kind.
#[derive(Clone, Debug)]
pub struct DepKindInfo {
    /// The kind of dependency.
    pub kind: DependencyKind,
    /// The target platform for the dependency, `None` if it is not a target dependency.
    pub target: Option<String>,
}

/// A dependency in a node of the resolved graph.
#[derive(Clone, Debug)]
pub struct NodeDep {
    /// The name of the dependency's library target; if the crate was renamed,
    /// it is the new name.
    pub name: String,
    /// Package ID (opaque unique identifier)
    pub pkg: PackageId,
    /// The kinds of dependencies.
    pub dep_kinds: Vec<DepKindInfo>,
}

/// A node in the resolved dependency graph.
#[derive(Clone, Debug)]
pub struct Node {
    /// An opaque identifier for a package
    pub id: PackageId,
    /// Dependencies in a structured format.
    pub deps: Vec<NodeDep>,
    /// List of opaque identifiers for this node's dependencies.
    pub dependencies: Vec<PackageId>,
    /// Features enabled on the crate
    pub features: Vec<String>,
}

/// The resolved dependency graph.
#[derive(Clone, Debug)]
pub struct Resolve {
    /// Nodes in a dependencies graph
    pub nodes: Vec<Node>,
    /// The crate for which the metadata was read.
    pub root: Option<PackageId>,
}

/// A list of default workspace members; only given by cargo 1.71 or newer.
#[derive(Clone, Debug)]
pub struct WorkspaceDefaultMembers(pub Option<Vec<PackageId>>);

impl WorkspaceDefaultMembers {
    /// The default members, which cargo 1.71 or newer gives.
    pub fn members(&self) -> (r: &Vec<PackageId>)
        requires
            self.0 is Some,
        ensures
            *r == self.0->0,
    {
        match &self.0 {
            Some(m) => m,
            None => unreached(),
        }
    }
}

/// Starting point for metadata returned by `cargo metadata`.
#[derive(Clone, Debug)]
pub struct Metadata {
    /// A list of all crates referenced by this crate (and the crate itself)
    pub packages: Vec<Package>,
    /// A list of all workspace members
    pub workspace_members: Vec<PackageId>,
    /// The list of default workspace members
    pub workspace_default_members: WorkspaceDefaultMembers,
    /// Dependencies graph
    pub resolve: Option<Resolve>,
    /// Workspace root
    pub workspace_root: String,
    /// Build directory
    pub target_directory: String,
    /// The workspace-level metadata object, as JSON text.
    pub workspace_metadata: String,
    /// The metadata format version
    pub version: usize,
}

/// The package whose id is `id`.
pub open spec fn has_id(id: Seq<char>) -> spec_fn(Package) -> bool {
    |p: Package| p.id@ == id
}

/// The package whose manifest is the path `path`.
pub open spec fn has_manifest(path: Seq<char>) -> spec_fn(Package) -> bool {
    |p: Package| paths::camino_eq(p.manifest_path@, path)
}

/// The package whose id is one of `members`.
pub open spec fn is_member(members: Seq<Seq<char>>) -> spec_fn(Package) -> bool {
    |p: Package| members.contains(p.id@)
}

/// The position of the workspace's root package among the packages.
pub open spec fn root_package_index(md: Metadata) -> Option<int> {
    match md.resolve {
        Some(resolve) => match resolve.root {
            Some(root) => first_index(md.packages@, has_id(root@)),
            None => None,
        },
        None => first_index(
            md.packages@,
            has_manifest(paths::camino_join(md.workspace_root@, "Cargo.toml"@)),
        ),
    }
}

impl Metadata {
    /// Get the workspace's root package of this metadata instance: the
    /// resolved root where dependencies are resolved, else the package whose
    /// manifest is the `Cargo.toml` in the workspace root.
    #[verifier::loop_isolation(false)]
    pub fn root_package(&self) -> (r: Option<&Package>)
        ensures
            match root_package_index(*self) {
                Some(i) => r is Some && *r->0 == self.packages@[i],
                None => r is None,
            },
    {
        let mut i: usize = 0;
        if let Some(resolve) = &self.resolve {
            let root = match &resolve.root {
                Some(root) => root,
                None => return None,
            };
            let ghost p = has_id(root@);
            while i < self.packages.len()
                invariant
                    i <= self.packages@.len(),
                    p == has_id(root@),
                    forall|j: int| 0 <= j < i ==> !p(#[trigger] self.packages@[j]),
                decreases self.packages.len() - i,
            {
                if self.packages[i].id.same(root) {
                    proof {
                        assert(p(self.packages@[i as int]));
                        lemma_first_index_some(self.packages@, p, i as int);
                        assert(root_package_index(*self) == Some(i as int));
                    }
                    return Some(&self.packages[i]);
                }
                i += 1;
            }
            proof {
                lemma_first_index_none(self.packages@, p);
            }
            None
        } else {
            let root_manifest_path = paths::join(self.workspace_root.as_str(), "Cargo.toml");
            let ghost p = has_manifest(root_manifest_path@);
            while i < self.packages.len()
                invariant
                    i <= self.packages@.len(),
                    p == has_manifest(root_manifest_path@),
                    forall|j: int| 0 <= j < i ==> !p(#[trigger] self.packages@[j]),
                decreases self.packages.len() - i,
            {
                if paths::same_path(self.packages[i].manifest_path.as_str(), root_manifest_path.as_str()) {
                    proof {
                        assert(p(self.packages@[i as int]));
                        lemma_first_index_some(self.packages@, p, i as int);
                        assert(root_package_index(*self) == Some(i as int));
                    }
                    return Some(&self.packages[i]);
                }
                i += 1;
            }
            proof {
                lemma_first_index_none(self.packages@, p);
            }
            None
        }
    }

    fn packages_among<'a>(&'a self, members: &Vec<PackageId>) -> (r: Vec<&'a Package>)
        ensures
            r@.map_values(|p: &Package| *p) == self.packages@.filter(is_member(ids(members@))),
    {
        let ghost pred = is_member(ids(members@));
        let mut r: Vec<&'a Package> = Vec::new();
        let mut i: usize = 0;
        while i < self.packages.len()
            invariant
                i <= self.packages@.len(),
                pred == is_member(ids(members@)),
                r@.map_values(|p: &Package| *p) == self.packages@.take(i as int).filter(pred),
            decreases self.packages.len() - i,
        {
            proof {
                reveal_with_fuel(Seq::<_>::filter, 1);
                assert(self.packages@.take(i + 1).drop_last() =~= self.packages@.take(i as int));
            }
            let mut found = false;
            let mut j: usize = 0;
            while j < members.len()
                invariant
                    i < self.packages@.len(),
                    j <= members@.len(),
                    found == exists|k: int| 0 <= k < j && #[trigger] members@[k]@ == self.packages@[i as int].id@,
                decreases members.len() - j,
            {
                if members[j].same(&self.packages[i].id) {
                    found = true;
                }
                j += 1;
            }
            proof {
                if found {
                    let k = choose|k: int| 0 <= k < members@.len() && #[trigger] members@[k]@ == self.packages@[i as int].id@;
                    assert(ids(members@)[k] == self.packages@[i as int].id@);
                } else {
                    if ids(members@).contains(self.packages@[i as int].id@) {
                        let k = choose|k: int| 0 <= k < ids(members@).len() && ids(members@)[k] == self.packages@[i as int].id@;
                        assert(members@[k]@ == self.packages@[i as int].id@);
                    }
                }
                assert(found == pred(self.packages@[i as int]));
            }
            if found {
                r.push(&self.packages[i]);
            }
            proof {
                assert(r@.map_values(|p: &Package| *p) =~= self.packages@.take(i + 1).filter(pred));
            }
            i += 1;
        }
        proof {
            assert(self.packages@.take(i as int) =~= self.packages@);
        }
        r
    }

    /// Get the workspace packages, in the order of `packages`.
    pub fn workspace_packages(&self) -> (r: Vec<&Package>)
        ensures
            r@.map_values(|p: &Package| *p) == self.packages@.filter(
                is_member(ids(self.workspace_members@)),
            ),
    {
        self.packages_among(&self.workspace_members)
    }

    /// The package with the given id (the first, should there be several).
    pub fn package(&self, id: &PackageId) -> (r: &Package)
        requires
            exists|i: int| 0 <= i < self.packages@.len() && (#[trigger] self.packages@[i]).id@ == id@,
        ensures
            first_index(self.packages@, has_id(id@)) matches Some(i) && *r == self.packages@[i],
    {
        let ghost p = has_id(id@);
        let mut i: usize = 0;
        while i < self.packages.len()
            invariant
                i <= self.packages@.len(),
                p == has_id(id@),
                exists|j: int| 0 <= j < self.packages@.len() && (#[trigger] self.packages@[j]).id@ == id@,
                forall|j: int| 0 <= j < i ==> !p(#[trigger] self.packages@[j]),
            decreases self.packages.len() - i,
        {
            if self.packages[i].id.same(id) {
                proof {
                    assert(p(self.packages@[i as int]));
                    lemma_first_index_some(self.packages@, p, i as int);
                }
                return &self.packages[i];
            }
            i += 1;
        }
        proof {
            let j = choose|j: int| 0 <= j < self.packages@.len() && (#[trigger] self.packages@[j]).id@ == id@;
            assert(p(self.packages@[j]));
        }
        unreached()
    }

    /// Get the workspace default packages, in the order of `packages`. The
    /// default members are only given by cargo 1.71 or newer.
    pub fn workspace_default_packages(&self) -> (r: Vec<&Package>)
        requires
            self.workspace_default_members.0 is Some,
        ensures
            r@.map_values(|p: &Package| *p) == self.packages@.filter(
                is_member(ids(self.workspace_default_members.0->0@)),
            ),
    {
        match &self.workspace_default_members.0 {
            Some(members) => self.packages_among(members),
            None => Vec::new(),
        }
    }
}

} // verus!

verus! {

/// Why a `rust-version` field was refused.
#[derive(Debug, Clone, Copy, PartialEq, Eq, Structural)]
pub enum RustVersionError {
    /// It holds a `-`: pre-release identifiers are not supported.
    PreRelease,
    /// It holds a `+`: build metadata is not supported.
    BuildMetadata,
    /// `semver` refuses it as a version.
    Invalid,
}

/// The number of times `c` occurs in `s`.
pub open spec fn count_char(s: Seq<char>, c: char) -> nat
    decreases s.len(),
{
    if s.len() == 0 {
        0
    } else {
        count_char(s.drop_last(), c) + if s.last() == c {
            1nat
        } else {
            0nat
        }
    }
}

/// How a `rust-version` field reads as a version: refused where it holds a
/// `-` or `+` (whichever comes first decides the error); with `.0` appended
/// where it has exactly one `.`, then parsed by `semver`.
pub open spec fn rust_version_of(text: Seq<char>) -> Result<VersionModel, RustVersionError> {
    let first_sign = first_index(text, |c: char| c == '-' || c == '+');
    match first_sign {
        Some(i) => if text[i] == '-' {
            Err(RustVersionError::PreRelease)
        } else {
            Err(RustVersionError::BuildMetadata)
        },
        None => {
            let full = if count_char(text, '.') == 1 {
                text + ".0"@
            } else {
                text
            };
            match crate::version::semver_parse_version(full) {
                Some(v) => Ok(v),
                None => Err(RustVersionError::Invalid),
            }
        },
    }
}

/// Reads the `rust-version` field of a manifest as a version (see
/// [`rust_version_of`]).
pub fn parse_rust_version(text: &str) -> (r: Result<Version, RustVersionError>)
    ensures
        match r {
            Ok(v) => rust_version_of(text@) == Ok::<VersionModel, RustVersionError>(v@),
            Err(e) => rust_version_of(text@) == Err::<VersionModel, RustVersionError>(e),
        },
{
    proof {
        reveal_strlit(".0");
    }
    let chars = chars_of(text);
    let ghost p = |c: char| c == '-' || c == '+';
    let mut i: usize = 0;
    let mut dots: usize = 0;
    while i < chars.len()
        invariant
            i <= chars@.len(),
            chars@ == text@,
            p == (|c: char| c == '-' || c == '+'),
            forall|j: int| 0 <= j < i ==> !p(#[trigger] chars@[j]),
            dots == count_char(chars@.take(i as int), '.'),
            dots <= i,
        decreases chars.len() - i,
    {
        let c = chars[i];
        if c == '-' || c == '+' {
            proof {
                assert(p(chars@[i as int]));
                lemma_first_index_some(chars@, p, i as int);
            }
            if c == '-' {
                return Err(RustVersionError::PreRelease);
            } else {
                return Err(RustVersionError::BuildMetadata);
            }
        }
        proof {
            assert(chars@.take(i + 1).drop_last() =~= chars@.take(i as int));
        }
        if c == '.' {
            dots += 1;
        }
        i += 1;
    }
    proof {
        lemma_first_index_none(chars@, p);
        assert(chars@.take(i as int) =~= chars@);
    }
    let full = if dots == 1 {
        concat(text, ".0")
    } else {
        concat(text, "")
    };
    proof {
        reveal_strlit("");
        assert(text@ + ""@ =~= text@);
    }
    match Version::parse(full.as_str()) {
        Some(v) => Ok(v),
        None => Err(RustVersionError::Invalid),
    }
}

} // verus!
