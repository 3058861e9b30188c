//! Crate features as the registry index lists them, used to fix up the
//! features `cargo metadata` reports for crates.io packages.
use vstd::prelude::*;
use crate::cm::{crates_io_repr, entry_keys, FeatureMap, Package};
use crate::construct::clone_strings;
use crate::features::{feature_kind, Feature, FeatureKind, ParsedFeature};
use crate::search::{first_index, lemma_first_index_found, lemma_first_index_none, lemma_first_index_some};
use crate::set::StringSet;
use crate::text::{concat, str_eq, strs};
use crate::version::{Version, VersionModel};

verus! {

/// The features of one version of a crate in the index.
#[derive(Debug)]
pub struct IndexKrateVersion {
    pub version: Version,
    pub features: FeatureMap,
}

/// The versions of a crate in the index.
#[derive(Debug)]
pub struct IndexKrate {
    pub versions: Vec<IndexKrateVersion>,
}

/// Index information about crates, by name, as the user provides it.
pub struct CachingIndex {
    cache: Vec<(String, Option<IndexKrate>)>,
}

/// The features the index lists for the version `version` of the crate
/// `name`: the first entry for the name, and in it the first version equal
/// to `version`.
pub open spec fn index_features(
    cache: Seq<(String, Option<IndexKrate>)>,
    name: Seq<char>,
    version: VersionModel,
) -> Option<Map<Seq<char>, Seq<Seq<char>>>> {
    match first_index(cache, |e: (String, Option<IndexKrate>)| e.0@ == name) {
        Some(i) => match cache[i].1 {
            Some(ik) => match first_index(ik.versions@, |v: IndexKrateVersion| v.version@ == version) {
                Some(j) => Some(ik.versions@[j].features@),
                None => None,
            },
            None => None,
        },
        None => None,
    }
}

impl CachingIndex {
    /// The entries the index was built with.
    pub closed spec fn cache(&self) -> Vec<(String, Option<IndexKrate>)> {
        self.cache
    }

    /// Creates a caching index for information provided by the user: `build`
    /// gives the index entries for the named crates.
    pub fn new<F: FnOnce(StringSet) -> Vec<(String, Option<IndexKrate>)>>(
        build: F,
        krates: StringSet,
    ) -> (r: CachingIndex)
        requires
            call_requires(build, (krates,)),
        ensures
            call_ensures(build, (krates,), r.cache()),
    {
        CachingIndex { cache: build(krates) }
    }

    /// The features the index lists for the version of the crate (see
    /// [`index_features`]).
    #[verifier::loop_isolation(false)]
    pub fn index_krate_features(&self, name: &str, version: &Version) -> (r: Option<&FeatureMap>)
        ensures
            match r {
                Some(f) => index_features(self.cache()@, name@, version@) == Some(f@),
                None => index_features(self.cache()@, name@, version@) is None,
            },
    {
        let ghost p = |e: (String, Option<IndexKrate>)| e.0@ == name@;
        let mut i: usize = 0;
        while i < self.cache.len()
            invariant
                i <= self.cache@.len(),
                p == (|e: (String, Option<IndexKrate>)| e.0@ == name@),
                forall|j: int| 0 <= j < i ==> !p(#[trigger] self.cache@[j]),
            decreases self.cache.len() - i,
        {
            if str_eq(self.cache[i].0.as_str(), name) {
                proof {
                    assert(p(self.cache@[i as int]));
                    lemma_first_index_some(self.cache@, p, i as int);
                }
                let ik = match &self.cache[i].1 {
                    Some(ik) => ik,
                    None => return None,
                };
                let ghost q = |v: IndexKrateVersion| v.version@ == version@;
                let mut j: usize = 0;
                while j < ik.versions.len()
                    invariant
                        j <= ik.versions@.len(),
                        q == (|v: IndexKrateVersion| v.version@ == version@),
                        forall|k: int| 0 <= k < j ==> !q(#[trigger] ik.versions@[k]),
                    decreases ik.versions.len() - j,
                {
                    if ik.versions[j].version.same(version) {
                        proof {
                            assert(q(ik.versions@[j as int]));
                            lemma_first_index_some(ik.versions@, q, j as int);
                        }
                        return Some(&ik.versions[j].features);
                    }
                    j += 1;
                }
                proof {
                    lemma_first_index_none(ik.versions@, q);
                }
                return None;
            }
            i += 1;
        }
        proof {
            lemma_first_index_none(self.cache@, p);
        }
        None
    }
}

proof fn lemma_push_contains(s: Seq<Seq<char>>, x: Seq<char>)
    ensures
        forall|y: Seq<char>| #[trigger] s.push(x).contains(y) == (s.contains(y) || y == x),
{
    assert forall|y: Seq<char>| #[trigger] s.push(x).contains(y) == (s.contains(y) || y == x) by {
        if s.push(x).contains(y) {
            let q = choose|q: int| 0 <= q < s.push(x).len() && s.push(x)[q] == y;
            if q < s.len() {
                assert(s[q] == y);
            }
        }
        if s.contains(y) {
            let q = choose|q: int| 0 <= q < s.len() && s[q] == y;
            assert(s.push(x)[q] == y);
        }
        if y == x {
            assert(s.push(x)[s.len() as int] == y);
        }
    }
}

/// The package comes from crates.io.
pub open spec fn from_crates_io(p: Package) -> bool {
    p.source matches Some(s) && s.repr@ == crates_io_repr()
}

/// The string `s` is an entry of one of the features of `f` that enables
/// another feature, and no feature has that name: an optional dependency
/// listed without `dep:`.
pub open spec fn missing_dep(f: Map<Seq<char>, Seq<Seq<char>>>, s: Seq<char>) -> bool {
    &&& !f.contains_key(s)
    &&& feature_kind(s) == FeatureKind::Simple
    &&& exists|k: Seq<char>, i: int| #![trigger f[k][i]] f.contains_key(k) && 0 <= i < f[k].len() && f[k][i] == s
}

/// The features of a crates.io package fixed with the index's: each feature
/// the index lists that the package lacks is added, and then each optional
/// dependency named without `dep:` gets a feature enabling `dep:<name>`.
pub open spec fn fixed_features(
    f: Map<Seq<char>, Seq<Seq<char>>>,
    ix: Map<Seq<char>, Seq<Seq<char>>>,
) -> Map<Seq<char>, Seq<Seq<char>>> {
    let f1 = ix.union_prefer_right(f);
    f1.union_prefer_right(Map::new(|s: Seq<char>| missing_dep(f1, s), |s: Seq<char>| seq!["dep:"@ + s]))
}

/// The features the package ends with: fixed with the index's where the
/// package comes from crates.io and the index lists its version.
pub open spec fn features_after_fix(p: Package, cache: Seq<(String, Option<IndexKrate>)>) -> Map<
    Seq<char>,
    Seq<Seq<char>>,
> {
    if from_crates_io(p) {
        match index_features(cache, p.name@, p.version@) {
            Some(ix) => fixed_features(p.features@, ix),
            None => p.features@,
        }
    } else {
        p.features@
    }
}

/// `cargo metadata` can report wrong features for a crates.io package, so
/// they are fixed with the (presumably) correct data from the index.
pub fn fix_features(index: &CachingIndex, krate: &mut Package)
    ensures
        final(krate).features@ == features_after_fix(*old(krate), index.cache()@),
        *final(krate) == (Package { features: final(krate).features, ..*old(krate) }),
{
    let crates_io = match &krate.source {
        Some(src) => src.is_crates_io(),
        None => false,
    };
    if !crates_io {
        return;
    }
    let features = match index.index_krate_features(krate.name.as_str(), &krate.version) {
        Some(f) => f,
        None => return,
    };
    let ghost f0 = krate.features@;
    let ghost ix = features@;
    let ents = features.entries();
    let ghost keys = entry_keys(ents@);
    let mut i: usize = 0;
    while i < ents.len()
        invariant
            i <= ents@.len(),
            ents@ == features.entry_seq(),
            keys == entry_keys(ents@),
            crate::cm::strictly_sorted(keys),
            forall|a: int| 0 <= a < ents@.len() ==> ix.contains_key(#[trigger] ents@[a].0@) && ix[ents@[a].0@] == strs(ents@[a].1@),
            krate.features@ == Map::new(|k: Seq<char>| keys.take(i as int).contains(k), |k: Seq<char>| ix[k]).union_prefer_right(f0),
            *krate == (Package { features: krate.features, ..*old(krate) }),
        decreases ents.len() - i,
    {
        let ghost before = krate.features@;
        let ghost next = Map::new(|k: Seq<char>| keys.take(i + 1).contains(k), |k: Seq<char>| ix[k]).union_prefer_right(f0);
        let k = &ents[i].0;
        proof {
            assert(keys[i as int] == k@);
            assert(keys.take(i + 1) =~= keys.take(i as int).push(k@));
            lemma_push_contains(keys.take(i as int), k@);
        }
        if !krate.features.contains_key(k.as_str()) {
            krate.features.insert(k.clone(), clone_strings(&ents[i].1));
            proof {
                assert(krate.features@ =~= next);
            }
        } else {
            proof {
                assert(!keys.take(i as int).contains(k@)) by {
                    if keys.take(i as int).contains(k@) {
                        let q = choose|q: int| 0 <= q < i && keys.take(i as int)[q] == k@;
                        assert(crate::text::seq_lt(keys[q], keys[i as int]));
                        crate::text::lemma_lt_irreflexive(k@);
                    }
                }
                assert(f0.contains_key(k@));
                assert(krate.features@ =~= next);
            }
        }
        i += 1;
    }
    proof {
        assert(keys.take(i as int) =~= keys);
        assert forall|k: Seq<char>| #[trigger] keys.contains(k) == ix.contains_key(k) by {
            if keys.contains(k) {
                let a = choose|a: int| 0 <= a < keys.len() && keys[a] == k;
                assert(ents@[a].0@ == k);
            }
        }
        assert(Map::new(|k: Seq<char>| keys.contains(k), |k: Seq<char>| ix[k]) =~= ix);
    }
    let ghost f1 = krate.features@;
    assert(f1 == ix.union_prefer_right(f0));
    let mut missing: Vec<String> = Vec::new();
    let all = krate.features.entries();
    let mut a: usize = 0;
    while a < all.len()
        invariant
            a <= all@.len(),
            f1 == krate.features@,
            all@ == krate.features.entry_seq(),
            forall|c: int| 0 <= c < all@.len() ==> f1.contains_key(#[trigger] all@[c].0@) && f1[all@[c].0@] == strs(all@[c].1@),
            forall|x: Seq<char>| #[trigger] strs(missing@).contains(x) ==> missing_dep(f1, x),
            forall|c: int, d: int|
                0 <= c < a && 0 <= d < all@[c].1@.len() && !f1.contains_key(#[trigger] all@[c].1@[d]@)
                    && feature_kind(all@[c].1@[d]@) == FeatureKind::Simple ==> strs(missing@).contains(all@[c].1@[d]@),
        decreases all.len() - a,
    {
        let subs = &all[a].1;
        let mut d: usize = 0;
        while d < subs.len()
            invariant
                a < all@.len(),
                d <= subs@.len(),
                subs == all@[a as int].1,
                f1 == krate.features@,
                forall|c: int| 0 <= c < all@.len() ==> f1.contains_key(#[trigger] all@[c].0@) && f1[all@[c].0@] == strs(all@[c].1@),
                forall|x: Seq<char>| #[trigger] strs(missing@).contains(x) ==> missing_dep(f1, x),
                forall|c: int, e: int|
                    0 <= c < a && 0 <= e < all@[c].1@.len() && !f1.contains_key(#[trigger] all@[c].1@[e]@)
                        && feature_kind(all@[c].1@[e]@) == FeatureKind::Simple ==> strs(missing@).contains(all@[c].1@[e]@),
                forall|e: int|
                    0 <= e < d && !f1.contains_key(#[trigger] subs@[e]@) && feature_kind(subs@[e]@)
                        == FeatureKind::Simple ==> strs(missing@).contains(subs@[e]@),
            decreases subs.len() - d,
        {
            let parsed = ParsedFeature::from(subs[d].as_str());
            let ghost text = subs@[d as int]@;
            let ghost before = missing@;
            if let Feature::Simple(s) = parsed.feat() {
                assert(s@ == text);
                if !krate.features.contains_key(s.as_str()) {
                    proof {
                        let k = all@[a as int].0@;
                        assert(f1[k] == strs(subs@));
                        assert(f1[k][d as int] == text);
                        assert(missing_dep(f1, s@));
                    }
                    missing.push(s);
                    proof {
                        assert(strs(missing@) =~= strs(before).push(text));
                        assert forall|x: Seq<char>| #[trigger] strs(missing@).contains(x) implies missing_dep(f1, x) by {
                            if x != text {
                                let q = choose|q: int| 0 <= q < strs(missing@).len() && strs(missing@)[q] == x;
                                assert(q < before.len());
                                assert(strs(before)[q] == x);
                                assert(strs(before).contains(x));
                            } else {
                                assert(missing_dep(f1, text));
                            }
                        }
                    }
                }
            }
            proof {
                assert forall|e: int|
                    0 <= e < d + 1 && !f1.contains_key(#[trigger] subs@[e]@) && feature_kind(subs@[e]@)
                        == FeatureKind::Simple implies strs(missing@).contains(subs@[e]@) by {
                    if e < d {
                        assert(strs(before).contains(subs@[e]@));
                        let q = choose|q: int| 0 <= q < strs(before).len() && strs(before)[q] == subs@[e]@;
                        assert(strs(missing@)[q] == subs@[e]@);
                    } else {
                        let q = missing@.len() - 1;
                        assert(strs(missing@)[q] == text);
                    }
                }
                assert forall|c: int, e: int|
                    0 <= c < a && 0 <= e < all@[c].1@.len() && !f1.contains_key(#[trigger] all@[c].1@[e]@)
                        && feature_kind(all@[c].1@[e]@) == FeatureKind::Simple implies strs(missing@).contains(all@[c].1@[e]@) by {
                    assert(strs(before).contains(all@[c].1@[e]@));
                    let q = choose|q: int| 0 <= q < strs(before).len() && strs(before)[q] == all@[c].1@[e]@;
                    assert(strs(missing@)[q] == all@[c].1@[e]@);
                }
            }
            d += 1;
        }
        a += 1;
    }
    proof {
        assert forall|x: Seq<char>| missing_dep(f1, x) implies #[trigger] strs(missing@).contains(x) by {
            let (k, i) = choose|k: Seq<char>, i: int| #![trigger f1[k][i]] f1.contains_key(k) && 0 <= i < f1[k].len() && f1[k][i] == x;
            let c = choose|c: int| 0 <= c < entry_keys(all@).len() && entry_keys(all@)[c] == k;
            assert(all@[c].0@ == k);
            assert(all@[c].1@[i]@ == x);
        }
    }
    let ghost target = Map::new(|s: Seq<char>| missing_dep(f1, s), |s: Seq<char>| seq!["dep:"@ + s]);
    let mut m: usize = 0;
    while m < missing.len()
        invariant
            m <= missing@.len(),
            forall|x: Seq<char>| #[trigger] strs(missing@).contains(x) ==> missing_dep(f1, x),
            krate.features@ == f1.union_prefer_right(
                Map::new(|s: Seq<char>| strs(missing@).take(m as int).contains(s), |s: Seq<char>| seq!["dep:"@ + s]),
            ),
            *krate == (Package { features: krate.features, ..*old(krate) }),
        decreases missing.len() - m,
    {
        let name = missing[m].clone();
        let ghost nm = name@;
        let dep = concat("dep:", name.as_str());
        let mut value: Vec<String> = Vec::new();
        value.push(dep);
        proof {
            assert(strs(value@) =~= seq!["dep:"@ + nm]);
            assert(strs(missing@)[m as int] == nm);
            assert(strs(missing@).take(m + 1) =~= strs(missing@).take(m as int).push(nm));
            lemma_push_contains(strs(missing@).take(m as int), nm);
        }
        krate.features.insert(name, value);
        proof {
            assert(krate.features@ =~= f1.union_prefer_right(
                Map::new(|s: Seq<char>| strs(missing@).take(m + 1).contains(s), |s: Seq<char>| seq!["dep:"@ + s]),
            ));
        }
        m += 1;
    }
    proof {
        assert(strs(missing@).take(m as int) =~= strs(missing@));
        assert(Map::new(|s: Seq<char>| strs(missing@).contains(s), |s: Seq<char>| seq!["dep:"@ + s]) =~= target);
    }
}

} // verus!
