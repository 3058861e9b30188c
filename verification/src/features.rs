//! The forms a feature's entry takes in a `[features]` table:
//! `dep:<crate>`, `<crate>?/<feature>`, `<crate>/<feature>` and `<feature>`.
use vstd::prelude::*;
use crate::text::{chars_of, find, find_chars, pattern, starts_with, starts_with_chars, string_from, slice};

verus! {

/// One entry of a feature's list.
#[derive(Debug, PartialEq, Eq)]
pub enum Feature {
    /// `dep:<crate>`: enables the optional dependency `crate`.
    Krate(String),
    /// `<crate>?/<feature>`: enables `feature` of `crate` if `crate` is enabled.
    Weak { krate: String, feature: String },
    /// `<crate>/<feature>`: enables `crate` and its `feature`.
    Strong { krate: String, feature: String },
    /// `<feature>`: enables another feature of the same crate.
    Simple(String),
}

/// Which form an entry has, and where its separator is.
#[derive(Debug, Clone, Copy, PartialEq, Eq, Structural)]
pub enum FeatureKind {
    Krate,
    Weak(usize),
    Strong(usize),
    Simple,
}

/// The form of the entry `f`: `dep:` prefix first, then the first `?/`, then
/// the first `/`.
pub open spec fn feature_kind(f: Seq<char>) -> FeatureKind {
    if starts_with(f, "dep:"@) {
        FeatureKind::Krate
    } else if find(f, "?/"@) is Some {
        FeatureKind::Weak(find(f, "?/"@)->0 as usize)
    } else if find(f, "/"@) is Some {
        FeatureKind::Strong(find(f, "/"@)->0 as usize)
    } else {
        FeatureKind::Simple
    }
}

/// The entry `f` taken apart according to its form.
pub open spec fn feature_parts(f: Seq<char>, kind: FeatureKind, feat: Feature) -> bool {
    match kind {
        FeatureKind::Krate => feat matches Feature::Krate(k) && k@ == f.skip(4),
        FeatureKind::Weak(i) => feat matches Feature::Weak { krate, feature } && krate@ == f.take(
            i as int,
        ) && feature@ == f.skip(i + 2),
        FeatureKind::Strong(i) => feat matches Feature::Strong { krate, feature } && krate@
            == f.take(i as int) && feature@ == f.skip(i + 1),
        FeatureKind::Simple => feat matches Feature::Simple(s) && s@ == f,
    }
}

/// A feature entry together with its form.
pub struct ParsedFeature {
    inner: Vec<char>,
    kind: FeatureKind,
}

impl ParsedFeature {
    /// The text of the entry.
    pub closed spec fn text(&self) -> Seq<char> {
        self.inner@
    }

    #[verifier::type_invariant]
    closed spec fn wf(&self) -> bool {
        self.kind == feature_kind(self.inner@) && match self.kind {
            FeatureKind::Krate => self.inner@.len() >= 4,
            FeatureKind::Weak(i) => i + 2 <= self.inner@.len(),
            FeatureKind::Strong(i) => i + 1 <= self.inner@.len(),
            FeatureKind::Simple => true,
        }
    }

    /// Determines the form of the entry `f`.
    pub fn from(f: &str) -> (r: ParsedFeature)
        ensures
            r.text() == f@,
    {
        let inner = chars_of(f);
        let kind = if starts_with_chars(&inner, &pattern("dep:")) {
            proof {
                reveal_strlit("dep:");
            }
            FeatureKind::Krate
        } else if let Some(ind) = find_chars(&inner, &pattern("?/")) {
            proof {
                reveal_strlit("?/");
            }
            FeatureKind::Weak(ind)
        } else if let Some(ind) = find_chars(&inner, &pattern("/")) {
            proof {
                reveal_strlit("/");
            }
            FeatureKind::Strong(ind)
        } else {
            FeatureKind::Simple
        };
        ParsedFeature { inner, kind }
    }

    /// The entry taken apart according to its form.
    pub fn feat(&self) -> (r: Feature)
        ensures
            feature_parts(self.text(), feature_kind(self.text()), r),
    {
        proof {
            use_type_invariant(self);
        }
        let n = self.inner.len();
        match self.kind {
            FeatureKind::Krate => Feature::Krate(string_from(slice(&self.inner, 4, n).as_slice())),
            FeatureKind::Weak(ind) => Feature::Weak {
                krate: string_from(slice(&self.inner, 0, ind).as_slice()),
                feature: string_from(slice(&self.inner, ind + 2, n).as_slice()),
            },
            FeatureKind::Strong(ind) => Feature::Strong {
                krate: string_from(slice(&self.inner, 0, ind).as_slice()),
                feature: string_from(slice(&self.inner, ind + 1, n).as_slice()),
            },
            FeatureKind::Simple => Feature::Simple(string_from(self.inner.as_slice())),
        }
    }
}

} // verus!
