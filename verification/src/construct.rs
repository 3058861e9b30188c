//! Building the crate graph out of the metadata: which crates are reached
//! from the roots through the dependencies that the filters keep, and the
//! crate, feature and dependency nodes and edges of the graph.
use vstd::prelude::*;
use vstd::multiset::Multiset;
use vstd::seq_lib::{to_multiset_build, to_multiset_insert, to_multiset_contains};
use crate::builder::{
    builtin_of, crate_name, crate_name_from_pid, decompose, dep_names_match, has_three_parts, kind_ignored,
    names_match, opt_str, BuilderModel, DecomposedRepr, TargetFilter, TargetFilterModel,
};
use crate::features::{feature_kind, Feature, FeatureKind, ParsedFeature};
use crate::set::StringSet;
use crate::cfg::cfg_eval;
use crate::cm::{
    Dependency, DepKindInfo, Metadata, Node as ResolveNode, NodeDep, Package, PackageId, Resolve,
    strictly_sorted,
};
use crate::errors::Error;
use crate::krates::Krates;
use crate::graph::{EdgeRecord, Graph};
use crate::krates::{
    dep_kind_of, features_of, is_feature_of, krate_of, krates_wf, node_id, DepKind, Edge, Node,
};
use crate::builder::OnFilter;
use vstd::std_specs::convert::FromSpec;
use crate::paths::{self, camino_eq, camino_join, camino_parent};
use crate::pkgspec::{pkgspec_matches, source_url_defined, PkgSpec};
use crate::search::{
    first_index, lemma_first_index_found, lemma_first_index_none, lemma_first_index_some,
};
use crate::text::{
    chars_of, contains_str, find_chars, pattern, seq_lt, starts_with, starts_with_chars, str_eq, strs, Order, lemma_lt_transitive, lemma_lt_irreflexive, lemma_lt_total,
};

verus! {

/// Something that carries a package id.
pub trait Identified {
    /// The id, as text.
    spec fn id_view(&self) -> Seq<char>;

    /// The id.
    fn id_ref(&self) -> (r: &PackageId)
        ensures
            r@ == self.id_view(),
    ;
}

impl Identified for Package {
    open spec fn id_view(&self) -> Seq<char> {
        self.id@
    }

    fn id_ref(&self) -> (r: &PackageId) {
        &self.id
    }
}

impl Identified for ResolveNode {
    open spec fn id_view(&self) -> Seq<char> {
        self.id@
    }

    fn id_ref(&self) -> (r: &PackageId) {
        &self.id
    }
}

impl Identified for PackageId {
    open spec fn id_view(&self) -> Seq<char> {
        self@
    }

    fn id_ref(&self) -> (r: &PackageId) {
        self
    }
}

/// The ids of a sequence of items.
pub open spec fn id_seq<T: Identified>(s: Seq<T>) -> Seq<Seq<char>> {
    s.map_values(|x: T| x.id_view())
}

/// Sorts the items by id, ascending. With each id once, the ids of the
/// result are strictly ascending; the result holds the same items.
pub fn sort_by_id<T: Identified>(v: Vec<T>) -> (r: Vec<T>)
    requires
        id_seq(v@).no_duplicates(),
    ensures
        strictly_sorted(id_seq(r@)),
        r@.to_multiset() == v@.to_multiset(),
        r@.len() == v@.len(),
{
    broadcast use to_multiset_build, to_multiset_insert, to_multiset_contains;

    let ghost orig = v@;
    let mut rest = v;
    let mut sorted: Vec<T> = Vec::new();
    proof {
        assert(sorted@.to_multiset() =~= Multiset::empty());
    }
    while rest.len() > 0
        invariant
            sorted@.to_multiset().add(rest@.to_multiset()) == orig.to_multiset(),
            strictly_sorted(id_seq(sorted@)),
            id_seq(orig).no_duplicates(),
            sorted@.len() + rest@.len() == orig.len(),
        decreases rest.len(),
    {
        let ghost before = rest@;
        let item = rest.pop().unwrap();
        proof {
            assert(before =~= rest@.push(item));
        }
        let mut p: usize = 0;
        while p < sorted.len()
            invariant
                p <= sorted@.len(),
                strictly_sorted(id_seq(sorted@)),
                forall|j: int| 0 <= j < p ==> seq_lt(#[trigger] sorted@[j].id_view(), item.id_view()),
            ensures
                p <= sorted@.len(),
                forall|j: int| 0 <= j < p ==> seq_lt(#[trigger] sorted@[j].id_view(), item.id_view()),
                p < sorted@.len() ==> !seq_lt(sorted@[p as int].id_view(), item.id_view()),
            decreases sorted.len() - p,
        {
            if sorted[p].id_ref().compare(item.id_ref()) != Order::Less {
                break;
            }
            p += 1;
        }
        let ghost key = item.id_view();
        let ghost old_sorted = sorted@;
        proof {
            broadcast use vstd::multiset::group_multiset_axioms;

            let om = orig.to_multiset();
            to_multiset_build(rest@, item);
            assert(before == rest@.push(item));
            assert(before.to_multiset() =~= rest@.to_multiset().insert(item));
            assert(om =~= old_sorted.to_multiset().add(rest@.to_multiset().insert(item)));
            assert(om.count(item) > 0);
            to_multiset_contains(orig, item);
            assert(orig.contains(item));
            if p < old_sorted.len() {
                if old_sorted[p as int].id_view() == key {
                    let a = old_sorted[p as int];
                    assert(old_sorted.contains(a));
                    to_multiset_contains(old_sorted, a);
                    assert(old_sorted.to_multiset().count(a) > 0);
                    assert(om.count(a) > 0);
                    to_multiset_contains(orig, a);
                    assert(orig.contains(a));
                    let ia = choose|i: int| 0 <= i < orig.len() && orig[i] == a;
                    let ib = choose|i: int| 0 <= i < orig.len() && orig[i] == item;
                    assert(id_seq(orig)[ia] == id_seq(orig)[ib]);
                    assert(a == item);
                    assert(om.count(a) >= 2);
                    lemma_count_le_one_no_dup(orig, a);
                }
                lemma_lt_total(old_sorted[p as int].id_view(), key);
            }
        }
        sorted.insert(p, item);
        proof {
            let nk = id_seq(sorted@);
            let ok = id_seq(old_sorted);
            assert(nk =~= ok.take(p as int).push(key) + ok.skip(p as int));
            assert forall|i: int, j: int| 0 <= i < j < nk.len() implies seq_lt(
                #[trigger] nk[i],
                #[trigger] nk[j],
            ) by {
                if j < p {
                } else if j == p {
                } else if i == p {
                    if j - 1 > p {
                        lemma_lt_transitive(key, ok[p as int], ok[j - 1]);
                    }
                } else if i < p {
                    lemma_lt_transitive(ok[i], key, ok[p as int]);
                    if j - 1 > p {
                        lemma_lt_transitive(ok[i], ok[p as int], ok[j - 1]);
                    }
                }
            }
            broadcast use vstd::multiset::group_multiset_axioms;

            to_multiset_insert(old_sorted, p as int, item);
            assert(sorted@ == old_sorted.insert(p as int, item));
            assert(sorted@.to_multiset() =~= old_sorted.to_multiset().insert(item));
            assert(sorted@.to_multiset().add(rest@.to_multiset()) =~= old_sorted.to_multiset().add(
                rest@.to_multiset().insert(item),
            ));
        }
    }
    proof {
        assert(rest@.to_multiset() =~= Multiset::empty());
        assert(sorted@.to_multiset().add(Multiset::empty()) =~= sorted@.to_multiset());
    }
    sorted
}

/// In a sequence whose ids are all different, an item occurs at most once.
proof fn lemma_count_le_one_no_dup<T: Identified>(s: Seq<T>, a: T)
    requires
        id_seq(s).no_duplicates(),
    ensures
        s.to_multiset().count(a) <= 1,
    decreases s.len(),
{
    broadcast use to_multiset_build, to_multiset_contains;

    if s.len() > 0 {
        let t = s.drop_last();
        assert(id_seq(t).no_duplicates()) by {
            assert forall|i: int, j: int| 0 <= i < t.len() && 0 <= j < t.len() && i != j implies id_seq(
                t,
            )[i] != id_seq(t)[j] by {
                assert(id_seq(t)[i] == id_seq(s)[i]);
                assert(id_seq(t)[j] == id_seq(s)[j]);
            }
        }
        lemma_count_le_one_no_dup(t, a);
        assert(s =~= t.push(s.last()));
        if s.last() == a {
            if t.contains(a) {
                let i = choose|i: int| 0 <= i < t.len() && t[i] == a;
                assert(id_seq(s)[i] == id_seq(s)[s.len() - 1]);
            }
        }
    }
}

/// Finds the item with id `id` among items sorted by id.
pub fn find_by_id<T: Identified>(v: &Vec<T>, id: &PackageId) -> (r: Option<usize>)
    requires
        strictly_sorted(id_seq(v@)),
    ensures
        match r {
            Some(i) => i < v@.len() && v@[i as int].id_view() == id@,
            None => forall|i: int| 0 <= i < v@.len() ==> (#[trigger] v@[i]).id_view() != id@,
        },
{
    let mut lo: usize = 0;
    let mut hi: usize = v.len();
    while lo < hi
        invariant
            lo <= hi <= v@.len(),
            strictly_sorted(id_seq(v@)),
            forall|i: int| 0 <= i < lo ==> seq_lt((#[trigger] v@[i]).id_view(), id@),
            forall|i: int| hi <= i < v@.len() ==> seq_lt(id@, (#[trigger] v@[i]).id_view()),
        decreases hi - lo,
    {
        let mid = lo + (hi - lo) / 2;
        let ghost mid_id = v@[mid as int].id_view();
        match v[mid].id_ref().compare(id) {
            Order::Equal => {
                return Some(mid);
            },
            Order::Less => {
                proof {
                    assert forall|i: int| 0 <= i < mid + 1 implies seq_lt(
                        (#[trigger] v@[i]).id_view(),
                        id@,
                    ) by {
                        if i < mid {
                            assert(id_seq(v@)[i] == v@[i].id_view());
                            assert(id_seq(v@)[mid as int] == mid_id);
                            lemma_lt_transitive(v@[i].id_view(), mid_id, id@);
                        }
                    }
                }
                lo = mid + 1;
            },
            Order::Greater => {
                proof {
                    assert forall|i: int| mid <= i < v@.len() implies seq_lt(
                        id@,
                        (#[trigger] v@[i]).id_view(),
                    ) by {
                        if i > mid {
                            assert(id_seq(v@)[i] == v@[i].id_view());
                            assert(id_seq(v@)[mid as int] == mid_id);
                            lemma_lt_transitive(id@, mid_id, v@[i].id_view());
                        }
                    }
                }
                hi = mid;
            },
        }
    }
    proof {
        assert forall|i: int| 0 <= i < v@.len() implies (#[trigger] v@[i]).id_view() != id@ by {
            lemma_lt_irreflexive(id@);
        }
    }
    None
}

} // verus!

verus! {

/// The item of `s` with id `id`, if there is one.
pub open spec fn item_with_id<T: Identified>(s: Seq<T>, id: Seq<char>) -> Option<T> {
    if exists|i: int| 0 <= i < s.len() && (#[trigger] s[i]).id_view() == id {
        Some(s[choose|i: int| 0 <= i < s.len() && (#[trigger] s[i]).id_view() == id])
    } else {
        None
    }
}

/// The item a sorted copy holds at `i` is the item of the unsorted sequence with
/// its id.
pub proof fn lemma_item_with_id<T: Identified>(orig: Seq<T>, copy: Seq<T>, i: int)
    requires
        orig.to_multiset() == copy.to_multiset(),
        id_seq(orig).no_duplicates(),
        0 <= i < copy.len(),
    ensures
        item_with_id(orig, copy[i].id_view()) == Some(copy[i]),
        orig.contains(copy[i]),
{
    broadcast use to_multiset_contains;

    let x = copy[i];
    assert(copy.contains(x));
    assert(copy.to_multiset().count(x) > 0);
    assert(orig.contains(x));
    let k = choose|k: int| 0 <= k < orig.len() && orig[k] == x;
    assert(orig[k].id_view() == x.id_view());
    let c = choose|c: int| 0 <= c < orig.len() && (#[trigger] orig[c]).id_view() == x.id_view();
    assert(id_seq(orig)[c] == id_seq(orig)[k]);
}

/// A sorted copy finds the same item for an id as the unsorted sequence.
pub proof fn lemma_item_with_id_same<T: Identified>(orig: Seq<T>, copy: Seq<T>, id: Seq<char>)
    requires
        orig.to_multiset() == copy.to_multiset(),
        id_seq(orig).no_duplicates(),
        id_seq(copy).no_duplicates(),
    ensures
        item_with_id(orig, id) == item_with_id(copy, id),
{
    broadcast use to_multiset_contains;

    if exists|i: int| 0 <= i < copy.len() && (#[trigger] copy[i]).id_view() == id {
        let c = choose|i: int| 0 <= i < copy.len() && (#[trigger] copy[i]).id_view() == id;
        lemma_item_with_id(orig, copy, c);
        let x = item_with_id(copy, id)->0;
        assert(copy.contains(x) && x.id_view() == id);
        let k = choose|k: int| 0 <= k < copy.len() && copy[k] == x;
        assert(id_seq(copy)[k] == id_seq(copy)[c]);
    } else if exists|i: int| 0 <= i < orig.len() && (#[trigger] orig[i]).id_view() == id {
        let c = choose|i: int| 0 <= i < orig.len() && (#[trigger] orig[i]).id_view() == id;
        assert(orig.contains(orig[c]));
        assert(orig.to_multiset().count(orig[c]) > 0);
        assert(copy.contains(orig[c]));
        let d = choose|d: int| 0 <= d < copy.len() && copy[d] == orig[c];
        assert(copy[d].id_view() == id);
    }
}

/// The resolved nodes of the metadata.
pub open spec fn resolve_nodes(md: Metadata) -> Seq<ResolveNode> {
    match md.resolve {
        Some(r) => r.nodes@,
        None => Seq::empty(),
    }
}

/// The metadata is what `cargo metadata` gives, each resolved node
/// with its package's id: each package and each resolved node once, every
/// resolved node a package, and the workspace members (each once), the
/// resolve root and every resolved dependency resolved nodes.
pub open spec fn metadata_exact(md: Metadata) -> bool {
    let nodes = resolve_nodes(md);
    md.resolve is Some ==> {
        &&& id_seq(md.packages@).no_duplicates()
        &&& id_seq(nodes).no_duplicates()
        &&& id_seq(md.workspace_members@).no_duplicates()
        &&& forall|i: int| 0 <= i < nodes.len() ==> id_seq(md.packages@).contains(#[trigger] nodes[i].id@)
        &&& forall|i: int|
            0 <= i < md.workspace_members.len() ==> id_seq(nodes).contains(
                #[trigger] md.workspace_members@[i]@,
            )
        &&& (md.resolve->0.root matches Some(root) ==> id_seq(nodes).contains(root@))
        &&& forall|i: int, j: int|
            0 <= i < nodes.len() && 0 <= j < nodes[i].deps.len() ==> id_seq(nodes).contains(
                (#[trigger] nodes[i].deps@[j]).pkg@,
            )
    }
}

/// Matching every exclusion against every package can take the url out of
/// the package's source.
pub open spec fn exclusions_defined(b: BuilderModel, md: Metadata) -> bool {
    forall|j: int, k: int|
        0 <= j < b.exclude.len() && 0 <= k < md.packages.len() ==> source_url_defined(
            #[trigger] b.exclude[j],
            #[trigger] md.packages@[k],
        )
}

/// One of the exclusions matches the package.
pub open spec fn excluded(b: BuilderModel, p: Package) -> bool {
    exists|j: int| 0 <= j < b.exclude.len() && pkgspec_matches(#[trigger] b.exclude[j], p)
}

/// Whether the crate `id` is a member of the workspace.
pub open spec fn in_workspace(md: Metadata, id: Seq<char>) -> bool {
    id_seq(md.workspace_members@).contains(id)
}

/// The name a dependency is declared under: its rename, if any.
pub open spec fn declared_name(d: Dependency) -> Seq<char> {
    match d.rename {
        Some(r) => r@,
        None => d.name@,
    }
}

/// The declared dependency `d` is the one the resolved dependency `rdep` of
/// kind `kind` stands for: same kind, and the names agree, or the declared
/// name is the crate name of the resolved package.
pub open spec fn declares(d: Dependency, rdep: NodeDep, kind: DepKind) -> bool {
    dep_kind_of(d.kind) == kind && (names_match(declared_name(d), rdep.name@) || crate_name(
        rdep.pkg@,
    ) == declared_name(d))
}

/// The first declared dependency of the package the resolved dependency
/// stands for, with the given kind.
pub open spec fn declared_dep(p: Package, rdep: NodeDep, kind: DepKind) -> Option<Dependency> {
    match first_index(p.dependencies@, |d: Dependency| declares(d, rdep, kind)) {
        Some(i) => Some(p.dependencies@[i]),
        None => None,
    }
}

/// Whether a target-specific dependency's `cfg` is one of the targets': a
/// `cfg()` expression holds for one of them (or does not parse), or the
/// triple names one of them.
pub open spec fn cfg_matched(targets: Seq<TargetFilterModel>, cfg: Seq<char>) -> bool {
    if starts_with(cfg, "cfg("@) {
        exists|i: int|
            0 <= i < targets.len() && cfg_eval(cfg, builtin_of(targets[i].0), targets[i].1)
                != Some(false)
    } else {
        exists|i: int| 0 <= i < targets.len() && (#[trigger] targets[i]).0.0 == cfg
    }
}

/// Whether the crate's resolved features enable the optional dependency.
pub open spec fn optional_enabled(n: ResolveNode, rdep: NodeDep) -> bool {
    strs(n.features@).contains(rdep.name@) || strs(n.features@).contains(crate_name(rdep.pkg@))
}

/// Whether the link of kind `dk` from the crate `p` (resolved as `n`) to
/// the resolved dependency `rdep` stays: its kind is not ignored for the
/// crate's scope; the crate declares it; if optional, it is enabled; and if
/// target specific, one of the targets (if any are given) matches.
pub open spec fn edge_kept(
    b: BuilderModel,
    in_ws: bool,
    p: Package,
    n: ResolveNode,
    rdep: NodeDep,
    dk: DepKindInfo,
) -> bool {
    let kind = dep_kind_of(dk.kind);
    &&& !kind_ignored(b.ignore_kinds, kind, in_ws)
    &&& declared_dep(p, rdep, kind) matches Some(d) && (d.optional ==> optional_enabled(n, rdep))
    &&& match dk.target {
        Some(cfg) => b.target_filters.len() == 0 || cfg_matched(b.target_filters, cfg@),
        None => true,
    }
}

/// Whether a link of kind `kind` and target `cfg` from the crate `p`
/// (resolved as `n`) to the resolved dependency `rdep` stays (see
/// [`edge_kept`]).
pub open spec fn link_as(
    b: BuilderModel,
    in_ws: bool,
    p: Package,
    n: ResolveNode,
    rdep: NodeDep,
    kind: DepKind,
    cfg: Option<Seq<char>>,
) -> bool {
    exists|q: int|
        0 <= q < rdep.dep_kinds.len() && edge_kept(b, in_ws, p, n, rdep, #[trigger] rdep.dep_kinds@[q])
            && dep_kind_of(rdep.dep_kinds@[q].kind) == kind && opt_str(rdep.dep_kinds@[q].target) == cfg
}

/// Each of the `edges` has the kind and target of a link to the resolved
/// dependency `rdep` that stays (see [`link_as`]).
#[verifier::opaque]
pub open spec fn edges_as_links(
    b: BuilderModel,
    in_ws: bool,
    p: Package,
    n: ResolveNode,
    rdep: NodeDep,
    edges: Seq<DependencyEdge>,
) -> bool {
    forall|e: int|
        #![trigger edges[e]]
        0 <= e < edges.len() ==> link_as(b, in_ws, p, n, rdep, edges[e].kind, opt_str(edges[e].cfg))
}

/// Whether one of the links to the resolved dependency stays.
pub open spec fn dep_kept(b: BuilderModel, in_ws: bool, p: Package, n: ResolveNode, rdep: NodeDep) -> bool {
    exists|k: int| 0 <= k < rdep.dep_kinds.len() && edge_kept(b, in_ws, p, n, rdep, #[trigger] rdep.dep_kinds@[k])
}

/// `to` is a dependency of the crate `from` that stays in the graph.
pub open spec fn dep_step(b: BuilderModel, md: Metadata, from: Seq<char>, to: Seq<char>) -> bool {
    let p = item_with_id(md.packages@, from);
    let n = item_with_id(resolve_nodes(md), from);
    &&& p is Some
    &&& n is Some
    &&& exists|k: int|
        0 <= k < n->0.deps.len() && (#[trigger] n->0.deps@[k]).pkg@ == to && dep_kept(
            b,
            in_workspace(md, from),
            p->0,
            n->0,
            n->0.deps@[k],
        )
}

/// Whether the declared dependency `d`, whose package has its `default`
/// feature resolved exactly when `has_default`, links by itself: it uses
/// that default feature, names no feature, or names one other than
/// `default`.
pub open spec fn link_makes_edge(d: Dependency, has_default: bool) -> bool {
    ||| d.uses_default_features && has_default
    ||| d.features@.len() == 0
    ||| exists|f: int| 0 <= f < d.features@.len() && (#[trigger] d.features@[f])@ != "default"@
}

/// Whether the crate `id` is among `nodes` with its `default` feature
/// resolved.
pub open spec fn has_default_in(nodes: Seq<ResolveNode>, id: Seq<char>) -> bool {
    item_with_id(nodes, id) matches Some(n) && strs(n.features@).contains("default"@)
}

/// Whether one of the links to the resolved dependency `rdep` that stay
/// links by itself.
pub open spec fn dep_linked_by(
    b: BuilderModel,
    in_ws: bool,
    p: Package,
    n: ResolveNode,
    rdep: NodeDep,
    has_default: bool,
) -> bool {
    exists|k: int|
        0 <= k < rdep.dep_kinds.len() && edge_kept(b, in_ws, p, n, rdep, #[trigger] rdep.dep_kinds@[k])
            && link_makes_edge(declared_dep(p, rdep, dep_kind_of(rdep.dep_kinds@[k].kind))->0, has_default)
}

/// `to` is a dependency of the crate `from` with a link that stays and
/// links by itself.
pub open spec fn dep_linked(b: BuilderModel, md: Metadata, from: Seq<char>, to: Seq<char>) -> bool {
    let p = item_with_id(md.packages@, from);
    let n = item_with_id(resolve_nodes(md), from);
    &&& p is Some
    &&& n is Some
    &&& exists|k: int|
        0 <= k < n->0.deps.len() && (#[trigger] n->0.deps@[k]).pkg@ == to && dep_linked_by(
            b,
            in_workspace(md, from),
            p->0,
            n->0,
            n->0.deps@[k],
            has_default_in(resolve_nodes(md), to),
        )
}

/// Whether the declared dependency `d`, whose package has its `default`
/// feature resolved exactly when `has_default`, enables the feature `f` of
/// the package: `default` where it uses the default features and there is
/// one, any other that it names.
pub open spec fn link_enables_feature(d: Dependency, has_default: bool, f: Seq<char>) -> bool {
    ||| d.uses_default_features && has_default && f == "default"@
    ||| f != "default"@ && strs(d.features@).contains(f)
}

/// Whether one of the first `upto` links to the resolved dependency `rdep`
/// stays and enables its feature `f`.
pub open spec fn links_enable_upto(
    b: BuilderModel,
    in_ws: bool,
    p: Package,
    n: ResolveNode,
    rdep: NodeDep,
    has_default: bool,
    upto: int,
    f: Seq<char>,
) -> bool {
    exists|q: int|
        0 <= q < upto && edge_kept(b, in_ws, p, n, rdep, #[trigger] rdep.dep_kinds@[q]) && link_enables_feature(
            declared_dep(p, rdep, dep_kind_of(rdep.dep_kinds@[q].kind))->0,
            has_default,
            f,
        )
}

/// Whether the resolved dependency `rdep` gets its feature `f` enabled: one
/// of its links stays and enables it, or one stays and the crate's own
/// enabled features turn it on.
pub open spec fn dep_enables_by(
    b: BuilderModel,
    in_ws: bool,
    p: Package,
    n: ResolveNode,
    rdep: NodeDep,
    has_default: bool,
    f: Seq<char>,
) -> bool {
    ||| links_enable_upto(b, in_ws, p, n, rdep, has_default, rdep.dep_kinds.len() as int, f)
    ||| dep_kept(b, in_ws, p, n, rdep) && turned_on(p.features@, strs(n.features@), rdep.name@, crate_name(rdep.pkg@), f)
}

/// `to` is a dependency of the crate `from` that gets its feature `f`
/// enabled: a link that stays enables it, or the dependency stays and the
/// enabled features of `from` turn it on.
pub open spec fn dep_enables(b: BuilderModel, md: Metadata, from: Seq<char>, to: Seq<char>, f: Seq<char>) -> bool {
    let p = item_with_id(md.packages@, from);
    let n = item_with_id(resolve_nodes(md), from);
    &&& p is Some
    &&& n is Some
    &&& exists|k: int|
        0 <= k < n->0.deps.len() && (#[trigger] n->0.deps@[k]).pkg@ == to && dep_enables_by(
            b,
            in_workspace(md, from),
            p->0,
            n->0,
            n->0.deps@[k],
            has_default_in(resolve_nodes(md), to),
            f,
        )
}

/// The crate `id` is a package that no exclusion matches.
pub open spec fn included(b: BuilderModel, md: Metadata, id: Seq<char>) -> bool {
    match item_with_id(md.packages@, id) {
        Some(p) => !excluded(b, p),
        None => false,
    }
}

/// The only workspace filter is the workspace's own manifest.
pub open spec fn filters_name_workspace(b: BuilderModel, md: Metadata) -> bool {
    &&& b.workspace_filters.len() == 1
    &&& camino_parent(b.workspace_filters[0]) matches Some(dir) && camino_eq(md.workspace_root@, dir)
}

/// The crates the graph grows from. With no workspace filters: the root
/// crate of the metadata, if there is one and the builder does not ask for
/// the whole workspace, else the workspace members. With workspace filters:
/// the members, if the only filter is the workspace's manifest; else the
/// members whose manifest one of the filters names.
pub open spec fn root_ids(b: BuilderModel, md: Metadata) -> Set<Seq<char>> {
    let members = id_seq(md.workspace_members@);
    if b.workspace_filters.len() == 0 {
        if !b.workspace && md.resolve->0.root is Some {
            set![md.resolve->0.root->0@]
        } else {
            members.to_set()
        }
    } else if filters_name_workspace(b, md) {
        members.to_set()
    } else {
        Set::new(
            |id: Seq<char>|
                {
                    &&& members.contains(id)
                    &&& item_with_id(md.packages@, id) matches Some(p) && exists|j: int|
                        0 <= j < b.workspace_filters.len() && camino_eq(
                            #[trigger] b.workspace_filters[j],
                            p.manifest_path@,
                        )
                },
        )
    }
}

/// A path of the graph: it starts at a root, every crate on it is included,
/// and each crate is a kept dependency of the one before.
pub open spec fn is_path(b: BuilderModel, md: Metadata, path: Seq<Seq<char>>) -> bool {
    &&& path.len() > 0
    &&& root_ids(b, md).contains(path[0])
    &&& forall|i: int| 0 <= i < path.len() ==> included(b, md, #[trigger] path[i])
    &&& forall|i: int| 0 <= i < path.len() - 1 ==> dep_step(b, md, #[trigger] path[i], path[i + 1])
}

/// The crate `id` is reached from a root through kept dependencies, passing
/// only included crates: it is a crate of the graph.
pub open spec fn reached(b: BuilderModel, md: Metadata, id: Seq<char>) -> bool {
    exists|path: Seq<Seq<char>>| is_path(b, md, path) && path.last() == id
}

} // verus!

verus! {

/// One link of a crate to a dependency: its kind, the target it is specific
/// to, the features it enables, and whether it enables the default feature.
#[derive(Debug)]
pub struct DependencyEdge {
    pub kind: DepKind,
    pub cfg: Option<String>,
    pub features: Vec<String>,
    pub uses_default_features: bool,
}

/// A dependency of a crate that stays in the graph: the dependency's
/// position among the sorted packages, its links, and the features the
/// crate's own enabled features turn on in it.
#[derive(Debug)]
pub struct KrateDependency {
    pub pkg: usize,
    pub edges: Vec<DependencyEdge>,
    pub features: StringSet,
}

/// Whether the link adds an edge by itself: it uses the default feature,
/// names no feature, or names one other than `default`.
pub open spec fn edge_makes_edge(de: DependencyEdge) -> bool {
    ||| de.uses_default_features
    ||| de.features@.len() == 0
    ||| exists|f: int| 0 <= f < de.features@.len() && (#[trigger] de.features@[f])@ != "default"@
}

/// Whether one of the dependency's links adds an edge by itself.
pub open spec fn kd_makes_edge(kd: KrateDependency) -> bool {
    exists|e: int| 0 <= e < kd.edges@.len() && edge_makes_edge(#[trigger] kd.edges@[e])
}

/// Whether the link enables the feature `f`: `default` where it uses the
/// default feature, any other that it names.
pub open spec fn edge_enables(de: DependencyEdge, f: Seq<char>) -> bool {
    ||| de.uses_default_features && f == "default"@
    ||| f != "default"@ && strs(de.features@).contains(f)
}

/// Whether one of the links enables the feature `f`.
pub open spec fn edges_enable(edges: Seq<DependencyEdge>, f: Seq<char>) -> bool {
    exists|e: int| 0 <= e < edges.len() && edge_enables(#[trigger] edges[e], f)
}

/// Whether the dependency has the feature `f` enabled: by one of its links,
/// or by the crate's own enabled features.
pub open spec fn kd_enables(kd: KrateDependency, f: Seq<char>) -> bool {
    edges_enable(kd.edges@, f) || kd.features@.contains(f)
}

/// Whether one of the first `upto` links enables the feature `f`.
pub open spec fn edges_enable_upto(edges: Seq<DependencyEdge>, upto: int, f: Seq<char>) -> bool {
    exists|e: int| 0 <= e < upto && edge_enables(#[trigger] edges[e], f)
}

/// A copy of the strings.
pub fn clone_strings(v: &Vec<String>) -> (r: Vec<String>)
    ensures
        strs(r@) == strs(v@),
{
    let mut r: Vec<String> = Vec::new();
    let mut i: usize = 0;
    while i < v.len()
        invariant
            i <= v@.len(),
            strs(r@) == strs(v@).take(i as int),
        decreases v.len() - i,
    {
        let ghost prev = r@;
        let c = v[i].clone();
        r.push(c);
        proof {
            assert(strs(r@) =~= strs(prev).push(v@[i as int]@));
            assert(strs(v@).take(i + 1) =~= strs(v@).take(i as int).push(v@[i as int]@));
        }
        i += 1;
    }
    proof {
        assert(strs(v@).take(i as int) =~= strs(v@));
    }
    r
}

/// A copy of an optional string.
pub fn clone_opt(s: &Option<String>) -> (r: Option<String>)
    ensures
        opt_str(r) == opt_str(*s),
{
    match s {
        Some(v) => Some(v.clone()),
        None => None,
    }
}

/// Whether dependencies of `kind` are ignored for a crate in (or out of)
/// the workspace.
pub fn is_ignored(mask: u32, kind: DepKind, in_ws: bool) -> (r: bool)
    ensures
        r == kind_ignored(mask, kind, in_ws),
{
    let f: u32 = match kind {
        DepKind::Normal => 0x1,
        DepKind::Dev => 0x8,
        DepKind::Build => 0x40,
    };
    let shift: u32 = if in_ws {
        1
    } else {
        2
    };
    let m = f | (f << shift);
    mask & m == m
}

/// The position of the first dependency the package declares for the
/// resolved dependency, with the given kind.
fn find_declared(p: &Package, rdep: &NodeDep, kind: DepKind, real_name: &str) -> (r: Option<usize>)
    requires
        real_name@ == crate_name(rdep.pkg@),
    ensures
        match r {
            Some(i) => first_index(p.dependencies@, |d: Dependency| declares(d, *rdep, kind)) == Some(
                i as int,
            ),
            None => first_index(p.dependencies@, |d: Dependency| declares(d, *rdep, kind)) is None,
        },
{
    let ghost pred = |d: Dependency| declares(d, *rdep, kind);
    let mut i: usize = 0;
    while i < p.dependencies.len()
        invariant
            i <= p.dependencies@.len(),
            pred == (|d: Dependency| declares(d, *rdep, kind)),
            real_name@ == crate_name(rdep.pkg@),
            forall|j: int| 0 <= j < i ==> !pred(#[trigger] p.dependencies@[j]),
        decreases p.dependencies.len() - i,
    {
        let d = &p.dependencies[i];
        let name = match &d.rename {
            Some(r) => r.as_str(),
            None => d.name.as_str(),
        };
        if kind.matches_kind(d.kind) && (dep_names_match(name, rdep.name.as_str()) || str_eq(
            real_name,
            name,
        )) {
            proof {
                assert(pred(p.dependencies@[i as int]));
                lemma_first_index_some(p.dependencies@, pred, i as int);
            }
            return Some(i);
        }
        i += 1;
    }
    proof {
        lemma_first_index_none(p.dependencies@, pred);
    }
    None
}

/// Whether the target-specific `cfg` is one of the targets' (see
/// [`cfg_matched`]).
pub fn cfg_matches(targets: &Vec<TargetFilter>, cfg: &str) -> (r: bool)
    ensures
        r == cfg_matched(targets@.map_values(|t: TargetFilter| t@), cfg@),
{
    proof {
        reveal_strlit("cfg(");
    }
    let ghost tm = targets@.map_values(|t: TargetFilter| t@);
    let is_expr = starts_with_chars(&chars_of(cfg), &pattern("cfg("));
    let mut i: usize = 0;
    while i < targets.len()
        invariant
            i <= targets@.len(),
            tm == targets@.map_values(|t: TargetFilter| t@),
            is_expr == starts_with(cfg@, "cfg("@),
            forall|j: int| 0 <= j < i ==> if is_expr {
                cfg_eval(cfg@, builtin_of(#[trigger] tm[j].0), tm[j].1) == Some(false)
            } else {
                (#[trigger] tm[j]).0.0 != cfg@
            },
        decreases targets.len() - i,
    {
        let hit = if is_expr {
            match targets[i].eval(cfg) {
                Some(false) => false,
                _ => true,
            }
        } else {
            targets[i].matches_triple(cfg)
        };
        if hit {
            assert(tm[i as int] == targets@[i as int]@);
            return true;
        }
        i += 1;
    }
    false
}

/// The feature `path.last()` is reached along `path` from the enabled
/// features `start` of a package whose features are `fm`: the path starts
/// at one of them, and each next feature is a plain entry of the one before,
/// which the package declares.
pub open spec fn feature_path(
    fm: Map<Seq<char>, Seq<Seq<char>>>,
    start: Seq<Seq<char>>,
    path: Seq<Seq<char>>,
) -> bool {
    &&& path.len() > 0
    &&& start.contains(path[0])
    &&& forall|i: int|
        0 <= i < path.len() - 1 ==> fm.contains_key(#[trigger] path[i]) && fm[path[i]].contains(path[i + 1])
            && feature_kind(path[i + 1]) == FeatureKind::Simple
}

/// Whether the feature `g` is reached from the enabled features `start`.
pub open spec fn feature_reached(fm: Map<Seq<char>, Seq<Seq<char>>>, start: Seq<Seq<char>>, g: Seq<char>) -> bool {
    exists|path: Seq<Seq<char>>| #[trigger] feature_path(fm, start, path) && path.last() == g
}

/// Whether the dependency called `rdep_name` (crate `real_name`) goes by
/// the name `k` in a feature entry.
pub open spec fn names_dep(k: Seq<char>, rdep_name: Seq<char>, real_name: Seq<char>) -> bool {
    names_match(k, rdep_name) || k == real_name
}

/// Whether the entry `e` turns on the feature `x` of the dependency called
/// `rdep_name` (crate `real_name`): it is `dep/x` or `dep?/x`.
pub open spec fn entry_turns_on(e: Seq<char>, rdep_name: Seq<char>, real_name: Seq<char>, x: Seq<char>) -> bool {
    match feature_kind(e) {
        FeatureKind::Weak(i) => names_dep(e.take(i as int), rdep_name, real_name) && x == e.skip(i + 2),
        FeatureKind::Strong(i) => names_dep(e.take(i as int), rdep_name, real_name) && x == e.skip(i + 1),
        _ => false,
    }
}

/// Whether the enabled features `start` of a package whose features are
/// `fm` turn on the feature `x` of the dependency called `rdep_name` (crate
/// `real_name`): a declared feature reached from them has an entry that
/// does.
pub open spec fn turned_on(
    fm: Map<Seq<char>, Seq<Seq<char>>>,
    start: Seq<Seq<char>>,
    rdep_name: Seq<char>,
    real_name: Seq<char>,
    x: Seq<char>,
) -> bool {
    exists|g: Seq<char>, e: Seq<char>|
        feature_reached(fm, start, g) && fm.contains_key(g) && #[trigger] fm[g].contains(e) && entry_turns_on(
            e,
            rdep_name,
            real_name,
            x,
        )
}

/// A feature still to visit, visited already, or one that leads nowhere
/// (the package does not declare it).
pub open spec fn in_pool(
    fm: Map<Seq<char>, Seq<Seq<char>>>,
    seen: Set<Seq<char>>,
    stack: Seq<Seq<char>>,
    e: Seq<char>,
) -> bool {
    seen.contains(e) || stack.contains(e) || !fm.contains_key(e)
}

/// Every declared feature along a path is visited, once the visited ones
/// hold the start and are closed under plain entries.
proof fn lemma_path_seen(
    fm: Map<Seq<char>, Seq<Seq<char>>>,
    start: Seq<Seq<char>>,
    seen: Set<Seq<char>>,
    path: Seq<Seq<char>>,
    i: int,
)
    requires
        feature_path(fm, start, path),
        0 <= i < path.len(),
        forall|s: Seq<char>| #[trigger] start.contains(s) ==> seen.contains(s) || !fm.contains_key(s),
        forall|g: Seq<char>, e: Seq<char>|
            seen.contains(g) && fm.contains_key(g) && #[trigger] fm[g].contains(e) && feature_kind(e)
                == FeatureKind::Simple ==> seen.contains(e) || !fm.contains_key(e),
    ensures
        seen.contains(path[i]) || !fm.contains_key(path[i]),
    decreases i,
{
    if i > 0 {
        lemma_path_seen(fm, start, seen, path, i - 1);
        assert(fm.contains_key(path[i - 1]) && fm[path[i - 1]].contains(path[i]));
    }
}

/// A path to a feature, followed by one of its plain entries.
proof fn lemma_path_extend(
    fm: Map<Seq<char>, Seq<Seq<char>>>,
    start: Seq<Seq<char>>,
    g: Seq<char>,
    e: Seq<char>,
)
    requires
        feature_reached(fm, start, g),
        fm.contains_key(g),
        fm[g].contains(e),
        feature_kind(e) == FeatureKind::Simple,
    ensures
        feature_reached(fm, start, e),
{
    let path = choose|path: Seq<Seq<char>>| #[trigger] feature_path(fm, start, path) && path.last() == g;
    let longer = path.push(e);
    assert forall|i: int| 0 <= i < longer.len() - 1 implies fm.contains_key(#[trigger] longer[i])
        && fm[longer[i]].contains(longer[i + 1]) && feature_kind(longer[i + 1]) == FeatureKind::Simple by {
        if i < path.len() - 1 {
            assert(longer[i] == path[i] && longer[i + 1] == path[i + 1]);
        } else {
            assert(longer[i] == g);
        }
    }
    assert(longer[0] == path[0]);
    assert(feature_path(fm, start, longer));
    assert(longer.last() == e);
}

/// The features that the crate's own enabled features turn on in the
/// dependency named `rdep_name` (crate `real_name`): following the features
/// that enable other features of the crate, each `dep/feature` and
/// `dep?/feature` entry for that dependency, sorted and once each. Features
/// the package does not declare lead nowhere.
fn dep_features(p: &Package, n: &ResolveNode, rdep_name: &str, real_name: &str) -> (r: StringSet)
    ensures
        forall|x: Seq<char>|
            #[trigger] r@.contains(x) <==> turned_on(p.features@, strs(n.features@), rdep_name@, real_name@, x),
{
    let ghost fm = p.features@;
    let ghost start = strs(n.features@);
    let mut stack = clone_strings(&n.features);
    let mut seen = StringSet::new();
    let mut features = StringSet::new();
    let ghost keys = p.features@.dom();
    let nkeys = p.features.len();
    proof {
        assert forall|q: int| 0 <= q < stack@.len() implies feature_reached(fm, start, #[trigger] stack@[q]@) by {
            let path = seq![stack@[q]@];
            assert(strs(stack@)[q] == stack@[q]@);
            assert(start[q] == stack@[q]@);
            assert(feature_path(fm, start, path));
        }
        assert forall|s: Seq<char>| #[trigger] start.contains(s) implies in_pool(fm, seen@, strs(stack@), s) by {}
    }
    while stack.len() > 0
        invariant
            fm == p.features@,
            start == strs(n.features@),
            keys == p.features@.dom(),
            keys.finite(),
            nkeys == keys.len(),
            seen@.subset_of(keys),
            seen@.finite(),
            forall|q: int| 0 <= q < stack@.len() ==> feature_reached(fm, start, #[trigger] stack@[q]@),
            forall|g: Seq<char>| #[trigger] seen@.contains(g) ==> fm.contains_key(g) && feature_reached(fm, start, g),
            forall|x: Seq<char>| #[trigger] features@.contains(x) ==> turned_on(fm, start, rdep_name@, real_name@, x),
            forall|g: Seq<char>, e: Seq<char>|
                seen@.contains(g) && fm.contains_key(g) && #[trigger] fm[g].contains(e) && feature_kind(e)
                    == FeatureKind::Simple ==> in_pool(fm, seen@, strs(stack@), e),
            forall|g: Seq<char>, e: Seq<char>, x: Seq<char>|
                seen@.contains(g) && fm.contains_key(g) && #[trigger] fm[g].contains(e) && #[trigger] entry_turns_on(
                    e,
                    rdep_name@,
                    real_name@,
                    x,
                ) ==> features@.contains(x),
            forall|s: Seq<char>| #[trigger] start.contains(s) ==> in_pool(fm, seen@, strs(stack@), s),
        decreases nkeys - seen@.len(), stack@.len(),
    {
        proof {
            vstd::set_lib::lemma_len_subset(seen@, keys);
        }
        let ghost st = stack@;
        let feat = stack.pop().unwrap();
        proof {
            assert(st == stack@.push(feat));
            assert(strs(st) == strs(stack@).push(feat@));
            assert forall|e: Seq<char>| #[trigger] in_pool(fm, seen@, strs(st), e) && e != feat@ implies in_pool(
                fm,
                seen@,
                strs(stack@),
                e,
            ) by {
                if strs(st).contains(e) && !seen@.contains(e) && fm.contains_key(e) {
                    let q = choose|q: int| 0 <= q < strs(st).len() && strs(st)[q] == e;
                    assert(q < strs(stack@).len());
                    assert(strs(stack@)[q] == e);
                }
            }
            assert(feature_reached(fm, start, st[st.len() - 1]@));
        }
        if seen.contains(feat.as_str()) {
            proof {
                assert forall|g: Seq<char>, e: Seq<char>|
                    seen@.contains(g) && fm.contains_key(g) && #[trigger] fm[g].contains(e) && feature_kind(e)
                        == FeatureKind::Simple implies in_pool(fm, seen@, strs(stack@), e) by {
                    assert(in_pool(fm, seen@, strs(st), e));
                }
                assert forall|s: Seq<char>| #[trigger] start.contains(s) implies in_pool(fm, seen@, strs(stack@), s) by {
                    assert(in_pool(fm, seen@, strs(st), s));
                }
            }
            continue;
        }
        let subs = match p.features.get(feat.as_str()) {
            Some(subs) => subs,
            None => {
                proof {
                    assert forall|g: Seq<char>, e: Seq<char>|
                        seen@.contains(g) && fm.contains_key(g) && #[trigger] fm[g].contains(e) && feature_kind(e)
                            == FeatureKind::Simple implies in_pool(fm, seen@, strs(stack@), e) by {
                        assert(in_pool(fm, seen@, strs(st), e));
                    }
                    assert forall|s: Seq<char>| #[trigger] start.contains(s) implies in_pool(fm, seen@, strs(stack@), s) by {
                        assert(in_pool(fm, seen@, strs(st), s));
                    }
                }
                continue;
            },
        };
        let ghost seen_before = seen@;
        let ghost fname = feat@;
        seen.insert(feat);
        proof {
            assert(seen@.subset_of(keys));
            vstd::set_lib::lemma_len_subset(seen@, keys);
            assert(seen@.len() == seen_before.len() + 1);
            assert forall|g: Seq<char>, e: Seq<char>|
                seen_before.contains(g) && fm.contains_key(g) && #[trigger] fm[g].contains(e) && feature_kind(e)
                    == FeatureKind::Simple implies in_pool(fm, seen@, strs(stack@), e) by {
                assert(in_pool(fm, seen_before, strs(st), e));
            }
            assert forall|s: Seq<char>| #[trigger] start.contains(s) implies in_pool(fm, seen@, strs(stack@), s) by {
                assert(in_pool(fm, seen_before, strs(st), s));
            }
        }
        let ghost stack_mid = strs(stack@);
        let mut j: usize = 0;
        while j < subs.len()
            invariant
                j <= subs@.len(),
                fm == p.features@,
                start == strs(n.features@),
                fm.contains_key(fname),
                fm[fname] == strs(subs@),
                feature_reached(fm, start, fname),
                seen@ == seen_before.insert(fname),
                keys == p.features@.dom(),
                keys.finite(),
                nkeys == keys.len(),
                seen@.subset_of(keys),
                seen@.finite(),
                seen@.len() <= nkeys,
                seen@.len() == seen_before.len() + 1,
                forall|q: int| 0 <= q < stack@.len() ==> feature_reached(fm, start, #[trigger] stack@[q]@),
                forall|g: Seq<char>| #[trigger] seen@.contains(g) ==> fm.contains_key(g) && feature_reached(fm, start, g),
                forall|x: Seq<char>| #[trigger] features@.contains(x) ==> turned_on(fm, start, rdep_name@, real_name@, x),
                forall|e: Seq<char>| #[trigger] stack_mid.contains(e) ==> strs(stack@).contains(e),
                forall|g: Seq<char>, e: Seq<char>|
                    seen_before.contains(g) && fm.contains_key(g) && #[trigger] fm[g].contains(e) && feature_kind(e)
                        == FeatureKind::Simple ==> in_pool(fm, seen@, stack_mid, e),
                forall|g: Seq<char>, e: Seq<char>, x: Seq<char>|
                    seen_before.contains(g) && fm.contains_key(g) && #[trigger] fm[g].contains(e) && #[trigger] entry_turns_on(
                        e,
                        rdep_name@,
                        real_name@,
                        x,
                    ) ==> features@.contains(x),
                forall|k: int|
                    0 <= k < j && feature_kind(#[trigger] subs@[k]@) == FeatureKind::Simple ==> in_pool(
                        fm,
                        seen@,
                        strs(stack@),
                        subs@[k]@,
                    ),
                forall|k: int, x: Seq<char>|
                    0 <= k < j && #[trigger] entry_turns_on(subs@[k]@, rdep_name@, real_name@, x) ==> features@.contains(x),
                forall|s: Seq<char>| #[trigger] start.contains(s) ==> in_pool(fm, seen@, stack_mid, s),
            decreases subs.len() - j,
        {
            let parsed = ParsedFeature::from(subs[j].as_str());
            let ghost ej = subs@[j as int]@;
            proof {
                assert(strs(subs@)[j as int] == ej);
                assert(fm[fname].contains(ej));
            }
            let ghost st2 = stack@;
            let ghost feats_before = features@;
            match parsed.feat() {
                Feature::Simple(f) => {
                    proof {
                        lemma_path_extend(fm, start, fname, ej);
                    }
                    stack.push(f);
                    proof {
                        assert(strs(stack@) == strs(st2).push(ej));
                        assert(strs(stack@)[st2.len() as int] == ej);
                        assert forall|e: Seq<char>| #[trigger] stack_mid.contains(e) implies strs(stack@).contains(e) by {
                            let q = choose|q: int| 0 <= q < strs(st2).len() && strs(st2)[q] == e;
                            assert(strs(stack@)[q] == e);
                        }
                        assert forall|k: int|
                            0 <= k < j + 1 && feature_kind(#[trigger] subs@[k]@) == FeatureKind::Simple implies in_pool(
                                fm,
                                seen@,
                                strs(stack@),
                                subs@[k]@,
                            ) by {
                            if k < j {
                                assert(in_pool(fm, seen@, strs(st2), subs@[k]@));
                                if strs(st2).contains(subs@[k]@) {
                                    let q = choose|q: int| 0 <= q < strs(st2).len() && strs(st2)[q] == subs@[k]@;
                                    assert(strs(stack@)[q] == subs@[k]@);
                                }
                            }
                        }
                        assert forall|q: int| 0 <= q < stack@.len() implies feature_reached(fm, start, #[trigger] stack@[q]@) by {
                            if q < st2.len() {
                                assert(stack@[q] == st2[q]);
                            }
                        }
                    }
                },
                Feature::Krate(_) => {},
                Feature::Strong { krate, feature } | Feature::Weak { krate, feature } => {
                    if dep_names_match(krate.as_str(), rdep_name) || str_eq(krate.as_str(), real_name) {
                        let ghost xf = feature@;
                        proof {
                            assert(entry_turns_on(ej, rdep_name@, real_name@, xf));
                            assert(turned_on(fm, start, rdep_name@, real_name@, xf));
                        }
                        features.insert(feature);
                    }
                },
            }
            proof {
                assert forall|k: int, x: Seq<char>|
                    0 <= k < j + 1 && #[trigger] entry_turns_on(subs@[k]@, rdep_name@, real_name@, x) implies features@.contains(x) by {
                    if k == j {
                        assert(subs@[k]@ == ej);
                    } else {
                        assert(feats_before.contains(x));
                    }
                }
            }
            j += 1;
        }
        proof {
            assert forall|g: Seq<char>, e: Seq<char>|
                seen@.contains(g) && fm.contains_key(g) && #[trigger] fm[g].contains(e) && feature_kind(e)
                    == FeatureKind::Simple implies in_pool(fm, seen@, strs(stack@), e) by {
                if g == fname {
                    let k = choose|k: int| 0 <= k < strs(subs@).len() && strs(subs@)[k] == e;
                    assert(subs@[k]@ == e);
                } else {
                    assert(in_pool(fm, seen@, stack_mid, e));
                }
            }
            assert forall|g: Seq<char>, e: Seq<char>, x: Seq<char>|
                seen@.contains(g) && fm.contains_key(g) && #[trigger] fm[g].contains(e) && #[trigger] entry_turns_on(
                    e,
                    rdep_name@,
                    real_name@,
                    x,
                ) implies features@.contains(x) by {
                if g == fname {
                    let k = choose|k: int| 0 <= k < strs(subs@).len() && strs(subs@)[k] == e;
                    assert(subs@[k]@ == e);
                }
            }
            assert forall|s: Seq<char>| #[trigger] start.contains(s) implies in_pool(fm, seen@, strs(stack@), s) by {
                assert(in_pool(fm, seen@, stack_mid, s));
            }
        }
    }
    proof {
        assert forall|x: Seq<char>| turned_on(fm, start, rdep_name@, real_name@, x) implies #[trigger] features@.contains(x) by {
            let (g, e) = choose|g: Seq<char>, e: Seq<char>|
                feature_reached(fm, start, g) && fm.contains_key(g) && #[trigger] fm[g].contains(e) && entry_turns_on(
                    e,
                    rdep_name@,
                    real_name@,
                    x,
                );
            let path = choose|path: Seq<Seq<char>>| #[trigger] feature_path(fm, start, path) && path.last() == g;
            assert forall|s: Seq<char>| #[trigger] start.contains(s) implies seen@.contains(s) || !fm.contains_key(s) by {
                assert(in_pool(fm, seen@, strs(stack@), s));
            }
            assert forall|g2: Seq<char>, e2: Seq<char>|
                seen@.contains(g2) && fm.contains_key(g2) && #[trigger] fm[g2].contains(e2) && feature_kind(e2)
                    == FeatureKind::Simple implies seen@.contains(e2) || !fm.contains_key(e2) by {
                assert(in_pool(fm, seen@, strs(stack@), e2));
            }
            lemma_path_seen(fm, start, seen@, path, path.len() - 1);
        }
    }
    features
}

} // verus!

verus! {

/// Whether the resolved node with id `id` has its `default` feature
/// enabled.
fn has_default_feature(nodes: &Vec<ResolveNode>, id: &PackageId) -> (r: bool)
    requires
        strictly_sorted(id_seq(nodes@)),
    ensures
        r == has_default_in(nodes@, id@),
{
    match find_by_id(nodes, id) {
        Some(i) => {
            proof {
                crate::set::lemma_sorted_no_dup(id_seq(nodes@));
                lemma_item_with_id(nodes@, nodes@, i as int);
            }
            contains_str(&nodes[i].features, "default")
        },
        None => false,
    }
}

/// The link `dk` to the resolved dependency `rdep`, if it stays: its kind,
/// the target it is specific to, the features its declaration enables, and
/// whether it uses the default feature (which the dependency has exactly
/// when `has_default`).
fn kept_link(
    targets: &Vec<TargetFilter>,
    ignore: u32,
    p: &Package,
    n: &ResolveNode,
    rdep: &NodeDep,
    dk: &DepKindInfo,
    in_ws: bool,
    real_name: &str,
    has_default: bool,
    Ghost(b): Ghost<BuilderModel>,
) -> (r: Option<DependencyEdge>)
    requires
        b.target_filters == targets@.map_values(|t: TargetFilter| t@),
        b.ignore_kinds == ignore,
        real_name@ == crate_name(rdep.pkg@),
    ensures
        r is Some <==> edge_kept(b, in_ws, *p, *n, *rdep, *dk),
        r matches Some(de) ==> {
            let d = declared_dep(*p, *rdep, dep_kind_of(dk.kind))->0;
            &&& de.uses_default_features == (d.uses_default_features && has_default)
            &&& strs(de.features@) == strs(d.features@)
            &&& de.kind == dep_kind_of(dk.kind)
            &&& opt_str(de.cfg) == opt_str(dk.target)
        },
{
    let kind = DepKind::from_dependency_kind(dk.kind);
    if is_ignored(ignore, kind, in_ws) {
        return None;
    }
    let di = match find_declared(p, rdep, kind, real_name) {
        Some(di) => di,
        None => return None,
    };
    proof {
        lemma_first_index_found(p.dependencies@, |d: Dependency| declares(d, *rdep, kind));
    }
    let dep = &p.dependencies[di];
    if dep.optional && !(contains_str(&n.features, rdep.name.as_str()) || contains_str(
        &n.features,
        real_name,
    )) {
        return None;
    }
    let cfg = match &dk.target {
        Some(cfg) => {
            if targets.len() > 0 && !cfg_matches(targets, cfg.as_str()) {
                return None;
            }
            Some(cfg.clone())
        },
        None => None,
    };
    proof {
        assert(edge_kept(b, in_ws, *p, *n, *rdep, *dk));
        assert(declared_dep(*p, *rdep, dep_kind_of(dk.kind)) == Some(*dep));
    }
    Some(
        DependencyEdge {
            kind,
            cfg,
            features: clone_strings(&dep.features),
            uses_default_features: dep.uses_default_features && has_default,
        },
    )
}

/// The link makes an edge exactly when its declaration does.
proof fn lemma_link_makes_edge(de: DependencyEdge, d: Dependency, has_default: bool)
    requires
        de.uses_default_features == (d.uses_default_features && has_default),
        strs(de.features@) == strs(d.features@),
    ensures
        edge_makes_edge(de) == link_makes_edge(d, has_default),
        forall|f: Seq<char>| edge_enables(de, f) == link_enables_feature(d, has_default, f),
{
    assert(de.features@.len() == strs(de.features@).len());
    assert(d.features@.len() == strs(d.features@).len());
    assert forall|f: int| 0 <= f < de.features@.len() implies (#[trigger] de.features@[f])@ == d.features@[f]@ by {
        assert(strs(de.features@)[f] == strs(d.features@)[f]);
    }
    if link_makes_edge(d, has_default) {
        if !(d.uses_default_features && has_default) && d.features@.len() != 0 {
            let f = choose|f: int| 0 <= f < d.features@.len() && (#[trigger] d.features@[f])@ != "default"@;
            assert(de.features@[f]@ != "default"@);
        }
    }
    if edge_makes_edge(de) {
        if !de.uses_default_features && de.features@.len() != 0 {
            let f = choose|f: int| 0 <= f < de.features@.len() && (#[trigger] de.features@[f])@ != "default"@;
            assert(d.features@[f]@ != "default"@);
        }
    }
}

/// The links to one resolved dependency that stay, in the order of its
/// kinds.
fn kept_edges(
    targets: &Vec<TargetFilter>,
    ignore: u32,
    p: &Package,
    n: &ResolveNode,
    rdep: &NodeDep,
    in_ws: bool,
    real_name: &str,
    has_default: bool,
    Ghost(b): Ghost<BuilderModel>,
) -> (r: Vec<DependencyEdge>)
    requires
        b.target_filters == targets@.map_values(|t: TargetFilter| t@),
        b.ignore_kinds == ignore,
        real_name@ == crate_name(rdep.pkg@),
    ensures
        r@.len() > 0 <==> dep_kept(b, in_ws, *p, *n, *rdep),
        dep_linked_by(b, in_ws, *p, *n, *rdep, has_default) ==> exists|e: int|
            0 <= e < r@.len() && edge_makes_edge(#[trigger] r@[e]),
        forall|f: Seq<char>|
            #[trigger] links_enable_upto(b, in_ws, *p, *n, *rdep, has_default, rdep.dep_kinds.len() as int, f)
                ==> edges_enable(r@, f),
        forall|e: int, f: Seq<char>|
            0 <= e < r@.len() && #[trigger] edge_enables(r@[e], f) ==> links_enable_upto(
                b,
                in_ws,
                *p,
                *n,
                *rdep,
                has_default,
                rdep.dep_kinds.len() as int,
                f,
            ),
        edges_as_links(b, in_ws, *p, *n, *rdep, r@),
{
    proof {
        reveal_strlit("default");
    }
    let mut edges: Vec<DependencyEdge> = Vec::new();
    let mut k: usize = 0;
    while k < rdep.dep_kinds.len()
        invariant
            k <= rdep.dep_kinds@.len(),
            b.target_filters == targets@.map_values(|t: TargetFilter| t@),
            b.ignore_kinds == ignore,
            real_name@ == crate_name(rdep.pkg@),
            edges@.len() > 0 <==> exists|q: int|
                0 <= q < k && edge_kept(b, in_ws, *p, *n, *rdep, #[trigger] rdep.dep_kinds@[q]),
            (exists|q: int|
                0 <= q < k && edge_kept(b, in_ws, *p, *n, *rdep, #[trigger] rdep.dep_kinds@[q])
                    && link_makes_edge(declared_dep(*p, *rdep, dep_kind_of(rdep.dep_kinds@[q].kind))->0, has_default))
                ==> exists|e: int| 0 <= e < edges@.len() && edge_makes_edge(#[trigger] edges@[e]),
            forall|f: Seq<char>|
                #[trigger] links_enable_upto(b, in_ws, *p, *n, *rdep, has_default, k as int, f) ==> edges_enable(
                    edges@,
                    f,
                ),
            forall|e: int, f: Seq<char>|
                0 <= e < edges@.len() && #[trigger] edge_enables(edges@[e], f) ==> links_enable_upto(
                    b,
                    in_ws,
                    *p,
                    *n,
                    *rdep,
                    has_default,
                    k as int,
                    f,
                ),
            forall|e: int|
                #![trigger edges@[e]]
                0 <= e < edges@.len() ==> link_as(b, in_ws, *p, *n, *rdep, edges@[e].kind, opt_str(edges@[e].cfg)),
        decreases rdep.dep_kinds.len() - k,
    {
        let dk = &rdep.dep_kinds[k];
        let ghost old_edges = edges@;
        let link = kept_link(targets, ignore, p, n, rdep, dk, in_ws, real_name, has_default, Ghost(b));
        let ghost d = declared_dep(*p, *rdep, dep_kind_of(dk.kind))->0;
        match link {
            Some(de) => {
                proof {
                    lemma_link_makes_edge(de, d, has_default);
                }
                edges.push(de);
                proof {
                    assert(edges@[old_edges.len() as int] == de);
                    if exists|e: int| 0 <= e < old_edges.len() && edge_makes_edge(#[trigger] old_edges[e]) {
                        let e = choose|e: int| 0 <= e < old_edges.len() && edge_makes_edge(#[trigger] old_edges[e]);
                        assert(edges@[e] == old_edges[e]);
                    }
                    assert forall|f: Seq<char>|
                        #[trigger] links_enable_upto(b, in_ws, *p, *n, *rdep, has_default, k + 1, f) implies edges_enable(
                            edges@,
                            f,
                        ) by {
                        let q = choose|q: int|
                            0 <= q < k + 1 && edge_kept(b, in_ws, *p, *n, *rdep, #[trigger] rdep.dep_kinds@[q])
                                && link_enables_feature(
                                declared_dep(*p, *rdep, dep_kind_of(rdep.dep_kinds@[q].kind))->0,
                                has_default,
                                f,
                            );
                        if q < k {
                            assert(links_enable_upto(b, in_ws, *p, *n, *rdep, has_default, k as int, f));
                            let e = choose|e: int| 0 <= e < old_edges.len() && edge_enables(#[trigger] old_edges[e], f);
                            assert(edges@[e] == old_edges[e]);
                        } else {
                            assert(edge_enables(edges@[old_edges.len() as int], f));
                        }
                    }
                    assert forall|e: int, f: Seq<char>|
                        0 <= e < edges@.len() && #[trigger] edge_enables(edges@[e], f) implies links_enable_upto(
                            b,
                            in_ws,
                            *p,
                            *n,
                            *rdep,
                            has_default,
                            k + 1,
                            f,
                        ) by {
                        if e < old_edges.len() {
                            assert(edges@[e] == old_edges[e]);
                            assert(links_enable_upto(b, in_ws, *p, *n, *rdep, has_default, k as int, f));
                            let q = choose|q: int|
                                0 <= q < k && edge_kept(b, in_ws, *p, *n, *rdep, #[trigger] rdep.dep_kinds@[q])
                                    && link_enables_feature(
                                    declared_dep(*p, *rdep, dep_kind_of(rdep.dep_kinds@[q].kind))->0,
                                    has_default,
                                    f,
                                );
                        } else {
                            assert(edges@[e] == de);
                            assert(rdep.dep_kinds@[k as int] == *dk);
                        }
                    }
                    assert forall|e: int|
                        #![trigger edges@[e]]
                        0 <= e < edges@.len() implies link_as(b, in_ws, *p, *n, *rdep, edges@[e].kind, opt_str(edges@[e].cfg)) by {
                        if e < old_edges.len() {
                            assert(edges@[e] == old_edges[e]);
                        } else {
                            assert(edges@[e] == de);
                            assert(rdep.dep_kinds@[k as int] == *dk);
                        }
                    }
                }
            },
            None => {
                proof {
                    assert forall|f: Seq<char>|
                        #[trigger] links_enable_upto(b, in_ws, *p, *n, *rdep, has_default, k + 1, f) implies edges_enable(
                            edges@,
                            f,
                        ) by {
                        let q = choose|q: int|
                            0 <= q < k + 1 && edge_kept(b, in_ws, *p, *n, *rdep, #[trigger] rdep.dep_kinds@[q])
                                && link_enables_feature(
                                declared_dep(*p, *rdep, dep_kind_of(rdep.dep_kinds@[q].kind))->0,
                                has_default,
                                f,
                            );
                        assert(q != k);
                        assert(links_enable_upto(b, in_ws, *p, *n, *rdep, has_default, k as int, f));
                    }
                    assert forall|e: int, f: Seq<char>|
                        0 <= e < edges@.len() && #[trigger] edge_enables(edges@[e], f) implies links_enable_upto(
                            b,
                            in_ws,
                            *p,
                            *n,
                            *rdep,
                            has_default,
                            k + 1,
                            f,
                        ) by {
                        assert(links_enable_upto(b, in_ws, *p, *n, *rdep, has_default, k as int, f));
                        let q = choose|q: int|
                            0 <= q < k && edge_kept(b, in_ws, *p, *n, *rdep, #[trigger] rdep.dep_kinds@[q])
                                && link_enables_feature(
                                declared_dep(*p, *rdep, dep_kind_of(rdep.dep_kinds@[q].kind))->0,
                                has_default,
                                f,
                            );
                    }
                }
            },
        }
        k += 1;
    }
    proof {
        assert(edges@.len() > 0 <==> dep_kept(b, in_ws, *p, *n, *rdep));
        reveal(edges_as_links);
    }
    edges
}

/// The dependencies of the crate `p` (resolved as `n`) that stay in the
/// graph, in the order of the resolved dependencies: each with the position
/// of its package among the sorted packages.
fn krate_deps(
    targets: &Vec<TargetFilter>,
    ignore: u32,
    p: &Package,
    n: &ResolveNode,
    in_ws: bool,
    nodes: &Vec<ResolveNode>,
    packages: &Vec<Package>,
    Ghost(b): Ghost<BuilderModel>,
) -> (r: Vec<KrateDependency>)
    requires
        b.target_filters == targets@.map_values(|t: TargetFilter| t@),
        b.ignore_kinds == ignore,
        strictly_sorted(id_seq(nodes@)),
        strictly_sorted(id_seq(packages@)),
        forall|j: int|
            0 <= j < n.deps.len() ==> id_seq(packages@).contains((#[trigger] n.deps@[j]).pkg@),
    ensures
        forall|k: int|
            0 <= k < r@.len() ==> (#[trigger] r@[k]).pkg < packages@.len() && exists|j: int|
                0 <= j < n.deps.len() && (#[trigger] n.deps@[j]).pkg@ == packages@[r@[k].pkg as int].id@
                    && dep_kept(b, in_ws, *p, *n, n.deps@[j]),
        forall|j: int|
            0 <= j < n.deps.len() && dep_kept(b, in_ws, *p, *n, #[trigger] n.deps@[j]) ==> exists|k: int|
                0 <= k < r@.len() && packages@[(#[trigger] r@[k]).pkg as int].id@ == n.deps@[j].pkg@,
        kd_covers_links(b, in_ws, *p, *n, nodes@, packages@, r@),
        kd_covers_features(b, in_ws, *p, *n, nodes@, packages@, r@),
        kd_features_sound(b, in_ws, *p, *n, nodes@, packages@, r@),
        kd_links_sound(b, in_ws, *p, *n, packages@, r@),
{
    let mut r: Vec<KrateDependency> = Vec::new();
    proof {
        assert(kd_links_sound(b, in_ws, *p, *n, packages@, r@)) by {
            reveal(kd_links_sound);
        }
    }
    let mut i: usize = 0;
    while i < n.deps.len()
        invariant
            i <= n.deps@.len(),
            b.target_filters == targets@.map_values(|t: TargetFilter| t@),
            b.ignore_kinds == ignore,
            strictly_sorted(id_seq(nodes@)),
            strictly_sorted(id_seq(packages@)),
            forall|j: int|
                0 <= j < n.deps.len() ==> id_seq(packages@).contains((#[trigger] n.deps@[j]).pkg@),
            forall|k: int|
                0 <= k < r@.len() ==> (#[trigger] r@[k]).pkg < packages@.len() && exists|j: int|
                    0 <= j < n.deps.len() && (#[trigger] n.deps@[j]).pkg@ == packages@[r@[k].pkg as int].id@
                        && dep_kept(b, in_ws, *p, *n, n.deps@[j]),
            forall|j: int|
                0 <= j < i && dep_kept(b, in_ws, *p, *n, #[trigger] n.deps@[j]) ==> exists|k: int|
                    0 <= k < r@.len() && packages@[(#[trigger] r@[k]).pkg as int].id@ == n.deps@[j].pkg@,
            forall|j: int|
                0 <= j < i && dep_linked_by(
                    b,
                    in_ws,
                    *p,
                    *n,
                    #[trigger] n.deps@[j],
                    has_default_in(nodes@, n.deps@[j].pkg@),
                ) ==> exists|k: int|
                    0 <= k < r@.len() && packages@[(#[trigger] r@[k]).pkg as int].id@ == n.deps@[j].pkg@
                        && kd_makes_edge(r@[k]),
            forall|j: int, f: Seq<char>|
                0 <= j < i && #[trigger] dep_enables_by(
                    b,
                    in_ws,
                    *p,
                    *n,
                    n.deps@[j],
                    has_default_in(nodes@, n.deps@[j].pkg@),
                    f,
                ) ==> exists|k: int|
                    0 <= k < r@.len() && packages@[(#[trigger] r@[k]).pkg as int].id@ == n.deps@[j].pkg@
                        && kd_enables(r@[k], f),
            forall|k: int, f: Seq<char>|
                0 <= k < r@.len() && #[trigger] kd_enables(r@[k], f) ==> exists|j: int|
                    0 <= j < n.deps.len() && (#[trigger] n.deps@[j]).pkg@ == packages@[r@[k].pkg as int].id@
                        && dep_enables_by(b, in_ws, *p, *n, n.deps@[j], has_default_in(nodes@, n.deps@[j].pkg@), f),
            kd_links_sound(b, in_ws, *p, *n, packages@, r@),
        decreases n.deps.len() - i,
    {
        let rdep = &n.deps[i];
        let real_name = crate_name_from_pid(&rdep.pkg);
        let has_default = has_default_feature(nodes, &rdep.pkg);
        let edges = kept_edges(targets, ignore, p, n, rdep, in_ws, real_name.as_str(), has_default, Ghost(b));
        if edges.len() == 0 {
            proof {
                if dep_linked_by(b, in_ws, *p, *n, *rdep, has_default) {
                    let q = choose|q: int|
                        0 <= q < rdep.dep_kinds.len() && edge_kept(b, in_ws, *p, *n, *rdep, #[trigger] rdep.dep_kinds@[q])
                            && link_makes_edge(declared_dep(*p, *rdep, dep_kind_of(rdep.dep_kinds@[q].kind))->0, has_default);
                    assert(dep_kept(b, in_ws, *p, *n, *rdep));
                }
                assert forall|j: int|
                    0 <= j < i + 1 && dep_linked_by(
                        b,
                        in_ws,
                        *p,
                        *n,
                        #[trigger] n.deps@[j],
                        has_default_in(nodes@, n.deps@[j].pkg@),
                    ) implies exists|k: int|
                        0 <= k < r@.len() && packages@[(#[trigger] r@[k]).pkg as int].id@ == n.deps@[j].pkg@
                            && kd_makes_edge(r@[k]) by {
                    if j == i {
                        assert(n.deps@[j] == *rdep);
                    }
                }
                assert forall|j: int, f: Seq<char>|
                    0 <= j < i + 1 && #[trigger] dep_enables_by(
                        b,
                        in_ws,
                        *p,
                        *n,
                        n.deps@[j],
                        has_default_in(nodes@, n.deps@[j].pkg@),
                        f,
                    ) implies exists|k: int|
                        0 <= k < r@.len() && packages@[(#[trigger] r@[k]).pkg as int].id@ == n.deps@[j].pkg@
                            && kd_enables(r@[k], f) by {
                    if j == i {
                        assert(n.deps@[j] == *rdep);
                        if links_enable_upto(b, in_ws, *p, *n, *rdep, has_default, rdep.dep_kinds.len() as int, f) {
                            let q = choose|q: int|
                                0 <= q < rdep.dep_kinds.len() && edge_kept(b, in_ws, *p, *n, *rdep, #[trigger] rdep.dep_kinds@[q])
                                    && link_enables_feature(
                                    declared_dep(*p, *rdep, dep_kind_of(rdep.dep_kinds@[q].kind))->0,
                                    has_default,
                                    f,
                                );
                        }
                        assert(dep_kept(b, in_ws, *p, *n, *rdep));
                    }
                }
            }
            i += 1;
            continue;
        }
        let pkg = match find_by_id(packages, &rdep.pkg) {
            Some(pkg) => pkg,
            None => {
                proof {
                    let q = choose|q: int| 0 <= q < id_seq(packages@).len() && id_seq(packages@)[q] == rdep.pkg@;
                    assert(packages@[q].id_view() == rdep.pkg@);
                }
                unreached()
            },
        };
        let features = dep_features(p, n, rdep.name.as_str(), real_name.as_str());
        let ghost prev = r@;
        r.push(KrateDependency { pkg, edges, features });
        proof {
            assert(n.deps@[i as int] == *rdep);
            lemma_links_sound_push(b, in_ws, *p, *n, packages@, prev, r@[prev.len() as int], i as int);
            assert(prev.push(r@[prev.len() as int]) == r@);
            assert(r@[prev.len() as int].pkg == pkg);
            assert forall|k: int| 0 <= k < r@.len() implies (#[trigger] r@[k]).pkg < packages@.len() && exists|j: int|
                0 <= j < n.deps.len() && (#[trigger] n.deps@[j]).pkg@ == packages@[r@[k].pkg as int].id@
                    && dep_kept(b, in_ws, *p, *n, n.deps@[j]) by {
                if k < prev.len() {
                    assert(r@[k] == prev[k]);
                } else {
                    assert(n.deps@[i as int].pkg@ == packages@[r@[k].pkg as int].id@);
                }
            }
            assert forall|j: int| 0 <= j < i + 1 && dep_kept(b, in_ws, *p, *n, #[trigger] n.deps@[j]) implies exists|k: int|
                0 <= k < r@.len() && packages@[(#[trigger] r@[k]).pkg as int].id@ == n.deps@[j].pkg@ by {
                if j < i {
                    let k = choose|k: int| 0 <= k < prev.len() && packages@[(#[trigger] prev[k]).pkg as int].id@ == n.deps@[j].pkg@;
                    assert(r@[k] == prev[k]);
                } else {
                    assert(packages@[r@[prev.len() as int].pkg as int].id@ == n.deps@[j].pkg@);
                }
            }
            assert forall|j: int|
                0 <= j < i + 1 && dep_linked_by(
                    b,
                    in_ws,
                    *p,
                    *n,
                    #[trigger] n.deps@[j],
                    has_default_in(nodes@, n.deps@[j].pkg@),
                ) implies exists|k: int|
                    0 <= k < r@.len() && packages@[(#[trigger] r@[k]).pkg as int].id@ == n.deps@[j].pkg@
                        && kd_makes_edge(r@[k]) by {
                if j < i {
                    let k = choose|k: int|
                        0 <= k < prev.len() && packages@[(#[trigger] prev[k]).pkg as int].id@ == n.deps@[j].pkg@
                            && kd_makes_edge(prev[k]);
                    assert(r@[k] == prev[k]);
                } else {
                    assert(n.deps@[j] == *rdep);
                    let last = r@[prev.len() as int];
                    assert(packages@[last.pkg as int].id@ == n.deps@[j].pkg@);
                    let e = choose|e: int| 0 <= e < last.edges@.len() && edge_makes_edge(#[trigger] last.edges@[e]);
                    assert(kd_makes_edge(last));
                }
            }
            assert forall|j: int, f: Seq<char>|
                0 <= j < i + 1 && #[trigger] dep_enables_by(
                    b,
                    in_ws,
                    *p,
                    *n,
                    n.deps@[j],
                    has_default_in(nodes@, n.deps@[j].pkg@),
                    f,
                ) implies exists|k: int|
                    0 <= k < r@.len() && packages@[(#[trigger] r@[k]).pkg as int].id@ == n.deps@[j].pkg@
                        && kd_enables(r@[k], f) by {
                if j < i {
                    let k = choose|k: int|
                        0 <= k < prev.len() && packages@[(#[trigger] prev[k]).pkg as int].id@ == n.deps@[j].pkg@
                            && kd_enables(prev[k], f);
                    assert(r@[k] == prev[k]);
                } else {
                    assert(n.deps@[j] == *rdep);
                    let last = r@[prev.len() as int];
                    assert(packages@[last.pkg as int].id@ == n.deps@[j].pkg@);
                    assert(dep_enables_by(b, in_ws, *p, *n, *rdep, has_default, f));
                    if links_enable_upto(b, in_ws, *p, *n, *rdep, has_default, rdep.dep_kinds.len() as int, f) {
                        assert(edges_enable(last.edges@, f));
                    } else {
                        assert(last.features@.contains(f));
                    }
                    assert(kd_enables(last, f));
                }
            }
            assert forall|k: int, f: Seq<char>|
                0 <= k < r@.len() && #[trigger] kd_enables(r@[k], f) implies exists|j: int|
                    0 <= j < n.deps.len() && (#[trigger] n.deps@[j]).pkg@ == packages@[r@[k].pkg as int].id@
                        && dep_enables_by(b, in_ws, *p, *n, n.deps@[j], has_default_in(nodes@, n.deps@[j].pkg@), f) by {
                if k < prev.len() {
                    assert(r@[k] == prev[k]);
                } else {
                    let last = r@[k];
                    assert(n.deps@[i as int] == *rdep);
                    assert(packages@[last.pkg as int].id@ == rdep.pkg@);
                    if edges_enable(last.edges@, f) {
                        let e = choose|e: int| 0 <= e < last.edges@.len() && edge_enables(#[trigger] last.edges@[e], f);
                        assert(edge_enables(last.edges@[e], f));
                    } else {
                        assert(last.features@.contains(f));
                        assert(dep_kept(b, in_ws, *p, *n, *rdep));
                    }
                    assert(dep_enables_by(b, in_ws, *p, *n, n.deps@[i as int], has_default_in(nodes@, n.deps@[i as int].pkg@), f));
                }
            }
        }
        i += 1;
    }
    proof {
        assert(kd_covers_links(b, in_ws, *p, *n, nodes@, packages@, r@)) by {
            reveal(kd_covers_links);
        }
        assert(kd_covers_features(b, in_ws, *p, *n, nodes@, packages@, r@)) by {
            reveal(kd_covers_features);
        }
        assert(kd_features_sound(b, in_ws, *p, *n, nodes@, packages@, r@)) by {
            reveal(kd_features_sound);
        }
    }
    r
}

/// Each link of one of `kd` has the kind and target of a link that stays
/// from the crate `p` (resolved as `n`) to that dependency.
#[verifier::opaque]
pub open spec fn kd_links_sound(
    b: BuilderModel,
    in_ws: bool,
    p: Package,
    n: ResolveNode,
    packages: Seq<Package>,
    kd: Seq<KrateDependency>,
) -> bool {
    forall|k: int, e: int|
        0 <= k < kd.len() && 0 <= e < kd[k].edges@.len() ==> exists|j: int|
            0 <= j < n.deps.len() && (#[trigger] n.deps@[j]).pkg@ == packages[kd[k].pkg as int].id@ && link_as(
                b,
                in_ws,
                p,
                n,
                n.deps@[j],
                (#[trigger] kd[k].edges@[e]).kind,
                opt_str(kd[k].edges@[e].cfg),
            )
}

/// Adding a dependency whose links are those of the resolved dependency at
/// `j` keeps the links sound.
proof fn lemma_links_sound_push(
    b: BuilderModel,
    in_ws: bool,
    p: Package,
    n: ResolveNode,
    packages: Seq<Package>,
    kd: Seq<KrateDependency>,
    d: KrateDependency,
    j: int,
)
    requires
        kd_links_sound(b, in_ws, p, n, packages, kd),
        0 <= j < n.deps.len(),
        n.deps@[j].pkg@ == packages[d.pkg as int].id@,
        edges_as_links(b, in_ws, p, n, n.deps@[j], d.edges@),
    ensures
        kd_links_sound(b, in_ws, p, n, packages, kd.push(d)),
{
    reveal(kd_links_sound);
    reveal(edges_as_links);
    let kd2 = kd.push(d);
    assert forall|k: int, e: int| 0 <= k < kd2.len() && 0 <= e < kd2[k].edges@.len() implies exists|jj: int|
        0 <= jj < n.deps.len() && (#[trigger] n.deps@[jj]).pkg@ == packages[kd2[k].pkg as int].id@ && link_as(
            b,
            in_ws,
            p,
            n,
            n.deps@[jj],
            (#[trigger] kd2[k].edges@[e]).kind,
            opt_str(kd2[k].edges@[e].cfg),
        ) by {
        if k < kd.len() {
            assert(kd2[k] == kd[k]);
            assert(kd[k].edges@[e] == kd2[k].edges@[e]);
        } else {
            assert(kd2[k] == d);
            assert(link_as(b, in_ws, p, n, n.deps@[j], d.edges@[e].kind, opt_str(d.edges@[e].cfg)));
        }
    }
}

/// Each feature that one of `kd` has enabled, by a link or by the crate's
/// own features, is one that the crate `p` (resolved as `n`) enables in
/// that dependency (see [`dep_enables_by`]).
#[verifier::opaque]
pub open spec fn kd_features_sound(
    b: BuilderModel,
    in_ws: bool,
    p: Package,
    n: ResolveNode,
    nodes: Seq<ResolveNode>,
    packages: Seq<Package>,
    kd: Seq<KrateDependency>,
) -> bool {
    forall|k: int, f: Seq<char>|
        0 <= k < kd.len() && #[trigger] kd_enables(kd[k], f) ==> exists|j: int|
            0 <= j < n.deps.len() && (#[trigger] n.deps@[j]).pkg@ == packages[kd[k].pkg as int].id@
                && dep_enables_by(b, in_ws, p, n, n.deps@[j], has_default_in(nodes, n.deps@[j].pkg@), f)
}

/// Each feature that a link that stays enables in a resolved dependency of
/// the crate `p` (resolved as `n`) is enabled by a link of one of `kd` to
/// that dependency.
#[verifier::opaque]
pub open spec fn kd_covers_features(
    b: BuilderModel,
    in_ws: bool,
    p: Package,
    n: ResolveNode,
    nodes: Seq<ResolveNode>,
    packages: Seq<Package>,
    kd: Seq<KrateDependency>,
) -> bool {
    forall|j: int, f: Seq<char>|
        0 <= j < n.deps.len() && #[trigger] dep_enables_by(
            b,
            in_ws,
            p,
            n,
            n.deps@[j],
            has_default_in(nodes, n.deps@[j].pkg@),
            f,
        ) ==> exists|k: int|
            0 <= k < kd.len() && packages[(#[trigger] kd[k]).pkg as int].id@ == n.deps@[j].pkg@
                && kd_enables(kd[k], f)
}

/// Each resolved dependency of the crate `p` (resolved as `n`) with a link
/// that stays and links by itself is one of `kd`, with a link that adds an
/// edge by itself.
#[verifier::opaque]
pub open spec fn kd_covers_links(
    b: BuilderModel,
    in_ws: bool,
    p: Package,
    n: ResolveNode,
    nodes: Seq<ResolveNode>,
    packages: Seq<Package>,
    kd: Seq<KrateDependency>,
) -> bool {
    forall|j: int|
        0 <= j < n.deps.len() && dep_linked_by(
            b,
            in_ws,
            p,
            n,
            #[trigger] n.deps@[j],
            has_default_in(nodes, n.deps@[j].pkg@),
        ) ==> exists|k: int|
            0 <= k < kd.len() && packages[(#[trigger] kd[k]).pkg as int].id@ == n.deps@[j].pkg@
                && kd_makes_edge(kd[k])
}

/// Each crate that the crate `id` is linked to (see [`dep_linked`]) is the
/// package of one of `kd`, with a link that adds an edge by itself.
#[verifier::opaque]
pub open spec fn deps_cover_links(
    b: BuilderModel,
    md: Metadata,
    id: Seq<char>,
    packages: Seq<Package>,
    kd: Seq<KrateDependency>,
) -> bool {
    forall|t: Seq<char>|
        #[trigger] dep_linked(b, md, id, t) ==> exists|k: int|
            0 <= k < kd.len() && packages[(#[trigger] kd[k]).pkg as int].id@ == t && kd_makes_edge(kd[k])
}

/// Each feature that the crate `id` enables in a dependency `t` (see
/// [`dep_enables`]) is enabled by a link of one of `kd` whose package is
/// `t`.
#[verifier::opaque]
pub open spec fn deps_cover_features(
    b: BuilderModel,
    md: Metadata,
    id: Seq<char>,
    packages: Seq<Package>,
    kd: Seq<KrateDependency>,
) -> bool {
    forall|t: Seq<char>, f: Seq<char>|
        #[trigger] dep_enables(b, md, id, t, f) ==> exists|k: int|
            0 <= k < kd.len() && packages[(#[trigger] kd[k]).pkg as int].id@ == t && kd_enables(kd[k], f)
}

/// The crate `id` declares its feature `f`, and cargo resolved it on.
pub open spec fn declared_resolved(md: Metadata, id: Seq<char>, f: Seq<char>) -> bool {
    &&& item_with_id(md.packages@, id) matches Some(p) && p.features@.contains_key(f)
    &&& item_with_id(resolve_nodes(md), id) matches Some(n) && strs(n.features@).contains(f)
}

/// The feature `g` is a plain entry of the feature `f` that the crate `id`
/// declares: `f` enables the crate's own feature `g`.
pub open spec fn plain_entry(md: Metadata, id: Seq<char>, f: Seq<char>, g: Seq<char>) -> bool {
    item_with_id(md.packages@, id) matches Some(p) && p.features@.contains_key(f) && p.features@[f].contains(g)
        && feature_kind(g) == FeatureKind::Simple
}

/// The feature entries worked out for the crate `id` (the package at `me`)
/// name every feature it declares and cargo resolved on, and link to every
/// feature of the crate that their features enable directly.
#[verifier::opaque]
pub open spec fn entries_cover(
    md: Metadata,
    id: Seq<char>,
    me: int,
    entries: Seq<(String, Vec<FeatureEdge>)>,
) -> bool {
    &&& forall|f: Seq<char>| #[trigger] declared_resolved(md, id, f) ==> entry_named(entries, f)
    &&& item_with_id(md.packages@, id) matches Some(p) ==> entries_plain(entries, p.features@, me)
    &&& item_with_id(md.packages@, id) matches Some(p) ==> names_given(entries, p.features@)
}

/// The dependencies worked out for the crate `id` cover both the crates it
/// is linked to and the features it enables in them, and its feature
/// entries cover its resolved features.
#[verifier::opaque]
pub open spec fn deps_cover(
    b: BuilderModel,
    md: Metadata,
    id: Seq<char>,
    packages: Seq<Package>,
    kd: Seq<KrateDependency>,
    kf: Seq<(String, Vec<FeatureEdge>)>,
    me: int,
) -> bool {
    &&& deps_cover_links(b, md, id, packages, kd)
    &&& deps_cover_features(b, md, id, packages, kd)
    &&& deps_features_sound(b, md, id, packages, kd)
    &&& feature_entries_ok(md, id, me, packages, kf)
    &&& deps_links_sound(b, md, id, packages, kd)
}

/// The crate `from` has a link of kind `kind` and target `cfg` to its
/// dependency `to` that stays (see [`link_as`]).
pub open spec fn link_kept_as(
    b: BuilderModel,
    md: Metadata,
    from: Seq<char>,
    to: Seq<char>,
    kind: DepKind,
    cfg: Option<Seq<char>>,
) -> bool {
    let p = item_with_id(md.packages@, from);
    let n = item_with_id(resolve_nodes(md), from);
    &&& p is Some
    &&& n is Some
    &&& exists|j: int|
        0 <= j < n->0.deps.len() && (#[trigger] n->0.deps@[j]).pkg@ == to && link_as(
            b,
            in_workspace(md, from),
            p->0,
            n->0,
            n->0.deps@[j],
            kind,
            cfg,
        )
}

/// Each link of the dependencies worked out for the crate `id` has the
/// kind and target of a link that stays to that dependency.
#[verifier::opaque]
pub open spec fn deps_links_sound(
    b: BuilderModel,
    md: Metadata,
    id: Seq<char>,
    packages: Seq<Package>,
    kd: Seq<KrateDependency>,
) -> bool {
    forall|k: int, e: int|
        0 <= k < kd.len() && 0 <= e < kd[k].edges@.len() ==> link_kept_as(
            b,
            md,
            id,
            packages[kd[k].pkg as int].id@,
            (#[trigger] kd[k].edges@[e]).kind,
            opt_str(kd[k].edges@[e].cfg),
        )
}

/// The feature entries worked out for the crate `id` (the package at `me`
/// of `packages`) cover its resolved features (see [`entries_cover`]) and
/// link to the dependencies and dependency features their `dep:`,
/// `<crate>/<feature>` and `<crate>?/<feature>` entries enable.
#[verifier::opaque]
pub open spec fn feature_entries_ok(
    md: Metadata,
    id: Seq<char>,
    me: int,
    packages: Seq<Package>,
    kf: Seq<(String, Vec<FeatureEdge>)>,
) -> bool {
    &&& entries_cover(md, id, me, kf)
    &&& (item_with_id(md.packages@, id) is Some && item_with_id(resolve_nodes(md), id) is Some) ==> {
        let p = item_with_id(md.packages@, id)->0;
        let n = item_with_id(resolve_nodes(md), id)->0;
        &&& entries_dep_links(kf, p.features@, n.deps@, packages)
        &&& entries_feature_links(kf, p.features@, n.deps@, strs(n.features@), packages)
    }
}

/// The feature entries of the crate `id`, the package `p` at `me`, resolved
/// as `n`: those [`krate_features`] works out.
fn feature_entries(
    p: &Package,
    n: &ResolveNode,
    me: usize,
    packages: &Vec<Package>,
    Ghost(md): Ghost<Metadata>,
    Ghost(id): Ghost<Seq<char>>,
) -> (r: Vec<(String, Vec<FeatureEdge>)>)
    requires
        me < packages@.len(),
        strictly_sorted(id_seq(packages@)),
        forall|j: int|
            0 <= j < n.deps.len() ==> id_seq(packages@).contains((#[trigger] n.deps@[j]).pkg@),
        item_with_id(md.packages@, id) == Some(*p),
        item_with_id(resolve_nodes(md), id) == Some(*n),
    ensures
        feature_edges_valid(r@, packages@.len()),
        feature_entries_ok(md, id, me as int, packages@, r@),
{
    let r = krate_features(p, n, me, packages);
    proof {
        reveal(feature_entries_ok);
        reveal(entries_cover);
    }
    r
}

/// Covering the links, the features and the entries is covering.
proof fn lemma_deps_cover_intro(
    b: BuilderModel,
    md: Metadata,
    id: Seq<char>,
    p: Package,
    n: ResolveNode,
    packages: Seq<Package>,
    kd: Seq<KrateDependency>,
    kf: Seq<(String, Vec<FeatureEdge>)>,
    me: int,
)
    requires
        item_with_id(md.packages@, id) == Some(p),
        item_with_id(resolve_nodes(md), id) == Some(n),
        deps_cover_links(b, md, id, packages, kd),
        deps_cover_features(b, md, id, packages, kd),
        deps_features_sound(b, md, id, packages, kd),
        feature_entries_ok(md, id, me, packages, kf),
        kd_links_sound(b, in_workspace(md, id), p, n, packages, kd),
    ensures
        deps_cover(b, md, id, packages, kd, kf, me),
{
    reveal(deps_cover);
    reveal(deps_links_sound);
    reveal(kd_links_sound);
    assert forall|k: int, e: int| 0 <= k < kd.len() && 0 <= e < kd[k].edges@.len() implies link_kept_as(
        b,
        md,
        id,
        packages[kd[k].pkg as int].id@,
        (#[trigger] kd[k].edges@[e]).kind,
        opt_str(kd[k].edges@[e].cfg),
    ) by {
        let x = kd[k].edges@[e];
        assert(kd_links_sound(b, in_workspace(md, id), p, n, packages, kd));
        let j = choose|j: int|
            0 <= j < n.deps.len() && (#[trigger] n.deps@[j]).pkg@ == packages[kd[k].pkg as int].id@ && link_as(
                b,
                in_workspace(md, id),
                p,
                n,
                n.deps@[j],
                kd[k].edges@[e].kind,
                opt_str(kd[k].edges@[e].cfg),
            );
        assert(n.deps@[j].pkg@ == packages[kd[k].pkg as int].id@);
        assert(item_with_id(resolve_nodes(md), id)->0 == n);
        assert(item_with_id(md.packages@, id)->0 == p);
        assert(link_as(b, in_workspace(md, id), p, n, n.deps@[j], x.kind, opt_str(x.cfg)));
    }
}

/// Marking the crate at `w` (with its dependencies covered, if it is marked
/// as processed) keeps the dependencies of every processed crate covered.
proof fn lemma_cover_step(
    b: BuilderModel,
    md: Metadata,
    packages: Seq<Package>,
    n: int,
    old_state: Seq<u8>,
    state: Seq<u8>,
    old_deps: Seq<Vec<KrateDependency>>,
    deps: Seq<Vec<KrateDependency>>,
    old_feats: Seq<Vec<(String, Vec<FeatureEdge>)>>,
    feats: Seq<Vec<(String, Vec<FeatureEdge>)>>,
    w: int,
    v: u8,
)
    requires
        0 <= w < n,
        packages.len() == n,
        old_state.len() == n,
        old_deps.len() == n,
        deps.len() == n,
        old_feats.len() == n,
        feats.len() == n,
        forall|j: int|
            0 <= j < n && old_state[j] == 1 ==> #[trigger] deps_cover(
                b,
                md,
                packages[j].id@,
                packages,
                old_deps[j]@,
                old_feats[j]@,
                j,
            ),
        state == old_state.update(w, v),
        forall|j: int| 0 <= j < n && j != w ==> deps[j] == old_deps[j] && feats[j] == old_feats[j],
        v == 1 ==> deps_cover(b, md, packages[w].id@, packages, deps[w]@, feats[w]@, w),
    ensures
        forall|j: int|
            0 <= j < n && state[j] == 1 ==> #[trigger] deps_cover(
                b,
                md,
                packages[j].id@,
                packages,
                deps[j]@,
                feats[j]@,
                j,
            ),
{
    assert forall|j: int| 0 <= j < n && state[j] == 1 implies #[trigger] deps_cover(
        b,
        md,
        packages[j].id@,
        packages,
        deps[j]@,
        feats[j]@,
        j,
    ) by {
        if j != w {
            assert(old_state[j] == 1);
            assert(deps[j] == old_deps[j]);
            assert(feats[j] == old_feats[j]);
        }
    }
}

/// Each feature that one of `kd` has enabled is one that the crate `id`
/// enables in that dependency (see [`dep_enables`]).
#[verifier::opaque]
pub open spec fn deps_features_sound(
    b: BuilderModel,
    md: Metadata,
    id: Seq<char>,
    packages: Seq<Package>,
    kd: Seq<KrateDependency>,
) -> bool {
    forall|k: int, f: Seq<char>|
        0 <= k < kd.len() && #[trigger] kd_enables(kd[k], f) ==> dep_enables(
            b,
            md,
            id,
            packages[kd[k].pkg as int].id@,
            f,
        )
}

/// The features enabled in the dependencies worked out for the crate `id`
/// of the metadata are the ones it enables in them.
proof fn lemma_features_sound(
    b: BuilderModel,
    md: Metadata,
    id: Seq<char>,
    p: Package,
    n: ResolveNode,
    in_ws: bool,
    nodes: Seq<ResolveNode>,
    packages: Seq<Package>,
    kd: Seq<KrateDependency>,
)
    requires
        item_with_id(md.packages@, id) == Some(p),
        item_with_id(resolve_nodes(md), id) == Some(n),
        in_ws == in_workspace(md, id),
        nodes.to_multiset() == resolve_nodes(md).to_multiset(),
        id_seq(resolve_nodes(md)).no_duplicates(),
        strictly_sorted(id_seq(nodes)),
        kd_features_sound(b, in_ws, p, n, nodes, packages, kd),
    ensures
        deps_features_sound(b, md, id, packages, kd),
{
    reveal(kd_features_sound);
    reveal(deps_features_sound);
    assert forall|k: int, f: Seq<char>| 0 <= k < kd.len() && #[trigger] kd_enables(kd[k], f) implies dep_enables(
        b,
        md,
        id,
        packages[kd[k].pkg as int].id@,
        f,
    ) by {
        let t = packages[kd[k].pkg as int].id@;
        let j = choose|j: int|
            0 <= j < n.deps.len() && (#[trigger] n.deps@[j]).pkg@ == t && dep_enables_by(
                b,
                in_ws,
                p,
                n,
                n.deps@[j],
                has_default_in(nodes, n.deps@[j].pkg@),
                f,
            );
        crate::set::lemma_sorted_no_dup(id_seq(nodes));
        lemma_item_with_id_same(resolve_nodes(md), nodes, t);
        assert(has_default_in(resolve_nodes(md), t) == has_default_in(nodes, t));
        let nn = item_with_id(resolve_nodes(md), id);
        let pp = item_with_id(md.packages@, id);
        assert(nn->0 == n && pp->0 == p);
        assert(nn->0.deps@[j].pkg@ == t);
        assert(dep_enables_by(b, in_workspace(md, id), pp->0, nn->0, nn->0.deps@[j], has_default_in(resolve_nodes(md), t), f));
    }
}

/// The dependencies worked out for the crate `id` of the metadata cover
/// the features it enables in them.
proof fn lemma_features_covered(
    b: BuilderModel,
    md: Metadata,
    id: Seq<char>,
    p: Package,
    n: ResolveNode,
    in_ws: bool,
    nodes: Seq<ResolveNode>,
    packages: Seq<Package>,
    kd: Seq<KrateDependency>,
)
    requires
        item_with_id(md.packages@, id) == Some(p),
        item_with_id(resolve_nodes(md), id) == Some(n),
        in_ws == in_workspace(md, id),
        nodes.to_multiset() == resolve_nodes(md).to_multiset(),
        id_seq(resolve_nodes(md)).no_duplicates(),
        strictly_sorted(id_seq(nodes)),
        kd_covers_features(b, in_ws, p, n, nodes, packages, kd),
    ensures
        deps_cover_features(b, md, id, packages, kd),
{
    reveal(kd_covers_features);
    reveal(deps_cover_features);
    assert forall|t: Seq<char>, f: Seq<char>| #[trigger] dep_enables(b, md, id, t, f) implies exists|k: int|
        0 <= k < kd.len() && packages[(#[trigger] kd[k]).pkg as int].id@ == t && kd_enables(kd[k], f) by {
        let nn = item_with_id(resolve_nodes(md), id);
        let pp = item_with_id(md.packages@, id);
        assert(nn->0 == n && pp->0 == p);
        let j = choose|j: int|
            0 <= j < nn->0.deps.len() && (#[trigger] nn->0.deps@[j]).pkg@ == t && dep_enables_by(
                b,
                in_workspace(md, id),
                pp->0,
                nn->0,
                nn->0.deps@[j],
                has_default_in(resolve_nodes(md), t),
                f,
            );
        crate::set::lemma_sorted_no_dup(id_seq(nodes));
        lemma_item_with_id_same(resolve_nodes(md), nodes, t);
        assert(has_default_in(resolve_nodes(md), t) == has_default_in(nodes, t));
        assert(dep_enables_by(b, in_ws, p, n, n.deps@[j], has_default_in(nodes, n.deps@[j].pkg@), f));
    }
}

/// The dependencies worked out for the crate `id` of the metadata cover
/// the crates it is linked to.
proof fn lemma_links_covered(
    b: BuilderModel,
    md: Metadata,
    id: Seq<char>,
    p: Package,
    n: ResolveNode,
    in_ws: bool,
    nodes: Seq<ResolveNode>,
    packages: Seq<Package>,
    kd: Seq<KrateDependency>,
)
    requires
        item_with_id(md.packages@, id) == Some(p),
        item_with_id(resolve_nodes(md), id) == Some(n),
        in_ws == in_workspace(md, id),
        nodes.to_multiset() == resolve_nodes(md).to_multiset(),
        id_seq(resolve_nodes(md)).no_duplicates(),
        strictly_sorted(id_seq(nodes)),
        kd_covers_links(b, in_ws, p, n, nodes, packages, kd),
    ensures
        deps_cover_links(b, md, id, packages, kd),
{
    reveal(kd_covers_links);
    reveal(deps_cover_links);
    assert forall|t: Seq<char>| #[trigger] dep_linked(b, md, id, t) implies exists|k: int|
        0 <= k < kd.len() && packages[(#[trigger] kd[k]).pkg as int].id@ == t && kd_makes_edge(kd[k]) by {
        let nn = item_with_id(resolve_nodes(md), id);
        let pp = item_with_id(md.packages@, id);
        assert(nn->0 == n && pp->0 == p);
        let j = choose|j: int|
            0 <= j < nn->0.deps.len() && (#[trigger] nn->0.deps@[j]).pkg@ == t && dep_linked_by(
                b,
                in_workspace(md, id),
                pp->0,
                nn->0,
                nn->0.deps@[j],
                has_default_in(resolve_nodes(md), t),
            );
        crate::set::lemma_sorted_no_dup(id_seq(nodes));
        lemma_item_with_id_same(resolve_nodes(md), nodes, t);
        assert(has_default_in(resolve_nodes(md), t) == has_default_in(nodes, t));
        assert(dep_linked_by(b, in_ws, p, n, n.deps@[j], has_default_in(nodes, n.deps@[j].pkg@)));
    }
}

} // verus!

verus! {

/// What a feature entry links to in the crate it names.
#[derive(Debug)]
pub enum FeatureEdgeName {
    /// A feature of that crate.
    Feature(String),
    /// The crate itself, under the name the dependency was renamed to.
    Rename(String),
    /// The crate itself.
    Krate,
}

/// A link from a feature to a crate (the position of its package among the
/// sorted packages) or to one of its features.
#[derive(Debug)]
pub struct FeatureEdge {
    pub kid: usize,
    pub name: FeatureEdgeName,
}

/// The links of each feature: the features and crates they point at.
pub open spec fn feature_edges_valid(v: Seq<(String, Vec<FeatureEdge>)>, n: nat) -> bool {
    forall|i: int, j: int|
        0 <= i < v.len() && 0 <= j < v[i].1@.len() ==> (#[trigger] v[i].1@[j]).kid < n
}

/// The resolved dependency at `j` is the first that `name` stands for (see
/// [`names_dep`]).
pub open spec fn first_named(deps: Seq<NodeDep>, name: Seq<char>, j: int) -> bool {
    &&& 0 <= j < deps.len()
    &&& names_dep(name, deps[j].name@, crate_name(deps[j].pkg@))
    &&& forall|q: int| 0 <= q < j ==> !names_dep(name, (#[trigger] deps[q]).name@, crate_name(deps[q].pkg@))
}

/// The crate a `dep:<crate>` entry `s` enables, where the first resolved
/// dependency it stands for goes by its crate name, unrenamed.
pub open spec fn dep_entry_pkg(deps: Seq<NodeDep>, s: Seq<char>) -> Option<Seq<char>> {
    if feature_kind(s) == FeatureKind::Krate && exists|j: int| first_named(deps, s.skip(4), j) {
        let j = choose|j: int| first_named(deps, s.skip(4), j);
        if crate_name(deps[j].pkg@) == s.skip(4) {
            Some(deps[j].pkg@)
        } else {
            None
        }
    } else {
        None
    }
}

/// The dependency and feature a `<crate>/<feature>` entry `s` enables, or a
/// `<crate>?/<feature>` entry where the crate's own enabled features
/// `enabled` hold `<crate>`: the first resolved dependency `<crate>` stands
/// for, and `<feature>`. For a `dep:<name>` entry whose dependency is
/// renamed to `<name>`: that dependency, and `<name>`.
pub open spec fn feature_entry_target(deps: Seq<NodeDep>, enabled: Seq<Seq<char>>, s: Seq<char>) -> Option<
    (Seq<char>, Seq<char>),
> {
    match feature_kind(s) {
        FeatureKind::Strong(i) => if exists|j: int| first_named(deps, s.take(i as int), j) {
            Some((deps[choose|j: int| first_named(deps, s.take(i as int), j)].pkg@, s.skip(i + 1)))
        } else {
            None
        },
        FeatureKind::Weak(i) => if enabled.contains(s.take(i as int)) && exists|j: int|
            first_named(deps, s.take(i as int), j) {
            Some((deps[choose|j: int| first_named(deps, s.take(i as int), j)].pkg@, s.skip(i + 2)))
        } else {
            None
        },
        FeatureKind::Krate => if exists|j: int| first_named(deps, s.skip(4), j) {
            let j = choose|j: int| first_named(deps, s.skip(4), j);
            if crate_name(deps[j].pkg@) != s.skip(4) {
                Some((deps[j].pkg@, s.skip(4)))
            } else {
                None
            }
        } else {
            None
        },
        _ => None,
    }
}

/// Whether the link is to the feature (or renamed dependency) `tz.1` of the
/// package `tz.0`, one of `packages`.
pub open spec fn feature_link_to(e: FeatureEdge, packages: Seq<Package>, tz: (Seq<char>, Seq<char>)) -> bool {
    link_name(e) == Some(tz.1) && e.kid < packages.len() && packages[e.kid as int].id@ == tz.0
}

/// The package position of the first resolved dependency that the name
/// stands for: the dependency's name (with `-` for `_`) or its crate name.
fn dep_index_named(n: &ResolveNode, name: &str, packages: &Vec<Package>) -> (r: Option<usize>)
    requires
        strictly_sorted(id_seq(packages@)),
        forall|j: int|
            0 <= j < n.deps.len() ==> id_seq(packages@).contains((#[trigger] n.deps@[j]).pkg@),
    ensures
        r matches Some(i) ==> i < packages@.len(),
        forall|j: int| #[trigger] first_named(n.deps@, name@, j) ==> (r matches Some(i) && packages@[i as int].id@ == n.deps@[j].pkg@),
{
    let mut i: usize = 0;
    while i < n.deps.len()
        invariant
            i <= n.deps@.len(),
            strictly_sorted(id_seq(packages@)),
            forall|j: int|
                0 <= j < n.deps.len() ==> id_seq(packages@).contains((#[trigger] n.deps@[j]).pkg@),
            forall|q: int| 0 <= q < i ==> !names_dep(name@, (#[trigger] n.deps@[q]).name@, crate_name(n.deps@[q].pkg@)),
        decreases n.deps.len() - i,
    {
        let nd = &n.deps[i];
        let pkg_name = crate_name_from_pid(&nd.pkg);
        if dep_names_match(name, nd.name.as_str()) || str_eq(name, pkg_name.as_str()) {
            let r = find_by_id(packages, &nd.pkg);
            proof {
                assert(n.deps@[i as int] == *nd);
                assert(names_dep(name@, n.deps@[i as int].name@, crate_name(n.deps@[i as int].pkg@)));
                assert(id_seq(packages@).contains(nd.pkg@));
                if r is None {
                    let q = choose|q: int| 0 <= q < id_seq(packages@).len() && id_seq(packages@)[q] == nd.pkg@;
                    assert(packages@[q].id_view() == nd.pkg@);
                }
                assert forall|j: int| #[trigger] first_named(n.deps@, name@, j) implies (r matches Some(x)
                    && packages@[x as int].id@ == n.deps@[j].pkg@) by {
                    if j > i {
                        assert(!names_dep(name@, n.deps@[i as int].name@, crate_name(n.deps@[i as int].pkg@)));
                    }
                }
            }
            return r;
        }
        i += 1;
    }
    None
}

/// Whether the link is to the feature `g` of the crate itself (the package
/// at `me`).
pub open spec fn plain_link(e: FeatureEdge, me: int, g: Seq<char>) -> bool {
    e.kid == me && (e.name matches FeatureEdgeName::Feature(s) && s@ == g)
}

/// Each entry's links hold a link to every feature of the crate that the
/// entry's feature enables directly (package features `fm`, crate at `me`).
pub open spec fn entries_plain(
    entries: Seq<(String, Vec<FeatureEdge>)>,
    fm: Map<Seq<char>, Seq<Seq<char>>>,
    me: int,
) -> bool {
    forall|a: int, g: Seq<char>|
        0 <= a < entries.len() && fm.contains_key(entries[a].0@) && #[trigger] fm[entries[a].0@].contains(g)
            && feature_kind(g) == FeatureKind::Simple ==> exists|c: int|
            0 <= c < entries[a].1@.len() && plain_link(#[trigger] entries[a].1@[c], me, g)
}

/// Whether the link is to the crate of the package `t`, one of `packages`.
pub open spec fn krate_link_to(e: FeatureEdge, packages: Seq<Package>, t: Seq<char>) -> bool {
    e.name is Krate && e.kid < packages.len() && packages[e.kid as int].id@ == t
}

/// Each entry's links hold a link to the crate of every dependency that a
/// `dep:` entry of the entry's feature enables (see [`dep_entry_pkg`];
/// package features `fm`, resolved dependencies `deps`).
#[verifier::opaque]
pub open spec fn entries_dep_links(
    entries: Seq<(String, Vec<FeatureEdge>)>,
    fm: Map<Seq<char>, Seq<Seq<char>>>,
    deps: Seq<NodeDep>,
    packages: Seq<Package>,
) -> bool {
    forall|a: int, s: Seq<char>|
        0 <= a < entries.len() && fm.contains_key(entries[a].0@) && #[trigger] fm[entries[a].0@].contains(s)
            && dep_entry_pkg(deps, s) is Some ==> exists|c: int|
            0 <= c < entries[a].1@.len() && krate_link_to(#[trigger] entries[a].1@[c], packages, dep_entry_pkg(deps, s)->0)
}

/// Each entry's links hold a link to every feature of a dependency that a
/// `<crate>/<feature>` or `<crate>?/<feature>` entry of the entry's feature
/// enables (see [`feature_entry_target`]; package features `fm`, resolved
/// dependencies `deps`, resolved features `enabled`).
#[verifier::opaque]
pub open spec fn entries_feature_links(
    entries: Seq<(String, Vec<FeatureEdge>)>,
    fm: Map<Seq<char>, Seq<Seq<char>>>,
    deps: Seq<NodeDep>,
    enabled: Seq<Seq<char>>,
    packages: Seq<Package>,
) -> bool {
    forall|a: int, s: Seq<char>|
        0 <= a < entries.len() && fm.contains_key(entries[a].0@) && #[trigger] fm[entries[a].0@].contains(s)
            && feature_entry_target(deps, enabled, s) is Some ==> exists|c: int|
            0 <= c < entries[a].1@.len() && feature_link_to(
                #[trigger] entries[a].1@[c],
                packages,
                feature_entry_target(deps, enabled, s)->0,
            )
}

/// The name the entry `s` gives: the dependency of a `dep:` entry, the
/// feature of a `<crate>?/<feature>` or `<crate>/<feature>` entry, or the
/// entry itself.
pub open spec fn entry_name(s: Seq<char>) -> Seq<char> {
    match feature_kind(s) {
        FeatureKind::Krate => s.skip(4),
        FeatureKind::Weak(i) => s.skip(i + 2),
        FeatureKind::Strong(i) => s.skip(i + 1),
        FeatureKind::Simple => s,
    }
}

/// Each name that a link of the entries gives is given by an entry of one of
/// the declared features.
#[verifier::opaque]
pub open spec fn names_given(
    entries: Seq<(String, Vec<FeatureEdge>)>,
    features: Map<Seq<char>, Seq<Seq<char>>>,
) -> bool {
    forall|x: Seq<char>| #[trigger] entries_name(entries, x) ==> entries_give(features, x)
}

/// Whether an entry of one of the declared features gives the name `x`.
pub open spec fn entries_give(features: Map<Seq<char>, Seq<Seq<char>>>, x: Seq<char>) -> bool {
    exists|f: Seq<char>, q: int|
        features.contains_key(f) && 0 <= q < features[f].len() && #[trigger] entry_name(features[f][q]) == x
}

/// The links of one entry of a feature's list, if it has one: `dep:crate`
/// links to the crate (under its rename, if renamed); `feature` links to
/// the crate's own feature; `crate/feature` to the dependency's feature, and
/// `crate?/feature` too where the crate's resolved features enable the
/// dependency. An entry naming no resolved dependency has no link.
fn feature_entry_edge(
    n: &ResolveNode,
    entry: &str,
    self_idx: usize,
    packages: &Vec<Package>,
) -> (r: Option<FeatureEdge>)
    requires
        self_idx < packages@.len(),
        strictly_sorted(id_seq(packages@)),
        forall|j: int|
            0 <= j < n.deps.len() ==> id_seq(packages@).contains((#[trigger] n.deps@[j]).pkg@),
    ensures
        r matches Some(e) ==> e.kid < packages@.len(),
        feature_kind(entry@) == FeatureKind::Simple ==> (r matches Some(e) && plain_link(e, self_idx as int, entry@)),
        r matches Some(e) ==> (link_name(e) matches Some(x) ==> x == entry_name(entry@)),
        dep_entry_pkg(n.deps@, entry@) matches Some(t) ==> (r matches Some(e) && e.name is Krate && e.kid
            < packages@.len() && packages@[e.kid as int].id@ == t),
        feature_entry_target(n.deps@, strs(n.features@), entry@) matches Some(tz) ==> (r matches Some(e)
            && feature_link_to(e, packages@, tz)),
{
    let parsed = ParsedFeature::from(entry);
    match parsed.feat() {
        Feature::Krate(name) => {
            let kid = match dep_index_named(n, name.as_str(), packages) {
                Some(kid) => kid,
                None => return None,
            };
            let real_name = crate_name_from_pid(&packages[kid].id);
            if !str_eq(real_name.as_str(), name.as_str()) {
                Some(FeatureEdge { kid, name: FeatureEdgeName::Rename(name) })
            } else {
                Some(FeatureEdge { kid, name: FeatureEdgeName::Krate })
            }
        },
        Feature::Simple(name) => Some(FeatureEdge { kid: self_idx, name: FeatureEdgeName::Feature(name) }),
        Feature::Strong { krate, feature } => {
            let kid = match dep_index_named(n, krate.as_str(), packages) {
                Some(kid) => kid,
                None => return None,
            };
            Some(FeatureEdge { kid, name: FeatureEdgeName::Feature(feature) })
        },
        Feature::Weak { krate, feature } => {
            if contains_str(&n.features, krate.as_str()) {
                let kid = match dep_index_named(n, krate.as_str(), packages) {
                    Some(kid) => kid,
                    None => return None,
                };
                Some(FeatureEdge { kid, name: FeatureEdgeName::Feature(feature) })
            } else {
                None
            }
        },
    }
}

/// The crate's enabled features, in the order cargo resolved them, each with
/// the links of its entries; an enabled feature the package does not
/// declare is left out.
fn krate_features(p: &Package, n: &ResolveNode, self_idx: usize, packages: &Vec<Package>) -> (r: Vec<
    (String, Vec<FeatureEdge>),
>)
    requires
        self_idx < packages@.len(),
        strictly_sorted(id_seq(packages@)),
        forall|j: int|
            0 <= j < n.deps.len() ==> id_seq(packages@).contains((#[trigger] n.deps@[j]).pkg@),
    ensures
        feature_edges_valid(r@, packages@.len()),
        forall|f: Seq<char>| strs(n.features@).contains(f) && p.features@.contains_key(f) ==> entry_named(r@, f),
        entries_plain(r@, p.features@, self_idx as int),
        names_given(r@, p.features@),
        entries_dep_links(r@, p.features@, n.deps@, packages@),
        entries_feature_links(r@, p.features@, n.deps@, strs(n.features@), packages@),
{
    let mut r: Vec<(String, Vec<FeatureEdge>)> = Vec::new();
    let mut i: usize = 0;
    while i < n.features.len()
        invariant
            entries_plain(r@, p.features@, self_idx as int),
            forall|q: int|
                0 <= q < i && p.features@.contains_key(#[trigger] n.features@[q]@) ==> entry_named(r@, n.features@[q]@),
            i <= n.features@.len(),
            self_idx < packages@.len(),
            strictly_sorted(id_seq(packages@)),
            forall|j: int|
                0 <= j < n.deps.len() ==> id_seq(packages@).contains((#[trigger] n.deps@[j]).pkg@),
            feature_edges_valid(r@, packages@.len()),
            forall|x: Seq<char>| #[trigger] entries_name(r@, x) ==> entries_give(p.features@, x),
            forall|a: int, s: Seq<char>|
                0 <= a < r@.len() && p.features@.contains_key(r@[a].0@) && #[trigger] p.features@[r@[a].0@].contains(s)
                    && dep_entry_pkg(n.deps@, s) is Some ==> exists|c: int|
                    0 <= c < r@[a].1@.len() && krate_link_to(#[trigger] r@[a].1@[c], packages@, dep_entry_pkg(n.deps@, s)->0),
            forall|a: int, s: Seq<char>|
                0 <= a < r@.len() && p.features@.contains_key(r@[a].0@) && #[trigger] p.features@[r@[a].0@].contains(s)
                    && feature_entry_target(n.deps@, strs(n.features@), s) is Some ==> exists|c: int|
                    0 <= c < r@[a].1@.len() && feature_link_to(
                        #[trigger] r@[a].1@[c],
                        packages@,
                        feature_entry_target(n.deps@, strs(n.features@), s)->0,
                    ),
        decreases n.features.len() - i,
    {
        let feat = &n.features[i];
        if let Some(subs) = p.features.get(feat.as_str()) {
            let mut edges: Vec<FeatureEdge> = Vec::new();
            let mut j: usize = 0;
            while j < subs.len()
                invariant
                    j <= subs@.len(),
                    self_idx < packages@.len(),
                    strictly_sorted(id_seq(packages@)),
                    forall|q: int|
                        0 <= q < n.deps.len() ==> id_seq(packages@).contains((#[trigger] n.deps@[q]).pkg@),
                    forall|q: int| 0 <= q < edges@.len() ==> (#[trigger] edges@[q]).kid < packages@.len(),
                    forall|q: int|
                        0 <= q < j && feature_kind(#[trigger] subs@[q]@) == FeatureKind::Simple ==> exists|c: int|
                            0 <= c < edges@.len() && plain_link(#[trigger] edges@[c], self_idx as int, subs@[q]@),
                    forall|c: int|
                        0 <= c < edges@.len() ==> (link_name(#[trigger] edges@[c]) matches Some(x) ==> exists|q: int|
                            0 <= q < subs@.len() && x == entry_name(#[trigger] subs@[q]@)),
                    forall|q: int|
                        0 <= q < j && (dep_entry_pkg(n.deps@, #[trigger] subs@[q]@) is Some) ==> exists|c: int|
                            0 <= c < edges@.len() && krate_link_to(#[trigger] edges@[c], packages@, dep_entry_pkg(n.deps@, subs@[q]@)->0),
                    forall|q: int|
                        0 <= q < j && (feature_entry_target(n.deps@, strs(n.features@), #[trigger] subs@[q]@) is Some) ==> exists|c: int|
                            0 <= c < edges@.len() && feature_link_to(
                                #[trigger] edges@[c],
                                packages@,
                                feature_entry_target(n.deps@, strs(n.features@), subs@[q]@)->0,
                            ),
                decreases subs.len() - j,
            {
                let ghost before_edges = edges@;
                if let Some(e) = feature_entry_edge(n, subs[j].as_str(), self_idx, packages) {
                    edges.push(e);
                    proof {
                        assert(edges@[before_edges.len() as int] == e);
                        assert forall|q: int|
                            0 <= q < j && feature_kind(#[trigger] subs@[q]@) == FeatureKind::Simple implies exists|c: int|
                                0 <= c < edges@.len() && plain_link(#[trigger] edges@[c], self_idx as int, subs@[q]@) by {
                            let c = choose|c: int| 0 <= c < before_edges.len() && plain_link(#[trigger] before_edges[c], self_idx as int, subs@[q]@);
                            assert(edges@[c] == before_edges[c]);
                        }
                        assert forall|c: int| 0 <= c < edges@.len() implies (link_name(#[trigger] edges@[c]) matches Some(x) ==> exists|q: int|
                            0 <= q < subs@.len() && x == entry_name(#[trigger] subs@[q]@)) by {
                            if c < before_edges.len() {
                                assert(edges@[c] == before_edges[c]);
                            } else if link_name(edges@[c]) is Some {
                                assert(link_name(edges@[c])->0 == entry_name(subs@[j as int]@));
                            }
                        }
                        assert forall|q: int|
                            0 <= q < j + 1 && (dep_entry_pkg(n.deps@, #[trigger] subs@[q]@) is Some) implies exists|c: int|
                                0 <= c < edges@.len() && krate_link_to(#[trigger] edges@[c], packages@, dep_entry_pkg(n.deps@, subs@[q]@)->0) by {
                            if q < j {
                                let c = choose|c: int|
                                    0 <= c < before_edges.len() && krate_link_to(#[trigger] before_edges[c], packages@, dep_entry_pkg(n.deps@, subs@[q]@)->0);
                                assert(edges@[c] == before_edges[c]);
                            } else {
                                assert(krate_link_to(edges@[before_edges.len() as int], packages@, dep_entry_pkg(n.deps@, subs@[q]@)->0));
                            }
                        }
                        assert forall|q: int|
                            0 <= q < j + 1 && (feature_entry_target(n.deps@, strs(n.features@), #[trigger] subs@[q]@) is Some) implies exists|c: int|
                                0 <= c < edges@.len() && feature_link_to(
                                    #[trigger] edges@[c],
                                    packages@,
                                    feature_entry_target(n.deps@, strs(n.features@), subs@[q]@)->0,
                                ) by {
                            let tz = feature_entry_target(n.deps@, strs(n.features@), subs@[q]@)->0;
                            if q < j {
                                let c = choose|c: int|
                                    0 <= c < before_edges.len() && feature_link_to(#[trigger] before_edges[c], packages@, tz);
                                assert(edges@[c] == before_edges[c]);
                            } else {
                                assert(feature_link_to(edges@[before_edges.len() as int], packages@, tz));
                            }
                        }
                    }
                }
                j += 1;
            }
            let ghost prev = r@;
            let name = feat.clone();
            r.push((name, edges));
            proof {
                assert forall|a: int, c: int| 0 <= a < r@.len() && 0 <= c < r@[a].1@.len() implies (#[trigger] r@[a].1@[c]).kid
                    < packages@.len() by {
                    if a < prev.len() {
                        assert(r@[a] == prev[a]);
                    }
                }
                assert(r@[prev.len() as int].0@ == n.features@[i as int]@);
                assert forall|a: int, g: Seq<char>|
                    0 <= a < r@.len() && p.features@.contains_key(r@[a].0@) && #[trigger] p.features@[r@[a].0@].contains(g)
                        && feature_kind(g) == FeatureKind::Simple implies exists|c: int|
                        0 <= c < r@[a].1@.len() && plain_link(#[trigger] r@[a].1@[c], self_idx as int, g) by {
                    if a < prev.len() {
                        assert(r@[a] == prev[a]);
                    } else {
                        assert(r@[a].1 == edges);
                        assert(p.features@[feat@] == strs(subs@));
                        let q = choose|q: int| 0 <= q < strs(subs@).len() && strs(subs@)[q] == g;
                        assert(subs@[q]@ == g);
                    }
                }
                assert forall|a: int, s: Seq<char>|
                    0 <= a < r@.len() && p.features@.contains_key(r@[a].0@) && #[trigger] p.features@[r@[a].0@].contains(s)
                        && dep_entry_pkg(n.deps@, s) is Some implies exists|c: int|
                        0 <= c < r@[a].1@.len() && krate_link_to(#[trigger] r@[a].1@[c], packages@, dep_entry_pkg(n.deps@, s)->0) by {
                    if a < prev.len() {
                        assert(r@[a] == prev[a]);
                    } else {
                        assert(r@[a].1 == edges);
                        assert(p.features@[feat@] == strs(subs@));
                        let q = choose|q: int| 0 <= q < strs(subs@).len() && strs(subs@)[q] == s;
                        assert(subs@[q]@ == s);
                    }
                }
                assert forall|a: int, s: Seq<char>|
                    0 <= a < r@.len() && p.features@.contains_key(r@[a].0@) && #[trigger] p.features@[r@[a].0@].contains(s)
                        && feature_entry_target(n.deps@, strs(n.features@), s) is Some implies exists|c: int|
                        0 <= c < r@[a].1@.len() && feature_link_to(
                            #[trigger] r@[a].1@[c],
                            packages@,
                            feature_entry_target(n.deps@, strs(n.features@), s)->0,
                        ) by {
                    if a < prev.len() {
                        assert(r@[a] == prev[a]);
                    } else {
                        assert(r@[a].1 == edges);
                        assert(p.features@[feat@] == strs(subs@));
                        let q = choose|q: int| 0 <= q < strs(subs@).len() && strs(subs@)[q] == s;
                        assert(subs@[q]@ == s);
                    }
                }
                assert forall|x: Seq<char>| #[trigger] entries_name(r@, x) implies entries_give(p.features@, x) by {
                    let (a, c) = choose|a: int, c: int|
                        0 <= a < r@.len() && 0 <= c < r@[a].1@.len() && #[trigger] link_name(r@[a].1@[c]) == Some(x);
                    if a < prev.len() {
                        assert(r@[a] == prev[a]);
                        assert(entries_name(prev, x));
                    } else {
                        assert(r@[a].1 == edges);
                        let q = choose|q: int| 0 <= q < subs@.len() && x == entry_name(#[trigger] subs@[q]@);
                        assert(p.features@[feat@] == strs(subs@));
                        assert(strs(subs@)[q] == subs@[q]@);
                        assert(entry_name(p.features@[feat@][q]) == x);
                    }
                }
                assert forall|q: int|
                    0 <= q < i + 1 && p.features@.contains_key(#[trigger] n.features@[q]@) implies entry_named(
                        r@,
                        n.features@[q]@,
                    ) by {
                    if q < i {
                        let a = choose|a: int| 0 <= a < prev.len() && (#[trigger] prev[a]).0@ == n.features@[q]@;
                        assert(r@[a] == prev[a]);
                    }
                }
            }
        }
        i += 1;
    }
    proof {
        reveal(names_given);
        reveal(entries_dep_links);
        reveal(entries_feature_links);
        assert forall|f: Seq<char>| strs(n.features@).contains(f) && p.features@.contains_key(f) implies entry_named(r@, f) by {
            let q = choose|q: int| 0 <= q < strs(n.features@).len() && strs(n.features@)[q] == f;
            assert(n.features@[q]@ == f);
        }
    }
    r
}

} // verus!

verus! {

/// The number of marked (non-zero) entries.
pub open spec fn marked_count(s: Seq<u8>) -> nat
    decreases s.len(),
{
    if s.len() == 0 {
        0
    } else {
        marked_count(s.drop_last()) + if s.last() != 0 {
            1nat
        } else {
            0nat
        }
    }
}

proof fn lemma_marked_count_bound(s: Seq<u8>)
    ensures
        marked_count(s) <= s.len(),
    decreases s.len(),
{
    if s.len() > 0 {
        lemma_marked_count_bound(s.drop_last());
    }
}

proof fn lemma_marked_count_mark(s: Seq<u8>, i: int, v: u8)
    requires
        0 <= i < s.len(),
        s[i] == 0,
        v != 0,
    ensures
        marked_count(s.update(i, v)) == marked_count(s) + 1,
    decreases s.len(),
{
    let t = s.update(i, v);
    if i == s.len() - 1 {
        assert(t.drop_last() =~= s.drop_last());
    } else {
        lemma_marked_count_mark(s.drop_last(), i, v);
        assert(t.drop_last() =~= s.drop_last().update(i, v));
    }
}

/// Whether one of the exclusions matches the package.
fn is_excluded(exclude: &Vec<PkgSpec>, p: &Package, Ghost(b): Ghost<BuilderModel>) -> (r: bool)
    requires
        b.exclude == exclude@.map_values(|e: PkgSpec| e@),
        forall|j: int| 0 <= j < b.exclude.len() ==> source_url_defined(#[trigger] b.exclude[j], *p),
    ensures
        r == excluded(b, *p),
{
    let mut j: usize = 0;
    while j < exclude.len()
        invariant
            j <= exclude@.len(),
            b.exclude == exclude@.map_values(|e: PkgSpec| e@),
            forall|q: int| 0 <= q < b.exclude.len() ==> source_url_defined(#[trigger] b.exclude[q], *p),
            forall|q: int| 0 <= q < j ==> !pkgspec_matches(#[trigger] b.exclude[q], *p),
        decreases exclude.len() - j,
    {
        assert(b.exclude[j as int] == exclude@[j as int]@);
        if exclude[j].matches(p) {
            return true;
        }
        j += 1;
    }
    false
}

/// The crate `id` is at the end of a path from a root whose crates before
/// it are included, each a kept dependency of the one before.
pub open spec fn on_path(b: BuilderModel, md: Metadata, id: Seq<char>) -> bool {
    exists|path: Seq<Seq<char>>|
        {
            &&& path.len() > 0
            &&& root_ids(b, md).contains(path[0])
            &&& forall|i: int| 0 <= i < path.len() - 1 ==> included(b, md, #[trigger] path[i])
            &&& forall|i: int| 0 <= i < path.len() - 1 ==> dep_step(b, md, #[trigger] path[i], path[i + 1])
            &&& path.last() == id
        }
}

/// What the walk over the crates needs: the packages and the resolved nodes
/// sorted by id, holding the metadata's, with the lookups they allow.
pub open spec fn walk_ready(
    md: Metadata,
    packages: Seq<Package>,
    nodes: Seq<ResolveNode>,
    members: Seq<PackageId>,
) -> bool {
    &&& md.resolve is Some
    &&& strictly_sorted(id_seq(packages))
    &&& strictly_sorted(id_seq(nodes))
    &&& packages.to_multiset() == md.packages@.to_multiset()
    &&& nodes.to_multiset() == resolve_nodes(md).to_multiset()
    &&& id_seq(md.packages@).no_duplicates()
    &&& id_seq(resolve_nodes(md)).no_duplicates()
    &&& strictly_sorted(id_seq(members))
    &&& id_seq(members).to_set() == id_seq(md.workspace_members@).to_set()
    &&& forall|i: int| 0 <= i < nodes.len() ==> id_seq(packages).contains(#[trigger] nodes[i].id@)
    &&& forall|i: int, j: int|
        0 <= i < nodes.len() && 0 <= j < nodes[i].deps.len() ==> id_seq(nodes).contains(
            (#[trigger] nodes[i].deps@[j]).pkg@,
        ) && id_seq(packages).contains(nodes[i].deps@[j].pkg@)
}

/// The outcome of the walk: for each sorted package, whether it is a crate
/// of the graph, the dependencies that stay and the links of its features.
pub struct Walk {
    pub in_graph: Vec<bool>,
    pub deps: Vec<Vec<KrateDependency>>,
    pub features: Vec<Vec<(String, Vec<FeatureEdge>)>>,
}

} // verus!

verus! {

proof fn lemma_dep_step_intro(
    b: BuilderModel,
    md: Metadata,
    id: Seq<char>,
    t: Seq<char>,
    p: Package,
    n: ResolveNode,
    j: int,
)
    requires
        item_with_id(md.packages@, id) == Some(p),
        item_with_id(resolve_nodes(md), id) == Some(n),
        0 <= j < n.deps.len(),
        n.deps@[j].pkg@ == t,
        dep_kept(b, in_workspace(md, id), p, n, n.deps@[j]),
    ensures
        dep_step(b, md, id, t),
{
    let pp = item_with_id(md.packages@, id);
    let nn = item_with_id(resolve_nodes(md), id);
    assert(nn->0 == n);
    assert(pp->0 == p);
    assert(nn->0.deps@[j].pkg@ == t);
    assert(dep_kept(b, in_workspace(md, id), pp->0, nn->0, nn->0.deps@[j]));
}

proof fn lemma_dep_step_elim(
    b: BuilderModel,
    md: Metadata,
    id: Seq<char>,
    t: Seq<char>,
    p: Package,
    n: ResolveNode,
)
    requires
        item_with_id(md.packages@, id) == Some(p),
        item_with_id(resolve_nodes(md), id) == Some(n),
        dep_step(b, md, id, t),
    ensures
        exists|j: int|
            0 <= j < n.deps.len() && (#[trigger] n.deps@[j]).pkg@ == t && dep_kept(
                b,
                in_workspace(md, id),
                p,
                n,
                n.deps@[j],
            ),
{
    let nn = item_with_id(resolve_nodes(md), id);
    assert(nn->0 == n);
    let j = choose|k: int|
        0 <= k < nn->0.deps.len() && (#[trigger] nn->0.deps@[k]).pkg@ == t && dep_kept(
            b,
            in_workspace(md, id),
            item_with_id(md.packages@, id)->0,
            nn->0,
            nn->0.deps@[k],
        );
    assert(n.deps@[j].pkg@ == t);
}

/// The crate at `q` was taken from the work list, or is still on it.
pub open spec fn seen_or_queued(state: Seq<u8>, work: Seq<usize>, q: int) -> bool {
    state[q] != 0 || work.contains(q as usize)
}

/// Every crate of a path is processed, once the walk is over.
proof fn lemma_walk_complete(
    b: BuilderModel,
    md: Metadata,
    packages: Seq<Package>,
    state: Seq<u8>,
    path: Seq<Seq<char>>,
    upto: int,
)
    requires
        packages.len() == state.len(),
        forall|i: int| 0 <= i < state.len() ==> #[trigger] state[i] <= 2,
        forall|i: int| 0 <= i < state.len() && #[trigger] state[i] == 2 ==> !included(b, md, packages[i].id@),
        forall|i: int, t: Seq<char>|
            0 <= i < state.len() && state[i] == 1 && #[trigger] dep_step(b, md, packages[i].id@, t)
                ==> exists|q: int| 0 <= q < state.len() && packages[q].id@ == t && #[trigger] state[q] != 0,
        forall|id: Seq<char>|
            #[trigger] root_ids(b, md).contains(id) ==> exists|q: int|
                0 <= q < state.len() && packages[q].id@ == id && #[trigger] state[q] != 0,
        is_path(b, md, path),
        0 <= upto < path.len(),
    ensures
        exists|q: int| 0 <= q < state.len() && packages[q].id@ == path[upto] && #[trigger] state[q] == 1,
    decreases upto,
{
    assert(included(b, md, path[upto]));
    if upto == 0 {
        assert(root_ids(b, md).contains(path[0]));
        let q = choose|q: int| 0 <= q < state.len() && packages[q].id@ == path[0] && #[trigger] state[q] != 0;
        assert(state[q] == 1);
    } else {
        lemma_walk_complete(b, md, packages, state, path, upto - 1);
        let p = choose|q: int| 0 <= q < state.len() && packages[q].id@ == path[upto - 1] && #[trigger] state[q] == 1;
        assert(dep_step(b, md, path[upto - 1], path[upto]));
        assert(dep_step(b, md, packages[p].id@, path[upto]));
        let q = choose|q: int| 0 <= q < state.len() && packages[q].id@ == path[upto] && #[trigger] state[q] != 0;
        assert(state[q] == 1);
    }
}

/// Each kept dependency the crate lists is a dependency step from it.
proof fn lemma_kd_steps(
    b: BuilderModel,
    md: Metadata,
    id: Seq<char>,
    p: Package,
    n: ResolveNode,
    in_ws: bool,
    packages: Seq<Package>,
    kd: Seq<KrateDependency>,
)
    requires
        item_with_id(md.packages@, id) == Some(p),
        item_with_id(resolve_nodes(md), id) == Some(n),
        in_ws == in_workspace(md, id),
        forall|k: int|
            0 <= k < kd.len() ==> (#[trigger] kd[k]).pkg < packages.len() && exists|j: int|
                0 <= j < n.deps.len() && (#[trigger] n.deps@[j]).pkg@ == packages[kd[k].pkg as int].id@
                    && dep_kept(b, in_ws, p, n, n.deps@[j]),
    ensures
        forall|k: int| 0 <= k < kd.len() ==> dep_step(b, md, id, packages[(#[trigger] kd[k]).pkg as int].id@),
{
    assert forall|k: int| 0 <= k < kd.len() implies dep_step(b, md, id, packages[(#[trigger] kd[k]).pkg as int].id@) by {
        let j = choose|j: int|
            0 <= j < n.deps.len() && (#[trigger] n.deps@[j]).pkg@ == packages[kd[k].pkg as int].id@
                && dep_kept(b, in_ws, p, n, n.deps@[j]);
        lemma_dep_step_intro(b, md, id, packages[kd[k].pkg as int].id@, p, n, j);
    }
}

/// Once the work list is empty, the processed crates are the reached ones.
proof fn lemma_walk_result(
    b: BuilderModel,
    md: Metadata,
    packages: Seq<Package>,
    state: Seq<u8>,
    work: Seq<usize>,
)
    requires
        work.len() == 0,
        state.len() == packages.len(),
        strictly_sorted(id_seq(packages)),
        forall|j: int| 0 <= j < state.len() ==> #[trigger] state[j] <= 2,
        forall|j: int|
            0 <= j < state.len() && #[trigger] state[j] == 2 ==> !included(b, md, packages[j].id@),
        forall|j: int|
            0 <= j < state.len() && #[trigger] state[j] == 1 ==> reached(b, md, packages[j].id@),
        forall|j: int, t: Seq<char>|
            0 <= j < state.len() && state[j] == 1 && #[trigger] dep_step(b, md, packages[j].id@, t)
                ==> exists|q: int|
                0 <= q < state.len() && packages[q].id@ == t && #[trigger] seen_or_queued(state, work, q),
        forall|id: Seq<char>|
            #[trigger] root_ids(b, md).contains(id) ==> exists|q: int|
                0 <= q < state.len() && packages[q].id@ == id && #[trigger] seen_or_queued(state, work, q),
    ensures
        forall|j: int|
            0 <= j < state.len() ==> (#[trigger] state[j] == 1 <==> reached(b, md, packages[j].id@)),
{
    assert forall|jj: int, t: Seq<char>|
        0 <= jj < state.len() && state[jj] == 1 && #[trigger] dep_step(b, md, packages[jj].id@, t)
        implies exists|q: int| 0 <= q < state.len() && packages[q].id@ == t && #[trigger] state[q] != 0 by {
        let q = choose|q: int| 0 <= q < state.len() && packages[q].id@ == t && #[trigger] seen_or_queued(state, work, q);
        assert(state[q] != 0);
    }
    assert forall|rid: Seq<char>|
        #[trigger] root_ids(b, md).contains(rid) implies exists|q: int|
        0 <= q < state.len() && packages[q].id@ == rid && #[trigger] state[q] != 0 by {
        let q = choose|q: int| 0 <= q < state.len() && packages[q].id@ == rid && #[trigger] seen_or_queued(state, work, q);
        assert(state[q] != 0);
    }
    assert forall|j: int| 0 <= j < state.len() implies (#[trigger] state[j] == 1 <==> reached(b, md, packages[j].id@)) by {
        if reached(b, md, packages[j].id@) {
            let path = choose|path: Seq<Seq<char>>| is_path(b, md, path) && path.last() == packages[j].id@;
            lemma_walk_complete(b, md, packages, state, path, path.len() - 1);
            let q = choose|q: int| 0 <= q < state.len() && packages[q].id@ == path[path.len() - 1] && #[trigger] state[q] == 1;
            assert(id_seq(packages)[q] == id_seq(packages)[j]);
            crate::set::lemma_sorted_no_dup(id_seq(packages));
            assert(q == j);
        }
    }
}

/// The crates reached from the roots, walking the dependencies that stay
/// and skipping excluded crates, each with its kept dependencies and the
/// links of its features.
#[verifier::rlimit(80)]
#[verifier::spinoff_prover]
fn walk(
    targets: &Vec<TargetFilter>,
    ignore: u32,
    exclude: &Vec<PkgSpec>,
    packages: &Vec<Package>,
    nodes: &Vec<ResolveNode>,
    members: &Vec<PackageId>,
    roots: Vec<usize>,
    Ghost(b): Ghost<BuilderModel>,
    Ghost(md): Ghost<Metadata>,
) -> (r: Walk)
    requires
        walk_ready(md, packages@, nodes@, members@),
        b.target_filters == targets@.map_values(|t: TargetFilter| t@),
        b.ignore_kinds == ignore,
        b.exclude == exclude@.map_values(|e: PkgSpec| e@),
        exclusions_defined(b, md),
        forall|k: int|
            0 <= k < roots@.len() ==> #[trigger] roots@[k] < packages@.len() && root_ids(b, md).contains(
                packages@[roots@[k] as int].id@,
            ) && id_seq(nodes@).contains(packages@[roots@[k] as int].id@),
        forall|id: Seq<char>|
            #[trigger] root_ids(b, md).contains(id) ==> exists|k: int|
                0 <= k < roots@.len() && packages@[#[trigger] roots@[k] as int].id@ == id,
    ensures
        r.in_graph@.len() == packages@.len(),
        r.deps@.len() == packages@.len(),
        r.features@.len() == packages@.len(),
        forall|i: int|
            0 <= i < packages@.len() ==> (#[trigger] r.in_graph@[i] <==> reached(b, md, packages@[i].id@)),
        forall|i: int, k: int|
            0 <= i < packages@.len() && 0 <= k < r.deps@[i]@.len() ==> (#[trigger] r.deps@[i]@[k]).pkg
                < packages@.len(),
        forall|i: int| 0 <= i < packages@.len() ==> feature_edges_valid(#[trigger] r.features@[i]@, packages@.len() as nat),
        forall|i: int, k: int|
            0 <= i < packages@.len() && r.in_graph@[i] && 0 <= k < r.deps@[i]@.len() ==> dep_step(
                b,
                md,
                packages@[i].id@,
                packages@[(#[trigger] r.deps@[i]@[k]).pkg as int].id@,
            ),
        forall|i: int|
            0 <= i < packages@.len() && r.in_graph@[i] ==> #[trigger] deps_cover(
                b,
                md,
                packages@[i].id@,
                packages@,
                r.deps@[i]@,
                r.features@[i]@,
                i,
            ),
{
    let n = packages.len();
    let mut state: Vec<u8> = Vec::new();
    let mut deps: Vec<Vec<KrateDependency>> = Vec::new();
    let mut feats: Vec<Vec<(String, Vec<FeatureEdge>)>> = Vec::new();
    let mut i: usize = 0;
    while i < n
        invariant
            i <= n,
            n == packages@.len(),
            state@.len() == i,
            deps@.len() == i,
            feats@.len() == i,
            forall|j: int| 0 <= j < i ==> #[trigger] state@[j] == 0,
            forall|j: int| 0 <= j < i ==> (#[trigger] deps@[j])@.len() == 0,
            forall|j: int| 0 <= j < i ==> (#[trigger] feats@[j])@.len() == 0,
        decreases n - i,
    {
        state.push(0);
        deps.push(Vec::new());
        feats.push(Vec::new());
        i += 1;
    }
    let mut work = roots;
    proof {
        lemma_marked_count_bound(state@);
        assert forall|id: Seq<char>|
            #[trigger] root_ids(b, md).contains(id) implies exists|q: int|
                0 <= q < n && packages@[q].id@ == id && #[trigger] seen_or_queued(state@, work@, q) by {
            let k = choose|k: int| 0 <= k < roots@.len() && packages@[#[trigger] roots@[k] as int].id@ == id;
            let q = roots@[k] as int;
            assert(work@[k] == q as usize);
            assert(work@.contains(q as usize));
            assert(seen_or_queued(state@, work@, q));
        }
        assert forall|k: int| 0 <= k < work@.len() implies #[trigger] work@[k] < n && id_seq(nodes@).contains(
            packages@[work@[k] as int].id@,
        ) && on_path(b, md, packages@[work@[k] as int].id@) by {
            let id = packages@[work@[k] as int].id@;
            let path = seq![id];
            assert(path.last() == id);
            assert(root_ids(b, md).contains(path[0]));
        }
    }
    while work.len() > 0
        invariant
            n == packages@.len(),
            walk_ready(md, packages@, nodes@, members@),
            b.target_filters == targets@.map_values(|t: TargetFilter| t@),
            b.ignore_kinds == ignore,
            b.exclude == exclude@.map_values(|e: PkgSpec| e@),
            exclusions_defined(b, md),
            state@.len() == n,
            deps@.len() == n,
            feats@.len() == n,
            marked_count(state@) <= n,
            forall|j: int| 0 <= j < n ==> #[trigger] state@[j] <= 2,
            forall|j: int|
                0 <= j < n && #[trigger] state@[j] == 2 ==> !included(b, md, packages@[j].id@),
            forall|j: int|
                0 <= j < n && #[trigger] state@[j] == 1 ==> reached(b, md, packages@[j].id@),
            forall|j: int, t: Seq<char>|
                0 <= j < n && state@[j] == 1 && #[trigger] dep_step(b, md, packages@[j].id@, t)
                    ==> exists|q: int|
                    0 <= q < n && packages@[q].id@ == t && #[trigger] seen_or_queued(state@, work@, q),
            forall|id: Seq<char>|
                #[trigger] root_ids(b, md).contains(id) ==> exists|q: int|
                    0 <= q < n && packages@[q].id@ == id && #[trigger] seen_or_queued(state@, work@, q),
            forall|k: int|
                0 <= k < work@.len() ==> #[trigger] work@[k] < n && id_seq(nodes@).contains(
                    packages@[work@[k] as int].id@,
                ) && on_path(b, md, packages@[work@[k] as int].id@),
            forall|j: int, k: int|
                0 <= j < n && 0 <= k < deps@[j]@.len() ==> (#[trigger] deps@[j]@[k]).pkg < n,
            forall|j: int| 0 <= j < n ==> feature_edges_valid(#[trigger] feats@[j]@, n as nat),
            forall|j: int, k: int|
                0 <= j < n && state@[j] == 1 && 0 <= k < deps@[j]@.len() ==> dep_step(
                    b,
                    md,
                    packages@[j].id@,
                    packages@[(#[trigger] deps@[j]@[k]).pkg as int].id@,
                ),
            forall|j: int|
                0 <= j < n && state@[j] == 1 ==> #[trigger] deps_cover(
                    b,
                    md,
                    packages@[j].id@,
                    packages@,
                    deps@[j]@,
                    feats@[j]@,
                    j,
                ),
        decreases n - marked_count(state@), work@.len(),
    {
        let ghost work_before = work@;
        let w = work.pop().unwrap();
        proof {
            assert(work_before == work@.push(w));
            assert(work_before[work_before.len() - 1] == w);
            assert(forall|x: usize| #[trigger] work_before.contains(x) && x != w ==> work@.contains(x)) by {
                assert forall|x: usize| #[trigger] work_before.contains(x) && x != w implies work@.contains(x) by {
                    let k = choose|k: int| 0 <= k < work_before.len() && work_before[k] == x;
                    assert(k < work@.len());
                    assert(work@[k] == x);
                }
            }
        }
        if state[w] != 0 {
            proof {
                assert forall|j: int, t: Seq<char>|
                    0 <= j < n && state@[j] == 1 && #[trigger] dep_step(b, md, packages@[j].id@, t) implies exists|q: int|
                    0 <= q < n && packages@[q].id@ == t && #[trigger] seen_or_queued(state@, work@, q) by {
                    let q = choose|q: int| 0 <= q < n && packages@[q].id@ == t && #[trigger] seen_or_queued(state@, work_before, q);
                    if state@[q] == 0 {
                        assert(q != w);
                        assert(work_before.contains(q as usize));
                        assert(work@.contains(q as usize));
                    }
                    assert(seen_or_queued(state@, work@, q));
                }
                assert forall|id: Seq<char>|
                    #[trigger] root_ids(b, md).contains(id) implies exists|q: int|
                    0 <= q < n && packages@[q].id@ == id && #[trigger] seen_or_queued(state@, work@, q) by {
                    let q = choose|q: int| 0 <= q < n && packages@[q].id@ == id && #[trigger] seen_or_queued(state@, work_before, q);
                    if state@[q] == 0 {
                        assert(q != w);
                        assert(work_before.contains(q as usize));
                        assert(work@.contains(q as usize));
                    }
                    assert(seen_or_queued(state@, work@, q));
                }
            }
            continue;
        }
        let pkg = &packages[w];
        let ghost id = pkg.id@;
        proof {
            lemma_item_with_id(md.packages@, packages@, w as int);
            assert(item_with_id(md.packages@, id) == Some(*pkg));
            let c = choose|c: int| 0 <= c < md.packages@.len() && md.packages@[c] == *pkg;
            assert(md.packages@[c] == *pkg);
            assert forall|j: int| 0 <= j < b.exclude.len() implies source_url_defined(#[trigger] b.exclude[j], *pkg) by {
                assert(source_url_defined(b.exclude[j], md.packages@[c]));
            }
        }
        if is_excluded(exclude, pkg, Ghost(b)) {
            let ghost old_state = state@;
            state.set(w, 2);
            proof {
                lemma_cover_step(b, md, packages@, n as int, old_state, state@, deps@, deps@, feats@, feats@, w as int, 2);
                lemma_marked_count_mark(old_state, w as int, 2);
                lemma_marked_count_bound(state@);
                assert forall|j: int, t: Seq<char>|
                    0 <= j < n && state@[j] == 1 && #[trigger] dep_step(b, md, packages@[j].id@, t) implies exists|q: int|
                    0 <= q < n && packages@[q].id@ == t && #[trigger] seen_or_queued(state@, work@, q) by {
                    assert(old_state[j] == 1);
                    let q = choose|q: int| 0 <= q < n && packages@[q].id@ == t && #[trigger] seen_or_queued(old_state, work_before, q);
                    if q != w && old_state[q] == 0 {
                        assert(work_before.contains(q as usize));
                        assert(work@.contains(q as usize));
                    }
                    assert(seen_or_queued(state@, work@, q));
                }
                assert forall|rid: Seq<char>|
                    #[trigger] root_ids(b, md).contains(rid) implies exists|q: int|
                    0 <= q < n && packages@[q].id@ == rid && #[trigger] seen_or_queued(state@, work@, q) by {
                    let q = choose|q: int| 0 <= q < n && packages@[q].id@ == rid && #[trigger] seen_or_queued(old_state, work_before, q);
                    if q != w && old_state[q] == 0 {
                        assert(work_before.contains(q as usize));
                        assert(work@.contains(q as usize));
                    }
                    assert(seen_or_queued(state@, work@, q));
                }
            }
            continue;
        }
        let ni = match find_by_id(nodes, &pkg.id) {
            Some(ni) => ni,
            None => {
                proof {
                    let q = choose|q: int| 0 <= q < id_seq(nodes@).len() && id_seq(nodes@)[q] == id;
                    assert(nodes@[q].id_view() == id);
                }
                unreached()
            },
        };
        let node = &nodes[ni];
        let in_ws = find_by_id(members, &pkg.id).is_some();
        proof {
            lemma_item_with_id(resolve_nodes(md), nodes@, ni as int);
            assert(item_with_id(resolve_nodes(md), id) == Some(*node));
            let ms = id_seq(members@);
            if in_ws {
                let q = choose|q: int| 0 <= q < members@.len() && members@[q].id_view() == id;
                assert(ms[q] == id);
                assert(ms.to_set().contains(id));
                assert(id_seq(md.workspace_members@).to_set().contains(id));
            } else {
                if id_seq(md.workspace_members@).contains(id) {
                    assert(id_seq(md.workspace_members@).to_set().contains(id));
                    assert(ms.to_set().contains(id));
                    let q = choose|q: int| 0 <= q < ms.len() && ms[q] == id;
                    assert(members@[q].id_view() == id);
                }
            }
            assert(in_ws == in_workspace(md, id));
            assert forall|j: int|
                0 <= j < node.deps.len() implies id_seq(packages@).contains((#[trigger] node.deps@[j]).pkg@) by {
                assert(nodes@[ni as int].deps@[j] == node.deps@[j]);
            }
        }
        let kd = krate_deps(targets, ignore, pkg, node, in_ws, nodes, packages, Ghost(b));
        let kf = feature_entries(pkg, node, w, packages, Ghost(md), Ghost(id));
        proof {
            // the crate is reached: the path to it is made of included crates
            let path = choose|path: Seq<Seq<char>>|
                {
                    &&& path.len() > 0
                    &&& root_ids(b, md).contains(path[0])
                    &&& forall|i: int| 0 <= i < path.len() - 1 ==> included(b, md, #[trigger] path[i])
                    &&& forall|i: int| 0 <= i < path.len() - 1 ==> dep_step(b, md, #[trigger] path[i], path[i + 1])
                    &&& path.last() == id
                };
            assert(is_path(b, md, path)) by {
                assert forall|i: int| 0 <= i < path.len() implies included(b, md, #[trigger] path[i]) by {
                    if i == path.len() - 1 {
                        assert(path[i] == id);
                    }
                }
            }
            assert(reached(b, md, id));
        }
        let ghost work_mid = work@;
        let mut k: usize = 0;
        while k < kd.len()
            invariant
                k <= kd@.len(),
                n == packages@.len(),
                walk_ready(md, packages@, nodes@, members@),
                w < n,
                packages@[w as int].id@ == id,
                ni < nodes@.len(),
                nodes@[ni as int] == *node,
                item_with_id(md.packages@, id) == Some(*pkg),
                item_with_id(resolve_nodes(md), id) == Some(*node),
                in_ws == in_workspace(md, id),
                reached(b, md, id),
                forall|q: int|
                    0 <= q < kd@.len() ==> (#[trigger] kd@[q]).pkg < packages@.len() && exists|j: int|
                        0 <= j < node.deps.len() && (#[trigger] node.deps@[j]).pkg@
                            == packages@[kd@[q].pkg as int].id@ && dep_kept(b, in_ws, *pkg, *node, node.deps@[j]),
                forall|x: usize| #[trigger] work_mid.contains(x) ==> work@.contains(x),
                forall|q: int| 0 <= q < k ==> work@.contains((#[trigger] kd@[q]).pkg),
                forall|q: int|
                    0 <= q < work@.len() ==> #[trigger] work@[q] < n && id_seq(nodes@).contains(
                        packages@[work@[q] as int].id@,
                    ) && on_path(b, md, packages@[work@[q] as int].id@),
            decreases kd.len() - k,
        {
            let ghost before = work@;
            let target = kd[k].pkg;
            let ghost t = packages@[target as int].id@;
            proof {
                let j = choose|j: int|
                    0 <= j < node.deps.len() && (#[trigger] node.deps@[j]).pkg@ == t && dep_kept(
                        b,
                        in_ws,
                        *pkg,
                        *node,
                        node.deps@[j],
                    );
                lemma_dep_step_intro(b, md, id, t, *pkg, *node, j);
                assert(id_seq(nodes@).contains(t)) by {
                    assert(nodes@[ni as int].deps@[j] == node.deps@[j]);
                }
                let path = choose|path: Seq<Seq<char>>| is_path(b, md, path) && path.last() == id;
                let longer = path.push(t);
                assert(longer.last() == t);
                assert(longer[0] == path[0]);
                assert forall|i: int| 0 <= i < longer.len() - 1 implies included(b, md, #[trigger] longer[i]) by {
                    assert(longer[i] == path[i]);
                }
                assert forall|i: int| 0 <= i < longer.len() - 1 implies dep_step(b, md, #[trigger] longer[i], longer[i + 1]) by {
                    if i < path.len() - 1 {
                        assert(longer[i] == path[i]);
                        assert(longer[i + 1] == path[i + 1]);
                    } else {
                        assert(longer[i] == id);
                    }
                }
                assert(on_path(b, md, t));
            }
            work.push(target);
            proof {
                assert(work@ == before.push(target));
                assert forall|x: usize| #[trigger] work_mid.contains(x) implies work@.contains(x) by {
                    assert(before.contains(x));
                    let q = choose|q: int| 0 <= q < before.len() && before[q] == x;
                    assert(work@[q] == x);
                }
                assert forall|q: int| 0 <= q < k + 1 implies work@.contains((#[trigger] kd@[q]).pkg) by {
                    if q < k {
                        let p = choose|p: int| 0 <= p < before.len() && before[p] == kd@[q].pkg;
                        assert(work@[p] == kd@[q].pkg);
                    } else {
                        assert(work@[before.len() as int] == target);
                    }
                }
                assert forall|q: int|
                    0 <= q < work@.len() implies #[trigger] work@[q] < n && id_seq(nodes@).contains(
                        packages@[work@[q] as int].id@,
                    ) && on_path(b, md, packages@[work@[q] as int].id@) by {
                    if q < before.len() {
                        assert(work@[q] == before[q]);
                    }
                }
            }
            k += 1;
        }
        proof {
            lemma_kd_steps(b, md, id, *pkg, *node, in_ws, packages@, kd@);
        }
        let ghost old_state = state@;
        let ghost old_deps = deps@;
        let ghost old_feats = feats@;
        let ghost kd_seq = kd@;
        proof {
            lemma_links_covered(b, md, id, *pkg, *node, in_ws, nodes@, packages@, kd@);
            lemma_features_covered(b, md, id, *pkg, *node, in_ws, nodes@, packages@, kd@);
            lemma_features_sound(b, md, id, *pkg, *node, in_ws, nodes@, packages@, kd@);
            lemma_deps_cover_intro(b, md, id, *pkg, *node, packages@, kd@, kf@, w as int);
        }
        state.set(w, 1);
        deps.set(w, kd);
        feats.set(w, kf);
        proof {
            lemma_cover_step(b, md, packages@, n as int, old_state, state@, old_deps, deps@, old_feats, feats@, w as int, 1);
            lemma_marked_count_mark(old_state, w as int, 1);
            lemma_marked_count_bound(state@);
            assert forall|j: int, t: Seq<char>|
                0 <= j < n && state@[j] == 1 && #[trigger] dep_step(b, md, packages@[j].id@, t) implies exists|q: int|
                0 <= q < n && packages@[q].id@ == t && #[trigger] seen_or_queued(state@, work@, q) by {
                if j == w {
                    lemma_dep_step_elim(b, md, id, t, *pkg, *node);
                    let jj = choose|jj: int|
                        0 <= jj < node.deps.len() && (#[trigger] node.deps@[jj]).pkg@ == t && dep_kept(
                            b,
                            in_workspace(md, id),
                            *pkg,
                            *node,
                            node.deps@[jj],
                        );
                    let kk = choose|kk: int|
                        0 <= kk < kd@.len() && packages@[(#[trigger] kd@[kk]).pkg as int].id@ == node.deps@[jj].pkg@;
                    let q = kd@[kk].pkg as int;
                    assert(work@.contains(kd@[kk].pkg));
                    assert(seen_or_queued(state@, work@, q));
                } else {
                    assert(old_state[j] == 1);
                    let q = choose|q: int| 0 <= q < n && packages@[q].id@ == t && #[trigger] seen_or_queued(old_state, work_before, q);
                    if q != w && old_state[q] == 0 {
                        assert(work_before.contains(q as usize));
                        assert(work_mid.contains(q as usize));
                        assert(work@.contains(q as usize));
                    }
                    assert(seen_or_queued(state@, work@, q));
                }
            }
            assert forall|rid: Seq<char>|
                #[trigger] root_ids(b, md).contains(rid) implies exists|q: int|
                0 <= q < n && packages@[q].id@ == rid && #[trigger] seen_or_queued(state@, work@, q) by {
                let q = choose|q: int| 0 <= q < n && packages@[q].id@ == rid && #[trigger] seen_or_queued(old_state, work_before, q);
                if q != w && old_state[q] == 0 {
                    assert(work_before.contains(q as usize));
                    assert(work_mid.contains(q as usize));
                    assert(work@.contains(q as usize));
                }
                assert(seen_or_queued(state@, work@, q));
            }
            assert forall|j: int, k: int|
                0 <= j < n && 0 <= k < deps@[j]@.len() implies (#[trigger] deps@[j]@[k]).pkg < n by {
                if j == w {
                    assert(deps@[j] == kd);
                }
            }
            assert forall|j: int| 0 <= j < n implies feature_edges_valid(#[trigger] feats@[j]@, n as nat) by {
                if j == w {
                    assert(feats@[j] == kf);
                }
            }
            assert forall|j: int, q: int|
                0 <= j < n && state@[j] == 1 && 0 <= q < deps@[j]@.len() implies dep_step(
                    b,
                    md,
                    packages@[j].id@,
                    packages@[(#[trigger] deps@[j]@[q]).pkg as int].id@,
                ) by {
                if j == w {
                    assert(deps@[j] == kd);
                } else {
                    assert(old_state[j] == 1);
                }
            }
        }
    }
    let mut in_graph: Vec<bool> = Vec::new();
    let mut i: usize = 0;
    while i < n
        invariant
            i <= n,
            n == packages@.len(),
            state@.len() == n,
            in_graph@.len() == i,
            forall|j: int| 0 <= j < i ==> (#[trigger] in_graph@[j] <==> state@[j] == 1),
        decreases n - i,
    {
        in_graph.push(state[i] == 1);
        i += 1;
    }
    proof {
        lemma_walk_result(b, md, packages@, state@, work@);
        assert forall|i: int| 0 <= i < packages@.len() && in_graph@[i] implies #[trigger] deps_cover(
            b,
            md,
            packages@[i].id@,
            packages@,
            deps@[i]@,
            feats@[i]@,
            i,
        ) by {
            assert(state@[i] == 1);
        }
    }
    Walk { in_graph, deps, features: feats }
}

} // verus!

verus! {

/// Some package is at node position `k`.
pub open spec fn node_of_some(nid: Seq<Option<usize>>, k: int) -> bool {
    exists|i: int| 0 <= i < nid.len() && #[trigger] nid[i] == Some(k as usize)
}

/// The first `len` nodes are the crates at the positions `nid` gives: crate
/// nodes, in strictly ascending order of their ids, each made from its
/// package.
pub open spec fn crate_nodes<N: From<Package>>(
    nodes: Seq<Node<N>>,
    len: int,
    packages: Seq<Package>,
    nid: Seq<Option<usize>>,
) -> bool {
    &&& 0 <= len <= nodes.len()
    &&& nid.len() == packages.len()
    &&& forall|i: int|
        0 <= i < nid.len() && #[trigger] nid[i] is Some ==> {
            let k = nid[i]->0 as int;
            &&& k < len
            &&& nodes[k] is Krate
            &&& node_id(nodes[k]) == packages[i].id@
            &&& (<N as FromSpec<Package>>::obeys_from_spec() ==> krate_of(nodes[k])
                == <N as FromSpec<Package>>::from_spec(packages[i]))
        }
    &&& forall|k: int| 0 <= k < len ==> #[trigger] node_of_some(nid, k)
    &&& forall|k: int| 0 <= k < len ==> #[trigger] nodes[k] is Krate
    &&& forall|a: int, c: int| 0 <= a < c < len ==> seq_lt(node_id(#[trigger] nodes[a]), node_id(#[trigger] nodes[c]))
}

/// Each root crate of the graph starts with the features cargo resolved for
/// it enabled.
pub open spec fn root_features<N>(
    graph_nodes: Seq<Node<N>>,
    packages: Seq<Package>,
    nid: Seq<Option<usize>>,
    is_root: Seq<bool>,
    nodes: Seq<ResolveNode>,
) -> bool {
    forall|j: int|
        0 <= j < nid.len() && #[trigger] nid[j] is Some && is_root[j] ==> match item_with_id(
            nodes,
            packages[j].id@,
        ) {
            Some(n) => strs(n.features@).to_set().subset_of(features_of(graph_nodes[nid[j]->0 as int])),
            None => true,
        }
}

/// A crate starts with no feature enabled but those cargo resolved for it
/// where it is a root.
pub open spec fn root_features_only<N>(
    graph_nodes: Seq<Node<N>>,
    packages: Seq<Package>,
    nid: Seq<Option<usize>>,
    is_root: Seq<bool>,
    nodes: Seq<ResolveNode>,
) -> bool {
    forall|j: int, f: Seq<char>|
        0 <= j < nid.len() && nid[j] is Some && #[trigger] features_of(graph_nodes[nid[j]->0 as int]).contains(f)
            ==> is_root[j] && (item_with_id(nodes, packages[j].id@) matches Some(n) && strs(n.features@).contains(f))
}

/// Adds a crate node for each package in the graph, in the order of the
/// sorted packages, and reports each other package to `on_filter`. Root
/// crates start with the features cargo resolved for them enabled, others
/// with none. Returns the node position of each package in the graph.
fn add_krate_nodes<N: From<Package>, E>(
    packages: Vec<Package>,
    nodes: &Vec<ResolveNode>,
    in_graph: &Vec<bool>,
    is_root: &Vec<bool>,
    left: &mut Vec<Package>,
) -> (r: (Graph<Node<N>, E>, Vec<Option<usize>>))
    requires
        in_graph@.len() == packages@.len(),
        is_root@.len() == packages@.len(),
        strictly_sorted(id_seq(packages@)),
        strictly_sorted(id_seq(nodes@)),
    ensures
        r.0.edge_seq().len() == 0,
        crate_nodes(r.0.node_seq(), r.0.node_seq().len() as int, packages@, r.1@),
        forall|i: int| 0 <= i < packages@.len() ==> (#[trigger] r.1@[i] is Some <==> in_graph@[i]),
        root_features(r.0.node_seq(), packages@, r.1@, is_root@, nodes@),
        root_features_only(r.0.node_seq(), packages@, r.1@, is_root@, nodes@),
        final(left)@ == old(left)@ + left_out(packages@, in_graph@),
{
    let ghost orig = packages@;
    let ghost left0 = left@;
    let n = packages.len();
    let mut rest = packages;
    let mut rev: Vec<Package> = Vec::new();
    while rest.len() > 0
        invariant
            rest@.len() + rev@.len() == n,
            n == orig.len(),
            forall|k: int| 0 <= k < rest@.len() ==> #[trigger] rest@[k] == orig[k],
            forall|k: int| 0 <= k < rev@.len() ==> #[trigger] rev@[k] == orig[n - 1 - k],
        decreases rest.len(),
    {
        let p = rest.pop().unwrap();
        rev.push(p);
    }
    let mut graph: Graph<Node<N>, E> = Graph::new();
    let mut nid: Vec<Option<usize>> = Vec::new();
    let mut i: usize = 0;
    while i < n
        invariant
            i <= n,
            n == orig.len(),
            in_graph@.len() == n,
            is_root@.len() == n,
            strictly_sorted(id_seq(orig)),
            strictly_sorted(id_seq(nodes@)),
            rev@.len() == n - i,
            forall|k: int| 0 <= k < rev@.len() ==> #[trigger] rev@[k] == orig[n - 1 - k],
            graph.edge_seq().len() == 0,
            crate_nodes(graph.node_seq(), graph.node_seq().len() as int, orig.take(i as int), nid@),
            forall|j: int| 0 <= j < i ==> (#[trigger] nid@[j] is Some <==> in_graph@[j]),
            root_features(graph.node_seq(), orig.take(i as int), nid@, is_root@, nodes@),
            root_features_only(graph.node_seq(), orig.take(i as int), nid@, is_root@, nodes@),
            left@ == left0 + left_out(orig.take(i as int), in_graph@),
        decreases n - i,
    {
        let p = rev.pop().unwrap();
        assert(p == orig[i as int]);
        proof {
            assert(orig.take(i + 1).drop_last() =~= orig.take(i as int));
            assert(orig.take(i + 1).last() == orig[i as int]);
        }
        let ghost before = graph.node_seq();
        let ghost nid_before = nid@;
        if in_graph[i] {
            let features = if is_root[i] {
                match find_by_id(nodes, &p.id) {
                    Some(ni) => {
                        proof {
                            crate::set::lemma_sorted_no_dup(id_seq(nodes@));
                            lemma_item_with_id(nodes@, nodes@, ni as int);
                        }
                        StringSet::from_strings(&nodes[ni].features)
                    },
                    None => {
                        proof {
                            if item_with_id(nodes@, p.id@) is Some {
                                let c = choose|c: int| 0 <= c < nodes@.len() && (#[trigger] nodes@[c]).id_view() == p.id@;
                                assert(nodes@[c].id_view() == p.id@);
                            }
                        }
                        StringSet::new()
                    },
                }
            } else {
                StringSet::new()
            };
            let id = p.id.duplicate();
            let krate = N::from(p);
            let k = graph.add_node(Node::Krate { id, krate, features });
            nid.push(Some(k));
            proof {
                let len = graph.node_seq().len() as int;
                let pk = orig.take(i + 1);
                assert forall|a: int, c: int| 0 <= a < c < len implies seq_lt(node_id(#[trigger] graph.node_seq()[a]), node_id(#[trigger] graph.node_seq()[c])) by {
                    if c == len - 1 {
                        assert(node_of_some(nid_before, a));
                        let j = choose|j: int| 0 <= j < nid_before.len() && #[trigger] nid_before[j] == Some(a as usize);
                        assert(orig.take(i as int)[j] == orig[j]);
                        assert(id_seq(orig)[j] == orig[j].id@);
                        assert(id_seq(orig)[i as int] == orig[i as int].id@);
                        assert(graph.node_seq()[a] == before[a]);
                    } else {
                        assert(graph.node_seq()[a] == before[a]);
                        assert(graph.node_seq()[c] == before[c]);
                    }
                }
                assert forall|j: int| 0 <= j < nid@.len() && #[trigger] nid@[j] is Some implies {
                    let k = nid@[j]->0 as int;
                    &&& k < len
                    &&& graph.node_seq()[k] is Krate
                    &&& node_id(graph.node_seq()[k]) == pk[j].id@
                    &&& (<N as FromSpec<Package>>::obeys_from_spec() ==> krate_of(graph.node_seq()[k])
                        == <N as FromSpec<Package>>::from_spec(pk[j]))
                } by {
                    if j < i {
                        assert(nid@[j] == nid_before[j]);
                        assert(pk[j] == orig.take(i as int)[j]);
                    }
                }
                assert forall|c: int| 0 <= c < len implies #[trigger] node_of_some(nid@, c) by {
                    if c < len - 1 {
                        assert(node_of_some(nid_before, c));
                        let j = choose|j: int| 0 <= j < nid_before.len() && #[trigger] nid_before[j] == Some(c as usize);
                        assert(nid@[j] == nid_before[j]);
                    } else {
                        assert(nid@[i as int] == Some(c as usize));
                    }
                }
            }
        } else {
            let ghost before_left = left@;
            left.push(p);
            proof {
                assert(left@ =~= left0 + left_out(orig.take(i + 1), in_graph@));
            }
            nid.push(None);
            proof {
                let pk = orig.take(i + 1);
                assert forall|j: int| 0 <= j < nid@.len() && #[trigger] nid@[j] is Some implies {
                    let k = nid@[j]->0 as int;
                    &&& k < graph.node_seq().len()
                    &&& graph.node_seq()[k] is Krate
                    &&& node_id(graph.node_seq()[k]) == pk[j].id@
                    &&& (<N as FromSpec<Package>>::obeys_from_spec() ==> krate_of(graph.node_seq()[k])
                        == <N as FromSpec<Package>>::from_spec(pk[j]))
                } by {
                    assert(nid@[j] == nid_before[j]);
                    assert(pk[j] == orig.take(i as int)[j]);
                }
                assert forall|c: int| 0 <= c < graph.node_seq().len() implies #[trigger] node_of_some(nid@, c) by {
                    assert(node_of_some(nid_before, c));
                    let j = choose|j: int| 0 <= j < nid_before.len() && #[trigger] nid_before[j] == Some(c as usize);
                    assert(nid@[j] == nid_before[j]);
                }
            }
        }
        i += 1;
    }
    proof {
        assert(orig.take(n as int) =~= orig);
    }
    (graph, nid)
}

/// The packages of `s` left out of the graph, in order: those at the
/// positions `in_graph` does not mark.
pub open spec fn left_out(s: Seq<Package>, in_graph: Seq<bool>) -> Seq<Package>
    decreases s.len(),
{
    if s.len() == 0 {
        Seq::empty()
    } else {
        let r = left_out(s.drop_last(), in_graph);
        if in_graph[s.len() - 1] {
            r
        } else {
            r.push(s.last())
        }
    }
}

/// The packages of `s` that are not reached (see [`reached`]), in order.
pub open spec fn not_reached(b: BuilderModel, md: Metadata, s: Seq<Package>) -> Seq<Package>
    decreases s.len(),
{
    if s.len() == 0 {
        Seq::empty()
    } else {
        let r = not_reached(b, md, s.drop_last());
        if reached(b, md, s.last().id@) {
            r
        } else {
            r.push(s.last())
        }
    }
}

/// Where `in_graph` marks the reached packages, it leaves out the
/// unreached ones.
proof fn lemma_left_out_unreached(b: BuilderModel, md: Metadata, s: Seq<Package>, in_graph: Seq<bool>)
    requires
        s.len() <= in_graph.len(),
        forall|i: int| 0 <= i < s.len() ==> (#[trigger] in_graph[i] <==> reached(b, md, s[i].id@)),
    ensures
        left_out(s, in_graph) == not_reached(b, md, s),
    decreases s.len(),
{
    if s.len() > 0 {
        let t = s.drop_last();
        assert forall|i: int| 0 <= i < t.len() implies (#[trigger] in_graph[i] <==> reached(b, md, t[i].id@)) by {
            assert(t[i] == s[i]);
        }
        lemma_left_out_unreached(b, md, t, in_graph);
        assert(in_graph[s.len() - 1] <==> reached(b, md, s[s.len() - 1].id@));
    }
}

/// What building reports to the filter: nothing where it fails; otherwise
/// each package that is not reached, once, in the order of the package ids.
pub open spec fn reported(b: BuilderModel, md: Metadata, built: bool, left: Seq<Package>) -> bool {
    if built {
        exists|s: Seq<Package>|
            s.to_multiset() == md.packages@.to_multiset() && strictly_sorted(id_seq(s)) && left == #[trigger] not_reached(
                b,
                md,
                s,
            )
    } else {
        left.len() == 0
    }
}

} // verus!

verus! {

/// The first `end` nodes are crates and the rest features of those crates;
/// every edge joins two nodes.
pub open spec fn graph_shape<N, E>(nodes: Seq<Node<N>>, edges: Seq<EdgeRecord<E>>, end: int) -> bool {
    &&& 0 <= end <= nodes.len()
    &&& forall|k: int| 0 <= k < end ==> #[trigger] nodes[k] is Krate
    &&& forall|k: int|
        end <= k < nodes.len() ==> #[trigger] nodes[k] is Feature && nodes[k]->krate_index < end
    &&& forall|e: int|
        0 <= e < edges.len() ==> (#[trigger] edges[e]).source < nodes.len() && edges[e].target
            < nodes.len()
    &&& feature_nodes_enabled(nodes, end)
}

/// Every feature node names a feature enabled on its crate.
pub open spec fn feature_nodes_enabled<N>(nodes: Seq<Node<N>>, end: int) -> bool {
    forall|k: int|
        end <= k < nodes.len() ==> (#[trigger] nodes[k] matches Node::Feature { krate_index, name }
            && features_of(nodes[krate_index as int]).contains(name@))
}

/// The first `end` nodes hold the same crates, with the same ids.
pub open spec fn same_crates<N>(a: Seq<Node<N>>, b: Seq<Node<N>>, end: int) -> bool {
    forall|k: int|
        0 <= k < end ==> node_id(#[trigger] b[k]) == node_id(a[k]) && krate_of(b[k]) == krate_of(a[k])
            && features_of(a[k]).subset_of(features_of(b[k]))
}

/// The crate a node belongs to: itself for a crate node, the crate of a
/// feature node.
pub open spec fn owner<N>(nodes: Seq<Node<N>>, t: int, end: int) -> int {
    if t < end {
        t
    } else {
        nodes[t]->krate_index as int
    }
}

/// The graph grew: the crate nodes hold the same crates, the feature nodes
/// and the edges that were there stay, and more may follow.
pub open spec fn grows<N, E>(
    n0: Seq<Node<N>>,
    e0: Seq<EdgeRecord<E>>,
    n1: Seq<Node<N>>,
    e1: Seq<EdgeRecord<E>>,
    end: int,
) -> bool {
    &&& n0.len() <= n1.len()
    &&& same_crates(n0, n1, end)
    &&& forall|k: int| end <= k < n0.len() ==> #[trigger] n1[k] == n0[k]
    &&& e0.len() <= e1.len()
    &&& forall|e: int| 0 <= e < e0.len() ==> #[trigger] e1[e] == e0[e]
}

/// The edges from position `from` on go from `src` to the crate at
/// `target` or to one of its features.
pub open spec fn edges_between<N, E>(
    nodes: Seq<Node<N>>,
    edges: Seq<EdgeRecord<E>>,
    from: int,
    end: int,
    src: int,
    target: int,
) -> bool {
    forall|e: int|
        from <= e < edges.len() ==> (#[trigger] edges[e]).source == src && owner(
            nodes,
            edges[e].target as int,
            end,
        ) == target
}

/// Some edge from position `from` on goes from `src` to the crate at
/// `target` or to one of its features.
pub open spec fn has_edge_between<N, E>(
    nodes: Seq<Node<N>>,
    edges: Seq<EdgeRecord<E>>,
    from: int,
    end: int,
    src: int,
    target: int,
) -> bool {
    exists|e: int|
        from <= e < edges.len() && (#[trigger] edges[e]).source == src && owner(
            nodes,
            edges[e].target as int,
            end,
        ) == target
}

/// An edge between two crates stays as the graph grows.
proof fn lemma_has_edge_grows<N, E>(
    n0: Seq<Node<N>>,
    e0: Seq<EdgeRecord<E>>,
    n1: Seq<Node<N>>,
    e1: Seq<EdgeRecord<E>>,
    from: int,
    end: int,
    src: int,
    target: int,
)
    requires
        0 <= from,
        has_edge_between(n0, e0, from, end, src, target),
        grows(n0, e0, n1, e1, end),
        graph_shape(n0, e0, end),
    ensures
        has_edge_between(n1, e1, from, end, src, target),
{
    let e = choose|e: int|
        from <= e < e0.len() && (#[trigger] e0[e]).source == src && owner(n0, e0[e].target as int, end) == target;
    assert(e1[e] == e0[e]);
    let t = e0[e].target as int;
    if t >= end {
        assert(n1[t] == n0[t]);
    }
}

/// Every edge that leaves a crate goes to a dependency of that crate that
/// stays in the graph, or to one of that dependency's features.
pub open spec fn crate_edges_follow<N, E: From<Edge>>(
    b: BuilderModel,
    md: Metadata,
    nodes: Seq<Node<N>>,
    edges: Seq<EdgeRecord<E>>,
    end: int,
) -> bool {
    forall|e: int|
        0 <= e < edges.len() && (#[trigger] edges[e]).source < end ==> dep_step(
            b,
            md,
            node_id(nodes[edges[e].source as int]),
            node_id(nodes[owner(nodes, edges[e].target as int, end)]),
        ) && weight_fits(
            edges[e].weight,
            edges[e].target < end,
            kept_ok(b, md, node_id(nodes[edges[e].source as int]), node_id(nodes[owner(nodes, edges[e].target as int, end)])),
        )
}

/// The kinds and targets of the links from `from` to `to` that stay.
pub open spec fn kept_ok(b: BuilderModel, md: Metadata, from: Seq<char>, to: Seq<char>) -> spec_fn(
    DepKind,
    Option<Seq<char>>,
) -> bool {
    |k: DepKind, c: Option<Seq<char>>| link_kept_as(b, md, from, to, k, c)
}

/// The kinds and targets of the `links`.
pub open spec fn links_ok(links: Seq<DependencyEdge>) -> spec_fn(DepKind, Option<Seq<char>>) -> bool {
    |k: DepKind, c: Option<Seq<char>>| link_in(links, k, c)
}

/// The weight `w` is what `E::from` makes of the edge `x`, where `E`'s
/// `From<Edge>` has a specification.
pub open spec fn weight_is<E: From<Edge>>(w: E, x: Edge) -> bool {
    <E as FromSpec<Edge>>::obeys_from_spec() ==> w == <E as FromSpec<Edge>>::from_spec(x)
}

/// The weight of an edge from a crate: a dependency edge to a crate, or a
/// dependency-feature edge to a feature node, of a kind and target `ok`
/// accepts, or a feature edge to a feature node.
pub open spec fn weight_fits<E: From<Edge>>(w: E, to_crate: bool, ok: spec_fn(DepKind, Option<Seq<char>>) -> bool) -> bool {
    exists|x: Edge|
        #[trigger] weight_is(w, x) && match x {
            Edge::Dep { kind, cfg } => to_crate && ok(kind, opt_str(cfg)),
            Edge::DepFeature { kind, cfg } => !to_crate && ok(kind, opt_str(cfg)),
            Edge::Feature => !to_crate,
        }
}

/// A weight that fits kinds and targets `ok1` accepts fits any `ok2` that
/// accepts them too.
proof fn lemma_weight_fits_mono<E: From<Edge>>(
    w: E,
    to_crate: bool,
    ok1: spec_fn(DepKind, Option<Seq<char>>) -> bool,
    ok2: spec_fn(DepKind, Option<Seq<char>>) -> bool,
)
    requires
        weight_fits(w, to_crate, ok1),
        forall|k: DepKind, c: Option<Seq<char>>| #[trigger] ok1(k, c) ==> ok2(k, c),
    ensures
        weight_fits(w, to_crate, ok2),
{
    let x = choose|x: Edge|
        #[trigger] weight_is(w, x) && match x {
            Edge::Dep { kind, cfg } => to_crate && ok1(kind, opt_str(cfg)),
            Edge::DepFeature { kind, cfg } => !to_crate && ok1(kind, opt_str(cfg)),
            Edge::Feature => !to_crate,
        };
    assert(weight_is(w, x));
}

/// Whether one of the `links` has the kind `k` and the target `c`.
pub open spec fn link_in(links: Seq<DependencyEdge>, k: DepKind, c: Option<Seq<char>>) -> bool {
    exists|q: int| 0 <= q < links.len() && (#[trigger] links[q]).kind == k && opt_str(links[q].cfg) == c
}

/// The node of the feature `name` of the crate at `krate`: the first one
/// after the crates.
fn find_feature_node<N, E>(graph: &Graph<Node<N>, E>, end: usize, krate: usize, name: &str) -> (r: Option<usize>)
    requires
        end <= graph.node_seq().len(),
    ensures
        r matches Some(f) ==> end <= f < graph.node_seq().len() && is_feature_of(
            graph.node_seq()[f as int],
            krate,
            name@,
        ),
        forall|k: int|
            end <= k < graph.node_seq().len() && (r matches Some(f) ==> k < f) ==> !is_feature_of(
                #[trigger] graph.node_seq()[k],
                krate,
                name@,
            ),
{
    let nodes = graph.raw_nodes();
    let mut i: usize = end;
    while i < nodes.len()
        invariant
            end <= i <= nodes@.len(),
            nodes@ == graph.node_seq(),
            forall|k: int| end <= k < i ==> !is_feature_of(#[trigger] graph.node_seq()[k], krate, name@),
        decreases nodes.len() - i,
    {
        if let Node::Feature { krate_index, name: fname } = &nodes[i] {
            if *krate_index == krate && str_eq(fname.as_str(), name) {
                return Some(i);
            }
        }
        i += 1;
    }
    None
}

/// Links `src` to the node of the feature `feat` of the crate at `target`,
/// adding that node, and enabling the feature on the crate, where it is not
/// there yet.
fn attach<N, E: From<Edge>>(
    graph: &mut Graph<Node<N>, E>,
    end: usize,
    src: usize,
    target: usize,
    feat: &str,
    edge: Edge,
)
    requires
        graph_shape(old(graph).node_seq(), old(graph).edge_seq(), end as int),
        src < old(graph).node_seq().len(),
        target < end,
    ensures
        graph_shape(final(graph).node_seq(), final(graph).edge_seq(), end as int),
        grows(
            old(graph).node_seq(),
            old(graph).edge_seq(),
            final(graph).node_seq(),
            final(graph).edge_seq(),
            end as int,
        ),
        edges_between(
            final(graph).node_seq(),
            final(graph).edge_seq(),
            old(graph).edge_seq().len() as int,
            end as int,
            src as int,
            target as int,
        ),
        final(graph).edge_seq().len() == old(graph).edge_seq().len() + 1,
        features_of(final(graph).node_seq()[target as int]).contains(feat@),
        forall|c: int| 0 <= c < end && c != target ==> #[trigger] final(graph).node_seq()[c] == old(graph).node_seq()[c],
        forall|f: Seq<char>|
            #[trigger] features_of(final(graph).node_seq()[target as int]).contains(f) ==> features_of(
                old(graph).node_seq()[target as int],
            ).contains(f) || f == feat@,
        weight_is(final(graph).edge_seq()[old(graph).edge_seq().len() as int].weight, edge),
        final(graph).edge_seq()[old(graph).edge_seq().len() as int].target >= end,
{
    let ghost n0 = graph.node_seq();
    let ghost e0 = graph.edge_seq();
    let feat_node = match find_feature_node(graph, end, target, feat) {
        Some(f) => {
            proof {
                assert(feature_nodes_enabled(n0, end as int));
                assert(n0[f as int] matches Node::Feature { krate_index, name } && features_of(n0[krate_index as int]).contains(name@));
            }
            f
        },
        None => {
            let ghost before = graph.node_seq();
            let f = graph.add_node(Node::Feature { krate_index: target, name: feat.to_string() });
            let ghost mid = graph.node_seq();
            graph.node_mut(target).insert_feature(feat.to_string());
            proof {
                assert(graph.node_seq()[target as int] is Krate) by {
                    assert(mid[target as int] == before[target as int]);
                }
                assert forall|k: int| 0 <= k < end implies #[trigger] graph.node_seq()[k] is Krate by {
                    if k != target {
                        assert(graph.node_seq()[k] == before[k]);
                    }
                }
                assert forall|k: int|
                    end <= k < graph.node_seq().len() implies #[trigger] graph.node_seq()[k] is Feature
                        && graph.node_seq()[k]->krate_index < end by {
                    assert(graph.node_seq()[k] == mid[k]);
                }
                assert(same_crates(before, graph.node_seq(), end as int)) by {
                    assert forall|k: int| 0 <= k < end implies node_id(#[trigger] graph.node_seq()[k]) == node_id(before[k])
                        && krate_of(graph.node_seq()[k]) == krate_of(before[k]) by {
                        assert(mid[k] == before[k]);
                    }
                }
                assert forall|k: int| end <= k < n0.len() implies #[trigger] graph.node_seq()[k] == n0[k] by {
                    assert(mid[k] == before[k]);
                }
                assert(graph.node_seq()[f as int] == mid[f as int]);
                assert forall|c: int| 0 <= c < end && c != target implies #[trigger] graph.node_seq()[c] == n0[c] by {
                    assert(mid[c] == before[c]);
                }
                assert(mid[target as int] == before[target as int]);
            }
            f
        },
    };
    let ghost n1 = graph.node_seq();
    graph.add_edge(src, feat_node, E::from(edge));
    proof {
        assert(graph.edge_seq()[e0.len() as int].target == feat_node);
        assert(n1[feat_node as int] is Feature && n1[feat_node as int]->krate_index == target);
    }
}

} // verus!

verus! {

/// Adds the edges of one dependency of the crate at `src` to the crate at
/// `target`: for each link, an edge to the dependency's `default` feature if
/// the link uses default features, one to each other feature the link
/// enables, and a plain edge to the crate where the link enables neither;
/// then an edge to each feature the crate's own features turn on in it.
fn add_dependency_edges<N, E: From<Edge>>(
    graph: &mut Graph<Node<N>, E>,
    end: usize,
    src: usize,
    target: usize,
    dep: &KrateDependency,
)
    requires
        graph_shape(old(graph).node_seq(), old(graph).edge_seq(), end as int),
        src < end,
        target < end,
    ensures
        graph_shape(final(graph).node_seq(), final(graph).edge_seq(), end as int),
        grows(
            old(graph).node_seq(),
            old(graph).edge_seq(),
            final(graph).node_seq(),
            final(graph).edge_seq(),
            end as int,
        ),
        edges_between(
            final(graph).node_seq(),
            final(graph).edge_seq(),
            old(graph).edge_seq().len() as int,
            end as int,
            src as int,
            target as int,
        ),
        kd_makes_edge(*dep) ==> has_edge_between(
            final(graph).node_seq(),
            final(graph).edge_seq(),
            old(graph).edge_seq().len() as int,
            end as int,
            src as int,
            target as int,
        ),
        forall|f: Seq<char>|
            #[trigger] kd_enables(*dep, f) ==> features_of(final(graph).node_seq()[target as int]).contains(f),
        forall|c: int| 0 <= c < end && c != target ==> #[trigger] final(graph).node_seq()[c] == old(graph).node_seq()[c],
        forall|f: Seq<char>|
            #[trigger] features_of(final(graph).node_seq()[target as int]).contains(f) ==> features_of(
                old(graph).node_seq()[target as int],
            ).contains(f) || kd_enables(*dep, f),
        forall|e: int|
            old(graph).edge_seq().len() <= e < final(graph).edge_seq().len() ==> weight_fits(
                (#[trigger] final(graph).edge_seq()[e]).weight,
                final(graph).edge_seq()[e].target < end,
                links_ok(dep.edges@),
            ),
{
    proof {
        reveal_strlit("default");
    }
    let ghost n0 = graph.node_seq();
    let ghost e0 = graph.edge_seq();
    let mut e: usize = 0;
    while e < dep.edges.len()
        invariant
            e <= dep.edges@.len(),
            src < end,
            target < end,
            graph_shape(graph.node_seq(), graph.edge_seq(), end as int),
            grows(n0, e0, graph.node_seq(), graph.edge_seq(), end as int),
            edges_between(graph.node_seq(), graph.edge_seq(), e0.len() as int, end as int, src as int, target as int),
            (exists|q: int| 0 <= q < e && edge_makes_edge(#[trigger] dep.edges@[q])) ==> graph.edge_seq().len()
                > e0.len(),
            forall|f: Seq<char>|
                #[trigger] edges_enable_upto(dep.edges@, e as int, f) ==> features_of(
                    graph.node_seq()[target as int],
                ).contains(f),
            forall|c: int| 0 <= c < end && c != target ==> #[trigger] graph.node_seq()[c] == n0[c],
            forall|f: Seq<char>|
                #[trigger] features_of(graph.node_seq()[target as int]).contains(f) ==> features_of(
                    n0[target as int],
                ).contains(f) || edges_enable_upto(dep.edges@, e as int, f),
            forall|x: int|
                e0.len() <= x < graph.edge_seq().len() ==> weight_fits(
                    (#[trigger] graph.edge_seq()[x]).weight,
                    graph.edge_seq()[x].target < end,
                    links_ok(dep.edges@),
                ),
        decreases dep.edges.len() - e,
    {
        let edge = &dep.edges[e];
        let ghost start = graph.edge_seq().len();
        let ghost gs = graph.node_seq();
        let attach_direct_edge = !edge.uses_default_features && edge.features.len() == 0;
        if edge.uses_default_features {
            let ghost (n1, e1) = (graph.node_seq(), graph.edge_seq());
            let ed = Edge::DepFeature { kind: edge.kind, cfg: clone_opt(&edge.cfg) };
            let ghost gx = ed;
            attach(graph, end, src, target, "default", ed);
            proof {
                lemma_between_extend(n0, e0, n1, e1, graph.node_seq(), graph.edge_seq(), end as int, src as int, target as int);
                lemma_new_weight(e0, e1, graph.edge_seq(), end as int, dep.edges@, e as int, gx);
            }
        }
        let ghost mid = graph.edge_seq().len();
        let mut f: usize = 0;
        while f < edge.features.len()
            invariant
                f <= edge.features@.len(),
                src < end,
                target < end,
                graph_shape(graph.node_seq(), graph.edge_seq(), end as int),
                grows(n0, e0, graph.node_seq(), graph.edge_seq(), end as int),
                edges_between(graph.node_seq(), graph.edge_seq(), e0.len() as int, end as int, src as int, target as int),
                graph.edge_seq().len() >= mid,
                (exists|g: int| 0 <= g < f && (#[trigger] edge.features@[g])@ != "default"@) ==> graph.edge_seq().len()
                    > mid,
                features_of(gs[target as int]).subset_of(features_of(graph.node_seq()[target as int])),
                edge.uses_default_features ==> features_of(graph.node_seq()[target as int]).contains("default"@),
                forall|c: int| 0 <= c < end && c != target ==> #[trigger] graph.node_seq()[c] == n0[c],
                forall|ff: Seq<char>|
                    #[trigger] features_of(graph.node_seq()[target as int]).contains(ff) ==> features_of(
                        n0[target as int],
                    ).contains(ff) || edges_enable_upto(dep.edges@, e as int, ff) || edge_enables(*edge, ff),
                forall|g: int|
                    0 <= g < f && (#[trigger] edge.features@[g])@ != "default"@ ==> features_of(
                        graph.node_seq()[target as int],
                    ).contains(edge.features@[g]@),
                forall|x: int|
                    e0.len() <= x < graph.edge_seq().len() ==> weight_fits(
                        (#[trigger] graph.edge_seq()[x]).weight,
                        graph.edge_seq()[x].target < end,
                        links_ok(dep.edges@),
                    ),
                *edge == dep.edges@[e as int],
                e < dep.edges@.len(),
            decreases edge.features.len() - f,
        {
            if !str_eq(edge.features[f].as_str(), "default") {
                let ghost (n1, e1) = (graph.node_seq(), graph.edge_seq());
                let ed = Edge::DepFeature { kind: edge.kind, cfg: clone_opt(&edge.cfg) };
                let ghost gx = ed;
                attach(graph, end, src, target, edge.features[f].as_str(), ed);
                proof {
                    lemma_between_extend(n0, e0, n1, e1, graph.node_seq(), graph.edge_seq(), end as int, src as int, target as int);
                    lemma_new_weight(e0, e1, graph.edge_seq(), end as int, dep.edges@, e as int, gx);
                    assert forall|ff: Seq<char>|
                        #[trigger] features_of(graph.node_seq()[target as int]).contains(ff) implies features_of(
                            n0[target as int],
                        ).contains(ff) || edges_enable_upto(dep.edges@, e as int, ff) || edge_enables(*edge, ff) by {
                        if ff == edge.features@[f as int]@ {
                            assert(strs(edge.features@)[f as int] == ff);
                        } else {
                            assert(features_of(n1[target as int]).contains(ff));
                        }
                    }
                }
            }
            f += 1;
        }
        if attach_direct_edge {
            let ed = Edge::Dep { kind: edge.kind, cfg: clone_opt(&edge.cfg) };
            let ghost gx = ed;
            let w = E::from(ed);
            let ghost (n1, e1) = (graph.node_seq(), graph.edge_seq());
            graph.add_edge(src, target, w);
            proof {
                assert(graph.edge_seq()[e1.len() as int].target == target);
                lemma_new_weight(e0, e1, graph.edge_seq(), end as int, dep.edges@, e as int, gx);
                assert(edges_between(graph.node_seq(), graph.edge_seq(), e1.len() as int, end as int, src as int, target as int));
                lemma_between_extend(n0, e0, n1, e1, graph.node_seq(), graph.edge_seq(), end as int, src as int, target as int);
            }
        }
        proof {
            assert(*edge == dep.edges@[e as int]);
            assert forall|ff: Seq<char>|
                #[trigger] features_of(graph.node_seq()[target as int]).contains(ff) implies features_of(
                    n0[target as int],
                ).contains(ff) || edges_enable_upto(dep.edges@, e + 1, ff) by {
                if edges_enable_upto(dep.edges@, e as int, ff) {
                    let q = choose|q: int| 0 <= q < e && edge_enables(#[trigger] dep.edges@[q], ff);
                    assert(edge_enables(dep.edges@[q], ff));
                }
                if edge_enables(*edge, ff) {
                    assert(edge_enables(dep.edges@[e as int], ff));
                }
            }
            assert forall|ff: Seq<char>|
                #[trigger] edges_enable_upto(dep.edges@, e + 1, ff) implies features_of(
                    graph.node_seq()[target as int],
                ).contains(ff) by {
                let q = choose|q: int| 0 <= q < e + 1 && edge_enables(#[trigger] dep.edges@[q], ff);
                if q < e {
                    assert(edges_enable_upto(dep.edges@, e as int, ff));
                    assert(features_of(gs[target as int]).contains(ff));
                } else if !(edge.uses_default_features && ff == "default"@) {
                    let g = choose|g: int| 0 <= g < strs(edge.features@).len() && strs(edge.features@)[g] == ff;
                    assert(edge.features@[g]@ == ff);
                }
            }
            if edge_makes_edge(*edge) {
                if !edge.uses_default_features && edge.features@.len() != 0 {
                    let g = choose|g: int| 0 <= g < edge.features@.len() && (#[trigger] edge.features@[g])@ != "default"@;
                    assert(edge.features@[g]@ != "default"@);
                }
                assert(graph.edge_seq().len() > start);
            }
            assert(start >= e0.len());
            if exists|q: int| 0 <= q < e + 1 && edge_makes_edge(#[trigger] dep.edges@[q]) {
                let q = choose|q: int| 0 <= q < e + 1 && edge_makes_edge(#[trigger] dep.edges@[q]);
                if q < e {
                    assert(start > e0.len());
                }
            }
        }
        e += 1;
    }
    let ghost after_links = graph.edge_seq().len();
    let ghost gl = graph.node_seq();
    proof {
        assert forall|ff: Seq<char>|
            #[trigger] features_of(graph.node_seq()[target as int]).contains(ff) implies features_of(
                n0[target as int],
            ).contains(ff) || kd_enables(*dep, ff) by {
            if edges_enable_upto(dep.edges@, dep.edges@.len() as int, ff) {
                let q = choose|q: int| 0 <= q < dep.edges@.len() && edge_enables(#[trigger] dep.edges@[q], ff);
                assert(edges_enable(dep.edges@, ff));
            }
        }
    }
    let feats = dep.features.items();
    let mut f: usize = 0;
    while f < feats.len()
        invariant
            features_of(gl[target as int]).subset_of(features_of(graph.node_seq()[target as int])),
            forall|q: int| 0 <= q < f ==> features_of(graph.node_seq()[target as int]).contains(#[trigger] feats@[q]@),
            forall|c: int| 0 <= c < end && c != target ==> #[trigger] graph.node_seq()[c] == n0[c],
            forall|ff: Seq<char>|
                #[trigger] features_of(graph.node_seq()[target as int]).contains(ff) ==> features_of(
                    n0[target as int],
                ).contains(ff) || kd_enables(*dep, ff),
            strs(feats@).to_set() == dep.features@,
            f <= feats@.len(),
            src < end,
            target < end,
            graph_shape(graph.node_seq(), graph.edge_seq(), end as int),
            grows(n0, e0, graph.node_seq(), graph.edge_seq(), end as int),
            edges_between(graph.node_seq(), graph.edge_seq(), e0.len() as int, end as int, src as int, target as int),
            graph.edge_seq().len() >= after_links,
            forall|x: int|
                e0.len() <= x < graph.edge_seq().len() ==> weight_fits(
                    (#[trigger] graph.edge_seq()[x]).weight,
                    graph.edge_seq()[x].target < end,
                    links_ok(dep.edges@),
                ),
        decreases feats.len() - f,
    {
        let ghost (n1, e1) = (graph.node_seq(), graph.edge_seq());
        attach(graph, end, src, target, feats[f].as_str(), Edge::Feature);
        proof {
            lemma_new_weight(e0, e1, graph.edge_seq(), end as int, dep.edges@, 0, Edge::Feature);
            lemma_between_extend(n0, e0, n1, e1, graph.node_seq(), graph.edge_seq(), end as int, src as int, target as int);
            assert(features_of(n1[target as int]).subset_of(features_of(graph.node_seq()[target as int])));
            assert forall|ff: Seq<char>|
                #[trigger] features_of(graph.node_seq()[target as int]).contains(ff) implies features_of(
                    n0[target as int],
                ).contains(ff) || kd_enables(*dep, ff) by {
                if ff == feats@[f as int]@ {
                    assert(strs(feats@)[f as int] == ff);
                    assert(strs(feats@).contains(ff));
                    assert(dep.features@.contains(ff));
                } else {
                    assert(features_of(n1[target as int]).contains(ff));
                }
            }
        }
        f += 1;
    }
    proof {
        assert forall|ff: Seq<char>| #[trigger] kd_enables(*dep, ff) implies features_of(
            graph.node_seq()[target as int],
        ).contains(ff) by {
            if edges_enable(dep.edges@, ff) {
                let q = choose|q: int| 0 <= q < dep.edges@.len() && edge_enables(#[trigger] dep.edges@[q], ff);
                assert(edges_enable_upto(dep.edges@, dep.edges@.len() as int, ff));
                assert(features_of(gl[target as int]).contains(ff));
            } else {
                assert(strs(feats@).to_set().contains(ff));
                let q = choose|q: int| 0 <= q < strs(feats@).len() && strs(feats@)[q] == ff;
                assert(feats@[q]@ == ff);
            }
        }
        if kd_makes_edge(*dep) {
            let q = choose|q: int| 0 <= q < dep.edges@.len() && edge_makes_edge(#[trigger] dep.edges@[q]);
            assert(after_links > e0.len());
            let first = e0.len() as int;
            assert(graph.edge_seq()[first].source == src);
        }
    }
}

/// One edge added, whose weight is made of the edge `x`, which fits the
/// `links` (the link at `q` where `x` is a dependency edge), keeps every
/// edge added since `e0` fitting them.
proof fn lemma_new_weight<E: From<Edge>>(
    e0: Seq<EdgeRecord<E>>,
    e1: Seq<EdgeRecord<E>>,
    e2: Seq<EdgeRecord<E>>,
    end: int,
    links: Seq<DependencyEdge>,
    q: int,
    x: Edge,
)
    requires
        e0.len() <= e1.len(),
        e2.len() == e1.len() + 1,
        forall|i: int| 0 <= i < e1.len() ==> #[trigger] e2[i] == e1[i],
        forall|i: int|
            e0.len() <= i < e1.len() ==> weight_fits((#[trigger] e1[i]).weight, e1[i].target < end, links_ok(links)),
        weight_is(e2[e1.len() as int].weight, x),
        match x {
            Edge::Dep { kind, cfg } => e2[e1.len() as int].target < end && 0 <= q < links.len() && links[q].kind
                == kind && opt_str(links[q].cfg) == opt_str(cfg),
            Edge::DepFeature { kind, cfg } => e2[e1.len() as int].target >= end && 0 <= q < links.len()
                && links[q].kind == kind && opt_str(links[q].cfg) == opt_str(cfg),
            Edge::Feature => e2[e1.len() as int].target >= end,
        },
    ensures
        forall|i: int|
            e0.len() <= i < e2.len() ==> weight_fits((#[trigger] e2[i]).weight, e2[i].target < end, links_ok(links)),
{
    assert forall|i: int| e0.len() <= i < e2.len() implies weight_fits(
        (#[trigger] e2[i]).weight,
        e2[i].target < end,
        links_ok(links),
    ) by {
        if i < e1.len() {
            assert(e2[i] == e1[i]);
        } else {
            assert(weight_is(e2[i].weight, x));
            match x {
                Edge::Dep { kind, cfg } => {
                    assert(link_in(links, kind, opt_str(cfg)));
                },
                Edge::DepFeature { kind, cfg } => {
                    assert(link_in(links, kind, opt_str(cfg)));
                },
                Edge::Feature => {},
            }
        }
    }
}

/// Edges added after others, from and to the same crates, keep the earlier
/// ones between those crates too.
proof fn lemma_between_extend<N, E>(
    n0: Seq<Node<N>>,
    e0: Seq<EdgeRecord<E>>,
    n1: Seq<Node<N>>,
    e1: Seq<EdgeRecord<E>>,
    n2: Seq<Node<N>>,
    e2: Seq<EdgeRecord<E>>,
    end: int,
    src: int,
    target: int,
)
    requires
        grows(n0, e0, n1, e1, end),
        grows(n1, e1, n2, e2, end),
        graph_shape(n1, e1, end),
        edges_between(n1, e1, e0.len() as int, end, src, target),
        edges_between(n2, e2, e1.len() as int, end, src, target),
    ensures
        grows(n0, e0, n2, e2, end),
        edges_between(n2, e2, e0.len() as int, end, src, target),
{
    assert forall|e: int| e0.len() <= e < e2.len() implies (#[trigger] e2[e]).source == src && owner(
        n2,
        e2[e].target as int,
        end,
    ) == target by {
        if e < e1.len() {
            assert(e2[e] == e1[e]);
            let t = e1[e].target as int;
            if t >= end {
                assert(n2[t] == n1[t]);
            }
        }
    }
}

/// Edges added from a crate to a kept dependency keep every crate edge on
/// a kept dependency.
proof fn lemma_follow_extend<N, E: From<Edge>>(
    b: BuilderModel,
    md: Metadata,
    n1: Seq<Node<N>>,
    e1: Seq<EdgeRecord<E>>,
    n2: Seq<Node<N>>,
    e2: Seq<EdgeRecord<E>>,
    end: int,
    src: int,
    target: int,
    links: Seq<DependencyEdge>,
)
    requires
        crate_edges_follow(b, md, n1, e1, end),
        grows(n1, e1, n2, e2, end),
        graph_shape(n1, e1, end),
        edges_between(n2, e2, e1.len() as int, end, src, target),
        0 <= src < end,
        0 <= target < end,
        dep_step(b, md, node_id(n1[src]), node_id(n1[target])),
        forall|i: int|
            e1.len() <= i < e2.len() ==> weight_fits((#[trigger] e2[i]).weight, e2[i].target < end, links_ok(links)),
        forall|k: DepKind, c: Option<Seq<char>>|
            #[trigger] link_in(links, k, c) ==> link_kept_as(b, md, node_id(n1[src]), node_id(n1[target]), k, c),
    ensures
        crate_edges_follow(b, md, n2, e2, end),
{
    assert forall|e: int| 0 <= e < e2.len() && (#[trigger] e2[e]).source < end implies weight_fits(
        e2[e].weight,
        e2[e].target < end,
        kept_ok(b, md, node_id(n2[e2[e].source as int]), node_id(n2[owner(n2, e2[e].target as int, end)])),
    ) by {
        if e < e1.len() {
            assert(e2[e] == e1[e]);
            let t = e1[e].target as int;
            if t >= end {
                assert(n2[t] == n1[t]);
            }
            let o = owner(n1, t, end);
            assert(node_id(n2[o]) == node_id(n1[o]));
            assert(node_id(n2[e1[e].source as int]) == node_id(n1[e1[e].source as int]));
            assert(kept_ok(b, md, node_id(n2[e2[e].source as int]), node_id(n2[owner(n2, e2[e].target as int, end)]))
                == kept_ok(b, md, node_id(n1[e1[e].source as int]), node_id(n1[owner(n1, e1[e].target as int, end)])));
        } else {
            assert(node_id(n2[src]) == node_id(n1[src]));
            assert(node_id(n2[target]) == node_id(n1[target]));
            let ok2 = kept_ok(b, md, node_id(n2[e2[e].source as int]), node_id(n2[owner(n2, e2[e].target as int, end)]));
            assert forall|k: DepKind, c: Option<Seq<char>>| #[trigger] links_ok(links)(k, c) implies ok2(k, c) by {
                assert(link_in(links, k, c));
            }
            lemma_weight_fits_mono(e2[e].weight, e2[e].target < end, links_ok(links), ok2);
        }
    }
    assert forall|e: int| 0 <= e < e2.len() && (#[trigger] e2[e]).source < end implies dep_step(
        b,
        md,
        node_id(n2[e2[e].source as int]),
        node_id(n2[owner(n2, e2[e].target as int, end)]),
    ) by {
        if e < e1.len() {
            assert(e2[e] == e1[e]);
            let t = e1[e].target as int;
            if t >= end {
                assert(n2[t] == n1[t]);
            }
            let o = owner(n1, t, end);
            assert(node_id(n2[o]) == node_id(n1[o]));
            assert(node_id(n2[e1[e].source as int]) == node_id(n1[e1[e].source as int]));
        } else {
            assert(node_id(n2[src]) == node_id(n1[src]));
            assert(node_id(n2[target]) == node_id(n1[target]));
        }
    }
}

/// Edges added from features keep every crate edge on a kept dependency.
proof fn lemma_follow_features<N, E: From<Edge>>(
    b: BuilderModel,
    md: Metadata,
    n1: Seq<Node<N>>,
    e1: Seq<EdgeRecord<E>>,
    n2: Seq<Node<N>>,
    e2: Seq<EdgeRecord<E>>,
    end: int,
)
    requires
        crate_edges_follow(b, md, n1, e1, end),
        grows(n1, e1, n2, e2, end),
        graph_shape(n1, e1, end),
        forall|e: int| e1.len() <= e < e2.len() ==> (#[trigger] e2[e]).source >= end,
    ensures
        crate_edges_follow(b, md, n2, e2, end),
{
    assert forall|e: int| 0 <= e < e2.len() && (#[trigger] e2[e]).source < end implies dep_step(
        b,
        md,
        node_id(n2[e2[e].source as int]),
        node_id(n2[owner(n2, e2[e].target as int, end)]),
    ) by {
        assert(e < e1.len());
        assert(e2[e] == e1[e]);
        let t = e1[e].target as int;
        if t >= end {
            assert(n2[t] == n1[t]);
        }
        let o = owner(n1, t, end);
        assert(node_id(n2[o]) == node_id(n1[o]));
        assert(node_id(n2[e1[e].source as int]) == node_id(n1[e1[e].source as int]));
    }
}

/// Each dependency listed for the packages before `i`, and for the package
/// at `i` before its `k`th, that adds an edge by itself is an edge, where
/// both crates are in the graph.
pub open spec fn links_present<N, E>(
    nodes: Seq<Node<N>>,
    edges: Seq<EdgeRecord<E>>,
    end: int,
    nid: Seq<Option<usize>>,
    deps: Seq<Vec<KrateDependency>>,
    i: int,
    k: int,
) -> bool {
    forall|j: int, q: int|
        0 <= j < deps.len() && 0 <= q < deps[j]@.len() && (j < i || (j == i && q < k)) && nid[j] is Some
            && nid[(#[trigger] deps[j]@[q]).pkg as int] is Some && kd_makes_edge(deps[j]@[q])
            ==> has_edge_between(nodes, edges, 0, end, nid[j]->0 as int, nid[deps[j]@[q].pkg as int]->0 as int)
}

/// The edges between crates stay as the graph grows.
proof fn lemma_links_grow<N, E>(
    n0: Seq<Node<N>>,
    e0: Seq<EdgeRecord<E>>,
    n1: Seq<Node<N>>,
    e1: Seq<EdgeRecord<E>>,
    end: int,
    nid: Seq<Option<usize>>,
    deps: Seq<Vec<KrateDependency>>,
    i: int,
    k: int,
)
    requires
        links_present(n0, e0, end, nid, deps, i, k),
        grows(n0, e0, n1, e1, end),
        graph_shape(n0, e0, end),
    ensures
        links_present(n1, e1, end, nid, deps, i, k),
{
    assert forall|j: int, q: int|
        0 <= j < deps.len() && 0 <= q < deps[j]@.len() && (j < i || (j == i && q < k)) && nid[j] is Some
            && nid[(#[trigger] deps[j]@[q]).pkg as int] is Some && kd_makes_edge(deps[j]@[q])
        implies has_edge_between(n1, e1, 0, end, nid[j]->0 as int, nid[deps[j]@[q].pkg as int]->0 as int) by {
        lemma_has_edge_grows(n0, e0, n1, e1, 0, end, nid[j]->0 as int, nid[deps[j]@[q].pkg as int]->0 as int);
    }
}

/// Each feature that a link listed for the packages before `i`, and for
/// the package at `i` before its `k`th dependency, enables in a dependency
/// is enabled on its crate, where both crates are in the graph.
pub open spec fn features_present<N>(
    nodes: Seq<Node<N>>,
    nid: Seq<Option<usize>>,
    deps: Seq<Vec<KrateDependency>>,
    i: int,
    k: int,
) -> bool {
    forall|j: int, q: int, f: Seq<char>|
        0 <= j < deps.len() && 0 <= q < deps[j]@.len() && (j < i || (j == i && q < k)) && nid[j] is Some
            && nid[deps[j]@[q].pkg as int] is Some && #[trigger] kd_enables(deps[j]@[q], f)
            ==> features_of(nodes[nid[deps[j]@[q].pkg as int]->0 as int]).contains(f)
}

/// The features enabled on crates stay as the graph grows.
proof fn lemma_features_grow<N, E>(
    n0: Seq<Node<N>>,
    e0: Seq<EdgeRecord<E>>,
    n1: Seq<Node<N>>,
    e1: Seq<EdgeRecord<E>>,
    end: int,
    nid: Seq<Option<usize>>,
    deps: Seq<Vec<KrateDependency>>,
    i: int,
    k: int,
)
    requires
        features_present(n0, nid, deps, i, k),
        grows(n0, e0, n1, e1, end),
        forall|j: int| 0 <= j < nid.len() && #[trigger] nid[j] is Some ==> nid[j]->0 < end,
        forall|j: int, q: int| 0 <= j < deps.len() && 0 <= q < deps[j]@.len() ==> (#[trigger] deps[j]@[q]).pkg < nid.len(),
    ensures
        features_present(n1, nid, deps, i, k),
{
    assert forall|j: int, q: int, f: Seq<char>|
        0 <= j < deps.len() && 0 <= q < deps[j]@.len() && (j < i || (j == i && q < k)) && nid[j] is Some
            && nid[deps[j]@[q].pkg as int] is Some && #[trigger] kd_enables(deps[j]@[q], f)
        implies features_of(n1[nid[deps[j]@[q].pkg as int]->0 as int]).contains(f) by {
        let t = nid[deps[j]@[q].pkg as int]->0 as int;
        assert(nid[deps[j]@[q].pkg as int] is Some);
        assert(t < end);
        assert(features_of(n0[t]).subset_of(features_of(n1[t])));
    }
}

/// The feature `f` of the crate at `c` is enabled by one of the
/// dependencies listed for the packages before `i`, and for the package at
/// `i` before its `k`th, both of whose crates are in the graph.
pub open spec fn dep_feature_from(
    nid: Seq<Option<usize>>,
    deps: Seq<Vec<KrateDependency>>,
    i: int,
    k: int,
    c: int,
    f: Seq<char>,
) -> bool {
    exists|j: int, q: int|
        0 <= j < deps.len() && 0 <= q < deps[j]@.len() && (j < i || (j == i && q < k)) && nid[j] is Some
            && nid[deps[j]@[q].pkg as int] == Some(c as usize) && #[trigger] kd_enables(deps[j]@[q], f)
}

/// More dependencies listed enable at least as much.
proof fn lemma_dep_feature_from_mono(
    nid: Seq<Option<usize>>,
    deps: Seq<Vec<KrateDependency>>,
    i1: int,
    k1: int,
    i2: int,
    k2: int,
    c: int,
    f: Seq<char>,
)
    requires
        dep_feature_from(nid, deps, i1, k1, c, f),
        i1 < i2 || (i1 == i2 && k1 <= k2),
    ensures
        dep_feature_from(nid, deps, i2, k2, c, f),
{
    let (j, q) = choose|j: int, q: int|
        0 <= j < deps.len() && 0 <= q < deps[j]@.len() && (j < i1 || (j == i1 && q < k1)) && nid[j] is Some
            && nid[deps[j]@[q].pkg as int] == Some(c as usize) && #[trigger] kd_enables(deps[j]@[q], f);
    assert(kd_enables(deps[j]@[q], f));
}

/// Adds, for each crate of the graph, the edges of its dependencies whose
/// crate is in the graph too.
fn add_dep_edges<N, E: From<Edge>>(
    graph: &mut Graph<Node<N>, E>,
    end: usize,
    nid: &Vec<Option<usize>>,
    deps: &Vec<Vec<KrateDependency>>,
    Ghost(b): Ghost<BuilderModel>,
    Ghost(md): Ghost<Metadata>,
    Ghost(ids): Ghost<Seq<Seq<char>>>,
)
    requires
        graph_shape(old(graph).node_seq(), old(graph).edge_seq(), end as int),
        crate_edges_follow(b, md, old(graph).node_seq(), old(graph).edge_seq(), end as int),
        nid@.len() == deps@.len(),
        ids.len() == nid@.len(),
        forall|i: int|
            0 <= i < nid@.len() && #[trigger] nid@[i] is Some ==> nid@[i]->0 < end && node_id(
                old(graph).node_seq()[nid@[i]->0 as int],
            ) == ids[i],
        forall|i: int, k: int|
            0 <= i < deps@.len() && 0 <= k < deps@[i]@.len() ==> (#[trigger] deps@[i]@[k]).pkg
                < nid@.len(),
        forall|i: int, k: int|
            0 <= i < deps@.len() && nid@[i] is Some && 0 <= k < deps@[i]@.len() ==> dep_step(
                b,
                md,
                ids[i],
                ids[(#[trigger] deps@[i]@[k]).pkg as int],
            ),
        forall|i: int, k: int, x: int|
            0 <= i < deps@.len() && nid@[i] is Some && 0 <= k < deps@[i]@.len() && 0 <= x < deps@[i]@[k].edges@.len()
                ==> link_kept_as(
                b,
                md,
                ids[i],
                ids[deps@[i]@[k].pkg as int],
                (#[trigger] deps@[i]@[k].edges@[x]).kind,
                opt_str(deps@[i]@[k].edges@[x].cfg),
            ),
    ensures
        graph_shape(final(graph).node_seq(), final(graph).edge_seq(), end as int),
        crate_edges_follow(b, md, final(graph).node_seq(), final(graph).edge_seq(), end as int),
        grows(
            old(graph).node_seq(),
            old(graph).edge_seq(),
            final(graph).node_seq(),
            final(graph).edge_seq(),
            end as int,
        ),
        links_present(final(graph).node_seq(), final(graph).edge_seq(), end as int, nid@, deps@, nid@.len() as int, 0),
        features_present(final(graph).node_seq(), nid@, deps@, nid@.len() as int, 0),
        forall|c: int, f: Seq<char>|
            0 <= c < end && #[trigger] features_of(final(graph).node_seq()[c]).contains(f) ==> features_of(
                old(graph).node_seq()[c],
            ).contains(f) || dep_feature_from(nid@, deps@, nid@.len() as int, 0, c, f),
        forall|e: int|
            old(graph).edge_seq().len() <= e < final(graph).edge_seq().len() ==> (
            #[trigger] final(graph).edge_seq()[e]).source < end,
{
    let ghost n0 = graph.node_seq();
    let ghost e0 = graph.edge_seq();
    let mut i: usize = 0;
    while i < nid.len()
        invariant
            forall|c: int, f: Seq<char>|
                0 <= c < end && #[trigger] features_of(graph.node_seq()[c]).contains(f) ==> features_of(
                    n0[c],
                ).contains(f) || dep_feature_from(nid@, deps@, i as int, 0, c, f),
            links_present(graph.node_seq(), graph.edge_seq(), end as int, nid@, deps@, i as int, 0),
            features_present(graph.node_seq(), nid@, deps@, i as int, 0),
            i <= nid@.len(),
            nid@.len() == deps@.len(),
            ids.len() == nid@.len(),
            forall|j: int|
                0 <= j < nid@.len() && #[trigger] nid@[j] is Some ==> nid@[j]->0 < end && node_id(
                    n0[nid@[j]->0 as int],
                ) == ids[j],
            forall|j: int, k: int|
                0 <= j < deps@.len() && 0 <= k < deps@[j]@.len() ==> (#[trigger] deps@[j]@[k]).pkg
                    < nid@.len(),
            forall|j: int, k: int|
                0 <= j < deps@.len() && nid@[j] is Some && 0 <= k < deps@[j]@.len() ==> dep_step(
                    b,
                    md,
                    ids[j],
                    ids[(#[trigger] deps@[j]@[k]).pkg as int],
                ),
            forall|j: int, k: int, x: int|
                0 <= j < deps@.len() && nid@[j] is Some && 0 <= k < deps@[j]@.len() && 0 <= x < deps@[j]@[k].edges@.len()
                    ==> link_kept_as(
                    b,
                    md,
                    ids[j],
                    ids[deps@[j]@[k].pkg as int],
                    (#[trigger] deps@[j]@[k].edges@[x]).kind,
                    opt_str(deps@[j]@[k].edges@[x].cfg),
                ),
            graph_shape(graph.node_seq(), graph.edge_seq(), end as int),
            crate_edges_follow(b, md, graph.node_seq(), graph.edge_seq(), end as int),
            grows(n0, e0, graph.node_seq(), graph.edge_seq(), end as int),
            forall|e: int| e0.len() <= e < graph.edge_seq().len() ==> (#[trigger] graph.edge_seq()[e]).source < end,
        decreases nid.len() - i,
    {
        if let Some(src) = nid[i] {
            let list = &deps[i];
            let mut k: usize = 0;
            while k < list.len()
                invariant
                    forall|c: int, f: Seq<char>|
                        0 <= c < end && #[trigger] features_of(graph.node_seq()[c]).contains(f) ==> features_of(
                            n0[c],
                        ).contains(f) || dep_feature_from(nid@, deps@, i as int, k as int, c, f),
                    nid@.len() == deps@.len(),
                    links_present(graph.node_seq(), graph.edge_seq(), end as int, nid@, deps@, i as int, k as int),
                    features_present(graph.node_seq(), nid@, deps@, i as int, k as int),
                    forall|j: int, q: int|
                        0 <= j < deps@.len() && 0 <= q < deps@[j]@.len() ==> (#[trigger] deps@[j]@[q]).pkg < nid@.len(),
                    k <= list@.len(),
                    i < nid@.len(),
                    ids.len() == nid@.len(),
                    list == deps@[i as int],
                    nid@[i as int] == Some(src),
                    src < end,
                    node_id(n0[src as int]) == ids[i as int],
                    forall|j: int|
                        0 <= j < nid@.len() && #[trigger] nid@[j] is Some ==> nid@[j]->0 < end && node_id(
                            n0[nid@[j]->0 as int],
                        ) == ids[j],
                    forall|q: int| 0 <= q < list@.len() ==> (#[trigger] list@[q]).pkg < nid@.len(),
                    forall|q: int| 0 <= q < list@.len() ==> dep_step(b, md, ids[i as int], ids[(#[trigger] list@[q]).pkg as int]),
                    forall|q: int, x: int|
                        0 <= q < list@.len() && 0 <= x < list@[q].edges@.len() ==> link_kept_as(
                            b,
                            md,
                            ids[i as int],
                            ids[list@[q].pkg as int],
                            (#[trigger] list@[q].edges@[x]).kind,
                            opt_str(list@[q].edges@[x].cfg),
                        ),
                    graph_shape(graph.node_seq(), graph.edge_seq(), end as int),
                    crate_edges_follow(b, md, graph.node_seq(), graph.edge_seq(), end as int),
                    grows(n0, e0, graph.node_seq(), graph.edge_seq(), end as int),
                    forall|e: int| e0.len() <= e < graph.edge_seq().len() ==> (#[trigger] graph.edge_seq()[e]).source < end,
                decreases list.len() - k,
            {
                let dep = &list[k];
                if let Some(target) = nid[dep.pkg] {
                    let ghost (n1, e1) = (graph.node_seq(), graph.edge_seq());
                    add_dependency_edges(graph, end, src, target, dep);
                    proof {
                        assert(node_id(n1[src as int]) == ids[i as int]);
                        assert(node_id(n1[target as int]) == ids[dep.pkg as int]);
                        assert forall|kk: DepKind, c: Option<Seq<char>>| #[trigger] link_in(dep.edges@, kk, c) implies link_kept_as(
                            b,
                            md,
                            node_id(n1[src as int]),
                            node_id(n1[target as int]),
                            kk,
                            c,
                        ) by {
                            let x = choose|x: int| 0 <= x < dep.edges@.len() && (#[trigger] dep.edges@[x]).kind == kk && opt_str(dep.edges@[x].cfg) == c;
                            assert(list@[k as int] == *dep);
                            assert(list@[k as int].edges@[x] == dep.edges@[x]);
                        }
                        lemma_follow_extend(b, md, n1, e1, graph.node_seq(), graph.edge_seq(), end as int, src as int, target as int, dep.edges@);
                        assert forall|x: int| e0.len() <= x < graph.edge_seq().len() implies (#[trigger] graph.edge_seq()[x]).source < end by {
                            if x < e1.len() {
                                assert(graph.edge_seq()[x] == e1[x]);
                            }
                        }
                        lemma_links_grow(n1, e1, graph.node_seq(), graph.edge_seq(), end as int, nid@, deps@, i as int, k as int);
                        lemma_features_grow(n1, e1, graph.node_seq(), graph.edge_seq(), end as int, nid@, deps@, i as int, k as int);
                        let (n2, e2) = (graph.node_seq(), graph.edge_seq());
                        assert forall|c: int, ff: Seq<char>|
                            0 <= c < end && #[trigger] features_of(n2[c]).contains(ff) implies features_of(n0[c]).contains(ff)
                                || dep_feature_from(nid@, deps@, i as int, k + 1, c, ff) by {
                            if c == target && !features_of(n1[c]).contains(ff) {
                                assert(kd_enables(*dep, ff));
                                assert(deps@[i as int]@[k as int] == *dep);
                                assert(kd_enables(deps@[i as int]@[k as int], ff));
                            } else {
                                assert(features_of(n1[c]).contains(ff));
                                if dep_feature_from(nid@, deps@, i as int, k as int, c, ff) {
                                    lemma_dep_feature_from_mono(nid@, deps@, i as int, k as int, i as int, k + 1, c, ff);
                                }
                            }
                        }
                        assert forall|j: int, q: int, f: Seq<char>|
                            0 <= j < deps@.len() && 0 <= q < deps@[j]@.len() && (j < i || (j == i && q < k + 1))
                                && nid@[j] is Some && nid@[deps@[j]@[q].pkg as int] is Some
                                && #[trigger] kd_enables(deps@[j]@[q], f)
                            implies features_of(n2[nid@[deps@[j]@[q].pkg as int]->0 as int]).contains(f) by {
                            if j == i && q == k {
                                assert(deps@[j]@[q] == *dep);
                            }
                        }
                        assert forall|j: int, q: int|
                            0 <= j < deps@.len() && 0 <= q < deps@[j]@.len() && (j < i || (j == i && q < k + 1))
                                && nid@[j] is Some && nid@[(#[trigger] deps@[j]@[q]).pkg as int] is Some
                                && kd_makes_edge(deps@[j]@[q])
                            implies has_edge_between(n2, e2, 0, end as int, nid@[j]->0 as int, nid@[deps@[j]@[q].pkg as int]->0 as int) by {
                            if j == i && q == k {
                                assert(deps@[j]@[q] == *dep);
                                let e = choose|e: int|
                                    e1.len() <= e < e2.len() && (#[trigger] e2[e]).source == src && owner(
                                        n2,
                                        e2[e].target as int,
                                        end as int,
                                    ) == target;
                                assert(e2[e].source == src);
                            }
                        }
                    }
                } else {
                    proof {
                        assert forall|c: int, ff: Seq<char>|
                            0 <= c < end && #[trigger] features_of(graph.node_seq()[c]).contains(ff) implies features_of(
                                n0[c],
                            ).contains(ff) || dep_feature_from(nid@, deps@, i as int, k + 1, c, ff) by {
                            if dep_feature_from(nid@, deps@, i as int, k as int, c, ff) {
                                lemma_dep_feature_from_mono(nid@, deps@, i as int, k as int, i as int, k + 1, c, ff);
                            }
                        }
                        assert forall|j: int, q: int, f: Seq<char>|
                            0 <= j < deps@.len() && 0 <= q < deps@[j]@.len() && (j < i || (j == i && q < k + 1))
                                && nid@[j] is Some && nid@[deps@[j]@[q].pkg as int] is Some
                                && #[trigger] kd_enables(deps@[j]@[q], f)
                            implies features_of(graph.node_seq()[nid@[deps@[j]@[q].pkg as int]->0 as int]).contains(f) by {
                            if j == i && q == k {
                                assert(deps@[j]@[q] == *dep);
                            }
                        }
                        assert forall|j: int, q: int|
                            0 <= j < deps@.len() && 0 <= q < deps@[j]@.len() && (j < i || (j == i && q < k + 1))
                                && nid@[j] is Some && nid@[(#[trigger] deps@[j]@[q]).pkg as int] is Some
                                && kd_makes_edge(deps@[j]@[q])
                            implies has_edge_between(graph.node_seq(), graph.edge_seq(), 0, end as int, nid@[j]->0 as int, nid@[deps@[j]@[q].pkg as int]->0 as int) by {
                            if j == i && q == k {
                                assert(deps@[j]@[q] == *dep);
                            }
                        }
                    }
                }
                k += 1;
            }
            proof {
                assert forall|c: int, ff: Seq<char>|
                    0 <= c < end && #[trigger] features_of(graph.node_seq()[c]).contains(ff) implies features_of(
                        n0[c],
                    ).contains(ff) || dep_feature_from(nid@, deps@, i + 1, 0, c, ff) by {
                    if dep_feature_from(nid@, deps@, i as int, k as int, c, ff) {
                        lemma_dep_feature_from_mono(nid@, deps@, i as int, k as int, i + 1, 0, c, ff);
                    }
                }
                assert forall|j: int, q: int|
                    0 <= j < deps@.len() && 0 <= q < deps@[j]@.len() && (j < i + 1 || (j == i + 1 && q < 0))
                        && nid@[j] is Some && nid@[(#[trigger] deps@[j]@[q]).pkg as int] is Some
                        && kd_makes_edge(deps@[j]@[q])
                    implies has_edge_between(graph.node_seq(), graph.edge_seq(), 0, end as int, nid@[j]->0 as int, nid@[deps@[j]@[q].pkg as int]->0 as int) by {
                    if j == i {
                        assert(q < list@.len());
                    }
                }
                assert forall|j: int, q: int, f: Seq<char>|
                    0 <= j < deps@.len() && 0 <= q < deps@[j]@.len() && (j < i + 1 || (j == i + 1 && q < 0))
                        && nid@[j] is Some && nid@[deps@[j]@[q].pkg as int] is Some
                        && #[trigger] kd_enables(deps@[j]@[q], f)
                    implies features_of(graph.node_seq()[nid@[deps@[j]@[q].pkg as int]->0 as int]).contains(f) by {
                    if j == i {
                        assert(q < list@.len());
                    }
                }
            }
        } else {
            proof {
                assert forall|c: int, ff: Seq<char>|
                    0 <= c < end && #[trigger] features_of(graph.node_seq()[c]).contains(ff) implies features_of(
                        n0[c],
                    ).contains(ff) || dep_feature_from(nid@, deps@, i + 1, 0, c, ff) by {
                    if dep_feature_from(nid@, deps@, i as int, 0, c, ff) {
                        lemma_dep_feature_from_mono(nid@, deps@, i as int, 0, i + 1, 0, c, ff);
                    }
                }
                assert forall|j: int, q: int|
                    0 <= j < deps@.len() && 0 <= q < deps@[j]@.len() && (j < i + 1 || (j == i + 1 && q < 0))
                        && nid@[j] is Some && nid@[(#[trigger] deps@[j]@[q]).pkg as int] is Some
                        && kd_makes_edge(deps@[j]@[q])
                    implies has_edge_between(graph.node_seq(), graph.edge_seq(), 0, end as int, nid@[j]->0 as int, nid@[deps@[j]@[q].pkg as int]->0 as int) by {
                    assert(j != i);
                }
                assert forall|j: int, q: int, f: Seq<char>|
                    0 <= j < deps@.len() && 0 <= q < deps@[j]@.len() && (j < i + 1 || (j == i + 1 && q < 0))
                        && nid@[j] is Some && nid@[deps@[j]@[q].pkg as int] is Some
                        && #[trigger] kd_enables(deps@[j]@[q], f)
                    implies features_of(graph.node_seq()[nid@[deps@[j]@[q].pkg as int]->0 as int]).contains(f) by {
                    assert(j != i);
                }
            }
        }
        i += 1;
    }
}

} // verus!

verus! {

/// The position of the entry named `feat`, if any.
fn feature_entry_position(entries: &Vec<(String, Vec<FeatureEdge>)>, feat: &str) -> (r: Option<usize>)
    ensures
        r matches Some(i) ==> i < entries@.len() && entries@[i as int].0@ == feat@,
        r is None ==> !entry_named(entries@, feat@),
{
    let mut i: usize = 0;
    while i < entries.len()
        invariant
            i <= entries@.len(),
            forall|a: int| 0 <= a < i ==> (#[trigger] entries@[a]).0@ != feat@,
        decreases entries.len() - i,
    {
        if str_eq(entries[i].0.as_str(), feat) {
            return Some(i);
        }
        i += 1;
    }
    None
}

/// Whether the crate node at `k` has the feature `name` enabled.
fn has_feature<N, E>(graph: &Graph<Node<N>, E>, k: usize, name: &str) -> (r: bool)
    requires
        k < graph.node_seq().len(),
    ensures
        r == features_of(graph.node_seq()[k as int]).contains(name@),
{
    match graph.node(k) {
        Node::Krate { features, .. } => features.contains(name),
        Node::Feature { .. } => false,
    }
}

/// The name a feature link gives the node it leads to: the feature's, or
/// the dependency's rename; none for a link to the dependency itself.
pub open spec fn link_name(e: FeatureEdge) -> Option<Seq<char>> {
    match e.name {
        FeatureEdgeName::Feature(s) => Some(s@),
        FeatureEdgeName::Rename(s) => Some(s@),
        FeatureEdgeName::Krate => None,
    }
}

/// Whether a link of one of the entries gives the name `f`.
pub open spec fn entries_name(entries: Seq<(String, Vec<FeatureEdge>)>, f: Seq<char>) -> bool {
    exists|a: int, c: int|
        0 <= a < entries.len() && 0 <= c < entries[a].1@.len() && #[trigger] link_name(entries[a].1@[c]) == Some(f)
}

/// Whether the entries of one of the first `upto` packages, whose crate sits
/// at `c`, give the name `f` by a link.
pub open spec fn crate_entries_name(
    nid: Seq<Option<usize>>,
    features: Seq<Vec<(String, Vec<FeatureEdge>)>>,
    upto: int,
    c: int,
    f: Seq<char>,
) -> bool {
    exists|j: int| 0 <= j < upto && nid[j] == Some(c as usize) && #[trigger] entries_name(features[j]@, f)
}

/// Whether one of the feature entries is named `f`.
pub open spec fn entry_named(entries: Seq<(String, Vec<FeatureEdge>)>, f: Seq<char>) -> bool {
    exists|a: int| 0 <= a < entries.len() && (#[trigger] entries[a]).0@ == f
}

/// Whether an edge links the node of the feature `f` of the crate at `k` to
/// that crate.
pub open spec fn feature_linked<N, E>(
    nodes: Seq<Node<N>>,
    edges: Seq<EdgeRecord<E>>,
    end: int,
    k: int,
    f: Seq<char>,
) -> bool {
    exists|e: int|
        0 <= e < edges.len() && (#[trigger] edges[e]).target == k && end <= edges[e].source < nodes.len()
            && is_feature_of(nodes[edges[e].source as int], k as usize, f)
}

/// A feature linked to its crate stays linked as the graph grows.
proof fn lemma_linked_stays<N, E>(
    n0: Seq<Node<N>>,
    e0: Seq<EdgeRecord<E>>,
    n1: Seq<Node<N>>,
    e1: Seq<EdgeRecord<E>>,
    end: int,
    k: int,
    f: Seq<char>,
)
    requires
        feature_linked(n0, e0, end, k, f),
        grows(n0, e0, n1, e1, end),
    ensures
        feature_linked(n1, e1, end, k, f),
{
    let e = choose|e: int|
        0 <= e < e0.len() && (#[trigger] e0[e]).target == k && end <= e0[e].source < n0.len()
            && is_feature_of(n0[e0[e].source as int], k as usize, f);
    assert(e1[e] == e0[e]);
    assert(n1[e0[e].source as int] == n0[e0[e].source as int]);
}

/// Finds, or adds, the node of the feature `feat`, enabled on the crate at
/// `kind`, and links it to the crate; returns the node's position.
fn link_feature_node<N, E: From<Edge>>(graph: &mut Graph<Node<N>, E>, end: usize, kind: usize, feat: String) -> (r: usize)
    requires
        graph_shape(old(graph).node_seq(), old(graph).edge_seq(), end as int),
        kind < end,
        features_of(old(graph).node_seq()[kind as int]).contains(feat@),
    ensures
        graph_shape(final(graph).node_seq(), final(graph).edge_seq(), end as int),
        grows(
            old(graph).node_seq(),
            old(graph).edge_seq(),
            final(graph).node_seq(),
            final(graph).edge_seq(),
            end as int,
        ),
        end <= r < final(graph).node_seq().len(),
        forall|c: int| 0 <= c < end ==> #[trigger] final(graph).node_seq()[c] == old(graph).node_seq()[c],
        forall|e: int|
            old(graph).edge_seq().len() <= e < final(graph).edge_seq().len() ==> (
            #[trigger] final(graph).edge_seq()[e]).source == r && weight_is(final(graph).edge_seq()[e].weight, Edge::Feature),
        feature_linked(final(graph).node_seq(), final(graph).edge_seq(), end as int, kind as int, feat@),
        is_feature_of(final(graph).node_seq()[r as int], kind, feat@),
{
    let ghost n0 = graph.node_seq();
    let ghost e0 = graph.edge_seq();
    let ghost fname = feat@;
    let src_id = match find_feature_node(graph, end, kind, feat.as_str()) {
        Some(f) => f,
        None => {
            let ghost g0 = graph.node_seq();
            let f = graph.add_node(Node::Feature { krate_index: kind, name: feat });
            proof {
                assert(feature_nodes_enabled(graph.node_seq(), end as int)) by {
                    assert forall|k: int| end <= k < graph.node_seq().len() implies (#[trigger] graph.node_seq()[k] matches Node::Feature { krate_index, name }
                        && features_of(graph.node_seq()[krate_index as int]).contains(name@)) by {
                        if k < g0.len() {
                            assert(graph.node_seq()[k] == g0[k]);
                            assert(g0[k]->krate_index < end);
                            assert(graph.node_seq()[g0[k]->krate_index as int] == g0[g0[k]->krate_index as int]);
                        } else {
                            assert(graph.node_seq()[kind as int] == g0[kind as int]);
                        }
                    }
                }
                assert forall|k: int| 0 <= k < end implies node_id(#[trigger] graph.node_seq()[k]) == node_id(g0[k])
                    && krate_of(graph.node_seq()[k]) == krate_of(g0[k]) by {
                    assert(graph.node_seq()[k] == g0[k]);
                }
                assert forall|k: int| 0 <= k < end implies #[trigger] graph.node_seq()[k] == g0[k] by {}
                assert forall|k: int| end <= k < g0.len() implies #[trigger] graph.node_seq()[k] == g0[k] by {}
            }
            f
        },
    };
    let ghost n1 = graph.node_seq();
    graph.add_edge(src_id, kind, E::from(Edge::Feature));
    proof {
        let e = e0.len() as int;
        assert(graph.edge_seq()[e].target == kind && graph.edge_seq()[e].source == src_id);
        assert(is_feature_of(graph.node_seq()[src_id as int], kind, fname));
        assert(feature_linked(graph.node_seq(), graph.edge_seq(), end as int, kind as int, fname));
    }
    src_id
}

/// Links the features of the crate at `kind` (package `me`): starting from
/// the features enabled on the crate, each feature gets a node linked to the
/// crate, and links to what its entries name. An entry naming a feature
/// that has no node yet adds one, belonging to this crate, and enables that
/// feature on this crate, whose links then follow in turn.
fn add_krate_feature_edges<N, E: From<Edge>>(
    graph: &mut Graph<Node<N>, E>,
    end: usize,
    kind: usize,
    me: usize,
    nid: &Vec<Option<usize>>,
    entries: Vec<(String, Vec<FeatureEdge>)>,
)
    requires
        graph_shape(old(graph).node_seq(), old(graph).edge_seq(), end as int),
        kind < end,
        me < nid@.len(),
        nid@[me as int] == Some(kind),
        forall|i: int| 0 <= i < nid@.len() && #[trigger] nid@[i] is Some ==> nid@[i]->0 < end,
        feature_edges_valid(entries@, nid@.len()),
    ensures
        graph_shape(final(graph).node_seq(), final(graph).edge_seq(), end as int),
        grows(
            old(graph).node_seq(),
            old(graph).edge_seq(),
            final(graph).node_seq(),
            final(graph).edge_seq(),
            end as int,
        ),
        forall|e: int|
            old(graph).edge_seq().len() <= e < final(graph).edge_seq().len() ==> (
            #[trigger] final(graph).edge_seq()[e]).source >= end && weight_is(
            final(graph).edge_seq()[e].weight,
            Edge::Feature,
            ),
        forall|c: int| 0 <= c < end && c != kind ==> #[trigger] final(graph).node_seq()[c] == old(graph).node_seq()[c],
        forall|f: Seq<char>|
            #[trigger] features_of(final(graph).node_seq()[kind as int]).contains(f) && entry_named(entries@, f)
                ==> feature_done(
                final(graph).node_seq(),
                final(graph).edge_seq(),
                end as int,
                kind as int,
                me as int,
                nid@,
                entries@,
                f,
            ),
        forall|ff: Seq<char>|
            #[trigger] features_of(final(graph).node_seq()[kind as int]).contains(ff) ==> features_of(
                old(graph).node_seq()[kind as int],
            ).contains(ff) || entries_name(entries@, ff),
{
    let ghost orig = graph.node_seq();
    let ghost e0 = graph.edge_seq();
    let ghost eo = entries@;
    let mut entries = entries;
    let mut stack: Vec<String> = match graph.node(kind) {
        Node::Krate { features, .. } => {
            let items = features.items();
            let r = clone_strings(items);
            proof {
                assert forall|q: int| 0 <= q < r@.len() implies features_of(graph.node_seq()[kind as int]).contains(
                    #[trigger] r@[q]@,
                ) by {
                    assert(strs(r@)[q] == r@[q]@);
                    assert(strs(items@).to_set().contains(strs(r@)[q]));
                }
            }
            r
        },
        Node::Feature { .. } => Vec::new(),
    };
    proof {
        assert forall|x: int| 0 <= x < entries@.len() implies entry_of(eo, #[trigger] entries@[x]) by {
            assert(eo[x] == entries@[x]);
        }
    }
    while stack.len() > 0
        invariant
            forall|q: int| 0 <= q < stack@.len() ==> features_of(graph.node_seq()[kind as int]).contains(
                #[trigger] stack@[q]@,
            ),
            kind < end,
            me < nid@.len(),
            nid@[me as int] == Some(kind),
            forall|i: int| 0 <= i < nid@.len() && #[trigger] nid@[i] is Some ==> nid@[i]->0 < end,
            feature_edges_valid(entries@, nid@.len()),
            graph_shape(graph.node_seq(), graph.edge_seq(), end as int),
            grows(orig, e0, graph.node_seq(), graph.edge_seq(), end as int),
            forall|e: int| e0.len() <= e < graph.edge_seq().len() ==> (#[trigger] graph.edge_seq()[e]).source >= end && weight_is(graph.edge_seq()[e].weight, Edge::Feature),
            forall|c: int| 0 <= c < end && c != kind ==> #[trigger] graph.node_seq()[c] == orig[c],
            forall|f: Seq<char>|
                #[trigger] features_of(graph.node_seq()[kind as int]).contains(f) ==> strs(stack@).contains(f)
                    || !entry_named(eo, f) || feature_done(
                    graph.node_seq(),
                    graph.edge_seq(),
                    end as int,
                    kind as int,
                    me as int,
                    nid@,
                    eo,
                    f,
                ),
            forall|f: Seq<char>|
                #[trigger] entry_named(eo, f) ==> entry_named(entries@, f) || feature_done(
                    graph.node_seq(),
                    graph.edge_seq(),
                    end as int,
                    kind as int,
                    me as int,
                    nid@,
                    eo,
                    f,
                ),
            forall|x: int| 0 <= x < entries@.len() ==> entry_of(eo, #[trigger] entries@[x]),
            forall|ff: Seq<char>|
                #[trigger] features_of(graph.node_seq()[kind as int]).contains(ff) ==> features_of(
                    orig[kind as int],
                ).contains(ff) || entries_name(eo, ff),
        decreases entries@.len(), stack@.len(),
    {
        let ghost st = stack@;
        let ghost (gs, ges) = (graph.node_seq(), graph.edge_seq());
        let feat = stack.pop().unwrap();
        assert(feat == st[st.len() - 1]);
        proof {
            assert(st == stack@.push(feat));
            assert(strs(st) == strs(stack@).push(feat@));
        }
        let pos = match feature_entry_position(&entries, feat.as_str()) {
            Some(pos) => pos,
            None => {
                proof {
                    assert forall|f: Seq<char>|
                        #[trigger] features_of(graph.node_seq()[kind as int]).contains(f) implies strs(stack@).contains(f)
                            || !entry_named(eo, f) || feature_done(
                            graph.node_seq(),
                            graph.edge_seq(),
                            end as int,
                            kind as int,
                            me as int,
                            nid@,
                            eo,
                            f,
                        ) by {
                        if strs(st).contains(f) && f != feat@ {
                            let q = choose|q: int| 0 <= q < strs(st).len() && strs(st)[q] == f;
                            assert(strs(stack@)[q] == f);
                        }
                    }
                }
                continue;
            },
        };
        let ghost before = entries@;
        let (_, subs) = entries.swap_remove(pos);
        proof {
            assert forall|f: Seq<char>| #[trigger] entry_named(before, f) && f != feat@ implies entry_named(entries@, f) by {
                let a = choose|a: int| 0 <= a < before.len() && (#[trigger] before[a]).0@ == f;
                if a == before.len() - 1 {
                    assert(entries@[pos as int] == before[a]);
                } else {
                    assert(entries@[a] == before[a]);
                }
            }
            assert forall|a: int, c: int|
                0 <= a < entries@.len() && 0 <= c < entries@[a].1@.len() implies (#[trigger] entries@[a].1@[c]).kid
                    < nid@.len() by {
                if a == pos {
                    assert(entries@[a] == before[before.len() - 1]);
                } else {
                    assert(entries@[a] == before[a]);
                }
            }
            assert forall|c: int| 0 <= c < subs@.len() implies (#[trigger] subs@[c]).kid < nid@.len() by {
                assert(subs == before[pos as int].1);
            }
            assert forall|x: int| 0 <= x < entries@.len() implies entry_of(eo, #[trigger] entries@[x]) by {
                if x == pos {
                    assert(entries@[x] == before[before.len() - 1]);
                    assert(entry_of(eo, before[before.len() - 1]));
                } else {
                    assert(entries@[x] == before[x]);
                    assert(entry_of(eo, before[x]));
                }
            }
            assert(entry_of(eo, before[pos as int]));
        }
        let ghost wa = choose|a: int| 0 <= a < eo.len() && #[trigger] eo[a] == before[pos as int];
        let ghost (l0, le0) = (graph.node_seq(), graph.edge_seq());
        let ghost fname = feat@;
        let src_id = link_feature_node(graph, end, kind, feat);
        proof {
            assert(grows(orig, e0, graph.node_seq(), graph.edge_seq(), end as int)) by {
                assert forall|k: int| end <= k < orig.len() implies #[trigger] graph.node_seq()[k] == orig[k] by {
                    assert(l0[k] == orig[k]);
                }
                assert forall|e: int| 0 <= e < e0.len() implies #[trigger] graph.edge_seq()[e] == e0[e] by {
                    assert(le0[e] == e0[e]);
                }
                assert forall|k: int| 0 <= k < end implies node_id(#[trigger] graph.node_seq()[k]) == node_id(orig[k])
                    && krate_of(graph.node_seq()[k]) == krate_of(orig[k]) && features_of(orig[k]).subset_of(
                    features_of(graph.node_seq()[k]),
                ) by {
                    assert(graph.node_seq()[k] == l0[k]);
                }
            }
            assert forall|e: int| e0.len() <= e < graph.edge_seq().len() implies (#[trigger] graph.edge_seq()[e]).source >= end && weight_is(graph.edge_seq()[e].weight, Edge::Feature) by {
                if e < le0.len() {
                    assert(graph.edge_seq()[e] == le0[e]);
                }
            }
            assert forall|q: int| 0 <= q < stack@.len() implies features_of(graph.node_seq()[kind as int]).contains(
                #[trigger] stack@[q]@,
            ) by {
                assert(graph.node_seq()[kind as int] == l0[kind as int]);
            }
        }
        let ghost (l1, le1, st1) = (graph.node_seq(), graph.edge_seq(), stack@);
        add_entry_edges(graph, end, kind, me, nid, src_id, &subs, &mut stack, Ghost(fname));
        proof {
            let (gn, ge) = (graph.node_seq(), graph.edge_seq());
            assert(gs[kind as int] == l1[kind as int]);
            assert(grows(gs, ges, l1, le1, end as int)) by {
                assert forall|k: int| 0 <= k < end implies node_id(#[trigger] l1[k]) == node_id(gs[k])
                    && krate_of(l1[k]) == krate_of(gs[k]) && features_of(gs[k]).subset_of(features_of(l1[k])) by {
                    assert(l1[k] == gs[k]);
                }
            }
            assert forall|f: Seq<char>|
                feature_done(gs, ges, end as int, kind as int, me as int, nid@, eo, f) implies feature_done(
                gn,
                ge,
                end as int,
                kind as int,
                me as int,
                nid@,
                eo,
                f,
            ) by {
                lemma_done_stays(gs, ges, l1, le1, end as int, kind as int, me as int, nid@, eo, f);
                lemma_done_stays(l1, le1, gn, ge, end as int, kind as int, me as int, nid@, eo, f);
            }
            lemma_linked_stays(l1, le1, gn, ge, end as int, kind as int, feat@);
            assert(eo[wa] == before[pos as int]);
            assert(eo[wa].0@ == feat@);
            assert(eo[wa].1 == subs);
            assert(feature_done(gn, ge, end as int, kind as int, me as int, nid@, eo, feat@));
            assert forall|f: Seq<char>|
                #[trigger] features_of(gn[kind as int]).contains(f) implies strs(stack@).contains(f) || !entry_named(eo, f)
                    || feature_done(gn, ge, end as int, kind as int, me as int, nid@, eo, f) by {
                if !strs(stack@).contains(f) {
                    assert(features_of(gs[kind as int]).contains(f));
                    if strs(st).contains(f) && f != feat@ {
                        let q = choose|q: int| 0 <= q < strs(st).len() && strs(st)[q] == f;
                        assert(q < st1.len());
                        assert(stack@[q] == st1[q]);
                        assert(strs(stack@)[q] == f);
                    }
                }
            }
            assert forall|f: Seq<char>| #[trigger] entry_named(eo, f) implies entry_named(entries@, f) || feature_done(
                gn,
                ge,
                end as int,
                kind as int,
                me as int,
                nid@,
                eo,
                f,
            ) by {
                if f != feat@ && entry_named(before, f) {
                    assert(entry_named(entries@, f));
                }
            }
            assert forall|c: int| 0 <= c < end && c != kind implies #[trigger] gn[c] == orig[c] by {
                assert(l1[c] == gs[c]);
            }
            assert forall|ff: Seq<char>| #[trigger] features_of(gn[kind as int]).contains(ff) implies features_of(
                orig[kind as int],
            ).contains(ff) || entries_name(eo, ff) by {
                if !features_of(l1[kind as int]).contains(ff) {
                    let c = choose|c: int| 0 <= c < subs@.len() && #[trigger] link_name(subs@[c]) == Some(ff);
                    assert(eo[wa].1@[c] == subs@[c]);
                    assert(link_name(eo[wa].1@[c]) == Some(ff));
                }
            }
            assert(grows(orig, e0, graph.node_seq(), graph.edge_seq(), end as int)) by {
                assert forall|k: int| end <= k < orig.len() implies #[trigger] graph.node_seq()[k] == orig[k] by {
                    assert(l1[k] == orig[k]);
                }
                assert forall|e: int| 0 <= e < e0.len() implies #[trigger] graph.edge_seq()[e] == e0[e] by {
                    assert(le1[e] == e0[e]);
                }
                assert forall|k: int| 0 <= k < end implies node_id(#[trigger] graph.node_seq()[k]) == node_id(orig[k])
                    && krate_of(graph.node_seq()[k]) == krate_of(orig[k]) && features_of(orig[k]).subset_of(
                    features_of(graph.node_seq()[k]),
                ) by {
                    assert(node_id(graph.node_seq()[k]) == node_id(l1[k]));
                    assert(krate_of(graph.node_seq()[k]) == krate_of(l1[k]));
                    assert(features_of(l1[k]).subset_of(features_of(graph.node_seq()[k])));
                }
            }
            assert forall|e: int| e0.len() <= e < graph.edge_seq().len() implies (#[trigger] graph.edge_seq()[e]).source >= end && weight_is(graph.edge_seq()[e].weight, Edge::Feature) by {
                if e < le1.len() {
                    assert(graph.edge_seq()[e] == le1[e]);
                }
            }
        }
    }
}

/// Whether an edge leads from the node of the feature `f` of the crate at
/// `k` to the node of its feature `g`.
pub open spec fn feature_leads_to<N, E>(
    nodes: Seq<Node<N>>,
    edges: Seq<EdgeRecord<E>>,
    end: int,
    k: int,
    f: Seq<char>,
    g: Seq<char>,
) -> bool {
    exists|e: int|
        0 <= e < edges.len() && end <= (#[trigger] edges[e]).source < nodes.len() && end <= edges[e].target
            < nodes.len() && is_feature_of(nodes[edges[e].source as int], k as usize, f) && is_feature_of(
            nodes[edges[e].target as int],
            k as usize,
            g,
        )
}

/// An edge between two feature nodes stays as long as the feature nodes and
/// the edges already there stay.
proof fn lemma_leads_stays<N, E>(
    n0: Seq<Node<N>>,
    e0: Seq<EdgeRecord<E>>,
    n1: Seq<Node<N>>,
    e1: Seq<EdgeRecord<E>>,
    end: int,
    k: int,
    f: Seq<char>,
    g: Seq<char>,
)
    requires
        feature_leads_to(n0, e0, end, k, f, g),
        n0.len() <= n1.len(),
        e0.len() <= e1.len(),
        forall|t: int| end <= t < n0.len() ==> #[trigger] n1[t] == n0[t],
        forall|e: int| 0 <= e < e0.len() ==> #[trigger] e1[e] == e0[e],
    ensures
        feature_leads_to(n1, e1, end, k, f, g),
{
    let e = choose|e: int|
        0 <= e < e0.len() && end <= (#[trigger] e0[e]).source < n0.len() && end <= e0[e].target < n0.len()
            && is_feature_of(n0[e0[e].source as int], k as usize, f) && is_feature_of(
            n0[e0[e].target as int],
            k as usize,
            g,
        );
    assert(e1[e] == e0[e]);
    assert(n1[e0[e].source as int] == n0[e0[e].source as int]);
    assert(n1[e0[e].target as int] == n0[e0[e].target as int]);
}

/// Whether `e` is one of the `entries`.
pub open spec fn entry_of(entries: Seq<(String, Vec<FeatureEdge>)>, e: (String, Vec<FeatureEdge>)) -> bool {
    exists|a: int| 0 <= a < entries.len() && #[trigger] entries[a] == e
}

/// The node of the feature `f` of the crate at `k` (the package at `me`)
/// is linked to the crate and, for one of the `entries` named `f`, to the
/// node of each feature of the crate that the entry's plain links name.
pub open spec fn feature_done<N, E>(
    nodes: Seq<Node<N>>,
    edges: Seq<EdgeRecord<E>>,
    end: int,
    k: int,
    me: int,
    nid: Seq<Option<usize>>,
    entries: Seq<(String, Vec<FeatureEdge>)>,
    f: Seq<char>,
) -> bool {
    &&& feature_linked(nodes, edges, end, k, f)
    &&& exists|a: int|
        0 <= a < entries.len() && (#[trigger] entries[a]).0@ == f && (forall|c: int, g: Seq<char>|
            0 <= c < entries[a].1@.len() && #[trigger] plain_link(entries[a].1@[c], me, g) ==> feature_leads_to(
                nodes,
                edges,
                end,
                k,
                f,
                g,
            )) && (forall|c: int, t: int|
            0 <= c < entries[a].1@.len() && #[trigger] link_to_node(entries[a].1@[c], nid, t) ==> feature_leads_to_crate(
                nodes,
                edges,
                end,
                k,
                f,
                t,
            )) && (forall|c: int, t: int, z: Seq<char>|
            0 <= c < entries[a].1@.len() && #[trigger] link_to_feature_node(entries[a].1@[c], nid, t, z)
                ==> feature_leads_to_named(nodes, edges, end, k, f, t, z))
}

/// Whether the link is to the crate at `t` of the graph.
pub open spec fn link_to_node(e: FeatureEdge, nid: Seq<Option<usize>>, t: int) -> bool {
    e.name is Krate && e.kid < nid.len() && nid[e.kid as int] is Some && nid[e.kid as int]->0 == t
}

/// Whether an edge leads from the node of the feature `f` of the crate at
/// `k` to the crate at `t`.
pub open spec fn feature_leads_to_crate<N, E>(
    nodes: Seq<Node<N>>,
    edges: Seq<EdgeRecord<E>>,
    end: int,
    k: int,
    f: Seq<char>,
    t: int,
) -> bool {
    exists|e: int|
        0 <= e < edges.len() && end <= (#[trigger] edges[e]).source < nodes.len() && edges[e].target == t
            && is_feature_of(nodes[edges[e].source as int], k as usize, f)
}

/// Whether the link is to the feature (or renamed dependency) `z` of the
/// crate at `t` of the graph.
pub open spec fn link_to_feature_node(e: FeatureEdge, nid: Seq<Option<usize>>, t: int, z: Seq<char>) -> bool {
    link_name(e) == Some(z) && e.kid < nid.len() && nid[e.kid as int] is Some && nid[e.kid as int]->0 == t
}

/// Whether an edge leads from the node of the feature `f` of the crate at
/// `k` to a node of the feature `z`, of the crate at `t` or, where that had
/// none yet, of the crate at `k`.
pub open spec fn feature_leads_to_named<N, E>(
    nodes: Seq<Node<N>>,
    edges: Seq<EdgeRecord<E>>,
    end: int,
    k: int,
    f: Seq<char>,
    t: int,
    z: Seq<char>,
) -> bool {
    exists|e: int|
        0 <= e < edges.len() && end <= (#[trigger] edges[e]).source < nodes.len() && end <= edges[e].target
            < nodes.len() && is_feature_of(nodes[edges[e].source as int], k as usize, f) && (is_feature_of(
            nodes[edges[e].target as int],
            t as usize,
            z,
        ) || is_feature_of(nodes[edges[e].target as int], k as usize, z))
}

/// A link from a feature's node to a named feature's node stays as the
/// graph grows.
proof fn lemma_named_lead_stays<N, E>(
    n0: Seq<Node<N>>,
    e0: Seq<EdgeRecord<E>>,
    n1: Seq<Node<N>>,
    e1: Seq<EdgeRecord<E>>,
    end: int,
    k: int,
    f: Seq<char>,
    t: int,
    z: Seq<char>,
)
    requires
        feature_leads_to_named(n0, e0, end, k, f, t, z),
        n0.len() <= n1.len(),
        e0.len() <= e1.len(),
        forall|x: int| end <= x < n0.len() ==> #[trigger] n1[x] == n0[x],
        forall|e: int| 0 <= e < e0.len() ==> #[trigger] e1[e] == e0[e],
    ensures
        feature_leads_to_named(n1, e1, end, k, f, t, z),
{
    let e = choose|e: int|
        0 <= e < e0.len() && end <= (#[trigger] e0[e]).source < n0.len() && end <= e0[e].target < n0.len()
            && is_feature_of(n0[e0[e].source as int], k as usize, f) && (is_feature_of(
            n0[e0[e].target as int],
            t as usize,
            z,
        ) || is_feature_of(n0[e0[e].target as int], k as usize, z));
    assert(e1[e] == e0[e]);
    assert(n1[e0[e].source as int] == n0[e0[e].source as int]);
    assert(n1[e0[e].target as int] == n0[e0[e].target as int]);
}

/// A link from a feature's node to a crate stays as the graph grows.
proof fn lemma_crate_lead_stays<N, E>(
    n0: Seq<Node<N>>,
    e0: Seq<EdgeRecord<E>>,
    n1: Seq<Node<N>>,
    e1: Seq<EdgeRecord<E>>,
    end: int,
    k: int,
    f: Seq<char>,
    t: int,
)
    requires
        feature_leads_to_crate(n0, e0, end, k, f, t),
        n0.len() <= n1.len(),
        e0.len() <= e1.len(),
        forall|x: int| end <= x < n0.len() ==> #[trigger] n1[x] == n0[x],
        forall|e: int| 0 <= e < e0.len() ==> #[trigger] e1[e] == e0[e],
    ensures
        feature_leads_to_crate(n1, e1, end, k, f, t),
{
    let e = choose|e: int|
        0 <= e < e0.len() && end <= (#[trigger] e0[e]).source < n0.len() && e0[e].target == t && is_feature_of(
            n0[e0[e].source as int],
            k as usize,
            f,
        );
    assert(e1[e] == e0[e]);
    assert(n1[e0[e].source as int] == n0[e0[e].source as int]);
}

/// A feature done stays done as the graph grows.
proof fn lemma_done_stays<N, E>(
    n0: Seq<Node<N>>,
    e0: Seq<EdgeRecord<E>>,
    n1: Seq<Node<N>>,
    e1: Seq<EdgeRecord<E>>,
    end: int,
    k: int,
    me: int,
    nid: Seq<Option<usize>>,
    entries: Seq<(String, Vec<FeatureEdge>)>,
    f: Seq<char>,
)
    requires
        feature_done(n0, e0, end, k, me, nid, entries, f),
        grows(n0, e0, n1, e1, end),
    ensures
        feature_done(n1, e1, end, k, me, nid, entries, f),
{
    lemma_linked_stays(n0, e0, n1, e1, end, k, f);
    let a = choose|a: int|
        0 <= a < entries.len() && (#[trigger] entries[a]).0@ == f && (forall|c: int, g: Seq<char>|
            0 <= c < entries[a].1@.len() && #[trigger] plain_link(entries[a].1@[c], me, g) ==> feature_leads_to(
                n0,
                e0,
                end,
                k,
                f,
                g,
            )) && (forall|c: int, t: int|
            0 <= c < entries[a].1@.len() && #[trigger] link_to_node(entries[a].1@[c], nid, t) ==> feature_leads_to_crate(
                n0,
                e0,
                end,
                k,
                f,
                t,
            )) && (forall|c: int, t: int, z: Seq<char>|
            0 <= c < entries[a].1@.len() && #[trigger] link_to_feature_node(entries[a].1@[c], nid, t, z)
                ==> feature_leads_to_named(n0, e0, end, k, f, t, z));
    assert forall|c: int, t: int, z: Seq<char>|
        0 <= c < entries[a].1@.len() && #[trigger] link_to_feature_node(entries[a].1@[c], nid, t, z)
            implies feature_leads_to_named(n1, e1, end, k, f, t, z) by {
        lemma_named_lead_stays(n0, e0, n1, e1, end, k, f, t, z);
    }
    assert forall|c: int, t: int|
        0 <= c < entries[a].1@.len() && #[trigger] link_to_node(entries[a].1@[c], nid, t) implies feature_leads_to_crate(
            n1,
            e1,
            end,
            k,
            f,
            t,
        ) by {
        lemma_crate_lead_stays(n0, e0, n1, e1, end, k, f, t);
    }
    assert forall|c: int, g: Seq<char>|
        0 <= c < entries[a].1@.len() && #[trigger] plain_link(entries[a].1@[c], me, g) implies feature_leads_to(
            n1,
            e1,
            end,
            k,
            f,
            g,
        ) by {
        lemma_leads_stays(n0, e0, n1, e1, end, k, f, g);
    }
}

/// Links the node `src_id` of a feature of the crate at `kind` (package
/// `me`) to what its entries `subs` name: the crate itself, or a feature of
/// it or of a dependency in the graph. An entry naming a feature that has no
/// node yet adds one, belonging to the crate at `kind`, and enables that
/// feature on it, putting it on the `stack` of features still to follow.
fn add_entry_edges<N, E: From<Edge>>(
    graph: &mut Graph<Node<N>, E>,
    end: usize,
    kind: usize,
    me: usize,
    nid: &Vec<Option<usize>>,
    src_id: usize,
    subs: &Vec<FeatureEdge>,
    stack: &mut Vec<String>,
    Ghost(f): Ghost<Seq<char>>,
)
    requires
        graph_shape(old(graph).node_seq(), old(graph).edge_seq(), end as int),
        kind < end,
        end <= src_id < old(graph).node_seq().len(),
        is_feature_of(old(graph).node_seq()[src_id as int], kind, f),
        me < nid@.len(),
        nid@[me as int] == Some(kind),
        forall|i: int| 0 <= i < nid@.len() && #[trigger] nid@[i] is Some ==> nid@[i]->0 < end,
        forall|c: int| 0 <= c < subs@.len() ==> (#[trigger] subs@[c]).kid < nid@.len(),
        forall|q: int| 0 <= q < old(stack)@.len() ==> features_of(old(graph).node_seq()[kind as int]).contains(
            #[trigger] old(stack)@[q]@,
        ),
    ensures
        graph_shape(final(graph).node_seq(), final(graph).edge_seq(), end as int),
        grows(
            old(graph).node_seq(),
            old(graph).edge_seq(),
            final(graph).node_seq(),
            final(graph).edge_seq(),
            end as int,
        ),
        forall|e: int|
            old(graph).edge_seq().len() <= e < final(graph).edge_seq().len() ==> (
            #[trigger] final(graph).edge_seq()[e]).source >= end && weight_is(
            final(graph).edge_seq()[e].weight,
            Edge::Feature,
            ),
        forall|c: int| 0 <= c < end && c != kind ==> #[trigger] final(graph).node_seq()[c] == old(graph).node_seq()[c],
        forall|q: int| 0 <= q < final(stack)@.len() ==> features_of(final(graph).node_seq()[kind as int]).contains(
            #[trigger] final(stack)@[q]@,
        ),
        old(stack)@.len() <= final(stack)@.len(),
        forall|q: int| 0 <= q < old(stack)@.len() ==> #[trigger] final(stack)@[q] == old(stack)@[q],
        forall|f: Seq<char>|
            #[trigger] features_of(final(graph).node_seq()[kind as int]).contains(f) ==> features_of(
                old(graph).node_seq()[kind as int],
            ).contains(f) || strs(final(stack)@).contains(f),
        forall|c: int, g: Seq<char>|
            0 <= c < subs@.len() && #[trigger] plain_link(subs@[c], me as int, g) ==> feature_leads_to(
                final(graph).node_seq(),
                final(graph).edge_seq(),
                end as int,
                kind as int,
                f,
                g,
            ),
        forall|ff: Seq<char>|
            #[trigger] features_of(final(graph).node_seq()[kind as int]).contains(ff) ==> features_of(
                old(graph).node_seq()[kind as int],
            ).contains(ff) || exists|c: int| 0 <= c < subs@.len() && #[trigger] link_name(subs@[c]) == Some(ff),
        forall|c: int, t: int|
            0 <= c < subs@.len() && #[trigger] link_to_node(subs@[c], nid@, t) ==> feature_leads_to_crate(
                final(graph).node_seq(),
                final(graph).edge_seq(),
                end as int,
                kind as int,
                f,
                t,
            ),
        forall|c: int, t: int, z: Seq<char>|
            0 <= c < subs@.len() && #[trigger] link_to_feature_node(subs@[c], nid@, t, z) ==> feature_leads_to_named(
                final(graph).node_seq(),
                final(graph).edge_seq(),
                end as int,
                kind as int,
                f,
                t,
                z,
            ),
{
    let ghost orig = graph.node_seq();
    let ghost e0 = graph.edge_seq();
    let ghost st0 = stack@;
    let mut j: usize = 0;
    while j < subs.len()
        invariant
            forall|q: int| 0 <= q < stack@.len() ==> features_of(graph.node_seq()[kind as int]).contains(
                #[trigger] stack@[q]@,
            ),
            st0.len() <= stack@.len(),
            forall|q: int| 0 <= q < st0.len() ==> #[trigger] stack@[q] == st0[q],
            forall|c: int| 0 <= c < end && c != kind ==> #[trigger] graph.node_seq()[c] == orig[c],
            forall|f: Seq<char>|
                #[trigger] features_of(graph.node_seq()[kind as int]).contains(f) ==> features_of(
                    orig[kind as int],
                ).contains(f) || strs(stack@).contains(f),
            is_feature_of(orig[src_id as int], kind, f),
            src_id < orig.len(),
            forall|ff: Seq<char>|
                #[trigger] features_of(graph.node_seq()[kind as int]).contains(ff) ==> features_of(
                    orig[kind as int],
                ).contains(ff) || exists|c: int| 0 <= c < j && #[trigger] link_name(subs@[c]) == Some(ff),
            forall|c: int, g: Seq<char>|
                0 <= c < j && #[trigger] plain_link(subs@[c], me as int, g) ==> feature_leads_to(
                    graph.node_seq(),
                    graph.edge_seq(),
                    end as int,
                    kind as int,
                    f,
                    g,
                ),
            forall|c: int, t: int|
                0 <= c < j && #[trigger] link_to_node(subs@[c], nid@, t) ==> feature_leads_to_crate(
                    graph.node_seq(),
                    graph.edge_seq(),
                    end as int,
                    kind as int,
                    f,
                    t,
                ),
            forall|c: int, t: int, z: Seq<char>|
                0 <= c < j && #[trigger] link_to_feature_node(subs@[c], nid@, t, z) ==> feature_leads_to_named(
                    graph.node_seq(),
                    graph.edge_seq(),
                    end as int,
                    kind as int,
                    f,
                    t,
                    z,
                ),
            nid@[me as int] == Some(kind),
            j <= subs@.len(),
            kind < end,
            src_id < graph.node_seq().len(),
            src_id >= end,
            forall|i: int| 0 <= i < nid@.len() && #[trigger] nid@[i] is Some ==> nid@[i]->0 < end,
            forall|c: int| 0 <= c < subs@.len() ==> (#[trigger] subs@[c]).kid < nid@.len(),
            graph_shape(graph.node_seq(), graph.edge_seq(), end as int),
            grows(orig, e0, graph.node_seq(), graph.edge_seq(), end as int),
            forall|e: int| e0.len() <= e < graph.edge_seq().len() ==> (#[trigger] graph.edge_seq()[e]).source >= end && weight_is(graph.edge_seq()[e].weight, Edge::Feature),
        decreases subs.len() - j,
    {
        let ghost (gj, gje) = (graph.node_seq(), graph.edge_seq());
        let sub = &subs[j];
        let sub_nid = if sub.kid == me {
            Some(kind)
        } else {
            nid[sub.kid]
        };
        if let Some(sub_nid) = sub_nid {
            let target_id = match &sub.name {
                FeatureEdgeName::Krate => sub_nid,
                FeatureEdgeName::Feature(name) | FeatureEdgeName::Rename(name) => {
                    match find_feature_node(graph, end, sub_nid, name.as_str()) {
                        Some(t) => t,
                        None => {
                            let ghost g0 = graph.node_seq();
                            let t = graph.add_node(Node::Feature { krate_index: kind, name: name.clone() });
                            let ghost g1 = graph.node_seq();
                            let ghost st = stack@;
                            if !has_feature(graph, kind, name.as_str()) {
                                graph.node_mut(kind).insert_feature(name.clone());
                                stack.push(name.clone());
                            }
                            proof {
                                assert(g1[kind as int] == g0[kind as int]);
                                assert(features_of(g1[kind as int]).subset_of(features_of(graph.node_seq()[kind as int])));
                                assert(features_of(graph.node_seq()[kind as int]).contains(name@));
                                assert forall|q: int| 0 <= q < stack@.len() implies features_of(graph.node_seq()[kind as int]).contains(
                                    #[trigger] stack@[q]@,
                                ) by {
                                    if q < st.len() {
                                        assert(stack@[q] == st[q]);
                                    }
                                }
                                assert(feature_nodes_enabled(graph.node_seq(), end as int)) by {
                                    assert forall|k: int| end <= k < graph.node_seq().len() implies (#[trigger] graph.node_seq()[k] matches Node::Feature { krate_index, name }
                                        && features_of(graph.node_seq()[krate_index as int]).contains(name@)) by {
                                        assert(graph.node_seq()[k] == g1[k]);
                                        if k < g0.len() {
                                            assert(g1[k] == g0[k]);
                                            let ki = g0[k]->krate_index as int;
                                            assert(ki < end);
                                            assert(g1[ki] == g0[ki]);
                                            if ki != kind {
                                                assert(graph.node_seq()[ki] == g1[ki]);
                                            }
                                        }
                                    }
                                }
                                assert forall|k: int| 0 <= k < end implies #[trigger] graph.node_seq()[k] is Krate by {
                                    assert(g1[k] == g0[k]);
                                }
                                assert forall|k: int|
                                    end <= k < graph.node_seq().len() implies #[trigger] graph.node_seq()[k] is Feature
                                        && graph.node_seq()[k]->krate_index < end by {
                                    assert(graph.node_seq()[k] == g1[k]);
                                }
                                assert forall|k: int| 0 <= k < end implies node_id(#[trigger] graph.node_seq()[k]) == node_id(g0[k])
                                    && krate_of(graph.node_seq()[k]) == krate_of(g0[k]) by {
                                    assert(g1[k] == g0[k]);
                                }
                                assert forall|k: int| end <= k < orig.len() implies #[trigger] graph.node_seq()[k] == orig[k] by {
                                    assert(graph.node_seq()[k] == g1[k]);
                                    assert(g1[k] == g0[k]);
                                }
                                assert forall|f: Seq<char>|
                                    #[trigger] features_of(graph.node_seq()[kind as int]).contains(f) implies features_of(
                                        orig[kind as int],
                                    ).contains(f) || strs(stack@).contains(f) by {
                                    if features_of(g0[kind as int]).contains(f) {
                                        if strs(st).contains(f) {
                                            let q = choose|q: int| 0 <= q < strs(st).len() && strs(st)[q] == f;
                                            assert(stack@[q] == st[q]);
                                            assert(strs(stack@)[q] == f);
                                        }
                                    } else {
                                        assert(f == name@);
                                        assert(stack@.len() == st.len() + 1);
                                        assert(strs(stack@)[st.len() as int] == f);
                                    }
                                }
                                assert forall|q: int| 0 <= q < st0.len() implies #[trigger] stack@[q] == st0[q] by {
                                    assert(stack@[q] == st[q]);
                                }
                                assert forall|c: int| 0 <= c < end && c != kind implies #[trigger] graph.node_seq()[c] == orig[c] by {
                                    assert(graph.node_seq()[c] == g1[c]);
                                    assert(g1[c] == g0[c]);
                                }
                                assert forall|q: int| end <= q < g0.len() implies #[trigger] graph.node_seq()[q] == g0[q] by {
                                    assert(graph.node_seq()[q] == g1[q]);
                                    assert(g1[q] == g0[q]);
                                }
                                assert(graph.node_seq()[t as int] == g1[t as int]);
                                assert(is_feature_of(graph.node_seq()[t as int], kind, name@));
                                assert(subs@[j as int] == *sub);
                                assert(link_name(subs@[j as int]) == Some(name@));
                                assert forall|ff: Seq<char>|
                                    #[trigger] features_of(graph.node_seq()[kind as int]).contains(ff) implies features_of(
                                        orig[kind as int],
                                    ).contains(ff) || exists|c: int| 0 <= c < j + 1 && #[trigger] link_name(subs@[c]) == Some(ff) by {
                                    if ff != name@ {
                                        assert(features_of(g0[kind as int]).contains(ff));
                                        if !features_of(orig[kind as int]).contains(ff) {
                                            let c = choose|c: int| 0 <= c < j && #[trigger] link_name(subs@[c]) == Some(ff);
                                            assert(link_name(subs@[c]) == Some(ff));
                                        }
                                    }
                                }
                            }
                            t
                        },
                    }
                },
            };
            graph.add_edge(src_id, target_id, E::from(Edge::Feature));
            proof {
                let last = graph.edge_seq().len() - 1;
                assert(graph.edge_seq()[last].source == src_id && graph.edge_seq()[last].target == target_id);
                assert forall|q: int| end <= q < gj.len() implies #[trigger] graph.node_seq()[q] == gj[q] by {}
                assert(gj[src_id as int] == orig[src_id as int]);
                assert(graph.node_seq()[src_id as int] == orig[src_id as int]);
                if sub.kid == me {
                    if let FeatureEdgeName::Feature(name) = &sub.name {
                        assert(is_feature_of(graph.node_seq()[target_id as int], kind, name@));
                        assert(feature_leads_to(graph.node_seq(), graph.edge_seq(), end as int, kind as int, f, name@));
                    }
                }
                if sub.name is Krate {
                    assert(feature_leads_to_crate(graph.node_seq(), graph.edge_seq(), end as int, kind as int, f, target_id as int));
                }
                if let FeatureEdgeName::Feature(name) | FeatureEdgeName::Rename(name) = &sub.name {
                    assert(end <= target_id);
                    assert(is_feature_of(graph.node_seq()[target_id as int], sub_nid, name@) || is_feature_of(
                        graph.node_seq()[target_id as int],
                        kind,
                        name@,
                    ));
                    assert(feature_leads_to_named(
                        graph.node_seq(),
                        graph.edge_seq(),
                        end as int,
                        kind as int,
                        f,
                        sub_nid as int,
                        name@,
                    ));
                }
            }
        }
        proof {
            assert forall|q: int| end <= q < gj.len() implies #[trigger] graph.node_seq()[q] == gj[q] by {}
            assert forall|e: int| 0 <= e < gje.len() implies #[trigger] graph.edge_seq()[e] == gje[e] by {}
            assert forall|ff: Seq<char>|
                #[trigger] features_of(graph.node_seq()[kind as int]).contains(ff) implies features_of(
                    orig[kind as int],
                ).contains(ff) || exists|c: int| 0 <= c < j + 1 && #[trigger] link_name(subs@[c]) == Some(ff) by {
                if features_of(gj[kind as int]).contains(ff) && !features_of(orig[kind as int]).contains(ff) {
                    let c = choose|c: int| 0 <= c < j && #[trigger] link_name(subs@[c]) == Some(ff);
                    assert(link_name(subs@[c]) == Some(ff));
                }
            }
            assert forall|c: int, g: Seq<char>|
                0 <= c < j + 1 && #[trigger] plain_link(subs@[c], me as int, g) implies feature_leads_to(
                    graph.node_seq(),
                    graph.edge_seq(),
                    end as int,
                    kind as int,
                    f,
                    g,
                ) by {
                if c < j {
                    lemma_leads_stays(gj, gje, graph.node_seq(), graph.edge_seq(), end as int, kind as int, f, g);
                } else {
                    assert(subs@[c] == *sub);
                }
            }
            assert forall|c: int, t: int|
                0 <= c < j + 1 && #[trigger] link_to_node(subs@[c], nid@, t) implies feature_leads_to_crate(
                    graph.node_seq(),
                    graph.edge_seq(),
                    end as int,
                    kind as int,
                    f,
                    t,
                ) by {
                if c < j {
                    lemma_crate_lead_stays(gj, gje, graph.node_seq(), graph.edge_seq(), end as int, kind as int, f, t);
                } else {
                    assert(subs@[c] == *sub);
                }
            }
            assert forall|c: int, t: int, z: Seq<char>|
                0 <= c < j + 1 && #[trigger] link_to_feature_node(subs@[c], nid@, t, z) implies feature_leads_to_named(
                    graph.node_seq(),
                    graph.edge_seq(),
                    end as int,
                    kind as int,
                    f,
                    t,
                    z,
                ) by {
                if c < j {
                    lemma_named_lead_stays(gj, gje, graph.node_seq(), graph.edge_seq(), end as int, kind as int, f, t, z);
                } else {
                    assert(subs@[c] == *sub);
                }
            }
        }
        j += 1;
    }
}

/// Links the features of every crate of the graph, crate by crate in the
/// order of the sorted packages.
fn add_feature_edges<N, E: From<Edge>>(
    graph: &mut Graph<Node<N>, E>,
    end: usize,
    nid: &Vec<Option<usize>>,
    features: Vec<Vec<(String, Vec<FeatureEdge>)>>,
    Ghost(b): Ghost<BuilderModel>,
    Ghost(md): Ghost<Metadata>,
)
    requires
        graph_shape(old(graph).node_seq(), old(graph).edge_seq(), end as int),
        nid@.len() == features@.len(),
        forall|i: int| 0 <= i < nid@.len() && #[trigger] nid@[i] is Some ==> nid@[i]->0 < end,
        forall|i: int| 0 <= i < features@.len() ==> feature_edges_valid(#[trigger] features@[i]@, nid@.len()),
        crate_edges_follow(b, md, old(graph).node_seq(), old(graph).edge_seq(), end as int),
        forall|a: int, c: int|
            0 <= a < nid@.len() && 0 <= c < nid@.len() && a != c && #[trigger] nid@[a] is Some && #[trigger] nid@[c] is Some
                ==> nid@[a] != nid@[c],
    ensures
        graph_shape(final(graph).node_seq(), final(graph).edge_seq(), end as int),
        grows(
            old(graph).node_seq(),
            old(graph).edge_seq(),
            final(graph).node_seq(),
            final(graph).edge_seq(),
            end as int,
        ),
        crate_edges_follow(b, md, final(graph).node_seq(), final(graph).edge_seq(), end as int),
        forall|j: int, f: Seq<char>|
            0 <= j < nid@.len() && nid@[j] is Some && #[trigger] features_of(
                final(graph).node_seq()[nid@[j]->0 as int],
            ).contains(f) && entry_named(features@[j]@, f) ==> feature_done(
                final(graph).node_seq(),
                final(graph).edge_seq(),
                end as int,
                nid@[j]->0 as int,
                j,
                nid@,
                features@[j]@,
                f,
            ),
        forall|c: int, f: Seq<char>|
            0 <= c < end && #[trigger] features_of(final(graph).node_seq()[c]).contains(f) ==> features_of(
                old(graph).node_seq()[c],
            ).contains(f) || crate_entries_name(nid@, features@, nid@.len() as int, c, f),
        forall|e: int|
            old(graph).edge_seq().len() <= e < final(graph).edge_seq().len() ==> (
            #[trigger] final(graph).edge_seq()[e]).source >= end && weight_is(final(graph).edge_seq()[e].weight, Edge::Feature),
{
    let ghost orig = graph.node_seq();
    let ghost e0 = graph.edge_seq();
    let n = features.len();
    let ghost all = features@;
    let mut rest = features;
    let mut rev: Vec<Vec<(String, Vec<FeatureEdge>)>> = Vec::new();
    while rest.len() > 0
        invariant
            rest@.len() + rev@.len() == n,
            n == all.len(),
            forall|k: int| 0 <= k < rest@.len() ==> #[trigger] rest@[k] == all[k],
            forall|k: int| 0 <= k < rev@.len() ==> #[trigger] rev@[k] == all[n - 1 - k],
        decreases rest.len(),
    {
        let e = rest.pop().unwrap();
        rev.push(e);
    }
    let mut i: usize = 0;
    while i < n
        invariant
            i <= n,
            n == nid@.len(),
            n == all.len(),
            rev@.len() == n - i,
            forall|k: int| 0 <= k < rev@.len() ==> #[trigger] rev@[k] == all[n - 1 - k],
            forall|j: int| 0 <= j < nid@.len() && #[trigger] nid@[j] is Some ==> nid@[j]->0 < end,
            forall|j: int| 0 <= j < all.len() ==> feature_edges_valid(#[trigger] all[j]@, nid@.len()),
            graph_shape(graph.node_seq(), graph.edge_seq(), end as int),
            grows(orig, e0, graph.node_seq(), graph.edge_seq(), end as int),
            crate_edges_follow(b, md, graph.node_seq(), graph.edge_seq(), end as int),
            forall|a: int, c: int|
                0 <= a < nid@.len() && 0 <= c < nid@.len() && a != c && #[trigger] nid@[a] is Some && #[trigger] nid@[c] is Some
                    ==> nid@[a] != nid@[c],
            forall|j: int, f: Seq<char>|
                0 <= j < i && nid@[j] is Some && #[trigger] features_of(graph.node_seq()[nid@[j]->0 as int]).contains(f)
                    && entry_named(all[j]@, f) ==> feature_done(
                    graph.node_seq(),
                    graph.edge_seq(),
                    end as int,
                    nid@[j]->0 as int,
                    j,
                    nid@,
                    all[j]@,
                    f,
                ),
            forall|c: int, f: Seq<char>|
                0 <= c < end && #[trigger] features_of(graph.node_seq()[c]).contains(f) ==> features_of(
                    orig[c],
                ).contains(f) || crate_entries_name(nid@, all, i as int, c, f),
            forall|e: int|
                e0.len() <= e < graph.edge_seq().len() ==> (#[trigger] graph.edge_seq()[e]).source >= end
                    && weight_is(graph.edge_seq()[e].weight, Edge::Feature),
        decreases n - i,
    {
        let ghost (n0, e00) = (graph.node_seq(), graph.edge_seq());
        let entries = rev.pop().unwrap();
        assert(entries == all[i as int]);
        if let Some(kind) = nid[i] {
            let ghost (n1, e1) = (graph.node_seq(), graph.edge_seq());
            add_krate_feature_edges(graph, end, kind, i, nid, entries);
            proof {
                assert forall|e: int| e0.len() <= e < graph.edge_seq().len() implies (#[trigger] graph.edge_seq()[e]).source
                    >= end && weight_is(graph.edge_seq()[e].weight, Edge::Feature) by {
                    if e < e1.len() {
                        assert(graph.edge_seq()[e] == e1[e]);
                    }
                }
                lemma_follow_features(b, md, n1, e1, graph.node_seq(), graph.edge_seq(), end as int);
                let (n2, e2) = (graph.node_seq(), graph.edge_seq());
                assert forall|j: int, f: Seq<char>|
                    0 <= j < i + 1 && nid@[j] is Some && #[trigger] features_of(n2[nid@[j]->0 as int]).contains(f)
                        && entry_named(all[j]@, f) implies feature_done(
                        n2,
                        e2,
                        end as int,
                        nid@[j]->0 as int,
                        j,
                        nid@,
                        all[j]@,
                        f,
                    ) by {
                    if j < i {
                        assert(nid@[j] != nid@[i as int]);
                        let c = nid@[j]->0 as int;
                        assert(n2[c] == n1[c]);
                        assert(features_of(n1[c]).contains(f));
                        lemma_done_stays(n1, e1, n2, e2, end as int, c, j, nid@, all[j]@, f);
                    }
                }
                assert forall|c: int, f: Seq<char>|
                    0 <= c < end && #[trigger] features_of(n2[c]).contains(f) implies features_of(orig[c]).contains(f)
                        || crate_entries_name(nid@, all, i + 1, c, f) by {
                    if c != kind {
                        assert(n2[c] == n1[c]);
                    } else if !features_of(n1[c]).contains(f) {
                        assert(entries_name(all[i as int]@, f));
                    }
                    if crate_entries_name(nid@, all, i as int, c, f) {
                        let j = choose|j: int| 0 <= j < i && nid@[j] == Some(c as usize) && #[trigger] entries_name(all[j]@, f);
                        assert(entries_name(all[j]@, f));
                    }
                }
            }
        }
        proof {
            assert forall|c: int, f: Seq<char>|
                0 <= c < end && #[trigger] features_of(graph.node_seq()[c]).contains(f) implies features_of(orig[c]).contains(f)
                    || crate_entries_name(nid@, all, i + 1, c, f) by {
                if nid@[i as int] is None {
                    assert(graph.node_seq() == n0);
                }
                if crate_entries_name(nid@, all, i as int, c, f) {
                    let j = choose|j: int| 0 <= j < i && nid@[j] == Some(c as usize) && #[trigger] entries_name(all[j]@, f);
                    assert(entries_name(all[j]@, f));
                }
            }
        }
        i += 1;
    }
}

} // verus!

verus! {

/// A sorted copy holds the same ids as the unsorted sequence.
pub proof fn lemma_same_ids<T: Identified>(orig: Seq<T>, copy: Seq<T>, id: Seq<char>)
    requires
        orig.to_multiset() == copy.to_multiset(),
    ensures
        id_seq(orig).contains(id) <==> id_seq(copy).contains(id),
{
    broadcast use to_multiset_contains;

    if id_seq(orig).contains(id) {
        let i = choose|i: int| 0 <= i < id_seq(orig).len() && id_seq(orig)[i] == id;
        assert(orig.contains(orig[i]));
        assert(orig.to_multiset().count(orig[i]) > 0);
        assert(copy.contains(orig[i]));
        let j = choose|j: int| 0 <= j < copy.len() && copy[j] == orig[i];
        assert(id_seq(copy)[j] == id);
    }
    if id_seq(copy).contains(id) {
        let i = choose|i: int| 0 <= i < id_seq(copy).len() && id_seq(copy)[i] == id;
        assert(copy.contains(copy[i]));
        assert(copy.to_multiset().count(copy[i]) > 0);
        assert(orig.contains(copy[i]));
        let j = choose|j: int| 0 <= j < orig.len() && orig[j] == copy[i];
        assert(id_seq(orig)[j] == id);
    }
}

/// The position of the package with the id, which the sorted packages hold.
fn package_index(packages: &Vec<Package>, id: &PackageId) -> (r: usize)
    requires
        strictly_sorted(id_seq(packages@)),
        id_seq(packages@).contains(id@),
    ensures
        r < packages@.len(),
        packages@[r as int].id@ == id@,
{
    match find_by_id(packages, id) {
        Some(i) => i,
        None => {
            proof {
                let q = choose|q: int| 0 <= q < id_seq(packages@).len() && id_seq(packages@)[q] == id@;
                assert(packages@[q].id_view() == id@);
            }
            unreached()
        },
    }
}

/// Whether one of the workspace filters names the manifest.
fn filters_name(filters: &Vec<String>, manifest: &str) -> (r: bool)
    ensures
        r == exists|j: int| 0 <= j < filters@.len() && camino_eq(#[trigger] strs(filters@)[j], manifest@),
{
    let mut j: usize = 0;
    while j < filters.len()
        invariant
            j <= filters@.len(),
            forall|q: int| 0 <= q < j ==> !camino_eq(#[trigger] strs(filters@)[q], manifest@),
        decreases filters.len() - j,
    {
        if paths::same_path(filters[j].as_str(), manifest) {
            assert(strs(filters@)[j as int] == filters@[j as int]@);
            return true;
        }
        j += 1;
    }
    false
}

/// The view of an optional package id.
pub open spec fn opt_id(id: Option<PackageId>) -> Option<Seq<char>> {
    match id {
        Some(i) => Some(i@),
        None => None,
    }
}

/// The positions of the packages of the given ids.
fn indices_of(packages: &Vec<Package>, ids: &Vec<PackageId>) -> (r: Vec<usize>)
    requires
        strictly_sorted(id_seq(packages@)),
        forall|k: int| 0 <= k < ids@.len() ==> id_seq(packages@).contains(#[trigger] ids@[k]@),
    ensures
        r@.len() == ids@.len(),
        forall|k: int|
            0 <= k < r@.len() ==> #[trigger] r@[k] < packages@.len() && packages@[r@[k] as int].id@
                == ids@[k]@,
{
    let mut r: Vec<usize> = Vec::new();
    let mut k: usize = 0;
    while k < ids.len()
        invariant
            k <= ids@.len(),
            strictly_sorted(id_seq(packages@)),
            forall|q: int| 0 <= q < ids@.len() ==> id_seq(packages@).contains(#[trigger] ids@[q]@),
            r@.len() == k,
            forall|q: int|
                0 <= q < k ==> #[trigger] r@[q] < packages@.len() && packages@[r@[q] as int].id@
                    == ids@[q]@,
        decreases ids.len() - k,
    {
        assert(id_seq(packages@).contains(ids@[k as int]@));
        let i = package_index(packages, &ids[k]);
        r.push(i);
        k += 1;
    }
    r
}

/// The ids of the sorted members are the sorted packages' and the sorted
/// nodes'.
proof fn lemma_members_known(
    md: Metadata,
    packages: Seq<Package>,
    nodes: Seq<ResolveNode>,
    members: Seq<PackageId>,
)
    requires
        walk_ready(md, packages, nodes, members),
        metadata_exact(md),
    ensures
        forall|k: int|
            0 <= k < members.len() ==> id_seq(nodes).contains(#[trigger] members[k]@) && id_seq(
                packages,
            ).contains(members[k]@) && id_seq(md.workspace_members@).contains(members[k]@),
        forall|id: Seq<char>| #[trigger] id_seq(md.workspace_members@).contains(id) ==> id_seq(members).contains(id),
        md.resolve->0.root matches Some(root) ==> id_seq(nodes).contains(root@) && id_seq(packages).contains(root@),
{
    let mm = id_seq(md.workspace_members@);
    let sm = id_seq(members);
    assert forall|k: int| 0 <= k < members.len() implies id_seq(nodes).contains(#[trigger] members[k]@) && id_seq(
        packages,
    ).contains(members[k]@) && mm.contains(members[k]@) by {
        let id = members[k]@;
        assert(sm[k] == id);
        assert(sm.to_set().contains(id));
        assert(mm.to_set().contains(id));
        let q = choose|q: int| 0 <= q < mm.len() && mm[q] == id;
        assert(md.workspace_members@[q]@ == id);
        assert(id_seq(resolve_nodes(md)).contains(md.workspace_members@[q]@));
        lemma_same_ids(resolve_nodes(md), nodes, id);
        let c = choose|c: int| 0 <= c < id_seq(nodes).len() && id_seq(nodes)[c] == id;
        assert(nodes[c].id@ == id);
        assert(id_seq(packages).contains(nodes[c].id@));
    }
    assert forall|id: Seq<char>| #[trigger] mm.contains(id) implies sm.contains(id) by {
        assert(mm.to_set().contains(id));
        assert(sm.to_set().contains(id));
    }
    if md.resolve->0.root is Some {
        let root = md.resolve->0.root->0;
        lemma_same_ids(resolve_nodes(md), nodes, root@);
        let c = choose|c: int| 0 <= c < id_seq(nodes).len() && id_seq(nodes)[c] == root@;
        assert(nodes[c].id@ == root@);
        assert(id_seq(packages).contains(nodes[c].id@));
    }
}

/// The positions of the packages of the crates the graph grows from (see
/// [`root_ids`]).
fn root_indices(
    workspace_filters: &Vec<String>,
    workspace: bool,
    root: &Option<PackageId>,
    workspace_root: &str,
    packages: &Vec<Package>,
    nodes: &Vec<ResolveNode>,
    members: &Vec<PackageId>,
    Ghost(b): Ghost<BuilderModel>,
    Ghost(md): Ghost<Metadata>,
) -> (r: Vec<usize>)
    requires
        walk_ready(md, packages@, nodes@, members@),
        metadata_exact(md),
        b.workspace_filters == strs(workspace_filters@),
        b.workspace == workspace,
        opt_id(md.resolve->0.root) == opt_id(*root),
        md.workspace_root@ == workspace_root@,
    ensures
        forall|k: int|
            0 <= k < r@.len() ==> #[trigger] r@[k] < packages@.len() && root_ids(b, md).contains(
                packages@[r@[k] as int].id@,
            ) && id_seq(nodes@).contains(packages@[r@[k] as int].id@),
        forall|id: Seq<char>|
            #[trigger] root_ids(b, md).contains(id) ==> exists|k: int|
                0 <= k < r@.len() && packages@[#[trigger] r@[k] as int].id@ == id,
{
    proof {
        lemma_members_known(md, packages@, nodes@, members@);
    }
    let ghost mm = id_seq(md.workspace_members@);
    let all_members = workspace_filters.len() > 0 && workspace_filters.len() == 1 && match paths::parent(
        workspace_filters[0].as_str(),
    ) {
        Some(dir) => paths::same_path(workspace_root, dir.as_str()),
        None => false,
    };
    if workspace_filters.len() == 0 && !workspace && root.is_some() {
        let root_id = match root {
            Some(id) => id,
            None => unreached(),
        };
        let i = package_index(packages, root_id);
        let mut r: Vec<usize> = Vec::new();
        r.push(i);
        proof {
            assert(root_ids(b, md) == set![root_id@]);
            assert forall|id: Seq<char>| #[trigger] root_ids(b, md).contains(id) implies exists|k: int|
                0 <= k < r@.len() && packages@[#[trigger] r@[k] as int].id@ == id by {
                assert(r@[0] == i);
            }
        }
        r
    } else if workspace_filters.len() == 0 || all_members {
        let r = indices_of(packages, members);
        proof {
            assert(workspace_filters.len() > 0 ==> filters_name_workspace(b, md));
            assert(root_ids(b, md) == mm.to_set());
            assert forall|k: int|
                0 <= k < r@.len() implies #[trigger] r@[k] < packages@.len() && root_ids(b, md).contains(
                    packages@[r@[k] as int].id@,
                ) && id_seq(nodes@).contains(packages@[r@[k] as int].id@) by {
                assert(mm.contains(members@[k]@));
            }
            assert forall|id: Seq<char>| #[trigger] root_ids(b, md).contains(id) implies exists|k: int|
                0 <= k < r@.len() && packages@[#[trigger] r@[k] as int].id@ == id by {
                assert(mm.contains(id));
                assert(id_seq(members@).contains(id));
                let k = choose|k: int| 0 <= k < id_seq(members@).len() && id_seq(members@)[k] == id;
                assert(packages@[r@[k] as int].id@ == id);
            }
        }
        r
    } else {
        proof {
            assert(!filters_name_workspace(b, md));
        }
        let mut r: Vec<usize> = Vec::new();
        let mut k: usize = 0;
        while k < members.len()
            invariant
                k <= members@.len(),
                walk_ready(md, packages@, nodes@, members@),
                b.workspace_filters == strs(workspace_filters@),
                b.workspace_filters.len() > 0,
                !filters_name_workspace(b, md),
                mm == id_seq(md.workspace_members@),
                forall|q: int|
                    0 <= q < members@.len() ==> id_seq(nodes@).contains(#[trigger] members@[q]@) && id_seq(
                        packages@,
                    ).contains(members@[q]@) && mm.contains(members@[q]@),
                forall|q: int|
                    0 <= q < r@.len() ==> #[trigger] r@[q] < packages@.len() && root_ids(b, md).contains(
                        packages@[r@[q] as int].id@,
                    ) && id_seq(nodes@).contains(packages@[r@[q] as int].id@),
                forall|q: int|
                    0 <= q < k && root_ids(b, md).contains(#[trigger] members@[q]@) ==> exists|c: int|
                        0 <= c < r@.len() && packages@[#[trigger] r@[c] as int].id@ == members@[q]@,
            decreases members.len() - k,
        {
            let i = package_index(packages, &members[k]);
            proof {
                lemma_item_with_id(md.packages@, packages@, i as int);
            }
            let ghost before = r@;
            if filters_name(workspace_filters, packages[i].manifest_path.as_str()) {
                r.push(i);
                proof {
                    assert(root_ids(b, md).contains(members@[k as int]@));
                    assert forall|q: int|
                        0 <= q < k + 1 && root_ids(b, md).contains(#[trigger] members@[q]@) implies exists|c: int|
                            0 <= c < r@.len() && packages@[#[trigger] r@[c] as int].id@ == members@[q]@ by {
                        if q < k {
                            let c = choose|c: int| 0 <= c < before.len() && packages@[#[trigger] before[c] as int].id@ == members@[q]@;
                            assert(r@[c] == before[c]);
                        } else {
                            assert(r@[before.len() as int] == i);
                        }
                    }
                }
            } else {
                proof {
                    assert(!root_ids(b, md).contains(members@[k as int]@));
                }
            }
            k += 1;
        }
        proof {
            assert forall|id: Seq<char>| #[trigger] root_ids(b, md).contains(id) implies exists|c: int|
                0 <= c < r@.len() && packages@[#[trigger] r@[c] as int].id@ == id by {
                assert(mm.contains(id));
                assert(id_seq(members@).contains(id));
                let q = choose|q: int| 0 <= q < id_seq(members@).len() && id_seq(members@)[q] == id;
                assert(members@[q]@ == id);
            }
        }
        r
    }
}

} // verus!

verus! {

/// What building a crate graph out of the metadata `md` with the builder
/// `b` gives. Without a resolved dependency graph: the `NoResolveGraph`
/// error. Where no crate is reached: the `NoRootKrates` error. Otherwise a
/// well formed graph whose crates are exactly the reached ones, in order of
/// their ids, each made from its package; the workspace members sorted;
/// the path of `Cargo.lock` in the workspace root; every edge from a crate
/// following a kept dependency, its weight (where `E`'s `From<Edge>` has a
/// specification) made of a dependency edge to the crate, or a
/// dependency-feature edge to one of its features, of the kind and target
/// of one of its links that stays, or of a feature edge to a feature, and
/// every edge from a feature node a feature edge; an edge for every dependency between
/// crates of the graph with a link that stays and links by itself; every
/// feature that a crate of the graph enables in a dependency in the graph
/// (see [`dep_enables`]) enabled on it; every feature node naming a feature
/// enabled on its crate;
/// every feature enabled on a crate that it declares and cargo resolved on
/// having a node linked to the crate, to the node of each feature of the
/// crate it enables directly, to the crate of each dependency in the
/// graph that a `dep:` entry of it names and to a node of each dependency
/// feature a `<crate>/<feature>` entry of it names; each root crate having at least the
/// features cargo resolved for it enabled; and no feature enabled on a
/// crate but for one of these reasons (see [`feature_origin`]).
pub open spec fn build_outcome<N: From<Package>, E: From<Edge>>(
    b: BuilderModel,
    md: Metadata,
    r: Result<Krates<N, E>, Error>,
) -> bool {
    match r {
        Err(e) => {
            ||| md.resolve is None && e is NoResolveGraph
            ||| md.resolve is Some && e is NoRootKrates && forall|id: Seq<char>| !#[trigger] reached(b, md, id)
        },
        Ok(k) => {
            &&& md.resolve is Some
            &&& k.wf()
            &&& k.krate_count() > 0
            &&& forall|i: int|
                0 <= i < k.krate_count() ==> {
                    let id = node_id(#[trigger] k.node_seq()[i]);
                    &&& reached(b, md, id)
                    &&& item_with_id(md.packages@, id) matches Some(p) && (<N as FromSpec<
                        Package,
                    >>::obeys_from_spec() ==> krate_of(k.node_seq()[i]) == <N as FromSpec<
                        Package,
                    >>::from_spec(p))
                }
            &&& forall|id: Seq<char>|
                #[trigger] reached(b, md, id) ==> exists|i: int|
                    0 <= i < k.krate_count() && node_id(#[trigger] k.node_seq()[i]) == id
            &&& strictly_sorted(id_seq(k.member_seq()))
            &&& id_seq(k.member_seq()).to_set() == id_seq(md.workspace_members@).to_set()
            &&& k.lock_file_path() == camino_join(md.workspace_root@, "Cargo.lock"@)
            &&& crate_edges_follow(b, md, k.node_seq(), k.edge_seq(), k.krate_count() as int)
            &&& forall|e: int|
                0 <= e < k.edge_seq().len() && (#[trigger] k.edge_seq()[e]).source >= k.krate_count() ==> weight_is(
                    k.edge_seq()[e].weight,
                    Edge::Feature,
                )
            &&& feature_nodes_enabled(k.node_seq(), k.krate_count() as int)
            &&& forall|i: int, j: int|
                0 <= i < k.krate_count() && 0 <= j < k.krate_count() && #[trigger] dep_linked(
                    b,
                    md,
                    node_id(k.node_seq()[i]),
                    node_id(k.node_seq()[j]),
                ) ==> has_edge_between(k.node_seq(), k.edge_seq(), 0, k.krate_count() as int, i, j)
            &&& forall|i: int, j: int, f: Seq<char>|
                0 <= i < k.krate_count() && 0 <= j < k.krate_count() && #[trigger] dep_enables(
                    b,
                    md,
                    node_id(k.node_seq()[i]),
                    node_id(k.node_seq()[j]),
                    f,
                ) ==> features_of(k.node_seq()[j]).contains(f)
            &&& forall|i: int, f: Seq<char>|
                0 <= i < k.krate_count() && #[trigger] features_of(k.node_seq()[i]).contains(f) && declared_resolved(
                    md,
                    node_id(k.node_seq()[i]),
                    f,
                ) ==> feature_linked(k.node_seq(), k.edge_seq(), k.krate_count() as int, i, f)
            &&& forall|i: int, f: Seq<char>, g: Seq<char>|
                0 <= i < k.krate_count() && features_of(k.node_seq()[i]).contains(f) && declared_resolved(
                    md,
                    node_id(k.node_seq()[i]),
                    f,
                ) && #[trigger] plain_entry(md, node_id(k.node_seq()[i]), f, g) ==> feature_leads_to(
                    k.node_seq(),
                    k.edge_seq(),
                    k.krate_count() as int,
                    i,
                    f,
                    g,
                )
            &&& forall|i: int|
                0 <= i < k.krate_count() && root_ids(b, md).contains(node_id(#[trigger] k.node_seq()[i]))
                    ==> (item_with_id(resolve_nodes(md), node_id(k.node_seq()[i])) matches Some(n)
                    && strs(n.features@).to_set().subset_of(features_of(k.node_seq()[i])))
            &&& forall|i: int, j: int, f: Seq<char>, s: Seq<char>|
                0 <= i < k.krate_count() && 0 <= j < k.krate_count() && features_of(k.node_seq()[i]).contains(f)
                    && declared_resolved(md, node_id(k.node_seq()[i]), f) && #[trigger] dep_entry(
                    md,
                    node_id(k.node_seq()[i]),
                    f,
                    s,
                    node_id(k.node_seq()[j]),
                ) ==> feature_leads_to_crate(k.node_seq(), k.edge_seq(), k.krate_count() as int, i, f, j)
            &&& forall|i: int, j: int, f: Seq<char>, s: Seq<char>, z: Seq<char>|
                0 <= i < k.krate_count() && 0 <= j < k.krate_count() && features_of(k.node_seq()[i]).contains(f)
                    && declared_resolved(md, node_id(k.node_seq()[i]), f) && #[trigger] feature_entry(
                    md,
                    node_id(k.node_seq()[i]),
                    f,
                    s,
                    node_id(k.node_seq()[j]),
                    z,
                ) ==> feature_leads_to_named(k.node_seq(), k.edge_seq(), k.krate_count() as int, i, f, j, z)
            &&& forall|i: int, f: Seq<char>|
                0 <= i < k.krate_count() && #[trigger] features_of(k.node_seq()[i]).contains(f) ==> feature_origin(
                    b,
                    md,
                    k.node_seq(),
                    k.krate_count() as int,
                    node_id(k.node_seq()[i]),
                    f,
                )
        },
    }
}

/// The entry `s` of the feature `f` that the crate `id` declares is a
/// `dep:` entry enabling its dependency `t` (see [`dep_entry_pkg`]).
pub open spec fn dep_entry(md: Metadata, id: Seq<char>, f: Seq<char>, s: Seq<char>, t: Seq<char>) -> bool {
    &&& item_with_id(md.packages@, id) matches Some(p) && p.features@.contains_key(f) && p.features@[f].contains(s)
    &&& item_with_id(resolve_nodes(md), id) matches Some(n) && dep_entry_pkg(n.deps@, s) == Some(t)
}

/// The entry `s` of the feature `f` that the crate `id` declares is a
/// `<crate>/<feature>` entry, or a `<crate>?/<feature>` one whose crate is
/// among its resolved features, enabling the feature `z` of its dependency
/// `t`, or a `dep:z` entry naming its dependency `t` renamed to `z` (see
/// [`feature_entry_target`]).
pub open spec fn feature_entry(
    md: Metadata,
    id: Seq<char>,
    f: Seq<char>,
    s: Seq<char>,
    t: Seq<char>,
    z: Seq<char>,
) -> bool {
    &&& item_with_id(md.packages@, id) matches Some(p) && p.features@.contains_key(f) && p.features@[f].contains(s)
    &&& item_with_id(resolve_nodes(md), id) matches Some(n) && feature_entry_target(n.deps@, strs(n.features@), s)
        == Some((t, z))
}

/// Why the feature `f` can be enabled on the crate `id` of a graph whose
/// first `end` nodes are its crates: `id` is a root crate that cargo
/// resolved `f` on; a crate of the graph enables `f` in it (see
/// [`dep_enables`]); or an entry of one of the features its package
/// declares gives the name `f` (see [`entry_name`]).
pub open spec fn feature_origin<N>(
    b: BuilderModel,
    md: Metadata,
    nodes: Seq<Node<N>>,
    end: int,
    id: Seq<char>,
    f: Seq<char>,
) -> bool {
    ||| root_ids(b, md).contains(id) && (item_with_id(resolve_nodes(md), id) matches Some(n) && strs(
        n.features@,
    ).contains(f))
    ||| exists|i: int| 0 <= i < end && #[trigger] dep_enables(b, md, node_id(nodes[i]), id, f)
    ||| item_with_id(md.packages@, id) matches Some(p) && entries_give(p.features@, f)
}

/// The builder made of the given parts.
pub open spec fn builder_model(
    targets: Seq<TargetFilter>,
    workspace_filters: Seq<String>,
    exclude: Seq<PkgSpec>,
    workspace: bool,
    ignore_kinds: u32,
) -> BuilderModel {
    BuilderModel {
        target_filters: targets.map_values(|t: TargetFilter| t@),
        workspace_filters: strs(workspace_filters),
        exclude: exclude.map_values(|e: PkgSpec| e@),
        workspace,
        ignore_kinds,
    }
}

/// A reached crate is one of the packages.
proof fn lemma_reached_is_package(b: BuilderModel, md: Metadata, packages: Seq<Package>, id: Seq<char>)
    requires
        reached(b, md, id),
        packages.to_multiset() == md.packages@.to_multiset(),
    ensures
        id_seq(packages).contains(id),
{
    let path = choose|path: Seq<Seq<char>>| is_path(b, md, path) && path.last() == id;
    assert(included(b, md, path[path.len() - 1]));
    let ps = md.packages@;
    assert(exists|i: int| 0 <= i < ps.len() && (#[trigger] ps[i]).id_view() == id);
    let i = choose|i: int| 0 <= i < ps.len() && (#[trigger] ps[i]).id_view() == id;
    assert(id_seq(ps)[i] == id);
    lemma_same_ids(md.packages@, packages, id);
}

/// Builds the crate graph out of the metadata with the builder's parts.
pub(crate) fn build_graph<N: From<Package>, E: From<Edge>>(
    targets: Vec<TargetFilter>,
    workspace_filters: Vec<String>,
    exclude: Vec<PkgSpec>,
    workspace: bool,
    ignore_kinds: u32,
    md: Metadata,
) -> (r: (Result<Krates<N, E>, Error>, Vec<Package>))
    requires
        metadata_exact(md),
        md.resolve is Some ==> exclusions_defined(
            builder_model(targets@, workspace_filters@, exclude@, workspace, ignore_kinds),
            md,
        ),
    ensures
        build_outcome(
            builder_model(targets@, workspace_filters@, exclude@, workspace, ignore_kinds),
            md,
            r.0,
        ),
        reported(
            builder_model(targets@, workspace_filters@, exclude@, workspace, ignore_kinds),
            md,
            r.0 is Ok,
            r.1@,
        ),
{
    proof {
        reveal_strlit("Cargo.lock");
    }
    let ghost b = builder_model(targets@, workspace_filters@, exclude@, workspace, ignore_kinds);
    let ghost gmd = md;
    let Metadata { packages, workspace_members, resolve, workspace_root, .. } = md;
    let resolve = match resolve {
        Some(r) => r,
        None => return (Err(Error::NoResolveGraph), Vec::new()),
    };
    let Resolve { nodes, root } = resolve;
    let packages = sort_by_id(packages);
    let nodes = sort_by_id(nodes);
    let members = sort_by_id(workspace_members);
    proof {
        assert(walk_ready(gmd, packages@, nodes@, members@)) by {
            broadcast use vstd::multiset::group_multiset_axioms;

            assert(id_seq(members@).to_set() == id_seq(gmd.workspace_members@).to_set()) by {
                assert forall|id: Seq<char>| id_seq(members@).to_set().contains(id) == id_seq(gmd.workspace_members@).to_set().contains(id) by {
                    lemma_same_ids(gmd.workspace_members@, members@, id);
                }
                assert(id_seq(members@).to_set() =~= id_seq(gmd.workspace_members@).to_set());
            }
            assert forall|i: int| 0 <= i < nodes@.len() implies id_seq(packages@).contains(#[trigger] nodes@[i].id@) by {
                lemma_item_with_id(resolve_nodes(gmd), nodes@, i);
                let rn = resolve_nodes(gmd);
                let c = choose|c: int| 0 <= c < rn.len() && rn[c] == nodes@[i];
                assert(id_seq(gmd.packages@).contains(rn[c].id@));
                lemma_same_ids(gmd.packages@, packages@, nodes@[i].id@);
            }
            assert forall|i: int, j: int|
                0 <= i < nodes@.len() && 0 <= j < nodes@[i].deps.len() implies id_seq(nodes@).contains(
                    (#[trigger] nodes@[i].deps@[j]).pkg@,
                ) && id_seq(packages@).contains(nodes@[i].deps@[j].pkg@) by {
                lemma_item_with_id(resolve_nodes(gmd), nodes@, i);
                let rn = resolve_nodes(gmd);
                let c = choose|c: int| 0 <= c < rn.len() && rn[c] == nodes@[i];
                assert(rn[c].deps@[j] == nodes@[i].deps@[j]);
                let pid = nodes@[i].deps@[j].pkg@;
                assert(id_seq(rn).contains(pid));
                lemma_same_ids(rn, nodes@, pid);
                let q = choose|q: int| 0 <= q < id_seq(nodes@).len() && id_seq(nodes@)[q] == pid;
                assert(nodes@[q].id@ == pid);
            }
        }
    }
    let roots = root_indices(
        &workspace_filters,
        workspace,
        &root,
        workspace_root.as_str(),
        &packages,
        &nodes,
        &members,
        Ghost(b),
        Ghost(gmd),
    );
    let mut is_root: Vec<bool> = Vec::new();
    let mut i: usize = 0;
    while i < packages.len()
        invariant
            i <= packages@.len(),
            is_root@.len() == i,
            forall|j: int| 0 <= j < i ==> !#[trigger] is_root@[j],
        decreases packages.len() - i,
    {
        is_root.push(false);
        i += 1;
    }
    let mut k: usize = 0;
    while k < roots.len()
        invariant
            k <= roots@.len(),
            is_root@.len() == packages@.len(),
            forall|q: int| 0 <= q < roots@.len() ==> #[trigger] roots@[q] < packages@.len(),
            forall|q: int| 0 <= q < k ==> is_root@[#[trigger] roots@[q] as int],
            forall|j: int| 0 <= j < is_root@.len() && #[trigger] is_root@[j] ==> exists|q: int| 0 <= q < k && roots@[q] == j,
        decreases roots.len() - k,
    {
        is_root.set(roots[k], true);
        k += 1;
    }
    let ghost root_seq = roots@;
    let ghost root_marks = is_root@;
    let ghost nodes_sorted = nodes@;
    let walked = walk(&targets, ignore_kinds, &exclude, &packages, &nodes, &members, roots, Ghost(b), Ghost(gmd));
    let mut any = false;
    let mut i: usize = 0;
    while i < walked.in_graph.len()
        invariant
            i <= walked.in_graph@.len(),
            any == exists|j: int| 0 <= j < i && #[trigger] walked.in_graph@[j],
        decreases walked.in_graph.len() - i,
    {
        if walked.in_graph[i] {
            any = true;
        }
        i += 1;
    }
    let ghost sorted = packages@;
    if !any {
        proof {
            assert forall|id: Seq<char>| !#[trigger] reached(b, gmd, id) by {
                if reached(b, gmd, id) {
                    lemma_reached_is_package(b, gmd, sorted, id);
                    let j = choose|j: int| 0 <= j < id_seq(sorted).len() && id_seq(sorted)[j] == id;
                    assert(walked.in_graph@[j]);
                }
            }
        }
        return (Err(Error::NoRootKrates), Vec::new());
    }
    let ghost sorted_pk = packages@;
    let mut left: Vec<Package> = Vec::new();
    let (mut graph, nid) = add_krate_nodes::<N, E>(packages, &nodes, &walked.in_graph, &is_root, &mut left);
    proof {
        lemma_left_out_unreached(b, gmd, sorted_pk, walked.in_graph@);
        assert(left@ =~= not_reached(b, gmd, sorted_pk));
    }
    let end = graph.node_count();
    let ghost snap = graph.node_seq();
    proof {
        assert(graph_shape(graph.node_seq(), graph.edge_seq(), end as int));
        assert forall|j: int| 0 <= j < nid@.len() && #[trigger] nid@[j] is Some implies nid@[j]->0 < end by {}
    }
    proof {
        assert forall|i: int|
            0 <= i < nid@.len() && #[trigger] nid@[i] is Some implies nid@[i]->0 < end && node_id(
                graph.node_seq()[nid@[i]->0 as int],
            ) == sorted[i].id@ by {}
        assert forall|i: int, q: int|
            0 <= i < walked.deps@.len() && nid@[i] is Some && 0 <= q < walked.deps@[i]@.len() implies dep_step(
                b,
                gmd,
                id_seq(sorted)[i],
                id_seq(sorted)[(#[trigger] walked.deps@[i]@[q]).pkg as int],
            ) by {
            assert(walked.in_graph@[i]);
        }
        assert forall|i: int, k: int, x: int|
            0 <= i < walked.deps@.len() && nid@[i] is Some && 0 <= k < walked.deps@[i]@.len() && 0 <= x
                < walked.deps@[i]@[k].edges@.len() implies link_kept_as(
            b,
            gmd,
            id_seq(sorted)[i],
            id_seq(sorted)[walked.deps@[i]@[k].pkg as int],
            (#[trigger] walked.deps@[i]@[k].edges@[x]).kind,
            opt_str(walked.deps@[i]@[k].edges@[x].cfg),
        ) by {
            assert(walked.in_graph@[i]);
            assert(deps_cover(b, gmd, sorted[i].id@, sorted, walked.deps@[i]@, walked.features@[i]@, i));
            reveal(deps_cover);
            reveal(deps_links_sound);
            let kd = walked.deps@[i]@;
            assert(kd[k].edges@[x] == walked.deps@[i]@[k].edges@[x]);
        }
    }
    add_dep_edges(&mut graph, end, &nid, &walked.deps, Ghost(b), Ghost(gmd), Ghost(id_seq(sorted)));
    let ghost wdeps = walked.deps@;
    let ghost (g1n, g1e) = (graph.node_seq(), graph.edge_seq());
    let Walk { in_graph, deps: _, features } = walked;
    proof {
        crate::set::lemma_sorted_no_dup(id_seq(sorted));
        assert forall|a: int, c: int|
            0 <= a < nid@.len() && 0 <= c < nid@.len() && a != c && #[trigger] nid@[a] is Some && #[trigger] nid@[c] is Some
            implies nid@[a] != nid@[c] by {
            if nid@[a] == nid@[c] {
                assert(node_id(snap[nid@[a]->0 as int]) == sorted[a].id@);
                assert(node_id(snap[nid@[c]->0 as int]) == sorted[c].id@);
                assert(id_seq(sorted)[a] == id_seq(sorted)[c]);
            }
        }
    }
    let ghost wfeats = features@;
    add_feature_edges(&mut graph, end, &nid, features, Ghost(b), Ghost(gmd));
    proof {
        assert forall|e: int|
            0 <= e < graph.edge_seq().len() && (#[trigger] graph.edge_seq()[e]).source >= end implies weight_is(
            graph.edge_seq()[e].weight,
            Edge::Feature,
        ) by {
            if e < g1e.len() {
                assert(graph.edge_seq()[e] == g1e[e]);
            }
        }
        assert forall|c: int, f: Seq<char>|
            0 <= c < end && #[trigger] features_of(graph.node_seq()[c]).contains(f) implies features_of(snap[c]).contains(f)
                || dep_feature_from(nid@, wdeps, nid@.len() as int, 0, c, f) || crate_entries_name(
                nid@,
                wfeats,
                nid@.len() as int,
                c,
                f,
            ) by {
            if !crate_entries_name(nid@, wfeats, nid@.len() as int, c, f) {
                assert(features_of(g1n[c]).contains(f));
            }
        }
        assert forall|j: int| 0 <= j < root_marks.len() && #[trigger] root_marks[j] implies root_ids(b, gmd).contains(
            sorted[j].id@,
        ) by {
            let q = choose|q: int| 0 <= q < root_seq.len() && root_seq[q] == j;
            assert(root_ids(b, gmd).contains(sorted[root_seq[q] as int].id@));
        }
    }
    proof {
        lemma_links_grow(g1n, g1e, graph.node_seq(), graph.edge_seq(), end as int, nid@, wdeps, nid@.len() as int, 0);
        lemma_features_grow(g1n, g1e, graph.node_seq(), graph.edge_seq(), end as int, nid@, wdeps, nid@.len() as int, 0);
    }
    let lock = paths::join(workspace_root.as_str(), "Cargo.lock");
    let ghost msorted = members@;
    let k = Krates::from_parts(graph, members, lock, end);
    proof {
        lemma_build_ok(b, gmd, sorted, snap, nid@, in_graph@, nodes_sorted, root_marks, root_seq, wdeps, wfeats, k);
        assert(sorted == sorted_pk);
        assert(sorted.to_multiset() == gmd.packages@.to_multiset() && strictly_sorted(id_seq(sorted)) && left@
            == not_reached(b, gmd, sorted));
    }
    (Ok(k), left)
}

/// A feature enabled on a crate of the graph built has one of the origins
/// [`feature_origin`] lists.
proof fn lemma_feature_origin<N: From<Package>, E: From<Edge>>(
    b: BuilderModel,
    md: Metadata,
    sorted: Seq<Package>,
    snap: Seq<Node<N>>,
    nid: Seq<Option<usize>>,
    in_graph: Seq<bool>,
    nodes_sorted: Seq<ResolveNode>,
    is_root: Seq<bool>,
    deps: Seq<Vec<KrateDependency>>,
    feats: Seq<Vec<(String, Vec<FeatureEdge>)>>,
    k: Krates<N, E>,
    c: int,
    f: Seq<char>,
)
    requires
        0 <= c < k.krate_count(),
        features_of(k.node_seq()[c]).contains(f),
        features_of(snap[c]).contains(f) || dep_feature_from(nid, deps, nid.len() as int, 0, c, f)
            || crate_entries_name(nid, feats, nid.len() as int, c, f),
        root_features_only(snap, sorted, nid, is_root, nodes_sorted),
        forall|j: int| 0 <= j < is_root.len() && #[trigger] is_root[j] ==> root_ids(b, md).contains(sorted[j].id@),
        is_root.len() == sorted.len(),
        deps.len() == sorted.len(),
        feats.len() == sorted.len(),
        forall|a: int, q: int| 0 <= a < deps.len() && 0 <= q < deps[a]@.len() ==> (#[trigger] deps[a]@[q]).pkg < sorted.len(),
        forall|a: int|
            0 <= a < sorted.len() && in_graph[a] ==> #[trigger] deps_cover(
                b,
                md,
                sorted[a].id@,
                sorted,
                deps[a]@,
                feats[a]@,
                a,
            ),
        nodes_sorted.to_multiset() == resolve_nodes(md).to_multiset(),
        id_seq(resolve_nodes(md)).no_duplicates(),
        strictly_sorted(id_seq(nodes_sorted)),
        sorted.to_multiset() == md.packages@.to_multiset(),
        id_seq(md.packages@).no_duplicates(),
        strictly_sorted(id_seq(sorted)),
        in_graph.len() == sorted.len(),
        crate_nodes(snap, snap.len() as int, sorted, nid),
        forall|i: int| 0 <= i < sorted.len() ==> (#[trigger] nid[i] is Some <==> in_graph[i]),
        k.krate_count() == snap.len(),
        snap.len() <= usize::MAX,
        same_crates(snap, k.node_seq(), k.krate_count() as int),
    ensures
        feature_origin(b, md, k.node_seq(), k.krate_count() as int, node_id(k.node_seq()[c]), f),
{
    let nodes = k.node_seq();
    assert(node_of_some(nid, c));
    let j = choose|j: int| 0 <= j < nid.len() && #[trigger] nid[j] == Some(c as usize);
    assert((c as usize) as int == c);
    assert(node_id(snap[c]) == sorted[j].id@);
    let id = sorted[j].id@;
    assert(node_id(nodes[c]) == id);
    if features_of(snap[c]).contains(f) {
        assert(is_root[j]);
        assert(root_ids(b, md).contains(id));
        let n = item_with_id(nodes_sorted, id)->0;
        let x = choose|x: int| 0 <= x < nodes_sorted.len() && (#[trigger] nodes_sorted[x]).id_view() == id;
        crate::set::lemma_sorted_no_dup(id_seq(nodes_sorted));
        lemma_item_with_id(nodes_sorted, nodes_sorted, x);
        lemma_item_with_id(resolve_nodes(md), nodes_sorted, x);
        assert(item_with_id(resolve_nodes(md), id) == Some(n));
    } else if dep_feature_from(nid, deps, nid.len() as int, 0, c, f) {
        let (a, q) = choose|a: int, q: int|
            0 <= a < deps.len() && 0 <= q < deps[a]@.len() && (a < nid.len() || (a == nid.len() && q < 0))
                && nid[a] is Some && nid[deps[a]@[q].pkg as int] == Some(c as usize) && #[trigger] kd_enables(
                deps[a]@[q],
                f,
            );
        assert(in_graph[a]);
        assert(deps_cover(b, md, sorted[a].id@, sorted, deps[a]@, feats[a]@, a));
        reveal(deps_cover);
        reveal(deps_features_sound);
        let pkg = deps[a]@[q].pkg as int;
        assert(dep_enables(b, md, sorted[a].id@, sorted[pkg].id@, f));
        assert(node_id(snap[c]) == sorted[pkg].id@);
        let i = nid[a]->0 as int;
        assert(node_id(snap[i]) == sorted[a].id@);
        assert(node_id(nodes[i]) == sorted[a].id@);
        assert(dep_enables(b, md, node_id(nodes[i]), id, f));
    } else {
        let a = choose|a: int| 0 <= a < nid.len() && nid[a] == Some(c as usize) && #[trigger] entries_name(feats[a]@, f);
        assert(in_graph[a]);
        assert(deps_cover(b, md, sorted[a].id@, sorted, deps[a]@, feats[a]@, a));
        reveal(deps_cover);
        reveal(feature_entries_ok);
        reveal(entries_cover);
        assert(node_id(snap[c]) == sorted[a].id@);
        lemma_item_with_id(md.packages@, sorted, a);
        let p = sorted[a];
        assert(item_with_id(md.packages@, id) == Some(p));
        assert(names_given(feats[a]@, p.features@));
        reveal(names_given);
        assert(entries_give(p.features@, f));
    }
}

/// The graph built is the one [`build_outcome`] describes.
proof fn lemma_build_ok<N: From<Package>, E: From<Edge>>(
    b: BuilderModel,
    md: Metadata,
    sorted: Seq<Package>,
    snap: Seq<Node<N>>,
    nid: Seq<Option<usize>>,
    in_graph: Seq<bool>,
    nodes_sorted: Seq<ResolveNode>,
    is_root: Seq<bool>,
    roots: Seq<usize>,
    deps: Seq<Vec<KrateDependency>>,
    feats: Seq<Vec<(String, Vec<FeatureEdge>)>>,
    k: Krates<N, E>,
)
    requires
        md.resolve is Some,
        deps.len() == sorted.len(),
        forall|a: int, q: int| 0 <= a < deps.len() && 0 <= q < deps[a]@.len() ==> (#[trigger] deps[a]@[q]).pkg < sorted.len(),
        feats.len() == sorted.len(),
        forall|j: int, f: Seq<char>|
            0 <= j < nid.len() && nid[j] is Some && #[trigger] features_of(k.node_seq()[nid[j]->0 as int]).contains(f)
                && entry_named(feats[j]@, f) ==> feature_done(
                k.node_seq(),
                k.edge_seq(),
                k.krate_count() as int,
                nid[j]->0 as int,
                j,
                nid,
                feats[j]@,
                f,
            ),
        forall|a: int|
            0 <= a < sorted.len() && in_graph[a] ==> #[trigger] deps_cover(
                b,
                md,
                sorted[a].id@,
                sorted,
                deps[a]@,
                feats[a]@,
                a,
            ),
        links_present(k.node_seq(), k.edge_seq(), k.krate_count() as int, nid, deps, nid.len() as int, 0),
        features_present(k.node_seq(), nid, deps, nid.len() as int, 0),
        strictly_sorted(id_seq(sorted)),
        nodes_sorted.to_multiset() == resolve_nodes(md).to_multiset(),
        id_seq(resolve_nodes(md)).no_duplicates(),
        strictly_sorted(id_seq(nodes_sorted)),
        root_features(snap, sorted, nid, is_root, nodes_sorted),
        forall|q: int|
            0 <= q < roots.len() ==> #[trigger] roots[q] < sorted.len() && is_root[roots[q] as int]
                && id_seq(nodes_sorted).contains(sorted[roots[q] as int].id@),
        forall|id: Seq<char>|
            #[trigger] root_ids(b, md).contains(id) ==> exists|q: int|
                0 <= q < roots.len() && sorted[#[trigger] roots[q] as int].id@ == id,
        sorted.to_multiset() == md.packages@.to_multiset(),
        id_seq(md.packages@).no_duplicates(),
        in_graph.len() == sorted.len(),
        exists|j: int| 0 <= j < in_graph.len() && #[trigger] in_graph[j],
        forall|i: int| 0 <= i < sorted.len() ==> (#[trigger] in_graph[i] <==> reached(b, md, sorted[i].id@)),
        crate_nodes(snap, snap.len() as int, sorted, nid),
        forall|i: int| 0 <= i < sorted.len() ==> (#[trigger] nid[i] is Some <==> in_graph[i]),
        k.krate_count() == snap.len(),
        snap.len() <= usize::MAX,
        graph_shape(k.node_seq(), k.edge_seq(), k.krate_count() as int),
        same_crates(snap, k.node_seq(), k.krate_count() as int),
        crate_edges_follow(b, md, k.node_seq(), k.edge_seq(), k.krate_count() as int),
        strictly_sorted(id_seq(k.member_seq())),
        id_seq(k.member_seq()).to_set() == id_seq(md.workspace_members@).to_set(),
        k.lock_file_path() == camino_join(md.workspace_root@, "Cargo.lock"@),
        forall|e: int|
            0 <= e < k.edge_seq().len() && (#[trigger] k.edge_seq()[e]).source >= k.krate_count() ==> weight_is(
                k.edge_seq()[e].weight,
                Edge::Feature,
            ),
        forall|c: int, f: Seq<char>|
            0 <= c < k.krate_count() && #[trigger] features_of(k.node_seq()[c]).contains(f) ==> features_of(
                snap[c],
            ).contains(f) || dep_feature_from(nid, deps, nid.len() as int, 0, c, f) || crate_entries_name(
                nid,
                feats,
                nid.len() as int,
                c,
                f,
            ),
        root_features_only(snap, sorted, nid, is_root, nodes_sorted),
        forall|j: int| 0 <= j < is_root.len() && #[trigger] is_root[j] ==> root_ids(b, md).contains(sorted[j].id@),
        is_root.len() == sorted.len(),
    ensures
        build_outcome(b, md, Ok::<Krates<N, E>, Error>(k)),
{
    let end = k.krate_count() as int;
    let nodes = k.node_seq();
    assert(krates_wf(nodes, k.edge_seq(), end)) by {
        assert forall|a: int, c: int| 0 <= a < c < end implies seq_lt(node_id(#[trigger] nodes[a]), node_id(#[trigger] nodes[c])) by {
            assert(seq_lt(node_id(snap[a]), node_id(snap[c])));
        }
    }
    let j0 = choose|j: int| 0 <= j < in_graph.len() && #[trigger] in_graph[j];
    assert(nid[j0] is Some);
    assert(k.krate_count() > 0);
    assert forall|i: int| 0 <= i < k.krate_count() implies {
        let id = node_id(#[trigger] k.node_seq()[i]);
        &&& reached(b, md, id)
        &&& item_with_id(md.packages@, id) matches Some(p) && (<N as FromSpec<Package>>::obeys_from_spec()
            ==> krate_of(k.node_seq()[i]) == <N as FromSpec<Package>>::from_spec(p))
    } by {
        assert(node_of_some(nid, i));
        let j = choose|j: int| 0 <= j < nid.len() && #[trigger] nid[j] == Some(i as usize);
        assert((i as usize) as int == i);
        assert(node_id(snap[i]) == sorted[j].id@);
        lemma_item_with_id(md.packages@, sorted, j);
    }
    assert forall|id: Seq<char>| #[trigger] reached(b, md, id) implies exists|i: int|
        0 <= i < k.krate_count() && node_id(#[trigger] k.node_seq()[i]) == id by {
        lemma_reached_is_package(b, md, sorted, id);
        let j = choose|j: int| 0 <= j < id_seq(sorted).len() && id_seq(sorted)[j] == id;
        assert(sorted[j].id@ == id);
        assert(in_graph[j]);
        let i = nid[j]->0 as int;
        assert(node_id(nodes[i]) == id);
    }
    assert forall|i: int|
        0 <= i < k.krate_count() && root_ids(b, md).contains(node_id(#[trigger] k.node_seq()[i])) implies
            (item_with_id(resolve_nodes(md), node_id(k.node_seq()[i])) matches Some(n)
            && strs(n.features@).to_set().subset_of(features_of(k.node_seq()[i]))) by {
        let id = node_id(k.node_seq()[i]);
        assert(node_of_some(nid, i));
        let j = choose|j: int| 0 <= j < nid.len() && #[trigger] nid[j] == Some(i as usize);
        assert((i as usize) as int == i);
        assert(node_id(snap[i]) == sorted[j].id@);
        let q = choose|q: int| 0 <= q < roots.len() && sorted[#[trigger] roots[q] as int].id@ == id;
        let r = roots[q] as int;
        crate::set::lemma_sorted_no_dup(id_seq(sorted));
        assert(id_seq(sorted)[r] == id_seq(sorted)[j]);
        assert(r == j);
        assert(is_root[j]);
        let c = choose|c: int| 0 <= c < id_seq(nodes_sorted).len() && id_seq(nodes_sorted)[c] == id;
        assert(nodes_sorted[c].id_view() == id);
        lemma_item_with_id(resolve_nodes(md), nodes_sorted, c);
        crate::set::lemma_sorted_no_dup(id_seq(nodes_sorted));
        lemma_item_with_id(nodes_sorted, nodes_sorted, c);
        assert(nid[j] is Some);
        assert(features_of(snap[i]).subset_of(features_of(nodes[i])));
    }
    assert forall|i: int, j: int|
        0 <= i < k.krate_count() && 0 <= j < k.krate_count() && #[trigger] dep_linked(
            b,
            md,
            node_id(k.node_seq()[i]),
            node_id(k.node_seq()[j]),
        ) implies has_edge_between(k.node_seq(), k.edge_seq(), 0, k.krate_count() as int, i, j) by {
        assert(node_of_some(nid, i));
        let a = choose|a: int| 0 <= a < nid.len() && #[trigger] nid[a] == Some(i as usize);
        assert(node_of_some(nid, j));
        let c = choose|c: int| 0 <= c < nid.len() && #[trigger] nid[c] == Some(j as usize);
        assert((i as usize) as int == i && (j as usize) as int == j);
        assert(node_id(snap[i]) == sorted[a].id@);
        assert(node_id(snap[j]) == sorted[c].id@);
        assert(in_graph[a]);
        assert(deps_cover(b, md, sorted[a].id@, sorted, deps[a]@, feats[a]@, a));
        reveal(deps_cover);
        reveal(deps_cover_links);
        let t = sorted[c].id@;
        assert(dep_linked(b, md, sorted[a].id@, t));
        let q = choose|q: int|
            0 <= q < deps[a]@.len() && sorted[(#[trigger] deps[a]@[q]).pkg as int].id@ == t && kd_makes_edge(deps[a]@[q]);
        let pkg = deps[a]@[q].pkg as int;
        crate::set::lemma_sorted_no_dup(id_seq(sorted));
        assert(id_seq(sorted)[pkg] == id_seq(sorted)[c]);
        assert(pkg == c);
        assert(nid[deps[a]@[q].pkg as int] is Some);
    }
    assert forall|i: int, j: int, f: Seq<char>|
        0 <= i < k.krate_count() && 0 <= j < k.krate_count() && #[trigger] dep_enables(
            b,
            md,
            node_id(k.node_seq()[i]),
            node_id(k.node_seq()[j]),
            f,
        ) implies features_of(k.node_seq()[j]).contains(f) by {
        assert(node_of_some(nid, i));
        let a = choose|a: int| 0 <= a < nid.len() && #[trigger] nid[a] == Some(i as usize);
        assert(node_of_some(nid, j));
        let c = choose|c: int| 0 <= c < nid.len() && #[trigger] nid[c] == Some(j as usize);
        assert((i as usize) as int == i && (j as usize) as int == j);
        assert(node_id(snap[i]) == sorted[a].id@);
        assert(node_id(snap[j]) == sorted[c].id@);
        assert(in_graph[a]);
        assert(deps_cover(b, md, sorted[a].id@, sorted, deps[a]@, feats[a]@, a));
        reveal(deps_cover);
        reveal(deps_cover_features);
        let t = sorted[c].id@;
        assert(dep_enables(b, md, sorted[a].id@, t, f));
        let q = choose|q: int|
            0 <= q < deps[a]@.len() && sorted[(#[trigger] deps[a]@[q]).pkg as int].id@ == t && kd_enables(
                deps[a]@[q],
                f,
            );
        let pkg = deps[a]@[q].pkg as int;
        crate::set::lemma_sorted_no_dup(id_seq(sorted));
        assert(id_seq(sorted)[pkg] == id_seq(sorted)[c]);
        assert(pkg == c);
        assert(nid[deps[a]@[q].pkg as int] is Some);
        assert(kd_enables(deps[a]@[q], f));
    }
    assert forall|i: int, f: Seq<char>|
        0 <= i < k.krate_count() && #[trigger] features_of(k.node_seq()[i]).contains(f) && declared_resolved(
            md,
            node_id(k.node_seq()[i]),
            f,
        ) implies feature_linked(k.node_seq(), k.edge_seq(), k.krate_count() as int, i, f) by {
        assert(node_of_some(nid, i));
        let a = choose|a: int| 0 <= a < nid.len() && #[trigger] nid[a] == Some(i as usize);
        assert((i as usize) as int == i);
        assert(node_id(snap[i]) == sorted[a].id@);
        assert(in_graph[a]);
        assert(deps_cover(b, md, sorted[a].id@, sorted, deps[a]@, feats[a]@, a));
        reveal(deps_cover);
        reveal(feature_entries_ok);
        reveal(entries_cover);
        assert(declared_resolved(md, sorted[a].id@, f));
        assert(entry_named(feats[a]@, f));
    }
    assert forall|i: int, f: Seq<char>, g: Seq<char>|
        0 <= i < k.krate_count() && features_of(k.node_seq()[i]).contains(f) && declared_resolved(
            md,
            node_id(k.node_seq()[i]),
            f,
        ) && #[trigger] plain_entry(md, node_id(k.node_seq()[i]), f, g) implies feature_leads_to(
            k.node_seq(),
            k.edge_seq(),
            k.krate_count() as int,
            i,
            f,
            g,
        ) by {
        assert(node_of_some(nid, i));
        let a = choose|a: int| 0 <= a < nid.len() && #[trigger] nid[a] == Some(i as usize);
        assert((i as usize) as int == i);
        assert(node_id(snap[i]) == sorted[a].id@);
        assert(in_graph[a]);
        assert(deps_cover(b, md, sorted[a].id@, sorted, deps[a]@, feats[a]@, a));
        reveal(deps_cover);
        reveal(feature_entries_ok);
        reveal(entries_cover);
        assert(declared_resolved(md, sorted[a].id@, f));
        assert(entry_named(feats[a]@, f));
        let es = feats[a]@;
        assert(feature_done(k.node_seq(), k.edge_seq(), k.krate_count() as int, i, a, nid, es, f));
        let x = choose|x: int|
            0 <= x < es.len() && (#[trigger] es[x]).0@ == f && forall|c: int, g2: Seq<char>|
                0 <= c < es[x].1@.len() && #[trigger] plain_link(es[x].1@[c], a, g2) ==> feature_leads_to(
                    k.node_seq(),
                    k.edge_seq(),
                    k.krate_count() as int,
                    i,
                    f,
                    g2,
                );
        let p = item_with_id(md.packages@, sorted[a].id@)->0;
        assert(entries_plain(es, p.features@, a));
        assert(p.features@[es[x].0@].contains(g));
        let c = choose|c: int| 0 <= c < es[x].1@.len() && plain_link(#[trigger] es[x].1@[c], a, g);
        assert(plain_link(es[x].1@[c], a, g));
    }
    assert forall|i: int, j: int, f: Seq<char>, s: Seq<char>|
        0 <= i < k.krate_count() && 0 <= j < k.krate_count() && features_of(k.node_seq()[i]).contains(f)
            && declared_resolved(md, node_id(k.node_seq()[i]), f) && #[trigger] dep_entry(
            md,
            node_id(k.node_seq()[i]),
            f,
            s,
            node_id(k.node_seq()[j]),
        ) implies feature_leads_to_crate(k.node_seq(), k.edge_seq(), k.krate_count() as int, i, f, j) by {
        assert(node_of_some(nid, i));
        let a = choose|a: int| 0 <= a < nid.len() && #[trigger] nid[a] == Some(i as usize);
        assert(node_of_some(nid, j));
        let c2 = choose|c2: int| 0 <= c2 < nid.len() && #[trigger] nid[c2] == Some(j as usize);
        assert((i as usize) as int == i && (j as usize) as int == j);
        assert(node_id(snap[i]) == sorted[a].id@);
        assert(node_id(snap[j]) == sorted[c2].id@);
        assert(in_graph[a]);
        assert(deps_cover(b, md, sorted[a].id@, sorted, deps[a]@, feats[a]@, a));
        reveal(deps_cover);
        reveal(feature_entries_ok);
        reveal(entries_cover);
        reveal(entries_dep_links);
        assert(declared_resolved(md, sorted[a].id@, f));
        assert(entry_named(feats[a]@, f));
        let es = feats[a]@;
        assert(feature_done(k.node_seq(), k.edge_seq(), k.krate_count() as int, i, a, nid, es, f));
        let x = choose|x: int|
            0 <= x < es.len() && (#[trigger] es[x]).0@ == f && (forall|c: int, g2: Seq<char>|
                0 <= c < es[x].1@.len() && #[trigger] plain_link(es[x].1@[c], a, g2) ==> feature_leads_to(
                    k.node_seq(),
                    k.edge_seq(),
                    k.krate_count() as int,
                    i,
                    f,
                    g2,
                )) && (forall|c: int, t: int|
                0 <= c < es[x].1@.len() && #[trigger] link_to_node(es[x].1@[c], nid, t) ==> feature_leads_to_crate(
                    k.node_seq(),
                    k.edge_seq(),
                    k.krate_count() as int,
                    i,
                    f,
                    t,
                ));
        let p = item_with_id(md.packages@, sorted[a].id@)->0;
        let n = item_with_id(resolve_nodes(md), sorted[a].id@)->0;
        let t = sorted[c2].id@;
        assert(p.features@[es[x].0@].contains(s));
        assert(dep_entry_pkg(n.deps@, s) == Some(t));
        let c = choose|c: int| 0 <= c < es[x].1@.len() && krate_link_to(#[trigger] es[x].1@[c], sorted, t);
        let kid = es[x].1@[c].kid as int;
        crate::set::lemma_sorted_no_dup(id_seq(sorted));
        assert(id_seq(sorted)[kid] == id_seq(sorted)[c2]);
        assert(kid == c2);
        assert(link_to_node(es[x].1@[c], nid, j));
    }
    assert forall|i: int, j: int, f: Seq<char>, s: Seq<char>, z: Seq<char>|
        0 <= i < k.krate_count() && 0 <= j < k.krate_count() && features_of(k.node_seq()[i]).contains(f)
            && declared_resolved(md, node_id(k.node_seq()[i]), f) && #[trigger] feature_entry(
            md,
            node_id(k.node_seq()[i]),
            f,
            s,
            node_id(k.node_seq()[j]),
            z,
        ) implies feature_leads_to_named(k.node_seq(), k.edge_seq(), k.krate_count() as int, i, f, j, z) by {
        assert(node_of_some(nid, i));
        let a = choose|a: int| 0 <= a < nid.len() && #[trigger] nid[a] == Some(i as usize);
        assert(node_of_some(nid, j));
        let c2 = choose|c2: int| 0 <= c2 < nid.len() && #[trigger] nid[c2] == Some(j as usize);
        assert((i as usize) as int == i && (j as usize) as int == j);
        assert(node_id(snap[i]) == sorted[a].id@);
        assert(node_id(snap[j]) == sorted[c2].id@);
        assert(in_graph[a]);
        assert(deps_cover(b, md, sorted[a].id@, sorted, deps[a]@, feats[a]@, a));
        reveal(deps_cover);
        reveal(feature_entries_ok);
        reveal(entries_cover);
        reveal(entries_feature_links);
        assert(declared_resolved(md, sorted[a].id@, f));
        assert(entry_named(feats[a]@, f));
        let es = feats[a]@;
        assert(feature_done(k.node_seq(), k.edge_seq(), k.krate_count() as int, i, a, nid, es, f));
        let x = choose|x: int|
            0 <= x < es.len() && (#[trigger] es[x]).0@ == f && (forall|c: int, g2: Seq<char>|
                0 <= c < es[x].1@.len() && #[trigger] plain_link(es[x].1@[c], a, g2) ==> feature_leads_to(
                    k.node_seq(),
                    k.edge_seq(),
                    k.krate_count() as int,
                    i,
                    f,
                    g2,
                )) && (forall|c: int, t: int|
                0 <= c < es[x].1@.len() && #[trigger] link_to_node(es[x].1@[c], nid, t) ==> feature_leads_to_crate(
                    k.node_seq(),
                    k.edge_seq(),
                    k.krate_count() as int,
                    i,
                    f,
                    t,
                )) && (forall|c: int, t: int, z2: Seq<char>|
                0 <= c < es[x].1@.len() && #[trigger] link_to_feature_node(es[x].1@[c], nid, t, z2)
                    ==> feature_leads_to_named(k.node_seq(), k.edge_seq(), k.krate_count() as int, i, f, t, z2));
        let p = item_with_id(md.packages@, sorted[a].id@)->0;
        let n = item_with_id(resolve_nodes(md), sorted[a].id@)->0;
        let t = sorted[c2].id@;
        assert(p.features@[es[x].0@].contains(s));
        assert(feature_entry_target(n.deps@, strs(n.features@), s) == Some((t, z)));
        let c = choose|c: int| 0 <= c < es[x].1@.len() && feature_link_to(#[trigger] es[x].1@[c], sorted, (t, z));
        let kid = es[x].1@[c].kid as int;
        crate::set::lemma_sorted_no_dup(id_seq(sorted));
        assert(id_seq(sorted)[kid] == id_seq(sorted)[c2]);
        assert(kid == c2);
        assert(link_to_feature_node(es[x].1@[c], nid, j, z));
    }
    assert forall|c: int, f: Seq<char>|
        0 <= c < k.krate_count() && #[trigger] features_of(k.node_seq()[c]).contains(f) implies feature_origin(
        b,
        md,
        k.node_seq(),
        k.krate_count() as int,
        node_id(k.node_seq()[c]),
        f,
    ) by {
        lemma_feature_origin(b, md, sorted, snap, nid, in_graph, nodes_sorted, is_root, deps, feats, k, c, f);
    }
}

} // verus!

verus! {

/// A crate that an exclusion matches is never a crate of the graph built.
pub proof fn build_leaves_out_excluded<N: From<Package>, E: From<Edge>>(
    b: BuilderModel,
    md: Metadata,
    k: Krates<N, E>,
    p: Package,
)
    requires
        metadata_exact(md),
        build_outcome(b, md, Ok::<Krates<N, E>, Error>(k)),
        md.packages@.contains(p),
        excluded(b, p),
    ensures
        forall|i: int| 0 <= i < k.krate_count() ==> node_id(#[trigger] k.node_seq()[i]) != p.id@,
{
    let c = choose|c: int| 0 <= c < md.packages@.len() && md.packages@[c] == p;
    lemma_item_with_id(md.packages@, md.packages@, c);
    assert forall|i: int| 0 <= i < k.krate_count() implies node_id(#[trigger] k.node_seq()[i]) != p.id@ by {
        if node_id(k.node_seq()[i]) == p.id@ {
            let path = choose|path: Seq<Seq<char>>| is_path(b, md, path) && path.last() == p.id@;
            assert(included(b, md, path[path.len() - 1]));
        }
    }
}

/// A root crate that no exclusion matches is a crate of the graph built.
pub proof fn build_keeps_roots<N: From<Package>, E: From<Edge>>(
    b: BuilderModel,
    md: Metadata,
    k: Krates<N, E>,
    id: Seq<char>,
)
    requires
        build_outcome(b, md, Ok::<Krates<N, E>, Error>(k)),
        root_ids(b, md).contains(id),
        included(b, md, id),
    ensures
        exists|i: int| 0 <= i < k.krate_count() && node_id(#[trigger] k.node_seq()[i]) == id,
{
    let path = seq![id];
    assert(is_path(b, md, path));
    assert(path.last() == id);
    assert(reached(b, md, id));
}

/// The graph built is closed under the dependencies that stay: a kept
/// dependency of a crate of the graph, unless excluded, is a crate of the
/// graph too.
pub proof fn build_follows_kept_dependencies<N: From<Package>, E: From<Edge>>(
    b: BuilderModel,
    md: Metadata,
    k: Krates<N, E>,
    i: int,
    t: Seq<char>,
)
    requires
        build_outcome(b, md, Ok::<Krates<N, E>, Error>(k)),
        0 <= i < k.krate_count(),
        dep_step(b, md, node_id(k.node_seq()[i]), t),
        included(b, md, t),
    ensures
        exists|j: int| 0 <= j < k.krate_count() && node_id(#[trigger] k.node_seq()[j]) == t,
{
    let id = node_id(k.node_seq()[i]);
    assert(reached(b, md, id));
    let path = choose|path: Seq<Seq<char>>| is_path(b, md, path) && path.last() == id;
    let longer = path.push(t);
    assert forall|q: int| 0 <= q < longer.len() implies included(b, md, #[trigger] longer[q]) by {
        if q < path.len() {
            assert(longer[q] == path[q]);
        }
    }
    assert forall|q: int| 0 <= q < longer.len() - 1 implies dep_step(b, md, #[trigger] longer[q], longer[q + 1]) by {
        if q < path.len() - 1 {
            assert(longer[q] == path[q]);
            assert(longer[q + 1] == path[q + 1]);
        } else {
            assert(longer[q] == id);
        }
    }
    assert(is_path(b, md, longer));
    assert(longer.last() == t);
    assert(reached(b, md, t));
}

/// Every dependency between two crates of the graph built, with a link that
/// stays and that uses the dependency's default feature, names no feature
/// or names one other than `default`, is an edge from the one crate to the
/// other or to one of its features.
pub proof fn build_links_dependencies<N: From<Package>, E: From<Edge>>(
    b: BuilderModel,
    md: Metadata,
    k: Krates<N, E>,
    i: int,
    j: int,
)
    requires
        build_outcome(b, md, Ok::<Krates<N, E>, Error>(k)),
        0 <= i < k.krate_count(),
        0 <= j < k.krate_count(),
        dep_linked(b, md, node_id(k.node_seq()[i]), node_id(k.node_seq()[j])),
    ensures
        exists|e: int|
            0 <= e < k.edge_seq().len() && (#[trigger] k.edge_seq()[e]).source == i && owner(
                k.node_seq(),
                k.edge_seq()[e].target as int,
                k.krate_count() as int,
            ) == j,
{
}

/// A feature that a crate of the graph built enables in a dependency that
/// is a crate of the graph too, by a link that stays or by its own enabled
/// features (see [`dep_enables`]), is enabled on that dependency's crate.
pub proof fn build_enables_dependency_features<N: From<Package>, E: From<Edge>>(
    b: BuilderModel,
    md: Metadata,
    k: Krates<N, E>,
    i: int,
    j: int,
    f: Seq<char>,
)
    requires
        build_outcome(b, md, Ok::<Krates<N, E>, Error>(k)),
        0 <= i < k.krate_count(),
        0 <= j < k.krate_count(),
        dep_enables(b, md, node_id(k.node_seq()[i]), node_id(k.node_seq()[j]), f),
    ensures
        features_of(k.node_seq()[j]).contains(f),
{
}

/// A feature enabled on a crate of the graph built, which the crate declares
/// and cargo resolved on, has its node linked to the crate.
pub proof fn build_links_features_to_crates<N: From<Package>, E: From<Edge>>(
    b: BuilderModel,
    md: Metadata,
    k: Krates<N, E>,
    i: int,
    f: Seq<char>,
)
    requires
        build_outcome(b, md, Ok::<Krates<N, E>, Error>(k)),
        0 <= i < k.krate_count(),
        features_of(k.node_seq()[i]).contains(f),
        declared_resolved(md, node_id(k.node_seq()[i]), f),
    ensures
        exists|e: int|
            0 <= e < k.edge_seq().len() && (#[trigger] k.edge_seq()[e]).target == i && is_feature_of(
                k.node_seq()[k.edge_seq()[e].source as int],
                i as usize,
                f,
            ),
{
}

/// A feature enabled on a crate of the graph built, which the crate declares
/// and cargo resolved on, leads to the node of each feature of the crate
/// that it enables directly.
pub proof fn build_links_plain_features<N: From<Package>, E: From<Edge>>(
    b: BuilderModel,
    md: Metadata,
    k: Krates<N, E>,
    i: int,
    f: Seq<char>,
    g: Seq<char>,
)
    requires
        build_outcome(b, md, Ok::<Krates<N, E>, Error>(k)),
        0 <= i < k.krate_count(),
        features_of(k.node_seq()[i]).contains(f),
        declared_resolved(md, node_id(k.node_seq()[i]), f),
        plain_entry(md, node_id(k.node_seq()[i]), f, g),
    ensures
        feature_leads_to(k.node_seq(), k.edge_seq(), k.krate_count() as int, i, f, g),
{
}

/// A `dep:` entry of a feature enabled on a crate of the graph built, which
/// the crate declares and cargo resolved on, links the feature's node to
/// the crate of the dependency it names, where that is in the graph.
pub proof fn build_links_dep_entries<N: From<Package>, E: From<Edge>>(
    b: BuilderModel,
    md: Metadata,
    k: Krates<N, E>,
    i: int,
    j: int,
    f: Seq<char>,
    s: Seq<char>,
)
    requires
        build_outcome(b, md, Ok::<Krates<N, E>, Error>(k)),
        0 <= i < k.krate_count(),
        0 <= j < k.krate_count(),
        features_of(k.node_seq()[i]).contains(f),
        declared_resolved(md, node_id(k.node_seq()[i]), f),
        dep_entry(md, node_id(k.node_seq()[i]), f, s, node_id(k.node_seq()[j])),
    ensures
        exists|e: int|
            0 <= e < k.edge_seq().len() && (#[trigger] k.edge_seq()[e]).target == j && is_feature_of(
                k.node_seq()[k.edge_seq()[e].source as int],
                i as usize,
                f,
            ),
{
}

/// A `<crate>/<feature>` entry of a feature enabled on a crate of the graph
/// built, which the crate declares and cargo resolved on (or a
/// `<crate>?/<feature>` one whose crate cargo resolved on too, or a `dep:`
/// entry naming a renamed dependency), links the feature's node to a node
/// of the feature (or rename) it names: of the dependency's crate, where
/// that is in the graph, or, where that crate had no node for it yet, of the
/// crate itself.
pub proof fn build_links_feature_entries<N: From<Package>, E: From<Edge>>(
    b: BuilderModel,
    md: Metadata,
    k: Krates<N, E>,
    i: int,
    j: int,
    f: Seq<char>,
    s: Seq<char>,
    z: Seq<char>,
)
    requires
        build_outcome(b, md, Ok::<Krates<N, E>, Error>(k)),
        0 <= i < k.krate_count(),
        0 <= j < k.krate_count(),
        features_of(k.node_seq()[i]).contains(f),
        declared_resolved(md, node_id(k.node_seq()[i]), f),
        feature_entry(md, node_id(k.node_seq()[i]), f, s, node_id(k.node_seq()[j]), z),
    ensures
        exists|e: int|
            0 <= e < k.edge_seq().len() && is_feature_of(
                k.node_seq()[(#[trigger] k.edge_seq()[e]).source as int],
                i as usize,
                f,
            ) && k.krate_count() <= k.edge_seq()[e].target < k.node_seq().len() && (is_feature_of(
                k.node_seq()[k.edge_seq()[e].target as int],
                j as usize,
                z,
            ) || is_feature_of(k.node_seq()[k.edge_seq()[e].target as int], i as usize, z)),
{
}

/// Whether the edge `x` is one that a crate in the workspace (`in_ws`) or
/// outside it may carry: a dependency kind not ignored for its scope, and
/// a target that one of the target filters matches, where any are given.
pub open spec fn kept_weight(b: BuilderModel, in_ws: bool, x: Edge) -> bool {
    match x {
        Edge::Dep { kind, cfg } => !kind_ignored(b.ignore_kinds, kind, in_ws) && (cfg matches Some(c) ==> (
        b.target_filters.len() == 0 || cfg_matched(b.target_filters, c@))),
        Edge::DepFeature { kind, cfg } => !kind_ignored(b.ignore_kinds, kind, in_ws) && (cfg matches Some(c) ==> (
        b.target_filters.len() == 0 || cfg_matched(b.target_filters, c@))),
        Edge::Feature => true,
    }
}

/// An edge from a crate of the graph built carries, where `E`'s
/// `From<Edge>` has a specification, a dependency kind that is not ignored
/// for the crate's scope, and a target that one of the target filters
/// matches, where any are given.
pub proof fn build_edges_carry_kept_links<N: From<Package>, E: From<Edge>>(
    b: BuilderModel,
    md: Metadata,
    k: Krates<N, E>,
    e: int,
)
    requires
        build_outcome(b, md, Ok::<Krates<N, E>, Error>(k)),
        0 <= e < k.edge_seq().len(),
        k.edge_seq()[e].source < k.krate_count(),
        <E as FromSpec<Edge>>::obeys_from_spec(),
    ensures
        exists|x: Edge|
            k.edge_seq()[e].weight == <E as FromSpec<Edge>>::from_spec(x) && #[trigger] kept_weight(
                b,
                in_workspace(md, node_id(k.node_seq()[k.edge_seq()[e].source as int])),
                x,
            ),
{
    let nodes = k.node_seq();
    let edges = k.edge_seq();
    let end = k.krate_count() as int;
    let from = node_id(nodes[edges[e].source as int]);
    let to = node_id(nodes[owner(nodes, edges[e].target as int, end)]);
    assert(weight_fits(edges[e].weight, edges[e].target < end, kept_ok(b, md, from, to)));
    let x = choose|x: Edge|
        #[trigger] weight_is(edges[e].weight, x) && match x {
            Edge::Dep { kind, cfg } => edges[e].target < end && kept_ok(b, md, from, to)(kind, opt_str(cfg)),
            Edge::DepFeature { kind, cfg } => !(edges[e].target < end) && kept_ok(b, md, from, to)(kind, opt_str(cfg)),
            Edge::Feature => !(edges[e].target < end),
        };
    let in_ws = in_workspace(md, from);
    match x {
        Edge::Dep { kind, cfg } => {
            lemma_kept_link_allowed(b, md, from, to, kind, opt_str(cfg));
        },
        Edge::DepFeature { kind, cfg } => {
            lemma_kept_link_allowed(b, md, from, to, kind, opt_str(cfg));
        },
        Edge::Feature => {},
    }
    assert(kept_weight(b, in_ws, x));
}

/// A link that stays has a kind not ignored for its crate's scope and a
/// target that one of the target filters matches, where any are given.
proof fn lemma_kept_link_allowed(
    b: BuilderModel,
    md: Metadata,
    from: Seq<char>,
    to: Seq<char>,
    kind: DepKind,
    cfg: Option<Seq<char>>,
)
    requires
        link_kept_as(b, md, from, to, kind, cfg),
    ensures
        !kind_ignored(b.ignore_kinds, kind, in_workspace(md, from)),
        cfg matches Some(c) ==> (b.target_filters.len() == 0 || cfg_matched(b.target_filters, c)),
{
    let p = item_with_id(md.packages@, from)->0;
    let n = item_with_id(resolve_nodes(md), from)->0;
    let j = choose|j: int|
        0 <= j < n.deps.len() && (#[trigger] n.deps@[j]).pkg@ == to && link_as(
            b,
            in_workspace(md, from),
            p,
            n,
            n.deps@[j],
            kind,
            cfg,
        );
    let rdep = n.deps@[j];
    let q = choose|q: int|
        0 <= q < rdep.dep_kinds.len() && edge_kept(b, in_workspace(md, from), p, n, rdep, #[trigger] rdep.dep_kinds@[q])
            && dep_kind_of(rdep.dep_kinds@[q].kind) == kind && opt_str(rdep.dep_kinds@[q].target) == cfg;
    assert(edge_kept(b, in_workspace(md, from), p, n, rdep, rdep.dep_kinds@[q]));
}

/// No feature is enabled on a crate of the graph built without a reason:
/// cargo resolved it on the crate, a root; a crate of the graph enables it
/// in the crate (see [`dep_enables`]); or an entry of one of the features
/// the crate's package declares names it.
pub proof fn build_enables_only_named_features<N: From<Package>, E: From<Edge>>(
    b: BuilderModel,
    md: Metadata,
    k: Krates<N, E>,
    i: int,
    f: Seq<char>,
)
    requires
        build_outcome(b, md, Ok::<Krates<N, E>, Error>(k)),
        0 <= i < k.krate_count(),
        features_of(k.node_seq()[i]).contains(f),
    ensures
        ({
            let id = node_id(k.node_seq()[i]);
            ||| root_ids(b, md).contains(id) && (item_with_id(resolve_nodes(md), id) matches Some(n) && strs(
                n.features@,
            ).contains(f))
            ||| exists|j: int|
                0 <= j < k.krate_count() && #[trigger] dep_enables(b, md, node_id(k.node_seq()[j]), id, f)
            ||| item_with_id(md.packages@, id) matches Some(p) && entries_give(p.features@, f)
        }),
{
}

/// Building fails for want of root crates exactly when every root crate is
/// excluded.
pub proof fn no_roots_when_all_excluded(b: BuilderModel, md: Metadata)
    ensures
        (forall|id: Seq<char>| !#[trigger] reached(b, md, id)) <==> (forall|id: Seq<char>|
            #[trigger] root_ids(b, md).contains(id) ==> !included(b, md, id)),
{
    if forall|id: Seq<char>| !#[trigger] reached(b, md, id) {
        assert forall|id: Seq<char>| #[trigger] root_ids(b, md).contains(id) implies !included(b, md, id) by {
            if included(b, md, id) {
                let path = seq![id];
                assert(is_path(b, md, path));
                assert(path.last() == id);
                assert(reached(b, md, id));
            }
        }
    }
    if forall|id: Seq<char>| #[trigger] root_ids(b, md).contains(id) ==> !included(b, md, id) {
        assert forall|id: Seq<char>| !#[trigger] reached(b, md, id) by {
            if reached(b, md, id) {
                let path = choose|path: Seq<Seq<char>>| is_path(b, md, path) && path.last() == id;
                assert(root_ids(b, md).contains(path[0]));
                assert(included(b, md, path[0]));
            }
        }
    }
}

/// A link whose kind is ignored for the crate's scope never stays.
pub proof fn ignored_links_dropped(
    b: BuilderModel,
    in_ws: bool,
    p: Package,
    n: ResolveNode,
    rdep: NodeDep,
    dk: DepKindInfo,
)
    requires
        kind_ignored(b.ignore_kinds, dep_kind_of(dk.kind), in_ws),
    ensures
        !edge_kept(b, in_ws, p, n, rdep, dk),
{
}

/// Without target filters, a target-specific link stays or goes as a link
/// for every target would.
pub proof fn no_targets_keep_every_platform(
    b: BuilderModel,
    in_ws: bool,
    p: Package,
    n: ResolveNode,
    rdep: NodeDep,
    dk: DepKindInfo,
)
    requires
        b.target_filters.len() == 0,
    ensures
        edge_kept(b, in_ws, p, n, rdep, dk) == edge_kept(
            b,
            in_ws,
            p,
            n,
            rdep,
            DepKindInfo { kind: dk.kind, target: None },
        ),
{
}

/// A single workspace filter naming the workspace's own manifest grows the
/// graph from the same roots as no filter at all, where the metadata names
/// no root crate or the whole workspace is asked for.
pub proof fn workspace_manifest_filter_is_no_filter(b: BuilderModel, md: Metadata)
    requires
        filters_name_workspace(b, md),
        b.workspace || md.resolve->0.root is None,
    ensures
        root_ids(b, md) == root_ids(BuilderModel { workspace_filters: Seq::empty(), ..b }, md),
{
}

} // verus!

verus! {

/// Whether the ids of the items are all different.
pub fn ids_distinct<T: Identified>(v: &Vec<T>) -> (r: bool)
    ensures
        r == id_seq(v@).no_duplicates(),
{
    let mut i: usize = 0;
    while i < v.len()
        invariant
            i <= v@.len(),
            forall|a: int, c: int| 0 <= a < i && 0 <= c < v@.len() && a != c ==> id_seq(v@)[a] != id_seq(v@)[c],
        decreases v.len() - i,
    {
        let mut j: usize = 0;
        while j < v.len()
            invariant
                i < v@.len(),
                j <= v@.len(),
                forall|a: int, c: int| 0 <= a < i && 0 <= c < v@.len() && a != c ==> id_seq(v@)[a] != id_seq(v@)[c],
                forall|c: int| 0 <= c < j && c != i ==> id_seq(v@)[i as int] != id_seq(v@)[c],
            decreases v.len() - j,
        {
            if i != j && v[i].id_ref().same(v[j].id_ref()) {
                assert(id_seq(v@)[i as int] == id_seq(v@)[j as int]);
                return false;
            }
            j += 1;
        }
        i += 1;
    }
    true
}

/// Whether one of the items has the id.
pub fn ids_contain<T: Identified>(v: &Vec<T>, id: &PackageId) -> (r: bool)
    ensures
        r == id_seq(v@).contains(id@),
{
    let mut i: usize = 0;
    while i < v.len()
        invariant
            i <= v@.len(),
            forall|c: int| 0 <= c < i ==> id_seq(v@)[c] != id@,
        decreases v.len() - i,
    {
        if v[i].id_ref().same(id) {
            assert(id_seq(v@)[i as int] == id@);
            return true;
        }
        i += 1;
    }
    false
}


} // verus!

verus! {

/// Whether the two ids decompose into the same parts (see [`decompose`]):
/// a git package's id with a `?branch=` specifier, and the id its resolved
/// node carries without it.
pub open spec fn same_parts(a: Seq<char>, b: Seq<char>) -> bool {
    has_three_parts(a) && has_three_parts(b) && decompose(a) == decompose(b)
}

/// The package at `i` is the first whose id decomposes as `id` does.
pub open spec fn first_same_parts(packages: Seq<Package>, id: Seq<char>, i: int) -> bool {
    &&& 0 <= i < packages.len()
    &&& same_parts(packages[i].id@, id)
    &&& forall|j: int| 0 <= j < i ==> !same_parts((#[trigger] packages[j]).id@, id)
}

/// The package id a resolved id stands for: the id itself where a package
/// has it; otherwise the id of the first package whose id decomposes into
/// the same parts; the id itself where there is none.
pub open spec fn canonical(packages: Seq<Package>, id: Seq<char>) -> Seq<char> {
    if id_seq(packages).contains(id) {
        id
    } else if exists|i: int| first_same_parts(packages, id, i) {
        packages[choose|i: int| first_same_parts(packages, id, i)].id@
    } else {
        id
    }
}

/// The package ids the resolved nodes stand for, in order.
pub open spec fn canonical_node_ids(packages: Seq<Package>, nodes: Seq<ResolveNode>) -> Seq<Seq<char>> {
    nodes.map_values(|n: ResolveNode| canonical(packages, n.id@))
}

/// The metadata is what `cargo metadata` gives, where each resolved node
/// is paired with the package whose id it has or, for a git package whose
/// id holds a `?branch=` specifier, decomposes into the same parts: each
/// package once, the nodes paired with different packages, every node
/// paired with a package, the workspace members (each once) and the
/// resolve root packages of nodes, and every resolved dependency a node.
pub open spec fn metadata_consistent(md: Metadata) -> bool {
    let nodes = resolve_nodes(md);
    let ids = canonical_node_ids(md.packages@, nodes);
    md.resolve is Some ==> {
        &&& id_seq(md.packages@).no_duplicates()
        &&& ids.no_duplicates()
        &&& id_seq(md.workspace_members@).no_duplicates()
        &&& forall|i: int| 0 <= i < ids.len() ==> id_seq(md.packages@).contains(#[trigger] ids[i])
        &&& forall|i: int| 0 <= i < md.workspace_members.len() ==> ids.contains(#[trigger] md.workspace_members@[i]@)
        &&& (md.resolve->0.root matches Some(root) ==> ids.contains(root@))
        &&& forall|i: int, j: int|
            0 <= i < nodes.len() && 0 <= j < nodes[i].deps.len() ==> id_seq(nodes).contains(
                (#[trigger] nodes[i].deps@[j]).pkg@,
            )
    }
}

/// The resolved node `n2` is `n` with each id replaced by the package id
/// it stands for (see [`canonical`]).
pub open spec fn node_aligned(packages: Seq<Package>, n: ResolveNode, n2: ResolveNode) -> bool {
    &&& n2.id@ == canonical(packages, n.id@)
    &&& n2.features == n.features
    &&& n2.deps@.len() == n.deps@.len()
    &&& forall|j: int|
        0 <= j < n.deps@.len() ==> {
            &&& (#[trigger] n2.deps@[j]).name == n.deps@[j].name
            &&& n2.deps@[j].pkg@ == canonical(packages, n.deps@[j].pkg@)
            &&& n2.deps@[j].dep_kinds == n.deps@[j].dep_kinds
        }
    &&& n2.dependencies@.len() == n.dependencies@.len()
    &&& forall|j: int|
        0 <= j < n.dependencies@.len() ==> (#[trigger] n2.dependencies@[j])@ == canonical(
            packages,
            n.dependencies@[j]@,
        )
}

/// The metadata `md2` is `md` with each resolved id replaced by the package
/// id it stands for.
pub open spec fn aligned(md: Metadata, md2: Metadata) -> bool {
    &&& md2.packages == md.packages
    &&& md2.workspace_members == md.workspace_members
    &&& md2.workspace_default_members == md.workspace_default_members
    &&& md2.workspace_root == md.workspace_root
    &&& md2.target_directory == md.target_directory
    &&& md2.workspace_metadata == md.workspace_metadata
    &&& md2.version == md.version
    &&& (md2.resolve is Some <==> md.resolve is Some)
    &&& md.resolve is Some ==> {
        let r = md.resolve->0;
        let r2 = md2.resolve->0;
        &&& r2.root == r.root
        &&& r2.nodes@.len() == r.nodes@.len()
        &&& forall|i: int| 0 <= i < r.nodes@.len() ==> node_aligned(md.packages@, r.nodes@[i], #[trigger] r2.nodes@[i])
    }
}

/// Consistent metadata, aligned, has each node with its package's id.
pub proof fn lemma_aligned_exact(md: Metadata, md2: Metadata)
    requires
        metadata_consistent(md),
        aligned(md, md2),
    ensures
        metadata_exact(md2),
        md2.resolve is Some ==> exclusions_match(md, md2),
{
    if md.resolve is Some {
        let nodes = resolve_nodes(md);
        let nodes2 = resolve_nodes(md2);
        let ids = canonical_node_ids(md.packages@, nodes);
        assert(id_seq(nodes2) =~= ids) by {
            assert forall|i: int| 0 <= i < nodes2.len() implies id_seq(nodes2)[i] == ids[i] by {
                assert(node_aligned(md.packages@, nodes[i], nodes2[i]));
            }
        }
        assert forall|i: int| 0 <= i < nodes2.len() implies id_seq(md2.packages@).contains(#[trigger] nodes2[i].id@) by {
            assert(id_seq(nodes2)[i] == ids[i]);
        }
        assert forall|i: int, j: int|
            0 <= i < nodes2.len() && 0 <= j < nodes2[i].deps.len() implies id_seq(nodes2).contains(
            (#[trigger] nodes2[i].deps@[j]).pkg@,
        ) by {
            assert(node_aligned(md.packages@, nodes[i], nodes2[i]));
            let pk = nodes[i].deps@[j].pkg@;
            assert(id_seq(nodes).contains(pk));
            let k = choose|k: int| 0 <= k < id_seq(nodes).len() && id_seq(nodes)[k] == pk;
            assert(nodes[k].id@ == pk);
            assert(ids[k] == canonical(md.packages@, pk));
            assert(id_seq(nodes2)[k] == ids[k]);
        }
    }
}

/// The exclusions are matched against the same packages.
pub open spec fn exclusions_match(md: Metadata, md2: Metadata) -> bool {
    md2.packages == md.packages
}

/// The package id the resolved id stands for (see [`canonical`]).
pub fn canonical_id(packages: &Vec<Package>, id: &PackageId) -> (r: PackageId)
    ensures
        r@ == canonical(packages@, id@),
{
    if ids_contain(packages, id) {
        return id.duplicate();
    }
    if !three_parts(id) {
        proof {
            assert forall|i: int| !first_same_parts(packages@, id@, i) by {}
        }
        return id.duplicate();
    }
    let mine = DecomposedRepr::build(id);
    let mut i: usize = 0;
    while i < packages.len()
        invariant
            i <= packages@.len(),
            has_three_parts(id@),
            !id_seq(packages@).contains(id@),
            mine@ == decompose(id@),
            forall|j: int| 0 <= j < i ==> !same_parts((#[trigger] packages@[j]).id@, id@),
        decreases packages.len() - i,
    {
        if three_parts(&packages[i].id) {
            let theirs = DecomposedRepr::build(&packages[i].id);
            if same_decomposition(&theirs, &mine) {
                proof {
                    assert(first_same_parts(packages@, id@, i as int));
                    assert forall|k: int| #[trigger] first_same_parts(packages@, id@, k) implies k == i by {
                        if k < i {
                        } else if k > i {
                            assert(same_parts(packages@[i as int].id@, id@));
                        }
                    }
                    let k = choose|k: int| first_same_parts(packages@, id@, k);
                    assert(k == i);
                    assert(!id_seq(packages@).contains(id@));
                }
                return packages[i].id.duplicate();
            }
        }
        i += 1;
    }
    proof {
        assert forall|k: int| !first_same_parts(packages@, id@, k) by {}
    }
    id.duplicate()
}

/// Whether the id has a name, a version and a source (see
/// [`has_three_parts`]).
pub fn three_parts(id: &PackageId) -> (r: bool)
    ensures
        r == has_three_parts(id@),
{
    proof {
        reveal_strlit(" ");
    }
    let v = chars_of(id.repr.as_str());
    let pat = pattern(" ");
    assert(pat@.len() == 1);
    match find_chars(&v, &pat) {
        Some(i) => {
            assert(crate::text::occurs_at(v@, pat@, i as int));
            assert(i < v.len());
            let rest = crate::text::slice(&v, i + 1, v.len());
            assert(rest@ =~= v@.skip(i + 1));
            find_chars(&rest, &pat).is_some()
        },
        None => false,
    }
}

/// Whether the two decompositions are the same.
pub fn same_decomposition(a: &DecomposedRepr, b: &DecomposedRepr) -> (r: bool)
    ensures
        r == (a@ == b@),
{
    if !str_eq(a.name.as_str(), b.name.as_str()) || !str_eq(a.version.as_str(), b.version.as_str()) {
        return false;
    }
    match (&a.rev, &b.rev) {
        (Some(x), Some(y)) => str_eq(x.as_str(), y.as_str()),
        (None, None) => true,
        _ => false,
    }
}

/// The metadata with each resolved id replaced by the package id it
/// stands for (see [`aligned`]).
pub fn align_ids(md: Metadata) -> (r: Metadata)
    ensures
        aligned(md, r),
{
    let ghost old_md = md;
    let Metadata {
        packages,
        workspace_members,
        workspace_default_members,
        resolve,
        workspace_root,
        target_directory,
        workspace_metadata,
        version,
    } = md;
    let resolve = match resolve {
        None => None,
        Some(r) => {
            let Resolve { nodes, root } = r;
            let ghost orig = nodes@;
            let n = nodes.len();
            let mut rest = nodes;
            let mut rev: Vec<ResolveNode> = Vec::new();
            while rest.len() > 0
                invariant
                    rest@.len() + rev@.len() == n,
                    n == orig.len(),
                    forall|k: int| 0 <= k < rest@.len() ==> #[trigger] rest@[k] == orig[k],
                    forall|k: int| 0 <= k < rev@.len() ==> #[trigger] rev@[k] == orig[n - 1 - k],
                decreases rest.len(),
            {
                let x = rest.pop().unwrap();
                rev.push(x);
            }
            let mut out: Vec<ResolveNode> = Vec::new();
            while rev.len() > 0
                invariant
                    rev@.len() + out@.len() == n,
                    n == orig.len(),
                    forall|k: int| 0 <= k < rev@.len() ==> #[trigger] rev@[k] == orig[n - 1 - k],
                    forall|k: int| 0 <= k < out@.len() ==> node_aligned(packages@, orig[k], #[trigger] out@[k]),
                decreases rev.len(),
            {
                let node = rev.pop().unwrap();
                let aligned_node = align_node(&packages, node);
                out.push(aligned_node);
            }
            Some(Resolve { nodes: out, root })
        },
    };
    Metadata {
        packages,
        workspace_members,
        workspace_default_members,
        resolve,
        workspace_root,
        target_directory,
        workspace_metadata,
        version,
    }
}

/// The resolved node with each id replaced by the package id it stands
/// for.
fn align_node(packages: &Vec<Package>, node: ResolveNode) -> (r: ResolveNode)
    ensures
        node_aligned(packages@, node, r),
{
    let ghost old_node = node;
    let ResolveNode { id, deps, dependencies, features } = node;
    let id = canonical_id(packages, &id);
    let ghost od = deps@;
    let n = deps.len();
    let mut rest = deps;
    let mut rev: Vec<NodeDep> = Vec::new();
    while rest.len() > 0
        invariant
            rest@.len() + rev@.len() == n,
            n == od.len(),
            forall|k: int| 0 <= k < rest@.len() ==> #[trigger] rest@[k] == od[k],
            forall|k: int| 0 <= k < rev@.len() ==> #[trigger] rev@[k] == od[n - 1 - k],
        decreases rest.len(),
    {
        let x = rest.pop().unwrap();
        rev.push(x);
    }
    let mut new_deps: Vec<NodeDep> = Vec::new();
    while rev.len() > 0
        invariant
            rev@.len() + new_deps@.len() == n,
            n == od.len(),
            forall|k: int| 0 <= k < rev@.len() ==> #[trigger] rev@[k] == od[n - 1 - k],
            forall|k: int|
                0 <= k < new_deps@.len() ==> {
                    &&& (#[trigger] new_deps@[k]).name == od[k].name
                    &&& new_deps@[k].pkg@ == canonical(packages@, od[k].pkg@)
                    &&& new_deps@[k].dep_kinds == od[k].dep_kinds
                },
        decreases rev.len(),
    {
        let d = rev.pop().unwrap();
        let NodeDep { name, pkg, dep_kinds } = d;
        let pkg = canonical_id(packages, &pkg);
        new_deps.push(NodeDep { name, pkg, dep_kinds });
    }
    let mut new_dependencies: Vec<PackageId> = Vec::new();
    let mut j: usize = 0;
    while j < dependencies.len()
        invariant
            j <= dependencies@.len(),
            new_dependencies@.len() == j,
            forall|k: int|
                0 <= k < j ==> (#[trigger] new_dependencies@[k])@ == canonical(packages@, dependencies@[k]@),
        decreases dependencies.len() - j,
    {
        let c = canonical_id(packages, &dependencies[j]);
        new_dependencies.push(c);
        j += 1;
    }
    ResolveNode { id, deps: new_deps, dependencies: new_dependencies, features }
}

/// Whether the metadata is what `cargo metadata` gives (see
/// [`metadata_consistent`]), which building a graph out of it needs.
pub fn metadata_is_consistent(md: &Metadata) -> (r: bool)
    ensures
        r == metadata_consistent(*md),
{
    let resolve = match &md.resolve {
        Some(r) => r,
        None => return true,
    };
    let nodes = &resolve.nodes;
    assert(nodes@ == resolve_nodes(*md));
    let ghost ids = canonical_node_ids(md.packages@, nodes@);
    let mut canon: Vec<PackageId> = Vec::new();
    let mut i: usize = 0;
    while i < nodes.len()
        invariant
            i <= nodes@.len(),
            canon@.len() == i,
            forall|k: int| 0 <= k < i ==> (#[trigger] canon@[k])@ == canonical(md.packages@, nodes@[k].id@),
        decreases nodes.len() - i,
    {
        let c = canonical_id(&md.packages, &nodes[i].id);
        canon.push(c);
        i += 1;
    }
    proof {
        assert(id_seq(canon@) =~= ids);
    }
    if !ids_distinct(&md.packages) || !ids_distinct(&canon) || !ids_distinct(&md.workspace_members) {
        return false;
    }
    let mut i: usize = 0;
    while i < canon.len()
        invariant
            i <= canon@.len(),
            id_seq(canon@) == ids,
            md.resolve is Some,
            ids == canonical_node_ids(md.packages@, resolve_nodes(*md)),
            forall|q: int| 0 <= q < i ==> id_seq(md.packages@).contains(#[trigger] ids[q]),
        decreases canon.len() - i,
    {
        if !ids_contain(&md.packages, &canon[i]) {
            assert(id_seq(canon@)[i as int] == canon@[i as int]@);
            assert(!id_seq(md.packages@).contains(ids[i as int]));
            return false;
        }
        assert(id_seq(canon@)[i as int] == canon@[i as int]@);
        i += 1;
    }
    let mut i: usize = 0;
    while i < md.workspace_members.len()
        invariant
            i <= md.workspace_members@.len(),
            id_seq(canon@) == ids,
            md.resolve is Some,
            ids == canonical_node_ids(md.packages@, resolve_nodes(*md)),
            forall|q: int| 0 <= q < i ==> ids.contains(#[trigger] md.workspace_members@[q]@),
        decreases md.workspace_members.len() - i,
    {
        if !ids_contain(&canon, &md.workspace_members[i]) {
            assert(!ids.contains(md.workspace_members@[i as int]@));
            return false;
        }
        i += 1;
    }
    if let Some(root) = &resolve.root {
        if !ids_contain(&canon, root) {
            return false;
        }
    }
    let mut i: usize = 0;
    while i < nodes.len()
        invariant
            i <= nodes@.len(),
            nodes@ == resolve_nodes(*md),
            forall|a: int, c: int|
                0 <= a < i && 0 <= c < nodes@[a].deps.len() ==> id_seq(nodes@).contains(
                    (#[trigger] nodes@[a].deps@[c]).pkg@,
                ),
        decreases nodes.len() - i,
    {
        let deps = &nodes[i].deps;
        let mut j: usize = 0;
        while j < deps.len()
            invariant
                i < nodes@.len(),
                j <= deps@.len(),
                nodes@ == resolve_nodes(*md),
                deps == nodes@[i as int].deps,
                forall|a: int, c: int|
                    0 <= a < i && 0 <= c < nodes@[a].deps.len() ==> id_seq(nodes@).contains(
                        (#[trigger] nodes@[a].deps@[c]).pkg@,
                    ),
                forall|c: int| 0 <= c < j ==> id_seq(nodes@).contains((#[trigger] deps@[c]).pkg@),
            decreases deps.len() - j,
        {
            if !ids_contain(nodes, &deps[j].pkg) {
                assert(deps@[j as int] == resolve_nodes(*md)[i as int].deps@[j as int]);
                return false;
            }
            j += 1;
        }
        i += 1;
    }
    true
}

} // verus!
