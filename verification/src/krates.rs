//! The crate graph: crates and their features are nodes, dependency links
//! and feature links are edges.
use vstd::prelude::*;
use crate::cm::{DependencyKind, Package, PackageId};
use crate::graph::{Graph, NodeId, EdgeRecord, Direction, edges_of};
use crate::set::StringSet;
use crate::text::{concat, seq_lt, str_eq, Order, lemma_lt_transitive};
use crate::version::{Version, VersionModel, VersionReq, semver_req_matches};

verus! {

/// A crate's unique identifier.
pub type Kid = PackageId;

/// The set of features that have been enabled on a crate.
pub type EnabledFeatures = StringSet;

/// The dependency kind. A crate can depend on the same crate multiple times
/// with different dependency kinds.
#[derive(Debug, Copy, Clone, PartialEq, Eq, Structural)]
pub enum DepKind {
    Normal,
    Build,
    Dev,
}

/// The dependency kind of the graph for a dependency kind of cargo.
pub open spec fn dep_kind_of(dk: DependencyKind) -> DepKind {
    match dk {
        DependencyKind::Normal => DepKind::Normal,
        DependencyKind::Build => DepKind::Build,
        DependencyKind::Development => DepKind::Dev,
    }
}

/// The text a dependency kind is shown with: nothing for normal dependencies.
pub open spec fn dep_kind_text(k: DepKind) -> Seq<char> {
    match k {
        DepKind::Normal => Seq::empty(),
        DepKind::Build => "build"@,
        DepKind::Dev => "dev"@,
    }
}

impl DepKind {
    /// The dependency kind for a dependency kind of cargo.
    pub fn from_dependency_kind(dk: DependencyKind) -> (r: DepKind)
        ensures
            r == dep_kind_of(dk),
    {
        match dk {
            DependencyKind::Normal => DepKind::Normal,
            DependencyKind::Build => DepKind::Build,
            DependencyKind::Development => DepKind::Dev,
        }
    }

    /// Whether this kind is the graph's kind for the cargo kind `other`.
    pub fn matches_kind(&self, other: DependencyKind) -> (r: bool)
        ensures
            r == (dep_kind_of(other) == *self),
    {
        match (self, other) {
            (DepKind::Normal, DependencyKind::Normal) => true,
            (DepKind::Build, DependencyKind::Build) => true,
            (DepKind::Dev, DependencyKind::Development) => true,
            _ => false,
        }
    }

    /// The text the kind is shown with: empty, `build` or `dev`.
    pub fn as_str(&self) -> (r: &'static str)
        ensures
            r@ == dep_kind_text(*self),
    {
        proof {
            reveal_strlit("");
        }
        match self {
            DepKind::Normal => "",
            DepKind::Build => "build",
            DepKind::Dev => "dev",
        }
    }
}

impl From<DependencyKind> for DepKind {
    fn from(dk: DependencyKind) -> (r: DepKind) {
        DepKind::from_dependency_kind(dk)
    }
}

impl vstd::std_specs::convert::FromSpecImpl<DependencyKind> for DepKind {
    open spec fn obeys_from_spec() -> bool {
        true
    }

    open spec fn from_spec(v: DependencyKind) -> DepKind {
        dep_kind_of(v)
    }
}

/// A node in the crate graph.
#[derive(Debug)]
pub enum Node<N> {
    Krate {
        /// The unique identifier for this node.
        id: Kid,
        /// Associated user data with the node.
        krate: N,
        /// List of features enabled on the crate
        features: EnabledFeatures,
    },
    Feature {
        /// The node index for the crate this feature is for
        krate_index: NodeId,
        name: String,
    },
}

/// The default type used for edges in the crate graph.
#[derive(Debug, Clone)]
pub enum Edge {
    Dep {
        /// The dependency kind for the edge link
        kind: DepKind,
        /// A possible cfg() or <target-triple> applied to this dependency
        cfg: Option<String>,
    },
    /// An edge from one feature to another
    Feature,
    DepFeature {
        /// The dependency kind for the edge link
        kind: DepKind,
        /// A possible cfg() or <target-triple> applied to this dependency
        cfg: Option<String>,
    },
}

/// ` '<cfg>'` where there is a cfg, nothing otherwise.
pub open spec fn cfg_text(cfg: Option<String>) -> Seq<char> {
    match cfg {
        Some(c) => " '"@ + c@ + "'"@,
        None => Seq::empty(),
    }
}

/// The text an edge is shown with.
pub open spec fn edge_text(e: Edge) -> Seq<char> {
    match e {
        Edge::Dep { kind, cfg } => (match kind {
            DepKind::Normal => Seq::empty(),
            DepKind::Build => "(build)"@,
            DepKind::Dev => "(dev)"@,
        }) + cfg_text(cfg),
        Edge::Feature => "feature"@,
        Edge::DepFeature { kind, cfg } => "feature"@ + (match kind {
            DepKind::Normal => Seq::empty(),
            DepKind::Build => " (build)"@,
            DepKind::Dev => " (dev)"@,
        }) + cfg_text(cfg),
    }
}

fn cfg_suffix(cfg: &Option<String>) -> (r: String)
    ensures
        r@ == cfg_text(*cfg),
{
    proof {
        reveal_strlit("");
    }
    match cfg {
        Some(c) => {
            let a = concat(" '", c.as_str());
            concat(a.as_str(), "'")
        },
        None => concat("", ""),
    }
}

impl Edge {
    /// The text the edge is shown with, as in a dot graph.
    pub fn describe(&self) -> (r: String)
        ensures
            r@ == edge_text(*self),
    {
        proof {
            reveal_strlit("");
        }
        match self {
            Edge::Dep { kind, cfg } => {
                let k = match kind {
                    DepKind::Normal => "",
                    DepKind::Build => "(build)",
                    DepKind::Dev => "(dev)",
                };
                let c = cfg_suffix(cfg);
                concat(k, c.as_str())
            },
            Edge::Feature => concat("feature", ""),
            Edge::DepFeature { kind, cfg } => {
                let k = match kind {
                    DepKind::Normal => "",
                    DepKind::Build => " (build)",
                    DepKind::Dev => " (dev)",
                };
                let a = concat("feature", k);
                let c = cfg_suffix(cfg);
                concat(a.as_str(), c.as_str())
            },
        }
    }
}

/// The id of a node: the crate's id for a crate node, nothing for a feature.
pub open spec fn node_id<N>(n: Node<N>) -> Seq<char> {
    match n {
        Node::Krate { id, .. } => id@,
        Node::Feature { .. } => Seq::empty(),
    }
}

/// The crate data of a crate node.
pub open spec fn krate_of<N>(n: Node<N>) -> N {
    match n {
        Node::Krate { krate, .. } => krate,
        Node::Feature { .. } => arbitrary(),
    }
}

/// A crate graph is well formed: the first `end` nodes are the crates, in
/// strictly ascending order of their ids; every later node is a feature of
/// one of those crates; every edge joins two nodes of the graph.
pub open spec fn krates_wf<N, E>(nodes: Seq<Node<N>>, edges: Seq<EdgeRecord<E>>, end: int) -> bool {
    &&& 0 <= end <= nodes.len()
    &&& forall|i: int| 0 <= i < end ==> #[trigger] nodes[i] is Krate
    &&& forall|i: int|
        end <= i < nodes.len() ==> #[trigger] nodes[i] is Feature && nodes[i]->krate_index < end
    &&& forall|i: int, j: int|
        0 <= i < j < end ==> seq_lt(node_id(#[trigger] nodes[i]), node_id(#[trigger] nodes[j]))
    &&& forall|e: int|
        0 <= e < edges.len() ==> (#[trigger] edges[e]).source < nodes.len() && edges[e].target
            < nodes.len()
}

/// A crate graph. Each unique crate is a node, and each unique dependency
/// between 2 crates is an edge.
pub struct Krates<N = Package, E = Edge> {
    pub(crate) graph: Graph<Node<N>, E>,
    pub(crate) workspace_members: Vec<Kid>,
    pub(crate) lock_file: String,
    pub(crate) krates_end: usize,
}

/// A trait that can be applied to the type stored in the graph nodes to give
/// additional features on `Krates`.
pub trait KrateDetails {
    /// The name of the crate, as a value.
    spec fn krate_name(&self) -> Seq<char>;

    /// The version of the crate, as a value.
    spec fn krate_version(&self) -> VersionModel;

    /// The name of the crate
    fn name(&self) -> (r: &str)
        ensures
            r@ == self.krate_name(),
    ;

    /// The version of the crate
    fn version(&self) -> (r: &Version)
        ensures
            r@ == self.krate_version(),
    ;
}

impl KrateDetails for Package {
    open spec fn krate_name(&self) -> Seq<char> {
        self.name@
    }

    open spec fn krate_version(&self) -> VersionModel {
        self.version@
    }

    fn name(&self) -> (r: &str) {
        self.name.as_str()
    }

    fn version(&self) -> (r: &Version) {
        &self.version
    }
}

impl<N, E> Krates<N, E> {
    /// The nodes of the graph, by position.
    pub closed spec fn node_seq(&self) -> Seq<Node<N>> {
        self.graph.node_seq()
    }

    /// The edges of the graph, by position.
    pub closed spec fn edge_seq(&self) -> Seq<EdgeRecord<E>> {
        self.graph.edge_seq()
    }

    /// The number of crate nodes, which come first.
    pub closed spec fn krate_count(&self) -> nat {
        self.krates_end as nat
    }

    /// The members of the workspace.
    pub closed spec fn member_seq(&self) -> Seq<Kid> {
        self.workspace_members@
    }

    /// The path of the lock file.
    pub closed spec fn lock_file_path(&self) -> Seq<char> {
        self.lock_file@
    }

    /// The graph is well formed (see [`krates_wf`]).
    pub open spec fn wf(&self) -> bool {
        krates_wf(self.node_seq(), self.edge_seq(), self.krate_count() as int)
    }

    /// A crate graph made of its parts: the graph, whose first `krates_end`
    /// nodes are the crates, the workspace members and the lock file's path.
    pub(crate) fn from_parts(
        graph: Graph<Node<N>, E>,
        workspace_members: Vec<Kid>,
        lock_file: String,
        krates_end: usize,
    ) -> (r: Krates<N, E>)
        ensures
            r.node_seq() == graph.node_seq(),
            r.edge_seq() == graph.edge_seq(),
            r.krate_count() == krates_end,
            r.member_seq() == workspace_members@,
            r.lock_file_path() == lock_file@,
    {
        Krates { graph, workspace_members, lock_file, krates_end }
    }

    /// The number of unique crates in the graph
    pub fn len(&self) -> (r: usize)
        ensures
            r == self.krate_count(),
    {
        self.krates_end
    }

    /// Path to the Cargo.lock file for the crate or workspace where the graph
    /// metadata was acquired from
    pub fn lock_path(&self) -> (r: &str)
        ensures
            r@ == self.lock_file_path(),
    {
        self.lock_file.as_str()
    }

    /// Get access to the graph
    pub fn graph(&self) -> (r: &Graph<Node<N>, E>)
        ensures
            r.node_seq() == self.node_seq(),
            r.edge_seq() == self.edge_seq(),
    {
        &self.graph
    }

    /// The crates of the graph, ordered by their identifiers.
    pub fn krates(&self) -> (r: Vec<&N>)
        requires
            self.wf(),
        ensures
            r@.len() == self.krate_count(),
            forall|i: int|
                0 <= i < r@.len() ==> *r@[i] == krate_of(#[trigger] self.node_seq()[i]),
    {
        let nodes = self.graph.raw_nodes();
        let mut r: Vec<&N> = Vec::new();
        let mut i: usize = 0;
        while i < self.krates_end
            invariant
                self.wf(),
                nodes@ == self.node_seq(),
                i <= self.krates_end,
                r@.len() == i,
                forall|j: int|
                    0 <= j < i ==> *r@[j] == krate_of(#[trigger] self.node_seq()[j]),
            decreases self.krates_end - i,
        {
            match &nodes[i] {
                Node::Krate { krate, .. } => {
                    r.push(krate);
                },
                Node::Feature { .. } => {
                    assert(false);
                },
            }
            i += 1;
        }
        r
    }

    /// Get the node identifier for the specified crate identifier
    pub fn nid_for_kid(&self, kid: &Kid) -> (r: Option<NodeId>)
        requires
            self.wf(),
        ensures
            match r {
                Some(i) => i < self.krate_count() && node_id(self.node_seq()[i as int]) == kid@,
                None => forall|i: int|
                    0 <= i < self.krate_count() ==> node_id(#[trigger] self.node_seq()[i])
                        != kid@,
            },
    {
        let nodes = self.graph.raw_nodes();
        let mut lo: usize = 0;
        let mut hi: usize = self.krates_end;
        while lo < hi
            invariant
                self.wf(),
                nodes@ == self.node_seq(),
                lo <= hi <= self.krates_end,
                forall|i: int| 0 <= i < lo ==> seq_lt(node_id(#[trigger] self.node_seq()[i]), kid@),
                forall|i: int|
                    hi <= i < self.krates_end ==> seq_lt(kid@, node_id(#[trigger] self.node_seq()[i])),
            decreases hi - lo,
        {
            let mid = lo + (hi - lo) / 2;
            let ord = match &nodes[mid] {
                Node::Krate { id, .. } => id.compare(kid),
                Node::Feature { .. } => {
                    assert(false);
                    Order::Equal
                },
            };
            let ghost mid_id = node_id(self.node_seq()[mid as int]);
            match ord {
                Order::Equal => {
                    return Some(mid);
                },
                Order::Less => {
                    proof {
                        assert forall|i: int| 0 <= i < mid + 1 implies seq_lt(
                            node_id(#[trigger] self.node_seq()[i]),
                            kid@,
                        ) by {
                            if i < mid {
                                lemma_lt_transitive(
                                    node_id(self.node_seq()[i]),
                                    mid_id,
                                    kid@,
                                );
                            }
                        }
                    }
                    lo = mid + 1;
                },
                Order::Greater => {
                    proof {
                        assert forall|i: int| mid <= i < self.krates_end implies seq_lt(
                            kid@,
                            node_id(#[trigger] self.node_seq()[i]),
                        ) by {
                            if i > mid {
                                lemma_lt_transitive(kid@, mid_id, node_id(self.node_seq()[i]));
                            }
                        }
                    }
                    hi = mid;
                },
            }
        }
        proof {
            assert forall|i: int| 0 <= i < self.krate_count() implies node_id(
                #[trigger] self.node_seq()[i],
            ) != kid@ by {
                crate::text::lemma_lt_irreflexive(kid@);
            }
        }
        None
    }
}

} // verus!

verus! {

/// The position of the crate with id `id` among the first `end` nodes, if any.
pub open spec fn krate_position<N>(nodes: Seq<Node<N>>, end: int, id: Seq<char>) -> Option<int> {
    if exists|i: int| 0 <= i < end && node_id(#[trigger] nodes[i]) == id {
        Some(choose|i: int| 0 <= i < end && node_id(#[trigger] nodes[i]) == id)
    } else {
        None
    }
}

proof fn lemma_krate_position<N, E>(nodes: Seq<Node<N>>, edges: Seq<EdgeRecord<E>>, end: int, i: int)
    requires
        krates_wf(nodes, edges, end),
        0 <= i < end,
    ensures
        krate_position(nodes, end, node_id(nodes[i])) == Some(i),
{
    let id = node_id(nodes[i]);
    assert(0 <= i < end && node_id(nodes[i]) == id);
    let j = choose|j: int| 0 <= j < end && node_id(#[trigger] nodes[j]) == id;
    crate::text::lemma_lt_irreflexive(id);
    if j < i {
        assert(seq_lt(node_id(nodes[j]), node_id(nodes[i])));
    } else if j > i {
        assert(seq_lt(node_id(nodes[i]), node_id(nodes[j])));
    }
}

/// The positions of the crate nodes of the workspace members
/// `members[..upto]`, skipping members that are not in the graph.
pub open spec fn member_positions<N>(nodes: Seq<Node<N>>, end: int, members: Seq<Kid>, upto: int) -> Seq<
    int,
>
    decreases upto,
{
    if upto <= 0 {
        Seq::empty()
    } else {
        member_positions(nodes, end, members, upto - 1) + match krate_position(
            nodes,
            end,
            members[upto - 1]@,
        ) {
            Some(i) => seq![i],
            None => Seq::empty(),
        }
    }
}

/// The positions `i < upto` of the crates named `name`, in order.
pub open spec fn name_positions<N: KrateDetails>(nodes: Seq<Node<N>>, upto: int, name: Seq<char>) -> Seq<
    int,
>
    decreases upto,
{
    if upto <= 0 {
        Seq::empty()
    } else {
        name_positions(nodes, upto - 1, name) + if krate_of(nodes[upto - 1]).krate_name() == name {
            seq![upto - 1]
        } else {
            Seq::empty()
        }
    }
}

/// The positions `i < upto` of the crates named `name` whose version meets
/// `req`, in order.
pub open spec fn match_positions<N: KrateDetails>(
    nodes: Seq<Node<N>>,
    upto: int,
    name: Seq<char>,
    req: Seq<crate::version::ComparatorModel>,
) -> Seq<int>
    decreases upto,
{
    if upto <= 0 {
        Seq::empty()
    } else {
        match_positions(nodes, upto - 1, name, req) + if krate_of(nodes[upto - 1]).krate_name()
            == name && semver_req_matches(req, krate_of(nodes[upto - 1]).krate_version()) {
            seq![upto - 1]
        } else {
            Seq::empty()
        }
    }
}

/// The node is the feature `feat` of the crate at position `nid`.
pub open spec fn is_feature_of<N>(n: Node<N>, nid: NodeId, feat: Seq<char>) -> bool {
    n matches Node::Feature { krate_index, name } && krate_index == nid && name@ == feat
}

/// The edge at position `e` comes from the node of the feature `feat` of the
/// crate at position `nid`.
pub open spec fn from_feature_of<N, E>(
    nodes: Seq<Node<N>>,
    edges: Seq<EdgeRecord<E>>,
    nid: NodeId,
    feat: Seq<char>,
) -> spec_fn(usize) -> bool {
    |e: usize| is_feature_of(nodes[edges[e as int].source as int], nid, feat)
}

/// The features enabled on a crate node.
pub open spec fn features_of<N>(n: Node<N>) -> Set<Seq<char>> {
    match n {
        Node::Krate { features, .. } => features@,
        Node::Feature { .. } => Set::empty(),
    }
}

impl<N> Node<N> {
    /// Adds the feature to the enabled features of a crate node; a feature
    /// node stays as it is.
    pub fn insert_feature(&mut self, name: String)
        ensures
            node_id(*final(self)) == node_id(*old(self)),
            krate_of(*final(self)) == krate_of(*old(self)),
            (*final(self) is Krate) == (*old(self) is Krate),
            *old(self) is Feature ==> *final(self) == *old(self),
            *old(self) is Krate ==> features_of(*final(self)) == features_of(*old(self)).insert(name@),
    {
        match self {
            Node::Krate { features, .. } => {
                features.insert(name);
            },
            Node::Feature { .. } => {},
        }
    }
}

impl<N, E> Krates<N, E> {
    /// Get the node for the specified crate identifier
    pub fn node_for_kid(&self, kid: &Kid) -> (r: Option<&Node<N>>)
        requires
            self.wf(),
        ensures
            match krate_position(self.node_seq(), self.krate_count() as int, kid@) {
                Some(i) => r is Some && *r->0 == self.node_seq()[i],
                None => r is None,
            },
    {
        match self.nid_for_kid(kid) {
            Some(nid) => {
                proof {
                    lemma_krate_position(self.node_seq(), self.edge_seq(), self.krate_count() as int, nid as int);
                }
                Some(self.graph.node(nid))
            },
            None => None,
        }
    }

    /// The crate data of the crate node at position `idx`.
    pub fn krate_at(&self, idx: NodeId) -> (r: &N)
        requires
            self.wf(),
            idx < self.krate_count(),
        ensures
            *r == krate_of(self.node_seq()[idx as int]),
    {
        match self.graph.node(idx) {
            Node::Krate { krate, .. } => krate,
            Node::Feature { .. } => unreached(),
        }
    }

    /// Get the node of the specified crate, or, where `feature` is given, the
    /// node of that feature of the crate: the source of the first edge into
    /// the crate, in the order of `edges_directed`, that comes from a node for
    /// that feature of that crate.
    #[verifier::loop_isolation(false)]
    pub fn get_node(&self, kid: &Kid, feature: Option<&str>) -> (r: Option<(NodeId, &Node<N>)>)
        requires
            self.wf(),
        ensures
            match krate_position(self.node_seq(), self.krate_count() as int, kid@) {
                None => r is None,
                Some(nid) => match feature {
                    None => r matches Some((id, node)) && id == nid && *node == self.node_seq()[nid],
                    Some(feat) => {
                        let inc = edges_of(
                            self.edge_seq(),
                            self.edge_seq().len() as int,
                            nid as usize,
                            Direction::Incoming,
                        );
                        let p = from_feature_of(self.node_seq(), self.edge_seq(), nid as usize, feat@);
                        match crate::search::first_index(inc, p) {
                            Some(k) => r matches Some((id, node)) && id == self.edge_seq()[inc[k] as int].source
                                && *node == self.node_seq()[id as int],
                            None => r is None,
                        }
                    },
                },
            },
    {
        let nid = match self.nid_for_kid(kid) {
            Some(nid) => nid,
            None => return None,
        };
        proof {
            lemma_krate_position(self.node_seq(), self.edge_seq(), self.krate_count() as int, nid as int);
        }
        let feat = match feature {
            Some(feat) => feat,
            None => return Some((nid, self.graph.node(nid))),
        };
        let inc = self.graph.edges_directed(nid, Direction::Incoming);
        let edges = self.graph.raw_edges();
        let ghost p = from_feature_of(self.node_seq(), self.edge_seq(), nid, feat@);
        proof {
            lemma_edges_of_bounds(self.edge_seq(), self.edge_seq().len() as int, nid, Direction::Incoming);
        }
        let mut k: usize = 0;
        while k < inc.len()
            invariant
                self.wf(),
                edges@ == self.edge_seq(),
                inc@ == edges_of(self.edge_seq(), self.edge_seq().len() as int, nid, Direction::Incoming),
                forall|m: int| 0 <= m < inc@.len() ==> #[trigger] inc@[m] < self.edge_seq().len(),
                p == from_feature_of(self.node_seq(), self.edge_seq(), nid, feat@),
                k <= inc@.len(),
                forall|m: int| 0 <= m < k ==> !p(#[trigger] inc@[m]),
            decreases inc.len() - k,
        {
            let src = edges[inc[k]].source;
            assert(src < self.node_seq().len());
            let node = self.graph.node(src);
            if let Node::Feature { krate_index, name } = node {
                if *krate_index == nid && str_eq(name.as_str(), feat) {
                    proof {
                        assert(p(inc@[k as int]));
                        crate::search::lemma_first_index_some(inc@, p, k as int);
                    }
                    return Some((src, node));
                }
            }
            k += 1;
        }
        proof {
            crate::search::lemma_first_index_none(inc@, p);
        }
        None
    }

    /// Gets the features enabled for the specified crate
    pub fn get_enabled_features(&self, kid: &Kid) -> (r: Option<&EnabledFeatures>)
        requires
            self.wf(),
        ensures
            match krate_position(self.node_seq(), self.krate_count() as int, kid@) {
                Some(i) => r is Some && r->0@ == features_of(self.node_seq()[i]),
                None => r is None,
            },
    {
        match self.node_for_kid(kid) {
            Some(Node::Krate { features, .. }) => Some(features),
            Some(Node::Feature { .. }) => {
                proof {
                    let i = krate_position(self.node_seq(), self.krate_count() as int, kid@)->0;
                    assert(self.node_seq()[i] is Krate);
                }
                None
            },
            None => None,
        }
    }

    /// The nodes of the members of the workspace that are in the graph, in
    /// the order of the members.
    pub fn workspace_members(&self) -> (r: Vec<&Node<N>>)
        requires
            self.wf(),
        ensures
            r@.len() == member_positions(
                self.node_seq(),
                self.krate_count() as int,
                self.member_seq(),
                self.member_seq().len() as int,
            ).len(),
            forall|k: int|
                0 <= k < r@.len() ==> *r@[k] == self.node_seq()[member_positions(
                    self.node_seq(),
                    self.krate_count() as int,
                    self.member_seq(),
                    self.member_seq().len() as int,
                )[k]],
    {
        let mut r: Vec<&Node<N>> = Vec::new();
        let mut i: usize = 0;
        while i < self.workspace_members.len()
            invariant
                self.wf(),
                i <= self.member_seq().len(),
                self.workspace_members@ == self.member_seq(),
                r@.len() == member_positions(self.node_seq(), self.krate_count() as int, self.member_seq(), i as int).len(),
                forall|k: int|
                    0 <= k < r@.len() ==> *r@[k] == self.node_seq()[member_positions(
                        self.node_seq(),
                        self.krate_count() as int,
                        self.member_seq(),
                        i as int,
                    )[k]],
            decreases self.workspace_members.len() - i,
        {
            let ghost before = member_positions(self.node_seq(), self.krate_count() as int, self.member_seq(), i as int);
            match self.nid_for_kid(&self.workspace_members[i]) {
                Some(nid) => {
                    proof {
                        lemma_krate_position(self.node_seq(), self.edge_seq(), self.krate_count() as int, nid as int);
                    }
                    r.push(self.graph.node(nid));
                    proof {
                        let after = member_positions(self.node_seq(), self.krate_count() as int, self.member_seq(), i + 1);
                        assert(after =~= before.push(nid as int));
                    }
                },
                None => {
                    proof {
                        let after = member_positions(self.node_seq(), self.krate_count() as int, self.member_seq(), i + 1);
                        assert(after =~= before);
                    }
                },
            }
            i += 1;
        }
        r
    }

    /// Get the dependencies of the specified node: for each edge leaving it,
    /// most recently added first, the node it leads to and its weight.
    pub fn get_deps(&self, id: NodeId) -> (r: Vec<(&Node<N>, &E)>)
        requires
            self.wf(),
        ensures
            r@.len() == edges_of(self.edge_seq(), self.edge_seq().len() as int, id, Direction::Outgoing).len(),
            forall|k: int| 0 <= k < r@.len() ==> {
                let e = self.edge_seq()[edges_of(self.edge_seq(), self.edge_seq().len() as int, id, Direction::Outgoing)[k] as int];
                *(#[trigger] r@[k]).0 == self.node_seq()[e.target as int] && *r@[k].1 == e.weight
            },
    {
        let out = self.graph.edges_directed(id, Direction::Outgoing);
        let edges = self.graph.raw_edges();
        proof {
            lemma_edges_of_bounds(self.edge_seq(), self.edge_seq().len() as int, id, Direction::Outgoing);
        }
        let mut r: Vec<(&Node<N>, &E)> = Vec::new();
        let mut k: usize = 0;
        while k < out.len()
            invariant
                self.wf(),
                edges@ == self.edge_seq(),
                out@ == edges_of(self.edge_seq(), self.edge_seq().len() as int, id, Direction::Outgoing),
                forall|m: int| 0 <= m < out@.len() ==> #[trigger] out@[m] < self.edge_seq().len(),
                k <= out@.len(),
                r@.len() == k,
                forall|m: int| 0 <= m < k ==> {
                    let e = self.edge_seq()[out@[m] as int];
                    *(#[trigger] r@[m]).0 == self.node_seq()[e.target as int] && *r@[m].1 == e.weight
                },
            decreases out.len() - k,
        {
            let e = &edges[out[k]];
            assert(e.target < self.node_seq().len());
            r.push((self.graph.node(e.target), &e.weight));
            k += 1;
        }
        r
    }
}

/// The positions that `edges_of` lists are positions of edges.
pub proof fn lemma_edges_of_bounds<E>(edges: Seq<EdgeRecord<E>>, upto: int, n: NodeId, dir: Direction)
    requires
        upto <= edges.len(),
    ensures
        forall|m: int|
            0 <= m < edges_of(edges, upto, n, dir).len() ==> #[trigger] edges_of(edges, upto, n, dir)[m]
                < upto,
    decreases upto,
{
    if upto > 0 {
        lemma_edges_of_bounds(edges, upto - 1, n, dir);
        let s = edges_of(edges, upto, n, dir);
        let t = edges_of(edges, upto - 1, n, dir);
        if crate::graph::touches(edges[upto - 1], n, dir) {
            assert forall|m: int| 0 <= m < s.len() implies #[trigger] s[m] < upto by {
                if m > 0 {
                    assert(s[m] == t[m - 1]);
                }
            }
        }
    }
}

impl<N: KrateDetails, E> Krates<N, E> {
    /// The crates with the given name, in the case there are multiple
    /// versions, or sources, of the crate: their positions and data, in order.
    pub fn krates_by_name(&self, name: &str) -> (r: Vec<(NodeId, &N)>)
        requires
            self.wf(),
        ensures
            r@.len() == name_positions(self.node_seq(), self.krate_count() as int, name@).len(),
            forall|k: int|
                0 <= k < r@.len() ==> (#[trigger] r@[k]).0 == name_positions(
                    self.node_seq(),
                    self.krate_count() as int,
                    name@,
                )[k] && *r@[k].1 == krate_of(self.node_seq()[r@[k].0 as int]),
    {
        let nodes = self.graph.raw_nodes();
        let mut r: Vec<(NodeId, &N)> = Vec::new();
        let mut i: usize = 0;
        while i < self.krates_end
            invariant
                self.wf(),
                nodes@ == self.node_seq(),
                i <= self.krates_end,
                r@.len() == name_positions(self.node_seq(), i as int, name@).len(),
                forall|k: int|
                    0 <= k < r@.len() ==> (#[trigger] r@[k]).0 == name_positions(self.node_seq(), i as int, name@)[k]
                        && *r@[k].1 == krate_of(self.node_seq()[r@[k].0 as int]),
            decreases self.krates_end - i,
        {
            let ghost before = name_positions(self.node_seq(), i as int, name@);
            if let Node::Krate { krate, .. } = &nodes[i] {
                if str_eq(krate.name(), name) {
                    r.push((i, krate));
                    proof {
                        assert(name_positions(self.node_seq(), i + 1, name@) =~= before.push(i as int));
                    }
                } else {
                    proof {
                        assert(name_positions(self.node_seq(), i + 1, name@) =~= before);
                    }
                }
            }
            i += 1;
        }
        r
    }

    /// The crates with the given name whose version satisfies `req`: their
    /// positions and data, in order.
    pub fn search_matches(&self, name: &str, req: &VersionReq) -> (r: Vec<(NodeId, &N)>)
        requires
            self.wf(),
        ensures
            r@.len() == match_positions(self.node_seq(), self.krate_count() as int, name@, req@).len(),
            forall|k: int|
                0 <= k < r@.len() ==> (#[trigger] r@[k]).0 == match_positions(
                    self.node_seq(),
                    self.krate_count() as int,
                    name@,
                    req@,
                )[k] && *r@[k].1 == krate_of(self.node_seq()[r@[k].0 as int]),
    {
        let nodes = self.graph.raw_nodes();
        let mut r: Vec<(NodeId, &N)> = Vec::new();
        let mut i: usize = 0;
        while i < self.krates_end
            invariant
                self.wf(),
                nodes@ == self.node_seq(),
                i <= self.krates_end,
                r@.len() == match_positions(self.node_seq(), i as int, name@, req@).len(),
                forall|k: int|
                    0 <= k < r@.len() ==> (#[trigger] r@[k]).0 == match_positions(self.node_seq(), i as int, name@, req@)[k]
                        && *r@[k].1 == krate_of(self.node_seq()[r@[k].0 as int]),
            decreases self.krates_end - i,
        {
            let ghost before = match_positions(self.node_seq(), i as int, name@, req@);
            if let Node::Krate { krate, .. } = &nodes[i] {
                if str_eq(krate.name(), name) && req.matches(krate.version()) {
                    r.push((i, krate));
                    proof {
                        assert(match_positions(self.node_seq(), i + 1, name@, req@) =~= before.push(i as int));
                    }
                } else {
                    proof {
                        assert(match_positions(self.node_seq(), i + 1, name@, req@) =~= before);
                    }
                }
            }
            i += 1;
        }
        r
    }
}

} // verus!
