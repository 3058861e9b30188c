//! Building a crate graph: the `cargo metadata` command line, the filters a
//! graph is built with, and the rules that decide which dependencies stay.
use vstd::prelude::*;
use crate::paths;
use crate::cfg::{cfg_builtin_triple, cfg_eval, eval_cfg, is_builtin_triple};
use crate::cm::{Metadata, Package, PackageId};
use crate::construct::{
    align_ids, aligned, build_graph, build_outcome, builder_model, exclusions_defined, lemma_aligned_exact,
    metadata_consistent, metadata_exact, reported,
};
use crate::errors::Error;
use crate::krates::{Edge, Krates};
use crate::krates::DepKind;
use crate::paths::{camino_ends_with, camino_join, camino_parent};
use crate::pkgspec::{source_url_defined, PkgSpec};
use crate::version::VersionModel;
use crate::set::{StringSet, sorted_members};
use crate::text::{
    chars_of, find, find_chars, join, join_strs, occurs_at, pattern, rfind, rfind_chars, slice, starts_with, starts_with_chars, str_eq,
    string_from, strs, substring,
};

verus! {

/// What a [`Cmd`] holds.
pub struct CmdModel {
    pub cargo_path: Option<Seq<char>>,
    pub manifest_path: Option<Seq<char>>,
    pub current_dir: Option<Seq<char>>,
    pub features: Seq<Seq<char>>,
    pub other_options: Seq<Seq<char>>,
    pub all_features: bool,
    pub no_default_features: bool,
    pub frozen: bool,
    pub locked: bool,
    pub offline: bool,
}

/// The view of an optional string.
pub open spec fn opt_str(s: Option<String>) -> Option<Seq<char>> {
    match s {
        Some(v) => Some(v@),
        None => None,
    }
}

/// An alternative to `cargo_metadata::MetadataCommand` which allows correct
/// feature usage, as well as ensuring that the command can run successfully
/// regardless of where it is executed and on what.
#[derive(Debug)]
pub struct Cmd {
    cargo_path: Option<String>,
    manifest_path: Option<String>,
    current_dir: Option<String>,
    features: Vec<String>,
    other_options: Vec<String>,
    all_features: bool,
    no_default_features: bool,
    frozen: bool,
    locked: bool,
    offline: bool,
}

impl View for Cmd {
    type V = CmdModel;

    closed spec fn view(&self) -> CmdModel {
        CmdModel {
            cargo_path: opt_str(self.cargo_path),
            manifest_path: opt_str(self.manifest_path),
            current_dir: opt_str(self.current_dir),
            features: strs(self.features@),
            other_options: strs(self.other_options@),
            all_features: self.all_features,
            no_default_features: self.no_default_features,
            frozen: self.frozen,
            locked: self.locked,
            offline: self.offline,
        }
    }
}

/// The lock options of `cargo metadata`.
#[derive(Copy, Clone, Debug)]
pub struct LockOptions {
    /// Requires that the Cargo.lock file is up-to-date. If the lock file is
    /// missing, or it needs to be updated, Cargo will exit with an error.
    /// Prevents Cargo from attempting to access the network to determine if it
    /// is out-of-date.
    pub frozen: bool,
    /// Requires that the Cargo.lock file is up-to-date. If the lock file is
    /// missing, or it needs to be updated, Cargo will exit with an error.
    pub locked: bool,
    /// Prevents Cargo from accessing the network for any reason.
    pub offline: bool,
}

impl Default for Cmd {
    fn default() -> (r: Cmd)
        ensures
            r@ == (CmdModel {
                cargo_path: None,
                manifest_path: None,
                current_dir: None,
                features: Seq::empty(),
                other_options: Seq::empty(),
                all_features: false,
                no_default_features: false,
                frozen: false,
                locked: false,
                offline: false,
            }),
    {
        let r = Cmd {
            cargo_path: None,
            manifest_path: None,
            current_dir: None,
            features: Vec::new(),
            other_options: Vec::new(),
            all_features: false,
            no_default_features: false,
            frozen: false,
            locked: false,
            offline: false,
        };
        assert(r@.features =~= Seq::<Seq<char>>::empty());
        assert(r@.other_options =~= Seq::<Seq<char>>::empty());
        r
    }
}

impl Cmd {
    /// A command with nothing set.
    pub fn new() -> (r: Cmd)
        ensures
            r@ == (CmdModel {
                cargo_path: None,
                manifest_path: None,
                current_dir: None,
                features: Seq::empty(),
                other_options: Seq::empty(),
                all_features: false,
                no_default_features: false,
                frozen: false,
                locked: false,
                offline: false,
            }),
    {
        Cmd::default()
    }

    /// Path to `cargo` executable.  If not set, this will use the the `$CARGO`
    /// environment variable, and if that is not set, will simply be `cargo`.
    pub fn cargo_path(&mut self, path: &str) -> (r: &mut Cmd)
        ensures
            r@ == (CmdModel { cargo_path: Some(path@), ..old(self)@ }),
            *final(self) == *final(r),
    {
        self.cargo_path = Some(path.to_string());
        self
    }

    /// Path to a `Cargo.toml` manifest
    pub fn manifest_path(&mut self, path: &str) -> (r: &mut Cmd)
        ensures
            r@ == (CmdModel { manifest_path: Some(path@), ..old(self)@ }),
            *final(self) == *final(r),
    {
        self.manifest_path = Some(path.to_string());
        self
    }

    /// Current directory of the `cargo metadata` process.
    pub fn current_dir(&mut self, path: &str) -> (r: &mut Cmd)
        ensures
            r@ == (CmdModel { current_dir: Some(path@), ..old(self)@ }),
            *final(self) == *final(r),
    {
        self.current_dir = Some(path.to_string());
        self
    }

    /// Disables default features.
    ///
    /// **NOTE**: This has **no effect** if used on a workspace. You must
    /// specify a working directory or manifest path to a specific crate if used
    /// on a crate inside a workspace.
    pub fn no_default_features(&mut self) -> (r: &mut Cmd)
        ensures
            r@ == (CmdModel { no_default_features: true, ..old(self)@ }),
            *final(self) == *final(r),
    {
        self.no_default_features = true;
        self
    }

    /// Enables all features for all workspace crates. Usable on both individual
    /// crates and on an entire workspace.
    pub fn all_features(&mut self) -> (r: &mut Cmd)
        ensures
            r@ == (CmdModel { all_features: true, ..old(self)@ }),
            *final(self) == *final(r),
    {
        self.all_features = true;
        self
    }

    /// Enables specific features. See the **NOTE** for `no_default_features`
    pub fn features(&mut self, feats: Vec<String>) -> (r: &mut Cmd)
        ensures
            r@ == (CmdModel { features: old(self)@.features + strs(feats@), ..old(self)@ }),
            *final(self) == *final(r),
    {
        let mut feats = feats;
        let ghost added = strs(feats@);
        self.features.append(&mut feats);
        proof {
            assert(strs(self.features@) =~= old(self)@.features + added);
        }
        self
    }

    /// Sets the various lock options for determining if cargo can access the
    /// network and if the lockfile must be present and can be modified
    pub fn lock_opts(&mut self, lopts: LockOptions) -> (r: &mut Cmd)
        ensures
            r@ == (CmdModel {
                frozen: lopts.frozen,
                locked: lopts.locked,
                offline: lopts.offline,
                ..old(self)@
            }),
            *final(self) == *final(r),
    {
        self.frozen = lopts.frozen;
        self.locked = lopts.locked;
        self.offline = lopts.offline;
        self
    }

    /// Arbitrary command line flags to pass to `cargo`.  These will be added to
    /// the end of the command line invocation.
    pub fn other_options(&mut self, options: Vec<String>) -> (r: &mut Cmd)
        ensures
            r@ == (CmdModel {
                other_options: old(self)@.other_options + strs(options@),
                ..old(self)@
            }),
            *final(self) == *final(r),
    {
        let mut options = options;
        let ghost added = strs(options@);
        self.other_options.append(&mut options);
        proof {
            assert(strs(self.other_options@) =~= old(self)@.other_options + added);
        }
        self
    }
}

/// How `cargo metadata` is to be run: the `cargo` to run, the manifest to
/// read, the directory to run in, and the options that follow `metadata`.
#[derive(Debug)]
pub struct MetadataInvocation {
    pub cargo_path: Option<String>,
    pub manifest_path: Option<String>,
    pub current_dir: Option<String>,
    pub other_options: Vec<String>,
}

/// What a [`MetadataInvocation`] holds.
pub struct InvocationModel {
    pub cargo_path: Option<Seq<char>>,
    pub manifest_path: Option<Seq<char>>,
    pub current_dir: Option<Seq<char>>,
    pub other_options: Seq<Seq<char>>,
}

impl View for MetadataInvocation {
    type V = InvocationModel;

    open spec fn view(&self) -> InvocationModel {
        InvocationModel {
            cargo_path: opt_str(self.cargo_path),
            manifest_path: opt_str(self.manifest_path),
            current_dir: opt_str(self.current_dir),
            other_options: strs(self.other_options@),
        }
    }
}

/// The one flag `text` where `on` holds, nothing otherwise.
pub open spec fn flag(on: bool, text: Seq<char>) -> Seq<Seq<char>> {
    if on {
        seq![text]
    } else {
        Seq::empty()
    }
}

/// The options a command passes to `cargo metadata`: the feature flags, the
/// requested features sorted, without duplicates and separated by spaces,
/// the lock flags, and then the command's other options.
pub open spec fn cmd_options(m: CmdModel) -> Seq<Seq<char>> {
    flag(m.no_default_features, "--no-default-features"@) + flag(m.all_features, "--all-features"@)
        + (if m.features.len() > 0 {
        seq!["--features"@, join(sorted_members(m.features.to_set()), " "@)]
    } else {
        Seq::empty()
    }) + flag(m.frozen, "--frozen"@) + flag(m.locked, "--locked"@) + flag(m.offline, "--offline"@)
        + m.other_options
}

/// How a command runs `cargo metadata`. Where a manifest path is set, the
/// process runs in the manifest's directory and reads `Cargo.toml` there;
/// where that directory is empty (a manifest path such as `Cargo.toml`),
/// the process is given no directory to run in, so that it reads the
/// `Cargo.toml` of the directory it runs in. There is no invocation where
/// the manifest path has no parent directory.
pub open spec fn invocation_of(m: CmdModel) -> Option<InvocationModel> {
    match m.manifest_path {
        Some(mp) => match camino_parent(mp) {
            Some(dir) => Some(
                InvocationModel {
                    cargo_path: m.cargo_path,
                    manifest_path: Some("Cargo.toml"@),
                    current_dir: if dir.len() == 0 {
                        None
                    } else {
                        Some(dir)
                    },
                    other_options: cmd_options(m),
                },
            ),
            None => None,
        },
        None => Some(
            InvocationModel {
                cargo_path: m.cargo_path,
                manifest_path: None,
                current_dir: m.current_dir,
                other_options: cmd_options(m),
            },
        ),
    }
}

impl Cmd {
    /// The options that follow `metadata` on the command line.
    fn options(&self) -> (r: Vec<String>)
        ensures
            strs(r@) == cmd_options(self@),
    {
        let mut opts: Vec<String> = Vec::new();
        let ghost m = self@;
        if self.no_default_features {
            opts.push("--no-default-features".to_string());
        }
        if self.all_features {
            opts.push("--all-features".to_string());
        }
        proof {
            assert(strs(opts@) =~= flag(m.no_default_features, "--no-default-features"@) + flag(
                m.all_features,
                "--all-features"@,
            ));
        }
        let ghost before = strs(opts@);
        if self.features.len() > 0 {
            let set = StringSet::from_strings(&self.features);
            let joined = join_strs(set.items(), " ");
            opts.push("--features".to_string());
            opts.push(joined);
            proof {
                assert(strs(opts@) =~= before + seq![
                    "--features"@,
                    join(sorted_members(m.features.to_set()), " "@),
                ]);
            }
        } else {
            proof {
                assert(strs(opts@) =~= before + Seq::<Seq<char>>::empty());
            }
        }
        let ghost before = strs(opts@);
        if self.frozen {
            opts.push("--frozen".to_string());
        }
        if self.locked {
            opts.push("--locked".to_string());
        }
        if self.offline {
            opts.push("--offline".to_string());
        }
        proof {
            assert(strs(opts@) =~= before + flag(m.frozen, "--frozen"@) + flag(m.locked, "--locked"@)
                + flag(m.offline, "--offline"@));
        }
        let ghost before = strs(opts@);
        let mut i: usize = 0;
        while i < self.other_options.len()
            invariant
                i <= self.other_options@.len(),
                strs(opts@) == before + strs(self.other_options@).take(i as int),
            decreases self.other_options.len() - i,
        {
            let ghost prev = opts@;
            let o = self.other_options[i].clone();
            opts.push(o);
            proof {
                assert(strs(opts@) =~= strs(prev).push(self.other_options@[i as int]@));
                assert(strs(self.other_options@).take(i + 1) =~= strs(self.other_options@).take(
                    i as int,
                ).push(self.other_options@[i as int]@));
                assert(strs(opts@) =~= before + strs(self.other_options@).take(i + 1));
            }
            i += 1;
        }
        proof {
            assert(strs(self.other_options@).take(i as int) =~= m.other_options);
            assert(strs(opts@) =~= cmd_options(m));
        }
        opts
    }

    /// How the command runs `cargo metadata`. Where a manifest path is set,
    /// the process runs in the manifest's directory, so that it can run from
    /// anywhere (a registry defined in the workspace's `.cargo/config` is
    /// found); `None` where that manifest path has no parent directory.
    pub fn invocation(&self) -> (r: Option<MetadataInvocation>)
        ensures
            match r {
                Some(inv) => invocation_of(self@) == Some(inv@),
                None => invocation_of(self@) is None,
            },
    {
        proof {
            reveal_strlit("Cargo.toml");
            reveal_strlit("");
        }
        let other_options = self.options();
        let cargo_path = match &self.cargo_path {
            Some(p) => Some(p.clone()),
            None => None,
        };
        match &self.manifest_path {
            Some(mp) => match paths::parent(mp.as_str()) {
                Some(dir) => {
                    proof {
                        assert(""@.len() == 0);
                        if dir@.len() == 0 {
                            assert(dir@ =~= ""@);
                        }
                    }
                    let current_dir = if str_eq(dir.as_str(), "") {
                        None
                    } else {
                        Some(dir)
                    };
                    Some(
                        MetadataInvocation {
                            cargo_path,
                            manifest_path: Some("Cargo.toml".to_string()),
                            current_dir,
                            other_options,
                        },
                    )
                },
                None => None,
            },
            None => {
                let current_dir = match &self.current_dir {
                    Some(p) => Some(p.clone()),
                    None => None,
                };
                Some(MetadataInvocation { cargo_path, manifest_path: None, current_dir, other_options })
            },
        }
    }
}

} // verus!

verus! {

/// A target to filter dependencies by: one of rustc's builtin targets, known
/// to `cfg-expr`, or some other triple.
#[derive(Clone, Debug)]
pub enum Target {
    Builtin(String),
    Unknown(String),
}

/// The target named by `triple`.
pub open spec fn target_of(triple: Seq<char>) -> (Seq<char>, bool) {
    (triple, cfg_builtin_triple(triple))
}

impl View for Target {
    /// The triple, and whether it is a builtin target.
    type V = (Seq<char>, bool);

    open spec fn view(&self) -> (Seq<char>, bool) {
        match self {
            Target::Builtin(t) => (t@, true),
            Target::Unknown(t) => (t@, false),
        }
    }
}

/// A target made from a triple keeps the triple, and is builtin exactly
/// where `cfg-expr` knows the triple, unknown otherwise.
pub proof fn target_from_triple_keeps_it(t: Target, triple: Seq<char>)
    requires
        t@ == target_of(triple),
    ensures
        t@.0 == triple,
        (t is Builtin) <==> cfg_builtin_triple(triple),
        !cfg_builtin_triple(triple) ==> (t matches Target::Unknown(s) && s@ == triple),
{
}

impl Target {
    /// The target named by the triple: builtin where `cfg-expr` knows it.
    pub fn from_triple(triple: &str) -> (r: Target)
        ensures
            r@ == target_of(triple@),
    {
        if is_builtin_triple(triple) {
            Target::Builtin(triple.to_string())
        } else {
            Target::Unknown(triple.to_string())
        }
    }

    /// The target's triple.
    pub fn triple(&self) -> (r: &str)
        ensures
            r@ == self@.0,
    {
        match self {
            Target::Builtin(t) => t.as_str(),
            Target::Unknown(t) => t.as_str(),
        }
    }

    /// The triple of a builtin target; `None` for another one.
    pub fn builtin(&self) -> (r: Option<&str>)
        ensures
            match r {
                Some(t) => self@.1 && t@ == self@.0,
                None => !self@.1,
            },
    {
        match self {
            Target::Builtin(t) => Some(t.as_str()),
            Target::Unknown(_) => None,
        }
    }
}

/// A target, and the target features promised to be enabled on it.
#[derive(Clone, Debug)]
pub struct TargetFilter {
    pub inner: Target,
    pub features: Vec<String>,
}

/// What a [`TargetFilter`] holds: the target and its features.
pub type TargetFilterModel = ((Seq<char>, bool), Seq<Seq<char>>);

impl View for TargetFilter {
    type V = TargetFilterModel;

    open spec fn view(&self) -> TargetFilterModel {
        (self.inner@, strs(self.features@))
    }
}

/// The builtin triple `cfg()` expressions are evaluated against, if any.
pub open spec fn builtin_of(t: (Seq<char>, bool)) -> Option<Seq<char>> {
    if t.1 {
        Some(t.0)
    } else {
        None
    }
}

impl TargetFilter {
    /// Whether the target is the one named by `triple`.
    pub fn matches_triple(&self, triple: &str) -> (r: bool)
        ensures
            r == (self@.0.0 == triple@),
    {
        str_eq(self.inner.triple(), triple)
    }

    /// Evaluates the `cfg()` expression `cfg` for this target: `None` where
    /// it does not parse.
    pub fn eval(&self, cfg: &str) -> (r: Option<bool>)
        ensures
            r == cfg_eval(cfg@, builtin_of(self@.0), self@.1),
    {
        eval_cfg(cfg, self.inner.builtin(), &self.features)
    }
}

/// The scope for which a dependency kind will be ignored
#[derive(Clone, Copy, Debug, PartialEq, Eq, Structural)]
pub enum Scope {
    /// Will match a dependency from a crate in the workspace
    Workspace,
    /// Will match a dependency from any crate not in the workspace
    NonWorkspace,
    /// Will ignore a dependency from any crate
    All,
}

/// Receives each crate that is left out of the final crate graph that is
/// built. This occurs when the crate has no dependents any longer due to the
/// applied filters.
pub trait OnFilter {
    fn filtered(&mut self, krate: Package);
}

/// For when you just want to satisfy [`OnFilter`] without doing anything
pub struct NoneFilter;

impl OnFilter for NoneFilter {
    fn filtered(&mut self, krate: Package) {
    }
}

impl<'a, T: OnFilter> OnFilter for &'a mut T {
    /// Reports the crate to the filter borrowed.
    fn filtered(&mut self, krate: Package) {
        (**self).filtered(krate);
    }
}

impl OnFilter for Vec<Package> {
    /// Keeps the crates that were left out, in the order they are reported.
    fn filtered(&mut self, krate: Package)
        ensures
            final(self)@ == old(self)@.push(krate),
    {
        self.push(krate);
    }
}

/// The bit of a dependency kind in the mask of ignored kinds.
pub open spec fn kind_flag(kind: DepKind) -> u32 {
    match kind {
        DepKind::Normal => 0x1u32,
        DepKind::Dev => 0x8u32,
        DepKind::Build => 0x40u32,
    }
}

/// The mask after ignoring `kind` in `scope`: the kind's bit, with the bit
/// above it for the workspace and the one after that for other crates.
pub open spec fn ignore_mask(mask: u32, kind: DepKind, scope: Scope) -> u32 {
    let f = kind_flag(kind);
    mask | f | match scope {
        Scope::Workspace => f << 1u32,
        Scope::NonWorkspace => f << 2u32,
        Scope::All => (f << 1u32) | (f << 2u32),
    }
}

/// Whether the mask ignores dependencies of `kind` of a crate inside
/// (`in_workspace`) or outside the workspace.
pub open spec fn kind_ignored(mask: u32, kind: DepKind, in_workspace: bool) -> bool {
    let f = kind_flag(kind);
    let m = f | (f << (if in_workspace {
        1u32
    } else {
        2u32
    }));
    mask & m == m
}

/// The mask records a scope of a kind only together with the kind itself,
/// as [`ignore_mask`] always does.
pub open spec fn mask_consistent(mask: u32) -> bool {
    forall|k: DepKind| #![trigger kind_flag(k)]
        (mask & (kind_flag(k) << 1u32) != 0 || mask & (kind_flag(k) << 2u32) != 0) ==> mask
            & kind_flag(k) != 0
}

proof fn lemma_flag_bits(mask: u32, f: u32)
    by (bit_vector)
    requires
        f == 1 || f == 8 || f == 64,
    ensures
        ((mask | f | (f << 1u32)) & (f | (f << 1u32))) == (f | (f << 1u32)),
        ((mask | f | (f << 2u32)) & (f | (f << 2u32))) == (f | (f << 2u32)),
        ((mask | f | ((f << 1u32) | (f << 2u32))) & (f | (f << 1u32))) == (f | (f << 1u32)),
        ((mask | f | ((f << 1u32) | (f << 2u32))) & (f | (f << 2u32))) == (f | (f << 2u32)),
        ((mask | f | (f << 1u32)) & (f | (f << 2u32))) == (f | (f << 2u32)) <==> (mask & (f
            << 2u32)) != 0,
        ((mask | f | (f << 2u32)) & (f | (f << 1u32))) == (f | (f << 1u32)) <==> (mask & (f
            << 1u32)) != 0,
        (mask & (f | (f << 2u32))) == (f | (f << 2u32)) <==> (mask & f) != 0 && (mask & (f
            << 2u32)) != 0,
        (mask & (f | (f << 1u32))) == (f | (f << 1u32)) <==> (mask & f) != 0 && (mask & (f
            << 1u32)) != 0,
{
}

proof fn lemma_other_flag_bits(mask: u32, f: u32, g: u32, w: u32)
    by (bit_vector)
    requires
        f == 1 || f == 8 || f == 64,
        g == 1 || g == 8 || g == 64,
        f != g,
        w == 1 || w == 2,
    ensures
        ((mask | f | (f << 1u32)) & (g | (g << w))) == (mask & (g | (g << w))),
        ((mask | f | (f << 2u32)) & (g | (g << w))) == (mask & (g | (g << w))),
        ((mask | f | ((f << 1u32) | (f << 2u32))) & (g | (g << w))) == (mask & (g | (g << w))),
{
}

/// Ignoring a kind in a scope makes the dependencies of that kind ignored
/// for the crates of that scope: workspace crates for `Workspace`, other
/// crates for `NonWorkspace`, all crates for `All`.
pub proof fn ignore_kind_ignores(mask: u32, kind: DepKind, scope: Scope)
    ensures
        scope != Scope::NonWorkspace ==> kind_ignored(ignore_mask(mask, kind, scope), kind, true),
        scope != Scope::Workspace ==> kind_ignored(ignore_mask(mask, kind, scope), kind, false),
{
    lemma_flag_bits(mask, kind_flag(kind));
}

/// Ignoring a kind leaves every other kind as it was, in and out of the
/// workspace.
pub proof fn ignore_kind_keeps_other_kinds(
    mask: u32,
    kind: DepKind,
    scope: Scope,
    other: DepKind,
    in_workspace: bool,
)
    requires
        other != kind,
    ensures
        kind_ignored(ignore_mask(mask, kind, scope), other, in_workspace) == kind_ignored(
            mask,
            other,
            in_workspace,
        ),
{
    let w: u32 = if in_workspace {
        1
    } else {
        2
    };
    lemma_other_flag_bits(mask, kind_flag(kind), kind_flag(other), w);
}

/// Ignoring a kind for one scope leaves the other scope as it was: a kind
/// ignored only for the workspace is still kept for other crates, and the
/// other way round.
pub proof fn ignore_kind_keeps_other_scope(mask: u32, kind: DepKind, scope: Scope)
    requires
        mask_consistent(mask),
        scope != Scope::All,
    ensures
        kind_ignored(ignore_mask(mask, kind, scope), kind, scope == Scope::NonWorkspace)
            == kind_ignored(mask, kind, scope == Scope::NonWorkspace),
{
    let f = kind_flag(kind);
    lemma_flag_bits(mask, f);
}

/// Every mask [`ignore_mask`] makes from a consistent mask is consistent.
pub proof fn ignore_kind_consistent(mask: u32, kind: DepKind, scope: Scope)
    requires
        mask_consistent(mask),
    ensures
        mask_consistent(ignore_mask(mask, kind, scope)),
{
    let m2 = ignore_mask(mask, kind, scope);
    assert forall|k: DepKind| #![trigger kind_flag(k)]
        (m2 & (kind_flag(k) << 1u32) != 0 || m2 & (kind_flag(k) << 2u32) != 0) implies m2
            & kind_flag(k) != 0 by {
        let f = kind_flag(kind);
        let g = kind_flag(k);
        if k == kind {
            lemma_flag_bits(mask, f);
            assert(m2 == mask | f | (m2 & ((f << 1u32) | (f << 2u32)))) by (bit_vector)
                requires
                    m2 == mask | f | (f << 1u32) || m2 == mask | f | (f << 2u32) || m2 == mask | f
                        | ((f << 1u32) | (f << 2u32)),
            ;
            assert(m2 & f != 0) by (bit_vector)
                requires
                    f == 1 || f == 8 || f == 64,
                    m2 == mask | f | (m2 & ((f << 1u32) | (f << 2u32))),
            ;
        } else {
            assert(mask & (g << 1u32) != 0 || mask & (g << 2u32) != 0 ==> mask & g != 0);
            assert((m2 & (g << 1u32)) == (mask & (g << 1u32)) && (m2 & (g << 2u32)) == (mask & (g
                << 2u32)) && (m2 & g) == (mask & g)) by (bit_vector)
                requires
                    f == 1 || f == 8 || f == 64,
                    g == 1 || g == 8 || g == 64,
                    f != g,
                    m2 == mask | f | (f << 1u32) || m2 == mask | f | (f << 2u32) || m2 == mask | f
                        | ((f << 1u32) | (f << 2u32)),
            ;
        }
    }
}

/// Whether the two names are the same, taking a `-` in the declared name to
/// stand for the `_` cargo writes for it in the resolved name.
pub open spec fn names_match(declared: Seq<char>, resolved: Seq<char>) -> bool {
    declared.len() == resolved.len() && forall|i: int|
        0 <= i < declared.len() ==> (#[trigger] declared[i] == resolved[i] || (declared[i] == '-'
            && resolved[i] == '_'))
}

/// When renaming dependencies to something with a `-` in a Cargo.toml file,
/// the actual resolved name in the metadata will replace the `-` with a `_` so
/// we need to take that into account when comparing the names as declared in
/// the crate metadata with the dependencies in the resolved graph
pub fn dep_names_match(krate_dep_name: &str, resolved_name: &str) -> (r: bool)
    ensures
        r == names_match(krate_dep_name@, resolved_name@),
{
    let a = chars_of(krate_dep_name);
    let b = chars_of(resolved_name);
    if a.len() != b.len() {
        return false;
    }
    let mut i: usize = 0;
    while i < a.len()
        invariant
            a@ == krate_dep_name@,
            b@ == resolved_name@,
            a@.len() == b@.len(),
            i <= a@.len(),
            forall|j: int| 0 <= j < i ==> (#[trigger] a@[j] == b@[j] || (a@[j] == '-' && b@[j] == '_')),
        decreases a.len() - i,
    {
        if !(a[i] == b[i] || (a[i] == '-' && b[i] == '_')) {
            return false;
        }
        i += 1;
    }
    true
}

/// The crate name of a package id: in the opaque form `<name> <version>
/// (<source>)`, its text up to the first space; in the stable form
/// `<kind>+<url>#<name>@<version>` (see [`stable_name`]), the name.
pub open spec fn crate_name(id: Seq<char>) -> Seq<char> {
    match find(id, " "@) {
        Some(i) => id.take(i),
        None => stable_name(id),
    }
}

/// The crate name of a package id in the stable form: the name after the
/// last `#` and before the `@` that follows it; where that part holds no
/// `@` (`<kind>+<url>#<version>`), the last segment of the url's path,
/// without its query; the whole id where it holds no `#`.
pub open spec fn stable_name(id: Seq<char>) -> Seq<char> {
    match rfind(id, "#"@) {
        Some(h) => {
            let frag = id.skip(h + 1);
            match find(frag, "@"@) {
                Some(a) => frag.take(a),
                None => {
                    let url = id.take(h);
                    let path = match find(url, "?"@) {
                        Some(q) => url.take(q),
                        None => url,
                    };
                    match rfind(path, "/"@) {
                        Some(sl) => path.skip(sl + 1),
                        None => path,
                    }
                },
            }
        },
        None => id,
    }
}

/// The crate name of a package id.
pub fn crate_name_from_pid(pid: &PackageId) -> (r: String)
    ensures
        r@ == crate_name(pid@),
{
    proof {
        reveal_strlit(" ");
        reveal_strlit("#");
        reveal_strlit("@");
        reveal_strlit("?");
        reveal_strlit("/");
    }
    let v = chars_of(pid.repr.as_str());
    match find_chars(&v, &pattern(" ")) {
        Some(end) => substring(&v, 0, end),
        None => match rfind_chars(&v, &pattern("#")) {
            Some(h) => {
                assert(occurs_at(v@, "#"@, h as int));
                assert(h + 1 <= v@.len());
                assert(h < v.len());
                let frag = slice(&v, h + 1, v.len());
                assert(frag@ =~= v@.skip(h + 1));
                match find_chars(&frag, &pattern("@")) {
                    Some(a) => {
                        let r = substring(&frag, 0, a);
                        assert(r@ =~= frag@.take(a as int));
                        r
                    },
                    None => {
                        let url = slice(&v, 0, h);
                        assert(url@ =~= v@.take(h as int));
                        let path = match find_chars(&url, &pattern("?")) {
                            Some(q) => {
                                let p = slice(&url, 0, q);
                                assert(p@ =~= url@.take(q as int));
                                p
                            },
                            None => url,
                        };
                        match rfind_chars(&path, &pattern("/")) {
                            Some(sl) => {
                                assert(occurs_at(path@, "/"@, sl as int));
                                let r = substring(&path, sl + 1, path.len());
                                assert(r@ =~= path@.skip(sl + 1));
                                r
                            },
                            None => string_from(path.as_slice()),
                        }
                    },
                }
            },
            None => string_from(v.as_slice()),
        },
    }
}

} // verus!

verus! {

/// The plain-value form of a package specification.
pub type PkgSpecModel = (Seq<char>, Option<VersionModel>, Option<Seq<char>>);

/// What a [`Builder`] holds.
pub struct BuilderModel {
    pub target_filters: Seq<TargetFilterModel>,
    pub workspace_filters: Seq<Seq<char>>,
    pub exclude: Seq<PkgSpecModel>,
    pub workspace: bool,
    pub ignore_kinds: u32,
}

/// A builder used to create a Krates graph, either by running a cargo metadata
/// command, or using an already deserialized metadata.
pub struct Builder {
    target_filters: Vec<TargetFilter>,
    workspace_filters: Vec<String>,
    exclude: Vec<PkgSpec>,
    workspace: bool,
    ignore_kinds: u32,
}

impl View for Builder {
    type V = BuilderModel;

    closed spec fn view(&self) -> BuilderModel {
        BuilderModel {
            target_filters: self.target_filters@.map_values(|t: TargetFilter| t@),
            workspace_filters: strs(self.workspace_filters@),
            exclude: self.exclude@.map_values(|e: PkgSpec| e@),
            workspace: self.workspace,
            ignore_kinds: self.ignore_kinds,
        }
    }
}

/// The manifest a workspace filter names: the path itself where it ends with
/// `Cargo.toml`, else `Cargo.toml` inside it.
pub open spec fn manifest_of(path: Seq<char>) -> Seq<char> {
    if camino_ends_with(path, "Cargo.toml"@) {
        path
    } else {
        camino_join(path, "Cargo.toml"@)
    }
}

impl Builder {
    #[verifier::type_invariant]
    closed spec fn consistent(&self) -> bool {
        mask_consistent(self.ignore_kinds)
    }

    /// A builder with no filters: every crate, every kind, every target.
    pub fn new() -> (r: Builder)
        ensures
            r@.target_filters.len() == 0,
            r@.workspace_filters.len() == 0,
            r@.exclude.len() == 0,
            !r@.workspace,
            r@.ignore_kinds == 0,
    {
        assert(mask_consistent(0u32)) by {
            assert forall|k: DepKind| #![trigger kind_flag(k)]
                (0u32 & (kind_flag(k) << 1u32) != 0 || 0u32 & (kind_flag(k) << 2u32) != 0)
                    implies 0u32 & kind_flag(k) != 0 by {
                let f = kind_flag(k);
                assert(0u32 & (f << 1u32) == 0 && 0u32 & (f << 2u32) == 0) by (bit_vector);
            }
        }
        let r = Builder {
            target_filters: Vec::new(),
            workspace_filters: Vec::new(),
            exclude: Vec::new(),
            workspace: false,
            ignore_kinds: 0,
        };
        proof {
            assert(r@.workspace_filters.len() == 0);
        }
        r
    }

    /// The mask of ignored dependency kinds records a scope only together
    /// with its kind.
    pub fn ignore_kinds_consistent(&self)
        ensures
            mask_consistent(self@.ignore_kinds),
    {
        proof {
            use_type_invariant(self);
        }
    }

    /// Ignores a specific dependency kind in the given scope.
    ///
    /// For example, ignoring the `Build` kind for `NonWorkspace` crates drops
    /// the link from a `-sys` crate to `cc`; if the same `cc` is not depended
    /// on by a crate in the workspace, `cc` will not end up in the final
    /// `Krates` graph.
    ///
    /// Note that ignoring `Dev` for `NonWorkspace` is meaningless as dev
    /// dependencies are not resolved by cargo for transitive dependencies.
    pub fn ignore_kind(&mut self, kind: DepKind, scope: Scope) -> (r: &mut Builder)
        ensures
            r@ == (BuilderModel {
                ignore_kinds: ignore_mask(old(self)@.ignore_kinds, kind, scope),
                ..old(self)@
            }),
            *final(self) == *final(r),
    {
        proof {
            use_type_invariant(&*self);
            ignore_kind_consistent(self.ignore_kinds, kind, scope);
        }
        let kind_flag: u32 = match kind {
            DepKind::Normal => 0x1,
            DepKind::Dev => 0x8,
            DepKind::Build => 0x40,
        };
        let scope_bits: u32 = match scope {
            Scope::Workspace => kind_flag << 1u32,
            Scope::NonWorkspace => kind_flag << 2u32,
            Scope::All => (kind_flag << 1u32) | (kind_flag << 2u32),
        };
        self.ignore_kinds = self.ignore_kinds | kind_flag | scope_bits;
        self
    }

    /// By default, the response from `cargo metadata` determines what the
    /// root(s) of the crate graph will be: the root crate the metadata names,
    /// if any, else every workspace member. Setting workspace = true instead
    /// includes all workspace crates (unless they are filtered via other
    /// methods) even if the manifest path is not a virtual manifest inside
    /// a workspace.
    pub fn workspace(&mut self, workspace: bool) -> (r: &mut Builder)
        ensures
            r@ == (BuilderModel { workspace, ..old(self)@ }),
            *final(self) == *final(r),
    {
        proof {
            use_type_invariant(&*self);
        }
        self.workspace = workspace;
        self
    }

    /// Package specification(s) to exclude from the final graph. Unlike with
    /// cargo, each exclusion spec can apply to more than 1 instance of a
    /// package, eg if multiple crates are sourced from the same url, or
    /// multiple versions of the same crate
    pub fn exclude(&mut self, exclude: Vec<PkgSpec>) -> (r: &mut Builder)
        ensures
            r@ == (BuilderModel {
                exclude: old(self)@.exclude + exclude@.map_values(|e: PkgSpec| e@),
                ..old(self)@
            }),
            *final(self) == *final(r),
    {
        proof {
            use_type_invariant(&*self);
        }
        let mut exclude = exclude;
        let ghost added = exclude@.map_values(|e: PkgSpec| e@);
        let mut all: Vec<PkgSpec> = Vec::new();
        std::mem::swap(&mut all, &mut self.exclude);
        all.append(&mut exclude);
        self.exclude = all;
        proof {
            assert(self.exclude@.map_values(|e: PkgSpec| e@) =~= old(self)@.exclude + added);
        }
        self
    }

    /// Only the workspace crates whose Cargo.toml path matches one of the
    /// specified paths will be added as root nodes. Each path is taken to
    /// name the `Cargo.toml` inside it unless it already ends with
    /// `Cargo.toml`. If only a single path is given, and it is the path of
    /// the workspace's own manifest, the graph is the same as if no path was
    /// given.
    pub fn include_workspace_crates(&mut self, crates: Vec<String>) -> (r: &mut Builder)
        ensures
            r@ == (BuilderModel {
                workspace_filters: old(self)@.workspace_filters + strs(crates@).map_values(
                    |p: Seq<char>| manifest_of(p),
                ),
                ..old(self)@
            }),
            *final(self) == *final(r),
    {
        proof {
            reveal_strlit("Cargo.toml");
            use_type_invariant(&*self);
        }
        let ghost before = strs(self.workspace_filters@);
        let mut i: usize = 0;
        while i < crates.len()
            invariant
                i <= crates@.len(),
                strs(self.workspace_filters@) == before + strs(crates@).map_values(
                    |p: Seq<char>| manifest_of(p),
                ).take(i as int),
                self.target_filters == old(self).target_filters,
                self.exclude == old(self).exclude,
                self.workspace == old(self).workspace,
                self.ignore_kinds == old(self).ignore_kinds,
                mask_consistent(self.ignore_kinds),
            decreases crates.len() - i,
        {
            let p = crates[i].as_str();
            let fixed = if paths::ends_with(p, "Cargo.toml") {
                p.to_string()
            } else {
                paths::join(p, "Cargo.toml")
            };
            let ghost prev = self.workspace_filters@;
            let mut all: Vec<String> = Vec::new();
            std::mem::swap(&mut all, &mut self.workspace_filters);
            all.push(fixed);
            self.workspace_filters = all;
            proof {
                assert(strs(self.workspace_filters@) =~= strs(prev).push(fixed@));
                assert(strs(crates@).map_values(|p: Seq<char>| manifest_of(p)).take(i + 1)
                    =~= strs(crates@).map_values(|p: Seq<char>| manifest_of(p)).take(
                    i as int,
                ).push(manifest_of(crates@[i as int]@)));
            }
            i += 1;
        }
        proof {
            assert(strs(crates@).map_values(|p: Seq<char>| manifest_of(p)).take(i as int)
                =~= strs(crates@).map_values(|p: Seq<char>| manifest_of(p)));
        }
        self
    }

    /// By default, cargo resolves all target specific dependencies. With this
    /// method one or more targets, each with the target features promised
    /// to be enabled for it, filter the dependencies: a target specific
    /// dependency stays in the graph if any of the targets matches it.
    ///
    /// Only builtin targets of rustc can be used to evaluate `cfg()`
    /// expressions. Another triple is only compared with the triples that
    /// `[target.<triple>.dependencies]` tables name.
    pub fn include_targets(&mut self, targets: Vec<(Target, Vec<String>)>) -> (r: &mut Builder)
        ensures
            r@ == (BuilderModel {
                target_filters: old(self)@.target_filters + targets@.map_values(
                    |t: (Target, Vec<String>)| (t.0@, strs(t.1@)),
                ),
                ..old(self)@
            }),
            *final(self) == *final(r),
    {
        proof {
            use_type_invariant(&*self);
        }
        let ghost before = self.target_filters@.map_values(|t: TargetFilter| t@);
        let ghost added = targets@.map_values(|t: (Target, Vec<String>)| (t.0@, strs(t.1@)));
        let mut targets = targets;
        let mut rev: Vec<TargetFilter> = Vec::new();
        while targets.len() > 0
            invariant
                rev@.len() + targets@.len() == added.len(),
                forall|k: int| 0 <= k < targets@.len() ==> (#[trigger] targets@[k]).0@ == added[k].0
                    && strs(targets@[k].1@) == added[k].1,
                forall|k: int| 0 <= k < rev@.len() ==> (#[trigger] rev@[k])@ == added[added.len() - 1 - k],
            decreases targets.len(),
        {
            let (inner, features) = targets.pop().unwrap();
            rev.push(TargetFilter { inner, features });
        }
        let mut i: usize = 0;
        let n: usize = rev.len();
        while rev.len() > 0
            invariant
                n == added.len(),
                rev@.len() + i == n,
                forall|k: int| 0 <= k < rev@.len() ==> (#[trigger] rev@[k])@ == added[n - 1 - k],
                self.target_filters@.map_values(|t: TargetFilter| t@) == before + added.take(i as int),
                self.workspace_filters == old(self).workspace_filters,
                self.exclude == old(self).exclude,
                self.workspace == old(self).workspace,
                self.ignore_kinds == old(self).ignore_kinds,
                mask_consistent(self.ignore_kinds),
            decreases rev.len(),
        {
            let t = rev.pop().unwrap();
            let ghost prev = self.target_filters@;
            let mut all: Vec<TargetFilter> = Vec::new();
            std::mem::swap(&mut all, &mut self.target_filters);
            all.push(t);
            self.target_filters = all;
            proof {
                assert(self.target_filters@.map_values(|t: TargetFilter| t@) =~= prev.map_values(
                    |t: TargetFilter| t@,
                ).push(added[i as int]));
                assert(added.take(i + 1) =~= added.take(i as int).push(added[i as int]));
            }
            i += 1;
        }
        proof {
            assert(added.take(i as int) =~= added);
        }
        self
    }
}

} // verus!

verus! {

/// A package id taken apart: the crate name, the version, and, for a git
/// source, the revision after the `#`.
#[derive(Debug)]
pub struct DecomposedRepr {
    pub name: String,
    pub version: String,
    pub rev: Option<String>,
}

impl View for DecomposedRepr {
    type V = (Seq<char>, Seq<char>, Option<Seq<char>>);

    open spec fn view(&self) -> (Seq<char>, Seq<char>, Option<Seq<char>>) {
        (self.name@, self.version@, opt_str(self.rev))
    }
}

/// The text after the first space.
pub open spec fn after_space(s: Seq<char>) -> Seq<char> {
    s.skip(find(s, " "@)->0 + 1)
}

/// The text up to the first space, or all of it where there is none.
pub open spec fn before_space(s: Seq<char>) -> Seq<char> {
    match find(s, " "@) {
        Some(i) => s.take(i),
        None => s,
    }
}

/// A package id has a name, a version and a source, separated by spaces.
pub open spec fn has_three_parts(id: Seq<char>) -> bool {
    find(id, " "@) is Some && find(after_space(id), " "@) is Some
}

/// The decomposition of a package id: its first two space-separated parts,
/// and, where the third begins with `(git+` and holds a `#`, what follows the
/// `#` in it.
pub open spec fn decompose(id: Seq<char>) -> (Seq<char>, Seq<char>, Option<Seq<char>>) {
    let src = before_space(after_space(after_space(id)));
    (
        before_space(id),
        before_space(after_space(id)),
        if starts_with(src, "(git+"@) && find(src, "#"@) is Some {
            Some(src.skip(find(src, "#"@)->0 + 1))
        } else {
            None
        },
    )
}

fn take_part(v: &Vec<char>) -> (r: (Vec<char>, Option<Vec<char>>))
    ensures
        r.0@ == before_space(v@),
        match r.1 {
            Some(rest) => find(v@, " "@) is Some && rest@ == after_space(v@),
            None => find(v@, " "@) is None,
        },
{
    proof {
        reveal_strlit(" ");
    }
    let n = v.len();
    let pat = pattern(" ");
    assert(pat@.len() == 1);
    match find_chars(v, &pat) {
        Some(i) => (slice(v, 0, i), Some(slice(v, i + 1, n))),
        None => (slice(v, 0, n), None),
    }
}

impl DecomposedRepr {
    /// Takes the package id apart.
    pub fn build(id: &PackageId) -> (r: DecomposedRepr)
        requires
            has_three_parts(id@),
        ensures
            r@ == decompose(id@),
    {
        proof {
            reveal_strlit(" ");
            reveal_strlit("(git+");
            reveal_strlit("#");
        }
        let v = chars_of(id.repr.as_str());
        let (name, rest) = take_part(&v);
        let rest = match rest {
            Some(r) => r,
            None => unreached(),
        };
        let (version, rest) = take_part(&rest);
        let rest = match rest {
            Some(r) => r,
            None => unreached(),
        };
        let (src, _) = take_part(&rest);
        let rev = if starts_with_chars(&src, &pattern("(git+")) {
            let n = src.len();
            let pat = pattern("#");
            assert(pat@.len() == 1);
            match find_chars(&src, &pat) {
                Some(i) => Some(substring(&src, i + 1, n)),
                None => None,
            }
        } else {
            None
        };
        let name = string_from(name.as_slice());
        let version = string_from(version.as_slice());
        proof {
            assert(v@ == id@);
        }
        DecomposedRepr { name, version, rev }
    }

    /// Whether the two decompositions are equal.
    pub fn same(&self, other: &DecomposedRepr) -> (r: bool)
        ensures
            r == (self@ == other@),
    {
        str_eq(self.name.as_str(), other.name.as_str()) && str_eq(
            self.version.as_str(),
            other.version.as_str(),
        ) && match (&self.rev, &other.rev) {
            (Some(a), Some(b)) => str_eq(a.as_str(), b.as_str()),
            (None, None) => true,
            _ => false,
        }
    }
}

impl PartialEq for DecomposedRepr {
    fn eq(&self, other: &Self) -> (r: bool) {
        self.same(other)
    }
}

impl vstd::std_specs::cmp::PartialEqSpecImpl for DecomposedRepr {
    open spec fn obeys_eq_spec() -> bool {
        true
    }

    open spec fn eq_spec(&self, other: &Self) -> bool {
        self@ == other@
    }
}

impl Eq for DecomposedRepr {
}

} // verus!

verus! {

impl Builder {
    /// Whether every exclusion can be matched against every package of the
    /// metadata (see [`exclusions_defined`]), which building a graph out of
    /// it needs.
    pub fn exclusions_are_defined(&self, md: &Metadata) -> (r: bool)
        ensures
            r == exclusions_defined(self@, *md),
    {
        let mut j: usize = 0;
        while j < self.exclude.len()
            invariant
                j <= self.exclude@.len(),
                forall|a: int, c: int|
                    0 <= a < j && 0 <= c < md.packages@.len() ==> source_url_defined(
                        #[trigger] self@.exclude[a],
                        #[trigger] md.packages@[c],
                    ),
            decreases self.exclude.len() - j,
        {
            let mut k: usize = 0;
            while k < md.packages.len()
                invariant
                    j < self.exclude@.len(),
                    k <= md.packages@.len(),
                    forall|a: int, c: int|
                        0 <= a < j && 0 <= c < md.packages@.len() ==> source_url_defined(
                            #[trigger] self@.exclude[a],
                            #[trigger] md.packages@[c],
                        ),
                    forall|c: int| 0 <= c < k ==> source_url_defined(self@.exclude[j as int], #[trigger] md.packages@[c]),
                decreases md.packages.len() - k,
            {
                assert(self@.exclude[j as int] == self.exclude@[j as int]@);
                if !self.exclude[j].can_match(&md.packages[k]) {
                    return false;
                }
                k += 1;
            }
            j += 1;
        }
        true
    }

    /// Builds a [`Krates`] graph using the specified metadata, reporting each
    /// package that is left out of the graph to `on_filter`, in the order of
    /// the package ids.
    ///
    /// The metadata **must** have resolved dependencies for the graph to be
    /// built, and at least one crate must be reached.
    ///
    /// The crates of the graph are those reached from the roots (see
    /// [`root_ids`]) through the dependencies that stay (see [`edge_kept`]),
    /// leaving out the crates an exclusion matches. A crate of the graph has
    /// an edge to each feature of a dependency that one of its links
    /// enables, to the dependency itself where a link enables no feature,
    /// each carrying the link's kind and target, and its features are
    /// linked to the crate and to what they enable. The graph is built out
    /// of the metadata with each resolved node paired with its package (see
    /// [`align_ids`]). The packages reported to `on_filter` are those
    /// [`Builder::build_reporting`] gives.
    pub fn build_with_metadata<N: From<Package>, E: From<Edge>, F: OnFilter>(
        self,
        md: Metadata,
        on_filter: F,
    ) -> (r: Result<Krates<N, E>, Error>)
        requires
            metadata_consistent(md),
            md.resolve is Some ==> exclusions_defined(self@, md),
        ensures
            exists|md2: Metadata| aligned(md, md2) && metadata_exact(md2) && #[trigger] build_outcome(self@, md2, r),
    {
        let mut on_filter = on_filter;
        let (r, left) = self.build_reporting(md);
        let mut rest = left;
        let mut rev: Vec<Package> = Vec::new();
        while rest.len() > 0
            decreases rest.len(),
        {
            let p = rest.pop().unwrap();
            rev.push(p);
        }
        while rev.len() > 0
            decreases rev.len(),
        {
            let p = rev.pop().unwrap();
            on_filter.filtered(p);
        }
        r
    }

    /// Builds a [`Krates`] graph as [`Builder::build_with_metadata`] does,
    /// and gives the packages it reports to its filter: none where building
    /// fails, otherwise each package that is not reached, once, in the order
    /// of the package ids (see [`reported`]).
    pub fn build_reporting<N: From<Package>, E: From<Edge>>(self, md: Metadata) -> (r: (
        Result<Krates<N, E>, Error>,
        Vec<Package>,
    ))
        requires
            metadata_consistent(md),
            md.resolve is Some ==> exclusions_defined(self@, md),
        ensures
            exists|md2: Metadata|
                aligned(md, md2) && metadata_exact(md2) && #[trigger] build_outcome(self@, md2, r.0) && reported(
                    self@,
                    md2,
                    r.0 is Ok,
                    r.1@,
                ),
    {
        let ghost model = self@;
        let ghost md0 = md;
        let md = align_ids(md);
        proof {
            lemma_aligned_exact(md0, md);
        }
        let Builder { target_filters, workspace_filters, exclude, workspace, ignore_kinds } = self;
        proof {
            assert(model == builder_model(
                target_filters@,
                workspace_filters@,
                exclude@,
                workspace,
                ignore_kinds,
            ));
        }
        let ghost md2 = md;
        let r = build_graph(target_filters, workspace_filters, exclude, workspace, ignore_kinds, md);
        proof {
            assert(aligned(md0, md2) && metadata_exact(md2) && build_outcome(model, md2, r.0) && reported(
                model,
                md2,
                r.0 is Ok,
                r.1@,
            ));
        }
        r
    }
}

} // verus!
