use vstd::prelude::*;

verus! {

/// Metadata for one package: its identity, an opaque version token, the names
/// of its direct dependencies, and the destination paths of the files it owns.
pub struct Package {
    pub name: String,
    pub version: String,
    pub deps: Vec<String>,
    pub files: Vec<String>,
}

/// Mathematical image of a `Package`.
pub struct PackageV {
    pub name: Seq<char>,
    pub version: Seq<char>,
    pub deps: Seq<Seq<char>>,
    pub files: Seq<Seq<char>>,
}

impl View for Package {
    type V = PackageV;

    open spec fn view(&self) -> PackageV {
        PackageV {
            name: self.name@,
            version: self.version@,
            deps: self.deps.deep_view(),
            files: self.files.deep_view(),
        }
    }
}

impl DeepView for Package {
    type V = PackageV;

    open spec fn deep_view(&self) -> PackageV {
        self.view()
    }
}

impl Clone for Package {
    fn clone(&self) -> (r: Self)
        ensures
            r@ == self@,
    {
        Package {
            name: self.name.clone(),
            version: self.version.clone(),
            deps: self.deps.clone(),
            files: self.files.clone(),
        }
    }
}

/// Record of one installed package: what was installed, at which version,
/// which dependency edges were recorded at install time, and which files it owns.
pub struct InstalledEntry {
    pub name: String,
    pub version: String,
    pub deps: Vec<String>,
    pub files: Vec<String>,
}

/// Mathematical image of an `InstalledEntry`.
pub struct EntryV {
    pub name: Seq<char>,
    pub version: Seq<char>,
    pub deps: Seq<Seq<char>>,
    pub files: Seq<Seq<char>>,
}

impl View for InstalledEntry {
    type V = EntryV;

    open spec fn view(&self) -> EntryV {
        EntryV {
            name: self.name@,
            version: self.version@,
            deps: self.deps.deep_view(),
            files: self.files.deep_view(),
        }
    }
}

impl DeepView for InstalledEntry {
    type V = EntryV;

    open spec fn deep_view(&self) -> EntryV {
        self.view()
    }
}

impl Clone for InstalledEntry {
    fn clone(&self) -> (r: Self)
        ensures
            r@ == self@,
    {
        InstalledEntry {
            name: self.name.clone(),
            version: self.version.clone(),
            deps: self.deps.clone(),
            files: self.files.clone(),
        }
    }
}

/// One step of a plan, in execution order.
pub enum PlanStep {
    /// Place a package that is not currently installed.
    Install { pkg: Package },
    /// Replace an installed package whose recorded version differs.
    Upgrade { pkg: Package },
    /// Unlink an installed package.
    Remove { name: String },
}

/// Mathematical image of a `PlanStep`.
pub enum PlanStepV {
    Install { pkg: PackageV },
    Upgrade { pkg: PackageV },
    Remove { name: Seq<char> },
}

impl View for PlanStep {
    type V = PlanStepV;

    open spec fn view(&self) -> PlanStepV {
        match self {
            PlanStep::Install { pkg } => PlanStepV::Install { pkg: pkg@ },
            PlanStep::Upgrade { pkg } => PlanStepV::Upgrade { pkg: pkg@ },
            PlanStep::Remove { name } => PlanStepV::Remove { name: name@ },
        }
    }
}

impl DeepView for PlanStep {
    type V = PlanStepV;

    open spec fn deep_view(&self) -> PlanStepV {
        self.view()
    }
}

impl Clone for PlanStep {
    fn clone(&self) -> (r: Self)
        ensures
            r@ == self@,
    {
        match self {
            PlanStep::Install { pkg } => PlanStep::Install { pkg: pkg.clone() },
            PlanStep::Upgrade { pkg } => PlanStep::Upgrade { pkg: pkg.clone() },
            PlanStep::Remove { name } => PlanStep::Remove { name: name.clone() },
        }
    }
}

/// The package a step speaks of.
pub open spec fn step_name(s: PlanStepV) -> Seq<char> {
    match s {
        PlanStepV::Install { pkg } => pkg.name,
        PlanStepV::Upgrade { pkg } => pkg.name,
        PlanStepV::Remove { name } => name,
    }
}

/// Why a request could not be turned into a plan.
#[derive(Debug)]
pub enum ResolutionError {
    /// A package in the dependency closure is absent from the metadata store.
    UnknownPackage { name: String },
    /// The dependency closure contains a cycle; every package named in `path`
    /// has a dependency that is itself named in `path`.
    CyclicDependency { path: Vec<String> },
    /// Two packages claim the same destination file.
    FileConflict { path: String, package_a: String, package_b: String },
    /// A removal was requested for a package that is not installed.
    NotInstalled { name: String },
    /// Installed packages outside the request still depend on a requested package.
    DependentsExist { names: Vec<String> },
}

// ---------------------------------------------------------------------------
// Spec-level lookup and graph predicates.
// ---------------------------------------------------------------------------

/// Whether a sequence of names contains the given name.
pub open spec fn name_in(names: Seq<Seq<char>>, name: Seq<char>) -> bool {
    exists|i: int| 0 <= i < names.len() && names[i] == name
}

/// Pairwise-distinct names.
pub open spec fn names_distinct(names: Seq<Seq<char>>) -> bool {
    forall|i: int, j: int| 0 <= i < j < names.len() ==> names[i] != names[j]
}

/// Whether the store holds a package of this name.
pub open spec fn store_has(store: Seq<PackageV>, n: Seq<char>) -> bool {
    exists|i: int| 0 <= i < store.len() && store[i].name == n
}

/// Index of the package of this name in the store.
pub open spec fn store_idx(store: Seq<PackageV>, n: Seq<char>) -> int {
    choose|i: int| 0 <= i < store.len() && store[i].name == n
}

/// The store's package of this name.
pub open spec fn store_at(store: Seq<PackageV>, n: Seq<char>) -> PackageV {
    store[store_idx(store, n)]
}

/// Whether the registry holds an entry of this name.
pub open spec fn reg_has(reg: Seq<EntryV>, n: Seq<char>) -> bool {
    exists|i: int| 0 <= i < reg.len() && reg[i].name == n
}

/// Index of the entry of this name in the registry.
pub open spec fn reg_idx(reg: Seq<EntryV>, n: Seq<char>) -> int {
    choose|i: int| 0 <= i < reg.len() && reg[i].name == n
}

/// The registry's entry of this name.
pub open spec fn reg_at(reg: Seq<EntryV>, n: Seq<char>) -> EntryV {
    reg[reg_idx(reg, n)]
}

/// A package that resolution may leave untouched: it is installed, and either
/// the store offers no other version or the installed version is the offered one.
pub open spec fn settled(store: Seq<PackageV>, reg: Seq<EntryV>, n: Seq<char>) -> bool {
    reg_has(reg, n) && (store_has(store, n) ==> reg_at(reg, n).version == store_at(store, n).version)
}

/// A dependency path for an install request: it starts at a requested name,
/// every package on it needs work (is not settled), and each link follows a
/// direct dependency recorded in the store.
pub open spec fn is_dep_path(
    store: Seq<PackageV>,
    reg: Seq<EntryV>,
    req: Seq<Seq<char>>,
    p: Seq<Seq<char>>,
) -> bool {
    &&& p.len() >= 1
    &&& name_in(req, p[0])
    &&& forall|i: int| 0 <= i < p.len() ==> !settled(store, reg, #[trigger] p[i])
    &&& forall|i: int|
        0 <= i < p.len() - 1 ==> store_has(store, #[trigger] p[i]) && name_in(
            store_at(store, p[i]).deps,
            p[i + 1],
        )
}

/// The dependency closure of an install request: everything a dependency path
/// reaches.
pub open spec fn in_closure(
    store: Seq<PackageV>,
    reg: Seq<EntryV>,
    req: Seq<Seq<char>>,
    n: Seq<char>,
) -> bool {
    exists|p: Seq<Seq<char>>| is_dep_path(store, reg, req, p) && p.last() == n
}

/// A chain of recorded dependency edges inside the registry, leading from an
/// installed package down to `to`.
pub open spec fn is_reg_path(reg: Seq<EntryV>, p: Seq<Seq<char>>) -> bool {
    &&& p.len() >= 1
    &&& forall|i: int| 0 <= i < p.len() ==> reg_has(reg, #[trigger] p[i])
    &&& forall|i: int|
        0 <= i < p.len() - 1 ==> name_in(reg_at(reg, #[trigger] p[i]).deps, p[i + 1])
}

/// Whether installed package `x` depends, directly or transitively, on `to`,
/// per the registry's recorded edges.
pub open spec fn reg_depends_on(reg: Seq<EntryV>, x: Seq<char>, to: Seq<char>) -> bool {
    exists|p: Seq<Seq<char>>|
        is_reg_path(reg, p) && p.len() >= 2 && p[0] == x && p.last() == to
}

/// No destination path occurs in both file lists.
pub open spec fn files_disjoint(a: Seq<Seq<char>>, b: Seq<Seq<char>>) -> bool {
    forall|f: Seq<char>| name_in(a, f) ==> !name_in(b, f)
}

} // verus!
