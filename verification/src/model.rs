use vstd::prelude::*;
use crate::paths::{keys, path_key, path_key_of};
use crate::text::{own, vec_eq, chars_of, vviews};

verus! {

/// A named group of package files declared in the manifest.
pub struct ComponentSpec {
    pub name: String,
    pub priority: String,
    pub files: Vec<String>,
    pub description: String,
}

/// The priority of a component that declares none.
pub fn default_priority() -> (r: String)
    ensures
        r@ == "optional"@,
{
    own("optional")
}

/// A service declared in the manifest.
pub struct ServiceSpec {
    pub name: String,
    pub command: String,
    pub requires: String,
    pub restart: String,
    pub description: String,
}

/// The restart policy of a service that declares none.
pub fn default_restart() -> (r: String)
    ensures
        r@ == "on-failure"@,
{
    own("on-failure")
}

/// A dependency declared in the manifest, with or without a version.
pub enum DependencyEntry {
    Simple(String),
    Versioned { name: String, version: String },
}

/// One package recipe of a manifest. `links` maps link targets to link
/// paths, in the order the manifest gives them.
pub struct Package {
    pub name: String,
    pub version: String,
    pub source: String,
    pub build_type: String,
    pub build: Vec<String>,
    pub install: Vec<String>,
    pub dependencies: Option<Vec<DependencyEntry>>,
    pub links: Option<Vec<(String, String)>>,
    pub arch: String,
    pub components: Option<Vec<ComponentSpec>>,
    pub services: Option<Vec<ServiceSpec>>,
    pub binaries: Option<Vec<String>>,
    /// Expected SHA-256 of the downloaded source archive.
    pub sha256: Option<String>,
}

/// The architecture of a package that declares none.
pub fn default_arch() -> (r: String)
    ensures
        r@ == "native"@,
{
    own("native")
}

/// A dependency of a built package and how it was discovered.
pub struct Dependency {
    pub name: String,
    pub dep_type: String,
    pub libraries: Option<Vec<String>>,
}

/// A digest of a package: its algorithm and its lowercase hex value.
pub struct Checksum {
    pub kind: String,
    pub value: String,
}

/// Where and how a package was built.
pub struct PackageProvenance {
    pub source_type: String,
    pub source_url: String,
    pub source_revision: Option<String>,
    pub built_at: String,
    pub builder: String,
}

/// The metadata of a built package, as written to `metadata.json` and listed
/// in the repository index. `files` are paths relative to the package root.
pub struct PackageMetadata {
    pub pkg_name: String,
    pub version: String,
    pub license: String,
    pub source: String,
    pub arch: String,
    pub checksum: Checksum,
    pub dependencies: Vec<Dependency>,
    pub files: Vec<String>,
    pub provides: Option<Vec<String>>,
    pub conflicts: Option<Vec<String>>,
    pub components: Vec<Component>,
    pub services: Vec<ServiceDecl>,
    pub binaries: Vec<String>,
    pub provenance: Option<PackageProvenance>,
}

/// A component of a built package and the files it owns.
pub struct Component {
    pub name: String,
    pub priority: String,
    pub files: Vec<String>,
    pub dependencies: Vec<ComponentDep>,
    pub description: String,
}

pub struct ComponentDep {
    pub package: String,
    pub component: String,
}

/// A service of a built package.
pub struct ServiceDecl {
    pub name: String,
    pub command: String,
    pub requires: String,
    pub restart: String,
    pub description: String,
    pub environment: Vec<(String, String)>,
    pub working_directory: String,
    pub socket: Option<String>,
}

/// A manifest: the packages to build, in order.
pub struct Manifest {
    pub packages: Vec<Package>,
}

// ── Equality over contents ───────────────────────────────────────────────

pub open spec fn strs(v: Seq<String>) -> Seq<Seq<char>> {
    v.map_values(|s: String| s@)
}

pub open spec fn opt_str(o: Option<String>) -> Option<Seq<char>> {
    match o {
        Some(s) => Some(s@),
        None => None,
    }
}

pub open spec fn opt_strs(o: Option<Vec<String>>) -> Option<Seq<Seq<char>>> {
    match o {
        Some(v) => Some(strs(v@)),
        None => None,
    }
}

pub open spec fn pairs(v: Seq<(String, String)>) -> Seq<(Seq<char>, Seq<char>)> {
    v.map_values(|p: (String, String)| (p.0@, p.1@))
}

pub open spec fn same_dependency(a: Dependency, b: Dependency) -> bool {
    a.name@ == b.name@ && a.dep_type@ == b.dep_type@ && opt_strs(a.libraries) == opt_strs(b.libraries)
}

pub open spec fn same_checksum(a: Checksum, b: Checksum) -> bool {
    a.kind@ == b.kind@ && a.value@ == b.value@
}

pub open spec fn same_component_dep(a: ComponentDep, b: ComponentDep) -> bool {
    a.package@ == b.package@ && a.component@ == b.component@
}

pub open spec fn same_component(a: Component, b: Component) -> bool {
    &&& a.name@ == b.name@
    &&& a.priority@ == b.priority@
    &&& keys(a.files@) == keys(b.files@)
    &&& a.dependencies@.len() == b.dependencies@.len()
    &&& forall|i: int| 0 <= i < a.dependencies@.len() ==> same_component_dep(#[trigger] a.dependencies@[i], b.dependencies@[i])
    &&& a.description@ == b.description@
}

pub open spec fn same_service(a: ServiceDecl, b: ServiceDecl) -> bool {
    &&& a.name@ == b.name@
    &&& a.command@ == b.command@
    &&& a.requires@ == b.requires@
    &&& a.restart@ == b.restart@
    &&& a.description@ == b.description@
    &&& pairs(a.environment@).to_set() == pairs(b.environment@).to_set()
    &&& a.working_directory@ == b.working_directory@
    &&& opt_str(a.socket) == opt_str(b.socket)
}

pub open spec fn same_provenance(a: Option<PackageProvenance>, b: Option<PackageProvenance>) -> bool {
    match (a, b) {
        (None, None) => true,
        (Some(x), Some(y)) => {
            &&& x.source_type@ == y.source_type@
            &&& x.source_url@ == y.source_url@
            &&& opt_str(x.source_revision) == opt_str(y.source_revision)
            &&& x.built_at@ == y.built_at@
            &&& x.builder@ == y.builder@
        },
        _ => false,
    }
}

/// Two metadata records hold the same contents.
pub open spec fn same_metadata(a: PackageMetadata, b: PackageMetadata) -> bool {
    &&& a.pkg_name@ == b.pkg_name@
    &&& a.version@ == b.version@
    &&& a.license@ == b.license@
    &&& a.source@ == b.source@
    &&& a.arch@ == b.arch@
    &&& same_checksum(a.checksum, b.checksum)
    &&& a.dependencies@.len() == b.dependencies@.len()
    &&& forall|i: int| 0 <= i < a.dependencies@.len() ==> same_dependency(#[trigger] a.dependencies@[i], b.dependencies@[i])
    &&& keys(a.files@) == keys(b.files@)
    &&& opt_strs(a.provides) == opt_strs(b.provides)
    &&& opt_strs(a.conflicts) == opt_strs(b.conflicts)
    &&& a.components@.len() == b.components@.len()
    &&& forall|i: int| 0 <= i < a.components@.len() ==> same_component(#[trigger] a.components@[i], b.components@[i])
    &&& a.services@.len() == b.services@.len()
    &&& forall|i: int| 0 <= i < a.services@.len() ==> same_service(#[trigger] a.services@[i], b.services@[i])
    &&& strs(a.binaries@) == strs(b.binaries@)
    &&& same_provenance(a.provenance, b.provenance)
}

pub fn str_eq(a: &String, b: &String) -> (r: bool)
    ensures
        r == (a@ == b@),
{
    vec_eq(&chars_of(a.as_str()), &chars_of(b.as_str()))
}

pub fn strs_eq(a: &Vec<String>, b: &Vec<String>) -> (r: bool)
    ensures
        r == (strs(a@) == strs(b@)),
{
    if a.len() != b.len() {
        assert(strs(a@).len() != strs(b@).len());
        return false;
    }
    let mut i: usize = 0;
    while i < a.len()
        invariant
            a.len() == b.len(),
            i <= a.len(),
            forall|j: int| 0 <= j < i ==> a@[j]@ == b@[j]@,
        decreases a.len() - i,
    {
        if !str_eq(&a[i], &b[i]) {
            assert(strs(a@)[i as int] != strs(b@)[i as int]);
            return false;
        }
        i = i + 1;
    }
    assert(strs(a@) =~= strs(b@));
    true
}

pub fn opt_str_eq(a: &Option<String>, b: &Option<String>) -> (r: bool)
    ensures
        r == (opt_str(*a) == opt_str(*b)),
{
    match (a, b) {
        (Some(x), Some(y)) => str_eq(x, y),
        (None, None) => true,
        _ => false,
    }
}

pub fn opt_strs_eq(a: &Option<Vec<String>>, b: &Option<Vec<String>>) -> (r: bool)
    ensures
        r == (opt_strs(*a) == opt_strs(*b)),
{
    match (a, b) {
        (Some(x), Some(y)) => strs_eq(x, y),
        (None, None) => true,
        _ => false,
    }
}

fn has_pair(v: &Vec<(String, String)>, x: &(String, String)) -> (r: bool)
    ensures
        r == pairs(v@).contains((x.0@, x.1@)),
{
    let mut i: usize = 0;
    while i < v.len()
        invariant
            i <= v.len(),
            forall|k: int| 0 <= k < i ==> pairs(v@)[k] != (x.0@, x.1@),
        decreases v.len() - i,
    {
        assert(pairs(v@)[i as int] == (v@[i as int].0@, v@[i as int].1@));
        if str_eq(&v[i].0, &x.0) && str_eq(&v[i].1, &x.1) {
            return true;
        }
        i = i + 1;
    }
    false
}

fn all_in(a: &Vec<(String, String)>, b: &Vec<(String, String)>) -> (r: bool)
    ensures
        r == (forall|e: (Seq<char>, Seq<char>)| pairs(a@).contains(e) ==> pairs(b@).contains(e)),
{
    let mut i: usize = 0;
    while i < a.len()
        invariant
            i <= a.len(),
            forall|k: int| 0 <= k < i ==> pairs(b@).contains(#[trigger] pairs(a@)[k]),
        decreases a.len() - i,
    {
        assert(pairs(a@)[i as int] == (a@[i as int].0@, a@[i as int].1@));
        if !has_pair(b, &a[i]) {
            return false;
        }
        i = i + 1;
    }
    assert forall|e: (Seq<char>, Seq<char>)| pairs(a@).contains(e) implies pairs(b@).contains(e) by {
        let k = choose|k: int| 0 <= k < pairs(a@).len() && pairs(a@)[k] == e;
    }
    true
}

/// Whether `a` and `b` hold the same pairs, in any order (the equality of
/// maps with distinct keys).
fn pair_sets_eq(a: &Vec<(String, String)>, b: &Vec<(String, String)>) -> (r: bool)
    ensures
        r == (pairs(a@).to_set() == pairs(b@).to_set()),
{
    let x = all_in(a, b);
    let y = all_in(b, a);
    proof {
        if x && y {
            assert(pairs(a@).to_set() =~= pairs(b@).to_set());
        }
        if pairs(a@).to_set() == pairs(b@).to_set() {
            assert forall|e: (Seq<char>, Seq<char>)| pairs(a@).contains(e) implies pairs(b@).contains(e) by {
                assert(pairs(a@).to_set().contains(e));
            }
            assert forall|e: (Seq<char>, Seq<char>)| pairs(b@).contains(e) implies pairs(a@).contains(e) by {
                assert(pairs(b@).to_set().contains(e));
            }
        }
    }
    x && y
}

pub(crate) fn chars_eq_all(x: &Vec<Vec<char>>, y: &Vec<Vec<char>>) -> (r: bool)
    ensures
        r == (vviews(x@) == vviews(y@)),
{
    if x.len() != y.len() {
        assert(vviews(x@).len() != vviews(y@).len());
        return false;
    }
    let mut i: usize = 0;
    while i < x.len()
        invariant
            x.len() == y.len(),
            i <= x.len(),
            forall|k: int| 0 <= k < i ==> x@[k]@ == y@[k]@,
        decreases x.len() - i,
    {
        if !vec_eq(&x[i], &y[i]) {
            assert(vviews(x@)[i as int] != vviews(y@)[i as int]);
            return false;
        }
        i = i + 1;
    }
    assert(vviews(x@) =~= vviews(y@));
    true
}

/// Whether two path lists name the same paths, in the same order, as
/// `PathBuf` equality sees them.
fn paths_eq(a: &Vec<String>, b: &Vec<String>) -> (r: bool)
    ensures
        r == (keys(a@) == keys(b@)),
{
    if a.len() != b.len() {
        assert(keys(a@).len() != keys(b@).len());
        return false;
    }
    let mut i: usize = 0;
    while i < a.len()
        invariant
            a.len() == b.len(),
            i <= a.len(),
            forall|k: int| 0 <= k < i ==> path_key(a@[k]@) == path_key(b@[k]@),
        decreases a.len() - i,
    {
        if !chars_eq_all(&path_key_of(a[i].as_str()), &path_key_of(b[i].as_str())) {
            assert(keys(a@)[i as int] != keys(b@)[i as int]);
            return false;
        }
        i = i + 1;
    }
    assert(keys(a@) =~= keys(b@));
    true
}

fn component_eq(a: &Component, b: &Component) -> (r: bool)
    ensures
        r == same_component(*a, *b),
{
    if !str_eq(&a.name, &b.name) || !str_eq(&a.priority, &b.priority) || !paths_eq(&a.files, &b.files)
        || !str_eq(&a.description, &b.description) || a.dependencies.len() != b.dependencies.len() {
        return false;
    }
    let mut i: usize = 0;
    while i < a.dependencies.len()
        invariant
            a.dependencies.len() == b.dependencies.len(),
            i <= a.dependencies.len(),
            forall|j: int| 0 <= j < i ==> same_component_dep(#[trigger] a.dependencies@[j], b.dependencies@[j]),
        decreases a.dependencies.len() - i,
    {
        if !str_eq(&a.dependencies[i].package, &b.dependencies[i].package) || !str_eq(
            &a.dependencies[i].component,
            &b.dependencies[i].component,
        ) {
            return false;
        }
        assert(same_component_dep(a.dependencies@[i as int], b.dependencies@[i as int]));
        i = i + 1;
    }
    true
}

fn service_eq(a: &ServiceDecl, b: &ServiceDecl) -> (r: bool)
    ensures
        r == same_service(*a, *b),
{
    str_eq(&a.name, &b.name) && str_eq(&a.command, &b.command) && str_eq(&a.requires, &b.requires)
        && str_eq(&a.restart, &b.restart) && str_eq(&a.description, &b.description) && pair_sets_eq(
        &a.environment,
        &b.environment,
    ) && str_eq(&a.working_directory, &b.working_directory) && opt_str_eq(&a.socket, &b.socket)
}

fn provenance_eq(a: &Option<PackageProvenance>, b: &Option<PackageProvenance>) -> (r: bool)
    ensures
        r == same_provenance(*a, *b),
{
    match (a, b) {
        (None, None) => true,
        (Some(x), Some(y)) => str_eq(&x.source_type, &y.source_type) && str_eq(
            &x.source_url,
            &y.source_url,
        ) && opt_str_eq(&x.source_revision, &y.source_revision) && str_eq(
            &x.built_at,
            &y.built_at,
        ) && str_eq(&x.builder, &y.builder),
        _ => false,
    }
}

/// Whether two metadata records hold the same contents.
pub fn metadata_eq(a: &PackageMetadata, b: &PackageMetadata) -> (r: bool)
    ensures
        r == same_metadata(*a, *b),
{
    if !(str_eq(&a.pkg_name, &b.pkg_name) && str_eq(&a.version, &b.version) && str_eq(
        &a.license,
        &b.license,
    ) && str_eq(&a.source, &b.source) && str_eq(&a.arch, &b.arch) && str_eq(
        &a.checksum.kind,
        &b.checksum.kind,
    ) && str_eq(&a.checksum.value, &b.checksum.value) && paths_eq(&a.files, &b.files)
        && opt_strs_eq(&a.provides, &b.provides) && opt_strs_eq(&a.conflicts, &b.conflicts)
        && strs_eq(&a.binaries, &b.binaries) && provenance_eq(&a.provenance, &b.provenance)) {
        return false;
    }
    if a.dependencies.len() != b.dependencies.len() || a.components.len() != b.components.len()
        || a.services.len() != b.services.len() {
        return false;
    }
    let mut i: usize = 0;
    while i < a.dependencies.len()
        invariant
            a.dependencies.len() == b.dependencies.len(),
            i <= a.dependencies.len(),
            forall|j: int| 0 <= j < i ==> same_dependency(#[trigger] a.dependencies@[j], b.dependencies@[j]),
        decreases a.dependencies.len() - i,
    {
        let x = &a.dependencies[i];
        let y = &b.dependencies[i];
        if !(str_eq(&x.name, &y.name) && str_eq(&x.dep_type, &y.dep_type) && opt_strs_eq(
            &x.libraries,
            &y.libraries,
        )) {
            return false;
        }
        i = i + 1;
    }
    let mut i: usize = 0;
    while i < a.components.len()
        invariant
            a.components.len() == b.components.len(),
            i <= a.components.len(),
            forall|j: int| 0 <= j < i ==> same_component(#[trigger] a.components@[j], b.components@[j]),
        decreases a.components.len() - i,
    {
        if !component_eq(&a.components[i], &b.components[i]) {
            return false;
        }
        i = i + 1;
    }
    let mut i: usize = 0;
    while i < a.services.len()
        invariant
            a.services.len() == b.services.len(),
            i <= a.services.len(),
            forall|j: int| 0 <= j < i ==> same_service(#[trigger] a.services@[j], b.services@[j]),
        decreases a.services.len() - i,
    {
        if !service_eq(&a.services[i], &b.services[i]) {
            return false;
        }
        i = i + 1;
    }
    true
}

} // verus!
