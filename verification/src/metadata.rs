use vstd::prelude::*;
use crate::components::{assign_components, expected_components, stably_sorted};
use crate::model::{
    Checksum, Component, Dependency, Package, PackageMetadata, PackageProvenance, ServiceDecl,
    ServiceSpec, strs,
};
use crate::naming::{detect_source_type, source_type_of};
use crate::order::{sort_dedup, sorted_of, views};
use crate::outside::utf8_to_string;
use crate::pipeline::{InvalidHashType, first_of_kind, hash_type, select_checksum};
use crate::outside::unicode_lowercase;
use crate::text::{append, chars_of, ends, has_sub, lit, own, string_of, trim, trimmed};
use vstd::utf8::{decode_utf8, valid_utf8};

verus! {

// ── Where a package came from ───────────────────────────────────────────

/// Whether the source revision is asked of git: for a git source with a
/// source directory.
pub fn wants_revision(source: &str, src_dir: &str) -> (r: bool)
    ensures
        r == (source_type_of(source@) == "git"@ && src_dir@.len() > 0),
{
    let t = detect_source_type(source);
    crate::text::vec_eq(&chars_of(t.as_str()), &lit("git")) && chars_of(src_dir).len() > 0
}

/// The revision `git rev-parse HEAD` printed: its output, trimmed, when it
/// succeeded and printed UTF-8.
pub fn revision_from(succeeded: bool, stdout: &[u8]) -> (r: Option<String>)
    ensures
        !succeeded ==> r is None,
        succeeded && !valid_utf8(stdout@) ==> r is None,
        succeeded && valid_utf8(stdout@) ==> (r matches Some(s) && s@ == trim(decode_utf8(stdout@))),
{
    if !succeeded {
        return None;
    }
    match utf8_to_string(stdout) {
        Some(s) => Some(string_of(&trimmed(&chars_of(s.as_str())))),
        None => None,
    }
}

/// The provenance record of a package built from `source`: its kind, the
/// source itself, the revision, the build time and the builder
/// (`ous-<version>`).
pub fn provenance(source: &str, revision: Option<String>, built_at: String, builder_version: &str) -> (r: PackageProvenance)
    ensures
        r.source_type@ == source_type_of(source@),
        r.source_url@ == source@,
        r.source_revision == revision,
        r.built_at == built_at,
        r.builder@ == "ous-"@ + builder_version@,
{
    let mut b = lit("ous-");
    append(&mut b, &chars_of(builder_version));
    PackageProvenance {
        source_type: detect_source_type(source),
        source_url: own(source),
        source_revision: revision,
        built_at,
        builder: string_of(&b),
    }
}

// ── Metadata ────────────────────────────────────────────────────────────

/// Why metadata cannot be written.
pub enum MetadataError {
    HashType(InvalidHashType),
    /// No checksum was computed for the package.
    NoChecksum,
}

/// A declared service as the metadata lists it: same name, command,
/// requirements, restart policy and description; no environment, working
/// directory or socket.
pub open spec fn service_decl_of(s: ServiceSpec, d: ServiceDecl) -> bool {
    &&& d.name@ == s.name@
    &&& d.command@ == s.command@
    &&& d.requires@ == s.requires@
    &&& d.restart@ == s.restart@
    &&& d.description@ == s.description@
    &&& d.environment@.len() == 0
    &&& d.working_directory@.len() == 0
    &&& d.socket is None
}

pub open spec fn declared_services(s: Option<Vec<ServiceSpec>>) -> Seq<ServiceSpec> {
    match s {
        Some(v) => v@,
        None => Seq::empty(),
    }
}

/// The services of the metadata of `pkg`.
pub fn services(pkg: &Package) -> (r: Vec<ServiceDecl>)
    ensures
        r@.len() == declared_services(pkg.services).len(),
        forall|i: int| 0 <= i < r@.len() ==> service_decl_of(declared_services(pkg.services)[i], #[trigger] r@[i]),
{
    let mut out: Vec<ServiceDecl> = Vec::new();
    match &pkg.services {
        Some(specs) => {
            let mut i: usize = 0;
            while i < specs.len()
                invariant
                    i <= specs.len(),
                    declared_services(pkg.services) == specs@,
                    out@.len() == i,
                    forall|k: int| 0 <= k < i ==> service_decl_of(specs@[k], #[trigger] out@[k]),
                decreases specs.len() - i,
            {
                let s = &specs[i];
                let d = ServiceDecl {
                    name: s.name.clone(),
                    command: s.command.clone(),
                    requires: s.requires.clone(),
                    restart: s.restart.clone(),
                    description: s.description.clone(),
                    environment: Vec::new(),
                    working_directory: String::new(),
                    socket: None,
                };
                assert(d.working_directory@.len() == 0);
                out.push(d);
                proof {
                    assert forall|k: int| 0 <= k < i + 1 implies service_decl_of(specs@[k], #[trigger] out@[k]) by {
                        if k == i {
                            assert(out@[k] == d);
                        }
                    }
                }
                i = i + 1;
            }
        },
        None => {},
    }
    out
}

fn copy_all(v: &Vec<String>) -> (r: Vec<String>)
    ensures
        views(r@) == views(v@),
{
    let mut r: Vec<String> = Vec::new();
    let mut i: usize = 0;
    while i < v.len()
        invariant
            i <= v.len(),
            views(r@) == views(v@).take(i as int),
        decreases v.len() - i,
    {
        let ghost before = views(r@);
        r.push(v[i].clone());
        assert(views(r@) =~= before.push(v@[i as int]@));
        assert(views(v@).take(i + 1) =~= views(v@).take(i as int).push(v@[i as int]@));
        i = i + 1;
    }
    assert(views(v@).take(v.len() as int) =~= views(v@));
    r
}

/// The components `assign_components` gives the files `fs` of `pkg`.
pub open spec fn components_for(pkg: Package, fs: Seq<Seq<char>>, r: Seq<Component>) -> bool {
    &&& (pkg.components is None || pkg.components->Some_0@.len() == 0) ==> {
        &&& r.len() == 1
        &&& r[0].name@ == "core"@
        &&& r[0].priority@ == "required"@
        &&& views(r[0].files@) == fs
        &&& r[0].dependencies@.len() == 0
        &&& r[0].description@ == "Core files for "@ + pkg.name@
    }
    &&& (pkg.components is Some && pkg.components->Some_0@.len() > 0) ==> exists|l: Seq<Component>|
        #[trigger] stably_sorted(r, l) && expected_components(pkg, fs, l)
}

/// A file name of a shared library a package provides: a `.so` name,
/// versioned or not.
pub open spec fn provided_name(n: Seq<char>) -> bool {
    ends(n, ".so"@) || has_sub(n, ".so."@)
}

/// The shared libraries among the file names `names`.
pub open spec fn provided_names(names: Seq<Seq<char>>) -> Set<Seq<char>> {
    Set::new(|n: Seq<char>| names.contains(n) && provided_name(n))
}

fn provided_libraries(names: &Vec<String>) -> (r: Vec<String>)
    ensures
        views(r@).to_set() == provided_names(views(names@)),
{
    let ghost ns = views(names@);
    let mut out: Vec<String> = Vec::new();
    let mut i: usize = 0;
    while i < names.len()
        invariant
            i <= names.len(),
            ns == views(names@),
            views(out@).to_set() == provided_names(ns.take(i as int)),
        decreases names.len() - i,
    {
        let ghost before = views(out@);
        proof {
            assert(ns[i as int] == names@[i as int]@);
            assert forall|n: Seq<char>| ns.take(i + 1).contains(n) <==> (ns.take(i as int).contains(n) || ns[i as int] == n) by {
                crate::resolve::lemma_take_contains(ns, i as int, n);
            }
        }
        if crate::deps::is_provided_library(names[i].as_str()) {
            out.push(names[i].clone());
            proof {
                assert(views(out@) =~= before.push(ns[i as int]));
                crate::order::lemma_push_to_set(before, ns[i as int]);
                assert(provided_name(ns[i as int]));
                assert forall|n: Seq<char>| views(out@).to_set().contains(n) <==> provided_names(ns.take(i + 1)).contains(n) by {
                    assert(before.to_set().contains(n) <==> provided_names(ns.take(i as int)).contains(n));
                }
            }
            assert(views(out@).to_set() =~= provided_names(ns.take(i + 1)));
        } else {
            assert(!provided_name(ns[i as int]));
            assert forall|n: Seq<char>| views(out@).to_set().contains(n) <==> provided_names(ns.take(i + 1)).contains(n) by {
                if n == ns[i as int] {
                    assert(!provided_name(n));
                }
            }
            assert(views(out@).to_set() =~= provided_names(ns.take(i + 1)));
        }
        i = i + 1;
    }
    assert(ns.take(names.len() as int) =~= ns);
    out
}

/// The metadata of the package `pkg` from what its build produced: the
/// checksums `sums` (the one of the requested kind is recorded, else the
/// first), its dependencies, its files (`pkg_files`, relative to the
/// package root, listed sorted), the shared libraries among the names of
/// its files (`file_names`, listed sorted and once each), its license and
/// provenance. Its files are split into components.
pub fn mtd(
    pkg: &Package,
    sums: &Vec<Checksum>,
    hash_request: Option<&str>,
    dependencies: Vec<Dependency>,
    pkg_files: Vec<String>,
    file_names: Vec<String>,
    license: String,
    provenance: Option<PackageProvenance>,
) -> (r: Result<PackageMetadata, MetadataError>)
    ensures
        ({
            let wanted = match hash_request {
                None => "sha256"@,
                Some(h) => unicode_lowercase(h@),
            };
            let ok_kind = hash_request is None || wanted == "sha256"@ || wanted == "sha1"@ || wanted == "md5"@;
            &&& !ok_kind ==> (r matches Err(MetadataError::HashType(e)) && e.value@ == hash_request->Some_0@)
            &&& ok_kind && sums.len() == 0 ==> (r matches Err(MetadataError::NoChecksum))
            &&& ok_kind && sums.len() > 0 ==> (r matches Ok(m) && {
                &&& m.pkg_name@ == pkg.name@
                &&& m.version@ == pkg.version@
                &&& m.license == license
                &&& m.source@ == pkg.source@
                &&& m.arch@ == pkg.arch@
                &&& (match first_of_kind(sums@, wanted) {
                    Some(v) => m.checksum.kind@ == wanted && m.checksum.value@ == v,
                    None => m.checksum.kind@ == sums@[0].kind@ && m.checksum.value@ == sums@[0].value@,
                })
                &&& m.dependencies == dependencies
                &&& views(m.files@) == sorted_of(views(pkg_files@).to_set())
                &&& (m.provides matches Some(p) && views(p@) == sorted_of(provided_names(views(file_names@))))
                &&& m.conflicts is None
                &&& components_for(*pkg, views(m.files@), m.components@)
                &&& m.services@.len() == declared_services(pkg.services).len()
                &&& (forall|i: int| 0 <= i < m.services@.len() ==> service_decl_of(declared_services(pkg.services)[i], #[trigger] m.services@[i]))
                &&& strs(m.binaries@) == match pkg.binaries {
                    Some(b) => strs(b@),
                    None => Seq::empty(),
                }
                &&& m.provenance == provenance
            })
        }),
{
    let kind = match hash_type(hash_request) {
        Ok(k) => k,
        Err(e) => return Err(MetadataError::HashType(e)),
    };
    let checksum = match select_checksum(sums, kind.as_str()) {
        Some(c) => c,
        None => return Err(MetadataError::NoChecksum),
    };
    let files = sort_dedup(pkg_files);
    let provides = sort_dedup(provided_libraries(&file_names));
    proof {
        crate::order::lemma_sorted_of(views(files@));
        crate::order::lemma_sorted_of(views(provides@));
    }
    let components = assign_components(&files, pkg);
    let binaries = match &pkg.binaries {
        Some(b) => copy_all(b),
        None => Vec::new(),
    };
    proof {
        assert(strs(binaries@) =~= match pkg.binaries {
            Some(b) => strs(b@),
            None => Seq::empty(),
        });
    }
    let m = PackageMetadata {
        pkg_name: pkg.name.clone(),
        version: pkg.version.clone(),
        license,
        source: pkg.source.clone(),
        arch: pkg.arch.clone(),
        checksum,
        dependencies,
        files,
        provides: Some(provides),
        conflicts: None,
        components,
        services: services(pkg),
        binaries,
        provenance,
    };
    Ok(m)
}

} // verus!
