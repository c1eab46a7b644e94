use ous::digest::{checksums_of, sha256_hex, to_hex};
use ous::elf::{is_elf, read_elf_needed, vaddr_to_file_offset};
use ous::index::index;
use ous::model::{Checksum, PackageMetadata};
use ous::paths::sort_paths;
use ous::repo::{
    bad_magic, built_names, checksum_target, duplicate_keys, gpg_export_args, gpg_sign_args,
    index_problems, names_missing_from, overwrite_allowed, rewrite_sources, signs_file,
    sidecar_checks, sort_decision, stamp, upload_target, IndexProblem, SortDecision,
};

fn meta(name: &str, version: &str, license: &str) -> PackageMetadata {
    PackageMetadata {
        pkg_name: name.into(),
        version: version.into(),
        license: license.into(),
        source: "https://example.com/src.tar.gz".into(),
        arch: "x86_64".into(),
        checksum: Checksum { kind: "sha256".into(), value: "abc".into() },
        dependencies: vec![],
        files: vec!["usr/bin/x".into()],
        provides: None,
        conflicts: None,
        components: vec![],
        services: vec![],
        binaries: vec![],
        provenance: None,
    }
}

fn keys(v: &[PackageMetadata]) -> Vec<(String, String)> {
    v.iter().map(|m| (m.pkg_name.clone(), m.version.clone())).collect()
}

#[test]
fn index_sorts_by_name_then_natural_version() {
    let entries = vec![meta("zlib", "1.3", "Zlib"), meta("abc", "1.10", "MIT")];
    let out = index(entries, meta("abc", "1.9", "MIT")).unwrap();
    assert_eq!(
        keys(&out),
        vec![
            ("abc".to_string(), "1.9".to_string()),
            ("abc".to_string(), "1.10".to_string()),
            ("zlib".to_string(), "1.3".to_string()),
        ]
    );
}

#[test]
fn index_is_idempotent() {
    let out = index(vec![meta("a", "1", "MIT")], meta("b", "2", "MIT")).unwrap();
    assert!(index(out, meta("b", "2", "MIT")).is_none());
}

#[test]
fn index_replaces_changed_entry() {
    let out = index(vec![meta("a", "1", "MIT")], meta("a", "1", "GPL")).unwrap();
    assert_eq!(out.len(), 1);
    assert_eq!(out[0].license, "GPL");
}

#[test]
fn index_validation_problems() {
    let mut e = vec![meta("a", "1", "MIT"), meta("", "1", "MIT"), meta("b", "", "MIT"), meta("a", "1", "MIT")];
    e[1].version = "2".into();
    let p = index_problems(&e);
    assert_eq!(p.len(), 3);
    assert!(matches!(&p[0], IndexProblem::MissingName));
    assert!(matches!(&p[1], IndexProblem::MissingVersion(n) if n == "b"));
    assert!(matches!(&p[2], IndexProblem::Duplicate { name, version } if name == "a" && version == "1"));
    assert_eq!(duplicate_keys(&e), 1);
}

#[test]
fn built_archive_names() {
    let files = vec!["a-1.0.xcs".to_string(), "junk.xcs".to_string(), "b.txt".to_string()];
    let (built, bad) = built_names(&files);
    assert_eq!(built, vec!["a"]);
    assert_eq!(bad, vec!["junk.xcs"]);
    let missing = names_missing_from(&vec!["c".into(), "a".into(), "c".into()], &vec!["a".into()]);
    assert_eq!(missing, vec!["c"]);
}

#[test]
fn zstd_magic_check() {
    assert!(!bad_magic(&[0x28, 0xB5, 0x2F, 0xFD, 0]));
    assert!(bad_magic(b"PK\x03\x04"));
    assert!(!bad_magic(b"ab"));
}

#[test]
fn checksum_stamping() {
    let mut idx = vec![meta("hello", "1.0", "MIT"), meta("x", "2", "MIT")];
    assert_eq!(checksum_target(&idx, "hello-1.0.xcs"), Some(0));
    assert_eq!(checksum_target(&idx, "hello-2.0.xcs"), None);
    assert_eq!(checksum_target(&idx, "nonsense"), None);
    let h = stamp(&mut idx, 0, b"abc", "https://repo/", "x86_64");
    assert_eq!(h, "ba7816bf8f01cfea414140de5dae2223b00361a396177a9cb410ff61f20015ad");
    assert_eq!(idx[0].checksum.kind, "sha256");
    assert_eq!(idx[0].checksum.value, h);
    assert_eq!(idx[0].source, "https://repo/pool/x86_64/hello/hello-1.0.xcs");
    assert_eq!(idx[1].source, "https://example.com/src.tar.gz");
}

#[test]
fn sources_rewritten_to_pool() {
    let out = rewrite_sources(vec![meta("hello", "1.0", "MIT")], "https://repo.example//", "aarch64");
    assert_eq!(out[0].source, "https://repo.example/pool/aarch64/hello/hello-1.0.xcs");
    assert_eq!(out[0].license, "MIT");
}

#[test]
fn sorting_and_signing_decisions() {
    assert!(matches!(sort_decision("a-1.0.xcs", true, "x86_64"), SortDecision::Move(d) if d == "x86_64/a"));
    assert!(matches!(sort_decision("bad.xcs", true, "x86_64"), SortDecision::Unparsable));
    assert!(matches!(sort_decision("a-1.0.xcs", false, "x86_64"), SortDecision::Ignore));
    assert!(overwrite_allowed(false, false, false, false));
    assert!(!overwrite_allowed(true, false, false, false));
    assert!(overwrite_allowed(true, false, true, false));
    assert!(signs_file("a.xcs"));
    assert!(!signs_file(".xcs"));
    assert_eq!(gpg_sign_args("K", "f"), vec!["--batch", "--yes", "-u", "K", "--detach-sign", "f"]);
    assert_eq!(gpg_export_args("K"), vec!["--batch", "--yes", "-u", "K", "--export", "--armor"]);
    assert_eq!(upload_target(Some("  http://u ")), Some("http://u".to_string()));
    assert_eq!(upload_target(Some("  ")), None);
}

#[test]
fn digests_of_data() {
    assert_eq!(to_hex(&[0x00, 0xff, 0x10]), "00ff10");
    assert_eq!(
        sha256_hex(b"abc"),
        "ba7816bf8f01cfea414140de5dae2223b00361a396177a9cb410ff61f20015ad"
    );
    let sums = checksums_of(b"abc");
    let pairs: Vec<(&str, &str)> = sums.iter().map(|c| (c.kind.as_str(), c.value.as_str())).collect();
    assert_eq!(
        pairs,
        vec![
            ("sha256", "ba7816bf8f01cfea414140de5dae2223b00361a396177a9cb410ff61f20015ad"),
            ("sha1", "a9993e364706816aba3e25717850c26c9cd0d89d"),
            ("md5", "900150983cd24fb0d6963f7d28e17f72"),
        ]
    );
}

#[test]
fn path_order() {
    let v = vec!["b".to_string(), "a/b".to_string(), "a".to_string(), "a//b".to_string(), "a-b".to_string()];
    let r = sort_paths(v);
    assert_eq!(r.len(), 4);
    assert_eq!(r[0], "a");
    // Of two spellings of one path, the first given is kept.
    assert_eq!(r[1], "a/b");
    assert_eq!(r[2], "a-b");
    assert_eq!(r[3], "b");
}

fn elf_with_needed(names: &[&str]) -> Vec<u8> {
    // One PT_LOAD mapping the whole file at vaddr 0 and one PT_DYNAMIC.
    let mut strtab: Vec<u8> = vec![0];
    let mut offs = Vec::new();
    for n in names {
        offs.push(strtab.len() as u64);
        strtab.extend_from_slice(n.as_bytes());
        strtab.push(0);
    }
    let ph_off = 64u64;
    let dyn_off = ph_off + 2 * 56;
    let n_dyn = offs.len() as u64 + 3;
    let str_off = dyn_off + n_dyn * 16;
    let total = str_off + strtab.len() as u64;
    let mut d = vec![0u8; 64];
    d[0..4].copy_from_slice(b"\x7fELF");
    d[4] = 2;
    d[32..40].copy_from_slice(&ph_off.to_le_bytes());
    d[54..56].copy_from_slice(&56u16.to_le_bytes());
    d[56..58].copy_from_slice(&2u16.to_le_bytes());
    let mut ph = |t: u32, off: u64, vaddr: u64, size: u64| {
        let mut p = vec![0u8; 56];
        p[0..4].copy_from_slice(&t.to_le_bytes());
        p[8..16].copy_from_slice(&off.to_le_bytes());
        p[16..24].copy_from_slice(&vaddr.to_le_bytes());
        p[32..40].copy_from_slice(&size.to_le_bytes());
        p[40..48].copy_from_slice(&size.to_le_bytes());
        d.extend_from_slice(&p);
    };
    ph(1, 0, 0, total);
    ph(2, dyn_off, dyn_off, n_dyn * 16);
    let mut ent = |tag: u64, val: u64| {
        d.extend_from_slice(&tag.to_le_bytes());
        d.extend_from_slice(&val.to_le_bytes());
    };
    for o in &offs {
        ent(1, *o);
    }
    ent(5, str_off);
    ent(10, strtab.len() as u64);
    ent(0, 0);
    d.extend_from_slice(&strtab);
    d
}

#[test]
fn elf_needed_entries() {
    let d = elf_with_needed(&["libc.so.6", "libz.so.1", "abc"]);
    assert!(is_elf(&d[0..4]));
    // Names shorter than four bytes are left out.
    assert_eq!(read_elf_needed(&d), vec!["libc.so.6", "libz.so.1"]);
    assert!(read_elf_needed(b"not an elf file at all").is_empty());
    assert!(!is_elf(b"MZ\x90\x00"));
}

#[test]
fn segment_offsets() {
    let segs = vec![(0x1000u64, 0x400000u64, 0x100u64, 0x200u64)];
    assert_eq!(vaddr_to_file_offset(&segs, 0x400010), Some(0x1010));
    assert_eq!(vaddr_to_file_offset(&segs, 0x400200), None);
    assert_eq!(vaddr_to_file_offset(&segs, 0x3fffff), None);
}

#[test]
fn sidecar_lines_checked() {
    let r = sidecar_checks("abc  file.xcs\n\n  def\r\n", "abc");
    assert_eq!(r, vec![("abc".to_string(), true), ("def".to_string(), false)]);
    assert!(sidecar_checks("", "abc").is_empty());
}
