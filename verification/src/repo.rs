use vstd::prelude::*;
use crate::digest::{hex_of, sha256_hex};
use crate::model::{Checksum, PackageMetadata, str_eq};
use crate::naming::{parse_xcs_name, xcs_name_of};
use crate::order::{ascending, sort_dedup, views};
use crate::outside::sha256_of;
use crate::text::{
    append, chars_of, ends, ends_with, lines, lines_of, lit, own, string_of, strip_end, trim, trim_end_char,
    trimmed, vec_eq, vviews, words, words_of,
};

verus! {

// ── Validating an index ─────────────────────────────────────────────────

/// A problem with an entry of an index.
pub enum IndexProblem {
    /// The entry has no package name.
    MissingName,
    /// The entry of this package has no version.
    MissingVersion(String),
    /// An earlier entry has the same name and version.
    Duplicate { name: String, version: String },
}

pub open spec fn problem_view(p: IndexProblem) -> (nat, Seq<char>, Seq<char>) {
    match p {
        IndexProblem::MissingName => (0nat, Seq::empty(), Seq::empty()),
        IndexProblem::MissingVersion(n) => (1nat, n@, Seq::empty()),
        IndexProblem::Duplicate { name, version } => (2nat, name@, version@),
    }
}

pub open spec fn problem_views(s: Seq<IndexProblem>) -> Seq<(nat, Seq<char>, Seq<char>)> {
    s.map_values(|p: IndexProblem| problem_view(p))
}

/// An entry before position `i` has the same name and version as the
/// entry at `i`.
pub open spec fn seen_before(s: Seq<PackageMetadata>, i: int) -> bool {
    exists|j: int| 0 <= j < i && #[trigger] s[j].pkg_name@ == s[i].pkg_name@ && s[j].version@ == s[i].version@
}

/// The problems of the entry at `i`: a missing name, a missing version, a
/// repeated name and version.
pub open spec fn entry_problems(s: Seq<PackageMetadata>, i: int) -> Seq<(nat, Seq<char>, Seq<char>)> {
    let e = s[i];
    (if e.pkg_name@.len() == 0 {
        seq![(0nat, Seq::<char>::empty(), Seq::<char>::empty())]
    } else {
        Seq::empty()
    }) + (if e.version@.len() == 0 {
        seq![(1nat, e.pkg_name@, Seq::<char>::empty())]
    } else {
        Seq::empty()
    }) + (if seen_before(s, i) {
        seq![(2nat, e.pkg_name@, e.version@)]
    } else {
        Seq::empty()
    })
}

/// The problems of the first `n` entries, entry by entry.
pub open spec fn problems_upto(s: Seq<PackageMetadata>, n: int) -> Seq<(nat, Seq<char>, Seq<char>)>
    decreases n,
{
    if n <= 0 {
        Seq::empty()
    } else {
        problems_upto(s, n - 1) + entry_problems(s, n - 1)
    }
}

fn seen_earlier(s: &Vec<PackageMetadata>, i: usize) -> (r: bool)
    requires
        i < s.len(),
    ensures
        r == seen_before(s@, i as int),
{
    let mut j: usize = 0;
    while j < i
        invariant
            j <= i < s.len(),
            forall|k: int| 0 <= k < j ==> !(#[trigger] s@[k].pkg_name@ == s@[i as int].pkg_name@ && s@[k].version@ == s@[i as int].version@),
        decreases i - j,
    {
        if str_eq(&s[j].pkg_name, &s[i].pkg_name) && str_eq(&s[j].version, &s[i].version) {
            return true;
        }
        j = j + 1;
    }
    false
}

/// The problems of the entries of an index, in order: for each entry, a
/// missing name, a missing version, and whether an earlier entry has the
/// same name and version.
pub fn index_problems(entries: &Vec<PackageMetadata>) -> (r: Vec<IndexProblem>)
    ensures
        problem_views(r@) == problems_upto(entries@, entries@.len() as int),
{
    let mut out: Vec<IndexProblem> = Vec::new();
    let mut i: usize = 0;
    while i < entries.len()
        invariant
            i <= entries.len(),
            problem_views(out@) == problems_upto(entries@, i as int),
        decreases entries.len() - i,
    {
        let e = &entries[i];
        let ghost before = problem_views(out@);
        if chars_of(e.pkg_name.as_str()).len() == 0 {
            out.push(IndexProblem::MissingName);
        }
        let ghost mid1 = problem_views(out@);
        if chars_of(e.version.as_str()).len() == 0 {
            out.push(IndexProblem::MissingVersion(e.pkg_name.clone()));
        }
        let ghost mid2 = problem_views(out@);
        if seen_earlier(entries, i) {
            out.push(IndexProblem::Duplicate { name: e.pkg_name.clone(), version: e.version.clone() });
        }
        proof {
            let e0 = entries@[i as int];
            assert(mid1 =~= before + if e0.pkg_name@.len() == 0 {
                seq![(0nat, Seq::<char>::empty(), Seq::<char>::empty())]
            } else {
                Seq::empty()
            });
            assert(problem_views(out@) =~= before + entry_problems(entries@, i as int));
        }
        i = i + 1;
    }
    out
}

/// The package names of the built archives among `file_names` (the names
/// ending with `.xcs`), and the archive names that do not parse.
pub fn built_names(file_names: &Vec<String>) -> (r: (Vec<String>, Vec<String>))
    ensures
        views(r.0@) == built_of(views(file_names@)),
        views(r.1@) == unparsable_of(views(file_names@)),
{
    let mut names: Vec<String> = Vec::new();
    let mut bad: Vec<String> = Vec::new();
    let ghost fs = views(file_names@);
    let mut i: usize = 0;
    while i < file_names.len()
        invariant
            i <= file_names.len(),
            fs == views(file_names@),
            views(names@) == built_of(fs.take(i as int)),
            views(bad@) == unparsable_of(fs.take(i as int)),
        decreases file_names.len() - i,
    {
        let f = &file_names[i];
        proof {
            assert(fs.take(i + 1).drop_last() =~= fs.take(i as int));
            assert(fs.take(i + 1).last() == f@);
        }
        if ends_with(&chars_of(f.as_str()), &lit(".xcs")) {
            match parse_xcs_name(f.as_str()) {
                Some((n, _v)) => {
                    let ghost b = views(names@);
                    names.push(n);
                    assert(views(names@) =~= b.push(xcs_name_of(f@)->Some_0.0));
                },
                None => {
                    let ghost b = views(bad@);
                    bad.push(f.clone());
                    assert(views(bad@) =~= b.push(f@));
                },
            }
        }
        i = i + 1;
    }
    assert(fs.take(file_names.len() as int) =~= fs);
    (names, bad)
}

pub open spec fn built_of(fs: Seq<Seq<char>>) -> Seq<Seq<char>>
    decreases fs.len(),
{
    if fs.len() == 0 {
        Seq::empty()
    } else if ends(fs.last(), ".xcs"@) && xcs_name_of(fs.last()) is Some {
        built_of(fs.drop_last()).push(xcs_name_of(fs.last())->Some_0.0)
    } else {
        built_of(fs.drop_last())
    }
}

pub open spec fn unparsable_of(fs: Seq<Seq<char>>) -> Seq<Seq<char>>
    decreases fs.len(),
{
    if fs.len() == 0 {
        Seq::empty()
    } else if ends(fs.last(), ".xcs"@) && xcs_name_of(fs.last()) is None {
        unparsable_of(fs.drop_last()).push(fs.last())
    } else {
        unparsable_of(fs.drop_last())
    }
}

/// The names in `a` that are not in `b`, distinct and in ascending order.
pub fn names_missing_from(a: &Vec<String>, b: &Vec<String>) -> (r: Vec<String>)
    ensures
        ascending(views(r@)),
        views(r@).to_set() == views(a@).to_set().difference(views(b@).to_set()),
{
    let mut out: Vec<String> = Vec::new();
    let mut i: usize = 0;
    while i < a.len()
        invariant
            i <= a.len(),
            views(out@).to_set() == views(a@.take(i as int)).to_set().difference(views(b@).to_set()),
        decreases a.len() - i,
    {
        let ghost before = views(out@);
        assert(views(a@.take(i + 1)) =~= views(a@.take(i as int)).push(a@[i as int]@));
        proof {
            crate::order::lemma_push_to_set(views(a@.take(i as int)), a@[i as int]@);
        }
        if !listed(b, &a[i]) {
            out.push(a[i].clone());
            proof {
                assert(views(out@) =~= before.push(a@[i as int]@));
                crate::order::lemma_push_to_set(before, a@[i as int]@);
            }
        }
        assert(views(out@).to_set() =~= views(a@.take(i + 1)).to_set().difference(views(b@).to_set()));
        i = i + 1;
    }
    assert(a@.take(a.len() as int) =~= a@);
    sort_dedup(out)
}

fn listed(v: &Vec<String>, x: &String) -> (b: bool)
    ensures
        b == views(v@).to_set().contains(x@),
{
    let mut i: usize = 0;
    while i < v.len()
        invariant
            i <= v.len(),
            forall|k: int| 0 <= k < i ==> v@[k]@ != x@,
        decreases v.len() - i,
    {
        if str_eq(&v[i], x) {
            assert(views(v@)[i as int] == x@);
            return true;
        }
        i = i + 1;
    }
    assert forall|k: int| 0 <= k < views(v@).len() implies views(v@)[k] != x@ by {
        assert(views(v@)[k] == v@[k]@);
    }
    false
}

/// The first bytes of a zstd frame.
pub open spec fn zstd_magic() -> Seq<u8> {
    seq![0x28u8, 0xB5u8, 0x2Fu8, 0xFDu8]
}

/// An archive whose first four bytes are there but are not the zstd
/// magic.
pub fn bad_magic(head: &[u8]) -> (r: bool)
    ensures
        r == (head@.len() >= 4 && head@.take(4) != zstd_magic()),
{
    if head.len() < 4 {
        return false;
    }
    let ok = head[0] == 0x28u8 && head[1] == 0xB5u8 && head[2] == 0x2Fu8 && head[3] == 0xFDu8;
    proof {
        if ok {
            assert(head@.take(4) =~= zstd_magic());
        } else {
            if head@.take(4) == zstd_magic() {
                assert(head@.take(4)[0] == head@[0]);
                assert(head@.take(4)[1] == head@[1]);
                assert(head@.take(4)[2] == head@[2]);
                assert(head@.take(4)[3] == head@[3]);
            }
        }
    }
    !ok
}

/// The digests an integrity sidecar lists, one per line that holds a word
/// (its first word), each with whether it is the archive's actual digest.
pub open spec fn sidecar_checks_of(lines: Seq<Seq<char>>, actual: Seq<char>) -> Seq<(Seq<char>, bool)>
    decreases lines.len(),
{
    if lines.len() == 0 {
        Seq::empty()
    } else {
        let rest = sidecar_checks_of(lines.drop_last(), actual);
        let ws = words_of(lines.last());
        if ws.len() == 0 {
            rest
        } else {
            rest.push((ws[0], ws[0] == actual))
        }
    }
}

/// Checks the archive's SHA-256 `actual` against its sidecar `content`:
/// the expected digest of each line, and whether it matches.
pub fn sidecar_checks(content: &str, actual: &str) -> (r: Vec<(String, bool)>)
    ensures
        r@.map_values(|e: (String, bool)| (e.0@, e.1)) == sidecar_checks_of(lines_of(content@), actual@),
{
    let ls = lines(&chars_of(content));
    let a = chars_of(actual);
    let mut out: Vec<(String, bool)> = Vec::new();
    let mut i: usize = 0;
    while i < ls.len()
        invariant
            i <= ls.len(),
            a@ == actual@,
            vviews(ls@) == lines_of(content@),
            out@.map_values(|e: (String, bool)| (e.0@, e.1)) == sidecar_checks_of(vviews(ls@).take(i as int), actual@),
        decreases ls.len() - i,
    {
        let ghost before = out@.map_values(|e: (String, bool)| (e.0@, e.1));
        assert(vviews(ls@).take(i + 1).drop_last() =~= vviews(ls@).take(i as int));
        assert(vviews(ls@).take(i + 1).last() == ls@[i as int]@);
        let ws = words(&ls[i]);
        if ws.len() > 0 {
            let expected = string_of(&ws[0]);
            let same = vec_eq(&ws[0], &a);
            out.push((expected, same));
            assert(out@.map_values(|e: (String, bool)| (e.0@, e.1)) =~= before.push((ws@[0]@, same)));
        }
        i = i + 1;
    }
    assert(vviews(ls@).take(ls.len() as int) =~= vviews(ls@));
    out
}

// ── Checksums and sources of an index ───────────────────────────────────

/// The position of the last entry for `name` and `version`, or -1 (a
/// later entry replaces an earlier one).
pub open spec fn last_position(s: Seq<PackageMetadata>, name: Seq<char>, version: Seq<char>) -> int
    decreases s.len(),
{
    if s.len() == 0 {
        -1
    } else if s.last().pkg_name@ == name && s.last().version@ == version {
        s.len() - 1
    } else {
        last_position(s.drop_last(), name, version)
    }
}

/// The entry of the index that the archive `fname` updates: the last entry
/// for the name and version its file name gives.
pub fn checksum_target(index: &Vec<PackageMetadata>, fname: &str) -> (r: Option<usize>)
    ensures
        xcs_name_of(fname@) is None ==> r is None,
        xcs_name_of(fname@) matches Some(nv) ==> {
            let p = last_position(index@, nv.0, nv.1);
            &&& p < 0 ==> r is None
            &&& p >= 0 ==> r == Some(p as usize)
        },
{
    let (name, version) = match parse_xcs_name(fname) {
        Some(nv) => nv,
        None => return None,
    };
    let mut found: Option<usize> = None;
    let mut i: usize = 0;
    while i < index.len()
        invariant
            i <= index.len(),
            found matches Some(k) ==> k < i && k as int == last_position(index@.take(i as int), name@, version@),
            found is None ==> last_position(index@.take(i as int), name@, version@) == -1,
        decreases index.len() - i,
    {
        proof {
            assert(index@.take(i + 1).drop_last() =~= index@.take(i as int));
            assert(index@.take(i + 1).last() == index@[i as int]);
        }
        if str_eq(&index[i].pkg_name, &name) && str_eq(&index[i].version, &version) {
            found = Some(i);
        }
        i = i + 1;
    }
    assert(index@.take(index.len() as int) =~= index@);
    found
}

/// The number of entries that repeat the name and version of an earlier
/// entry.
pub open spec fn repeats_upto(s: Seq<PackageMetadata>, n: int) -> nat
    decreases n,
{
    if n <= 0 {
        0
    } else {
        repeats_upto(s, n - 1) + if seen_before(s, n - 1) {
            1nat
        } else {
            0nat
        }
    }
}

pub fn duplicate_keys(index: &Vec<PackageMetadata>) -> (r: usize)
    ensures
        r as nat == repeats_upto(index@, index@.len() as int),
{
    let mut count: usize = 0;
    let mut i: usize = 0;
    while i < index.len()
        invariant
            i <= index.len(),
            count as nat == repeats_upto(index@, i as int),
            count <= i,
        decreases index.len() - i,
    {
        if seen_earlier(index, i) {
            count = count + 1;
        }
        i = i + 1;
    }
    count
}

/// The base URL without its trailing slashes.
pub open spec fn base_of(url: Seq<char>) -> Seq<char> {
    strip_end(url, '/')
}

/// `entry` with another checksum and source, all else kept.
pub open spec fn restamped(entry: PackageMetadata, checksum: Checksum, source: String) -> PackageMetadata {
    PackageMetadata { checksum, source, ..entry }
}

/// Records the SHA-256 of an archive (its bytes `data`) and its pool URL,
/// `<base>/pool/<arch>/<name>/<name>-<version>.xcs`, in the index entry at
/// `pos`.
pub fn stamp(
    index: &mut Vec<PackageMetadata>,
    pos: usize,
    data: &[u8],
    base_url: &str,
    arch: &str,
) -> (hash: String)
    requires
        pos < old(index).len(),
    ensures
        hash@ == hex_of(sha256_of(data@)),
        final(index)@.len() == old(index)@.len(),
        forall|i: int| 0 <= i < old(index)@.len() && i != pos ==> final(index)@[i] == old(index)@[i],
        final(index)@[pos as int].checksum.kind@ == "sha256"@,
        final(index)@[pos as int].checksum.value@ == hash@,
        final(index)@[pos as int].source@ == pool_source(base_url@, arch@, old(index)@[pos as int].pkg_name@, old(index)@[pos as int].version@),
        final(index)@[pos as int] == restamped(old(index)@[pos as int], final(index)@[pos as int].checksum, final(index)@[pos as int].source),
{
    let hash = sha256_hex(data);
    let mut url = trim_end_char(&chars_of(base_url), '/');
    append(&mut url, &lit("/pool/"));
    append(&mut url, &chars_of(arch));
    append(&mut url, &lit("/"));
    append(&mut url, &chars_of(index[pos].pkg_name.as_str()));
    append(&mut url, &lit("/"));
    append(&mut url, &chars_of(index[pos].pkg_name.as_str()));
    append(&mut url, &lit("-"));
    append(&mut url, &chars_of(index[pos].version.as_str()));
    append(&mut url, &lit(".xcs"));
    let ghost before = index@;
    let mut e = index.remove(pos);
    e.checksum = Checksum { kind: own("sha256"), value: hash.clone() };
    e.source = string_of(&url);
    index.insert(pos, e);
    assert(index@ =~= before.update(pos as int, e));
    hash
}

/// `<base>/pool/<arch>/<name>/<name>-<version>.xcs`: the source a rewrite
/// gives an index entry.
pub open spec fn pool_source(base_url: Seq<char>, arch: Seq<char>, name: Seq<char>, version: Seq<char>) -> Seq<char> {
    base_of(base_url) + "/pool/"@ + arch + "/"@ + name + "/"@ + name + "-"@ + version + ".xcs"@
}

/// `entry` with another source, all else kept.
pub open spec fn with_source(entry: PackageMetadata, source: String) -> PackageMetadata {
    PackageMetadata { source, ..entry }
}

/// Points every entry of the index at its archive in the pool below
/// `base_url`.
pub fn rewrite_sources(index: Vec<PackageMetadata>, base_url: &str, arch: &str) -> (r: Vec<PackageMetadata>)
    ensures
        r@.len() == index@.len(),
        forall|i: int| 0 <= i < r@.len() ==> #[trigger] r@[i] == with_source(index@[i], r@[i].source),
        forall|i: int| 0 <= i < r@.len() ==> (#[trigger] r@[i]).source@ == pool_source(base_url@, arch@, index@[i].pkg_name@, index@[i].version@),
{
    let base = trim_end_char(&chars_of(base_url), '/');
    let mut rest = index;
    let ghost orig = rest@;
    let total = rest.len();
    let mut out: Vec<PackageMetadata> = Vec::new();
    while rest.len() > 0
        invariant
            out.len() + rest.len() == orig.len(),
            orig.len() == total,
            rest@ == orig.skip(out.len() as int),
            base@ == base_of(base_url@),
            forall|i: int| 0 <= i < out@.len() ==> #[trigger] out@[i] == with_source(orig[i], out@[i].source),
            forall|i: int| 0 <= i < out@.len() ==> (#[trigger] out@[i]).source@ == pool_source(base_url@, arch@, orig[i].pkg_name@, orig[i].version@),
        decreases rest.len(),
    {
        let ghost k = out.len() as int;
        let mut e = rest.remove(0);
        assert(e == orig[k]);
        let mut url = base.clone();
        assert(url@ == base@);
        append(&mut url, &lit("/pool/"));
        append(&mut url, &chars_of(arch));
        append(&mut url, &lit("/"));
        append(&mut url, &chars_of(e.pkg_name.as_str()));
        append(&mut url, &lit("/"));
        append(&mut url, &chars_of(e.pkg_name.as_str()));
        append(&mut url, &lit("-"));
        append(&mut url, &chars_of(e.version.as_str()));
        append(&mut url, &lit(".xcs"));
        e.source = string_of(&url);
        out.push(e);
        proof {
            assert(rest@ =~= orig.skip(out.len() as int));
        }
    }
    out
}

// ── Sorting archives into the pool ──────────────────────────────────────

/// What to do with one entry of a directory of built archives.
pub enum SortDecision {
    /// Not an archive.
    Ignore,
    /// An archive whose name does not parse.
    Unparsable,
    /// Move it to the directory `<arch>/<name>`.
    Move(String),
}

pub fn sort_decision(fname: &str, is_file: bool, arch: &str) -> (r: SortDecision)
    ensures
        !(ends(fname@, ".xcs"@) && is_file) ==> r is Ignore,
        ends(fname@, ".xcs"@) && is_file && xcs_name_of(fname@) is None ==> r is Unparsable,
        ends(fname@, ".xcs"@) && is_file && xcs_name_of(fname@) is Some ==> (r matches SortDecision::Move(d) && d@ == arch@ + "/"@ + xcs_name_of(fname@)->Some_0.0),
{
    if !ends_with(&chars_of(fname), &lit(".xcs")) || !is_file {
        return SortDecision::Ignore;
    }
    match parse_xcs_name(fname) {
        None => SortDecision::Unparsable,
        Some((name, _v)) => {
            let mut d = chars_of(arch);
            append(&mut d, &lit("/"));
            append(&mut d, &chars_of(name.as_str()));
            SortDecision::Move(string_of(&d))
        },
    }
}

/// An existing archive at the target is overwritten only with `--force`,
/// an assumed yes, or the user's confirmation.
pub fn overwrite_allowed(target_exists: bool, force: bool, assume_yes: bool, confirmed: bool) -> (r: bool)
    ensures
        r == (!target_exists || force || assume_yes || confirmed),
{
    !target_exists || force || assume_yes || confirmed
}

// ── Signing ─────────────────────────────────────────────────────────────

/// A file name with the extension `xcs` (not a hidden `.xcs` file).
pub fn signs_file(name: &str) -> (r: bool)
    ensures
        r == (ends(name@, ".xcs"@) && name@.len() > 4),
{
    let n = chars_of(name);
    ends_with(&n, &lit(".xcs")) && n.len() > 4
}

/// The arguments of `gpg` to sign `target` detached with `key_id`.
pub fn gpg_sign_args(key_id: &str, target: &str) -> (r: Vec<String>)
    ensures
        r@.len() == 6,
        r@[0]@ == "--batch"@ && r@[1]@ == "--yes"@ && r@[2]@ == "-u"@,
        r@[3]@ == key_id@ && r@[4]@ == "--detach-sign"@ && r@[5]@ == target@,
{
    let mut r: Vec<String> = Vec::new();
    r.push(own("--batch"));
    r.push(own("--yes"));
    r.push(own("-u"));
    r.push(own(key_id));
    r.push(own("--detach-sign"));
    r.push(own(target));
    r
}

/// The arguments of `gpg` to export the public key `key_id`, armored.
pub fn gpg_export_args(key_id: &str) -> (r: Vec<String>)
    ensures
        r@.len() == 6,
        r@[0]@ == "--batch"@ && r@[1]@ == "--yes"@ && r@[2]@ == "-u"@,
        r@[3]@ == key_id@ && r@[4]@ == "--export"@ && r@[5]@ == "--armor"@,
{
    let mut r: Vec<String> = Vec::new();
    r.push(own("--batch"));
    r.push(own("--yes"));
    r.push(own("-u"));
    r.push(own(key_id));
    r.push(own("--export"));
    r.push(own("--armor"));
    r
}

// ── Publishing ──────────────────────────────────────────────────────────

/// The repository a finished archive is published to: the upload URL,
/// trimmed, when one is set and not blank.
pub fn upload_target(url: Option<&str>) -> (r: Option<String>)
    ensures
        url is None ==> r is None,
        url matches Some(u) ==> (trim(u@).len() == 0 ==> r is None) && (trim(u@).len() > 0 ==> (r matches Some(t) && t@ == trim(u@))),
{
    match url {
        None => None,
        Some(u) => {
            let t = trimmed(&chars_of(u));
            if t.len() == 0 {
                None
            } else {
                Some(string_of(&t))
            }
        },
    }
}

} // verus!
