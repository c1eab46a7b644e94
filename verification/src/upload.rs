use vstd::prelude::*;
use crate::text::{
    append, chars_of, lit, own, starts, starts_with, string_of, strip_end, strip_start, trim,
    trim_end_char, trim_start_char, trimmed, vec_eq,
};

verus! {

/// `base` and `rel` joined by exactly one `/`.
pub open spec fn joined_url(base: Seq<char>, rel: Seq<char>) -> Seq<char> {
    strip_end(base, '/') + seq!['/'] + strip_start(rel, '/')
}

/// Join a repository base URL with a relative pool path, tolerating a
/// trailing and/or leading slash on either side.
pub fn join_url(base_url: &str, rel: &str) -> (r: String)
    ensures
        r@ == joined_url(base_url@, rel@),
{
    let mut out = trim_end_char(&chars_of(base_url), '/');
    out.push('/');
    let tail = trim_start_char(&chars_of(rel), '/');
    append(&mut out, &tail);
    string_of(&out)
}

/// Joining tolerates slashes: a trailing slash on the base and a leading
/// slash on the relative path change nothing.
pub proof fn law_join_url_slash_tolerant(base: Seq<char>, rel: Seq<char>)
    ensures
        joined_url(base.push('/'), rel) == joined_url(base, rel),
        joined_url(base, seq!['/'] + rel) == joined_url(base, rel),
{
    assert(base.push('/').drop_last() =~= base);
    assert((seq!['/'] + rel).drop_first() =~= rel);
}

/// The directory name of an architecture in the repository layout: an empty
/// value or `native` means `native`.
pub open spec fn arch_dir(arch: Seq<char>) -> Seq<char> {
    if arch.len() == 0 || arch == "native"@ {
        "native"@
    } else {
        arch
    }
}

fn arch_dir_chars(arch: &str) -> (r: Vec<char>)
    ensures
        r@ == arch_dir(arch@),
{
    let a = chars_of(arch);
    if a.len() == 0 || vec_eq(&a, &lit("native")) {
        lit("native")
    } else {
        a
    }
}

/// The architecture as shown to the user: `native` for an empty value.
pub fn arch_display(arch: &str) -> (r: String)
    ensures
        r@ == arch_dir(arch@),
{
    string_of(&arch_dir_chars(arch))
}

/// `pool/<arch>/<name>/<name>-<version>.xcs`.
pub open spec fn pool_archive(name: Seq<char>, version: Seq<char>, arch: Seq<char>) -> Seq<char> {
    "pool/"@ + arch_dir(arch) + "/"@ + name + "/"@ + name + "-"@ + version + ".xcs"@
}

/// Repository-relative paths of a published package and of its `.sha256`
/// integrity sidecar, in the pool layout `pool/<arch>/<name>/<name>-<ver>.xcs`.
pub fn pool_paths(pkg_name: &str, pkg_version: &str, arch: &str) -> (r: (String, String))
    ensures
        r.0@ == pool_archive(pkg_name@, pkg_version@, arch@),
        r.1@ == pool_archive(pkg_name@, pkg_version@, arch@) + ".sha256"@,
{
    let name = chars_of(pkg_name);
    let mut p = lit("pool/");
    append(&mut p, &arch_dir_chars(arch));
    append(&mut p, &lit("/"));
    append(&mut p, &name);
    append(&mut p, &lit("/"));
    append(&mut p, &name);
    append(&mut p, &lit("-"));
    append(&mut p, &chars_of(pkg_version));
    append(&mut p, &lit(".xcs"));
    let mut side = p.clone();
    append(&mut side, &lit(".sha256"));
    (string_of(&p), string_of(&side))
}

/// `index.<arch>.json`.
pub open spec fn index_file(arch: Seq<char>) -> Seq<char> {
    "index."@ + arch_dir(arch) + ".json"@
}

/// Index file name for an architecture, as clients fetch it.
pub fn index_path(arch: &str) -> (r: String)
    ensures
        r@ == index_file(arch@),
{
    let mut p = lit("index.");
    append(&mut p, &arch_dir_chars(arch));
    append(&mut p, &lit(".json"));
    string_of(&p)
}

/// The pool path of a package and the index it is listed in name the same
/// architecture directory.
pub proof fn law_pool_and_index_agree_on_arch(name: Seq<char>, version: Seq<char>, arch: Seq<char>)
    ensures
        pool_archive(name, version, arch) == "pool/"@ + arch_dir(arch) + "/"@ + name + "/"@ + name
            + "-"@ + version + ".xcs"@,
        index_file(arch) == "index."@ + arch_dir(arch) + ".json"@,
        arch_dir(arch_dir(arch)) == arch_dir(arch),
{
    reveal_strlit("native");
}

/// Settings that control how a finished package is published over HTTP.
pub struct UploadOptions {
    /// Repository base URL (`http://` or `https://`) packages are PUT into.
    pub base_url: String,
    /// Optional bearer token; sent as `Authorization: Bearer <token>`.
    pub token: Option<String>,
    /// Target architecture, used to build the `pool/<arch>/` layout.
    pub arch: String,
    /// Also PUT the updated `index.<arch>.json` to the repository root.
    pub upload_index: bool,
}

/// One step of publishing a package.
pub enum UploadStep {
    /// HTTP PUT the local file `file` to `url`.
    Put { url: String, file: String },
    /// Stop with an error: the integrity sidecar `file` does not exist.
    MissingSidecar { file: String },
    /// The index upload was requested but `file` does not exist.
    IndexNotFound { file: String },
    /// The index upload was requested but no index file was supplied.
    NoIndexSupplied,
}

/// The base URL is neither `http://` nor `https://`.
pub struct InvalidBaseUrl {
    pub base_url: String,
}

/// The local `.sha256` sidecar written next to an archive.
pub fn sidecar_path(archive: &str) -> (r: String)
    ensures
        r@ == archive@ + ".sha256"@,
{
    let mut p = chars_of(archive);
    append(&mut p, &lit(".sha256"));
    string_of(&p)
}

pub open spec fn missing_sidecar_step(s: UploadStep, file: Seq<char>) -> bool {
    s matches UploadStep::MissingSidecar { file: f } && f@ == file
}

pub open spec fn index_not_found_step(s: UploadStep, file: Seq<char>) -> bool {
    s matches UploadStep::IndexNotFound { file: f } && f@ == file
}

pub open spec fn put_step(s: UploadStep, url: Seq<char>, file: Seq<char>) -> bool {
    s matches UploadStep::Put { url: u, file: f } && u@ == url && f@ == file
}

/// Plan the publication of a built package: PUT the archive, then its
/// sidecar, then, when requested, the index; when the integrity sidecar is
/// missing, the plan ends after the archive with a refusal. `sidecar_exists`
/// tells whether `<archive>.sha256` exists; `index_source` is the local index with whether it exists. The
/// steps are carried out in order and the first failure ends the upload.
pub fn upload_package(
    opts: &UploadOptions,
    archive_abs: &str,
    pkg_name: &str,
    pkg_version: &str,
    sidecar_exists: bool,
    index_source: Option<(&str, bool)>,
) -> (r: Result<Vec<UploadStep>, InvalidBaseUrl>)
    ensures
        r is Err <==> !(starts(opts.base_url@, "http://"@) || starts(opts.base_url@, "https://"@)),
        r matches Err(e) ==> e.base_url@ == opts.base_url@,
        r matches Ok(steps) ==> {
            let archive_url = joined_url(opts.base_url@, pool_archive(pkg_name@, pkg_version@, opts.arch@));
            let sidecar_url = joined_url(opts.base_url@, pool_archive(pkg_name@, pkg_version@, opts.arch@) + ".sha256"@);
            &&& steps.len() >= 2 && put_step(steps[0], archive_url, archive_abs@)
            &&& !sidecar_exists ==> steps.len() == 2 && missing_sidecar_step(steps[1], archive_abs@ + ".sha256"@)
            &&& sidecar_exists ==> put_step(steps[1], sidecar_url, archive_abs@ + ".sha256"@)
            &&& sidecar_exists && !opts.upload_index ==> steps.len() == 2
            &&& sidecar_exists && opts.upload_index ==> steps.len() == 3 && match index_source {
                Some((src, true)) => put_step(steps[2], joined_url(opts.base_url@, index_file(opts.arch@)), src@),
                Some((src, false)) => index_not_found_step(steps[2], src@),
                None => steps[2] is NoIndexSupplied,
            }
        },
{
    let base = chars_of(opts.base_url.as_str());
    if !(starts_with(&base, &lit("http://")) || starts_with(&base, &lit("https://"))) {
        return Err(InvalidBaseUrl { base_url: opts.base_url.clone() });
    }
    let (rel_archive, rel_sidecar) = pool_paths(pkg_name, pkg_version, opts.arch.as_str());
    let mut steps: Vec<UploadStep> = Vec::new();
    let sidecar = sidecar_path(archive_abs);
    steps.push(
        UploadStep::Put {
            url: join_url(opts.base_url.as_str(), rel_archive.as_str()),
            file: own(archive_abs),
        },
    );
    if !sidecar_exists {
        steps.push(UploadStep::MissingSidecar { file: sidecar });
        return Ok(steps);
    }
    steps.push(
        UploadStep::Put { url: join_url(opts.base_url.as_str(), rel_sidecar.as_str()), file: sidecar },
    );
    if opts.upload_index {
        match index_source {
            Some((src, true)) => {
                let rel_index = index_path(opts.arch.as_str());
                steps.push(
                    UploadStep::Put {
                        url: join_url(opts.base_url.as_str(), rel_index.as_str()),
                        file: own(src),
                    },
                );
            },
            Some((src, false)) => {
                steps.push(UploadStep::IndexNotFound { file: own(src) });
            },
            None => {
                steps.push(UploadStep::NoIndexSupplied);
            },
        }
    }
    Ok(steps)
}

/// Number of upload attempts before giving up.
pub const MAX_ATTEMPTS: u32 = 4;

/// Base delay in milliseconds for the first retry; doubled on each retry.
pub const BASE_RETRY_MS: u64 = 500;

pub open spec fn pow2(n: nat) -> nat
    decreases n,
{
    if n == 0 {
        1
    } else {
        2 * pow2((n - 1) as nat)
    }
}

/// After the failed attempt `attempt` (counting from 0): the delay before the
/// next attempt, or `None` when no attempt remains.
pub fn retry_delay_ms(attempt: u32) -> (r: Option<u64>)
    ensures
        attempt + 1 >= MAX_ATTEMPTS ==> r is None,
        attempt + 1 < MAX_ATTEMPTS ==> r == Some((BASE_RETRY_MS * pow2(attempt as nat)) as u64),
{
    if attempt >= MAX_ATTEMPTS - 1 {
        return None;
    }
    assert(pow2(0) == 1 && pow2(1) == 2 && pow2(2) == 4) by {
        reveal_with_fuel(pow2, 3);
    }
    let mut d: u64 = BASE_RETRY_MS;
    let mut k: u32 = 0;
    while k < attempt
        invariant
            k <= attempt < 3,
            d == BASE_RETRY_MS * pow2(k as nat),
            pow2(0) == 1 && pow2(1) == 2 && pow2(2) == 4,
        decreases attempt - k,
    {
        d = d * 2;
        k = k + 1;
    }
    Some(d)
}

/// The `curl` arguments of one HTTP PUT of `file` to `url`; a token that is
/// not blank is sent, trimmed, as a bearer authorization header.
pub fn curl_put_args(url: &str, file: &str, token: Option<&str>) -> (r: Vec<String>)
    ensures
        r@.len() == (if token is Some && trim(token->0@).len() > 0 { 10int } else { 8int }),
        r@[0]@ == "--fail"@,
        r@[1]@ == "--silent"@,
        r@[2]@ == "--show-error"@,
        r@[3]@ == "--request"@,
        r@[4]@ == "PUT"@,
        r@[5]@ == "--upload-file"@,
        r@[6]@ == file@,
        token is Some && trim(token->0@).len() > 0 ==> r@[7]@ == "--header"@ && r@[8]@
            == "Authorization: Bearer "@ + trim(token->0@),
        r@.last()@ == url@,
{
    let mut args: Vec<String> = Vec::new();
    args.push(own("--fail"));
    args.push(own("--silent"));
    args.push(own("--show-error"));
    args.push(own("--request"));
    args.push(own("PUT"));
    args.push(own("--upload-file"));
    args.push(own(file));
    if let Some(t) = token {
        let tt = trimmed(&chars_of(t));
        if tt.len() > 0 {
            args.push(own("--header"));
            let mut h = lit("Authorization: Bearer ");
            append(&mut h, &tt);
            args.push(string_of(&h));
        }
    }
    args.push(own(url));
    args
}

} // verus!
