use vstd::prelude::*;
use crate::text::{chars_of, dec, decimal, lit, own, string_of, vec_eq};

verus! {

// ── Settings of `ous.toml` ──────────────────────────────────────────────

pub fn default_false() -> (r: bool)
    ensures
        !r,
{
    false
}

pub fn default_log_level() -> (r: String)
    ensures
        r@ == "info"@,
{
    own("info")
}

pub fn default_log_file() -> (r: String)
    ensures
        r@ == "/var/log/ous.md"@,
{
    own("/var/log/ous.md")
}

pub fn default_zstd_level() -> (r: u32)
    ensures
        r == 3,
{
    3
}

pub fn default_target_arch() -> (r: String)
    ensures
        r@ == "x86_64-unknown-linux-musl"@,
{
    own("x86_64-unknown-linux-musl")
}

pub fn default_base_url() -> (r: String)
    ensures
        r@ == "https://raw.codeberg.org/Cudane/Repository"@,
{
    own("https://raw.codeberg.org/Cudane/Repository")
}

pub fn default_empty() -> (r: String)
    ensures
        r@.len() == 0,
{
    String::new()
}

/// The `[general]` settings.
pub struct GeneralConfig {
    pub log_level: String,
    pub log_file: String,
    pub quiet: bool,
    pub debug: bool,
}

impl Default for GeneralConfig {
    fn default() -> (r: Self)
        ensures
            r.log_level@ == "info"@,
            r.log_file@ == "/var/log/ous.md"@,
            !r.quiet,
            !r.debug,
    {
        GeneralConfig {
            log_level: default_log_level(),
            log_file: default_log_file(),
            quiet: default_false(),
            debug: default_false(),
        }
    }
}

/// The `[build]` settings.
pub struct BuildConfig {
    pub zstd_level: u32,
    pub target_arch: String,
    pub rust_flags: String,
    pub parallel: bool,
    pub jobs: usize,
    pub force: bool,
    pub clean: bool,
    pub keep_src: bool,
    pub no_auto: bool,
    pub hash_type: String,
}

impl Default for BuildConfig {
    fn default() -> (r: Self)
        ensures
            r.zstd_level == 3,
            r.target_arch@ == "x86_64-unknown-linux-musl"@,
            r.rust_flags@.len() == 0,
            !r.parallel,
            r.jobs == 1,
            !r.force,
            !r.clean,
            !r.keep_src,
            !r.no_auto,
            r.hash_type@ == "sha256"@,
    {
        BuildConfig {
            zstd_level: default_zstd_level(),
            target_arch: default_target_arch(),
            rust_flags: String::new(),
            parallel: default_false(),
            jobs: 1,
            force: default_false(),
            clean: default_false(),
            keep_src: default_false(),
            no_auto: default_false(),
            hash_type: own("sha256"),
        }
    }
}

/// The `[repository]` settings.
pub struct RepositoryConfig {
    pub base_url: String,
    pub arch: String,
}

impl Default for RepositoryConfig {
    fn default() -> (r: Self)
        ensures
            r.base_url@ == "https://raw.codeberg.org/Cudane/Repository"@,
            r.arch@ == "x86_64-unknown-linux-musl"@,
    {
        RepositoryConfig { base_url: default_base_url(), arch: default_target_arch() }
    }
}

/// The `[gpg]` settings.
pub struct GpgConfig {
    pub key_id: String,
    pub sign_index: bool,
    pub sign_packages: bool,
}

impl Default for GpgConfig {
    fn default() -> (r: Self)
        ensures
            r.key_id@.len() == 0,
            !r.sign_index,
            !r.sign_packages,
    {
        GpgConfig { key_id: default_empty(), sign_index: default_false(), sign_packages: default_false() }
    }
}

/// All settings of `ous.toml` that the build reads.
pub struct Config {
    pub general: GeneralConfig,
    pub build: BuildConfig,
    pub repository: RepositoryConfig,
    pub gpg: GpgConfig,
}

impl Default for Config {
    fn default() -> (r: Self)
        ensures
            r.general.log_level@ == "info"@ && !r.general.quiet && !r.general.debug,
            r.build.zstd_level == 3 && r.build.jobs == 1 && r.build.hash_type@ == "sha256"@,
            r.build.target_arch@ == "x86_64-unknown-linux-musl"@,
            !r.build.parallel && !r.build.force && !r.build.clean && !r.build.no_auto,
            r.repository.base_url@ == "https://raw.codeberg.org/Cudane/Repository"@,
            r.gpg.key_id@.len() == 0,
    {
        Config {
            general: GeneralConfig::default(),
            build: BuildConfig::default(),
            repository: RepositoryConfig::default(),
            gpg: GpgConfig::default(),
        }
    }
}

pub open spec fn flag(on: bool, key: Seq<char>, value: Seq<char>) -> Seq<(Seq<char>, Seq<char>)> {
    if on {
        seq![(key, value)]
    } else {
        Seq::empty()
    }
}

/// The environment variables the settings stand for, in order: each
/// setting that differs from its default.
pub open spec fn config_env_of(c: Config) -> Seq<(Seq<char>, Seq<char>)> {
    flag(c.general.quiet, "OUS_QUIET"@, "1"@) + flag(c.general.debug, "OUS_DEBUG"@, "1"@) + flag(
        c.build.zstd_level != 3,
        "OUS_ZSTD_LEVEL"@,
        dec(c.build.zstd_level as nat),
    ) + flag(c.build.target_arch@ != "x86_64-unknown-linux-musl"@, "OUS_TARGET"@, c.build.target_arch@)
        + flag(c.build.parallel, "OUS_PARALLEL"@, "1"@) + flag(c.build.jobs > 1, "OUS_JOBS"@, dec(c.build.jobs as nat))
        + flag(c.build.force, "OUS_FORCE"@, "1"@) + flag(c.build.clean, "OUS_CLEAN"@, "1"@) + flag(
        c.build.no_auto,
        "OUS_NO_AUTO"@,
        "1"@,
    ) + flag(c.build.hash_type@ != "sha256"@, "OUS_HASH_TYPE"@, c.build.hash_type@)
}

fn push_flag(out: &mut Vec<(String, String)>, on: bool, key: &str, value: String)
    ensures
        crate::order::pair_views(final(out)@) == crate::order::pair_views(old(out)@) + flag(on, key@, value@),
{
    let ghost before = crate::order::pair_views(out@);
    if on {
        out.push((own(key), value));
        assert(crate::order::pair_views(out@) =~= before + flag(on, key@, value@));
    } else {
        assert(crate::order::pair_views(out@) =~= before + flag(on, key@, value@));
    }
}

/// The `OUS_*` variables that `ous.toml` sets, each to be applied only
/// where the variable is not set already (flags and the environment win).
pub fn config_env_defaults(c: &Config) -> (r: Vec<(String, String)>)
    ensures
        crate::order::pair_views(r@) == config_env_of(*c),
{
    let mut out: Vec<(String, String)> = Vec::new();
    assert(crate::order::pair_views(out@) =~= Seq::<(Seq<char>, Seq<char>)>::empty());
    push_flag(&mut out, c.general.quiet, "OUS_QUIET", own("1"));
    push_flag(&mut out, c.general.debug, "OUS_DEBUG", own("1"));
    push_flag(&mut out, c.build.zstd_level != 3, "OUS_ZSTD_LEVEL", string_of(&decimal(c.build.zstd_level as u64)));
    push_flag(
        &mut out,
        !vec_eq(&chars_of(c.build.target_arch.as_str()), &lit("x86_64-unknown-linux-musl")),
        "OUS_TARGET",
        c.build.target_arch.clone(),
    );
    push_flag(&mut out, c.build.parallel, "OUS_PARALLEL", own("1"));
    push_flag(&mut out, c.build.jobs > 1, "OUS_JOBS", string_of(&decimal(c.build.jobs as u64)));
    push_flag(&mut out, c.build.force, "OUS_FORCE", own("1"));
    push_flag(&mut out, c.build.clean, "OUS_CLEAN", own("1"));
    push_flag(&mut out, c.build.no_auto, "OUS_NO_AUTO", own("1"));
    push_flag(
        &mut out,
        !vec_eq(&chars_of(c.build.hash_type.as_str()), &lit("sha256")),
        "OUS_HASH_TYPE",
        c.build.hash_type.clone(),
    );
    out
}

/// The default settings ask for no variable.
pub proof fn law_default_config_sets_nothing(c: Config)
    requires
        !c.general.quiet && !c.general.debug && c.build.zstd_level == 3,
        c.build.target_arch@ == "x86_64-unknown-linux-musl"@,
        !c.build.parallel && c.build.jobs <= 1 && !c.build.force && !c.build.clean && !c.build.no_auto,
        c.build.hash_type@ == "sha256"@,
    ensures
        config_env_of(c) == Seq::<(Seq<char>, Seq<char>)>::empty(),
{
    assert(config_env_of(c) =~= Seq::<(Seq<char>, Seq<char>)>::empty());
}

} // verus!
