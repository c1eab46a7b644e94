use vstd::prelude::*;
use crate::digest::{hex_of, to_hex};
use crate::model::{Checksum, Dependency, Manifest, Package, PackageMetadata, PackageProvenance, ServiceDecl, ServiceSpec, str_eq};
use crate::outside::{to_lowercase, unicode_lowercase};
use crate::paths::{path_key, path_key_of};
use crate::naming::{
    canonical_arch, canonical_arch_of, path_component_ok, validate_path_component,
    validate_version_component, version_component_ok, InvalidComponent, UnsupportedArch,
};
use crate::order::views;
use crate::outside::{sha256_digest, sha256_of};
use crate::text::{
    all_ascii, append, ascii_lower, chars_of, dec, decimal, ends, ends_with, eq_ci, eq_ignore_ascii_case, lit, own, starts,
    starts_with, string_of, strip_start, trim, trim_start_char, trimmed, vec_eq,
};
use vstd::utf8::encode_utf8;

verus! {

// ── Resume state of a package build ─────────────────────────────────────

/// A set of step names, kept as a list without repeats.
pub struct StepSet {
    pub items: Vec<String>,
}

impl View for StepSet {
    type V = Set<Seq<char>>;

    open spec fn view(&self) -> Set<Seq<char>> {
        views(self.items@).to_set()
    }
}

fn position_of(v: &Vec<String>, x: &str) -> (r: usize)
    ensures
        r <= v.len(),
        r < v.len() ==> v@[r as int]@ == x@ && views(v@).contains(x@),
        r == v.len() ==> !views(v@).contains(x@),
{
    let xs = chars_of(x);
    let mut i: usize = 0;
    while i < v.len()
        invariant
            i <= v.len(),
            xs@ == x@,
            forall|k: int| 0 <= k < i ==> v@[k]@ != x@,
        decreases v.len() - i,
    {
        if vec_eq(&chars_of(v[i].as_str()), &xs) {
            assert(views(v@)[i as int] == x@);
            return i;
        }
        i = i + 1;
    }
    assert forall|k: int| 0 <= k < views(v@).len() implies views(v@)[k] != x@ by {
        assert(views(v@)[k] == v@[k]@);
    }
    i
}

impl StepSet {
    pub fn new() -> (r: Self)
        ensures
            r@ == Set::<Seq<char>>::empty(),
    {
        let r = StepSet { items: Vec::new() };
        assert(views(r.items@) =~= Seq::<Seq<char>>::empty());
        assert(r@ =~= Set::<Seq<char>>::empty());
        r
    }

    /// Whether `step` is in the set.
    pub fn contains(&self, step: &str) -> (r: bool)
        ensures
            r == self@.contains(step@),
    {
        position_of(&self.items, step) < self.items.len()
    }

    /// Adds `step`; `true` when it was not there yet.
    pub fn insert(&mut self, step: String) -> (r: bool)
        ensures
            final(self)@ == old(self)@.insert(step@),
            r == !old(self)@.contains(step@),
    {
        if position_of(&self.items, step.as_str()) < self.items.len() {
            assert(self@.insert(step@) =~= self@);
            false
        } else {
            let ghost before = views(self.items@);
            self.items.push(step);
            proof {
                assert(views(self.items@) =~= before.push(step@));
                crate::order::lemma_push_to_set(before, step@);
            }
            true
        }
    }

    /// Removes `step`; `true` when it was there.
    pub fn remove(&mut self, step: &str) -> (r: bool)
        ensures
            final(self)@ == old(self)@.remove(step@),
            r == old(self)@.contains(step@),
    {
        let ghost start = self@;
        let was = self.contains(step);
        let mut kept: Vec<String> = Vec::new();
        let mut i: usize = 0;
        while i < self.items.len()
            invariant
                i <= self.items.len(),
                start == views(self.items@).to_set(),
                views(kept@).to_set() == views(self.items@.take(i as int)).to_set().remove(step@),
            decreases self.items.len() - i,
        {
            let ghost before = views(kept@);
            assert(views(self.items@.take(i + 1)) =~= views(self.items@.take(i as int)).push(self.items@[i as int]@));
            proof {
                crate::order::lemma_push_to_set(views(self.items@.take(i as int)), self.items@[i as int]@);
            }
            if !vec_eq(&chars_of(self.items[i].as_str()), &chars_of(step)) {
                kept.push(self.items[i].clone());
                proof {
                    assert(views(kept@) =~= before.push(self.items@[i as int]@));
                    crate::order::lemma_push_to_set(before, self.items@[i as int]@);
                }
                assert(views(kept@).to_set() =~= views(self.items@.take(i + 1)).to_set().remove(step@));
            } else {
                assert(views(kept@).to_set() =~= views(self.items@.take(i + 1)).to_set().remove(step@));
            }
            i = i + 1;
        }
        assert(self.items@.take(self.items.len() as int) =~= self.items@);
        self.items = kept;
        was
    }
}

/// The steps of a package build already completed, so that a rerun
/// resumes after them.
pub struct BuildProgress {
    pub completed_steps: StepSet,
}

impl Default for BuildProgress {
    fn default() -> (r: Self)
        ensures
            r.completed_steps@ == Set::<Seq<char>>::empty(),
    {
        BuildProgress { completed_steps: StepSet::new() }
    }
}

/// The steps of a package build, in the order they run.
pub enum Stage {
    Fetch,
    Build,
    Install,
    Hash,
    Metadata,
    Archive,
}

pub open spec fn stage_label(s: Stage) -> Seq<char> {
    match s {
        Stage::Fetch => "fetch"@,
        Stage::Build => "build"@,
        Stage::Install => "install"@,
        Stage::Hash => "hash"@,
        Stage::Metadata => "metadata"@,
        Stage::Archive => "archive"@,
    }
}

/// The name under which a completed stage is recorded.
pub fn stage_name(s: &Stage) -> (r: String)
    ensures
        r@ == stage_label(*s),
{
    match s {
        Stage::Fetch => own("fetch"),
        Stage::Build => own("build"),
        Stage::Install => own("install"),
        Stage::Hash => own("hash"),
        Stage::Metadata => own("metadata"),
        Stage::Archive => own("archive"),
    }
}

/// What to do about a stage on a (re)run.
pub enum StageAction {
    /// Completed before and its output is still there.
    Skip,
    /// Not completed yet.
    Run,
    /// Recorded as completed but its output is gone: run it again.
    Redo,
}

pub open spec fn stage_action_of(done: Set<Seq<char>>, s: Stage, output_present: bool) -> StageAction {
    if !done.contains(stage_label(s)) {
        StageAction::Run
    } else if output_present {
        StageAction::Skip
    } else {
        StageAction::Redo
    }
}

/// Whether a stage runs again: it runs unless it completed before and its
/// output (the source tree, the build log, the staged files, the
/// checksums; always there for metadata and archive) is still present.
pub fn stage_action(state: &BuildProgress, s: &Stage, output_present: bool) -> (r: StageAction)
    ensures
        r == stage_action_of(state.completed_steps@, *s, output_present),
{
    let name = stage_name(s);
    if !state.completed_steps.contains(name.as_str()) {
        StageAction::Run
    } else if output_present {
        StageAction::Skip
    } else {
        StageAction::Redo
    }
}

/// Records that a stage completed.
pub fn complete_stage(state: &mut BuildProgress, s: &Stage)
    ensures
        final(state).completed_steps@ == old(state).completed_steps@.insert(stage_label(*s)),
{
    let name = stage_name(s);
    state.completed_steps.insert(name);
}

/// `--force`: forget that hashing, metadata and archiving completed, so
/// that a fresh archive is produced.
pub fn force_rebuild(state: &mut BuildProgress)
    ensures
        final(state).completed_steps@ == old(state).completed_steps@.remove("archive"@).remove("hash"@).remove(
            "metadata"@,
        ),
{
    state.completed_steps.remove("archive");
    state.completed_steps.remove("hash");
    state.completed_steps.remove("metadata");
}

/// The step after the build commands ran, given their log or their error:
/// on success the build stage is recorded as completed and the log is
/// handed on to be written; on failure nothing is recorded and the error is
/// reported as `Build step failed: <error>`.
pub fn run_build_step(state: &mut BuildProgress, outcome: Result<String, String>) -> (r: Result<String, String>)
    ensures
        outcome matches Ok(log) ==> (r matches Ok(l) && l@ == log@)
            && final(state).completed_steps@ == old(state).completed_steps@.insert("build"@),
        outcome matches Err(e) ==> (r matches Err(m) && m@ == "Build step failed: "@ + e@)
            && final(state).completed_steps@ == old(state).completed_steps@,
{
    match outcome {
        Ok(log) => {
            complete_stage(state, &Stage::Build);
            Ok(log)
        },
        Err(e) => {
            let mut m = lit("Build step failed: ");
            append(&mut m, &chars_of(e.as_str()));
            Err(string_of(&m))
        },
    }
}

/// The step after the staged files were hashed, given their checksums or
/// the error: on success the hash stage is recorded as completed and the
/// checksums are handed on; on failure nothing is recorded and the error is
/// reported as `Hashing step failed: <error>`.
pub fn compute_hash_step(state: &mut BuildProgress, outcome: Result<Vec<Checksum>, String>) -> (r: Result<Vec<Checksum>, String>)
    ensures
        outcome matches Ok(s) ==> r == Ok::<Vec<Checksum>, String>(s)
            && final(state).completed_steps@ == old(state).completed_steps@.insert("hash"@),
        outcome matches Err(e) ==> (r matches Err(m) && m@ == "Hashing step failed: "@ + e@)
            && final(state).completed_steps@ == old(state).completed_steps@,
{
    match outcome {
        Ok(s) => {
            complete_stage(state, &Stage::Hash);
            Ok(s)
        },
        Err(e) => {
            let mut m = lit("Hashing step failed: ");
            append(&mut m, &chars_of(e.as_str()));
            Err(string_of(&m))
        },
    }
}

/// A completed stage whose output is present is skipped on the next run.
pub proof fn law_completed_stage_is_skipped(done: Set<Seq<char>>, s: Stage)
    ensures
        stage_action_of(done.insert(stage_label(s)), s, true) == StageAction::Skip,
{
}

/// After `--force`, hashing, metadata and archiving run again while the
/// earlier stages keep their state.
pub proof fn law_force_reruns_tail(done: Set<Seq<char>>, present: bool)
    ensures
        ({
            let d = done.remove("archive"@).remove("hash"@).remove("metadata"@);
            &&& stage_action_of(d, Stage::Hash, present) == StageAction::Run
            &&& stage_action_of(d, Stage::Metadata, present) == StageAction::Run
            &&& stage_action_of(d, Stage::Archive, present) == StageAction::Run
            &&& stage_action_of(d, Stage::Fetch, present) == stage_action_of(done, Stage::Fetch, present)
            &&& stage_action_of(d, Stage::Build, present) == stage_action_of(done, Stage::Build, present)
            &&& stage_action_of(d, Stage::Install, present) == stage_action_of(done, Stage::Install, present)
        }),
{
    reveal_strlit("archive");
    reveal_strlit("hash");
    reveal_strlit("metadata");
    reveal_strlit("fetch");
    reveal_strlit("build");
    reveal_strlit("install");
    assert("archive"@.len() == 7 && "hash"@.len() == 4 && "metadata"@.len() == 8);
    assert("fetch"@.len() == 5 && "build"@.len() == 5 && "install"@.len() == 7);
    assert("fetch"@[0] != "build"@[0]);
    assert("archive"@[0] != "install"@[0]);
    assert("fetch"@ != "archive"@ && "fetch"@ != "hash"@ && "fetch"@ != "metadata"@);
    assert("build"@ != "archive"@ && "build"@ != "hash"@ && "build"@ != "metadata"@);
    assert("install"@ != "archive"@ && "install"@ != "hash"@ && "install"@ != "metadata"@);
}

/// The stages of a package build in the order a run takes them.
pub open spec fn pipeline_stages() -> Seq<Stage> {
    seq![Stage::Fetch, Stage::Build, Stage::Install, Stage::Hash, Stage::Metadata, Stage::Archive]
}

/// The `j`-th stage completed before and its output is present.
pub open spec fn kept_stage(done: Set<Seq<char>>, present: Seq<bool>, j: int) -> bool {
    done.contains(stage_label(pipeline_stages()[j])) && present[j]
}

/// The run reaches the `k`-th stage from the `i`-th: each stage between was
/// skipped or succeeded.
pub open spec fn reached(done: Set<Seq<char>>, present: Seq<bool>, ok: Seq<bool>, i: int, k: int) -> bool {
    forall|j: int| i <= j < k ==> #[trigger] kept_stage(done, present, j) || ok[j]
}

/// The completed steps after a run from the `i`-th stage on, where
/// `present[j]` tells whether the `j`-th stage's output is there and `ok[j]`
/// whether that stage succeeds when it runs: each stage is asked
/// `stage_action_of`; a skipped one leaves the record as it is, one that
/// runs and succeeds is recorded as `complete_stage` records it, and the
/// first that fails ends the run.
pub open spec fn resumed_steps(done: Set<Seq<char>>, present: Seq<bool>, ok: Seq<bool>, i: int) -> Set<Seq<char>>
    decreases 6 - i,
{
    if i < 0 || i >= 6 {
        done
    } else if stage_action_of(done, pipeline_stages()[i], present[i]) == StageAction::Skip {
        resumed_steps(done, present, ok, i + 1)
    } else if ok[i] {
        resumed_steps(done.insert(stage_label(pipeline_stages()[i])), present, ok, i + 1)
    } else {
        done
    }
}

proof fn lemma_stage_labels_distinct(j: int, k: int)
    requires
        0 <= j < 6,
        0 <= k < 6,
        j != k,
    ensures
        stage_label(pipeline_stages()[j]) != stage_label(pipeline_stages()[k]),
{
    reveal_strlit("archive");
    reveal_strlit("hash");
    reveal_strlit("metadata");
    reveal_strlit("fetch");
    reveal_strlit("build");
    reveal_strlit("install");
    assert("archive"@.len() == 7 && "hash"@.len() == 4 && "metadata"@.len() == 8);
    assert("fetch"@.len() == 5 && "build"@.len() == 5 && "install"@.len() == 7);
    assert("fetch"@[0] != "build"@[0]);
    assert("archive"@[0] != "install"@[0]);
}

proof fn lemma_resumed_steps(done: Set<Seq<char>>, present: Seq<bool>, ok: Seq<bool>, i: int)
    requires
        0 <= i <= 6,
        present.len() == 6,
        ok.len() == 6,
    ensures
        forall|k: int|
            0 <= k < 6 ==> (resumed_steps(done, present, ok, i).contains(#[trigger] stage_label(pipeline_stages()[k]))
                <==> (done.contains(stage_label(pipeline_stages()[k])) || (i <= k && reached(done, present, ok, i, k)
                && ok[k]))),
        done.subset_of(resumed_steps(done, present, ok, i)),
    decreases 6 - i,
{
    if i < 6 {
        let li = stage_label(pipeline_stages()[i]);
        let skip = stage_action_of(done, pipeline_stages()[i], present[i]) == StageAction::Skip;
        assert(skip <==> kept_stage(done, present, i));
        if skip {
            lemma_resumed_steps(done, present, ok, i + 1);
            assert forall|k: int| 0 <= k < 6 && i < k implies (reached(done, present, ok, i, k) <==> reached(
                done,
                present,
                ok,
                i + 1,
                k,
            )) by {
                if reached(done, present, ok, i + 1, k) {
                    assert forall|j: int| i <= j < k implies #[trigger] kept_stage(done, present, j) || ok[j] by {
                        if j > i {
                            assert(i + 1 <= j < k);
                        }
                    }
                }
            }
        } else if ok[i] {
            let d = done.insert(li);
            lemma_resumed_steps(d, present, ok, i + 1);
            assert forall|j: int| i < j < 6 implies (#[trigger] kept_stage(d, present, j) <==> kept_stage(done, present, j)) by {
                lemma_stage_labels_distinct(i, j);
            }
            assert forall|k: int| 0 <= k < 6 && i < k implies (reached(d, present, ok, i + 1, k) <==> reached(
                done,
                present,
                ok,
                i,
                k,
            )) by {
                if reached(d, present, ok, i + 1, k) {
                    assert forall|j: int| i <= j < k implies #[trigger] kept_stage(done, present, j) || ok[j] by {
                        if j > i {
                            assert(i + 1 <= j < k);
                            assert(kept_stage(d, present, j) || ok[j]);
                        }
                    }
                }
                if reached(done, present, ok, i, k) {
                    assert forall|j: int| i + 1 <= j < k implies #[trigger] kept_stage(d, present, j) || ok[j] by {
                        assert(kept_stage(done, present, j) || ok[j]);
                    }
                }
            }
            assert forall|k: int| 0 <= k < 6 && k != i implies (d.contains(
                #[trigger] stage_label(pipeline_stages()[k]),
            ) <==> done.contains(stage_label(pipeline_stages()[k]))) by {
                lemma_stage_labels_distinct(i, k);
            }
        } else {
            assert forall|k: int| 0 <= k < 6 && i < k implies !reached(done, present, ok, i, k) by {
                assert(!(kept_stage(done, present, i) || ok[i]));
            }
        }
    }
}

/// Resuming a build: a run that takes the stages in order, skipping each
/// one that completed before and whose output is present and recording
/// each one that runs and succeeds, ends with the steps completed before
/// plus exactly the stages it reached that succeeded. A stage that fails is
/// not recorded unless it was before, and nothing recorded is forgotten.
pub proof fn law_resume_records_successes(done: Set<Seq<char>>, present: Seq<bool>, ok: Seq<bool>)
    requires
        present.len() == 6,
        ok.len() == 6,
    ensures
        forall|k: int|
            0 <= k < 6 ==> (resumed_steps(done, present, ok, 0).contains(#[trigger] stage_label(pipeline_stages()[k]))
                <==> (done.contains(stage_label(pipeline_stages()[k])) || (reached(done, present, ok, 0, k) && ok[k]))),
        done.subset_of(resumed_steps(done, present, ok, 0)),
        forall|k: int|
            0 <= k < 6 && !done.contains(stage_label(pipeline_stages()[k])) && !ok[k] ==> !resumed_steps(
                done,
                present,
                ok,
                0,
            ).contains(#[trigger] stage_label(pipeline_stages()[k])),
{
    lemma_resumed_steps(done, present, ok, 0);
}

// ── Before a build ──────────────────────────────────────────────────────

/// Some earlier package of `ps` than the `i`-th has its name and
/// architecture.
pub open spec fn repeats_earlier(ps: Seq<Package>, i: int) -> bool {
    exists|j: int| 0 <= j < i && #[trigger] ps[j].name@ == ps[i].name@ && ps[j].arch@ == ps[i].arch@
}

/// The first package of a manifest that repeats the name and architecture
/// of an earlier one: two such entries would build into the same workspace.
pub fn repeated_entry(m: &Manifest) -> (r: Option<usize>)
    ensures
        r matches Some(i) ==> (i < m.packages@.len() && repeats_earlier(m.packages@, i as int)
            && forall|k: int| 0 <= k < i ==> !repeats_earlier(m.packages@, k)),
        r is None ==> forall|k: int| 0 <= k < m.packages@.len() ==> !repeats_earlier(m.packages@, k),
{
    let ps = &m.packages;
    let mut i: usize = 0;
    while i < ps.len()
        invariant
            i <= ps.len(),
            ps == m.packages,
            forall|k: int| 0 <= k < i ==> !repeats_earlier(ps@, k),
        decreases ps.len() - i,
    {
        let mut j: usize = 0;
        while j < i
            invariant
                j <= i < ps.len(),
                ps == m.packages,
                forall|k: int| 0 <= k < i ==> !repeats_earlier(ps@, k),
                forall|k: int| 0 <= k < j ==> !(#[trigger] ps@[k].name@ == ps@[i as int].name@ && ps@[k].arch@ == ps@[i as int].arch@),
            decreases i - j,
        {
            if str_eq(&ps[j].name, &ps[i].name) && str_eq(&ps[j].arch, &ps[i].arch) {
                assert(ps@[j as int].name@ == ps@[i as int].name@ && ps@[j as int].arch@ == ps@[i as int].arch@);
                return Some(i);
            }
            j = j + 1;
        }
        i = i + 1;
    }
    None
}


/// Why a package cannot be processed.
pub enum ProcessError {
    Arch(UnsupportedArch),
    Component(InvalidComponent),
}

/// The canonical architecture of a package, once its name, architecture
/// and version are safe to use in paths.
pub fn checked_identity(name: &str, version: &str, arch: &str) -> (r: Result<String, ProcessError>)
    ensures
        r is Ok <==> ({
            &&& canonical_arch_of(arch@) is Some
            &&& path_component_ok(name@)
            &&& path_component_ok(canonical_arch_of(arch@)->Some_0)
            &&& version_component_ok(version@)
        }),
        r matches Ok(a) ==> canonical_arch_of(arch@) == Some(a@),
        r matches Err(ProcessError::Arch(_)) ==> canonical_arch_of(arch@) is None,
        r matches Err(ProcessError::Component(e)) ==> (!path_component_ok(name@) && e.label@ == "package name"@ && e.value@ == name@) || (path_component_ok(name@) && !path_component_ok(canonical_arch_of(arch@)->Some_0) && e.label@ == "package arch"@) || (path_component_ok(name@) && path_component_ok(canonical_arch_of(arch@)->Some_0) && e.label@ == "package version"@ && e.value@ == version@),
{
    let canonical = match canonical_arch(arch) {
        Ok(a) => a,
        Err(e) => return Err(ProcessError::Arch(e)),
    };
    if let Err(e) = validate_path_component(name, "package name") {
        return Err(ProcessError::Component(e));
    }
    if let Err(e) = validate_path_component(canonical.as_str(), "package arch") {
        return Err(ProcessError::Component(e));
    }
    if let Err(e) = validate_version_component(version, "package version") {
        return Err(ProcessError::Component(e));
    }
    Ok(canonical)
}

/// `<out>/<name>-<version>.xcs`.
pub fn archive_path(out_dir: &str, name: &str, version: &str) -> (r: String)
    ensures
        r@ == out_dir@ + "/"@ + name@ + "-"@ + version@ + ".xcs"@,
{
    let mut p = chars_of(out_dir);
    append(&mut p, &lit("/"));
    append(&mut p, &chars_of(name));
    append(&mut p, &lit("-"));
    append(&mut p, &chars_of(version));
    append(&mut p, &lit(".xcs"));
    string_of(&p)
}

/// An existing archive is reused unless `--force` or `--clean` is given.
pub fn reuse_archive(exists: bool, force: bool, clean: bool) -> (r: bool)
    ensures
        r == (exists && !force && !clean),
{
    exists && !force && !clean
}

/// The workspace of a package below the workspace root:
/// `.ous/<name>` for the native architecture, else `.ous/<name>/<arch>`.
pub fn work_subdir(name: &str, arch: &str) -> (r: String)
    ensures
        r@ == ".ous/"@ + name@ + if arch@.len() == 0 || arch@ == "native"@ {
            Seq::<char>::empty()
        } else {
            "/"@ + arch@
        },
{
    let mut p = lit(".ous/");
    append(&mut p, &chars_of(name));
    let a = chars_of(arch);
    if !(a.len() == 0 || vec_eq(&a, &lit("native"))) {
        append(&mut p, &lit("/"));
        append(&mut p, &a);
    } else {
        assert(p@ =~= p@ + Seq::<char>::empty());
    }
    string_of(&p)
}

/// The workspace root an override names, when it is not blank.
pub fn workspace_override(value: Option<&str>) -> (r: Option<String>)
    ensures
        r matches Some(s) ==> (value matches Some(v) && s@ == v@ && trim(v@).len() > 0),
        r is None ==> (value is None || trim(value->Some_0@).len() == 0),
{
    match value {
        Some(v) => {
            if trimmed(&chars_of(v)).len() > 0 {
                Some(own(v))
            } else {
                None
            }
        },
        None => None,
    }
}

/// A build starts from a fresh workspace on `--clean` or when no resume
/// state was saved.
pub fn start_fresh(clean: bool, state_saved: bool) -> (r: bool)
    ensures
        r == (clean || !state_saved),
{
    clean || !state_saved
}

// ── Building and installing ─────────────────────────────────────────────

/// A build or install command that asks for nothing to be done (`none`,
/// `skip` or `nothing`, in any ASCII case, surrounded by whitespace).
pub open spec fn skip_command(cmd: Seq<char>) -> bool {
    let t = trim(cmd);
    eq_ci(t, "none"@) || eq_ci(t, "skip"@) || eq_ci(t, "nothing"@)
}

pub fn is_skip_command(cmd: &str) -> (r: bool)
    ensures
        r == skip_command(cmd@),
{
    let t = trimmed(&chars_of(cmd));
    eq_ignore_ascii_case(&t, &lit("none")) || eq_ignore_ascii_case(&t, &lit("skip"))
        || eq_ignore_ascii_case(&t, &lit("nothing"))
}

/// What a build does when the manifest gives no build commands.
pub enum AutoBuild {
    /// Run the manifest's commands.
    Commands,
    /// Do nothing.
    Nothing,
    /// Run `cargo build --release` for the target.
    Cargo,
}

pub open spec fn auto_build_of(has_commands: bool, no_auto: bool, build_type: Seq<char>) -> AutoBuild {
    if has_commands {
        AutoBuild::Commands
    } else if no_auto {
        AutoBuild::Nothing
    } else if build_type == "rust"@ {
        AutoBuild::Cargo
    } else {
        AutoBuild::Nothing
    }
}

pub fn auto_build(has_commands: bool, no_auto: bool, build_type: &str) -> (r: AutoBuild)
    ensures
        r == auto_build_of(has_commands, no_auto, build_type@),
{
    if has_commands {
        AutoBuild::Commands
    } else if no_auto {
        AutoBuild::Nothing
    } else if vec_eq(&chars_of(build_type), &lit("rust")) {
        AutoBuild::Cargo
    } else {
        AutoBuild::Nothing
    }
}

/// The CPU a Rust target is tuned for.
pub open spec fn target_cpu(target: Seq<char>) -> Seq<char> {
    if crate::text::has_sub(target, "aarch64"@) {
        "armv8-a"@
    } else {
        "x86-64-v3"@
    }
}

/// The `RUSTFLAGS` of an automatic Rust build for `target`.
pub open spec fn rust_flags_of(target: Seq<char>) -> Seq<char> {
    let cpu = target_cpu(target);
    "-C linker=clang -C target-cpu="@ + cpu
        + " -C opt-level=3 -C lto=fat -C codegen-units=1 -C target-feature=+crt-static -C link-arg=-target -C link-arg="@
        + target + " -C link-arg=-march="@ + cpu
        + " -C link-arg=-O3 -C link-arg=-flto=full -C link-arg=--sysroot=/system"@
}

pub fn rust_flags(target: &str) -> (r: String)
    ensures
        r@ == rust_flags_of(target@),
{
    let t = chars_of(target);
    let cpu = if crate::text::contains_sub(&t, &lit("aarch64")) {
        lit("armv8-a")
    } else {
        lit("x86-64-v3")
    };
    let mut f = lit("-C linker=clang -C target-cpu=");
    append(&mut f, &cpu);
    append(
        &mut f,
        &lit(
            " -C opt-level=3 -C lto=fat -C codegen-units=1 -C target-feature=+crt-static -C link-arg=-target -C link-arg=",
        ),
    );
    append(&mut f, &t);
    append(&mut f, &lit(" -C link-arg=-march="));
    append(&mut f, &cpu);
    append(&mut f, &lit(" -C link-arg=-O3 -C link-arg=-flto=full -C link-arg=--sysroot=/system"));
    string_of(&f)
}

/// The file name of the completion marker of build command `index`
/// (counted from 0): `cmd-<index + 1>-<hex of the first 16 bytes of the
/// command's SHA-256>.done`.
pub open spec fn marker_name(index: nat, cmd: Seq<char>) -> Seq<char> {
    "cmd-"@ + dec(index + 1) + "-"@ + hex_of(sha256_of(encode_utf8(cmd)).take(16)) + ".done"@
}

pub fn build_command_marker(index: usize, cmd: &str) -> (r: String)
    requires
        index < u64::MAX,
    ensures
        r@ == marker_name(index as nat, cmd@),
{
    let digest = sha256_digest(cmd.as_bytes());
    let mut head: Vec<u8> = Vec::new();
    let mut i: usize = 0;
    while i < 16
        invariant
            i <= 16,
            digest@.len() == 32,
            head@ == digest@.take(i as int),
        decreases 16 - i,
    {
        head.push(digest[i]);
        assert(digest@.take(i + 1) =~= digest@.take(i as int).push(digest@[i as int]));
        i = i + 1;
    }
    let hex = to_hex(head.as_slice());
    let n = (index as u64) + 1;
    let mut m = lit("cmd-");
    append(&mut m, &decimal(n));
    append(&mut m, &lit("-"));
    append(&mut m, &chars_of(hex.as_str()));
    append(&mut m, &lit(".done"));
    assert(n as nat == index as nat + 1);
    string_of(&m)
}

/// What an install does when the manifest gives no install commands.
pub enum AutoInstall {
    /// Run the manifest's commands, then create the links.
    Commands,
    /// Only create the links.
    LinksOnly,
    /// Copy the Rust release binaries, then create the links.
    CargoBinaries,
}

pub open spec fn auto_install_of(has_commands: bool, no_auto: bool, build_type: Seq<char>) -> AutoInstall {
    if has_commands {
        AutoInstall::Commands
    } else if no_auto {
        AutoInstall::LinksOnly
    } else if build_type == "rust"@ {
        AutoInstall::CargoBinaries
    } else {
        AutoInstall::LinksOnly
    }
}

/// The environment an install command runs with: `CUDANE_DEST`, the
/// package's staging directory, and `CUDANE_PREFIX`, the base prefix
/// `system` under which Cudane packages install.
pub fn install_environment(dest: &str) -> (r: Vec<(String, String)>)
    ensures
        r@.len() == 2,
        r@[0].0@ == "CUDANE_DEST"@ && r@[0].1@ == dest@,
        r@[1].0@ == "CUDANE_PREFIX"@ && r@[1].1@ == "system"@,
{
    let mut r: Vec<(String, String)> = Vec::new();
    r.push((own("CUDANE_DEST"), own(dest)));
    r.push((own("CUDANE_PREFIX"), own("system")));
    r
}

pub fn auto_install(has_commands: bool, no_auto: bool, build_type: &str) -> (r: AutoInstall)
    ensures
        r == auto_install_of(has_commands, no_auto, build_type@),
{
    if has_commands {
        AutoInstall::Commands
    } else if no_auto {
        AutoInstall::LinksOnly
    } else if vec_eq(&chars_of(build_type), &lit("rust")) {
        AutoInstall::CargoBinaries
    } else {
        AutoInstall::LinksOnly
    }
}

/// Build resume markers are honoured unless `--force` or `--clean` is
/// given.
pub fn resume_markers(force: bool, clean: bool) -> (r: bool)
    ensures
        r == (!force && !clean),
{
    !force && !clean
}

/// What to do with one build command.
pub enum CommandAction {
    /// The command asks for nothing to be done.
    Skip,
    /// The command completed in an earlier run.
    Resume,
    /// Run the command (trimmed).
    Run(String),
}

pub fn build_command_action(cmd: &str, resume: bool, marker_present: bool) -> (r: CommandAction)
    ensures
        skip_command(cmd@) ==> r is Skip,
        !skip_command(cmd@) && resume && marker_present ==> r is Resume,
        !skip_command(cmd@) && !(resume && marker_present) ==> (r matches CommandAction::Run(c) && c@ == trim(cmd@)),
{
    if is_skip_command(cmd) {
        CommandAction::Skip
    } else if resume && marker_present {
        CommandAction::Resume
    } else {
        CommandAction::Run(string_of(&trimmed(&chars_of(cmd))))
    }
}

/// The commands whose markers are present after a build run over `cmds`
/// from the `i`-th on, with the markers `markers` present before and
/// `ok[j]` telling whether the `j`-th command succeeds when it runs: a
/// command that `build_command_action` skips or resumes writes nothing, one
/// that runs and succeeds writes its marker, and the first that fails ends
/// the run.
pub open spec fn markers_after(cmds: Seq<Seq<char>>, resume: bool, markers: Set<int>, ok: Seq<bool>, i: int) -> Set<int>
    decreases cmds.len() - i,
{
    if i < 0 || i >= cmds.len() {
        markers
    } else if skip_command(cmds[i]) || (resume && markers.contains(i)) {
        markers_after(cmds, resume, markers, ok, i + 1)
    } else if ok[i] {
        markers_after(cmds, resume, markers.insert(i), ok, i + 1)
    } else {
        markers
    }
}

/// The run gets from the `i`-th command to the `k`-th: each command between
/// was skipped, resumed or succeeded.
pub open spec fn commands_reached(cmds: Seq<Seq<char>>, resume: bool, markers: Set<int>, ok: Seq<bool>, i: int, k: int) -> bool {
    forall|j: int| i <= j < k ==> #[trigger] skip_command(cmds[j]) || (resume && markers.contains(j)) || ok[j]
}

proof fn lemma_markers_after(cmds: Seq<Seq<char>>, resume: bool, markers: Set<int>, ok: Seq<bool>, i: int)
    requires
        0 <= i <= cmds.len(),
        ok.len() == cmds.len(),
    ensures
        forall|k: int|
            0 <= k < cmds.len() ==> (#[trigger] markers_after(cmds, resume, markers, ok, i).contains(k) <==> (
            markers.contains(k) || (i <= k && commands_reached(cmds, resume, markers, ok, i, k) && !skip_command(
                cmds[k],
            ) && ok[k]))),
    decreases cmds.len() - i,
{
    if i < cmds.len() {
        if skip_command(cmds[i]) || (resume && markers.contains(i)) {
            lemma_markers_after(cmds, resume, markers, ok, i + 1);
            assert(markers_after(cmds, resume, markers, ok, i) == markers_after(cmds, resume, markers, ok, i + 1));
            assert forall|k: int| 0 <= k < cmds.len() && i < k implies (commands_reached(cmds, resume, markers, ok, i, k)
                <==> commands_reached(cmds, resume, markers, ok, i + 1, k)) by {
                if commands_reached(cmds, resume, markers, ok, i + 1, k) {
                    assert forall|j: int| i <= j < k implies #[trigger] skip_command(cmds[j]) || (resume
                        && markers.contains(j)) || ok[j] by {
                        if j > i {
                            assert(i + 1 <= j < k);
                        }
                    }
                }
            }
        } else if ok[i] {
            let m = markers.insert(i);
            lemma_markers_after(cmds, resume, m, ok, i + 1);
            assert(markers_after(cmds, resume, markers, ok, i) == markers_after(cmds, resume, m, ok, i + 1));
            assert forall|k: int| 0 <= k < cmds.len() && i < k implies (commands_reached(cmds, resume, m, ok, i + 1, k)
                <==> commands_reached(cmds, resume, markers, ok, i, k)) by {
                if commands_reached(cmds, resume, m, ok, i + 1, k) {
                    assert forall|j: int| i <= j < k implies #[trigger] skip_command(cmds[j]) || (resume
                        && markers.contains(j)) || ok[j] by {
                        if j > i {
                            assert(i + 1 <= j < k);
                            assert(skip_command(cmds[j]) || (resume && m.contains(j)) || ok[j]);
                        }
                    }
                }
                if commands_reached(cmds, resume, markers, ok, i, k) {
                    assert forall|j: int| i + 1 <= j < k implies #[trigger] skip_command(cmds[j]) || (resume
                        && m.contains(j)) || ok[j] by {
                        assert(skip_command(cmds[j]) || (resume && markers.contains(j)) || ok[j]);
                    }
                }
            }
        } else {
            assert forall|k: int| 0 <= k < cmds.len() && i < k implies !commands_reached(cmds, resume, markers, ok, i, k) by {
                assert(!(skip_command(cmds[i]) || (resume && markers.contains(i)) || ok[i]));
            }
            assert(markers_after(cmds, resume, markers, ok, i) == markers);
        }
    } else {
        assert(markers_after(cmds, resume, markers, ok, i) == markers);
    }
}

/// Resuming the build commands: a first run on a fresh workspace leaves the
/// marker of exactly those commands that ran and succeeded before the first
/// failure, so a second run with the same commands (and `--force` and
/// `--clean` unset) resumes exactly those and runs the failed command and
/// all after it again.
pub proof fn law_build_resumes_completed_commands(cmds: Seq<Seq<char>>, ok: Seq<bool>, resume: bool)
    requires
        ok.len() == cmds.len(),
    ensures
        forall|k: int|
            0 <= k < cmds.len() ==> (#[trigger] markers_after(cmds, resume, Set::empty(), ok, 0).contains(k) <==> (
            !skip_command(cmds[k]) && ok[k] && forall|j: int| 0 <= j < k ==> #[trigger] skip_command(cmds[j]) || ok[j])),
{
    lemma_markers_after(cmds, resume, Set::empty(), ok, 0);
    assert forall|k: int| 0 <= k < cmds.len() implies (commands_reached(cmds, resume, Set::empty(), ok, 0, k) <==> (
    forall|j: int| 0 <= j < k ==> #[trigger] skip_command(cmds[j]) || ok[j])) by {
        if commands_reached(cmds, resume, Set::empty(), ok, 0, k) {
            assert forall|j: int| 0 <= j < k implies #[trigger] skip_command(cmds[j]) || ok[j] by {
                assert(skip_command(cmds[j]) || (resume && Set::<int>::empty().contains(j)) || ok[j]);
            }
        }
    }
}

// ── Fetching the source ─────────────────────────────────────────────────

/// The local path a source names: without a `file://` prefix.
pub open spec fn local_path_of(src: Seq<char>) -> Seq<char> {
    if starts(src, "file://"@) {
        src.skip(7)
    } else {
        src
    }
}

pub fn local_source_path(src: &str) -> (r: String)
    ensures
        r@ == local_path_of(src@),
{
    let v = chars_of(src);
    proof {
        reveal_strlit("file://");
    }
    if starts_with(&v, &lit("file://")) {
        let r = crate::text::slice_vec(&v, 7, v.len());
        assert(r@ =~= v@.skip(7));
        string_of(&r)
    } else {
        own(src)
    }
}

/// How a source is fetched.
pub enum FetchPlan {
    /// Copy a local directory.
    CopyDir(String),
    /// Copy a local file.
    CopyFile(String),
    /// Clone a git repository (shallow).
    GitClone(String),
    /// Download an archive to `archive` in the source directory, then unpack
    /// it with `tar <flag>`.
    Download { archive: String, tar_flag: String },
}

pub open spec fn archive_name_of(src: Seq<char>) -> Seq<char> {
    if ends(src, ".xz"@) {
        "temp_archive.tar.xz"@
    } else if ends(src, ".bz2"@) {
        "temp_archive.tar.bz2"@
    } else {
        "temp_archive.tar.gz"@
    }
}

pub open spec fn tar_flag_of(src: Seq<char>) -> Seq<char> {
    if ends(src, ".xz"@) {
        "-xJf"@
    } else if ends(src, ".bz2"@) {
        "-xjf"@
    } else {
        "-xzf"@
    }
}

/// How to fetch `src`, given whether its local path exists and is a
/// directory: a local path is copied, a `.git` URL cloned, anything else
/// downloaded as a `.tar.xz`, `.tar.bz2` or (otherwise) `.tar.gz` archive.
pub fn fetch_plan(src: &str, local_exists: bool, local_is_dir: bool) -> (r: FetchPlan)
    ensures
        local_exists && local_is_dir ==> (r matches FetchPlan::CopyDir(p) && p@ == local_path_of(src@)),
        local_exists && !local_is_dir ==> (r matches FetchPlan::CopyFile(p) && p@ == local_path_of(src@)),
        !local_exists && ends(src@, ".git"@) ==> (r matches FetchPlan::GitClone(u) && u@ == src@),
        !local_exists && !ends(src@, ".git"@) ==> (r matches FetchPlan::Download { archive, tar_flag }
            && archive@ == archive_name_of(src@) && tar_flag@ == tar_flag_of(src@)),
{
    if local_exists {
        let p = local_source_path(src);
        if local_is_dir {
            return FetchPlan::CopyDir(p);
        } else {
            return FetchPlan::CopyFile(p);
        }
    }
    let v = chars_of(src);
    if ends_with(&v, &lit(".git")) {
        return FetchPlan::GitClone(own(src));
    }
    if ends_with(&v, &lit(".xz")) {
        FetchPlan::Download { archive: own("temp_archive.tar.xz"), tar_flag: own("-xJf") }
    } else if ends_with(&v, &lit(".bz2")) {
        FetchPlan::Download { archive: own("temp_archive.tar.bz2"), tar_flag: own("-xjf") }
    } else {
        FetchPlan::Download { archive: own("temp_archive.tar.gz"), tar_flag: own("-xzf") }
    }
}

/// Why a downloaded archive is refused.
pub enum DownloadError {
    /// No SHA-256 was computed for the archive.
    NoSha256,
    /// The archive's SHA-256 is not the expected one.
    Mismatch { expected: String, actual: String },
}

/// The value of the first checksum of kind `kind`.
pub open spec fn first_of_kind(sums: Seq<Checksum>, kind: Seq<char>) -> Option<Seq<char>>
    decreases sums.len(),
{
    if sums.len() == 0 {
        None
    } else if sums[0].kind@ == kind {
        Some(sums[0].value@)
    } else {
        first_of_kind(sums.drop_first(), kind)
    }
}

fn find_kind(sums: &Vec<Checksum>, kind: &str) -> (r: Option<usize>)
    ensures
        r is None <==> first_of_kind(sums@, kind@) is None,
        r matches Some(i) ==> i < sums.len() && first_of_kind(sums@, kind@) == Some(sums@[i as int].value@) && sums@[i as int].kind@ == kind@,
{
    let k = chars_of(kind);
    let mut i: usize = 0;
    assert(sums@.skip(0) =~= sums@);
    while i < sums.len()
        invariant
            i <= sums.len(),
            k@ == kind@,
            first_of_kind(sums@, kind@) == first_of_kind(sums@.skip(i as int), kind@),
        decreases sums.len() - i,
    {
        assert(sums@.skip(i as int)[0] == sums@[i as int]);
        if vec_eq(&chars_of(sums[i].kind.as_str()), &k) {
            return Some(i);
        }
        assert(sums@.skip(i as int).drop_first() =~= sums@.skip(i + 1));
        i = i + 1;
    }
    None
}

/// Checks a downloaded archive against the expected SHA-256 (compared
/// ignoring ASCII case), when one is given.
pub fn check_download(expected: Option<&str>, sums: &Vec<Checksum>) -> (r: Result<(), DownloadError>)
    ensures
        expected is None ==> r is Ok,
        expected matches Some(e) ==> match first_of_kind(sums@, "sha256"@) {
            None => (r matches Err(DownloadError::NoSha256)),
            Some(a) => if eq_ci(a, e@) {
                r is Ok
            } else {
                (r matches Err(DownloadError::Mismatch { expected: x, actual: y }) && x@ == e@ && y@ == a)
            },
        },
{
    match expected {
        None => Ok(()),
        Some(e) => match find_kind(sums, "sha256") {
            None => Err(DownloadError::NoSha256),
            Some(i) => {
                let actual = &sums[i].value;
                if eq_ignore_ascii_case(&chars_of(actual.as_str()), &chars_of(e)) {
                    Ok(())
                } else {
                    Err(DownloadError::Mismatch { expected: own(e), actual: actual.clone() })
                }
            },
        },
    }
}

/// The permission bits to set on a copied file so that it carries no
/// setuid, setgid or sticky bit: `None` when it carries none.
pub fn without_special_bits(mode: u32) -> (r: Option<u32>)
    ensures
        mode & 0o7000u32 == 0 ==> r is None,
        mode & 0o7000u32 != 0 ==> r == Some(mode & 0o777u32),
{
    if mode & 0o7000u32 != 0 {
        Some(mode & 0o777u32)
    } else {
        None
    }
}

// ── Links ───────────────────────────────────────────────────────────────

/// Why a link path is refused.
pub enum LinkError {
    /// Empty (after its leading slashes) or ending with `/`.
    Invalid,
    /// It leaves the staging root through `..`.
    Escapes,
}

/// `root.join(rel)` for a relative `rel`.
pub open spec fn path_join(root: Seq<char>, rel: Seq<char>) -> Seq<char> {
    if root.len() == 0 || root.last() == '/' {
        root + rel
    } else {
        root + "/"@ + rel
    }
}

/// Where a link goes below the staging root `root_dir`: the link path
/// without its leading slashes, refused when that is empty, ends with `/`,
/// or when a `..` component appears in the joined path.
pub fn link_location(link_path: &str, root_dir: &str) -> (r: Result<String, LinkError>)
    ensures
        ({
            let safe = strip_start(link_path@, '/');
            &&& (safe.len() == 0 || safe.last() == '/') ==> (r matches Err(LinkError::Invalid))
            &&& !(safe.len() == 0 || safe.last() == '/') && path_key(path_join(root_dir@, safe)).contains("2"@) ==> (r matches Err(LinkError::Escapes))
            &&& !(safe.len() == 0 || safe.last() == '/') && !path_key(path_join(root_dir@, safe)).contains("2"@) ==> (r matches Ok(p) && p@ == safe)
        }),
{
    let safe = trim_start_char(&chars_of(link_path), '/');
    if safe.len() == 0 || safe[safe.len() - 1] == '/' {
        return Err(LinkError::Invalid);
    }
    let root = chars_of(root_dir);
    let mut full = root.clone();
    assert(full@ == root@);
    if !(root.len() == 0 || root[root.len() - 1] == '/') {
        full.push('/');
    }
    append(&mut full, &safe);
    proof {
        reveal_strlit("/");
        assert(full@ =~= path_join(root_dir@, safe@));
    }
    let full_s = string_of(&full);
    assert(full_s@ == path_join(root_dir@, safe@));
    let key = path_key_of(full_s.as_str());
    let parent = lit("2");
    let mut i: usize = 0;
    while i < key.len()
        invariant
            i <= key.len(),
            parent@ == "2"@,
            full_s@ == path_join(root_dir@, safe@),
            safe@ == strip_start(link_path@, '/'),
            safe@.len() > 0 && safe@.last() != '/',
            crate::text::vviews(key@) == path_key(full_s@),
            forall|k: int| 0 <= k < i ==> crate::text::vviews(key@)[k] != "2"@,
        decreases key.len() - i,
    {
        if vec_eq(&key[i], &parent) {
            assert(crate::text::vviews(key@)[i as int] == "2"@);
            assert(full_s@ == path_join(root_dir@, safe@));
            assert(path_key(path_join(root_dir@, safe@)).contains("2"@));
            return Err(LinkError::Escapes);
        }
        i = i + 1;
    }
    assert(full_s@ == path_join(root_dir@, safe@));
    assert(!path_key(path_join(root_dir@, safe@)).contains("2"@));
    Ok(string_of(&safe))
}

// ── Package metadata ────────────────────────────────────────────────────

/// A hash type that is not one of the supported algorithms.
pub struct InvalidHashType {
    pub value: String,
}

/// The checksum algorithm of package metadata: `sha256` by default; a
/// requested algorithm is lowercased and must be `sha256`, `sha1` or `md5`.
pub fn hash_type(requested: Option<&str>) -> (r: Result<String, InvalidHashType>)
    ensures
        requested is None ==> (r matches Ok(t) && t@ == "sha256"@),
        requested matches Some(raw) ==> ({
            let l = unicode_lowercase(raw@);
            &&& (l == "sha256"@ || l == "sha1"@ || l == "md5"@) ==> (r matches Ok(t) && t@ == l)
            &&& !(l == "sha256"@ || l == "sha1"@ || l == "md5"@) ==> (r matches Err(e) && e.value@ == raw@)
        }),
        requested matches Some(raw) ==> (all_ascii(raw@) ==> ({
            let l = raw@.map_values(|c: char| ascii_lower(c));
            &&& (l == "sha256"@ || l == "sha1"@ || l == "md5"@) ==> (r matches Ok(t) && t@ == l)
            &&& !(l == "sha256"@ || l == "sha1"@ || l == "md5"@) ==> r is Err
        })),
{
    match requested {
        None => Ok(own("sha256")),
        Some(raw) => {
            let lowered = to_lowercase(raw);
            let l = chars_of(lowered.as_str());
            if vec_eq(&l, &lit("sha256")) || vec_eq(&l, &lit("sha1")) || vec_eq(&l, &lit("md5")) {
                Ok(lowered)
            } else {
                Err(InvalidHashType { value: own(raw) })
            }
        },
    }
}

fn copy_checksum(c: &Checksum) -> (r: Checksum)
    ensures
        r.kind@ == c.kind@ && r.value@ == c.value@,
{
    Checksum { kind: c.kind.clone(), value: c.value.clone() }
}

/// The checksum recorded in metadata: the first of the requested kind,
/// else the first; `None` when there is none.
pub fn select_checksum(sums: &Vec<Checksum>, kind: &str) -> (r: Option<Checksum>)
    ensures
        sums.len() == 0 ==> r is None,
        first_of_kind(sums@, kind@) matches Some(v) ==> (r matches Some(c) && c.kind@ == kind@ && c.value@ == v),
        sums.len() > 0 && first_of_kind(sums@, kind@) is None ==> (r matches Some(c) && c.kind@ == sums@[0].kind@ && c.value@ == sums@[0].value@),
{
    match find_kind(sums, kind) {
        Some(i) => {
            proof {
                lemma_first_of_kind(sums@, kind@);
            }
            Some(copy_checksum(&sums[i]))
        },
        None => {
            if sums.len() > 0 {
                Some(copy_checksum(&sums[0]))
            } else {
                None
            }
        },
    }
}

proof fn lemma_first_of_kind(sums: Seq<Checksum>, kind: Seq<char>)
    ensures
        first_of_kind(sums, kind) matches Some(v) ==> exists|i: int| 0 <= i < sums.len() && sums[i].kind@ == kind && sums[i].value@ == v,
    decreases sums.len(),
{
    if sums.len() > 0 && sums[0].kind@ != kind {
        lemma_first_of_kind(sums.drop_first(), kind);
        if first_of_kind(sums, kind) is Some {
            let i = choose|i: int| 0 <= i < sums.drop_first().len() && sums.drop_first()[i].kind@ == kind && sums.drop_first()[i].value@ == first_of_kind(sums, kind)->Some_0;
            assert(sums[i + 1] == sums.drop_first()[i]);
        }
    }
}

} // verus!
