use vstd::prelude::*;
use crate::model::str_eq;
use crate::order::pair_views;
use crate::paths::path_key;
use crate::text::{append, chars_of, lit, own, string_of, trim, trimmed, vec_eq};

verus! {

// ── Python plugins ──────────────────────────────────────────────────────

/// `s` with every `'` preceded by a backslash (`str::replace('\'', "\\'")`).
pub open spec fn escape_quotes(s: Seq<char>) -> Seq<char>
    decreases s.len(),
{
    if s.len() == 0 {
        Seq::empty()
    } else if s.last() == '\'' {
        escape_quotes(s.drop_last()) + seq!['\\', '\'']
    } else {
        escape_quotes(s.drop_last()).push(s.last())
    }
}

pub fn escaped_quotes(s: &str) -> (r: String)
    ensures
        r@ == escape_quotes(s@),
{
    let v = chars_of(s);
    let mut out: Vec<char> = Vec::new();
    let mut i: usize = 0;
    while i < v.len()
        invariant
            i <= v.len(),
            out@ == escape_quotes(v@.take(i as int)),
        decreases v.len() - i,
    {
        assert(v@.take(i + 1).drop_last() =~= v@.take(i as int));
        assert(v@.take(i + 1).last() == v@[i as int]);
        if v[i] == '\'' {
            let ghost before = out@;
            out.push('\\');
            out.push('\'');
            assert(out@ =~= before + seq!['\\', '\'']);
        } else {
            out.push(v[i]);
        }
        i = i + 1;
    }
    assert(v@.take(v.len() as int) =~= v@);
    string_of(&out)
}

/// The final component of a path when it is a name (`Path::file_name`).
pub open spec fn file_name_of(p: Seq<char>) -> Option<Seq<char>> {
    let k = path_key(p);
    if k.len() > 0 && k.last().len() > 0 && k.last()[0] == '3' {
        Some(k.last().drop_first())
    } else {
        None
    }
}

/// A file name without its extension (`Path::file_stem`): the part before
/// the last `.`, unless that part is empty or the name is `..`.
pub open spec fn stem_of(name: Seq<char>) -> Seq<char> {
    if name == ".."@ || !name.contains('.') {
        name
    } else {
        let d = crate::text::first_index(name.reverse(), '.') as int;
        let before = name.take(name.len() - 1 - d);
        if before.len() == 0 {
            name
        } else {
            before
        }
    }
}

/// The plugin name of a plugin file: its stem, or empty.
pub open spec fn plugin_name_of(path: Seq<char>) -> Seq<char> {
    match file_name_of(path) {
        Some(n) => stem_of(n),
        None => Seq::empty(),
    }
}

fn last_dot(v: &Vec<char>) -> (r: Option<usize>)
    ensures
        r is None ==> !v@.contains('.'),
        r matches Some(i) ==> i < v.len() && v@[i as int] == '.' && forall|k: int| i < k < v.len() ==> v@[k] != '.',
{
    let mut i: usize = v.len();
    while i > 0
        invariant
            i <= v.len(),
            forall|k: int| i <= k < v.len() ==> v@[k] != '.',
        decreases i,
    {
        if v[i - 1] == '.' {
            return Some(i - 1);
        }
        i = i - 1;
    }
    None
}

proof fn lemma_last_dot(s: Seq<char>, i: int)
    requires
        0 <= i < s.len(),
        s[i] == '.',
        forall|k: int| i < k < s.len() ==> s[k] != '.',
    ensures
        crate::text::first_index(s.reverse(), '.') == s.len() - 1 - i,
{
    let r = s.reverse();
    crate::text::lemma_first_index(r, '.');
    assert(r[s.len() - 1 - i] == '.');
    assert forall|k: int| 0 <= k < s.len() - 1 - i implies r[k] != '.' by {
        assert(r[k] == s[s.len() - 1 - k]);
    }
    crate::text::lemma_first_index_is(r, '.', s.len() - 1 - i);
}

/// A loaded Python plugin.
pub struct PythonPlugin {
    pub name: String,
    pub path: String,
    pub aliases: Vec<(String, String)>,
}

/// An alias that a plugin does not define.
pub struct MissingAlias {
    pub alias: String,
    pub plugin: String,
}

impl PythonPlugin {
    pub open spec fn name_view(&self) -> Seq<char> {
        self.name@
    }

    /// The plugin of the file `path`, named by its file stem, without
    /// aliases.
    pub fn from_path(path: &str) -> (r: Self)
        ensures
            r.name_view() == plugin_name_of(path@),
            r.path@ == path@,
            r.aliases@.len() == 0,
    {
        let key = crate::paths::path_key_of(path);
        let mut name: Vec<char> = Vec::new();
        if key.len() > 0 && key[key.len() - 1].len() > 0 && key[key.len() - 1][0] == '3' {
            let last = &key[key.len() - 1];
            let file = crate::text::slice_vec(last, 1, last.len());
            assert(file@ =~= last@.drop_first());
            assert(crate::text::vviews(key@).last() == last@);
            proof {
                reveal_strlit("..");
            }
            if vec_eq(&file, &lit("..")) {
                name = file;
            } else {
                match last_dot(&file) {
                    None => {
                        name = file;
                    },
                    Some(i) => {
                        proof {
                            lemma_last_dot(file@, i as int);
                            assert(file@.contains('.'));
                        }
                        if i == 0 {
                            name = file;
                        } else {
                            name = crate::text::slice_vec(&file, 0, i);
                            assert(name@ =~= file@.take(file@.len() - 1 - (file@.len() - 1 - i)));
                        }
                    },
                }
            }
        } else {
            assert(name@ =~= Seq::<char>::empty());
        }
        PythonPlugin { name: string_of(&name), path: own(path), aliases: Vec::new() }
    }

    /// The plugin under another name.
    pub fn with_name(self, name: String) -> (r: Self)
        ensures
            r.name_view() == name@,
            r.path == self.path,
            r.aliases == self.aliases,
    {
        let mut p = self;
        p.name = name;
        p
    }

    pub fn name(&self) -> (r: &str)
        ensures
            r@ == self.name_view(),
    {
        self.name.as_str()
    }

    pub fn path(&self) -> (r: &str)
        ensures
            r@ == self.path@,
    {
        self.path.as_str()
    }

    /// The shell command of an alias of the plugin.
    pub fn alias_command(&self, alias: &str) -> (r: Result<String, MissingAlias>)
        ensures
            r matches Ok(c) ==> pair_views(self.aliases@).contains((alias@, c@)),
            r is Err <==> !(exists|i: int| 0 <= i < self.aliases@.len() && #[trigger] self.aliases@[i].0@ == alias@),
            r matches Err(e) ==> e.alias@ == alias@ && e.plugin@ == self.name_view(),
    {
        let a = chars_of(alias);
        let mut i: usize = 0;
        while i < self.aliases.len()
            invariant
                i <= self.aliases.len(),
                a@ == alias@,
                forall|k: int| 0 <= k < i ==> #[trigger] self.aliases@[k].0@ != alias@,
            decreases self.aliases.len() - i,
        {
            if vec_eq(&chars_of(self.aliases[i].0.as_str()), &a) {
                assert(pair_views(self.aliases@)[i as int] == (alias@, self.aliases@[i as int].1@));
                return Ok(self.aliases[i].1.clone());
            }
            i = i + 1;
        }
        Err(MissingAlias { alias: own(alias), plugin: self.name.clone() })
    }

    /// The Python program that runs the plugin for a hook: it loads the
    /// event (JSON text) as `MCX_EVENT`, then runs the plugin file.
    pub fn hook_script(&self, event_json: &str) -> (r: String)
        ensures
            r@ == "import json, sys; MCX_EVENT = json.loads('"@ + escape_quotes(event_json@) + "'); exec(open('"@
                + escape_quotes(self.path@) + "').read())"@,
    {
        let mut s = lit("import json, sys; MCX_EVENT = json.loads('");
        append(&mut s, &chars_of(escaped_quotes(event_json).as_str()));
        append(&mut s, &lit("'); exec(open('"));
        append(&mut s, &chars_of(escaped_quotes(self.path.as_str()).as_str()));
        append(&mut s, &lit("').read())"));
        string_of(&s)
    }
}

/// The loaded plugins, in the order they were loaded. Every plugin
/// receives every hook.
pub struct PluginManager {
    pub plugins: Vec<PythonPlugin>,
}

impl PluginManager {
    pub fn new() -> (r: Self)
        ensures
            r.plugins@.len() == 0,
    {
        PluginManager { plugins: Vec::new() }
    }

    /// A plugin of the file `p` (the same path, compared as a path) is
    /// loaded.
    pub open spec fn has_path(&self, p: Seq<char>) -> bool {
        exists|i: int| 0 <= i < self.plugins@.len() && path_key(#[trigger] self.plugins@[i].path@) == path_key(p)
    }

    /// Adds a plugin unless a plugin of the same file is loaded already;
    /// whether it was added.
    pub fn register(&mut self, plugin: PythonPlugin) -> (r: bool)
        ensures
            r == !old(self).has_path(plugin.path@),
            r ==> final(self).plugins@ == old(self).plugins@.push(plugin),
            !r ==> final(self).plugins@ == old(self).plugins@,
    {
        let key = crate::paths::path_key_of(plugin.path.as_str());
        let mut i: usize = 0;
        while i < self.plugins.len()
            invariant
                i <= self.plugins.len(),
                crate::text::vviews(key@) == path_key(plugin.path@),
                forall|k: int| 0 <= k < i ==> path_key(#[trigger] self.plugins@[k].path@) != path_key(plugin.path@),
            decreases self.plugins.len() - i,
        {
            if crate::model::chars_eq_all(&crate::paths::path_key_of(self.plugins[i].path.as_str()), &key) {
                return false;
            }
            i = i + 1;
        }
        self.plugins.push(plugin);
        true
    }

    /// The position of the first plugin named `name`.
    pub fn find(&self, name: &str) -> (r: Option<usize>)
        ensures
            r matches Some(i) ==> (i < self.plugins@.len() && self.plugins@[i as int].name@ == name@
                && forall|k: int| 0 <= k < i ==> (#[trigger] self.plugins@[k]).name@ != name@),
            r is None ==> forall|k: int| 0 <= k < self.plugins@.len() ==> (#[trigger] self.plugins@[k]).name@ != name@,
    {
        let n = chars_of(name);
        let mut i: usize = 0;
        while i < self.plugins.len()
            invariant
                i <= self.plugins.len(),
                n@ == name@,
                forall|k: int| 0 <= k < i ==> (#[trigger] self.plugins@[k]).name@ != name@,
            decreases self.plugins.len() - i,
        {
            if vec_eq(&chars_of(self.plugins[i].name.as_str()), &n) {
                return Some(i);
            }
            i = i + 1;
        }
        None
    }
}

/// The Python program that checks the syntax of a plugin file.
pub fn syntax_check_script(path: &str) -> (r: String)
    ensures
        r@ == "compile(open('"@ + escape_quotes(path@) + "').read(), '"@ + escape_quotes(path@) + "', 'exec')"@,
{
    let p = chars_of(escaped_quotes(path).as_str());
    let mut s = lit("compile(open('");
    append(&mut s, &p);
    append(&mut s, &lit("').read(), '"));
    append(&mut s, &p);
    append(&mut s, &lit("', 'exec')"));
    string_of(&s)
}

/// What a plugin hands to the build for one hook.
pub struct PluginEvent {
    pub hook: String,
    pub package: Option<String>,
    pub version: Option<String>,
    pub source: Option<String>,
    pub build_type: Option<String>,
    pub work_dir: Option<String>,
    pub root_dir: Option<String>,
    pub output_path: Option<String>,
    pub arch: Option<String>,
}

/// What a plugin run reports.
pub struct PluginResult {
    pub success: bool,
    pub message: Option<String>,
}

/// The result of running an alias: its exit status, and its error output
/// trimmed, or its output trimmed when it wrote no error output.
pub fn alias_result(success: bool, stdout: &str, stderr: &str) -> (r: PluginResult)
    ensures
        r.success == success,
        r.message matches Some(m) && m@ == if stderr@.len() == 0 {
            trim(stdout@)
        } else {
            trim(stderr@)
        },
{
    let err = chars_of(stderr);
    let m = if err.len() == 0 {
        trimmed(&chars_of(stdout))
    } else {
        trimmed(&err)
    };
    PluginResult { success, message: Some(string_of(&m)) }
}

/// The result of a hook run that exited successfully: what the plugin
/// printed as a result, or else a success carrying its output, trimmed.
pub fn hook_result(reported: Option<PluginResult>, stdout: &str) -> (r: PluginResult)
    ensures
        reported matches Some(p) ==> r == p,
        reported is None ==> r.success && (r.message matches Some(m) && m@ == trim(stdout@)),
{
    match reported {
        Some(p) => p,
        None => PluginResult { success: true, message: Some(string_of(&trimmed(&chars_of(stdout)))) },
    }
}

/// The points of a build at which plugins run.
pub enum PluginHook {
    PreFetch,
    PostFetch,
    PreBuild,
    PostBuild,
    PreInstall,
    PostInstall,
    PreHash,
    PostHash,
    PreMetadata,
    PostMetadata,
    PreArchive,
    PostArchive,
}

pub open spec fn hook_label(h: PluginHook) -> Seq<char> {
    match h {
        PluginHook::PreFetch => "pre-fetch"@,
        PluginHook::PostFetch => "post-fetch"@,
        PluginHook::PreBuild => "pre-build"@,
        PluginHook::PostBuild => "post-build"@,
        PluginHook::PreInstall => "pre-install"@,
        PluginHook::PostInstall => "post-install"@,
        PluginHook::PreHash => "pre-hash"@,
        PluginHook::PostHash => "post-hash"@,
        PluginHook::PreMetadata => "pre-metadata"@,
        PluginHook::PostMetadata => "post-metadata"@,
        PluginHook::PreArchive => "pre-archive"@,
        PluginHook::PostArchive => "post-archive"@,
    }
}

impl PluginHook {
    /// The name of the hook (`pre-fetch`, ..., `post-archive`).
    pub fn as_str(&self) -> (r: &'static str)
        ensures
            r@ == hook_label(*self),
    {
        match self {
            PluginHook::PreFetch => "pre-fetch",
            PluginHook::PostFetch => "post-fetch",
            PluginHook::PreBuild => "pre-build",
            PluginHook::PostBuild => "post-build",
            PluginHook::PreInstall => "pre-install",
            PluginHook::PostInstall => "post-install",
            PluginHook::PreHash => "pre-hash",
            PluginHook::PostHash => "post-hash",
            PluginHook::PreMetadata => "pre-metadata",
            PluginHook::PostMetadata => "post-metadata",
            PluginHook::PreArchive => "pre-archive",
            PluginHook::PostArchive => "post-archive",
        }
    }
}

/// Every hook, in the order of a build.
pub fn all_hooks() -> (r: Vec<PluginHook>)
    ensures
        r@ == seq![
            PluginHook::PreFetch,
            PluginHook::PostFetch,
            PluginHook::PreBuild,
            PluginHook::PostBuild,
            PluginHook::PreInstall,
            PluginHook::PostInstall,
            PluginHook::PreHash,
            PluginHook::PostHash,
            PluginHook::PreMetadata,
            PluginHook::PostMetadata,
            PluginHook::PreArchive,
            PluginHook::PostArchive,
        ],
{
    let r = vec![
        PluginHook::PreFetch,
        PluginHook::PostFetch,
        PluginHook::PreBuild,
        PluginHook::PostBuild,
        PluginHook::PreInstall,
        PluginHook::PostInstall,
        PluginHook::PreHash,
        PluginHook::PostHash,
        PluginHook::PreMetadata,
        PluginHook::PostMetadata,
        PluginHook::PreArchive,
        PluginHook::PostArchive,
    ];
    assert(r@ =~= seq![
        PluginHook::PreFetch,
        PluginHook::PostFetch,
        PluginHook::PreBuild,
        PluginHook::PostBuild,
        PluginHook::PreInstall,
        PluginHook::PostInstall,
        PluginHook::PreHash,
        PluginHook::PostHash,
        PluginHook::PreMetadata,
        PluginHook::PostMetadata,
        PluginHook::PreArchive,
        PluginHook::PostArchive,
    ]);
    r
}

/// Distinct hooks have distinct names.
pub proof fn law_hook_names_distinct(a: PluginHook, b: PluginHook)
    requires
        a != b,
    ensures
        hook_label(a) != hook_label(b),
{
    reveal_strlit("pre-fetch");
    reveal_strlit("post-fetch");
    reveal_strlit("pre-build");
    reveal_strlit("post-build");
    reveal_strlit("pre-install");
    reveal_strlit("post-install");
    reveal_strlit("pre-hash");
    reveal_strlit("post-hash");
    reveal_strlit("pre-metadata");
    reveal_strlit("post-metadata");
    reveal_strlit("pre-archive");
    reveal_strlit("post-archive");
    let la = hook_label(a);
    let lb = hook_label(b);
    if la == lb {
        assert(la.len() == lb.len());
        assert(la[1] == lb[1]);
        assert(la[4] == lb[4]);
        assert(la[5] == lb[5]);
    }
}

} // verus!
