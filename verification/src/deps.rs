use vstd::prelude::*;
use crate::order::{ascending, sort_dedup, views};
use crate::outside::{
    captures_view, json_object_keys, json_object_keys_of, regex_captures, regex_captures_of,
    to_lowercase, toml_nested_table_keys, toml_nested_table_keys_of, toml_table_keys, toml_table_keys_of, unicode_lowercase,
};
use crate::text::{
    append, chars_of, contains_char, contains_sub, ends, ends_with, find_sub, has_sub, lines,
    lines_of, lit, occurs_at, own, slice_vec, starts, starts_with, string_of, trim, trimmed,
    vec_eq, vviews, words, words_of,
};

verus! {

// ── Library file names ───────────────────────────────────────────────────

/// A shared or static library by its file name (`.so`, `.dll`, `.dylib`, `.a`).
pub open spec fn library_suffix(n: Seq<char>) -> bool {
    ends(n, ".so"@) || ends(n, ".dll"@) || ends(n, ".dylib"@) || ends(n, ".a"@)
}

/// A file that a dependency scan of a staging tree lists as a library.
pub fn is_library_file(name: &str) -> (b: bool)
    ensures
        b == library_suffix(name@),
{
    let n = chars_of(name);
    ends_with(&n, &lit(".so")) || ends_with(&n, &lit(".dll")) || ends_with(&n, &lit(".dylib"))
        || ends_with(&n, &lit(".a"))
}

/// A file that the library index of a workspace lists: any `.so` name,
/// versioned or not, and `.dll`, `.dylib`, `.a` files.
pub open spec fn indexed_library(n: Seq<char>) -> bool {
    has_sub(n, ".so"@) || ends(n, ".dll"@) || ends(n, ".dylib"@) || ends(n, ".a"@)
}

pub fn is_indexed_library(name: &str) -> (b: bool)
    ensures
        b == indexed_library(name@),
{
    let n = chars_of(name);
    contains_sub(&n, &lit(".so")) || ends_with(&n, &lit(".dll")) || ends_with(
        &n,
        &lit(".dylib"),
    ) || ends_with(&n, &lit(".a"))
}

/// A shared library a package provides: a `.so` name, versioned or not.
pub fn is_provided_library(name: &str) -> (b: bool)
    ensures
        b == (ends(name@, ".so"@) || has_sub(name@, ".so."@)),
{
    let n = chars_of(name);
    ends_with(&n, &lit(".so")) || contains_sub(&n, &lit(".so."))
}

/// The name between the first `[` and the first `]` of a `(NEEDED)` line of
/// `readelf -d`: `Ok(None)` for other lines, `Err(())` when the `]` comes
/// first (a line the scan cannot slice).
pub fn readelf_needed(line: &str) -> (r: Result<Option<String>, ()>)
    ensures
        !has_sub(line@, "(NEEDED)"@) || !line@.contains('[') || !line@.contains(']') ==> r == Ok::<Option<String>, ()>(None),
        has_sub(line@, "(NEEDED)"@) && line@.contains('[') && line@.contains(']') ==> {
            let a = crate::text::first_index(line@, '[') as int;
            let b = crate::text::first_index(line@, ']') as int;
            &&& (b < a ==> r is Err)
            &&& (a < b ==> r == Ok::<Option<String>, ()>(Some(r->Ok_0->Some_0)) && r->Ok_0->Some_0@ == line@.subrange(a + 1, b))
        },
{
    let l = chars_of(line);
    if !contains_sub(&l, &lit("(NEEDED)")) {
        return Ok(None);
    }
    let a = crate::text::find_char(&l, '[', 0);
    let b = crate::text::find_char(&l, ']', 0);
    assert(l@.skip(0) =~= l@);
    proof {
        crate::text::lemma_first_index(l@, '[');
        crate::text::lemma_first_index(l@, ']');
        if l@.contains('[') {
            let w = choose|w: int| 0 <= w < l@.len() && l@[w] == '[';
            assert(a < l.len());
        }
        if l@.contains(']') {
            let w = choose|w: int| 0 <= w < l@.len() && l@[w] == ']';
            assert(b < l.len());
        }
    }
    if a >= l.len() || b >= l.len() {
        return Ok(None);
    }
    if b < a + 1 {
        return Err(());
    }
    let name = slice_vec(&l, a + 1, b);
    Ok(Some(string_of(&name)))
}

// ── Library name variants ────────────────────────────────────────────────

/// The names under which a library may be looked up: itself, without its
/// `lib` prefix, `lib` plus its stem up to the first dot, and its name up to
/// and including the first `.so`.
pub open spec fn name_variants(lib: Seq<char>) -> Set<Seq<char>> {
    let a = set![lib];
    let b = if starts(lib, "lib"@) {
        let stripped = lib.skip(3);
        let i = crate::text::first_index(stripped, '.') as int;
        if i < stripped.len() {
            a.insert(stripped).insert("lib"@ + stripped.take(i))
        } else {
            a.insert(stripped)
        }
    } else {
        a
    };
    if has_sub(lib, ".so"@) {
        let p = choose|p: int| occurs_at(lib, ".so"@, p) && forall|q: int| 0 <= q < p ==> !occurs_at(lib, ".so"@, q);
        b.insert(lib.take(p + 3))
    } else {
        b
    }
}

/// The lookup names of a library, distinct and in ascending order.
pub fn normalize(lib: &str) -> (r: Vec<String>)
    ensures
        ascending(views(r@)),
        views(r@).to_set() == name_variants(lib@),
{
    let l = chars_of(lib);
    let mut out: Vec<String> = Vec::new();
    out.push(own(lib));
    proof {
        reveal_strlit("lib");
        reveal_strlit(".so");
        assert(views(out@) =~= seq![lib@]);
        assert(seq![lib@].to_set() =~= set![lib@]) by {
            crate::order::lemma_push_to_set(Seq::<Seq<char>>::empty(), lib@);
            assert(Seq::<Seq<char>>::empty().push(lib@) =~= seq![lib@]);
            assert(Seq::<Seq<char>>::empty().to_set() =~= Set::<Seq<char>>::empty());
        }
    }
    let ghost b = if starts(lib@, "lib"@) {
        let stripped = lib@.skip(3);
        let i = crate::text::first_index(stripped, '.') as int;
        if i < stripped.len() {
            set![lib@].insert(stripped).insert("lib"@ + stripped.take(i))
        } else {
            set![lib@].insert(stripped)
        }
    } else {
        set![lib@]
    };
    if starts_with(&l, &lit("lib")) {
        let stripped = slice_vec(&l, 3, l.len());
        assert(stripped@ =~= l@.skip(3));
        let ghost before = views(out@);
        out.push(string_of(&stripped));
        proof {
            assert(views(out@) =~= before.push(stripped@));
            crate::order::lemma_push_to_set(before, stripped@);
        }
        let i = crate::text::find_char(&stripped, '.', 0);
        assert(stripped@.skip(0) =~= stripped@);
        if i < stripped.len() {
            let mut v = lit("lib");
            let head = slice_vec(&stripped, 0, i);
            append(&mut v, &head);
            assert(head@ =~= stripped@.take(i as int));
            let ghost before = views(out@);
            out.push(string_of(&v));
            proof {
                assert(views(out@) =~= before.push(v@));
                crate::order::lemma_push_to_set(before, v@);
            }
        }
    }
    assert(views(out@).to_set() == b);
    match find_sub(&l, &lit(".so")) {
        Some(pos) => {
            assert(pos + 3 <= l.len());
            let head = slice_vec(&l, 0, pos + 3);
            assert(head@ =~= l@.take(pos + 3));
            let ghost before = views(out@);
            out.push(string_of(&head));
            proof {
                assert(views(out@) =~= before.push(head@));
                crate::order::lemma_push_to_set(before, head@);
                let p = choose|p: int| occurs_at(l@, ".so"@, p) && forall|q: int| 0 <= q < p ==> !occurs_at(l@, ".so"@, q);
                if p < pos {
                } else if pos < p {
                }
                assert(p == pos);
            }
        },
        None => {},
    }
    assert(views(out@).to_set() == name_variants(lib@));
    sort_dedup(out)
}


// ── Source manifests ─────────────────────────────────────────────────────

/// Directories a source scan does not descend into.
pub open spec fn skipped_dir(n: Seq<char>) -> bool {
    n == "target"@ || n == ".git"@ || n == "node_modules"@ || n == "vendor"@ || n == "build"@ || n
        == "dist"@ || n == ".os"@ || n == "__pycache__"@ || n == ".cargo"@ || n == "third_party"@
        || n == "deps"@
}

pub fn is_skipped_dir(name: &str) -> (b: bool)
    ensures
        b == skipped_dir(name@),
{
    let n = chars_of(name);
    vec_eq(&n, &lit("target")) || vec_eq(&n, &lit(".git")) || vec_eq(&n, &lit("node_modules"))
        || vec_eq(&n, &lit("vendor")) || vec_eq(&n, &lit("build")) || vec_eq(&n, &lit("dist"))
        || vec_eq(&n, &lit(".os")) || vec_eq(&n, &lit("__pycache__")) || vec_eq(&n, &lit(".cargo"))
        || vec_eq(&n, &lit("third_party")) || vec_eq(&n, &lit("deps"))
}

/// The build-manifest formats whose dependencies a source scan reads.
pub enum ManifestKind {
    Cargo,
    Npm,
    Meson,
    CMake,
    Autotools,
    PkgConfig,
}

pub open spec fn manifest_kind_of(n: Seq<char>) -> Option<ManifestKind> {
    if n == "Cargo.toml"@ {
        Some(ManifestKind::Cargo)
    } else if n == "package.json"@ {
        Some(ManifestKind::Npm)
    } else if n == "meson.build"@ {
        Some(ManifestKind::Meson)
    } else if n == "CMakeLists.txt"@ || ends(n, ".cmake"@) {
        Some(ManifestKind::CMake)
    } else if n == "configure.ac"@ || n == "configure"@ {
        Some(ManifestKind::Autotools)
    } else if ends(n, ".pc"@) {
        Some(ManifestKind::PkgConfig)
    } else {
        None
    }
}

/// The manifest format of a file, by its name.
pub fn manifest_kind(file_name: &str) -> (r: Option<ManifestKind>)
    ensures
        r == manifest_kind_of(file_name@),
{
    let n = chars_of(file_name);
    if vec_eq(&n, &lit("Cargo.toml")) {
        Some(ManifestKind::Cargo)
    } else if vec_eq(&n, &lit("package.json")) {
        Some(ManifestKind::Npm)
    } else if vec_eq(&n, &lit("meson.build")) {
        Some(ManifestKind::Meson)
    } else if vec_eq(&n, &lit("CMakeLists.txt")) || ends_with(&n, &lit(".cmake")) {
        Some(ManifestKind::CMake)
    } else if vec_eq(&n, &lit("configure.ac")) || vec_eq(&n, &lit("configure")) {
        Some(ManifestKind::Autotools)
    } else if ends_with(&n, &lit(".pc")) {
        Some(ManifestKind::PkgConfig)
    } else {
        None
    }
}

pub open spec fn keys_or_empty(k: Option<Seq<Seq<char>>>) -> Seq<Seq<char>> {
    match k {
        Some(v) => v,
        None => Seq::empty(),
    }
}

fn push_keys(out: &mut Vec<String>, keys: Option<Vec<String>>)
    ensures
        views(final(out)@) == views(old(out)@) + keys_or_empty(match keys { Some(v) => Some(views(v@)), None => None }),
{
    let ghost start = views(out@);
    if let Some(ks) = keys {
        let mut i: usize = 0;
        while i < ks.len()
            invariant
                i <= ks.len(),
                views(out@) == start + views(ks@).take(i as int),
            decreases ks.len() - i,
        {
            let ghost prev = views(out@);
            let x = ks[i].clone();
            out.push(x);
            assert(views(out@) =~= prev.push(ks@[i as int]@));
            assert(views(ks@).take(i + 1) =~= views(ks@).take(i as int).push(ks@[i as int]@));
            i = i + 1;
        }
        assert(views(ks@).take(ks.len() as int) =~= views(ks@));
    } else {
        assert(views(out@) =~= views(old(out)@) + Seq::<Seq<char>>::empty());
    }
}

pub open spec fn cargo_deps_of(c: Seq<char>) -> Seq<Seq<char>> {
    keys_or_empty(toml_table_keys_of(c, "dependencies"@)) + keys_or_empty(
        toml_table_keys_of(c, "dev-dependencies"@),
    ) + keys_or_empty(toml_table_keys_of(c, "build-dependencies"@)) + keys_or_empty(
        toml_nested_table_keys_of(c, "workspace"@, "dependencies"@),
    )
}

/// The dependency names of a `Cargo.toml`: the keys of `[dependencies]`,
/// `[dev-dependencies]`, `[build-dependencies]` and
/// `[workspace.dependencies]`.
pub fn cargo_deps(content: &str) -> (r: Vec<String>)
    ensures
        views(r@) == cargo_deps_of(content@),
{
    let mut out: Vec<String> = Vec::new();
    push_keys(&mut out, toml_table_keys(content, "dependencies"));
    push_keys(&mut out, toml_table_keys(content, "dev-dependencies"));
    push_keys(&mut out, toml_table_keys(content, "build-dependencies"));
    push_keys(&mut out, toml_nested_table_keys(content, "workspace", "dependencies"));
    assert(views(out@) =~= cargo_deps_of(content@));
    out
}

pub open spec fn npm_deps_of(c: Seq<char>) -> Seq<Seq<char>> {
    keys_or_empty(json_object_keys_of(c, "dependencies"@)) + keys_or_empty(
        json_object_keys_of(c, "devDependencies"@),
    ) + keys_or_empty(json_object_keys_of(c, "peerDependencies"@)) + keys_or_empty(
        json_object_keys_of(c, "optionalDependencies"@),
    )
}

/// The dependency names of a `package.json`: the keys of its
/// `dependencies`, `devDependencies`, `peerDependencies` and
/// `optionalDependencies` objects.
pub fn npm_deps(content: &str) -> (r: Vec<String>)
    ensures
        views(r@) == npm_deps_of(content@),
{
    let mut out: Vec<String> = Vec::new();
    push_keys(&mut out, json_object_keys(content, "dependencies"));
    push_keys(&mut out, json_object_keys(content, "devDependencies"));
    push_keys(&mut out, json_object_keys(content, "peerDependencies"));
    push_keys(&mut out, json_object_keys(content, "optionalDependencies"));
    assert(views(out@) =~= npm_deps_of(content@));
    out
}

/// Group 1 of every match, skipping matches where it took no part.
pub open spec fn group1_texts(m: Seq<Seq<Option<Seq<char>>>>) -> Seq<Seq<char>>
    decreases m.len(),
{
    if m.len() == 0 {
        Seq::empty()
    } else {
        let prev = group1_texts(m.drop_last());
        if m.last().len() > 1 && m.last()[1] is Some {
            prev.push(m.last()[1]->0)
        } else {
            prev
        }
    }
}

/// Group 1 of every match of `pattern` in `text`, in order.
pub fn regex_group1(pattern: &str, text: &str) -> (r: Vec<String>)
    ensures
        views(r@) == group1_texts(regex_captures_of(pattern@, text@)),
{
    let caps = regex_captures(pattern, text);
    let mut out: Vec<String> = Vec::new();
    let mut i: usize = 0;
    while i < caps.len()
        invariant
            i <= caps.len(),
            views(out@) == group1_texts(captures_view(caps@).take(i as int)),
        decreases caps.len() - i,
    {
        assert(captures_view(caps@).take(i + 1).drop_last() =~= captures_view(caps@).take(i as int));
        let g = &caps[i];
        if g.len() > 1 {
            match &g[1] {
                Some(t) => {
                    out.push(t.clone());
                    assert(views(out@) =~= views(out@.drop_last()).push(t@));
                },
                None => {},
            }
        }
        i = i + 1;
    }
    assert(captures_view(caps@).take(caps.len() as int) =~= captures_view(caps@));
    out
}

pub open spec fn meson_pattern() -> Seq<char> {
    "dependency\\s*\\(\\s*['\"]([^'\"]+)['\"]"@
}

pub open spec fn cmake_pattern() -> Seq<char> {
    "(?i)find_package\\s*\\(\\s*([A-Za-z0-9_+-]+)"@
}

pub open spec fn pkg_check_pattern() -> Seq<char> {
    "(?i)PKG_CHECK_MODULES\\s*\\(\\s*[^,]+,\\s*['\"]?([A-Za-z0-9_+\\-./]+)['\"]?"@
}

pub open spec fn check_lib_pattern() -> Seq<char> {
    "(?i)AC_CHECK_LIB\\s*\\(\\s*['\"]?([A-Za-z0-9_+-]+)['\"]?"@
}

/// The names in `dependency('…')` calls of a `meson.build`.
pub fn meson_deps(content: &str) -> (r: Vec<String>)
    ensures
        views(r@) == group1_texts(regex_captures_of(meson_pattern(), content@)),
{
    regex_group1("dependency\\s*\\(\\s*['\"]([^'\"]+)['\"]", content)
}

/// The package names in `find_package(…)` calls of CMake files.
pub fn cmake_deps(content: &str) -> (r: Vec<String>)
    ensures
        views(r@) == group1_texts(regex_captures_of(cmake_pattern(), content@)),
{
    regex_group1("(?i)find_package\\s*\\(\\s*([A-Za-z0-9_+-]+)", content)
}

/// The `PKG_CHECK_MODULES` modules and `AC_CHECK_LIB` libraries of an
/// autotools script, each with its kind.
pub fn autotools_deps(content: &str) -> (r: (Vec<String>, Vec<String>))
    ensures
        views(r.0@) == group1_texts(regex_captures_of(pkg_check_pattern(), content@)),
        views(r.1@) == group1_texts(regex_captures_of(check_lib_pattern(), content@)),
{
    (
        regex_group1(
            "(?i)PKG_CHECK_MODULES\\s*\\(\\s*[^,]+,\\s*['\"]?([A-Za-z0-9_+\\-./]+)['\"]?",
            content,
        ),
        regex_group1("(?i)AC_CHECK_LIB\\s*\\(\\s*['\"]?([A-Za-z0-9_+-]+)['\"]?", content),
    )
}

/// A character that ends a module name in a pkg-config requirement.
pub open spec fn version_op(c: char) -> bool {
    c == '>' || c == '<' || c == '=' || c == '(' || c == ')' || c == '!'
}

/// The index of the first version operator in `s`, or `s.len()`.
pub open spec fn first_op(s: Seq<char>) -> nat
    decreases s.len(),
{
    if s.len() == 0 {
        0
    } else if version_op(s[0]) {
        0
    } else {
        1 + first_op(s.drop_first())
    }
}

/// The requirement list of a pkg-config line (`Requires:` or
/// `Requires.private:`, either capitalized or lowercase), if it is one.
pub open spec fn requires_list(line: Seq<char>) -> Option<Seq<char>> {
    let t = trim(line);
    if starts(t, "Requires.private:"@) {
        Some(t.skip(17))
    } else if starts(t, "Requires:"@) {
        Some(t.skip(9))
    } else if starts(t, "requires.private:"@) {
        Some(t.skip(17))
    } else if starts(t, "requires:"@) {
        Some(t.skip(9))
    } else {
        None
    }
}

/// The module a requirement word names: the word up to its first version
/// operator, trimmed.
pub open spec fn module_of(word: Seq<char>) -> Seq<char> {
    trim(word.take(first_op(word) as int))
}

pub open spec fn kept_module(m: Seq<char>) -> bool {
    m.len() > 0 && m != "and"@ && m != "or"@
}

pub open spec fn modules_of(words: Seq<Seq<char>>) -> Seq<Seq<char>>
    decreases words.len(),
{
    if words.len() == 0 {
        Seq::empty()
    } else {
        let prev = modules_of(words.drop_last());
        let m = module_of(words.last());
        if kept_module(m) {
            prev.push(m)
        } else {
            prev
        }
    }
}

pub open spec fn pkgconfig_lines(lines: Seq<Seq<char>>) -> Seq<Seq<char>>
    decreases lines.len(),
{
    if lines.len() == 0 {
        Seq::empty()
    } else {
        let prev = pkgconfig_lines(lines.drop_last());
        match requires_list(lines.last()) {
            Some(rest) => prev + modules_of(words_of(rest)),
            None => prev,
        }
    }
}

fn module_from(word: &Vec<char>) -> (r: Vec<char>)
    ensures
        r@ == module_of(word@),
{
    let mut i: usize = 0;
    assert(word@.skip(0) =~= word@);
    while i < word.len() && !(word[i] == '>' || word[i] == '<' || word[i] == '=' || word[i] == '('
        || word[i] == ')' || word[i] == '!')
        invariant
            i <= word.len(),
            first_op(word@) == i + first_op(word@.skip(i as int)),
        decreases word.len() - i,
    {
        assert(word@.skip(i as int).drop_first() =~= word@.skip(i + 1));
        i = i + 1;
    }
    proof {
        if i < word.len() {
            assert(word@.skip(i as int)[0] == word@[i as int]);
        } else {
            assert(word@.skip(i as int).len() == 0);
        }
    }
    let head = slice_vec(word, 0, i);
    assert(head@ =~= word@.take(i as int));
    trimmed(&head)
}

fn requires_rest(line: &Vec<char>) -> (r: Option<Vec<char>>)
    ensures
        match r {
            Some(v) => requires_list(line@) == Some(v@),
            None => requires_list(line@) is None,
        },
{
    let t = trimmed(line);
    proof {
        reveal_strlit("Requires.private:");
        reveal_strlit("Requires:");
        reveal_strlit("requires.private:");
        reveal_strlit("requires:");
    }
    if starts_with(&t, &lit("Requires.private:")) {
        let r = slice_vec(&t, 17, t.len());
        assert(r@ =~= t@.skip(17));
        Some(r)
    } else if starts_with(&t, &lit("Requires:")) {
        let r = slice_vec(&t, 9, t.len());
        assert(r@ =~= t@.skip(9));
        Some(r)
    } else if starts_with(&t, &lit("requires.private:")) {
        let r = slice_vec(&t, 17, t.len());
        assert(r@ =~= t@.skip(17));
        Some(r)
    } else if starts_with(&t, &lit("requires:")) {
        let r = slice_vec(&t, 9, t.len());
        assert(r@ =~= t@.skip(9));
        Some(r)
    } else {
        None
    }
}

/// The modules a `.pc` file requires, from its `Requires:` and
/// `Requires.private:` lines, in order.
pub fn pkgconfig_deps(content: &str) -> (r: Vec<String>)
    ensures
        views(r@) == pkgconfig_lines(lines_of(content@)),
{
    let ls = lines(&chars_of(content));
    let mut out: Vec<String> = Vec::new();
    let mut i: usize = 0;
    while i < ls.len()
        invariant
            i <= ls.len(),
            views(out@) == pkgconfig_lines(vviews(ls@).take(i as int)),
        decreases ls.len() - i,
    {
        assert(vviews(ls@).take(i + 1).drop_last() =~= vviews(ls@).take(i as int));
        match requires_rest(&ls[i]) {
            Some(rest) => {
                let ws = words(&rest);
                let ghost before = views(out@);
                let mut k: usize = 0;
                while k < ws.len()
                    invariant
                        k <= ws.len(),
                        views(out@) == before + modules_of(vviews(ws@).take(k as int)),
                    decreases ws.len() - k,
                {
                    assert(vviews(ws@).take(k + 1).drop_last() =~= vviews(ws@).take(k as int));
                    assert(vviews(ws@).take(k + 1).last() == ws@[k as int]@);
                    let m = module_from(&ws[k]);
                    let ghost prev = views(out@);
                    proof {
                        reveal_strlit("and");
                        reveal_strlit("or");
                    }
                    if m.len() > 0 && !vec_eq(&m, &lit("and")) && !vec_eq(&m, &lit("or")) {
                        out.push(string_of(&m));
                        assert(views(out@) =~= prev.push(m@));
                        assert(kept_module(m@));
                    } else {
                        assert(!kept_module(m@));
                    }
                    k = k + 1;
                }
                assert(vviews(ws@).take(ws.len() as int) =~= vviews(ws@));
            },
            None => {},
        }
        i = i + 1;
    }
    assert(vviews(ls@).take(ls.len() as int) =~= vviews(ls@));
    out
}

pub open spec fn labelled(names: Seq<Seq<char>>, label: Seq<char>) -> Seq<(Seq<char>, Seq<char>)> {
    names.map_values(|n: Seq<char>| (n, label))
}

fn push_labelled(out: &mut Vec<(String, String)>, names: Vec<String>, label: &str)
    ensures
        crate::order::pair_views(final(out)@) == crate::order::pair_views(old(out)@) + labelled(views(names@), label@),
{
    let ghost start = crate::order::pair_views(out@);
    let mut i: usize = 0;
    while i < names.len()
        invariant
            i <= names.len(),
            crate::order::pair_views(out@) == start + labelled(views(names@), label@).take(i as int),
        decreases names.len() - i,
    {
        let ghost prev = crate::order::pair_views(out@);
        let x = names[i].clone();
        out.push((x, own(label)));
        assert(crate::order::pair_views(out@) =~= prev.push((names@[i as int]@, label@)));
        assert(labelled(views(names@), label@).take(i + 1) =~= labelled(views(names@), label@).take(i as int).push((names@[i as int]@, label@)));
        i = i + 1;
    }
    assert(labelled(views(names@), label@).take(names.len() as int) =~= labelled(views(names@), label@));
}

/// The build-time dependencies a manifest file names, each with how it was
/// found: `Build (cargo)`, `Build (npm)`, `Build (meson)`, `Build (cmake)`,
/// `Build (pkg-config)` or `Build (autotools)`.
pub open spec fn manifest_deps_of(file_name: Seq<char>, c: Seq<char>) -> Seq<(Seq<char>, Seq<char>)> {
    match manifest_kind_of(file_name) {
        None => Seq::empty(),
        Some(ManifestKind::Cargo) => labelled(cargo_deps_of(c), "Build (cargo)"@),
        Some(ManifestKind::Npm) => labelled(npm_deps_of(c), "Build (npm)"@),
        Some(ManifestKind::Meson) => labelled(group1_texts(regex_captures_of(meson_pattern(), c)), "Build (meson)"@),
        Some(ManifestKind::CMake) => labelled(group1_texts(regex_captures_of(cmake_pattern(), c)), "Build (cmake)"@),
        Some(ManifestKind::Autotools) => labelled(group1_texts(regex_captures_of(pkg_check_pattern(), c)), "Build (pkg-config)"@)
            + labelled(group1_texts(regex_captures_of(check_lib_pattern(), c)), "Build (autotools)"@),
        Some(ManifestKind::PkgConfig) => labelled(pkgconfig_lines(lines_of(c)), "Build (pkg-config)"@),
    }
}

/// A CMake project's top-level `CMakeLists.txt` is read like any `*.cmake`
/// file: for every content, both give the names the content's
/// `find_package` calls name, each typed `Build (cmake)`.
pub proof fn law_cmake_lists_is_cmake_manifest(n: Seq<char>, c: Seq<char>)
    requires
        ends(n, ".cmake"@),
    ensures
        manifest_deps_of("CMakeLists.txt"@, c) == manifest_deps_of(n, c),
        manifest_deps_of("CMakeLists.txt"@, c) == labelled(group1_texts(regex_captures_of(cmake_pattern(), c)), "Build (cmake)"@),
{
    reveal_strlit("CMakeLists.txt");
    reveal_strlit("Cargo.toml");
    reveal_strlit("package.json");
    reveal_strlit("meson.build");
    reveal_strlit(".cmake");
    assert("CMakeLists.txt"@.len() == 14 && "Cargo.toml"@.len() == 10);
    assert("package.json"@.len() == 12 && "meson.build"@.len() == 11);
    let k = n.len() - 1;
    assert(n[k] == 'e') by {
        assert(n.skip(n.len() - 6) == ".cmake"@);
        assert(n.skip(n.len() - 6)[5] == n[k]);
    }
    if n == "Cargo.toml"@ {
        assert("Cargo.toml"@[9] == 'l');
    }
    if n == "package.json"@ {
        assert("package.json"@[11] == 'n');
    }
    if n == "meson.build"@ {
        assert("meson.build"@[10] == 'd');
    }
}

/// The build-time dependencies named by the manifest file `file_name` with
/// contents `content`; none for a file that is no manifest.
pub fn scan_file(file_name: &str, content: &str) -> (r: Vec<(String, String)>)
    ensures
        crate::order::pair_views(r@) == manifest_deps_of(file_name@, content@),
{
    let mut out: Vec<(String, String)> = Vec::new();
    assert(crate::order::pair_views(out@) =~= Seq::<(Seq<char>, Seq<char>)>::empty());
    match manifest_kind(file_name) {
        None => {},
        Some(ManifestKind::Cargo) => push_labelled(&mut out, cargo_deps(content), "Build (cargo)"),
        Some(ManifestKind::Npm) => push_labelled(&mut out, npm_deps(content), "Build (npm)"),
        Some(ManifestKind::Meson) => push_labelled(&mut out, meson_deps(content), "Build (meson)"),
        Some(ManifestKind::CMake) => push_labelled(&mut out, cmake_deps(content), "Build (cmake)"),
        Some(ManifestKind::Autotools) => {
            let (a, b) = autotools_deps(content);
            push_labelled(&mut out, a, "Build (pkg-config)");
            push_labelled(&mut out, b, "Build (autotools)");
        },
        Some(ManifestKind::PkgConfig) => push_labelled(
            &mut out,
            pkgconfig_deps(content),
            "Build (pkg-config)",
        ),
    }
    assert(crate::order::pair_views(out@) =~= manifest_deps_of(file_name@, content@));
    out
}

} // verus!
