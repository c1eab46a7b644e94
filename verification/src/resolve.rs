use vstd::prelude::*;
use crate::deps::{indexed_library, is_indexed_library, labelled, name_variants, normalize};
use crate::graph::{graph_view, not_named, transitive, transitive_dep};
use crate::model::{Dependency, DependencyEntry, Package, PackageMetadata, str_eq};
use crate::order::{ascending, lemma_push_to_set, lemma_sorted_of, pair_views, sort_dedup, sorted_of, views};
use crate::outside::{captures_view, regex_captures, regex_captures_of, to_lowercase, unicode_lowercase};
use crate::text::{
    all_ascii, ascii_lower, chars_of, eq_ci, eq_ignore_ascii_case, has_sub, contains_sub, lines, lines_of, lit, own,
    slice_vec, starts, starts_with, string_of, trim, trimmed, vec_eq, vviews, words, words_of,
};

verus! {

// ── Dependencies named in a build log ────────────────────────────────────

/// The punctuation stripped from both ends of a name found in a build log.
pub open spec fn punct(c: char) -> bool {
    c == '\'' || c == '"' || c == '`' || c == ':' || c == '.' || c == ',' || c == ';' || c == '('
        || c == ')' || c == '[' || c == ']' || c == '{' || c == '}' || c == '/'
}

fn is_punct(c: char) -> (b: bool)
    ensures
        b == punct(c),
{
    c == '\'' || c == '"' || c == '`' || c == ':' || c == '.' || c == ',' || c == ';' || c == '('
        || c == ')' || c == '[' || c == ']' || c == '{' || c == '}' || c == '/'
}

pub open spec fn strip_punct_start(s: Seq<char>) -> Seq<char>
    decreases s.len(),
{
    if s.len() > 0 && punct(s[0]) {
        strip_punct_start(s.drop_first())
    } else {
        s
    }
}

pub open spec fn strip_punct_end(s: Seq<char>) -> Seq<char>
    decreases s.len(),
{
    if s.len() > 0 && punct(s.last()) {
        strip_punct_end(s.drop_last())
    } else {
        s
    }
}

/// `str::trim_matches` with the punctuation above.
pub open spec fn strip_punct(s: Seq<char>) -> Seq<char> {
    strip_punct_end(strip_punct_start(s))
}

proof fn lemma_strip_start_skip(s: Seq<char>, i: int)
    requires
        0 <= i <= s.len(),
        forall|k: int| 0 <= k < i ==> punct(#[trigger] s[k]),
    ensures
        strip_punct_start(s) == strip_punct_start(s.skip(i)),
    decreases i,
{
    if i > 0 {
        lemma_strip_start_skip(s.drop_first(), i - 1);
        assert(s.drop_first().skip(i - 1) =~= s.skip(i));
    } else {
        assert(s.skip(0) =~= s);
    }
}

proof fn lemma_strip_end_take(s: Seq<char>, j: int)
    requires
        0 <= j <= s.len(),
        forall|k: int| j <= k < s.len() ==> punct(#[trigger] s[k]),
    ensures
        strip_punct_end(s) == strip_punct_end(s.take(j)),
    decreases s.len() - j,
{
    if j < s.len() {
        lemma_strip_end_take(s.drop_last(), j);
        assert(s.drop_last().take(j) =~= s.take(j));
    } else {
        assert(s.take(j) =~= s);
    }
}

fn stripped_punct(v: &Vec<char>) -> (r: Vec<char>)
    ensures
        r@ == strip_punct(v@),
{
    let mut i: usize = 0;
    while i < v.len() && is_punct(v[i])
        invariant
            i <= v.len(),
            forall|k: int| 0 <= k < i ==> punct(#[trigger] v@[k]),
        decreases v.len() - i,
    {
        i = i + 1;
    }
    proof {
        lemma_strip_start_skip(v@, i as int);
    }
    let ghost t = v@.skip(i as int);
    assert(strip_punct_start(t) == t);
    let mut j: usize = v.len();
    while j > i && is_punct(v[j - 1])
        invariant
            i <= j <= v.len(),
            forall|k: int| j <= k < v.len() ==> punct(#[trigger] v@[k]),
        decreases j,
    {
        j = j - 1;
    }
    proof {
        assert forall|k: int| j - i <= k < t.len() implies punct(#[trigger] t[k]) by {
            assert(t[k] == v@[k + i]);
        }
        lemma_strip_end_take(t, j - i);
        assert(t.take(j - i) =~= v@.subrange(i as int, j as int));
        let u = v@.subrange(i as int, j as int);
        if u.len() > 0 {
            assert(u.last() == v@[j - 1]);
        }
    }
    slice_vec(v, i, j)
}

/// The pattern for `pkg-config ... --libs NAME`.
pub open spec fn pkg_config_pattern() -> Seq<char> {
    "(?i)pkg-config[^\\n]*--libs\\s+([^\\s]+)"@
}

/// The pattern for `dependency ...: NAME` and `package ...: NAME`.
pub open spec fn dep_colon_pattern() -> Seq<char> {
    "(?i)(?:dependency|package)\\b[^:\\n]*:\\s*([^\\s]+)"@
}

/// The first match of a search, if any, with its group 1 (`None` when that
/// group took no part).
pub open spec fn first_match(m: Seq<Seq<Option<Seq<char>>>>) -> Option<Option<Seq<char>>> {
    if m.len() == 0 {
        None
    } else if m[0].len() > 1 {
        Some(m[0][1])
    } else {
        Some(None)
    }
}

pub open spec fn group_or_empty(g: Option<Seq<char>>) -> Seq<char> {
    match g {
        Some(t) => t,
        None => Seq::empty(),
    }
}

/// The index of the first word equal to `w` up to ASCII case, or the number
/// of words when there is none.
pub open spec fn first_word_ci(ws: Seq<Seq<char>>, w: Seq<char>) -> nat
    decreases ws.len(),
{
    if ws.len() == 0 {
        0
    } else if eq_ci(ws[0], w) {
        0
    } else {
        1 + first_word_ci(ws.drop_first(), w)
    }
}

/// The word after the first `dependency` word, else after the first
/// `package` word; empty when there is none.
pub open spec fn word_after_keyword(ws: Seq<Seq<char>>) -> Seq<char> {
    let d = first_word_ci(ws, "dependency"@);
    if d < ws.len() {
        if d + 1 < ws.len() {
            ws[d + 1 as int]
        } else {
            Seq::empty()
        }
    } else {
        let p = first_word_ci(ws, "package"@);
        if p + 1 < ws.len() {
            ws[p + 1 as int]
        } else {
            Seq::empty()
        }
    }
}

/// The pattern whose captures name the dependency on a build-log line,
/// given the line lowercased: the `pkg-config --libs` pattern, the
/// `dependency`/`package ... found` pattern, or none.
pub open spec fn log_pattern(lower: Seq<char>) -> Option<Seq<char>> {
    if has_sub(lower, "pkg-config"@) {
        Some(pkg_config_pattern())
    } else if (has_sub(lower, "dependency"@) || has_sub(lower, "package"@)) && has_sub(lower, "found"@) {
        Some(dep_colon_pattern())
    } else {
        None
    }
}

/// The raw name a build-log line announces, or empty, given the line
/// lowercased (`lower`) and the matches `m` of its `log_pattern` in it: the
/// name `pkg-config --libs` is asked for, the name a `dependency`/`package`
/// line reports found (else the word after `dependency` or `package`), the
/// word after `found`, or the word after `checking for`.
pub open spec fn candidate_with(line: Seq<char>, lower: Seq<char>, m: Seq<Seq<Option<Seq<char>>>>) -> Seq<char> {
    if has_sub(lower, "pkg-config"@) {
        match first_match(m) {
            Some(g) => group_or_empty(g),
            None => Seq::empty(),
        }
    } else if (has_sub(lower, "dependency"@) || has_sub(lower, "package"@)) && has_sub(lower, "found"@) {
        match first_match(m) {
            Some(g) => group_or_empty(g),
            None => word_after_keyword(words_of(line)),
        }
    } else if starts(lower, "found "@) {
        let ws = words_of(line);
        if ws.len() >= 2 {
            ws[1]
        } else {
            Seq::empty()
        }
    } else if starts(lower, "checking for "@) {
        let ws = words_of(line);
        if ws.len() >= 3 {
            ws[2]
        } else {
            Seq::empty()
        }
    } else {
        Seq::empty()
    }
}

/// The raw name a build-log line announces, or empty (see `candidate_with`),
/// with the matches of its pattern in it.
pub open spec fn log_candidate(line: Seq<char>) -> Seq<char> {
    let lower = unicode_lowercase(line);
    candidate_with(
        line,
        lower,
        match log_pattern(lower) {
            Some(p) => regex_captures_of(p, line),
            None => Seq::empty(),
        },
    )
}

/// Words that a build log prints in the place of a name but that name no
/// dependency.
pub open spec fn ignored_word(w: Seq<char>) -> bool {
    w == "threads"@ || w == "for"@ || w == "pkg-config"@ || w == "cmake"@ || w == "ninja"@ || w
        == "yes"@ || w == "no"@ || w == "found"@ || w == "not"@ || w == "module"@ || w
        == "function"@ || w == "program"@ || w == "library"@
}

/// The dependency a build-log line names, cleaned of punctuation and
/// whitespace, unless it is empty or an ignored word.
pub open spec fn log_dep(line: Seq<char>) -> Option<Seq<char>> {
    let c = trim(strip_punct(log_candidate(line)));
    if c.len() > 0 && !ignored_word(unicode_lowercase(c)) {
        Some(c)
    } else {
        None
    }
}

pub open spec fn log_deps_of(ls: Seq<Seq<char>>) -> Seq<Seq<char>>
    decreases ls.len(),
{
    if ls.len() == 0 {
        Seq::empty()
    } else {
        let prev = log_deps_of(ls.drop_last());
        match log_dep(ls.last()) {
            Some(d) => prev.push(d),
            None => prev,
        }
    }
}

fn first_group(caps: &Vec<Vec<Option<String>>>) -> (r: Option<Option<String>>)
    ensures
        match r {
            None => first_match(captures_view(caps@)) is None,
            Some(None) => first_match(captures_view(caps@)) == Some(None::<Seq<char>>),
            Some(Some(s)) => first_match(captures_view(caps@)) == Some(Some(s@)),
        },
{
    if caps.len() == 0 {
        return None;
    }
    let g = &caps[0];
    assert(captures_view(caps@)[0] == crate::outside::groups_view(g@));
    if g.len() > 1 {
        match &g[1] {
            Some(t) => Some(Some(t.clone())),
            None => Some(None),
        }
    } else {
        Some(None)
    }
}

fn find_word_ci(ws: &Vec<Vec<char>>, w: &Vec<char>) -> (r: usize)
    ensures
        r == first_word_ci(vviews(ws@), w@),
{
    let mut i: usize = 0;
    assert(vviews(ws@).skip(0) =~= vviews(ws@));
    while i < ws.len()
        invariant
            i <= ws.len(),
            first_word_ci(vviews(ws@), w@) == i + first_word_ci(vviews(ws@).skip(i as int), w@),
        decreases ws.len() - i,
    {
        assert(vviews(ws@).skip(i as int)[0] == ws@[i as int]@);
        if eq_ignore_ascii_case(&ws[i], w) {
            return i;
        }
        assert(vviews(ws@).skip(i as int).drop_first() =~= vviews(ws@).skip(i + 1));
        i = i + 1;
    }
    assert(vviews(ws@).skip(i as int).len() == 0);
    i
}

/// The raw name a build-log line announces, or empty, given the matches
/// `caps` of the line's `log_pattern` in it (see `candidate_with`).
pub fn candidate_from(line: &str, caps: &Vec<Vec<Option<String>>>) -> (r: String)
    ensures
        r@ == candidate_with(line@, unicode_lowercase(line@), captures_view(caps@)),
        all_ascii(line@) ==> r@ == candidate_with(line@, line@.map_values(|c: char| ascii_lower(c)), captures_view(caps@)),
{
    let l = chars_of(line);
    let lower = chars_of(to_lowercase(line).as_str());
    let r = if contains_sub(&lower, &lit("pkg-config")) {
        match first_group(caps) {
            Some(Some(g)) => chars_of(g.as_str()),
            _ => Vec::new(),
        }
    } else if (contains_sub(&lower, &lit("dependency")) || contains_sub(&lower, &lit("package")))
        && contains_sub(&lower, &lit("found")) {
        match first_group(caps) {
            Some(Some(g)) => chars_of(g.as_str()),
            Some(None) => Vec::new(),
            None => {
                let ws = words(&l);
                let d = find_word_ci(&ws, &lit("dependency"));
                if d < ws.len() {
                    if d + 1 < ws.len() {
                        ws[d + 1].clone()
                    } else {
                        Vec::new()
                    }
                } else {
                    let p = find_word_ci(&ws, &lit("package"));
                    if p < ws.len() && p + 1 < ws.len() {
                        ws[p + 1].clone()
                    } else {
                        Vec::new()
                    }
                }
            },
        }
    } else if starts_with(&lower, &lit("found ")) {
        let ws = words(&l);
        if ws.len() >= 2 {
            ws[1].clone()
        } else {
            Vec::new()
        }
    } else if starts_with(&lower, &lit("checking for ")) {
        let ws = words(&l);
        if ws.len() >= 3 {
            ws[2].clone()
        } else {
            Vec::new()
        }
    } else {
        Vec::new()
    };
    string_of(&r)
}

fn candidate(line: &Vec<char>) -> (r: Vec<char>)
    ensures
        r@ == log_candidate(line@),
{
    let text = string_of(line);
    let lower = chars_of(to_lowercase(text.as_str()).as_str());
    let caps: Vec<Vec<Option<String>>> = if contains_sub(&lower, &lit("pkg-config")) {
        regex_captures("(?i)pkg-config[^\\n]*--libs\\s+([^\\s]+)", text.as_str())
    } else if (contains_sub(&lower, &lit("dependency")) || contains_sub(&lower, &lit("package")))
        && contains_sub(&lower, &lit("found")) {
        regex_captures("(?i)(?:dependency|package)\\b[^:\\n]*:\\s*([^\\s]+)", text.as_str())
    } else {
        Vec::new()
    };
    assert(captures_view(caps@) == match log_pattern(lower@) {
        Some(p) => regex_captures_of(p, line@),
        None => Seq::<Seq<Option<Seq<char>>>>::empty(),
    });
    chars_of(candidate_from(text.as_str(), &caps).as_str())
}

fn is_ignored(w: &Vec<char>) -> (b: bool)
    ensures
        b == ignored_word(w@),
{
    vec_eq(w, &lit("threads")) || vec_eq(w, &lit("for")) || vec_eq(w, &lit("pkg-config")) || vec_eq(
        w,
        &lit("cmake"),
    ) || vec_eq(w, &lit("ninja")) || vec_eq(w, &lit("yes")) || vec_eq(w, &lit("no")) || vec_eq(
        w,
        &lit("found"),
    ) || vec_eq(w, &lit("not")) || vec_eq(w, &lit("module")) || vec_eq(w, &lit("function"))
        || vec_eq(w, &lit("program")) || vec_eq(w, &lit("library"))
}

/// The dependencies a build log announces (`pkg-config ... --libs NAME`,
/// `Dependency NAME found`, `Found NAME`, `Checking for NAME`), one per
/// line at most, in order, each with the type `Build`.
pub fn cdd(log_content: &str) -> (r: Vec<(String, String)>)
    ensures
        pair_views(r@) == labelled(log_deps_of(lines_of(log_content@)), "Build"@),
{
    let ls = lines(&chars_of(log_content));
    let mut out: Vec<(String, String)> = Vec::new();
    let mut i: usize = 0;
    while i < ls.len()
        invariant
            i <= ls.len(),
            pair_views(out@) == labelled(log_deps_of(vviews(ls@).take(i as int)), "Build"@),
        decreases ls.len() - i,
    {
        assert(vviews(ls@).take(i + 1).drop_last() =~= vviews(ls@).take(i as int));
        assert(vviews(ls@).take(i + 1).last() == ls@[i as int]@);
        let c = trimmed(&stripped_punct(&candidate(&ls[i])));
        let lowered = chars_of(to_lowercase(string_of(&c).as_str()).as_str());
        let ghost prev = pair_views(out@);
        let ghost before = log_deps_of(vviews(ls@).take(i as int));
        if c.len() > 0 && !is_ignored(&lowered) {
            out.push((string_of(&c), own("Build")));
            assert(pair_views(out@) =~= prev.push((c@, "Build"@)));
            assert(labelled(before.push(c@), "Build"@) =~= labelled(before, "Build"@).push((c@, "Build"@)));
        }
        i = i + 1;
    }
    assert(vviews(ls@).take(ls.len() as int) =~= vviews(ls@));
    out
}

// ── The library index of a workspace ────────────────────────────────────

/// The lookup names of a library, in ascending order.
pub open spec fn sorted_variants(l: Seq<char>) -> Seq<Seq<char>> {
    sorted_of(name_variants(l))
}

/// The packages recorded under `name`, in the order they were recorded.
pub open spec fn providers_of(pairs: Seq<(Seq<char>, Seq<char>)>, name: Seq<char>) -> Seq<Seq<char>>
    decreases pairs.len(),
{
    if pairs.len() == 0 {
        Seq::empty()
    } else if pairs.last().0 == name {
        providers_of(pairs.drop_last(), name).push(pairs.last().1)
    } else {
        providers_of(pairs.drop_last(), name)
    }
}

/// `pairs` with `pkg` recorded under each of `names` where it is not yet.
pub open spec fn with_provider(
    pairs: Seq<(Seq<char>, Seq<char>)>,
    names: Seq<Seq<char>>,
    pkg: Seq<char>,
) -> Seq<(Seq<char>, Seq<char>)>
    decreases names.len(),
{
    if names.len() == 0 {
        pairs
    } else {
        let p = with_provider(pairs, names.drop_last(), pkg);
        if p.contains((names.last(), pkg)) {
            p
        } else {
            p.push((names.last(), pkg))
        }
    }
}

/// Which packages of a workspace provide which library: each library file
/// that a package installs is recorded under every lookup name of the
/// library (see `normalize`), once per package.
pub struct LibraryIndex {
    pub entries: Vec<(String, String)>,
}

impl View for LibraryIndex {
    type V = Seq<(Seq<char>, Seq<char>)>;

    open spec fn view(&self) -> Seq<(Seq<char>, Seq<char>)> {
        pair_views(self.entries@)
    }
}

fn has_pair(entries: &Vec<(String, String)>, a: &String, b: &str) -> (r: bool)
    ensures
        r == pair_views(entries@).contains((a@, b@)),
{
    let bs = chars_of(b);
    let mut i: usize = 0;
    while i < entries.len()
        invariant
            i <= entries.len(),
            bs@ == b@,
            forall|k: int| 0 <= k < i ==> pair_views(entries@)[k] != (a@, b@),
        decreases entries.len() - i,
    {
        assert(pair_views(entries@)[i as int] == (entries@[i as int].0@, entries@[i as int].1@));
        if str_eq(&entries[i].0, a) && vec_eq(&chars_of(entries[i].1.as_str()), &bs) {
            return true;
        }
        i = i + 1;
    }
    false
}

impl LibraryIndex {
    pub fn new() -> (r: Self)
        ensures
            r@ == Seq::<(Seq<char>, Seq<char>)>::empty(),
    {
        let r = LibraryIndex { entries: Vec::new() };
        assert(r@ =~= Seq::<(Seq<char>, Seq<char>)>::empty());
        r
    }

    /// Records that `package` installs the file `file_name`: a library file
    /// is recorded under each of its lookup names; another file is ignored.
    pub fn add_file(&mut self, package: &str, file_name: &str)
        ensures
            final(self)@ == if indexed_library(file_name@) {
                with_provider(old(self)@, sorted_variants(file_name@), package@)
            } else {
                old(self)@
            },
    {
        if !is_indexed_library(file_name) {
            return;
        }
        let names = normalize(file_name);
        proof {
            lemma_sorted_of(views(names@));
        }
        let ghost start = self@;
        let mut k: usize = 0;
        while k < names.len()
            invariant
                k <= names.len(),
                self@ == with_provider(start, views(names@).take(k as int), package@),
            decreases names.len() - k,
        {
            proof {
                assert(views(names@).take(k + 1).drop_last() =~= views(names@).take(k as int));
                assert(views(names@).take(k + 1).last() == names@[k as int]@);
            }
            if !has_pair(&self.entries, &names[k], package) {
                let ghost before = self@;
                self.entries.push((names[k].clone(), own(package)));
                assert(self@ =~= before.push((names@[k as int]@, package@)));
            }
            k = k + 1;
        }
        assert(views(names@).take(names.len() as int) =~= views(names@));
    }

    /// The packages recorded under `name`, in the order they were recorded.
    pub fn providers(&self, name: &String) -> (r: Vec<String>)
        ensures
            views(r@) == providers_of(self@, name@),
    {
        let mut out: Vec<String> = Vec::new();
        let mut i: usize = 0;
        while i < self.entries.len()
            invariant
                i <= self.entries.len(),
                views(out@) == providers_of(self@.take(i as int), name@),
            decreases self.entries.len() - i,
        {
            proof {
                assert(self@.take(i + 1).drop_last() =~= self@.take(i as int));
                assert(self@.take(i + 1).last() == (self.entries@[i as int].0@, self.entries@[i as int].1@));
            }
            if str_eq(&self.entries[i].0, name) {
                let ghost before = views(out@);
                out.push(self.entries[i].1.clone());
                assert(views(out@) =~= before.push(self.entries@[i as int].1@));
            }
            i = i + 1;
        }
        assert(self@.take(self.entries.len() as int) =~= self@);
        out
    }
}

/// The packages, other than `cur`, recorded under the names `cands`, name
/// after name.
pub open spec fn candidates_providers(
    cur: Seq<char>,
    pairs: Seq<(Seq<char>, Seq<char>)>,
    cands: Seq<Seq<char>>,
) -> Seq<Seq<char>>
    decreases cands.len(),
{
    if cands.len() == 0 {
        Seq::empty()
    } else {
        candidates_providers(cur, pairs, cands.drop_last()) + not_named(cur, providers_of(pairs, cands.last()))
    }
}

/// The packages, other than `cur`, that provide the library `lib`, once
/// for each of its lookup names under which they are recorded.
pub open spec fn lib_providers(cur: Seq<char>, pairs: Seq<(Seq<char>, Seq<char>)>, lib: Seq<char>) -> Seq<Seq<char>> {
    candidates_providers(cur, pairs, sorted_variants(lib))
}

fn ci_eq(a: &String, b: &str) -> (r: bool)
    ensures
        r == eq_ci(a@, b@),
{
    eq_ignore_ascii_case(&chars_of(a.as_str()), &chars_of(b))
}

fn library_providers(index: &LibraryIndex, cur: &str, lib: &str) -> (r: Vec<String>)
    ensures
        views(r@) == lib_providers(cur@, index@, lib@),
{
    let cands = normalize(lib);
    proof {
        lemma_sorted_of(views(cands@));
    }
    let ghost cs = views(cands@);
    let mut out: Vec<String> = Vec::new();
    let mut k: usize = 0;
    while k < cands.len()
        invariant
            k <= cands.len(),
            cs == views(cands@),
            views(out@) == candidates_providers(cur@, index@, cs.take(k as int)),
        decreases cands.len() - k,
    {
        proof {
            assert(cs.take(k + 1).drop_last() =~= cs.take(k as int));
            assert(cs.take(k + 1).last() == cands@[k as int]@);
        }
        let ps = index.providers(&cands[k]);
        let ghost mid = views(out@);
        let mut m: usize = 0;
        while m < ps.len()
            invariant
                m <= ps.len(),
                views(out@) == mid + not_named(cur@, views(ps@).take(m as int)),
            decreases ps.len() - m,
        {
            proof {
                assert(views(ps@).take(m + 1).drop_last() =~= views(ps@).take(m as int));
                assert(views(ps@).take(m + 1).last() == ps@[m as int]@);
            }
            if !ci_eq(&ps[m], cur) {
                let ghost before = views(out@);
                out.push(ps[m].clone());
                assert(views(out@) =~= before.push(ps@[m as int]@));
            }
            m = m + 1;
        }
        assert(views(ps@).take(ps.len() as int) =~= views(ps@));
        k = k + 1;
    }
    assert(cs.take(cands.len() as int) =~= cs);
    out
}

// ── Dependency scan ─────────────────────────────────────────────────────

pub open spec fn entry_name(e: DependencyEntry) -> Seq<char> {
    match e {
        DependencyEntry::Simple(n) => n@,
        DependencyEntry::Versioned { name, .. } => name@,
    }
}

pub open spec fn declared_entries(d: Option<Vec<DependencyEntry>>) -> Seq<DependencyEntry> {
    match d {
        Some(v) => v@,
        None => Seq::empty(),
    }
}

/// The declared dependencies other than `cur`, each of type `Manifest`.
pub open spec fn manifest_events(cur: Seq<char>, es: Seq<DependencyEntry>) -> Seq<(Seq<char>, Seq<char>)>
    decreases es.len(),
{
    if es.len() == 0 {
        Seq::empty()
    } else if eq_ci(entry_name(es.last()), cur) {
        manifest_events(cur, es.drop_last())
    } else {
        manifest_events(cur, es.drop_last()).push((entry_name(es.last()), "Manifest"@))
    }
}

/// The pairs of `ps` whose name is not `cur`.
pub open spec fn kept_events(cur: Seq<char>, ps: Seq<(Seq<char>, Seq<char>)>) -> Seq<(Seq<char>, Seq<char>)>
    decreases ps.len(),
{
    if ps.len() == 0 {
        Seq::empty()
    } else if eq_ci(ps.last().0, cur) {
        kept_events(cur, ps.drop_last())
    } else {
        kept_events(cur, ps.drop_last()).push(ps.last())
    }
}

pub open spec fn lib_label(l: Seq<char>) -> Seq<char> {
    "Library ("@ + l + ")"@
}

/// For each library in turn: its providers, typed `Library (<lib>)`, or the
/// library itself, typed `Library`, when no other package provides it.
pub open spec fn library_events(cur: Seq<char>, pairs: Seq<(Seq<char>, Seq<char>)>, libs: Seq<Seq<char>>) -> Seq<(Seq<char>, Seq<char>)>
    decreases libs.len(),
{
    if libs.len() == 0 {
        Seq::empty()
    } else {
        let l = libs.last();
        let ps = lib_providers(cur, pairs, l);
        library_events(cur, pairs, libs.drop_last()) + if ps.len() > 0 {
            labelled(ps, lib_label(l))
        } else {
            seq![(l, "Library"@)]
        }
    }
}

/// Each use of a library by a providing package: `(package, library)`.
pub open spec fn library_uses(cur: Seq<char>, pairs: Seq<(Seq<char>, Seq<char>)>, libs: Seq<Seq<char>>) -> Seq<(Seq<char>, Seq<char>)>
    decreases libs.len(),
{
    if libs.len() == 0 {
        Seq::empty()
    } else {
        library_uses(cur, pairs, libs.drop_last()) + labelled(lib_providers(cur, pairs, libs.last()), libs.last())
    }
}

/// The libraries that no other package provides, in order.
pub open spec fn unresolved_libraries(cur: Seq<char>, pairs: Seq<(Seq<char>, Seq<char>)>, libs: Seq<Seq<char>>) -> Seq<Seq<char>>
    decreases libs.len(),
{
    if libs.len() == 0 {
        Seq::empty()
    } else if lib_providers(cur, pairs, libs.last()).len() == 0 {
        unresolved_libraries(cur, pairs, libs.drop_last()).push(libs.last())
    } else {
        unresolved_libraries(cur, pairs, libs.drop_last())
    }
}

/// Every `(name, type)` finding of a scan before the transitive step:
/// declared dependencies, source manifests, the build log, then libraries.
pub open spec fn scan_events(
    pkg: Package,
    source: Seq<(Seq<char>, Seq<char>)>,
    log: Seq<char>,
    libs: Seq<Seq<char>>,
    pairs: Seq<(Seq<char>, Seq<char>)>,
) -> Seq<(Seq<char>, Seq<char>)> {
    let cur = pkg.name@;
    manifest_events(cur, declared_entries(pkg.dependencies)) + kept_events(cur, source) + kept_events(
        cur,
        labelled(log_deps_of(lines_of(log)), "Build"@),
    ) + library_events(cur, pairs, libs)
}

/// The names of `ev`.
pub open spec fn event_names(ev: Seq<(Seq<char>, Seq<char>)>) -> Set<Seq<char>> {
    Set::new(|n: Seq<char>| exists|i: int| 0 <= i < ev.len() && #[trigger] ev[i].0 == n)
}

/// The types found for `n`, with `Transitive` when `n` is in `tr`.
pub open spec fn types_of(ev: Seq<(Seq<char>, Seq<char>)>, tr: Set<Seq<char>>, n: Seq<char>) -> Set<Seq<char>> {
    Set::new(|t: Seq<char>| ev.contains((n, t)) || (t == "Transitive"@ && tr.contains(n)))
}

/// The libraries that `n` provides.
pub open spec fn libs_of(uses: Seq<(Seq<char>, Seq<char>)>, n: Seq<char>) -> Set<Seq<char>> {
    Set::new(|l: Seq<char>| uses.contains((n, l)))
}

/// `ts` joined with `sep` between neighbours.
pub open spec fn joined(ts: Seq<Seq<char>>, sep: Seq<char>) -> Seq<char>
    decreases ts.len(),
{
    if ts.len() == 0 {
        Seq::empty()
    } else if ts.len() == 1 {
        ts[0]
    } else {
        joined(ts.drop_last(), sep) + sep + ts.last()
    }
}

pub open spec fn dep_names(ds: Seq<Dependency>) -> Seq<Seq<char>> {
    ds.map_values(|d: Dependency| d.name@)
}

/// `d` is the dependency entry for its name: its types sorted and joined
/// with ` & `, and the libraries it provides, sorted, when it provides two
/// or more distinct libraries.
pub open spec fn dependency_entry_ok(
    d: Dependency,
    ev: Seq<(Seq<char>, Seq<char>)>,
    tr: Set<Seq<char>>,
    uses: Seq<(Seq<char>, Seq<char>)>,
) -> bool {
    &&& d.dep_type@ == joined(sorted_of(types_of(ev, tr, d.name@)), " & "@)
    &&& if sorted_of(libs_of(uses, d.name@)).len() >= 2 {
        d.libraries matches Some(ls) && views(ls@) == sorted_of(libs_of(uses, d.name@))
    } else {
        d.libraries is None
    }
}

/// The dependency list of a scan: one entry per name, in ascending order.
pub open spec fn dependencies_ok(
    ds: Seq<Dependency>,
    ev: Seq<(Seq<char>, Seq<char>)>,
    tr: Set<Seq<char>>,
    uses: Seq<(Seq<char>, Seq<char>)>,
) -> bool {
    &&& ascending(dep_names(ds))
    &&& dep_names(ds).to_set() == event_names(ev).union(tr)
    &&& forall|k: int| 0 <= k < ds.len() ==> dependency_entry_ok(#[trigger] ds[k], ev, tr, uses)
}

/// An element of the first `i + 1` items is one of the first `i` or the
/// `i`-th.
pub proof fn lemma_take_contains<A>(s: Seq<A>, i: int, x: A)
    requires
        0 <= i < s.len(),
    ensures
        s.take(i + 1).contains(x) <==> (s.take(i).contains(x) || s[i] == x),
{
    let a = s.take(i + 1);
    let b = s.take(i);
    if a.contains(x) {
        let w = choose|w: int| 0 <= w < a.len() && a[w] == x;
        if w < i {
            assert(b[w] == x);
        }
    }
    if b.contains(x) {
        let w = choose|w: int| 0 <= w < b.len() && b[w] == x;
        assert(a[w] == x);
    }
    if s[i] == x {
        assert(a[i] == x);
    }
}

fn join_with(parts: &Vec<String>, sep: &str) -> (r: String)
    ensures
        r@ == joined(views(parts@), sep@),
{
    let sp = chars_of(sep);
    let mut acc: Vec<char> = Vec::new();
    let mut i: usize = 0;
    while i < parts.len()
        invariant
            i <= parts.len(),
            sp@ == sep@,
            acc@ == joined(views(parts@).take(i as int), sep@),
        decreases parts.len() - i,
    {
        let ghost t = views(parts@).take(i + 1);
        proof {
            assert(t.drop_last() =~= views(parts@).take(i as int));
            assert(t.last() == parts@[i as int]@);
        }
        let piece = chars_of(parts[i].as_str());
        if i == 0 {
            acc = piece;
            assert(t.len() == 1);
        } else {
            crate::text::append(&mut acc, &sp);
            crate::text::append(&mut acc, &piece);
        }
        i = i + 1;
    }
    assert(views(parts@).take(parts.len() as int) =~= views(parts@));
    string_of(&acc)
}

fn listed(v: &Vec<String>, x: &String) -> (b: bool)
    ensures
        b == views(v@).contains(x@),
{
    let mut i: usize = 0;
    while i < v.len()
        invariant
            i <= v.len(),
            forall|k: int| 0 <= k < i ==> v@[k]@ != x@,
        decreases v.len() - i,
    {
        if str_eq(&v[i], x) {
            assert(views(v@)[i as int] == x@);
            return true;
        }
        i = i + 1;
    }
    assert forall|k: int| 0 <= k < views(v@).len() implies views(v@)[k] != x@ by {
        assert(views(v@)[k] == v@[k]@);
    }
    false
}

/// The dependency list of a scan from its findings `events`, the
/// transitive dependencies `tr` and the library uses `uses`: one entry per
/// name, in ascending order of names.
pub fn assemble(events: &Vec<(String, String)>, tr: &Vec<String>, uses: &Vec<(String, String)>) -> (r: Vec<Dependency>)
    ensures
        dependencies_ok(r@, pair_views(events@), views(tr@).to_set(), pair_views(uses@)),
{
    let ghost ev = pair_views(events@);
    let ghost trs = views(tr@).to_set();
    let ghost us = pair_views(uses@);
    let mut all: Vec<String> = Vec::new();
    let mut i: usize = 0;
    while i < events.len()
        invariant
            i <= events.len(),
            ev == pair_views(events@),
            forall|n: Seq<char>| #![trigger views(all@).to_set().contains(n)] views(all@).to_set().contains(n) <==> exists|k: int| 0 <= k < i && #[trigger] ev[k].0 == n,
        decreases events.len() - i,
    {
        let ghost before = views(all@);
        all.push(events[i].0.clone());
        proof {
            assert(views(all@) =~= before.push(events@[i as int].0@));
            lemma_push_to_set(before, events@[i as int].0@);
            assert(ev[i as int].0 == events@[i as int].0@);
        }
        i = i + 1;
    }
    let mut i: usize = 0;
    while i < tr.len()
        invariant
            i <= tr.len(),
            ev == pair_views(events@),
            trs == views(tr@).to_set(),
            forall|n: Seq<char>| #![trigger views(all@).to_set().contains(n)] views(all@).to_set().contains(n) <==> ((exists|k: int| 0 <= k < ev.len() && #[trigger] ev[k].0 == n) || views(tr@).take(i as int).contains(n)),
        decreases tr.len() - i,
    {
        let ghost before = views(all@);
        all.push(tr[i].clone());
        proof {
            assert(views(all@) =~= before.push(tr@[i as int]@));
            lemma_push_to_set(before, tr@[i as int]@);
            lemma_take_contains(views(tr@), i as int, tr@[i as int]@);
            assert forall|n: Seq<char>| views(tr@).take(i + 1).contains(n) <==> (views(tr@).take(i as int).contains(n) || n == tr@[i as int]@) by {
                lemma_take_contains(views(tr@), i as int, n);
            }
        }
        i = i + 1;
    }
    assert(views(tr@).take(tr.len() as int) =~= views(tr@));
    let names = sort_dedup(all);
    assert(views(names@).to_set() =~= event_names(ev).union(trs));
    let mut out: Vec<Dependency> = Vec::new();
    let mut k: usize = 0;
    while k < names.len()
        invariant
            k <= names.len(),
            ev == pair_views(events@),
            trs == views(tr@).to_set(),
            us == pair_views(uses@),
            dep_names(out@) == views(names@).take(k as int),
            forall|j: int| 0 <= j < out.len() ==> dependency_entry_ok(#[trigger] out@[j], ev, trs, us),
        decreases names.len() - k,
    {
        let n = &names[k];
        let mut tys: Vec<String> = Vec::new();
        let mut i: usize = 0;
        while i < events.len()
            invariant
                i <= events.len(),
                ev == pair_views(events@),
                views(tys@).to_set() == Set::new(|t: Seq<char>| ev.take(i as int).contains((n@, t))),
            decreases events.len() - i,
        {
            let ghost before = views(tys@);
            proof {
                assert(ev[i as int] == (events@[i as int].0@, events@[i as int].1@));
                assert forall|t: Seq<char>| ev.take(i + 1).contains((n@, t)) <==> (ev.take(i as int).contains((n@, t)) || ev[i as int] == (n@, t)) by {
                    lemma_take_contains(ev, i as int, (n@, t));
                }
            }
            if str_eq(&events[i].0, n) {
                tys.push(events[i].1.clone());
                proof {
                    assert(ev[i as int] == (n@, events@[i as int].1@));
                    assert(views(tys@) =~= before.push(events@[i as int].1@));
                    lemma_push_to_set(before, events@[i as int].1@);
                    assert forall|t: Seq<char>| views(tys@).to_set().contains(t) <==> ev.take(i + 1).contains((n@, t)) by {
                        lemma_take_contains(ev, i as int, (n@, t));
                        assert(before.to_set().contains(t) <==> ev.take(i as int).contains((n@, t)));
                    }
                }
                assert(views(tys@).to_set() =~= Set::new(|t: Seq<char>| ev.take(i + 1).contains((n@, t))));
            } else {
                assert(ev[i as int].0 != n@);
                assert forall|t: Seq<char>| ev.take(i + 1).contains((n@, t)) == ev.take(i as int).contains((n@, t)) by {
                    assert(ev[i as int] != (n@, t));
                }
                assert(views(tys@).to_set() =~= Set::new(|t: Seq<char>| ev.take(i + 1).contains((n@, t))));
            }
            i = i + 1;
        }
        assert(ev.take(events.len() as int) =~= ev);
        if listed(tr, n) {
            let ghost before = views(tys@);
            tys.push(own("Transitive"));
            proof {
                assert(views(tys@) =~= before.push("Transitive"@));
                lemma_push_to_set(before, "Transitive"@);
            }
        }
        assert(views(tys@).to_set() =~= types_of(ev, trs, n@));
        let ts = sort_dedup(tys);
        proof {
            lemma_sorted_of(views(ts@));
        }
        let dep_type = join_with(&ts, " & ");
        let mut ls: Vec<String> = Vec::new();
        let mut i: usize = 0;
        while i < uses.len()
            invariant
                i <= uses.len(),
                us == pair_views(uses@),
                views(ls@).to_set() == libs_of(us.take(i as int), n@),
            decreases uses.len() - i,
        {
            let ghost before = views(ls@);
            proof {
                assert(us[i as int] == (uses@[i as int].0@, uses@[i as int].1@));
                assert(us.take(i + 1).drop_last() =~= us.take(i as int));
                assert forall|l: Seq<char>| us.take(i + 1).contains((n@, l)) <==> (us.take(i as int).contains((n@, l)) || us[i as int] == (n@, l)) by {
                    lemma_take_contains(us, i as int, (n@, l));
                }
            }
            if str_eq(&uses[i].0, n) {
                ls.push(uses[i].1.clone());
                proof {
                    assert(us[i as int] == (n@, uses@[i as int].1@));
                    assert(views(ls@) =~= before.push(uses@[i as int].1@));
                    lemma_push_to_set(before, uses@[i as int].1@);
                    assert forall|l: Seq<char>| views(ls@).to_set().contains(l) <==> us.take(i + 1).contains((n@, l)) by {
                        lemma_take_contains(us, i as int, (n@, l));
                        assert(before.to_set().contains(l) <==> us.take(i as int).contains((n@, l)));
                    }
                }
                assert(views(ls@).to_set() =~= libs_of(us.take(i + 1), n@));
            } else {
                assert(us[i as int].0 != n@);
                assert forall|l: Seq<char>| us.take(i + 1).contains((n@, l)) == us.take(i as int).contains((n@, l)) by {
                    assert(us[i as int] != (n@, l));
                }
                assert(views(ls@).to_set() =~= libs_of(us.take(i + 1), n@));
            }
            i = i + 1;
        }
        assert(us.take(uses.len() as int) =~= us);
        let sorted = sort_dedup(ls);
        proof {
            lemma_sorted_of(views(sorted@));
        }
        let libraries = if sorted.len() >= 2 {
            Some(sorted)
        } else {
            None
        };
        let d = Dependency { name: n.clone(), dep_type, libraries };
        assert(dependency_entry_ok(d, ev, trs, us));
        let ghost before = dep_names(out@);
        out.push(d);
        proof {
            assert(dep_names(out@) =~= before.push(names@[k as int]@));
            assert(views(names@).take(k + 1) =~= views(names@).take(k as int).push(names@[k as int]@));
        }
        k = k + 1;
    }
    assert(views(names@).take(names.len() as int) =~= views(names@));
    out
}

/// Libraries that strict mode could not resolve to packages.
pub struct UnresolvedLibraries {
    pub names: Vec<String>,
}

impl UnresolvedLibraries {
    pub fn message(&self) -> (r: String)
        ensures
            r@ == "Strict mode: libraries could not be resolved to packages: "@ + joined(views(self.names@), ", "@),
    {
        let mut m = lit("Strict mode: libraries could not be resolved to packages: ");
        let j = join_with(&self.names, ", ");
        crate::text::append(&mut m, &chars_of(j.as_str()));
        string_of(&m)
    }
}

fn push_kept(events: &mut Vec<(String, String)>, cur: &str, src: &Vec<(String, String)>)
    ensures
        pair_views(final(events)@) == pair_views(old(events)@) + kept_events(cur@, pair_views(src@)),
{
    let ghost start = pair_views(events@);
    let mut i: usize = 0;
    while i < src.len()
        invariant
            i <= src.len(),
            pair_views(events@) == start + kept_events(cur@, pair_views(src@).take(i as int)),
        decreases src.len() - i,
    {
        proof {
            assert(pair_views(src@).take(i + 1).drop_last() =~= pair_views(src@).take(i as int));
            assert(pair_views(src@).take(i + 1).last() == (src@[i as int].0@, src@[i as int].1@));
        }
        if !ci_eq(&src[i].0, cur) {
            let ghost before = pair_views(events@);
            events.push((src[i].0.clone(), src[i].1.clone()));
            assert(pair_views(events@) =~= before.push((src@[i as int].0@, src@[i as int].1@)));
        }
        i = i + 1;
    }
    assert(pair_views(src@).take(src.len() as int) =~= pair_views(src@));
}

fn dependency_entry_name(e: &DependencyEntry) -> (r: String)
    ensures
        r@ == entry_name(*e),
{
    match e {
        DependencyEntry::Simple(n) => n.clone(),
        DependencyEntry::Versioned { name, .. } => name.clone(),
    }
}

/// The dependencies of the package `pkg` from what a scan found: the
/// dependencies its manifest declares, those its source manifests name
/// (`source_deps`), those its build log announces, the packages that
/// provide the libraries its binaries need (`library_names`, looked up in
/// `libraries`), and, through the repository index `graph`, the
/// dependencies of all of these. The package itself (up to ASCII case) is
/// never its own dependency. In `strict` mode a library that no other
/// package provides is an error.
pub fn scan(
    pkg: &Package,
    source_deps: &Vec<(String, String)>,
    log_content: &str,
    library_names: &Vec<String>,
    libraries: &LibraryIndex,
    graph: &Vec<(String, Vec<String>)>,
    strict: bool,
) -> (r: Result<Vec<Dependency>, UnresolvedLibraries>)
    ensures
        r is Err <==> strict && unresolved_libraries(pkg.name@, libraries@, views(library_names@)).len() > 0,
        r matches Err(e) ==> views(e.names@) == unresolved_libraries(pkg.name@, libraries@, views(library_names@)),
        r matches Ok(ds) ==> dependencies_ok(
            ds@,
            scan_events(*pkg, pair_views(source_deps@), log_content@, views(library_names@), libraries@),
            scan_transitive(*pkg, graph_view(graph@), scan_events(*pkg, pair_views(source_deps@), log_content@, views(library_names@), libraries@)),
            library_uses(pkg.name@, libraries@, views(library_names@)),
        ),
{
    let cur = pkg.name.as_str();
    let mut events: Vec<(String, String)> = Vec::new();
    assert(pair_views(events@) =~= Seq::<(Seq<char>, Seq<char>)>::empty());
    match &pkg.dependencies {
        Some(ds) => {
            let mut i: usize = 0;
            while i < ds.len()
                invariant
                    i <= ds.len(),
                    pkg.dependencies == Some(*ds),
                    pair_views(events@) == manifest_events(cur@, ds@.take(i as int)),
                decreases ds.len() - i,
            {
                proof {
                    assert(ds@.take(i + 1).drop_last() =~= ds@.take(i as int));
                    assert(ds@.take(i + 1).last() == ds@[i as int]);
                }
                let n = dependency_entry_name(&ds[i]);
                if !ci_eq(&n, cur) {
                    let ghost before = pair_views(events@);
                    events.push((n, own("Manifest")));
                    assert(pair_views(events@) =~= before.push((entry_name(ds@[i as int]), "Manifest"@)));
                }
                i = i + 1;
            }
            assert(ds@.take(ds.len() as int) =~= ds@);
        },
        None => {},
    }
    push_kept(&mut events, cur, source_deps);
    let logs = cdd(log_content);
    push_kept(&mut events, cur, &logs);
    let ghost base = pair_views(events@);
    let ghost libs = views(library_names@);
    let mut uses: Vec<(String, String)> = Vec::new();
    let mut unresolved: Vec<String> = Vec::new();
    assert(pair_views(uses@) =~= Seq::<(Seq<char>, Seq<char>)>::empty());
    assert(views(unresolved@) =~= Seq::<Seq<char>>::empty());
    let mut i: usize = 0;
    while i < library_names.len()
        invariant
            i <= library_names.len(),
            libs == views(library_names@),
            pair_views(events@) == base + library_events(cur@, libraries@, libs.take(i as int)),
            pair_views(uses@) == library_uses(cur@, libraries@, libs.take(i as int)),
            views(unresolved@) == unresolved_libraries(cur@, libraries@, libs.take(i as int)),
        decreases library_names.len() - i,
    {
        let l = &library_names[i];
        proof {
            assert(libs.take(i + 1).drop_last() =~= libs.take(i as int));
            assert(libs.take(i + 1).last() == l@);
        }
        let ps = library_providers(libraries, cur, l.as_str());
        let ghost pv = views(ps@);
        if ps.len() > 0 {
            let mut label = lit("Library (");
            crate::text::append(&mut label, &chars_of(l.as_str()));
            crate::text::append(&mut label, &lit(")"));
            let label = string_of(&label);
            proof {
                reveal_strlit("Library (");
                reveal_strlit(")");
            }
            assert(label@ == lib_label(l@));
            let ghost mid_e = pair_views(events@);
            let ghost mid_u = pair_views(uses@);
            let mut m: usize = 0;
            while m < ps.len()
                invariant
                    m <= ps.len(),
                    pv == views(ps@),
                    pair_views(events@) == mid_e + labelled(pv.take(m as int), label@),
                    pair_views(uses@) == mid_u + labelled(pv.take(m as int), l@),
                decreases ps.len() - m,
            {
                proof {
                    assert(labelled(pv.take(m + 1), label@) =~= labelled(pv.take(m as int), label@).push((ps@[m as int]@, label@)));
                    assert(labelled(pv.take(m + 1), l@) =~= labelled(pv.take(m as int), l@).push((ps@[m as int]@, l@)));
                }
                let ghost be = pair_views(events@);
                let ghost bu = pair_views(uses@);
                events.push((ps[m].clone(), label.clone()));
                uses.push((ps[m].clone(), l.clone()));
                assert(pair_views(events@) =~= be.push((ps@[m as int]@, label@)));
                assert(pair_views(uses@) =~= bu.push((ps@[m as int]@, l@)));
                m = m + 1;
            }
            assert(pv.take(ps.len() as int) =~= pv);
        } else {
            let ghost be = pair_views(events@);
            let ghost bn = views(unresolved@);
            events.push((l.clone(), own("Library")));
            unresolved.push(l.clone());
            assert(pair_views(events@) =~= be.push((l@, "Library"@)));
            assert(views(unresolved@) =~= bn.push(l@));
            assert(labelled(pv, l@) =~= Seq::<(Seq<char>, Seq<char>)>::empty());
        }
        i = i + 1;
    }
    assert(libs.take(library_names.len() as int) =~= libs);
    let ghost ev = scan_events(*pkg, pair_views(source_deps@), log_content@, views(library_names@), libraries@);
    assert(pair_views(events@) =~= ev);
    if strict && unresolved.len() > 0 {
        return Err(UnresolvedLibraries { names: unresolved });
    }
    let mut roots: Vec<String> = Vec::new();
    let mut k: usize = 0;
    while k < events.len()
        invariant
            k <= events.len(),
            views(roots@) == pair_views(events@).take(k as int).map_values(|p: (Seq<char>, Seq<char>)| p.0),
        decreases events.len() - k,
    {
        let ghost before = views(roots@);
        roots.push(events[k].0.clone());
        assert(views(roots@) =~= before.push(events@[k as int].0@));
        assert(pair_views(events@).take(k + 1).map_values(|p: (Seq<char>, Seq<char>)| p.0) =~= pair_views(events@).take(k as int).map_values(|p: (Seq<char>, Seq<char>)| p.0).push(events@[k as int].0@));
        k = k + 1;
    }
    assert(pair_views(events@).take(events.len() as int) =~= pair_views(events@));
    assert forall|x: Seq<char>| views(roots@).to_set().contains(x) <==> event_names(ev).contains(x) by {
        if views(roots@).contains(x) {
            let w = choose|w: int| 0 <= w < views(roots@).len() && views(roots@)[w] == x;
            assert(ev[w].0 == x);
        }
        if event_names(ev).contains(x) {
            let w = choose|w: int| 0 <= w < ev.len() && #[trigger] ev[w].0 == x;
            assert(views(roots@)[w] == x);
        }
    }
    assert(views(roots@).to_set() =~= event_names(ev));
    let tr = transitive(graph, cur, &roots);
    assert(views(tr@).to_set() =~= scan_transitive(*pkg, graph_view(graph@), ev));
    Ok(assemble(&events, &tr, &uses))
}

/// The transitive dependencies of a scan with findings `ev`.
pub open spec fn scan_transitive(pkg: Package, g: Seq<(Seq<char>, Seq<Seq<char>>)>, ev: Seq<(Seq<char>, Seq<char>)>) -> Set<Seq<char>> {
    Set::new(|c: Seq<char>| transitive_dep(g, pkg.name@, event_names(ev), c))
}

pub open spec fn names_avoid(s: Seq<(Seq<char>, Seq<char>)>, cur: Seq<char>) -> bool {
    forall|i: int| 0 <= i < s.len() ==> !eq_ci(#[trigger] s[i].0, cur)
}

proof fn lemma_manifest_avoid(cur: Seq<char>, es: Seq<DependencyEntry>)
    ensures
        names_avoid(manifest_events(cur, es), cur),
    decreases es.len(),
{
    if es.len() > 0 {
        lemma_manifest_avoid(cur, es.drop_last());
    }
}

proof fn lemma_kept_avoid(cur: Seq<char>, ps: Seq<(Seq<char>, Seq<char>)>)
    ensures
        names_avoid(kept_events(cur, ps), cur),
    decreases ps.len(),
{
    if ps.len() > 0 {
        lemma_kept_avoid(cur, ps.drop_last());
    }
}

proof fn lemma_not_named_avoid(cur: Seq<char>, cs: Seq<Seq<char>>)
    ensures
        forall|i: int| 0 <= i < not_named(cur, cs).len() ==> !eq_ci(#[trigger] not_named(cur, cs)[i], cur),
    decreases cs.len(),
{
    if cs.len() > 0 {
        lemma_not_named_avoid(cur, cs.drop_last());
        let p = not_named(cur, cs.drop_last());
        if !eq_ci(cs.last(), cur) {
            assert forall|i: int| 0 <= i < p.push(cs.last()).len() implies !eq_ci(#[trigger] p.push(cs.last())[i], cur) by {
                if i < p.len() {
                    assert(p.push(cs.last())[i] == p[i]);
                }
            }
        }
    }
}

proof fn lemma_candidates_avoid(cur: Seq<char>, pairs: Seq<(Seq<char>, Seq<char>)>, cands: Seq<Seq<char>>)
    ensures
        forall|i: int| 0 <= i < candidates_providers(cur, pairs, cands).len() ==> !eq_ci(#[trigger] candidates_providers(cur, pairs, cands)[i], cur),
    decreases cands.len(),
{
    if cands.len() > 0 {
        lemma_candidates_avoid(cur, pairs, cands.drop_last());
        lemma_not_named_avoid(cur, providers_of(pairs, cands.last()));
        let a = candidates_providers(cur, pairs, cands.drop_last());
        let b = not_named(cur, providers_of(pairs, cands.last()));
        assert forall|i: int| 0 <= i < (a + b).len() implies !eq_ci(#[trigger] (a + b)[i], cur) by {
            if i < a.len() {
                assert((a + b)[i] == a[i]);
            } else {
                assert((a + b)[i] == b[i - a.len()]);
            }
        }
    }
}

proof fn lemma_library_avoid(cur: Seq<char>, pairs: Seq<(Seq<char>, Seq<char>)>, libs: Seq<Seq<char>>)
    requires
        forall|i: int| 0 <= i < libs.len() ==> !eq_ci(#[trigger] libs[i], cur),
    ensures
        names_avoid(library_events(cur, pairs, libs), cur),
    decreases libs.len(),
{
    if libs.len() > 0 {
        assert forall|i: int| 0 <= i < libs.drop_last().len() implies !eq_ci(#[trigger] libs.drop_last()[i], cur) by {
            assert(libs.drop_last()[i] == libs[i]);
        }
        lemma_library_avoid(cur, pairs, libs.drop_last());
        let l = libs.last();
        let ps = lib_providers(cur, pairs, l);
        lemma_candidates_avoid(cur, pairs, sorted_variants(l));
        let a = library_events(cur, pairs, libs.drop_last());
        let b = if ps.len() > 0 {
            labelled(ps, lib_label(l))
        } else {
            seq![(l, "Library"@)]
        };
        assert(!eq_ci(libs[libs.len() - 1], cur));
        assert forall|i: int| 0 <= i < b.len() implies !eq_ci(#[trigger] b[i].0, cur) by {
            if ps.len() > 0 {
                assert(b[i].0 == ps[i]);
            }
        }
        lemma_concat_avoid(a, b, cur);
    }
}

proof fn lemma_concat_avoid(a: Seq<(Seq<char>, Seq<char>)>, b: Seq<(Seq<char>, Seq<char>)>, cur: Seq<char>)
    requires
        names_avoid(a, cur),
        names_avoid(b, cur),
    ensures
        names_avoid(a + b, cur),
{
    assert forall|i: int| 0 <= i < (a + b).len() implies !eq_ci(#[trigger] (a + b)[i].0, cur) by {
        if i < a.len() {
            assert((a + b)[i] == a[i]);
        } else {
            assert((a + b)[i] == b[i - a.len()]);
        }
    }
}

/// A package is never its own dependency: when no library it needs bears
/// its name (up to ASCII case), no entry of a successful scan does.
pub proof fn law_scan_excludes_self(
    pkg: Package,
    source: Seq<(Seq<char>, Seq<char>)>,
    log: Seq<char>,
    libs: Seq<Seq<char>>,
    pairs: Seq<(Seq<char>, Seq<char>)>,
    g: Seq<(Seq<char>, Seq<Seq<char>>)>,
    ds: Seq<Dependency>,
)
    requires
        forall|i: int| 0 <= i < libs.len() ==> !eq_ci(#[trigger] libs[i], pkg.name@),
        dependencies_ok(
            ds,
            scan_events(pkg, source, log, libs, pairs),
            scan_transitive(pkg, g, scan_events(pkg, source, log, libs, pairs)),
            library_uses(pkg.name@, pairs, libs),
        ),
    ensures
        forall|k: int| 0 <= k < ds.len() ==> !eq_ci(#[trigger] ds[k].name@, pkg.name@),
{
    let cur = pkg.name@;
    let ev = scan_events(pkg, source, log, libs, pairs);
    lemma_manifest_avoid(cur, declared_entries(pkg.dependencies));
    lemma_kept_avoid(cur, source);
    lemma_kept_avoid(cur, labelled(log_deps_of(lines_of(log)), "Build"@));
    lemma_library_avoid(cur, pairs, libs);
    lemma_concat_avoid(manifest_events(cur, declared_entries(pkg.dependencies)), kept_events(cur, source), cur);
    lemma_concat_avoid(
        manifest_events(cur, declared_entries(pkg.dependencies)) + kept_events(cur, source),
        kept_events(cur, labelled(log_deps_of(lines_of(log)), "Build"@)),
        cur,
    );
    lemma_concat_avoid(
        manifest_events(cur, declared_entries(pkg.dependencies)) + kept_events(cur, source) + kept_events(
            cur,
            labelled(log_deps_of(lines_of(log)), "Build"@),
        ),
        library_events(cur, pairs, libs),
        cur,
    );
    assert forall|k: int| 0 <= k < ds.len() implies !eq_ci(#[trigger] ds[k].name@, cur) by {
        assert(dep_names(ds)[k] == ds[k].name@);
        assert(dep_names(ds).to_set().contains(ds[k].name@));
        let n = ds[k].name@;
        if event_names(ev).contains(n) {
            let w = choose|w: int| 0 <= w < ev.len() && #[trigger] ev[w].0 == n;
        }
    }
}

proof fn lemma_manifest_has(cur: Seq<char>, es: Seq<DependencyEntry>, j: int)
    requires
        0 <= j < es.len(),
        !eq_ci(entry_name(es[j]), cur),
    ensures
        manifest_events(cur, es).contains((entry_name(es[j]), "Manifest"@)),
    decreases es.len(),
{
    let e = (entry_name(es[j]), "Manifest"@);
    if j == es.len() - 1 {
        let m = manifest_events(cur, es);
        assert(m[m.len() - 1] == e);
    } else {
        lemma_manifest_has(cur, es.drop_last(), j);
        let m0 = manifest_events(cur, es.drop_last());
        let w = choose|w: int| 0 <= w < m0.len() && m0[w] == e;
        let m = manifest_events(cur, es);
        assert(m[w] == e);
    }
}

/// What a package declares it depends on is found again by its scan: each
/// declared dependency whose name is not the package's own (up to ASCII
/// case) has an entry in a successful scan with `Manifest` among its types.
pub proof fn law_scan_keeps_declared(
    pkg: Package,
    source: Seq<(Seq<char>, Seq<char>)>,
    log: Seq<char>,
    libs: Seq<Seq<char>>,
    pairs: Seq<(Seq<char>, Seq<char>)>,
    g: Seq<(Seq<char>, Seq<Seq<char>>)>,
    ds: Seq<Dependency>,
    j: int,
)
    requires
        0 <= j < declared_entries(pkg.dependencies).len(),
        !eq_ci(entry_name(declared_entries(pkg.dependencies)[j]), pkg.name@),
        dependencies_ok(
            ds,
            scan_events(pkg, source, log, libs, pairs),
            scan_transitive(pkg, g, scan_events(pkg, source, log, libs, pairs)),
            library_uses(pkg.name@, pairs, libs),
        ),
    ensures
        exists|k: int|
            0 <= k < ds.len() && (#[trigger] ds[k]).name@ == entry_name(declared_entries(pkg.dependencies)[j])
                && types_of(
                scan_events(pkg, source, log, libs, pairs),
                scan_transitive(pkg, g, scan_events(pkg, source, log, libs, pairs)),
                ds[k].name@,
            ).contains("Manifest"@),
{
    let cur = pkg.name@;
    let es = declared_entries(pkg.dependencies);
    let n = entry_name(es[j]);
    let ev = scan_events(pkg, source, log, libs, pairs);
    let tr = scan_transitive(pkg, g, ev);
    lemma_manifest_has(cur, es, j);
    let m = manifest_events(cur, es);
    let w = choose|w: int| 0 <= w < m.len() && m[w] == (n, "Manifest"@);
    let rest = kept_events(cur, source) + kept_events(cur, labelled(log_deps_of(lines_of(log)), "Build"@))
        + library_events(cur, pairs, libs);
    assert(ev =~= m + rest);
    assert(ev[w] == (n, "Manifest"@));
    assert(ev[w].0 == n);
    assert(event_names(ev).contains(n));
    assert(dep_names(ds).to_set().contains(n));
    let k = choose|k: int| 0 <= k < dep_names(ds).len() && dep_names(ds)[k] == n;
    assert(ds[k].name@ == n);
    assert(ev.contains((n, "Manifest"@)));
    assert(types_of(ev, tr, ds[k].name@).contains("Manifest"@));
}

/// What a successful scan returns, in one statement: its entries are
/// sorted strictly by name (so each name occurs once); none is the package
/// itself when no library it needs bears its name (up to ASCII case); each
/// entry's type is its distinct discovery types, sorted and joined with
/// ` & `; and each declared dependency other than the package itself has an
/// entry with `Manifest` among its types.
pub proof fn law_scan_result(
    pkg: Package,
    source: Seq<(Seq<char>, Seq<char>)>,
    log: Seq<char>,
    libs: Seq<Seq<char>>,
    pairs: Seq<(Seq<char>, Seq<char>)>,
    g: Seq<(Seq<char>, Seq<Seq<char>>)>,
    ds: Seq<Dependency>,
)
    requires
        forall|i: int| 0 <= i < libs.len() ==> !eq_ci(#[trigger] libs[i], pkg.name@),
        dependencies_ok(
            ds,
            scan_events(pkg, source, log, libs, pairs),
            scan_transitive(pkg, g, scan_events(pkg, source, log, libs, pairs)),
            library_uses(pkg.name@, pairs, libs),
        ),
    ensures
        ascending(dep_names(ds)),
        forall|k: int| 0 <= k < ds.len() ==> !eq_ci(#[trigger] ds[k].name@, pkg.name@),
        forall|k: int|
            0 <= k < ds.len() ==> (#[trigger] ds[k]).dep_type@ == joined(
                sorted_of(
                    types_of(
                        scan_events(pkg, source, log, libs, pairs),
                        scan_transitive(pkg, g, scan_events(pkg, source, log, libs, pairs)),
                        ds[k].name@,
                    ),
                ),
                " & "@,
            ),
        forall|j: int|
            0 <= j < declared_entries(pkg.dependencies).len() && !eq_ci(
                entry_name(#[trigger] declared_entries(pkg.dependencies)[j]),
                pkg.name@,
            ) ==> exists|k: int|
                0 <= k < ds.len() && (#[trigger] ds[k]).name@ == entry_name(declared_entries(pkg.dependencies)[j])
                    && types_of(
                    scan_events(pkg, source, log, libs, pairs),
                    scan_transitive(pkg, g, scan_events(pkg, source, log, libs, pairs)),
                    ds[k].name@,
                ).contains("Manifest"@),
{
    law_scan_excludes_self(pkg, source, log, libs, pairs, g, ds);
    assert forall|k: int| 0 <= k < ds.len() implies (#[trigger] ds[k]).dep_type@ == joined(
        sorted_of(
            types_of(
                scan_events(pkg, source, log, libs, pairs),
                scan_transitive(pkg, g, scan_events(pkg, source, log, libs, pairs)),
                ds[k].name@,
            ),
        ),
        " & "@,
    ) by {
        assert(dependency_entry_ok(
            ds[k],
            scan_events(pkg, source, log, libs, pairs),
            scan_transitive(pkg, g, scan_events(pkg, source, log, libs, pairs)),
            library_uses(pkg.name@, pairs, libs),
        ));
    }
    assert forall|j: int|
        0 <= j < declared_entries(pkg.dependencies).len() && !eq_ci(
            entry_name(#[trigger] declared_entries(pkg.dependencies)[j]),
            pkg.name@,
        ) implies exists|k: int|
        0 <= k < ds.len() && (#[trigger] ds[k]).name@ == entry_name(declared_entries(pkg.dependencies)[j])
            && types_of(
            scan_events(pkg, source, log, libs, pairs),
            scan_transitive(pkg, g, scan_events(pkg, source, log, libs, pairs)),
            ds[k].name@,
        ).contains("Manifest"@) by {
        law_scan_keeps_declared(pkg, source, log, libs, pairs, g, ds, j);
    }
}

/// The library index built from the files that the packages of a
/// workspace install, `(package, file name)` in the order they are found.
pub open spec fn index_of_files(files: Seq<(Seq<char>, Seq<char>)>) -> Seq<(Seq<char>, Seq<char>)>
    decreases files.len(),
{
    if files.len() == 0 {
        Seq::empty()
    } else {
        let prev = index_of_files(files.drop_last());
        let (pkg, file) = files.last();
        if indexed_library(file) {
            with_provider(prev, sorted_variants(file), pkg)
        } else {
            prev
        }
    }
}

/// The library index of a workspace from the files its packages install,
/// `(package, file name)` in the order they are found.
pub fn mltp(files: &Vec<(String, String)>) -> (r: LibraryIndex)
    ensures
        r@ == index_of_files(pair_views(files@)),
{
    let mut index = LibraryIndex::new();
    let mut i: usize = 0;
    while i < files.len()
        invariant
            i <= files.len(),
            index@ == index_of_files(pair_views(files@).take(i as int)),
        decreases files.len() - i,
    {
        proof {
            assert(pair_views(files@).take(i + 1).drop_last() =~= pair_views(files@).take(i as int));
            assert(pair_views(files@).take(i + 1).last() == (files@[i as int].0@, files@[i as int].1@));
        }
        index.add_file(files[i].0.as_str(), files[i].1.as_str());
        i = i + 1;
    }
    assert(pair_views(files@).take(files.len() as int) =~= pair_views(files@));
    index
}

/// The dependency graph of a repository index: each entry's package and
/// the names of its dependencies.
pub open spec fn graph_of(entries: Seq<PackageMetadata>) -> Seq<(Seq<char>, Seq<Seq<char>>)> {
    entries.map_values(|m: PackageMetadata| (m.pkg_name@, dep_names(m.dependencies@)))
}

/// The dependency graph of the repository index `entries`.
pub fn loadex(entries: &Vec<PackageMetadata>) -> (r: Vec<(String, Vec<String>)>)
    ensures
        graph_view(r@) == graph_of(entries@),
{
    let mut out: Vec<(String, Vec<String>)> = Vec::new();
    let mut i: usize = 0;
    while i < entries.len()
        invariant
            i <= entries.len(),
            graph_view(out@) == graph_of(entries@).take(i as int),
        decreases entries.len() - i,
    {
        let deps = &entries[i].dependencies;
        let mut names: Vec<String> = Vec::new();
        let mut k: usize = 0;
        while k < deps.len()
            invariant
                k <= deps.len(),
                deps == entries@[i as int].dependencies,
                views(names@) == dep_names(deps@).take(k as int),
            decreases deps.len() - k,
        {
            let ghost before = views(names@);
            names.push(deps[k].name.clone());
            assert(views(names@) =~= before.push(deps@[k as int].name@));
            assert(dep_names(deps@).take(k + 1) =~= dep_names(deps@).take(k as int).push(deps@[k as int].name@));
            k = k + 1;
        }
        assert(dep_names(deps@).take(deps.len() as int) =~= dep_names(deps@));
        let ghost before = graph_view(out@);
        out.push((entries[i].pkg_name.clone(), names));
        assert(graph_view(out@) =~= before.push((entries@[i as int].pkg_name@, dep_names(entries@[i as int].dependencies@))));
        assert(graph_of(entries@).take(i + 1) =~= graph_of(entries@).take(i as int).push((entries@[i as int].pkg_name@, dep_names(entries@[i as int].dependencies@))));
        i = i + 1;
    }
    assert(graph_of(entries@).take(entries.len() as int) =~= graph_of(entries@));
    out
}

} // verus!
