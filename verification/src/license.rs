use vstd::prelude::*;
use crate::outside::{
    alphabetic, captures_view, char_uppercase, is_alphabetic, regex_captures, regex_captures_of,
    to_lowercase, to_uppercase, unicode_lowercase, unicode_uppercase, upper_char,
};
use crate::resolve::joined;
use crate::text::{
    all_ascii, append, ascii_upper, chars_of, contains_sub, eq_ci, eq_ignore_ascii_case, has_sub, lines, lines_of, lit, own,
    slice_vec, starts, starts_with, string_of, trim, trimmed, vviews, words, words_of,
};
use vstd::utf8::encode_utf8;

verus! {

// ── License detection ───────────────────────────────────────────────────

/// A file whose name (uppercased) marks it as a license.
pub open spec fn license_marker(upper: Seq<char>) -> bool {
    has_sub(upper, "LICENSE"@) || has_sub(upper, "COPYING"@) || has_sub(upper, "LICENSE.MD"@)
        || has_sub(upper, "COPYING.MD"@) || has_sub(upper, "MIT-LICENSE"@) || has_sub(
        upper,
        "UNLICENSE"@,
    )
}

/// Whether a file of a source tree is read for its license.
pub fn is_license_file(file_name: &str) -> (r: bool)
    ensures
        r == license_marker(unicode_uppercase(file_name@)),
        all_ascii(file_name@) ==> r == license_marker(file_name@.map_values(|c: char| ascii_upper(c))),
{
    let u = chars_of(to_uppercase(file_name).as_str());
    contains_sub(&u, &lit("LICENSE")) || contains_sub(&u, &lit("COPYING")) || contains_sub(
        &u,
        &lit("LICENSE.MD"),
    ) || contains_sub(&u, &lit("COPYING.MD")) || contains_sub(&u, &lit("MIT-LICENSE"))
        || contains_sub(&u, &lit("UNLICENSE"))
}

/// The pattern of a license name and its version.
pub open spec fn license_pattern() -> Seq<char> {
    r"(?i)\b(gnu\s+general\s+public\s+license|gpl|lgpl|agpl|apache|mit|bsd|mpl|mozilla\s+public\s+license|unlicense|isc)\b\s*(v(?:ersion)?\s*\d+(?:\.\d+)?|\d+[-—]clause|\d+(?:\.\d+)?\b)?"@
}

/// A word of a long license name in Title Case: the acronym `gnu` (in any
/// ASCII case) as `GNU`, any other word with its first character uppercased
/// and the rest lowercased.
pub open spec fn capitalized(w: Seq<char>) -> Seq<char> {
    if eq_ci(w, "gnu"@) {
        "GNU"@
    } else if w.len() == 0 {
        Seq::empty()
    } else {
        char_uppercase(w[0]) + unicode_lowercase(w.drop_first())
    }
}

/// How a license name is shown: uppercased when at most four bytes long,
/// else Title Cased word by word, joined by single spaces
/// (`gnu general public license` becomes `GNU General Public License`).
pub open spec fn display_name(n: Seq<char>) -> Seq<char> {
    if encode_utf8(n).len() <= 4 {
        unicode_uppercase(n)
    } else {
        joined(words_of(n).map_values(|w: Seq<char>| capitalized(w)), " "@)
    }
}

/// `s` without its leading alphabetic characters.
pub open spec fn strip_alpha_start(s: Seq<char>) -> Seq<char>
    decreases s.len(),
{
    if s.len() > 0 && alphabetic(s[0]) {
        strip_alpha_start(s.drop_first())
    } else {
        s
    }
}

/// A license name followed by its version, if any: `v<number>` for a
/// version that starts with `v`, else the version as written.
pub open spec fn with_version(name: Seq<char>, version: Option<Seq<char>>) -> Seq<char> {
    match version {
        None => name,
        Some(v) => {
            let ver = trim(v);
            if starts(unicode_lowercase(ver), "v"@) {
                name + " v"@ + trim(strip_alpha_start(ver))
            } else {
                name + " "@ + ver
            }
        },
    }
}

pub open spec fn group(cap: Seq<Option<Seq<char>>>, i: int) -> Option<Seq<char>> {
    if 0 <= i < cap.len() {
        cap[i]
    } else {
        None
    }
}

/// The license one match names.
pub open spec fn capture_license(cap: Seq<Option<Seq<char>>>) -> Seq<char> {
    let n = match group(cap, 1) {
        Some(t) => trim(t),
        None => Seq::empty(),
    };
    with_version(display_name(n), group(cap, 2))
}

/// The first non-empty license that a match names.
pub open spec fn first_license(caps: Seq<Seq<Option<Seq<char>>>>) -> Option<Seq<char>>
    decreases caps.len(),
{
    if caps.len() == 0 {
        None
    } else if capture_license(caps[0]).len() > 0 {
        Some(capture_license(caps[0]))
    } else {
        first_license(caps.drop_first())
    }
}

/// The first line with something else than whitespace.
pub open spec fn first_nonblank(ls: Seq<Seq<char>>) -> Option<Seq<char>>
    decreases ls.len(),
{
    if ls.len() == 0 {
        None
    } else if trim(ls[0]).len() > 0 {
        Some(ls[0])
    } else {
        first_nonblank(ls.drop_first())
    }
}

pub open spec fn comment_mark(c: char) -> bool {
    c == '*' || c == '#' || c == '/'
}

pub open spec fn strip_marks_start(s: Seq<char>) -> Seq<char>
    decreases s.len(),
{
    if s.len() > 0 && comment_mark(s[0]) {
        strip_marks_start(s.drop_first())
    } else {
        s
    }
}

pub open spec fn strip_marks_end(s: Seq<char>) -> Seq<char>
    decreases s.len(),
{
    if s.len() > 0 && comment_mark(s.last()) {
        strip_marks_end(s.drop_last())
    } else {
        s
    }
}

/// The license named in the text of a license file: the first license
/// name the text mentions (with its version), else its first non-blank
/// line without comment marks, when that is short (under 60 bytes).
pub open spec fn license_in(content: Seq<char>) -> Option<Seq<char>> {
    license_with(content, regex_captures_of(license_pattern(), content))
}

/// The license named in the text `content` of a license file, given the
/// matches `m` of the license pattern in it: the first match that names a
/// license, else the first non-blank line without comment marks, when that
/// is short (under 60 bytes).
pub open spec fn license_with(content: Seq<char>, m: Seq<Seq<Option<Seq<char>>>>) -> Option<Seq<char>> {
    match first_license(m) {
        Some(f) => Some(f),
        None => match first_nonblank(lines_of(content)) {
            None => None,
            Some(l) => {
                let c = trim(strip_marks_end(strip_marks_start(trim(l))));
                if c.len() > 0 && encode_utf8(c).len() < 60 {
                    Some(c)
                } else {
                    None
                }
            },
        },
    }
}

proof fn lemma_marks_start_skip(s: Seq<char>, i: int)
    requires
        0 <= i <= s.len(),
        forall|k: int| 0 <= k < i ==> comment_mark(#[trigger] s[k]),
    ensures
        strip_marks_start(s) == strip_marks_start(s.skip(i)),
    decreases i,
{
    if i > 0 {
        lemma_marks_start_skip(s.drop_first(), i - 1);
        assert(s.drop_first().skip(i - 1) =~= s.skip(i));
    } else {
        assert(s.skip(0) =~= s);
    }
}

proof fn lemma_marks_end_take(s: Seq<char>, j: int)
    requires
        0 <= j <= s.len(),
        forall|k: int| j <= k < s.len() ==> comment_mark(#[trigger] s[k]),
    ensures
        strip_marks_end(s) == strip_marks_end(s.take(j)),
    decreases s.len() - j,
{
    if j < s.len() {
        lemma_marks_end_take(s.drop_last(), j);
        assert(s.drop_last().take(j) =~= s.take(j));
    } else {
        assert(s.take(j) =~= s);
    }
}

fn stripped_marks(v: &Vec<char>) -> (r: Vec<char>)
    ensures
        r@ == strip_marks_end(strip_marks_start(v@)),
{
    let mut i: usize = 0;
    while i < v.len() && (v[i] == '*' || v[i] == '#' || v[i] == '/')
        invariant
            i <= v.len(),
            forall|k: int| 0 <= k < i ==> comment_mark(#[trigger] v@[k]),
        decreases v.len() - i,
    {
        i = i + 1;
    }
    proof {
        lemma_marks_start_skip(v@, i as int);
    }
    let ghost t = v@.skip(i as int);
    assert(strip_marks_start(t) == t);
    let mut j: usize = v.len();
    while j > i && (v[j - 1] == '*' || v[j - 1] == '#' || v[j - 1] == '/')
        invariant
            i <= j <= v.len(),
            forall|k: int| j <= k < v.len() ==> comment_mark(#[trigger] v@[k]),
        decreases j,
    {
        j = j - 1;
    }
    proof {
        assert forall|k: int| j - i <= k < t.len() implies comment_mark(#[trigger] t[k]) by {
            assert(t[k] == v@[k + i]);
        }
        lemma_marks_end_take(t, j - i);
        assert(t.take(j - i) =~= v@.subrange(i as int, j as int));
        let u = v@.subrange(i as int, j as int);
        if u.len() > 0 {
            assert(u.last() == v@[j - 1]);
        }
    }
    slice_vec(v, i, j)
}

proof fn lemma_alpha_skip(s: Seq<char>, i: int)
    requires
        0 <= i <= s.len(),
        forall|k: int| 0 <= k < i ==> alphabetic(#[trigger] s[k]),
    ensures
        strip_alpha_start(s) == strip_alpha_start(s.skip(i)),
    decreases i,
{
    if i > 0 {
        lemma_alpha_skip(s.drop_first(), i - 1);
        assert(s.drop_first().skip(i - 1) =~= s.skip(i));
    } else {
        assert(s.skip(0) =~= s);
    }
}

fn stripped_alpha(v: &Vec<char>) -> (r: Vec<char>)
    ensures
        r@ == strip_alpha_start(v@),
{
    let mut i: usize = 0;
    while i < v.len() && is_alphabetic(v[i])
        invariant
            i <= v.len(),
            forall|k: int| 0 <= k < i ==> alphabetic(#[trigger] v@[k]),
        decreases v.len() - i,
    {
        i = i + 1;
    }
    proof {
        lemma_alpha_skip(v@, i as int);
        if i < v.len() {
            assert(v@.skip(i as int)[0] == v@[i as int]);
        }
    }
    let r = slice_vec(v, i, v.len());
    assert(r@ =~= v@.skip(i as int));
    r
}

fn display_name_of(n: &Vec<char>) -> (r: Vec<char>)
    ensures
        r@ == display_name(n@),
{
    if crate::text::utf8_len_at_most(n, 4) {
        let s = string_of(n);
        return chars_of(to_uppercase(s.as_str()).as_str());
    }
    let ws = words(n);
    let ghost caps = vviews(ws@).map_values(|w: Seq<char>| capitalized(w));
    let mut out: Vec<char> = Vec::new();
    let mut i: usize = 0;
    while i < ws.len()
        invariant
            i <= ws.len(),
            caps == vviews(ws@).map_values(|w: Seq<char>| capitalized(w)),
            out@ == joined(caps.take(i as int), " "@),
        decreases ws.len() - i,
    {
        let w = &ws[i];
        let mut c: Vec<char> = Vec::new();
        if eq_ignore_ascii_case(w, &lit("gnu")) {
            c = lit("GNU");
        } else if w.len() > 0 {
            c = chars_of(upper_char(w[0]).as_str());
            let rest = string_of(&slice_vec(w, 1, w.len()));
            append(&mut c, &chars_of(to_lowercase(rest.as_str()).as_str()));
            assert(w@.drop_first() =~= w@.subrange(1, w@.len() as int));
        } else {
            assert(c@ =~= Seq::<char>::empty());
        }
        assert(c@ == capitalized(w@));
        assert(caps[i as int] == c@);
        let ghost t = caps.take(i + 1);
        assert(t.drop_last() =~= caps.take(i as int));
        assert(t.last() == c@);
        if i == 0 {
            out = c;
        } else {
            append(&mut out, &lit(" "));
            append(&mut out, &c);
        }
        i = i + 1;
    }
    assert(caps.take(ws.len() as int) =~= caps);
    out
}

fn capture_name(cap: &Vec<Option<String>>) -> (r: Vec<char>)
    ensures
        r@ == capture_license(crate::outside::groups_view(cap@)),
{
    let ghost g = crate::outside::groups_view(cap@);
    let n = if cap.len() > 1 {
        match &cap[1] {
            Some(t) => trimmed(&chars_of(t.as_str())),
            None => Vec::new(),
        }
    } else {
        Vec::new()
    };
    let name = display_name_of(&n);
    let v = if cap.len() > 2 {
        match &cap[2] {
            Some(t) => Some(chars_of(t.as_str())),
            None => None,
        }
    } else {
        None
    };
    match v {
        None => name,
        Some(raw) => {
            let ver = trimmed(&raw);
            let lowered = chars_of(to_lowercase(string_of(&ver).as_str()).as_str());
            let mut out = name;
            if starts_with(&lowered, &lit("v")) {
                append(&mut out, &lit(" v"));
                append(&mut out, &trimmed(&stripped_alpha(&ver)));
            } else {
                append(&mut out, &lit(" "));
                append(&mut out, &ver);
            }
            out
        },
    }
}

/// The license named in the text of a license file, given the matches
/// `caps` of the license pattern in `content` (see `license_with`).
pub fn license_from_captures(content: &str, caps: &Vec<Vec<Option<String>>>) -> (r: Option<String>)
    ensures
        match r {
            Some(s) => license_with(content@, captures_view(caps@)) == Some(s@),
            None => license_with(content@, captures_view(caps@)) is None,
        },
{
    let ghost cv = captures_view(caps@);
    let mut i: usize = 0;
    assert(cv.skip(0) =~= cv);
    while i < caps.len()
        invariant
            i <= caps.len(),
            cv == captures_view(caps@),
            first_license(cv) == first_license(cv.skip(i as int)),
        decreases caps.len() - i,
    {
        assert(cv.skip(i as int)[0] == crate::outside::groups_view(caps@[i as int]@));
        let f = capture_name(&caps[i]);
        if f.len() > 0 {
            return Some(string_of(&f));
        }
        assert(cv.skip(i as int).drop_first() =~= cv.skip(i + 1));
        i = i + 1;
    }
    assert(cv.skip(i as int).len() == 0);
    let ls = lines(&chars_of(content));
    let ghost lv = vviews(ls@);
    let mut k: usize = 0;
    assert(lv.skip(0) =~= lv);
    while k < ls.len()
        invariant
            k <= ls.len(),
            lv == vviews(ls@),
            lv == lines_of(content@),
            first_license(captures_view(caps@)) is None,
            first_nonblank(lv) == first_nonblank(lv.skip(k as int)),
        decreases ls.len() - k,
    {
        assert(lv.skip(k as int)[0] == ls@[k as int]@);
        let t = trimmed(&ls[k]);
        if t.len() > 0 {
            let c = trimmed(&stripped_marks(&t));
            assert(first_nonblank(lv) == Some(ls@[k as int]@));
            if c.len() > 0 && crate::text::utf8_len_at_most(&c, 59) {
                return Some(string_of(&c));
            }
            return None;
        }
        assert(lv.skip(k as int).drop_first() =~= lv.skip(k + 1));
        k = k + 1;
    }
    assert(lv.skip(k as int).len() == 0);
    None
}

/// The license named in the text of a license file (see `license_in`).
pub fn license_from(content: &str) -> (r: Option<String>)
    ensures
        match r {
            Some(s) => license_in(content@) == Some(s@),
            None => license_in(content@) is None,
        },
{
    let caps = regex_captures(
        r"(?i)\b(gnu\s+general\s+public\s+license|gpl|lgpl|agpl|apache|mit|bsd|mpl|mozilla\s+public\s+license|unlicense|isc)\b\s*(v(?:ersion)?\s*\d+(?:\.\d+)?|\d+[-—]clause|\d+(?:\.\d+)?\b)?",
        content,
    );
    license_from_captures(content, &caps)
}

/// The license of a source tree from its files (name, and text when the
/// file is a license file and could be read), in path order: the first
/// license a license file names, else `Unknown`.
pub fn license(files: &Vec<(String, Option<String>)>) -> (r: String)
    ensures
        r@ == license_of_files(files@),
{
    let mut i: usize = 0;
    assert(files@.skip(0) =~= files@);
    while i < files.len()
        invariant
            i <= files.len(),
            license_of_files(files@) == license_of_files(files@.skip(i as int)),
        decreases files.len() - i,
    {
        assert(files@.skip(i as int)[0] == files@[i as int]);
        if is_license_file(files[i].0.as_str()) {
            match &files[i].1 {
                Some(text) => match license_from(text.as_str()) {
                    Some(l) => {
                        return l;
                    },
                    None => {},
                },
                None => {},
            }
        }
        assert(files@.skip(i as int).drop_first() =~= files@.skip(i + 1));
        i = i + 1;
    }
    own("Unknown")
}

pub open spec fn license_of_files(files: Seq<(String, Option<String>)>) -> Seq<char>
    decreases files.len(),
{
    if files.len() == 0 {
        "Unknown"@
    } else {
        let (name, text) = files[0];
        if license_marker(unicode_uppercase(name@)) && text is Some && license_in(text->Some_0@) is Some {
            license_in(text->Some_0@)->Some_0
        } else {
            license_of_files(files.drop_first())
        }
    }
}

/// The file `f` (name, and text when read) is a license file whose text
/// names a license.
pub open spec fn names_license(f: (String, Option<String>)) -> bool {
    license_marker(unicode_uppercase(f.0@)) && f.1 is Some && license_in(f.1->Some_0@) is Some
}

/// The first license file wins: when the first file, in path order, is a
/// license file whose text names a license, that is the tree's license,
/// whatever the files after it say.
pub proof fn law_first_license_file_wins(files: Seq<(String, Option<String>)>, rest: Seq<(String, Option<String>)>)
    requires
        files.len() > 0,
        names_license(files[0]),
    ensures
        license_of_files(files + rest) == license_in(files[0].1->Some_0@)->Some_0,
{
    assert((files + rest)[0] == files[0]);
}

/// Files that name no license are passed over: putting them before a list
/// leaves its license unchanged, and a tree none of whose files names a
/// license is `Unknown`.
pub proof fn law_unnamed_files_are_skipped(skipped: Seq<(String, Option<String>)>, files: Seq<(String, Option<String>)>)
    requires
        forall|i: int| 0 <= i < skipped.len() ==> !names_license(#[trigger] skipped[i]),
    ensures
        license_of_files(skipped + files) == license_of_files(files),
        license_of_files(skipped) == "Unknown"@,
    decreases skipped.len(),
{
    if skipped.len() > 0 {
        let t = skipped.drop_first();
        assert(!names_license(skipped[0]));
        assert forall|i: int| 0 <= i < t.len() implies !names_license(#[trigger] t[i]) by {
            assert(t[i] == skipped[i + 1]);
        }
        law_unnamed_files_are_skipped(t, files);
        assert((skipped + files).drop_first() =~= t + files);
        assert((skipped + files)[0] == skipped[0]);
    }
}

} // verus!
