use vstd::prelude::*;
use crate::outside::{to_lowercase, unicode_lowercase};
use crate::text::{starts, starts_with, ends, ends_with, is_ascii_digit, is_digit, slice_vec, chars_of, contains_char, contains_sub, has_sub, is_alnum, is_ascii_alphanumeric, is_ws, lit, own, string_of, trim, trimmed, vec_eq};

verus! {

/// A path or version component that may not be interpolated into a file name.
pub struct InvalidComponent {
    pub label: String,
    pub value: String,
}

/// A version may be interpolated into a file name: it is non-empty and holds
/// neither `/` nor `..`.
pub open spec fn version_component_ok(v: Seq<char>) -> bool {
    &&& v.len() > 0
    &&& !v.contains('/')
    &&& !has_sub(v, seq!['.', '.'])
}

pub open spec fn path_char_ok(c: char) -> bool {
    is_alnum(c) || c == '-' || c == '_' || c == '.'
}

/// A name may be used as a directory name: non-empty, made of ASCII letters,
/// digits, `-`, `_` and `.`, without `/`, without `..` and not starting with `.`.
pub open spec fn path_component_ok(v: Seq<char>) -> bool {
    &&& v.len() > 0
    &&& !v.contains('/')
    &&& !has_sub(v, seq!['.', '.'])
    &&& v[0] != '.'
    &&& forall|i: int| 0 <= i < v.len() ==> path_char_ok(#[trigger] v[i])
}

/// Rejects empty versions and versions holding `/` or `..`.
pub fn validate_version_component(value: &str, label: &str) -> (r: Result<(), InvalidComponent>)
    ensures
        r is Ok <==> version_component_ok(value@),
        r matches Err(e) ==> e.label@ == label@ && e.value@ == value@,
{
    let v = chars_of(value);
    let dots = lit("..");
    proof {
        reveal_strlit("..");
    }
    assert(dots@ =~= seq!['.', '.']);
    if v.len() == 0 || contains_char(&v, '/') || contains_sub(&v, &dots) {
        return Err(InvalidComponent { label: own(label), value: own(value) });
    }
    Ok(())
}

/// Rejects names that are not a single safe path component.
pub fn validate_path_component(value: &str, label: &str) -> (r: Result<(), InvalidComponent>)
    ensures
        r is Ok <==> path_component_ok(value@),
        r matches Err(e) ==> e.label@ == label@ && e.value@ == value@,
{
    let v = chars_of(value);
    let dots = lit("..");
    proof {
        reveal_strlit("..");
    }
    assert(dots@ =~= seq!['.', '.']);
    let mut safe = true;
    let mut i: usize = 0;
    while i < v.len()
        invariant
            i <= v.len(),
            safe == forall|j: int| 0 <= j < i ==> path_char_ok(#[trigger] v@[j]),
        decreases v.len() - i,
    {
        let c = v[i];
        let ok = is_ascii_alphanumeric(c) || c == '-' || c == '_' || c == '.';
        safe = safe && ok;
        i = i + 1;
    }
    if v.len() == 0 || contains_char(&v, '/') || contains_sub(&v, &dots) || v[0] == '.' || !safe {
        return Err(InvalidComponent { label: own(label), value: own(value) });
    }
    Ok(())
}

/// Every valid path component is also a valid version component.
pub proof fn law_path_component_is_version_component(v: Seq<char>)
    requires
        path_component_ok(v),
    ensures
        version_component_ok(v),
{
}

/// An architecture that is not one of the supported names.
pub struct UnsupportedArch {
    pub value: String,
}

impl UnsupportedArch {
    /// The error text, naming the rejected value.
    pub fn message(&self) -> (r: String)
        ensures
            r@ == "Unsupported architecture '"@ + self.value@
                + "': expected x86_64, aarch64, native, amd64, or arm64"@,
    {
        let mut m = lit("Unsupported architecture '");
        crate::text::append(&mut m, &chars_of(self.value.as_str()));
        crate::text::append(&mut m, &lit("': expected x86_64, aarch64, native, amd64, or arm64"));
        string_of(&m)
    }
}

/// The canonical architecture name of `raw`, or `None` when it is unsupported.
pub open spec fn canonical_arch_of(raw: Seq<char>) -> Option<Seq<char>> {
    let t = trim(raw);
    if t.len() == 0 {
        Some("native"@)
    } else if t == "x86_64"@ || t == "aarch64"@ || t == "native"@ {
        Some(t)
    } else if t == "amd64"@ {
        Some("x86_64"@)
    } else if t == "arm64"@ {
        Some("aarch64"@)
    } else {
        None
    }
}

/// Canonicalize an architecture: `amd64` becomes `x86_64`, `arm64` becomes
/// `aarch64`, `x86_64`, `aarch64` and `native` pass through, an empty value
/// means `native`; surrounding whitespace is ignored.
pub fn canonical_arch(raw: &str) -> (r: Result<String, UnsupportedArch>)
    ensures
        r matches Ok(s) ==> canonical_arch_of(raw@) == Some(s@),
        r matches Err(e) ==> canonical_arch_of(raw@) is None && e.value@ == trim(raw@),
        r is Ok <==> canonical_arch_of(raw@) is Some,
{
    let v = chars_of(raw);
    let t = trimmed(&v);
    if t.len() == 0 {
        return Ok(own("native"));
    }
    if vec_eq(&t, &lit("x86_64")) || vec_eq(&t, &lit("aarch64")) || vec_eq(&t, &lit("native")) {
        return Ok(string_of(&t));
    }
    if vec_eq(&t, &lit("amd64")) {
        return Ok(own("x86_64"));
    }
    if vec_eq(&t, &lit("arm64")) {
        return Ok(own("aarch64"));
    }
    Err(UnsupportedArch { value: string_of(&t) })
}

proof fn lemma_trim_plain(s: Seq<char>)
    requires
        forall|i: int| 0 <= i < s.len() ==> !is_ws(#[trigger] s[i]),
    ensures
        trim(s) == s,
{
    if s.len() > 0 {
        assert(!is_ws(s[0]));
        assert(!is_ws(s.last()));
    }
}

/// Canonicalizing a canonical architecture changes nothing.
pub proof fn law_canonical_arch_idempotent(raw: Seq<char>)
    requires
        canonical_arch_of(raw) is Some,
    ensures
        canonical_arch_of(canonical_arch_of(raw)->0) == canonical_arch_of(raw),
{
    reveal_strlit("native");
    reveal_strlit("x86_64");
    reveal_strlit("aarch64");
    reveal_strlit("amd64");
    reveal_strlit("arm64");
    let c = canonical_arch_of(raw)->0;
    assert(c == "native"@ || c == "x86_64"@ || c == "aarch64"@);
    lemma_trim_plain(c);
}


pub open spec fn digit_or_dot(c: char) -> bool {
    is_digit(c) || c == '.'
}

pub open spec fn prerelease_char(c: char) -> bool {
    is_alnum(c) || c == '.' || c == '_' || c == '+'
}

pub open spec fn tag_char(c: char) -> bool {
    is_alnum(c) || c == '_' || c == '+'
}

/// What may follow the dotted numeric core of a version: nothing, a
/// `-`-led prerelease suffix, or a dot-free appended tag such as `rc1`.
pub open spec fn version_tail_ok(t: Seq<char>) -> bool {
    ||| t.len() == 0
    ||| (t[0] == '-' && forall|j: int| 1 <= j < t.len() ==> prerelease_char(#[trigger] t[j]))
    ||| (!t.contains('.') && forall|j: int| 0 <= j < t.len() ==> tag_char(#[trigger] t[j]))
}

/// `b` ends the maximal run of digits and dots at the start of `r`.
pub open spec fn core_end(r: Seq<char>, b: int) -> bool {
    &&& 0 <= b <= r.len()
    &&& forall|j: int| 0 <= j < b ==> digit_or_dot(#[trigger] r[j])
    &&& (b == r.len() || !digit_or_dot(r[b]))
}

/// `r` is a plausible version: a dotted numeric core and an acceptable tail.
pub open spec fn plausible_version(r: Seq<char>) -> bool {
    exists|b: int| core_end(r, b) && version_tail_ok(r.skip(b))
}

/// The stem may be split at the `-` at position `i`.
pub open spec fn split_point(stem: Seq<char>, i: int) -> bool {
    &&& 0 <= i
    &&& i + 1 < stem.len()
    &&& stem[i] == '-'
    &&& is_digit(stem[i + 1])
    &&& plausible_version(stem.skip(i + 1))
}

pub open spec fn first_split(stem: Seq<char>, i: int) -> bool {
    split_point(stem, i) && forall|j: int| 0 <= j < i ==> !split_point(stem, j)
}

/// The `(name, version)` of a `<name>-<version>.xcs` file name: the stem is
/// split at its first `-` that starts a plausible version; an empty name
/// yields nothing.
pub open spec fn xcs_name_of(f: Seq<char>) -> Option<(Seq<char>, Seq<char>)> {
    if !ends(f, ".xcs"@) {
        None
    } else {
        let stem = f.take(f.len() - 4);
        if exists|i: int| first_split(stem, i) {
            let i = choose|i: int| first_split(stem, i);
            if i == 0 {
                None
            } else {
                Some((stem.take(i), stem.skip(i + 1)))
            }
        } else {
            None
        }
    }
}

proof fn lemma_core_end_unique(r: Seq<char>, a: int, b: int)
    requires
        core_end(r, a),
        core_end(r, b),
    ensures
        a == b,
{
    if a < b {
        assert(digit_or_dot(r[a]));
    } else if b < a {
        assert(digit_or_dot(r[b]));
    }
}

proof fn lemma_first_split_unique(stem: Seq<char>, a: int, b: int)
    requires
        first_split(stem, a),
        first_split(stem, b),
    ensures
        a == b,
{
}

/// An archive named `<name>-<version>.xcs` parses back to its name and
/// version, when the name is not empty and holds no `-` followed by a digit,
/// and the version starts with a digit and is plausible.
pub proof fn law_archive_name_parses_back(n: Seq<char>, v: Seq<char>)
    requires
        n.len() > 0,
        forall|j: int| 0 <= j < n.len() - 1 ==> !(n[j] == '-' && is_digit(#[trigger] n[j + 1])),
        v.len() > 0,
        is_digit(v[0]),
        plausible_version(v),
    ensures
        xcs_name_of(n + seq!['-'] + v + ".xcs"@) == Some((n, v)),
{
    reveal_strlit(".xcs");
    let f = n + seq!['-'] + v + ".xcs"@;
    let stem = f.take(f.len() - 4);
    assert(stem =~= n + seq!['-'] + v);
    assert(f.skip(f.len() - 4) =~= ".xcs"@);
    assert(ends(f, ".xcs"@));
    let k = n.len() as int;
    assert(stem.skip(k + 1) =~= v);
    assert(split_point(stem, k));
    assert forall|j: int| 0 <= j < k implies !split_point(stem, j) by {
        if j < k - 1 {
            assert(stem[j] == n[j] && stem[j + 1] == n[j + 1]);
        } else {
            assert(stem[j + 1] == '-');
        }
    }
    assert(first_split(stem, k));
    let i = choose|i: int| first_split(stem, i);
    lemma_first_split_unique(stem, i, k);
    assert(stem.take(k) =~= n);
}

/// Whether the stem may be split at the `-` at position `i`.
fn split_point_at(stem: &Vec<char>, i: usize) -> (b: bool)
    requires
        i < stem.len(),
    ensures
        b == split_point(stem@, i as int),
{
    if !(stem[i] == '-' && i + 1 < stem.len() && is_ascii_digit(stem[i + 1])) {
        return false;
    }
    let ghost r = stem@.skip(i + 1);
    let start = i + 1;
    let mut k: usize = start;
    while k < stem.len() && (is_ascii_digit(stem[k]) || stem[k] == '.')
        invariant
            start <= k <= stem.len(),
            r == stem@.skip(start as int),
            forall|j: int| 0 <= j < k - start ==> digit_or_dot(#[trigger] r[j]),
        decreases stem.len() - k,
    {
        k = k + 1;
    }
    let b = k - start;
    assert(core_end(r, b as int));
    let ghost t = r.skip(b as int);
    assert(t =~= stem@.skip(k as int));
    // Judge the tail `stem[k..]`.
    let n = stem.len();
    let mut ok: bool;
    if k == n {
        ok = true;
    } else if stem[k] == '-' {
        let mut all = true;
        let mut m = k + 1;
        while m < n
            invariant
                k < m <= n,
                n == stem.len(),
                t =~= stem@.skip(k as int),
                all == forall|j: int| 1 <= j < m - k ==> prerelease_char(#[trigger] t[j]),
            decreases n - m,
        {
            let c = stem[m];
            let good = is_ascii_alphanumeric(c) || c == '.' || c == '_' || c == '+';
            assert(t[m - k] == c);
            all = all && good;
            m = m + 1;
        }
        ok = all;
        if !ok {
            assert(!(!t.contains('.') && forall|j: int| 0 <= j < t.len() ==> tag_char(#[trigger] t[j]))) by {
                let j = choose|j: int| 1 <= j < t.len() && !prerelease_char(#[trigger] t[j]);
                if forall|j: int| 0 <= j < t.len() ==> tag_char(#[trigger] t[j]) {
                    assert(tag_char(t[j]));
                }
            }
        }
    } else {
        let mut all = true;
        let mut m = k;
        while m < n
            invariant
                k <= m <= n,
                n == stem.len(),
                t =~= stem@.skip(k as int),
                all == forall|j: int| 0 <= j < m - k ==> tag_char(#[trigger] t[j]),
            decreases n - m,
        {
            let c = stem[m];
            let good = is_ascii_alphanumeric(c) || c == '_' || c == '+';
            assert(t[m - k] == c);
            all = all && good;
            m = m + 1;
        }
        ok = all;
        if ok {
            assert(!t.contains('.')) by {
                if t.contains('.') {
                    let j = choose|j: int| 0 <= j < t.len() && t[j] == '.';
                    assert(tag_char(t[j]));
                }
            }
        }
    }
    assert(ok == version_tail_ok(t));
    proof {
        if !ok {
            assert forall|b2: int| !(core_end(r, b2) && version_tail_ok(r.skip(b2))) by {
                if core_end(r, b2) {
                    lemma_core_end_unique(r, b as int, b2);
                }
            }
        }
    }
    ok
}

/// Parse a `<name>-<version>.xcs` file name into `(name, version)`, accepting
/// prerelease suffixes (`1.0-beta`) and appended tags (`2.4rc1`) in the
/// version.
pub fn parse_xcs_name(fname: &str) -> (r: Option<(String, String)>)
    ensures
        r matches Some(p) ==> xcs_name_of(fname@) == Some((p.0@, p.1@)),
        r is None ==> xcs_name_of(fname@) is None,
{
    let f = chars_of(fname);
    let suffix = lit(".xcs");
    proof {
        reveal_strlit(".xcs");
    }
    if !ends_with(&f, &suffix) {
        return None;
    }
    let stem = slice_vec(&f, 0, f.len() - 4);
    assert(stem@ =~= f@.take(f@.len() - 4));
    let mut i: usize = 0;
    while i < stem.len()
        invariant
            i <= stem.len(),
            forall|j: int| 0 <= j < i ==> !split_point(stem@, j),
            f@ == fname@,
            ends(f@, ".xcs"@),
            ".xcs"@.len() == 4,
            stem@ == f@.take(f@.len() - 4),
        decreases stem.len() - i,
    {
        if split_point_at(&stem, i) {
            assert(first_split(stem@, i as int));
            assert(exists|c: int| first_split(stem@, c));
            proof {
                let c = choose|c: int| first_split(stem@, c);
                lemma_first_split_unique(stem@, c, i as int);
            }
            assert(ends(fname@, ".xcs"@));
            assert(fname@.take(fname@.len() - 4) == stem@);
            if i == 0 {
                return None;
            }
            let name = slice_vec(&stem, 0, i);
            let version = slice_vec(&stem, i + 1, stem.len());
            assert(name@ =~= stem@.take(i as int));
            assert(version@ =~= stem@.skip(i + 1));
            return Some((string_of(&name), string_of(&version)));
        }
        i = i + 1;
    }
    assert forall|c: int| !first_split(stem@, c) by {
        if 0 <= c < stem.len() {
        }
    }
    None
}


/// One character of a single-quoted `sh` word: a quote closes the word,
/// emits an escaped quote and reopens it.
pub open spec fn quoted_piece(c: char) -> Seq<char> {
    if c == '\'' {
        seq!['\'', '\\', '\'', '\'']
    } else {
        seq![c]
    }
}

pub open spec fn quoted_body(s: Seq<char>) -> Seq<char>
    decreases s.len(),
{
    if s.len() == 0 {
        Seq::empty()
    } else {
        quoted_body(s.drop_last()) + quoted_piece(s.last())
    }
}

/// `value` wrapped in single quotes, each quote inside written as `'\''`.
pub open spec fn sh_quoted(s: Seq<char>) -> Seq<char> {
    seq!['\''] + quoted_body(s) + seq!['\'']
}

/// Quote a value for safe interpolation into a POSIX `sh -c` command string.
pub fn sh_quote(value: &str) -> (r: String)
    ensures
        r@ == sh_quoted(value@),
{
    let v = chars_of(value);
    let mut out: Vec<char> = Vec::new();
    out.push('\'');
    let mut i: usize = 0;
    while i < v.len()
        invariant
            i <= v.len(),
            out@ == seq!['\''] + quoted_body(v@.take(i as int)),
        decreases v.len() - i,
    {
        let c = v[i];
        if c == '\'' {
            out.push('\'');
            out.push('\\');
            out.push('\'');
            out.push('\'');
        } else {
            out.push(c);
        }
        assert(v@.take(i + 1).drop_last() =~= v@.take(i as int));
        i = i + 1;
        assert(out@ =~= seq!['\''] + quoted_body(v@.take(i as int)));
    }
    out.push('\'');
    assert(v@.take(v.len() as int) =~= v@);
    assert(out@ =~= sh_quoted(value@));
    string_of(&out)
}

/// What POSIX `sh` reads from a word written only with single-quoted
/// strings and backslash escapes, starting inside quotes when `in_quote`:
/// inside single quotes each character stands for itself up to the closing
/// quote; outside them a backslash stands for the character after it and a
/// quote opens a quoted string. `None` when the word has any other unquoted
/// character or ends inside quotes.
pub open spec fn sh_read_word(w: Seq<char>, in_quote: bool) -> Option<Seq<char>>
    decreases w.len(),
{
    if w.len() == 0 {
        if in_quote {
            None
        } else {
            Some(Seq::empty())
        }
    } else if in_quote {
        if w[0] == '\'' {
            sh_read_word(w.drop_first(), false)
        } else {
            match sh_read_word(w.drop_first(), true) {
                Some(r) => Some(seq![w[0]] + r),
                None => None,
            }
        }
    } else if w[0] == '\'' {
        sh_read_word(w.drop_first(), true)
    } else if w[0] == '\\' && w.len() >= 2 {
        match sh_read_word(w.skip(2), false) {
            Some(r) => Some(seq![w[1]] + r),
            None => None,
        }
    } else {
        None
    }
}

proof fn lemma_quoted_body_front(s: Seq<char>)
    requires
        s.len() > 0,
    ensures
        quoted_body(s) == quoted_piece(s[0]) + quoted_body(s.drop_first()),
    decreases s.len(),
{
    if s.len() == 1 {
        assert(s.drop_last() =~= Seq::<char>::empty());
        assert(s.drop_first() =~= Seq::<char>::empty());
        assert(quoted_body(s) =~= quoted_piece(s[0]) + quoted_body(s.drop_first()));
    } else {
        lemma_quoted_body_front(s.drop_last());
        assert(s.drop_last().drop_first() =~= s.drop_first().drop_last());
        assert(s.drop_first().last() == s.last());
        assert(quoted_body(s) =~= quoted_piece(s[0]) + quoted_body(s.drop_first()));
    }
}

proof fn lemma_read_quoted(s: Seq<char>, rest: Seq<char>)
    ensures
        sh_read_word(quoted_body(s) + seq!['\''] + rest, true) == match sh_read_word(rest, false) {
            Some(r) => Some(s + r),
            None => None::<Seq<char>>,
        },
    decreases s.len(),
{
    let w = quoted_body(s) + seq!['\''] + rest;
    if s.len() == 0 {
        assert(w =~= seq!['\''] + rest);
        assert(w.drop_first() =~= rest);
        assert(sh_read_word(w, true) == sh_read_word(rest, false));
        match sh_read_word(rest, false) {
            Some(r) => assert(s + r =~= r),
            None => {},
        }
    } else {
        lemma_quoted_body_front(s);
        let t = s.drop_first();
        let x = quoted_body(t) + seq!['\''] + rest;
        lemma_read_quoted(t, rest);
        if s[0] == '\'' {
            let y = seq!['\''] + x;
            assert(w =~= seq!['\'', '\\', '\'', '\''] + x);
            assert(w.drop_first() =~= seq!['\\', '\'', '\''] + x);
            assert(w.drop_first().skip(2) =~= y);
            assert(y.drop_first() =~= x);
            assert(sh_read_word(y, false) == sh_read_word(x, true));
            assert(sh_read_word(w.drop_first(), false) == match sh_read_word(y, false) {
                Some(r) => Some(seq!['\''] + r),
                None => None::<Seq<char>>,
            });
            assert(sh_read_word(w, true) == sh_read_word(w.drop_first(), false));
        } else {
            assert(w =~= seq![s[0]] + x);
            assert(w.drop_first() =~= x);
            assert(sh_read_word(w, true) == match sh_read_word(x, true) {
                Some(r) => Some(seq![s[0]] + r),
                None => None::<Seq<char>>,
            });
        }
        match sh_read_word(rest, false) {
            Some(r) => assert(seq![s[0]] + (t + r) =~= s + r),
            None => {},
        }
    }
}

/// A quoted value reads back as itself: `sh` takes `sh_quote(value)` as one
/// word written only with single-quoted strings and escaped quotes, so
/// nothing in it is expanded, and the word stands for exactly `value`.
pub proof fn law_sh_quote_reads_back(value: Seq<char>)
    requires
        forall|i: int| 0 <= i < value.len() ==> #[trigger] value[i] != '\0',
    ensures
        sh_read_word(sh_quoted(value), false) == Some(value),
{
    let w = sh_quoted(value);
    lemma_read_quoted(value, Seq::empty());
    assert(w.drop_first() =~= quoted_body(value) + seq!['\''] + Seq::<char>::empty());
    assert(value + Seq::<char>::empty() =~= value);
}

/// The kind of a manifest `source` value.
pub open spec fn source_type_of(s: Seq<char>) -> Seq<char> {
    if starts(s, "git@"@) || starts(s, "git://"@) || ends(s, ".git"@) {
        "git"@
    } else if starts(s, "https://"@) || starts(s, "http://"@) {
        "http"@
    } else if starts(s, "file://"@) {
        "file"@
    } else if has_sub(s, "://"@) {
        "url"@
    } else {
        "dir"@
    }
}

/// Classify a manifest source as `git`, `http`, `file`, `url` or `dir`.
pub fn detect_source_type(source: &str) -> (r: String)
    ensures
        r@ == source_type_of(source@),
{
    let s = chars_of(source);
    if starts_with(&s, &lit("git@")) || starts_with(&s, &lit("git://")) || ends_with(
        &s,
        &lit(".git"),
    ) {
        own("git")
    } else if starts_with(&s, &lit("https://")) || starts_with(&s, &lit("http://")) {
        own("http")
    } else if starts_with(&s, &lit("file://")) {
        own("file")
    } else if contains_sub(&s, &lit("://")) {
        own("url")
    } else {
        own("dir")
    }
}

/// The maximal runs of digits and of non-digits that make up `s`, in order.
pub open spec fn runs(s: Seq<char>) -> Seq<Seq<char>>
    decreases s.len(),
{
    if s.len() == 0 {
        Seq::empty()
    } else {
        let p = s.drop_last();
        let c = s.last();
        let rp = runs(p);
        if p.len() == 0 {
            seq![seq![c]]
        } else if is_digit(p.last()) == is_digit(c) {
            rp.update(rp.len() - 1, rp.last().push(c))
        } else {
            rp.push(seq![c])
        }
    }
}

/// The decimal value of a run of digits.
pub open spec fn digits_value(s: Seq<char>) -> nat
    decreases s.len(),
{
    if s.len() == 0 {
        0
    } else {
        (10 * digits_value(s.drop_last()) + (s.last() as nat - '0' as nat)) as nat
    }
}

/// One element of a version's sort key: a numeric run by its value (the
/// largest `u64` when it does not fit), any other run by its lowercase text.
pub open spec fn run_key(r: Seq<char>) -> (bool, u64, Seq<char>) {
    if r.len() > 0 && is_digit(r[0]) {
        (true, if digits_value(r) <= u64::MAX { digits_value(r) as u64 } else { u64::MAX }, Seq::empty())
    } else {
        (false, 0, unicode_lowercase(r))
    }
}

pub open spec fn version_key_of(s: Seq<char>) -> Seq<(bool, u64, Seq<char>)> {
    runs(s).map_values(|r: Seq<char>| run_key(r))
}

pub open spec fn key_view(k: Seq<(bool, u64, String)>) -> Seq<(bool, u64, Seq<char>)> {
    k.map_values(|e: (bool, u64, String)| (e.0, e.1, e.2@))
}

proof fn lemma_runs_shape(s: Seq<char>)
    requires
        s.len() > 0,
    ensures
        runs(s).len() > 0,
        runs(s).last().len() > 0,
        runs(s).last().last() == s.last(),
        forall|k: int| 0 <= k < runs(s).last().len() ==> is_digit(#[trigger] runs(s).last()[k])
            == is_digit(s.last()),
    decreases s.len(),
{
    let p = s.drop_last();
    if p.len() > 0 {
        lemma_runs_shape(p);
    }
}

/// The value of a run of digits, or `u64::MAX` when it does not fit.
fn run_number(r: &Vec<char>) -> (n: u64)
    requires
        forall|k: int| 0 <= k < r.len() ==> is_digit(#[trigger] r@[k]),
    ensures
        n == (if digits_value(r@) <= u64::MAX { digits_value(r@) as u64 } else { u64::MAX }),
{
    let mut acc: u64 = 0;
    let mut over = false;
    let mut i: usize = 0;
    while i < r.len()
        invariant
            i <= r.len(),
            forall|k: int| 0 <= k < r.len() ==> is_digit(#[trigger] r@[k]),
            !over ==> acc == digits_value(r@.take(i as int)),
            over ==> digits_value(r@.take(i as int)) > u64::MAX,
        decreases r.len() - i,
    {
        let d = (r[i] as u32 - '0' as u32) as u64;
        assert(r@.take(i + 1).drop_last() =~= r@.take(i as int));
        assert(is_digit(r@[i as int]));
        if !over {
            if acc <= (u64::MAX - d) / 10 {
                acc = acc * 10 + d;
            } else {
                over = true;
            }
        }
        i = i + 1;
    }
    assert(r@.take(r.len() as int) =~= r@);
    if over {
        u64::MAX
    } else {
        acc
    }
}

/// Natural sort key of a version: runs of digits compare numerically
/// (`1.10` after `1.9`), other runs as lowercase text.
pub fn version_sort_key(v: &str) -> (k: Vec<(bool, u64, String)>)
    ensures
        key_view(k@) == version_key_of(v@),
{
    let s = chars_of(v);
    let mut parts: Vec<(bool, u64, String)> = Vec::new();
    let mut cur: Vec<char> = Vec::new();
    let mut i: usize = 0;
    while i < s.len()
        invariant
            i <= s.len(),
            i == 0 ==> cur@.len() == 0 && parts@.len() == 0,
            i > 0 ==> cur@.len() > 0 && key_view(parts@) + seq![run_key(cur@)] == version_key_of(
                s@.take(i as int),
            ) && cur@ == runs(s@.take(i as int)).last(),
        decreases s.len() - i,
    {
        let c = s[i];
        let ghost p = s@.take(i as int);
        let ghost q = s@.take(i + 1);
        assert(q.drop_last() =~= p);
        assert(q.last() == c);
        if i > 0 {
            proof {
                lemma_runs_shape(p);
            }
            let prev_num = is_ascii_digit(s[i - 1]);
            assert(p.last() == s@[i - 1]);
            if prev_num != is_ascii_digit(c) {
                let key = make_run_key(&cur);
                parts.push(key);
                cur = Vec::new();
                cur.push(c);
                proof {
                    assert(runs(q) == runs(p).push(seq![c]));
                    assert(key_view(parts@) =~= key_view(parts@.drop_last()).push(run_key(runs(p).last())));
                    assert(version_key_of(q) =~= version_key_of(p).push(run_key(seq![c])));
                    assert(version_key_of(p) =~= key_view(parts@.drop_last()) + seq![run_key(runs(p).last())]);
                    assert(cur@ =~= seq![c]);
                    assert(key_view(parts@) + seq![run_key(cur@)] =~= version_key_of(q));
                }
            } else {
                cur.push(c);
                proof {
                    assert(runs(q) == runs(p).update(runs(p).len() - 1, runs(p).last().push(c)));
                    assert(version_key_of(q) =~= version_key_of(p).update(
                        runs(p).len() - 1,
                        run_key(runs(p).last().push(c)),
                    ));
                    assert(key_view(parts@) + seq![run_key(cur@)] =~= version_key_of(q));
                }
            }
        } else {
            cur.push(c);
            proof {
                assert(runs(q) == seq![seq![c]]);
                assert(cur@ =~= seq![c]);
                assert(version_key_of(q) =~= seq![run_key(seq![c])]);
                assert(key_view(parts@) + seq![run_key(cur@)] =~= version_key_of(q));
            }
        }
        i = i + 1;
    }
    assert(s@.take(s.len() as int) =~= s@);
    if cur.len() > 0 {
        proof {
            lemma_runs_shape(s@);
            assert forall|j: int| 0 <= j < cur.len() implies is_digit(#[trigger] cur@[j]) == is_digit(cur@[0]) by {
                assert(is_digit(cur@[0]) == is_digit(s@.last()));
            }
        }
        let key = make_run_key(&cur);
        parts.push(key);
        assert(key_view(parts@) =~= key_view(parts@.drop_last()).push(run_key(cur@)));
    } else {
        assert(key_view(parts@) =~= version_key_of(s@));
    }
    parts
}

/// The sort-key element of a non-empty run (all digits or all non-digits).
fn make_run_key(r: &Vec<char>) -> (k: (bool, u64, String))
    requires
        r.len() > 0,
        forall|j: int| 0 <= j < r.len() ==> is_digit(#[trigger] r@[j]) == is_digit(r@[0]),
    ensures
        (k.0, k.1, k.2@) == run_key(r@),
{
    if is_ascii_digit(r[0]) {
        (true, run_number(r), String::new())
    } else {
        let text = string_of(r);
        (false, 0, to_lowercase(text.as_str()))
    }
}

} // verus!
