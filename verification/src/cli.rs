use vstd::prelude::*;
use crate::naming::{canonical_arch, canonical_arch_of, UnsupportedArch};
use crate::order::views;
use crate::text::{chars_of, is_digit, lit, own, trim, trimmed, vec_eq};

verus! {

// ── Command line ────────────────────────────────────────────────────────

pub open spec fn arity_of(f: Seq<char>) -> Option<nat> {
    if f == "-a"@ || f == "--archive"@ || f == "-x"@ || f == "--extract"@ || f == "-w"@ || f
        == "--write"@ {
        Some(2)
    } else if f == "-i"@ || f == "--inspect"@ || f == "-m"@ || f == "--manifest"@ || f == "-o"@
        || f == "--output"@ || f == "-j"@ || f == "--jobs"@ || f == "-z"@ || f == "--zstd-level"@
        || f == "-p"@ || f == "--project"@ || f == "-t"@ || f == "--target"@ || f == "-b"@ || f
        == "--hash-type"@ || f == "-u"@ || f == "--upload"@ || f == "--token"@ || f == "--sort"@
        || f == "--validate"@ || f == "--checksum"@ || f == "--sign"@ || f == "--source"@ || f
        == "--plugin"@ || f == "--theme"@ || f == "--tui"@ || f == "--base-url"@ || f == "--arch"@
        || f == "--key"@ {
        Some(1)
    } else {
        None
    }
}

fn is_one_of(f: &Vec<char>, names: &Vec<&str>) -> (r: bool)
    ensures
        r == exists|i: int| 0 <= i < names@.len() && f@ == (#[trigger] names@[i])@,
{
    let mut i: usize = 0;
    while i < names.len()
        invariant
            i <= names.len(),
            forall|k: int| 0 <= k < i ==> f@ != (#[trigger] names@[k])@,
        decreases names.len() - i,
    {
        if vec_eq(f, &chars_of(names[i])) {
            return true;
        }
        i = i + 1;
    }
    false
}

/// The number of values a command-line option takes.
pub fn value_flag_arity(flag: &str) -> (r: Option<usize>)
    ensures
        r matches Some(n) ==> arity_of(flag@) == Some(n as nat),
        r is None ==> arity_of(flag@) is None,
{
    let f = chars_of(flag);
    let two = vec!["-a", "--archive", "-x", "--extract", "-w", "--write"];
    let one = vec![
        "-i", "--inspect", "-m", "--manifest", "-o", "--output", "-j", "--jobs", "-z",
        "--zstd-level", "-p", "--project", "-t", "--target", "-b", "--hash-type", "-u", "--upload",
        "--token", "--sort", "--validate", "--checksum", "--sign", "--source", "--plugin", "--theme",
        "--tui", "--base-url", "--arch", "--key",
    ];
    if is_one_of(&f, &two) {
        proof {
            let i = choose|i: int| 0 <= i < two@.len() && f@ == (#[trigger] two@[i])@;
        }
        Some(2)
    } else if is_one_of(&f, &one) {
        proof {
            let i = choose|i: int| 0 <= i < one@.len() && f@ == (#[trigger] one@[i])@;
            assert(forall|k: int| 0 <= k < two@.len() ==> f@ != (#[trigger] two@[k])@);
            assert(f@ != two@[0]@ && f@ != two@[1]@ && f@ != two@[2]@ && f@ != two@[3]@ && f@ != two@[4]@ && f@ != two@[5]@);
        }
        Some(1)
    } else {
        proof {
            assert(f@ != two@[0]@ && f@ != two@[1]@ && f@ != two@[2]@ && f@ != two@[3]@ && f@ != two@[4]@ && f@ != two@[5]@);
            assert forall|k: int| 0 <= k < one@.len() implies f@ != (#[trigger] one@[k])@ by {}
        }
        None
    }
}

/// An option that names the repository (`--base-url`, `--arch`, `--key`).
pub open spec fn hoisted_flag(a: Seq<char>) -> bool {
    a == "--base-url"@ || a == "--arch"@ || a == "--key"@
}

/// An argument that is an option: `-` and at least one more character.
pub open spec fn is_option(a: Seq<char>) -> bool {
    a.len() > 1 && a[0] == '-'
}

/// The arguments from position `i` split into those hoisted to the front
/// (repository options with their values) and the rest, both in order.
pub open spec fn split_from(argv: Seq<Seq<char>>, i: int) -> (Seq<Seq<char>>, Seq<Seq<char>>)
    decreases argv.len() - i,
{
    if i < 0 || i >= argv.len() {
        (Seq::empty(), Seq::empty())
    } else {
        let a = argv[i];
        if is_option(a) {
            let n: int = match arity_of(a) {
                Some(k) => k as int,
                None => 0,
            };
            let m = if i + n < argv.len() {
                n
            } else {
                argv.len() - 1 - i
            };
            let unit = argv.subrange(i, i + 1 + m);
            let rest = split_from(argv, i + 1 + m);
            if hoisted_flag(a) {
                (unit + rest.0, rest.1)
            } else {
                (rest.0, unit + rest.1)
            }
        } else {
            let rest = split_from(argv, i + 1);
            (rest.0, seq![a] + rest.1)
        }
    }
}

/// The arguments with the repository options (`--base-url`, `--arch`,
/// `--key`, each with its value) moved to the front; everything else keeps
/// its order. An option takes as many of the following arguments as it
/// has values, or as many as there are.
pub open spec fn preprocessed(argv: Seq<Seq<char>>) -> Seq<Seq<char>> {
    let s = split_from(argv, 0);
    s.0 + s.1
}

pub fn preprocess_argv(argv: &Vec<String>) -> (r: Vec<String>)
    ensures
        views(r@) == preprocessed(views(argv@)),
{
    let ghost av = views(argv@);
    let mut hoisted: Vec<String> = Vec::new();
    let mut ordered: Vec<String> = Vec::new();
    let mut i: usize = 0;
    while i < argv.len()
        invariant
            i <= argv.len(),
            av == views(argv@),
            split_from(av, 0) == (views(hoisted@) + split_from(av, i as int).0, views(ordered@) + split_from(av, i as int).1),
        decreases argv.len() - i,
    {
        let a = &argv[i];
        let ac = chars_of(a.as_str());
        assert(av[i as int] == a@);
        if ac.len() > 1 && ac[0] == '-' {
            let n: usize = match value_flag_arity(a.as_str()) {
                Some(k) => k,
                None => 0,
            };
            let avail = argv.len() - 1 - i;
            let taken = if n <= avail { n } else { avail };
            let mut unit: Vec<String> = Vec::new();
            let mut q: usize = i;
            while q <= i + taken
                invariant
                    i <= q <= i + taken + 1,
                    i + taken < argv.len(),
                    av == views(argv@),
                    views(unit@) == av.subrange(i as int, q as int),
                decreases i + taken + 1 - q,
            {
                let ghost before = views(unit@);
                unit.push(argv[q].clone());
                assert(views(unit@) =~= before.push(argv@[q as int]@));
                assert(av[q as int] == argv@[q as int]@);
                assert(av.subrange(i as int, q + 1) =~= av.subrange(i as int, q as int).push(av[q as int]));
                q = q + 1;
            }
            let start = i;
            i = i + taken;
            let hoist = vec_eq(&ac, &lit("--base-url")) || vec_eq(&ac, &lit("--arch")) || vec_eq(&ac, &lit("--key"));
            proof {
                assert(arity_of(a@) == (if n == 0 { arity_of(a@) } else { Some(n as nat) }));
                let m: int = if start + n < av.len() { n as int } else { av.len() - 1 - start };
                assert(taken as int == m);
                assert(i as int + 1 == start + 1 + m);
            }
            let ghost hv = views(hoisted@);
            let ghost ov = views(ordered@);
            let mut k: usize = 0;
            while k < unit.len()
                invariant
                    k <= unit.len(),
                    hoist ==> views(hoisted@) == hv + views(unit@).take(k as int) && views(ordered@) == ov,
                    !hoist ==> views(ordered@) == ov + views(unit@).take(k as int) && views(hoisted@) == hv,
                decreases unit.len() - k,
            {
                assert(views(unit@).take(k + 1) =~= views(unit@).take(k as int).push(unit@[k as int]@));
                if hoist {
                    let ghost b = views(hoisted@);
                    hoisted.push(unit[k].clone());
                    assert(views(hoisted@) =~= b.push(unit@[k as int]@));
                } else {
                    let ghost b = views(ordered@);
                    ordered.push(unit[k].clone());
                    assert(views(ordered@) =~= b.push(unit@[k as int]@));
                }
                k = k + 1;
            }
            assert(views(unit@).take(unit.len() as int) =~= views(unit@));
            proof {
                assert(hoist == hoisted_flag(a@));
                let rest = split_from(av, i + 1);
                assert(split_from(av, start as int) == if hoisted_flag(a@) {
                    (views(unit@) + rest.0, rest.1)
                } else {
                    (rest.0, views(unit@) + rest.1)
                });
                if hoist {
                    assert(hv + split_from(av, start as int).0 =~= views(hoisted@) + rest.0);
                } else {
                    assert(ov + split_from(av, start as int).1 =~= views(ordered@) + rest.1);
                }
            }
        } else {
            let ghost ov = views(ordered@);
            ordered.push(a.clone());
            proof {
                assert(!is_option(a@));
                assert(views(ordered@) =~= ov.push(a@));
                let rest = split_from(av, i + 1);
                assert(ov + split_from(av, i as int).1 =~= views(ordered@) + rest.1);
            }
        }
        i = i + 1;
    }
    let mut result = hoisted;
    let ghost hv = views(result@);
    let mut k: usize = 0;
    while k < ordered.len()
        invariant
            k <= ordered.len(),
            views(result@) == hv + views(ordered@).take(k as int),
        decreases ordered.len() - k,
    {
        let ghost b = views(result@);
        result.push(ordered[k].clone());
        assert(views(result@) =~= b.push(ordered@[k as int]@));
        assert(views(ordered@).take(k + 1) =~= views(ordered@).take(k as int).push(ordered@[k as int]@));
        k = k + 1;
    }
    assert(views(ordered@).take(ordered.len() as int) =~= views(ordered@));
    assert(split_from(av, argv.len() as int) == (Seq::<Seq<char>>::empty(), Seq::<Seq<char>>::empty()));
    assert(views(result@) =~= preprocessed(av));
    result
}

/// From position `i` on, every option of `argv` is followed by all of its
/// values.
pub open spec fn closes(argv: Seq<Seq<char>>, i: int) -> bool
    decreases argv.len() - i,
{
    if i < 0 || i >= argv.len() {
        true
    } else if is_option(argv[i]) {
        let n: int = match arity_of(argv[i]) {
            Some(k) => k as int,
            None => 0,
        };
        i + n < argv.len() && closes(argv, i + 1 + n)
    } else {
        closes(argv, i + 1)
    }
}

proof fn lemma_hoisted_flag(m: Seq<char>)
    requires
        hoisted_flag(m),
    ensures
        is_option(m),
        arity_of(m) == Some(1nat),
{
    reveal_strlit("--base-url");
    reveal_strlit("--arch");
    reveal_strlit("--key");
    reveal_strlit("-a");
    reveal_strlit("--archive");
    reveal_strlit("-x");
    reveal_strlit("--extract");
    reveal_strlit("-w");
    reveal_strlit("--write");
    assert(m.len() == 10 || m.len() == 6 || m.len() == 5);
    assert("-a"@.len() == 2 && "--archive"@.len() == 9 && "-x"@.len() == 2);
    assert("--extract"@.len() == 9 && "-w"@.len() == 2 && "--write"@.len() == 7);
    assert(m != "-a"@ && m != "--archive"@ && m != "-x"@ && m != "--extract"@ && m != "-w"@ && m != "--write"@);
}

proof fn lemma_split_appended(a: Seq<Seq<char>>, t: Seq<Seq<char>>, i: int)
    requires
        0 <= i <= a.len(),
        closes(a, i),
        t.len() == 2,
        hoisted_flag(t[0]),
    ensures
        split_from(a + t, i) == (split_from(a, i).0 + t, split_from(a, i).1),
    decreases a.len() - i,
{
    let at = a + t;
    lemma_hoisted_flag(t[0]);
    if i == a.len() {
        assert(at[i] == t[0]);
        assert(at.subrange(i, i + 2) =~= t);
        assert(split_from(at, i + 2) == (Seq::<Seq<char>>::empty(), Seq::<Seq<char>>::empty()));
        assert(split_from(a, i) == (Seq::<Seq<char>>::empty(), Seq::<Seq<char>>::empty()));
        assert(t + Seq::<Seq<char>>::empty() =~= Seq::<Seq<char>>::empty() + t);
    } else {
        assert(at[i] == a[i]);
        if is_option(a[i]) {
            let n: int = match arity_of(a[i]) {
                Some(k) => k as int,
                None => 0,
            };
            lemma_split_appended(a, t, i + 1 + n);
            assert(at.subrange(i, i + 1 + n) =~= a.subrange(i, i + 1 + n));
            let u = a.subrange(i, i + 1 + n);
            let r = split_from(a, i + 1 + n);
            assert(u + (r.0 + t) =~= (u + r.0) + t);
        } else {
            lemma_split_appended(a, t, i + 1);
            let r = split_from(a, i + 1);
            assert(seq![a[i]] + r.1 =~= seq![at[i]] + r.1);
        }
    }
}

proof fn lemma_split_shifted(t: Seq<Seq<char>>, a: Seq<Seq<char>>, j: int)
    requires
        0 <= j <= a.len(),
    ensures
        split_from(t + a, t.len() + j) == split_from(a, j),
    decreases a.len() - j,
{
    let ta = t + a;
    let i = t.len() + j;
    if j < a.len() {
        assert(ta[i] == a[j]);
        if is_option(a[j]) {
            let n: int = match arity_of(a[j]) {
                Some(k) => k as int,
                None => 0,
            };
            let m = if j + n < a.len() { n } else { a.len() - 1 - j };
            lemma_split_shifted(t, a, j + 1 + m);
            assert(ta.subrange(i, i + 1 + m) =~= a.subrange(j, j + 1 + m));
        } else {
            lemma_split_shifted(t, a, j + 1);
        }
    }
}

/// Repository options may lead or trail: an argument list without
/// repository options, whose options all have their values, comes out of
/// preprocessing the same with a repository option and its value before it
/// or after it.
pub proof fn law_repository_option_position(m: Seq<char>, v: Seq<char>, a: Seq<Seq<char>>)
    requires
        hoisted_flag(m),
        closes(a, 0),
        split_from(a, 0).0.len() == 0,
    ensures
        preprocessed(seq![m, v] + a) == preprocessed(a + seq![m, v]),
{
    let t = seq![m, v];
    lemma_hoisted_flag(m);
    lemma_split_appended(a, t, 0);
    lemma_split_shifted(t, a, 0);
    let ta = t + a;
    assert(ta[0] == m);
    assert(ta.subrange(0, 2) =~= t);
    let s = split_from(a, 0);
    assert(s.0 =~= Seq::<Seq<char>>::empty());
    assert(split_from(ta, 0) == (t + s.0, s.1));
    assert((t + s.0) + s.1 =~= (s.0 + t) + s.1);
}

/// The architecture of the repository layout: the `--arch` option, else
/// the `CUDANE_TARGET` variable, else `native`, canonicalized.
pub fn resolve_repo_arch(opt_arch: Option<&str>, env_target: Option<&str>) -> (r: Result<String, UnsupportedArch>)
    ensures
        ({
            let raw = match opt_arch {
                Some(a) => a@,
                None => match env_target {
                    Some(t) => t@,
                    None => "native"@,
                },
            };
            &&& r is Ok <==> canonical_arch_of(raw) is Some
            &&& r matches Ok(s) ==> canonical_arch_of(raw) == Some(s@)
        }),
{
    match opt_arch {
        Some(a) => canonical_arch(a),
        None => match env_target {
            Some(t) => canonical_arch(t),
            None => canonical_arch("native"),
        },
    }
}

// ── Compression level ───────────────────────────────────────────────────

/// The value of a decimal numeral.
pub open spec fn numeral_value(s: Seq<char>) -> nat
    decreases s.len(),
{
    if s.len() == 0 {
        0
    } else {
        (numeral_value(s.drop_last()) * 10 + (s.last() as nat - '0' as nat)) as nat
    }
}

/// What `str::parse::<u32>` accepts: an optional `+`, then one or more
/// ASCII digits whose value fits in `u32`.
pub open spec fn parsed_u32(s: Seq<char>) -> Option<u32> {
    let d = digits_part(s);
    if d.len() > 0 && all_digits(d) && numeral_value(d) <= u32::MAX {
        Some(numeral_value(d) as u32)
    } else {
        None
    }
}

/// A numeral without its optional leading `+`.
pub open spec fn digits_part(s: Seq<char>) -> Seq<char> {
    if s.len() > 0 && s[0] == '+' {
        s.drop_first()
    } else {
        s
    }
}

pub open spec fn all_digits(d: Seq<char>) -> bool {
    forall|i: int| 0 <= i < d.len() ==> is_digit(#[trigger] d[i])
}

/// `str::parse::<u32>`.
pub fn parse_u32(s: &Vec<char>) -> (r: Option<u32>)
    ensures
        r == parsed_u32(s@),
{
    let start: usize = if s.len() > 0 && s[0] == '+' { 1 } else { 0 };
    let ghost d = digits_part(s@);
    assert(d =~= s@.skip(start as int));
    if start >= s.len() {
        return None;
    }
    let mut v: u64 = 0;
    let mut i: usize = start;
    while i < s.len()
        invariant
            start <= i <= s.len(),
            d =~= s@.skip(start as int),
            d == digits_part(s@),
            forall|k: int| start <= k < i ==> is_digit(#[trigger] s@[k]),
            v as nat == numeral_value(s@.subrange(start as int, i as int)),
            v <= u32::MAX,
        decreases s.len() - i,
    {
        let c = s[i];
        if !('0' <= c && c <= '9') {
            proof {
                assert(d[i - start] == c);
                assert(!is_digit(d[i - start]));
                assert(!all_digits(d));
            }
            return None;
        }
        let digit = (c as u32 - '0' as u32) as u64;
        let nv = v * 10 + digit;
        assert(s@.subrange(start as int, i + 1).drop_last() =~= s@.subrange(start as int, i as int));
        assert(s@.subrange(start as int, i + 1).last() == c);
        assert(nv as nat == numeral_value(s@.subrange(start as int, i + 1)));
        if nv > u32::MAX as u64 {
            proof {
                // Every longer numeral only grows.
                lemma_numeral_grows(s@.subrange(start as int, s.len() as int), (i + 1 - start) as int);
                assert(s@.subrange(start as int, s.len() as int).take((i + 1 - start) as int) =~= s@.subrange(start as int, i + 1));
                assert(s@.subrange(start as int, s.len() as int) =~= d);
                if all_digits(d) {
                    assert(numeral_value(d) >= numeral_value(s@.subrange(start as int, i + 1)));
                }
            }
            return None;
        }
        v = nv;
        i = i + 1;
    }
    proof {
        assert(s@.subrange(start as int, s.len() as int) =~= d);
        assert forall|k: int| 0 <= k < d.len() implies is_digit(#[trigger] d[k]) by {
            assert(d[k] == s@[k + start]);
        }
        assert(all_digits(d));
    }
    Some(v as u32)
}

proof fn lemma_numeral_grows(s: Seq<char>, k: int)
    requires
        0 <= k <= s.len(),
    ensures
        (forall|i: int| 0 <= i < s.len() ==> is_digit(#[trigger] s[i])) ==> numeral_value(s) >= numeral_value(s.take(k)),
    decreases s.len() - k,
{
    if k < s.len() {
        lemma_numeral_grows(s, k + 1);
        assert(s.take(k + 1).drop_last() =~= s.take(k));
    } else {
        assert(s.take(k) =~= s);
    }
}

/// The zstd level a setting asks for: its trimmed value brought into the
/// range zstd supports, 1 to 22; 3 when it is not a number (and `true`:
/// the value was not valid).
pub fn zstd_level(raw: Option<&str>) -> (r: (u32, bool))
    ensures
        raw is None ==> r == (3u32, false),
        raw matches Some(v) ==> match parsed_u32(trim(v@)) {
            Some(l) => r == (if l < 1 { 1u32 } else if l > 22 { 22u32 } else { l }, false),
            None => r == (3u32, true),
        },
{
    match raw {
        None => (3, false),
        Some(v) => match parse_u32(&trimmed(&chars_of(v))) {
            Some(l) => (if l < 1 { 1 } else if l > 22 { 22 } else { l }, false),
            None => (3, true),
        },
    }
}

/// The zstd level the `-z` flag sets: its value brought into 1 to 22, or
/// `None` when it is not a number.
pub fn zstd_flag_level(raw: &str) -> (r: Option<u32>)
    ensures
        match parsed_u32(raw@) {
            Some(l) => r == Some(if l < 1 { 1u32 } else if l > 22 { 22u32 } else { l }),
            None => r is None,
        },
{
    match parse_u32(&chars_of(raw)) {
        Some(l) => Some(if l < 1 { 1 } else if l > 22 { 22 } else { l }),
        None => None,
    }
}

} // verus!
