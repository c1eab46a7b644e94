use vstd::prelude::*;
use crate::model::{Component, ComponentSpec, Package, str_eq};
use crate::order::{lemma_lex_antisym, lemma_lex_trans, views};
use crate::paths::{keys, path_key, paths_ascending, sort_paths};
use crate::text::{
    append, chars_of, compare_chars, lex_order, lit, own, starts, starts_with, string_of, strip_end,
    trim_end_char, vec_eq,
};

verus! {

// ── Ordering components by name ─────────────────────────────────────────

/// The components of `s` named `n`, in order.
pub open spec fn named(s: Seq<Component>, n: Seq<char>) -> Seq<Component>
    decreases s.len(),
{
    if s.len() == 0 {
        Seq::empty()
    } else if s.last().name@ == n {
        named(s.drop_last(), n).push(s.last())
    } else {
        named(s.drop_last(), n)
    }
}

/// `r` is `v` sorted by name, keeping the order of components with equal
/// names (a stable sort).
pub open spec fn stably_sorted(r: Seq<Component>, v: Seq<Component>) -> bool {
    &&& forall|i: int, j: int| 0 <= i < j < r.len() ==> lex_order(#[trigger] r[i].name@, #[trigger] r[j].name@) <= 0
    &&& forall|n: Seq<char>| #[trigger] named(r, n) == named(v, n)
}

proof fn lemma_named_concat(a: Seq<Component>, b: Seq<Component>, n: Seq<char>)
    ensures
        named(a + b, n) == named(a, n) + named(b, n),
    decreases b.len(),
{
    if b.len() == 0 {
        assert(a + b =~= a);
        assert(named(a, n) + named(b, n) =~= named(a, n));
    } else {
        lemma_named_concat(a, b.drop_last(), n);
        assert((a + b).drop_last() =~= a + b.drop_last());
        assert((a + b).last() == b.last());
        if b.last().name@ == n {
            assert(named(a, n) + named(b.drop_last(), n).push(b.last()) =~= (named(a, n) + named(b.drop_last(), n)).push(b.last()));
        }
    }
}

proof fn lemma_named_none(s: Seq<Component>, n: Seq<char>)
    requires
        forall|i: int| 0 <= i < s.len() ==> #[trigger] s[i].name@ != n,
    ensures
        named(s, n) == Seq::<Component>::empty(),
    decreases s.len(),
{
    if s.len() > 0 {
        lemma_named_none(s.drop_last(), n);
    }
}

proof fn lemma_insert_sorted(old_r: Seq<Component>, k: int, x: Component, prefix: Seq<Component>)
    requires
        0 <= k <= old_r.len(),
        stably_sorted(old_r, prefix),
        forall|m: int| 0 <= m < k ==> lex_order(#[trigger] old_r[m].name@, x.name@) <= 0,
        forall|m: int| k <= m < old_r.len() ==> lex_order(#[trigger] old_r[m].name@, x.name@) > 0,
    ensures
        stably_sorted(old_r.insert(k, x), prefix.push(x)),
{
    let nr = old_r.insert(k, x);
    let a = old_r.take(k);
    let b = old_r.skip(k);
    let xs = seq![x];
    assert(nr =~= a + xs + b);
    assert(old_r =~= a + b);
    assert(prefix.push(x).drop_last() =~= prefix);
    assert forall|p: int, q: int| 0 <= p < q < nr.len() implies lex_order(#[trigger] nr[p].name@, #[trigger] nr[q].name@) <= 0 by {
        if q < k {
            assert(nr[p] == old_r[p] && nr[q] == old_r[q]);
        } else if q == k {
            assert(nr[p] == old_r[p]);
        } else if p < k {
            assert(nr[p] == old_r[p] && nr[q] == old_r[q - 1]);
        } else if p == k {
            assert(nr[q] == old_r[q - 1]);
            lemma_lex_antisym(old_r[q - 1].name@, x.name@);
        } else {
            assert(nr[p] == old_r[p - 1] && nr[q] == old_r[q - 1]);
        }
    }
    assert forall|n: Seq<char>| #[trigger] named(nr, n) == named(prefix.push(x), n) by {
        lemma_named_concat(a + xs, b, n);
        lemma_named_concat(a, xs, n);
        lemma_named_concat(a, b, n);
        assert(xs.drop_last() =~= Seq::<Component>::empty());
        assert(xs.last() == x);
        assert(named(Seq::<Component>::empty(), n) == Seq::<Component>::empty());
        assert(named(old_r, n) == named(prefix, n));
        if n == x.name@ {
            assert forall|m: int| 0 <= m < b.len() implies #[trigger] b[m].name@ != n by {
                assert(b[m] == old_r[m + k]);
                lemma_lex_antisym(old_r[m + k].name@, x.name@);
            }
            lemma_named_none(b, n);
            assert(named(xs, n) =~= seq![x]);
            assert(named(nr, n) =~= named(a, n).push(x));
            assert(named(old_r, n) =~= named(a, n));
        } else {
            assert(named(xs, n) =~= Seq::<Component>::empty());
            assert(named(nr, n) =~= named(a, n) + named(b, n));
        }
    }
}

/// `v` sorted by name, stably.
pub fn sort_components(v: Vec<Component>) -> (r: Vec<Component>)
    ensures
        stably_sorted(r@, v@),
{
    let mut v = v;
    let ghost orig = v@;
    let total = v.len();
    assert(orig.len() == total);
    let mut r: Vec<Component> = Vec::new();
    let mut i: usize = 0;
    while v.len() > 0
        invariant
            i + v.len() == orig.len(),
            orig.len() == total,
            v@ == orig.skip(i as int),
            stably_sorted(r@, orig.take(i as int)),
        decreases v.len(),
    {
        let x = v.remove(0);
        assert(x == orig[i as int]);
        let xn = chars_of(x.name.as_str());
        let mut k: usize = 0;
        let mut stop = false;
        while k < r.len() && !stop
            invariant
                k <= r.len(),
                xn@ == x.name@,
                forall|m: int| 0 <= m < k ==> lex_order(#[trigger] r@[m].name@, x.name@) <= 0,
                stop ==> k < r.len() && lex_order(r@[k as int].name@, x.name@) > 0,
            decreases r.len() - k + (if stop { 0int } else { 1int }),
        {
            if compare_chars(&chars_of(r[k].name.as_str()), &xn) > 0 {
                stop = true;
            } else {
                k = k + 1;
            }
        }
        let ghost old_r = r@;
        proof {
            assert forall|m: int| k <= m < old_r.len() implies lex_order(#[trigger] old_r[m].name@, x.name@) > 0 by {
                lemma_lex_antisym(old_r[k as int].name@, x.name@);
                lemma_lex_antisym(old_r[m].name@, x.name@);
                if m > k {
                    lemma_lex_antisym(old_r[k as int].name@, old_r[m].name@);
                    if lex_order(old_r[k as int].name@, old_r[m].name@) < 0 {
                        lemma_lex_trans(x.name@, old_r[k as int].name@, old_r[m].name@);
                    }
                }
            }
        }
        r.insert(k, x);
        proof {
            assert(orig.take(i + 1) =~= orig.take(i as int).push(x));
            lemma_insert_sorted(old_r, k as int, x, orig.take(i as int));
        }
        i = i + 1;
    }
    assert(orig.take(orig.len() as int) =~= orig);
    r
}

// ── Assigning files to components ───────────────────────────────────────

/// A component file pattern without its trailing slashes.
pub open spec fn pattern_of(raw: Seq<char>) -> Seq<char> {
    strip_end(raw, '/')
}

/// `f` is the path `pat` or lies under it.
pub open spec fn path_matches(f: Seq<char>, pat: Seq<char>) -> bool {
    f == pat || starts(f, pat.push('/'))
}

/// The pattern `raw` (not empty once its trailing slashes are gone) claims
/// the file `f`.
pub open spec fn pattern_claims(raw: Seq<char>, f: Seq<char>) -> bool {
    pattern_of(raw).len() > 0 && path_matches(f, pattern_of(raw))
}

pub open spec fn claims_upto(pats: Seq<String>, k: int, f: Seq<char>) -> bool {
    exists|p: int| 0 <= p < k && #[trigger] pattern_claims(pats[p]@, f)
}

/// Some pattern of the component spec `c` claims `f`.
pub open spec fn spec_claims(c: ComponentSpec, f: Seq<char>) -> bool {
    claims_upto(c.files@, c.files@.len() as int, f)
}

/// A spec before the `s`-th claims `f`.
pub open spec fn claimed_before(specs: Seq<ComponentSpec>, s: int, f: Seq<char>) -> bool {
    exists|t: int| 0 <= t < s && #[trigger] spec_claims(specs[t], f)
}

/// The files that the `s`-th spec owns: those it claims and no earlier
/// spec claims (the first matching spec wins).
pub open spec fn owned_files(specs: Seq<ComponentSpec>, files: Seq<Seq<char>>, s: int) -> Set<Seq<char>> {
    Set::new(|f: Seq<char>| files.contains(f) && spec_claims(specs[s], f) && !claimed_before(specs, s, f))
}

/// The files that no spec claims.
pub open spec fn unowned_files(specs: Seq<ComponentSpec>, files: Seq<Seq<char>>) -> Set<Seq<char>> {
    Set::new(|f: Seq<char>| files.contains(f) && !claimed_before(specs, specs.len() as int, f))
}

/// The index of the last spec before `upto` named `name`, or -1.
pub open spec fn last_named(specs: Seq<ComponentSpec>, name: Seq<char>, upto: int) -> int
    decreases upto,
{
    if upto <= 0 {
        -1
    } else if specs[upto - 1].name@ == name {
        upto - 1
    } else {
        last_named(specs, name, upto - 1)
    }
}

pub open spec fn has_core(specs: Seq<ComponentSpec>) -> bool {
    exists|s: int| 0 <= s < specs.len() && #[trigger] specs[s].name@ == "core"@
}

/// The files of the component of the `s`-th spec: those owned by the last
/// spec of that name, and for `core` the files no spec claims.
pub open spec fn component_files(specs: Seq<ComponentSpec>, files: Seq<Seq<char>>, s: int) -> Set<Seq<char>> {
    let t = last_named(specs, specs[s].name@, specs.len() as int);
    if specs[s].name@ == "core"@ && !unowned_files(specs, files).is_empty() {
        owned_files(specs, files, t).union(unowned_files(specs, files))
    } else {
        owned_files(specs, files, t)
    }
}

/// Whether any component before the adjustment is `required`.
pub open spec fn any_required(specs: Seq<ComponentSpec>, files: Seq<Seq<char>>) -> bool {
    (exists|s: int| 0 <= s < specs.len() && #[trigger] specs[s].priority@ == "required"@) || (!has_core(specs)
        && !unowned_files(specs, files).is_empty())
}

/// The component keys of the paths in `fs`.
pub open spec fn key_set(fs: Set<Seq<char>>) -> Set<Seq<Seq<char>>> {
    Set::new(|k: Seq<Seq<char>>| exists|f: Seq<char>| #[trigger] fs.contains(f) && path_key(f) == k)
}

/// The files of `c` are the paths `fs`, sorted as paths, one spelling per
/// path.
pub open spec fn lists_files(c: Component, fs: Set<Seq<char>>) -> bool {
    &&& paths_ascending(keys(c.files@))
    &&& keys(c.files@).to_set() == key_set(fs)
    &&& forall|i: int| 0 <= i < c.files@.len() ==> fs.contains(#[trigger] c.files@[i]@)
}

pub open spec fn component_is(
    c: Component,
    name: Seq<char>,
    priority: Seq<char>,
    fs: Set<Seq<char>>,
    description: Seq<char>,
) -> bool {
    &&& c.name@ == name
    &&& c.priority@ == priority
    &&& lists_files(c, fs)
    &&& c.dependencies@.len() == 0
    &&& c.description@ == description
}

/// The components before they are sorted: one per spec, in order, and
/// `core` last when no spec is named `core` and some file is unclaimed;
/// when none is `required`, the first becomes `required`.
pub open spec fn expected_components(pkg: Package, files: Seq<Seq<char>>, l: Seq<Component>) -> bool {
    let specs = pkg.components->Some_0@;
    let extra = !has_core(specs) && !unowned_files(specs, files).is_empty();
    &&& l.len() == specs.len() + if extra {
        1int
    } else {
        0int
    }
    &&& forall|s: int| 0 <= s < specs.len() ==> component_is(
        #[trigger] l[s],
        specs[s].name@,
        if s == 0 && !any_required(specs, files) {
            "required"@
        } else {
            specs[s].priority@
        },
        component_files(specs, files, s),
        specs[s].description@,
    )
    &&& extra ==> component_is(
        l[specs.len() as int],
        "core"@,
        "required"@,
        unowned_files(specs, files),
        "Core files for "@ + pkg.name@,
    )
}

proof fn lemma_keys_set(v: Seq<String>)
    ensures
        keys(v).to_set() == key_set(views(v).to_set()),
{
    assert forall|k: Seq<Seq<char>>| keys(v).to_set().contains(k) <==> key_set(views(v).to_set()).contains(k) by {
        if keys(v).contains(k) {
            let w = choose|w: int| 0 <= w < keys(v).len() && keys(v)[w] == k;
            assert(views(v)[w] == v[w]@);
            assert(views(v).to_set().contains(v[w]@));
        }
        if key_set(views(v).to_set()).contains(k) {
            let f = choose|f: Seq<char>| #[trigger] views(v).to_set().contains(f) && path_key(f) == k;
            let w = choose|w: int| 0 <= w < views(v).len() && views(v)[w] == f;
            assert(keys(v)[w] == k);
        }
    }
    assert(keys(v).to_set() =~= key_set(views(v).to_set()));
}

fn copy_strings(v: &Vec<String>) -> (r: Vec<String>)
    ensures
        views(r@) == views(v@),
{
    let mut r: Vec<String> = Vec::new();
    let mut i: usize = 0;
    while i < v.len()
        invariant
            i <= v.len(),
            views(r@) == views(v@).take(i as int),
        decreases v.len() - i,
    {
        let ghost before = views(r@);
        r.push(v[i].clone());
        assert(views(r@) =~= before.push(v@[i as int]@));
        assert(views(v@).take(i + 1) =~= views(v@).take(i as int).push(v@[i as int]@));
        i = i + 1;
    }
    assert(views(v@).take(v.len() as int) =~= views(v@));
    r
}

fn path_matches_exec(f: &Vec<char>, pat: &Vec<char>) -> (b: bool)
    ensures
        b == path_matches(f@, pat@),
{
    let mut p = pat.clone();
    assert(p@ == pat@);
    p.push('/');
    vec_eq(f, pat) || starts_with(f, &p)
}

fn listed(v: &Vec<String>, x: &String) -> (b: bool)
    ensures
        b == views(v@).contains(x@),
{
    let mut i: usize = 0;
    while i < v.len()
        invariant
            i <= v.len(),
            forall|k: int| 0 <= k < i ==> v@[k]@ != x@,
        decreases v.len() - i,
    {
        if str_eq(&v[i], x) {
            assert(views(v@)[i as int] == x@);
            return true;
        }
        i = i + 1;
    }
    assert forall|k: int| 0 <= k < views(v@).len() implies views(v@)[k] != x@ by {
        assert(views(v@)[k] == v@[k]@);
    }
    false
}

/// The files the `si`-th spec owns, given the files claimed before it;
/// `claimed` gains the files it claims.
#[verifier::rlimit(50)]
fn claim_files(
    specs: &Vec<ComponentSpec>,
    si: usize,
    pkg_files: &Vec<String>,
    claimed: &mut Vec<String>,
) -> (matched: Vec<String>)
    requires
        si < specs.len(),
        views(old(claimed)@).to_set() == Set::new(|f: Seq<char>| views(pkg_files@).contains(f) && claimed_before(specs@, si as int, f)),
    ensures
        views(final(claimed)@).to_set() == Set::new(|f: Seq<char>| views(pkg_files@).contains(f) && claimed_before(specs@, si + 1, f)),
        views(matched@).to_set() == owned_files(specs@, views(pkg_files@), si as int),
{
    let ghost fs = views(pkg_files@);
    let ghost sp = specs@;
    let pats = &specs[si].files;
    let mut matched: Vec<String> = Vec::new();
    let mut p: usize = 0;
    while p < pats.len()
        invariant
            si < specs.len(),
            sp == specs@,
            fs == views(pkg_files@),
            pats == specs@[si as int].files,
            p <= pats.len(),
            views(claimed@).to_set() == Set::new(|f: Seq<char>| fs.contains(f) && (claimed_before(sp, si as int, f) || claims_upto(pats@, p as int, f))),
            views(matched@).to_set() == Set::new(|f: Seq<char>| fs.contains(f) && !claimed_before(sp, si as int, f) && claims_upto(pats@, p as int, f)),
        decreases pats.len() - p,
    {
        let pat = trim_end_char(&chars_of(pats[p].as_str()), '/');
        let ghost raw = pats@[p as int]@;
        assert(pat@ == pattern_of(raw));
        let mut q: usize = 0;
        while q < pkg_files.len()
            invariant
                si < specs.len(),
                sp == specs@,
                fs == views(pkg_files@),
                pats == specs@[si as int].files,
                p < pats.len(),
                raw == pats@[p as int]@,
                pat@ == pattern_of(raw),
                q <= pkg_files.len(),
                views(claimed@).to_set() == Set::new(|f: Seq<char>| fs.contains(f) && (claimed_before(sp, si as int, f) || claims_upto(pats@, p as int, f) || (fs.take(q as int).contains(f) && pattern_claims(raw, f)))),
                views(matched@).to_set() == Set::new(|f: Seq<char>| fs.contains(f) && !claimed_before(sp, si as int, f) && (claims_upto(pats@, p as int, f) || (fs.take(q as int).contains(f) && pattern_claims(raw, f)))),
            decreases pkg_files.len() - q,
        {
            let f = &pkg_files[q];
            let ghost fv = f@;
            proof {
                assert(fs[q as int] == fv);
                assert forall|g: Seq<char>| fs.take(q + 1).contains(g) <==> (fs.take(q as int).contains(g) || g == fv) by {
                    crate::resolve::lemma_take_contains(fs, q as int, g);
                }
                assert(fs.contains(fv));
            }
            let ghost c0 = views(claimed@);
            let ghost m0 = views(matched@);
            let seen = listed(claimed, f);
            let hit = pat.len() > 0 && path_matches_exec(&chars_of(f.as_str()), &pat);
            assert(hit == pattern_claims(raw, fv));
            if hit && !seen {
                claimed.push(f.clone());
                matched.push(f.clone());
                proof {
                    assert(views(claimed@) =~= c0.push(fv));
                    assert(views(matched@) =~= m0.push(fv));
                    crate::order::lemma_push_to_set(c0, fv);
                    crate::order::lemma_push_to_set(m0, fv);
                    assert(pattern_claims(raw, fv));
                    assert(!c0.to_set().contains(fv));
                    assert(!claimed_before(sp, si as int, fv));
                    assert forall|g: Seq<char>| #[trigger] views(claimed@).to_set().contains(g) <==> (fs.contains(g) && (claimed_before(sp, si as int, g) || claims_upto(pats@, p as int, g) || (fs.take(q + 1).contains(g) && pattern_claims(raw, g)))) by {
                        assert(views(claimed@).to_set().contains(g) == (c0.to_set().contains(g) || g == fv));
                    }
                    assert forall|g: Seq<char>| #[trigger] views(matched@).to_set().contains(g) <==> (fs.contains(g) && !claimed_before(sp, si as int, g) && (claims_upto(pats@, p as int, g) || (fs.take(q + 1).contains(g) && pattern_claims(raw, g)))) by {
                        assert(views(matched@).to_set().contains(g) == (m0.to_set().contains(g) || g == fv));
                    }
                }
                assert(views(claimed@).to_set() =~= Set::new(|g: Seq<char>| fs.contains(g) && (claimed_before(sp, si as int, g) || claims_upto(pats@, p as int, g) || (fs.take(q + 1).contains(g) && pattern_claims(raw, g)))));
                assert(views(matched@).to_set() =~= Set::new(|g: Seq<char>| fs.contains(g) && !claimed_before(sp, si as int, g) && (claims_upto(pats@, p as int, g) || (fs.take(q + 1).contains(g) && pattern_claims(raw, g)))));
            } else {
                proof {
                    if hit {
                        assert(c0.contains(fv));
                        assert(c0.to_set().contains(fv));
                    }
                    assert(views(claimed@) == c0);
                    assert(views(matched@) == m0);
                    assert forall|g: Seq<char>| #[trigger] c0.to_set().contains(g) <==> (fs.contains(g) && (claimed_before(sp, si as int, g) || claims_upto(pats@, p as int, g) || (fs.take(q + 1).contains(g) && pattern_claims(raw, g)))) by {
                        if g == fv && hit {
                            assert(c0.to_set().contains(g));
                        }
                    }
                    assert forall|g: Seq<char>| #[trigger] m0.to_set().contains(g) <==> (fs.contains(g) && !claimed_before(sp, si as int, g) && (claims_upto(pats@, p as int, g) || (fs.take(q + 1).contains(g) && pattern_claims(raw, g)))) by {
                        if g == fv && hit {
                            assert(c0.to_set().contains(g));
                        }
                    }
                }
                assert(views(claimed@).to_set() =~= Set::new(|g: Seq<char>| fs.contains(g) && (claimed_before(sp, si as int, g) || claims_upto(pats@, p as int, g) || (fs.take(q + 1).contains(g) && pattern_claims(raw, g)))));
                assert(views(matched@).to_set() =~= Set::new(|g: Seq<char>| fs.contains(g) && !claimed_before(sp, si as int, g) && (claims_upto(pats@, p as int, g) || (fs.take(q + 1).contains(g) && pattern_claims(raw, g)))));
            }
            q = q + 1;
        }
        proof {
            assert(fs.take(pkg_files.len() as int) =~= fs);
            assert forall|g: Seq<char>| claims_upto(pats@, p + 1, g) <==> (claims_upto(pats@, p as int, g) || pattern_claims(raw, g)) by {
                if claims_upto(pats@, p + 1, g) {
                    let w = choose|w: int| 0 <= w < p + 1 && #[trigger] pattern_claims(pats@[w]@, g);
                }
                if pattern_claims(raw, g) {
                    assert(pattern_claims(pats@[p as int]@, g));
                }
            }
        }
        assert(views(claimed@).to_set() =~= Set::new(|g: Seq<char>| fs.contains(g) && (claimed_before(sp, si as int, g) || claims_upto(pats@, p + 1, g))));
        assert(views(matched@).to_set() =~= Set::new(|g: Seq<char>| fs.contains(g) && !claimed_before(sp, si as int, g) && claims_upto(pats@, p + 1, g)));
        p = p + 1;
    }
    proof {
        assert forall|g: Seq<char>| claimed_before(sp, si + 1, g) <==> (claimed_before(sp, si as int, g) || spec_claims(sp[si as int], g)) by {
            if claimed_before(sp, si + 1, g) {
                let t = choose|t: int| 0 <= t < si + 1 && #[trigger] spec_claims(sp[t], g);
            }
        }
    }
    assert(views(claimed@).to_set() =~= Set::new(|f: Seq<char>| fs.contains(f) && claimed_before(sp, si + 1, f)));
    assert(views(matched@).to_set() =~= owned_files(sp, fs, si as int));
    matched
}

fn core_description(name: &str) -> (r: String)
    ensures
        r@ == "Core files for "@ + name@,
{
    let mut d = lit("Core files for ");
    append(&mut d, &chars_of(name));
    string_of(&d)
}

proof fn lemma_concat_to_set(a: Seq<Seq<char>>, b: Seq<Seq<char>>)
    ensures
        (a + b).to_set() == a.to_set().union(b.to_set()),
{
    assert forall|e: Seq<char>| (a + b).to_set().contains(e) <==> a.to_set().union(b.to_set()).contains(e) by {
        if (a + b).contains(e) {
            let w = choose|w: int| 0 <= w < (a + b).len() && (a + b)[w] == e;
            if w < a.len() {
                assert(a[w] == e);
            } else {
                assert(b[w - a.len()] == e);
            }
        }
        if a.contains(e) {
            let w = choose|w: int| 0 <= w < a.len() && a[w] == e;
            assert((a + b)[w] == e);
        }
        if b.contains(e) {
            let w = choose|w: int| 0 <= w < b.len() && b[w] == e;
            assert((a + b)[w + a.len()] == e);
        }
    }
    assert((a + b).to_set() =~= a.to_set().union(b.to_set()));
}

/// A component listing the paths `fl`, sorted, one spelling per path.
fn make_component(name: String, priority: String, fl: Vec<String>, description: String) -> (c: Component)
    ensures
        component_is(c, name@, priority@, views(fl@).to_set(), description@),
{
    let files = sort_paths(fl);
    proof {
        lemma_keys_set(files@);
        lemma_keys_set(fl@);
        assert forall|i: int| 0 <= i < files@.len() implies views(fl@).to_set().contains(#[trigger] files@[i]@) by {
            assert(crate::paths::first_spelled(fl@, files@[i]@, fl@.len() as int));
            let j = choose|j: int| #![trigger crate::paths::first_spelling(fl@, j)] 0 <= j < fl@.len() && fl@[j]@ == files@[i]@ && crate::paths::first_spelling(fl@, j);
            assert(views(fl@)[j] == files@[i]@);
        }
    }
    let c = Component { name, priority, files, dependencies: Vec::new(), description };
    assert(c.dependencies@.len() == 0);
    c
}

/// Splits the files of a package into its components: each file goes to
/// the first component whose pattern names it or a directory above it
/// (trailing slashes aside, empty patterns ignored), files that none names
/// go to `core`, and the components come sorted by name, `core` last among
/// equals. Without declared components everything is `core`.
pub fn assign_components(pkg_files: &Vec<String>, pkg: &Package) -> (r: Vec<Component>)
    ensures
        (pkg.components is None || pkg.components->Some_0@.len() == 0) ==> {
            &&& r@.len() == 1
            &&& r@[0].name@ == "core"@
            &&& r@[0].priority@ == "required"@
            &&& views(r@[0].files@) == views(pkg_files@)
            &&& r@[0].dependencies@.len() == 0
            &&& r@[0].description@ == "Core files for "@ + pkg.name@
        },
        (pkg.components is Some && pkg.components->Some_0@.len() > 0) ==> exists|l: Seq<Component>|
            #[trigger] stably_sorted(r@, l) && expected_components(*pkg, views(pkg_files@), l),
{
    let specs = match &pkg.components {
        Some(s) if s.len() > 0 => s,
        _ => {
            let c = Component {
                name: own("core"),
                priority: own("required"),
                files: copy_strings(pkg_files),
                dependencies: Vec::new(),
                description: core_description(pkg.name.as_str()),
            };
            let r = vec![c];
            assert(r@[0] == c);
            return r;
        },
    };
    let ghost fs = views(pkg_files@);
    let ghost sp = specs@;
    let mut claimed: Vec<String> = Vec::new();
    let mut owned: Vec<Vec<String>> = Vec::new();
    proof {
        assert(views(claimed@).to_set() =~= Set::new(|f: Seq<char>| fs.contains(f) && claimed_before(sp, 0, f)));
    }
    let mut si: usize = 0;
    while si < specs.len()
        invariant
            si <= specs.len(),
            sp == specs@,
            fs == views(pkg_files@),
            owned.len() == si,
            views(claimed@).to_set() == Set::new(|f: Seq<char>| fs.contains(f) && claimed_before(sp, si as int, f)),
            forall|t: int| 0 <= t < si ==> #[trigger] views(owned@[t]@).to_set() == owned_files(sp, fs, t),
        decreases specs.len() - si,
    {
        let m = claim_files(specs, si, pkg_files, &mut claimed);
        owned.push(m);
        si = si + 1;
    }
    let mut rest: Vec<String> = Vec::new();
    let mut q: usize = 0;
    while q < pkg_files.len()
        invariant
            q <= pkg_files.len(),
            fs == views(pkg_files@),
            views(claimed@).to_set() == Set::new(|f: Seq<char>| fs.contains(f) && claimed_before(sp, sp.len() as int, f)),
            views(rest@).to_set() == Set::new(|f: Seq<char>| fs.take(q as int).contains(f) && !claimed_before(sp, sp.len() as int, f)),
        decreases pkg_files.len() - q,
    {
        let f = &pkg_files[q];
        let ghost r0 = views(rest@);
        proof {
            assert(fs[q as int] == f@);
            assert(fs.contains(f@));
            assert forall|g: Seq<char>| fs.take(q + 1).contains(g) <==> (fs.take(q as int).contains(g) || g == f@) by {
                crate::resolve::lemma_take_contains(fs, q as int, g);
            }
        }
        let seen = listed(&claimed, f);
        proof {
            assert(views(claimed@).contains(f@) == views(claimed@).to_set().contains(f@));
            assert(seen == claimed_before(sp, sp.len() as int, f@));
        }
        if !seen {
            rest.push(f.clone());
            proof {
                assert(views(rest@) =~= r0.push(f@));
                crate::order::lemma_push_to_set(r0, f@);
                assert forall|g: Seq<char>| #[trigger] views(rest@).to_set().contains(g) <==> (fs.take(q + 1).contains(g) && !claimed_before(sp, sp.len() as int, g)) by {
                    assert(views(rest@).to_set().contains(g) == (r0.to_set().contains(g) || g == f@));
                }
            }
        } else {
            proof {
                assert forall|g: Seq<char>| #[trigger] views(rest@).to_set().contains(g) <==> (fs.take(q + 1).contains(g) && !claimed_before(sp, sp.len() as int, g)) by {
                    assert(views(rest@) == r0);
                }
            }
        }
        assert(views(rest@).to_set() =~= Set::new(|g: Seq<char>| fs.take(q + 1).contains(g) && !claimed_before(sp, sp.len() as int, g)));
        q = q + 1;
    }
    assert(fs.take(pkg_files.len() as int) =~= fs);
    assert(views(rest@).to_set() =~= unowned_files(sp, fs));
    proof {
        if rest.len() > 0 {
            assert(views(rest@)[0] == rest@[0]@);
            assert(views(rest@).to_set().contains(rest@[0]@));
        } else {
            assert(views(rest@) =~= Seq::<Seq<char>>::empty());
        }
    }
    let some_unowned = rest.len() > 0;
    assert(some_unowned == !unowned_files(sp, fs).is_empty());
    // Is there a spec named `core`, and is any component `required`?
    let mut core_spec = false;
    let mut required = false;
    let mut k: usize = 0;
    while k < specs.len()
        invariant
            k <= specs.len(),
            sp == specs@,
            core_spec == exists|s: int| 0 <= s < k && #[trigger] sp[s].name@ == "core"@,
            required == exists|s: int| 0 <= s < k && #[trigger] sp[s].priority@ == "required"@,
        decreases specs.len() - k,
    {
        proof {
            reveal_strlit("core");
            reveal_strlit("required");
        }
        if vec_eq(&chars_of(specs[k].name.as_str()), &lit("core")) {
            core_spec = true;
        }
        if vec_eq(&chars_of(specs[k].priority.as_str()), &lit("required")) {
            required = true;
        }
        k = k + 1;
    }
    let extra = !core_spec && some_unowned;
    let any_req = required || extra;
    assert(core_spec == has_core(sp));
    assert(any_req == any_required(sp, fs));
    let mut l: Vec<Component> = Vec::new();
    let mut s: usize = 0;
    while s < specs.len()
        invariant
            s <= specs.len(),
            sp == specs@,
            fs == views(pkg_files@),
            owned.len() == specs.len(),
            forall|t: int| 0 <= t < specs.len() ==> #[trigger] views(owned@[t]@).to_set() == owned_files(sp, fs, t),
            views(rest@).to_set() == unowned_files(sp, fs),
            some_unowned == !unowned_files(sp, fs).is_empty(),
            any_req == any_required(sp, fs),
            l.len() == s,
            forall|j: int| 0 <= j < s ==> component_is(
                #[trigger] l@[j],
                sp[j].name@,
                if j == 0 && !any_required(sp, fs) {
                    "required"@
                } else {
                    sp[j].priority@
                },
                component_files(sp, fs, j),
                sp[j].description@,
            ),
        decreases specs.len() - s,
    {
        let name = &specs[s].name;
        // The last spec with this name.
        let mut t: usize = 0;
        let mut j: usize = 0;
        while j < specs.len()
            invariant
                j <= specs.len(),
                sp == specs@,
                s < specs.len(),
                name@ == sp[s as int].name@,
                t < specs.len(),
                j > s ==> t as int == last_named(sp, name@, j as int),
                j <= s ==> t as int <= s,
            decreases specs.len() - j,
        {
            if str_eq(&specs[j].name, name) {
                t = j;
            }
            proof {
                if j + 1 > s && j <= s {
                    assert(j == s);
                    assert(t == s);
                }
            }
            j = j + 1;
        }
        let mut fl = copy_strings(&owned[t]);
        let is_core = vec_eq(&chars_of(name.as_str()), &lit("core"));
        proof {
            reveal_strlit("core");
        }
        if is_core && some_unowned {
            let ghost before = views(fl@);
            let more = copy_strings(&rest);
            let mut i: usize = 0;
            while i < more.len()
                invariant
                    i <= more.len(),
                    views(fl@) == before + views(more@).take(i as int),
                decreases more.len() - i,
            {
                let ghost b0 = views(fl@);
                fl.push(more[i].clone());
                assert(views(fl@) =~= b0.push(more@[i as int]@));
                assert(views(more@).take(i + 1) =~= views(more@).take(i as int).push(more@[i as int]@));
                i = i + 1;
            }
            assert(views(more@).take(more.len() as int) =~= views(more@));
            proof {
                lemma_concat_to_set(before, views(more@));
            }
        }
        assert(views(fl@).to_set() == component_files(sp, fs, s as int));
        let priority = if s == 0 && !any_req {
            own("required")
        } else {
            specs[s].priority.clone()
        };
        let c = make_component(name.clone(), priority, fl, specs[s].description.clone());
        l.push(c);
        proof {
            assert forall|jj: int| 0 <= jj < s + 1 implies component_is(
                #[trigger] l@[jj],
                sp[jj].name@,
                if jj == 0 && !any_required(sp, fs) {
                    "required"@
                } else {
                    sp[jj].priority@
                },
                component_files(sp, fs, jj),
                sp[jj].description@,
            ) by {
                if jj == s {
                    assert(l@[jj] == c);
                }
            }
        }
        s = s + 1;
    }
    if extra {
        let c = make_component(own("core"), own("required"), copy_strings(&rest), core_description(pkg.name.as_str()));
        let ghost l0 = l@;
        l.push(c);
        proof {
            assert(l@[sp.len() as int] == c);
            assert forall|jj: int| 0 <= jj < sp.len() implies component_is(
                #[trigger] l@[jj],
                sp[jj].name@,
                if jj == 0 && !any_required(sp, fs) {
                    "required"@
                } else {
                    sp[jj].priority@
                },
                component_files(sp, fs, jj),
                sp[jj].description@,
            ) by {
                assert(l@[jj] == l0[jj]);
            }
        }
    }
    assert(expected_components(*pkg, fs, l@));
    let r = sort_components(l);
    assert(stably_sorted(r@, l@));
    r
}

/// The first spec to claim a file wins: no file is owned by two specs, nor
/// owned and unclaimed at once.
pub proof fn law_components_disjoint(specs: Seq<ComponentSpec>, files: Seq<Seq<char>>, f: Seq<char>, s: int, t: int)
    requires
        0 <= s < t < specs.len(),
    ensures
        !(owned_files(specs, files, s).contains(f) && owned_files(specs, files, t).contains(f)),
        !(owned_files(specs, files, s).contains(f) && unowned_files(specs, files).contains(f)),
{
    if owned_files(specs, files, s).contains(f) {
        assert(spec_claims(specs[s], f));
        assert(claimed_before(specs, t, f));
        assert(claimed_before(specs, specs.len() as int, f));
    }
}

proof fn lemma_first_claim(specs: Seq<ComponentSpec>, f: Seq<char>, n: int)
    requires
        0 <= n <= specs.len(),
        claimed_before(specs, n, f),
    ensures
        exists|s: int| 0 <= s < n && spec_claims(specs[s], f) && !claimed_before(specs, s, f),
    decreases n,
{
    if claimed_before(specs, n - 1, f) {
        lemma_first_claim(specs, f, n - 1);
        let s = choose|s: int| 0 <= s < n - 1 && spec_claims(specs[s], f) && !claimed_before(specs, s, f);
        assert(0 <= s < n && spec_claims(specs[s], f) && !claimed_before(specs, s, f));
    } else {
        let t = choose|t: int| 0 <= t < n && #[trigger] spec_claims(specs[t], f);
        if t < n - 1 {
            assert(claimed_before(specs, n - 1, f));
        }
        assert(spec_claims(specs[n - 1], f) && !claimed_before(specs, n - 1, f));
    }
}

/// Every file of a package is owned by some spec or left unclaimed.
pub proof fn law_components_cover(specs: Seq<ComponentSpec>, files: Seq<Seq<char>>, f: Seq<char>)
    requires
        files.contains(f),
    ensures
        unowned_files(specs, files).contains(f) || exists|s: int| 0 <= s < specs.len() && #[trigger] owned_files(specs, files, s).contains(f),
{
    if claimed_before(specs, specs.len() as int, f) {
        lemma_first_claim(specs, f, specs.len() as int);
        let s = choose|s: int| 0 <= s < specs.len() && spec_claims(specs[s], f) && !claimed_before(specs, s, f);
        assert(owned_files(specs, files, s).contains(f));
    }
}

/// Each file of a package has exactly one home: the first spec, in order,
/// with a pattern that claims it; or, when no spec claims it, the
/// unclaimed files that go to `core`.
pub proof fn law_components_home(specs: Seq<ComponentSpec>, files: Seq<Seq<char>>, f: Seq<char>)
    requires
        files.contains(f),
    ensures
        claimed_before(specs, specs.len() as int, f) ==> exists|s: int|
            0 <= s < specs.len() && #[trigger] spec_claims(specs[s], f) && !claimed_before(specs, s, f)
                && !unowned_files(specs, files).contains(f) && forall|t: int|
                0 <= t < specs.len() ==> (#[trigger] owned_files(specs, files, t).contains(f) <==> t == s),
        !claimed_before(specs, specs.len() as int, f) ==> unowned_files(specs, files).contains(f) && forall|t: int|
            0 <= t < specs.len() ==> !#[trigger] owned_files(specs, files, t).contains(f),
{
    if claimed_before(specs, specs.len() as int, f) {
        lemma_first_claim(specs, f, specs.len() as int);
        let s = choose|s: int| 0 <= s < specs.len() && spec_claims(specs[s], f) && !claimed_before(specs, s, f);
        assert forall|t: int| 0 <= t < specs.len() implies (#[trigger] owned_files(specs, files, t).contains(f) <==> t == s) by {
            if t < s {
                if spec_claims(specs[t], f) {
                    assert(claimed_before(specs, s, f));
                }
            } else if t > s {
                assert(claimed_before(specs, t, f));
            }
        }
        assert(!unowned_files(specs, files).contains(f));
    } else {
        assert forall|t: int| 0 <= t < specs.len() implies !#[trigger] owned_files(specs, files, t).contains(f) by {
            if spec_claims(specs[t], f) {
                assert(claimed_before(specs, specs.len() as int, f));
            }
        }
    }
}

// ── The assignment as a whole ───────────────────────────────────────────

proof fn lemma_push_contains(s: Seq<Component>, y: Component, x: Component)
    ensures
        s.push(y).contains(x) <==> (s.contains(x) || x == y),
{
    let t = s.push(y);
    if t.contains(x) {
        let w = choose|w: int| 0 <= w < t.len() && t[w] == x;
        if w < s.len() {
            assert(s[w] == x);
        }
    }
    if s.contains(x) {
        let w = choose|w: int| 0 <= w < s.len() && s[w] == x;
        assert(t[w] == x);
    }
    if x == y {
        assert(t[s.len() as int] == x);
    }
}

proof fn lemma_named_contains(s: Seq<Component>, n: Seq<char>, x: Component)
    ensures
        named(s, n).contains(x) <==> (s.contains(x) && x.name@ == n),
    decreases s.len(),
{
    if s.len() == 0 {
        assert(named(s, n) =~= Seq::<Component>::empty());
    } else {
        let d = s.drop_last();
        let y = s.last();
        lemma_named_contains(d, n, x);
        assert(s =~= d.push(y));
        lemma_push_contains(d, y, x);
        lemma_push_contains(named(d, n), y, x);
    }
}

proof fn lemma_named_two(s: Seq<Component>, n: Seq<char>, i: int, j: int)
    requires
        0 <= i < j < s.len(),
        s[i].name@ == n,
        s[j].name@ == n,
    ensures
        named(s, n).len() >= 2,
    decreases s.len(),
{
    if j == s.len() - 1 {
        assert(s.drop_last()[i] == s[i]);
        lemma_named_contains(s.drop_last(), n, s[i]);
    } else {
        assert(s.drop_last()[i] == s[i] && s.drop_last()[j] == s[j]);
        lemma_named_two(s.drop_last(), n, i, j);
    }
}

proof fn lemma_named_one(s: Seq<Component>, n: Seq<char>)
    requires
        forall|i: int, j: int| 0 <= i < j < s.len() ==> #[trigger] s[i].name@ != #[trigger] s[j].name@,
    ensures
        named(s, n).len() <= 1,
    decreases s.len(),
{
    if s.len() > 0 {
        let d = s.drop_last();
        if s.last().name@ == n {
            assert forall|m: int| 0 <= m < d.len() implies #[trigger] d[m].name@ != n by {
                assert(s[m] == d[m]);
                assert(s[m].name@ != s[s.len() - 1].name@);
            }
            lemma_named_none(d, n);
        } else {
            assert forall|a: int, b: int| 0 <= a < b < d.len() implies #[trigger] d[a].name@ != #[trigger] d[b].name@ by {
                assert(s[a] == d[a] && s[b] == d[b]);
            }
            lemma_named_one(d, n);
        }
    }
}

/// A stable sort by name keeps the components and, when their names are
/// distinct, keeps them distinct.
proof fn lemma_sorted_same_components(r: Seq<Component>, l: Seq<Component>)
    requires
        stably_sorted(r, l),
        forall|i: int, j: int| 0 <= i < j < l.len() ==> #[trigger] l[i].name@ != #[trigger] l[j].name@,
    ensures
        forall|k: int| 0 <= k < r.len() ==> l.contains(#[trigger] r[k]),
        forall|t: int| 0 <= t < l.len() ==> r.contains(#[trigger] l[t]),
        forall|i: int, j: int| 0 <= i < j < r.len() ==> #[trigger] r[i].name@ != #[trigger] r[j].name@,
{
    assert forall|k: int| 0 <= k < r.len() implies l.contains(#[trigger] r[k]) by {
        let n = r[k].name@;
        lemma_named_contains(r, n, r[k]);
        assert(named(r, n) == named(l, n));
        lemma_named_contains(l, n, r[k]);
    }
    assert forall|t: int| 0 <= t < l.len() implies r.contains(#[trigger] l[t]) by {
        let n = l[t].name@;
        lemma_named_contains(l, n, l[t]);
        assert(named(r, n) == named(l, n));
        lemma_named_contains(r, n, l[t]);
    }
    assert forall|i: int, j: int| 0 <= i < j < r.len() implies #[trigger] r[i].name@ != #[trigger] r[j].name@ by {
        if r[i].name@ == r[j].name@ {
            let n = r[i].name@;
            lemma_named_two(r, n, i, j);
            assert(named(r, n) == named(l, n));
            lemma_named_one(l, n);
        }
    }
}

/// The component `c` lists the path `f`, in one of its spellings.
pub open spec fn holds(c: Component, f: Seq<char>) -> bool {
    keys(c.files@).contains(path_key(f))
}

/// The name of the component a file goes to: that of the first spec with a
/// pattern that claims it, else `core`.
pub open spec fn home_name(specs: Seq<ComponentSpec>, f: Seq<char>) -> Seq<char> {
    if claimed_before(specs, specs.len() as int, f) {
        specs[choose|s: int| 0 <= s < specs.len() && spec_claims(specs[s], f) && !claimed_before(specs, s, f)].name@
    } else {
        "core"@
    }
}

/// No two specs share a name.
pub open spec fn distinct_spec_names(specs: Seq<ComponentSpec>) -> bool {
    forall|i: int, j: int| 0 <= i < j < specs.len() ==> #[trigger] specs[i].name@ != #[trigger] specs[j].name@
}

/// No two files are spellings of one path.
pub open spec fn distinct_paths(files: Seq<Seq<char>>) -> bool {
    forall|i: int, j: int| 0 <= i < j < files.len() ==> path_key(#[trigger] files[i]) != path_key(#[trigger] files[j])
}

/// The files the `t`-th component of `expected_components` lists.
spec fn listed_files(specs: Seq<ComponentSpec>, files: Seq<Seq<char>>, t: int) -> Set<Seq<char>> {
    if t < specs.len() {
        component_files(specs, files, t)
    } else {
        unowned_files(specs, files)
    }
}

proof fn lemma_last_named(specs: Seq<ComponentSpec>, s: int, upto: int)
    requires
        distinct_spec_names(specs),
        0 <= s < upto <= specs.len(),
    ensures
        last_named(specs, specs[s].name@, upto) == s,
    decreases upto,
{
    if upto - 1 != s {
        assert(specs[upto - 1].name@ != specs[s].name@);
        lemma_last_named(specs, s, upto - 1);
    }
}

proof fn lemma_holds(c: Component, fs: Set<Seq<char>>, files: Seq<Seq<char>>, f: Seq<char>)
    requires
        lists_files(c, fs),
        forall|g: Seq<char>| #[trigger] fs.contains(g) ==> files.contains(g),
        distinct_paths(files),
        files.contains(f),
    ensures
        holds(c, f) <==> fs.contains(f),
{
    let k = path_key(f);
    if holds(c, f) {
        assert(keys(c.files@).to_set().contains(k));
        assert(key_set(fs).contains(k));
        let g = choose|g: Seq<char>| #[trigger] fs.contains(g) && path_key(g) == k;
        let a = choose|a: int| 0 <= a < files.len() && files[a] == g;
        let b = choose|b: int| 0 <= b < files.len() && files[b] == f;
        if a < b {
            assert(path_key(files[a]) != path_key(files[b]));
        } else if b < a {
            assert(path_key(files[b]) != path_key(files[a]));
        }
    }
    if fs.contains(f) {
        assert(key_set(fs).contains(k));
        assert(keys(c.files@).to_set().contains(k));
    }
}

proof fn lemma_expected_facts(pkg: Package, files: Seq<Seq<char>>, l: Seq<Component>)
    requires
        pkg.components is Some,
        pkg.components->Some_0@.len() > 0,
        distinct_spec_names(pkg.components->Some_0@),
        expected_components(pkg, files, l),
    ensures
        forall|t: int| 0 <= t < l.len() ==> lists_files(#[trigger] l[t], listed_files(pkg.components->Some_0@, files, t)),
        forall|t: int, g: Seq<char>|
            0 <= t < l.len() && #[trigger] listed_files(pkg.components->Some_0@, files, t).contains(g) ==> files.contains(g),
        forall|t: int|
            0 <= t < l.len() ==> (#[trigger] l[t]).name@ == if t < pkg.components->Some_0@.len() {
                pkg.components->Some_0@[t].name@
            } else {
                "core"@
            },
        forall|i: int, j: int| 0 <= i < j < l.len() ==> #[trigger] l[i].name@ != #[trigger] l[j].name@,
        exists|t: int| 0 <= t < l.len() && (#[trigger] l[t]).priority@ == "required"@,
{
    let specs = pkg.components->Some_0@;
    let n = specs.len() as int;
    let extra = !has_core(specs) && !unowned_files(specs, files).is_empty();
    assert forall|t: int| 0 <= t < l.len() implies lists_files(#[trigger] l[t], listed_files(specs, files, t)) by {
        if t < n {
            assert(component_is(l[t], specs[t].name@, if t == 0 && !any_required(specs, files) {
                "required"@
            } else {
                specs[t].priority@
            }, component_files(specs, files, t), specs[t].description@));
        }
    }
    assert forall|t: int, g: Seq<char>|
        0 <= t < l.len() && #[trigger] listed_files(specs, files, t).contains(g) implies files.contains(g) by {
    }
    assert forall|t: int|
        0 <= t < l.len() implies (#[trigger] l[t]).name@ == if t < n {
            specs[t].name@
        } else {
            "core"@
        } by {
        if t < n {
            assert(component_is(l[t], specs[t].name@, if t == 0 && !any_required(specs, files) {
                "required"@
            } else {
                specs[t].priority@
            }, component_files(specs, files, t), specs[t].description@));
        }
    }
    assert forall|i: int, j: int| 0 <= i < j < l.len() implies #[trigger] l[i].name@ != #[trigger] l[j].name@ by {
        if j >= n {
            assert(extra);
            assert(!has_core(specs));
            assert(specs[i].name@ != "core"@);
        }
    }
    if !any_required(specs, files) {
        assert(l[0].priority@ == "required"@);
    } else if exists|s: int| 0 <= s < n && #[trigger] specs[s].priority@ == "required"@ {
        let s = choose|s: int| 0 <= s < n && #[trigger] specs[s].priority@ == "required"@;
        assert(l[s].priority@ == "required"@);
    } else {
        assert(extra);
        assert(l[n].priority@ == "required"@);
    }
}

proof fn lemma_expected_home(pkg: Package, files: Seq<Seq<char>>, l: Seq<Component>, f: Seq<char>)
    requires
        pkg.components is Some,
        pkg.components->Some_0@.len() > 0,
        distinct_spec_names(pkg.components->Some_0@),
        distinct_paths(files),
        expected_components(pkg, files, l),
        files.contains(f),
    ensures
        exists|t: int|
            0 <= t < l.len() && (#[trigger] l[t]).name@ == home_name(pkg.components->Some_0@, f) && forall|t2: int|
                0 <= t2 < l.len() ==> (holds(#[trigger] l[t2], f) <==> t2 == t),
{
    let specs = pkg.components->Some_0@;
    let n = specs.len() as int;
    let un = unowned_files(specs, files);
    lemma_expected_facts(pkg, files, l);
    law_components_home(specs, files, f);
    assert forall|t2: int| 0 <= t2 < l.len() implies (holds(#[trigger] l[t2], f) <==> listed_files(specs, files, t2).contains(f)) by {
        lemma_holds(l[t2], listed_files(specs, files, t2), files, f);
    }
    assert forall|t2: int| 0 <= t2 < n implies #[trigger] component_files(specs, files, t2) == if specs[t2].name@ == "core"@ && !un.is_empty() {
        owned_files(specs, files, t2).union(un)
    } else {
        owned_files(specs, files, t2)
    } by {
        lemma_last_named(specs, t2, n);
    }
    if claimed_before(specs, n, f) {
        let s0 = choose|s: int| 0 <= s < n && spec_claims(specs[s], f) && !claimed_before(specs, s, f);
        assert(owned_files(specs, files, s0).contains(f));
        assert(!un.contains(f));
        assert(l[s0].name@ == specs[s0].name@);
        assert forall|t2: int| 0 <= t2 < l.len() implies (holds(#[trigger] l[t2], f) <==> t2 == s0) by {
            if t2 < n {
                assert(owned_files(specs, files, t2).contains(f) <==> t2 == s0);
            }
        }
    } else {
        assert(un.contains(f));
        if has_core(specs) {
            let c = choose|s: int| 0 <= s < n && #[trigger] specs[s].name@ == "core"@;
            assert(l.len() == n);
            assert(component_files(specs, files, c).contains(f));
            assert forall|t2: int| 0 <= t2 < l.len() implies (holds(#[trigger] l[t2], f) <==> t2 == c) by {
                if t2 != c {
                    if t2 < c {
                        assert(specs[t2].name@ != specs[c].name@);
                    } else {
                        assert(specs[c].name@ != specs[t2].name@);
                    }
                    assert(!owned_files(specs, files, t2).contains(f));
                }
            }
            assert(l[c].name@ == "core"@);
        } else {
            assert(l.len() == n + 1);
            assert forall|t2: int| 0 <= t2 < l.len() implies (holds(#[trigger] l[t2], f) <==> t2 == n) by {
                if t2 < n {
                    assert(specs[t2].name@ != "core"@);
                    assert(!owned_files(specs, files, t2).contains(f));
                }
            }
            assert(l[n].name@ == "core"@);
        }
    }
}

/// Component assignment as a whole: when the specs have distinct names and
/// no two package files are spellings of one path, the components that
/// `assign_components` returns are sorted strictly by name, one for each
/// spec; each lists its paths sorted, from the package's files; every file
/// of the package is listed by exactly one component, the one named after
/// the first spec with a pattern that claims it, else `core`; and some
/// component is `required`.
pub proof fn law_assign_components(pkg: Package, files: Seq<Seq<char>>, r: Seq<Component>)
    requires
        pkg.components is Some,
        pkg.components->Some_0@.len() > 0,
        distinct_spec_names(pkg.components->Some_0@),
        distinct_paths(files),
        exists|l: Seq<Component>| #[trigger] stably_sorted(r, l) && expected_components(pkg, files, l),
    ensures
        forall|i: int, j: int| 0 <= i < j < r.len() ==> lex_order(#[trigger] r[i].name@, #[trigger] r[j].name@) < 0,
        forall|s: int|
            0 <= s < pkg.components->Some_0@.len() ==> exists|k: int|
                0 <= k < r.len() && (#[trigger] r[k]).name@ == (#[trigger] pkg.components->Some_0@[s]).name@,
        forall|k: int| 0 <= k < r.len() ==> paths_ascending(keys((#[trigger] r[k]).files@)),
        forall|k: int, i: int|
            0 <= k < r.len() && 0 <= i < r[k].files@.len() ==> files.contains((#[trigger] r[k].files@[i])@),
        forall|f: Seq<char>|
            #[trigger] files.contains(f) ==> exists|k: int|
                0 <= k < r.len() && (#[trigger] r[k]).name@ == home_name(pkg.components->Some_0@, f) && forall|k2: int|
                    0 <= k2 < r.len() ==> (holds(#[trigger] r[k2], f) <==> k2 == k),
        exists|k: int| 0 <= k < r.len() && (#[trigger] r[k]).priority@ == "required"@,
{
    let specs = pkg.components->Some_0@;
    let l = choose|l: Seq<Component>| #[trigger] stably_sorted(r, l) && expected_components(pkg, files, l);
    lemma_expected_facts(pkg, files, l);
    lemma_sorted_same_components(r, l);
    assert forall|i: int, j: int| 0 <= i < j < r.len() implies lex_order(#[trigger] r[i].name@, #[trigger] r[j].name@) < 0 by {
        lemma_lex_antisym(r[i].name@, r[j].name@);
    }
    assert forall|s: int| 0 <= s < specs.len() implies exists|k: int|
        0 <= k < r.len() && (#[trigger] r[k]).name@ == (#[trigger] specs[s]).name@ by {
        assert(r.contains(l[s]));
        let k = choose|k: int| 0 <= k < r.len() && r[k] == l[s];
        assert(r[k].name@ == specs[s].name@);
    }
    assert forall|k: int| 0 <= k < r.len() implies paths_ascending(keys((#[trigger] r[k]).files@)) by {
        let t = choose|t: int| 0 <= t < l.len() && l[t] == r[k];
        assert(lists_files(l[t], listed_files(specs, files, t)));
    }
    assert forall|k: int, i: int| 0 <= k < r.len() && 0 <= i < r[k].files@.len() implies files.contains(
        (#[trigger] r[k].files@[i])@,
    ) by {
        let t = choose|t: int| 0 <= t < l.len() && l[t] == r[k];
        assert(lists_files(l[t], listed_files(specs, files, t)));
        assert(listed_files(specs, files, t).contains(l[t].files@[i]@));
    }
    assert forall|f: Seq<char>| #[trigger] files.contains(f) implies exists|k: int|
        0 <= k < r.len() && (#[trigger] r[k]).name@ == home_name(specs, f) && forall|k2: int|
            0 <= k2 < r.len() ==> (holds(#[trigger] r[k2], f) <==> k2 == k) by {
        lemma_expected_home(pkg, files, l, f);
        let t = choose|t: int|
            0 <= t < l.len() && (#[trigger] l[t]).name@ == home_name(specs, f) && forall|t2: int|
                0 <= t2 < l.len() ==> (holds(#[trigger] l[t2], f) <==> t2 == t);
        assert(r.contains(l[t]));
        let k = choose|k: int| 0 <= k < r.len() && r[k] == l[t];
        assert(holds(l[t], f));
        assert forall|k2: int| 0 <= k2 < r.len() implies (holds(#[trigger] r[k2], f) <==> k2 == k) by {
            if holds(r[k2], f) {
                let t2 = choose|t2: int| 0 <= t2 < l.len() && l[t2] == r[k2];
                assert(holds(l[t2], f));
                assert(t2 == t);
                if k2 < k {
                    assert(r[k2].name@ != r[k].name@);
                } else if k < k2 {
                    assert(r[k].name@ != r[k2].name@);
                }
            }
        }
    }
    let t = choose|t: int| 0 <= t < l.len() && (#[trigger] l[t]).priority@ == "required"@;
    assert(r.contains(l[t]));
    let k = choose|k: int| 0 <= k < r.len() && r[k] == l[t];
    assert(r[k].priority@ == "required"@);
}

/// A pattern claims a path only at a `/` boundary: the pattern (without its
/// trailing slashes, and not empty) claims exactly itself and the paths
/// that continue it with `/`; so `usr/lib` claims `usr/lib/x` but never
/// `usr/libexec/x`.
pub proof fn law_pattern_claims_at_boundary(raw: Seq<char>, f: Seq<char>)
    ensures
        pattern_claims(raw, f) <==> ({
            let p = pattern_of(raw);
            &&& p.len() > 0
            &&& (f == p || (f.len() > p.len() && f.take(p.len() as int) == p && f[p.len() as int] == '/'))
        }),
{
    let p = pattern_of(raw);
    let q = p.push('/');
    if f.len() > p.len() && f.take(p.len() as int) == p && f[p.len() as int] == '/' {
        assert(f.take(q.len() as int) =~= q);
    }
    if starts(f, q) {
        assert(f.take(q.len() as int)[p.len() as int] == '/');
        assert(f.take(p.len() as int) =~= q.take(p.len() as int));
        assert(q.take(p.len() as int) =~= p);
    }
}

} // verus!
