use vstd::prelude::*;
use crate::order::{lemma_lex_antisym, lemma_lex_trans, views};
use crate::text::{chars_of, compare_chars, lex_order, lit, slice_vec};

verus! {

// ── Relative paths as `std::path::Path` compares them ───────────────────

/// The index of the first `/` of `s` at or after `i`, or `s.len()`.
pub open spec fn seg_end(s: Seq<char>, i: int) -> int
    decreases s.len() - i,
{
    if i >= s.len() {
        s.len() as int
    } else if s[i] == '/' {
        i
    } else {
        seg_end(s, i + 1)
    }
}

/// The key of one segment: `..` and a normal name; `.` and empty segments
/// are not components.
pub open spec fn segment_parts(seg: Seq<char>) -> Seq<Seq<char>> {
    if seg.len() == 0 || seg == "."@ {
        Seq::empty()
    } else if seg == ".."@ {
        seq!["2"@]
    } else {
        seq![seq!['3'] + seg]
    }
}

pub open spec fn parts_from(s: Seq<char>, i: int) -> Seq<Seq<char>>
    decreases s.len() - i,
{
    if i < 0 || i >= s.len() {
        Seq::empty()
    } else {
        let e = seg_end(s, i);
        if e < i || e > s.len() {
            Seq::empty()
        } else if e == s.len() {
            segment_parts(s.subrange(i, e))
        } else {
            segment_parts(s.subrange(i, e)) + parts_from(s, e + 1)
        }
    }
}

/// The components of a path, each as a key whose code-point order is the
/// order of `std::path::Component`: the root `0`, `.` at the start `1`,
/// `..` `2`, and a name `3` followed by the name.
pub open spec fn path_key(s: Seq<char>) -> Seq<Seq<char>> {
    if s.len() > 0 && s[0] == '/' {
        seq!["0"@] + parts_from(s, 1)
    } else if s.len() > 0 && s[0] == '.' && (s.len() == 1 || s[1] == '/') {
        seq!["1"@] + parts_from(s, 2)
    } else {
        parts_from(s, 0)
    }
}

/// The order of `std::path::Path`: component by component.
pub open spec fn key_order(a: Seq<Seq<char>>, b: Seq<Seq<char>>) -> int
    decreases a.len(),
{
    if a.len() == 0 {
        if b.len() == 0 {
            0
        } else {
            -1
        }
    } else if b.len() == 0 {
        1
    } else if lex_order(a[0], b[0]) != 0 {
        lex_order(a[0], b[0])
    } else {
        key_order(a.drop_first(), b.drop_first())
    }
}

pub proof fn lemma_key_antisym(a: Seq<Seq<char>>, b: Seq<Seq<char>>)
    ensures
        key_order(a, b) == -key_order(b, a),
        key_order(a, b) == 0 <==> a == b,
        -1 <= key_order(a, b) <= 1,
    decreases a.len(),
{
    if a.len() > 0 && b.len() > 0 {
        lemma_lex_antisym(a[0], b[0]);
        if lex_order(a[0], b[0]) == 0 {
            lemma_key_antisym(a.drop_first(), b.drop_first());
            if a.drop_first() == b.drop_first() {
                assert(a =~= seq![a[0]] + a.drop_first());
                assert(b =~= seq![b[0]] + b.drop_first());
            }
        }
    } else if a.len() == 0 && b.len() == 0 {
        assert(a =~= b);
    }
}

pub proof fn lemma_key_trans(a: Seq<Seq<char>>, b: Seq<Seq<char>>, c: Seq<Seq<char>>)
    requires
        key_order(a, b) < 0,
        key_order(b, c) < 0,
    ensures
        key_order(a, c) < 0,
    decreases a.len(),
{
    if a.len() > 0 && b.len() > 0 && c.len() > 0 {
        lemma_lex_antisym(a[0], b[0]);
        lemma_lex_antisym(b[0], c[0]);
        lemma_lex_antisym(a[0], c[0]);
        if lex_order(a[0], b[0]) < 0 && lex_order(b[0], c[0]) < 0 {
            lemma_lex_trans(a[0], b[0], c[0]);
        } else if lex_order(a[0], b[0]) == 0 && lex_order(b[0], c[0]) == 0 {
            lemma_key_trans(a.drop_first(), b.drop_first(), c.drop_first());
        }
    }
}

fn segment_end(s: &Vec<char>, i: usize) -> (e: usize)
    requires
        i <= s.len(),
    ensures
        e as int == seg_end(s@, i as int),
        i <= e <= s.len(),
{
    let mut e = i;
    while e < s.len() && s[e] != '/'
        invariant
            i <= e <= s.len(),
            seg_end(s@, i as int) == seg_end(s@, e as int),
        decreases s.len() - e,
    {
        e = e + 1;
    }
    e
}

proof fn lemma_seg_end_bounds(s: Seq<char>, i: int)
    requires
        0 <= i,
    ensures
        i <= s.len() ==> i <= seg_end(s, i) <= s.len(),
    decreases s.len() - i,
{
    if i < s.len() && s[i] != '/' {
        lemma_seg_end_bounds(s, i + 1);
    }
}

fn push_segment(out: &mut Vec<Vec<char>>, seg: Vec<char>)
    ensures
        final(out)@.len() >= old(out)@.len(),
        crate::text::vviews(final(out)@) == crate::text::vviews(old(out)@) + segment_parts(seg@),
{
    let ghost before = crate::text::vviews(out@);
    proof {
        reveal_strlit(".");
        reveal_strlit("..");
        reveal_strlit("2");
    }
    if seg.len() == 0 || crate::text::vec_eq(&seg, &lit(".")) {
        assert(crate::text::vviews(out@) =~= before + Seq::<Seq<char>>::empty());
    } else if crate::text::vec_eq(&seg, &lit("..")) {
        out.push(lit("2"));
        assert(crate::text::vviews(out@) =~= before + seq!["2"@]);
    } else {
        let mut k: Vec<char> = Vec::new();
        k.push('3');
        crate::text::append(&mut k, &seg);
        assert(k@ =~= seq!['3'] + seg@);
        out.push(k);
        assert(crate::text::vviews(out@) =~= before + seq![seq!['3'] + seg@]);
    }
}

/// The component keys of the path `s`.
pub fn path_key_of(s: &str) -> (r: Vec<Vec<char>>)
    ensures
        crate::text::vviews(r@) == path_key(s@),
{
    let v = chars_of(s);
    let mut out: Vec<Vec<char>> = Vec::new();
    let mut i: usize;
    proof {
        reveal_strlit("0");
        reveal_strlit("1");
    }
    if v.len() > 0 && v[0] == '/' {
        out.push(lit("0"));
        i = 1;
    } else if v.len() > 0 && v[0] == '.' && (v.len() == 1 || v[1] == '/') {
        out.push(lit("1"));
        i = if v.len() == 1 { 1 } else { 2 };
    } else {
        i = 0;
    }
    let ghost head = crate::text::vviews(out@);
    assert(path_key(v@) == head + parts_from(v@, i as int));
    while i < v.len()
        invariant
            i <= v.len(),
            path_key(v@) == crate::text::vviews(out@) + parts_from(v@, i as int),
        decreases v.len() - i,
    {
        let e = segment_end(&v, i);
        let seg = slice_vec(&v, i, e);
        let ghost prev = crate::text::vviews(out@);
        push_segment(&mut out, seg);
        proof {
            if e < v.len() {
                assert(parts_from(v@, i as int) == segment_parts(v@.subrange(i as int, e as int)) + parts_from(v@, e + 1));
                assert(prev + parts_from(v@, i as int) =~= crate::text::vviews(out@) + parts_from(v@, e + 1));
            } else {
                assert(parts_from(v@, i as int) == segment_parts(v@.subrange(i as int, e as int)));
                assert(parts_from(v@, e as int) =~= Seq::<Seq<char>>::empty());
                assert(prev + parts_from(v@, i as int) =~= crate::text::vviews(out@) + parts_from(v@, e as int));
            }
        }
        i = if e < v.len() { e + 1 } else { e };
    }
    assert(parts_from(v@, i as int) =~= Seq::<Seq<char>>::empty());
    assert(path_key(v@) =~= crate::text::vviews(out@));
    out
}

fn compare_keys(a: &Vec<Vec<char>>, b: &Vec<Vec<char>>) -> (r: i8)
    ensures
        r as int == key_order(crate::text::vviews(a@), crate::text::vviews(b@)),
{
    let ghost va = crate::text::vviews(a@);
    let ghost vb = crate::text::vviews(b@);
    let mut i: usize = 0;
    assert(va.skip(0) =~= va);
    assert(vb.skip(0) =~= vb);
    while i < a.len() && i < b.len()
        invariant
            i <= a.len(),
            i <= b.len(),
            va == crate::text::vviews(a@),
            vb == crate::text::vviews(b@),
            key_order(va, vb) == key_order(va.skip(i as int), vb.skip(i as int)),
        decreases a.len() - i,
    {
        assert(va.skip(i as int)[0] == a@[i as int]@);
        assert(vb.skip(i as int)[0] == b@[i as int]@);
        let c = compare_chars(&a[i], &b[i]);
        if c != 0 {
            return c;
        }
        assert(va.skip(i as int).drop_first() =~= va.skip(i + 1));
        assert(vb.skip(i as int).drop_first() =~= vb.skip(i + 1));
        i = i + 1;
    }
    if i < a.len() {
        1
    } else if i < b.len() {
        -1
    } else {
        0
    }
}

/// The component keys of each path.
pub open spec fn keys(v: Seq<String>) -> Seq<Seq<Seq<char>>> {
    v.map_values(|s: String| path_key(s@))
}

/// Strictly ascending in the order of `Path`.
pub open spec fn paths_ascending(k: Seq<Seq<Seq<char>>>) -> bool {
    forall|i: int, j: int| 0 <= i < j < k.len() ==> key_order(#[trigger] k[i], #[trigger] k[j]) < 0
}

/// No path before position `j` of `v` is the path `v[j]`: `v[j]` is the
/// first spelling of its path.
pub open spec fn first_spelling(v: Seq<String>, j: int) -> bool {
    forall|k: int| 0 <= k < j ==> path_key(#[trigger] v[k]@) != path_key(v[j]@)
}

/// `s` is among the first `n` paths of `v`, as the first spelling of its
/// path.
pub open spec fn first_spelled(v: Seq<String>, s: Seq<char>, n: int) -> bool {
    exists|j: int| #![trigger first_spelling(v, j)] 0 <= j < n && v[j]@ == s && first_spelling(v, j)
}

/// The paths of `v` sorted as `Path`s and without repeats of the same path
/// (a stable `sort` then `dedup` on `PathBuf`s); of several spellings of
/// one path, the first is kept.
pub fn sort_paths(v: Vec<String>) -> (r: Vec<String>)
    ensures
        paths_ascending(keys(r@)),
        keys(r@).to_set() == keys(v@).to_set(),
        forall|i: int| 0 <= i < r.len() ==> first_spelled(v@, #[trigger] r@[i]@, v.len() as int),
{
    let mut r: Vec<String> = Vec::new();
    let mut i: usize = 0;
    while i < v.len()
        invariant
            i <= v.len(),
            paths_ascending(keys(r@)),
            keys(r@).to_set() == keys(v@.take(i as int)).to_set(),
            forall|m: int| 0 <= m < r.len() ==> first_spelled(v@, #[trigger] r@[m]@, i as int),
        decreases v.len() - i,
    {
        let x = v[i].clone();
        let xk = path_key_of(x.as_str());
        let ghost xv = path_key(x@);
        let mut k: usize = 0;
        let mut found = false;
        let mut stop = false;
        while k < r.len() && !stop
            invariant
                k <= r.len(),
                crate::text::vviews(xk@) == xv,
                xv == path_key(x@),
                forall|m: int| 0 <= m < k ==> key_order(#[trigger] keys(r@)[m], xv) < 0,
                stop ==> k < r.len() && key_order(keys(r@)[k as int], xv) >= 0,
                found == (stop && key_order(keys(r@)[k as int], xv) == 0),
            decreases r.len() - k + (if stop { 0int } else { 1int }),
        {
            let c = compare_keys(&path_key_of(r[k].as_str()), &xk);
            if c >= 0 {
                found = c == 0;
                stop = true;
            } else {
                k = k + 1;
            }
        }
        let ghost old_r = keys(r@);
        let ghost old_rs = r@;
        assert(keys(v@.take(i + 1)) =~= keys(v@.take(i as int)).push(xv));
        proof {
            crate::order::lemma_push_to_set(keys(v@.take(i as int)), xv);
            assert(views(v@)[i as int] == x@);
            assert(v@[i as int]@ == x@);
        }
        if found {
            proof {
                lemma_key_antisym(keys(r@)[k as int], xv);
                assert(keys(r@)[k as int] == xv);
                assert(keys(r@).to_set().contains(xv));
                assert(keys(r@).to_set().insert(xv) =~= keys(r@).to_set());
            }
        } else {
            proof {
                // The path of `x` is not among those kept so far, so `x` is
                // its first spelling.
                assert forall|m: int| 0 <= m < old_r.len() implies old_r[m] != xv by {
                    lemma_key_antisym(old_r[m], xv);
                    if m >= k {
                        lemma_key_antisym(old_r[k as int], xv);
                        if m > k {
                            lemma_key_trans(xv, old_r[k as int], old_r[m]);
                            lemma_key_antisym(xv, old_r[m]);
                        }
                    }
                }
                assert forall|q: int| 0 <= q < i implies path_key(#[trigger] v@[q]@) != path_key(v@[i as int]@) by {
                    let t = keys(v@.take(i as int));
                    assert(t[q] == path_key(v@[q]@));
                    assert(t.to_set().contains(t[q]));
                    if path_key(v@[q]@) == xv {
                        assert(old_r.to_set().contains(xv));
                        let w = choose|w: int| 0 <= w < old_r.len() && old_r[w] == xv;
                        assert(old_r[w] != xv);
                    }
                }
                assert(first_spelling(v@, i as int));
            }
            r.insert(k, x);
            proof {
                let nr = keys(r@);
                assert(nr =~= old_r.insert(k as int, xv));
                assert forall|a: int, b: int| 0 <= a < b < nr.len() implies key_order(#[trigger] nr[a], #[trigger] nr[b]) < 0 by {
                    if b < k {
                    } else if b == k {
                    } else if a < k {
                        if k < old_r.len() {
                            lemma_key_antisym(old_r[k as int], xv);
                            if b - 1 > k {
                                lemma_key_trans(xv, old_r[k as int], old_r[b - 1]);
                            }
                        }
                        lemma_key_trans(nr[a], xv, nr[b]);
                    } else if a == k {
                        if k < old_r.len() {
                            lemma_key_antisym(old_r[k as int], xv);
                            if b - 1 > k {
                                lemma_key_trans(xv, old_r[k as int], old_r[b - 1]);
                            }
                        }
                    } else {
                    }
                }
                assert(nr.to_set() =~= old_r.to_set().insert(xv)) by {
                    assert forall|e: Seq<Seq<char>>| nr.to_set().contains(e) <==> old_r.to_set().insert(xv).contains(e) by {
                        if nr.contains(e) {
                            let w = choose|w: int| 0 <= w < nr.len() && nr[w] == e;
                            if w < k {
                                assert(old_r[w] == e);
                            } else if w > k {
                                assert(old_r[w - 1] == e);
                            }
                        }
                        if old_r.contains(e) {
                            let w = choose|w: int| 0 <= w < old_r.len() && old_r[w] == e;
                            if w < k {
                                assert(nr[w] == e);
                            } else {
                                assert(nr[w + 1] == e);
                            }
                        }
                        if e == xv {
                            assert(nr[k as int] == e);
                        }
                    }
                }
                assert forall|m: int| 0 <= m < r.len() implies first_spelled(v@, #[trigger] r@[m]@, i + 1) by {
                    if m < k {
                        assert(r@[m] == old_rs[m]);
                        assert(first_spelled(v@, old_rs[m]@, i as int));
                    } else if m > k {
                        assert(r@[m] == old_rs[m - 1]);
                        assert(first_spelled(v@, old_rs[m - 1]@, i as int));
                    } else {
                        assert(r@[m]@ == v@[i as int]@);
                        assert(first_spelling(v@, i as int));
                    }
                }
            }
        }
        i = i + 1;
    }
    assert(v@.take(v.len() as int) =~= v@);
    r
}

} // verus!
