use vstd::prelude::*;
use crate::text::{compare_chars, lex_order};

verus! {

pub proof fn lemma_lex_antisym(a: Seq<char>, b: Seq<char>)
    ensures
        lex_order(a, b) == -lex_order(b, a),
        lex_order(a, b) == 0 <==> a == b,
        -1 <= lex_order(a, b) <= 1,
    decreases a.len(),
{
    if a.len() > 0 && b.len() > 0 && a[0] == b[0] {
        lemma_lex_antisym(a.drop_first(), b.drop_first());
        if a.drop_first() == b.drop_first() {
            assert(a =~= seq![a[0]] + a.drop_first());
            assert(b =~= seq![b[0]] + b.drop_first());
        }
    } else if a.len() == 0 && b.len() == 0 {
        assert(a =~= b);
    }
}

pub proof fn lemma_lex_trans(a: Seq<char>, b: Seq<char>, c: Seq<char>)
    requires
        lex_order(a, b) < 0,
        lex_order(b, c) < 0,
    ensures
        lex_order(a, c) < 0,
    decreases a.len(),
{
    if a.len() > 0 && b.len() > 0 && c.len() > 0 && a[0] == b[0] && b[0] == c[0] {
        lemma_lex_trans(a.drop_first(), b.drop_first(), c.drop_first());
    }
}

pub proof fn lemma_push_to_set<A>(s: Seq<A>, x: A)
    ensures
        s.push(x).to_set() == s.to_set().insert(x),
{
    assert forall|e: A| s.push(x).to_set().contains(e) <==> s.to_set().insert(x).contains(e) by {
        if s.push(x).contains(e) {
            let w = choose|w: int| 0 <= w < s.push(x).len() && s.push(x)[w] == e;
            if w < s.len() {
                assert(s[w] == e);
            }
        }
        if s.contains(e) {
            let w = choose|w: int| 0 <= w < s.len() && s[w] == e;
            assert(s.push(x)[w] == e);
        }
        if e == x {
            assert(s.push(x)[s.len() as int] == e);
        }
    }
    assert(s.push(x).to_set() =~= s.to_set().insert(x));
}

/// Strictly ascending in the order of `String`.
pub open spec fn ascending(s: Seq<Seq<char>>) -> bool {
    forall|i: int, j: int| 0 <= i < j < s.len() ==> lex_order(#[trigger] s[i], #[trigger] s[j]) < 0
}

/// Two strictly ascending sequences with the same elements are equal.
pub proof fn lemma_ascending_unique(a: Seq<Seq<char>>, b: Seq<Seq<char>>)
    requires
        ascending(a),
        ascending(b),
        a.to_set() == b.to_set(),
    ensures
        a == b,
    decreases a.len(),
{
    if a.len() == 0 || b.len() == 0 {
        if b.len() > 0 {
            assert(b.to_set().contains(b[0]));
        }
        if a.len() > 0 {
            assert(a.to_set().contains(a[0]));
        }
        assert(a =~= b);
    } else {
        assert(a.to_set().contains(a[0]));
        assert(b.to_set().contains(b[0]));
        let i = choose|i: int| 0 <= i < a.len() && a[i] == b[0];
        let j = choose|j: int| 0 <= j < b.len() && b[j] == a[0];
        if i > 0 {
            lemma_lex_antisym(a[0], a[i]);
            if j > 0 {
                lemma_lex_antisym(b[0], b[j]);
            } else {
                lemma_lex_antisym(a[0], b[0]);
            }
        }
        if j > 0 && i == 0 {
            lemma_lex_antisym(b[0], b[j]);
        }
        assert(a[0] == b[0]);
        let a1 = a.drop_first();
        let b1 = b.drop_first();
        assert forall|e: Seq<char>| a1.to_set().contains(e) <==> b1.to_set().contains(e) by {
            if a1.contains(e) {
                let k = choose|k: int| 0 <= k < a1.len() && a1[k] == e;
                assert(a[k + 1] == e);
                lemma_lex_antisym(a[0], a[k + 1]);
                assert(a.to_set().contains(e));
                let m = choose|m: int| 0 <= m < b.len() && b[m] == e;
                assert(m != 0);
                assert(b1[m - 1] == e);
            }
            if b1.contains(e) {
                let k = choose|k: int| 0 <= k < b1.len() && b1[k] == e;
                assert(b[k + 1] == e);
                lemma_lex_antisym(b[0], b[k + 1]);
                assert(b.to_set().contains(e));
                let m = choose|m: int| 0 <= m < a.len() && a[m] == e;
                assert(m != 0);
                assert(a1[m - 1] == e);
            }
        }
        assert(a1.to_set() =~= b1.to_set());
        lemma_ascending_unique(a1, b1);
        assert(a =~= seq![a[0]] + a1);
        assert(b =~= seq![b[0]] + b1);
    }
}

/// The elements of `s` in ascending order.
pub open spec fn sorted_of(s: Set<Seq<char>>) -> Seq<Seq<char>> {
    choose|t: Seq<Seq<char>>| ascending(t) && t.to_set() == s
}

/// An ascending sequence is the sorted form of its elements.
pub proof fn lemma_sorted_of(r: Seq<Seq<char>>)
    requires
        ascending(r),
    ensures
        r == sorted_of(r.to_set()),
{
    assert(ascending(r) && r.to_set() == r.to_set());
    let t = sorted_of(r.to_set());
    lemma_ascending_unique(r, t);
}

pub open spec fn views(v: Seq<String>) -> Seq<Seq<char>> {
    v.map_values(|s: String| s@)
}

/// The distinct strings of `v`, in ascending order (`sort` then `dedup`).
pub fn sort_dedup(v: Vec<String>) -> (r: Vec<String>)
    ensures
        ascending(views(r@)),
        views(r@).to_set() == views(v@).to_set(),
{
    let mut r: Vec<String> = Vec::new();
    let mut i: usize = 0;
    while i < v.len()
        invariant
            i <= v.len(),
            ascending(views(r@)),
            views(r@).to_set() == views(v@.take(i as int)).to_set(),
        decreases v.len() - i,
    {
        let x = v[i].clone();
        let xs = crate::text::chars_of(x.as_str());
        let mut k: usize = 0;
        let mut found = false;
        let mut stop = false;
        while k < r.len() && !stop
            invariant
                k <= r.len(),
                xs@ == x@,
                forall|m: int| 0 <= m < k ==> lex_order(#[trigger] views(r@)[m], x@) < 0,
                stop ==> k < r.len() && lex_order(views(r@)[k as int], x@) >= 0,
                found == (stop && lex_order(views(r@)[k as int], x@) == 0),
            decreases r.len() - k + (if stop { 0int } else { 1int }),
        {
            let c = compare_chars(&crate::text::chars_of(r[k].as_str()), &xs);
            if c >= 0 {
                found = c == 0;
                stop = true;
            } else {
                k = k + 1;
            }
        }
        let ghost old_r = views(r@);
        assert(views(v@.take(i + 1)) =~= views(v@.take(i as int)).push(x@));
        proof {
            lemma_push_to_set(views(v@.take(i as int)), x@);
        }
        if found {
            proof {
                lemma_lex_antisym(views(r@)[k as int], x@);
                assert(views(r@)[k as int] == x@);
                assert(views(v@.take(i + 1)).to_set() =~= views(v@.take(i as int)).to_set().insert(x@));
                assert(views(r@).to_set().contains(x@));
                assert(views(r@).to_set().insert(x@) =~= views(r@).to_set());
            }
        } else {
            r.insert(k, x);
            proof {
                let nr = views(r@);
                assert(nr =~= old_r.insert(k as int, x@));
                assert forall|a: int, b: int| 0 <= a < b < nr.len() implies lex_order(#[trigger] nr[a], #[trigger] nr[b]) < 0 by {
                    if b < k {
                    } else if b == k {
                    } else if a < k {
                        // nr[a] < x < nr[b]
                        if k < old_r.len() {
                            lemma_lex_antisym(old_r[k as int], x@);
                            if b - 1 > k {
                                lemma_lex_trans(x@, old_r[k as int], old_r[b - 1]);
                            }
                        }
                        lemma_lex_trans(nr[a], x@, nr[b]);
                    } else if a == k {
                        if k < old_r.len() {
                            lemma_lex_antisym(old_r[k as int], x@);
                            if b - 1 > k {
                                lemma_lex_trans(x@, old_r[k as int], old_r[b - 1]);
                            }
                        }
                    } else {
                    }
                }
                assert(nr.to_set() =~= old_r.to_set().insert(x@)) by {
                    assert forall|e: Seq<char>| nr.to_set().contains(e) <==> old_r.to_set().insert(x@).contains(e) by {
                        if nr.contains(e) {
                            let w = choose|w: int| 0 <= w < nr.len() && nr[w] == e;
                            if w < k {
                                assert(old_r[w] == e);
                            } else if w > k {
                                assert(old_r[w - 1] == e);
                            }
                        }
                        if old_r.contains(e) {
                            let w = choose|w: int| 0 <= w < old_r.len() && old_r[w] == e;
                            if w < k {
                                assert(nr[w] == e);
                            } else {
                                assert(nr[w + 1] == e);
                            }
                        }
                        if e == x@ {
                            assert(nr[k as int] == e);
                        }
                    }
                }
                assert(views(v@.take(i + 1)).to_set() =~= views(v@.take(i as int)).to_set().insert(x@));
            }
        }
        i = i + 1;
    }
    assert(v@.take(v.len() as int) =~= v@);
    r
}


/// The order of `(String, String)`: by the first string, then the second.
pub open spec fn pair_order(a: (Seq<char>, Seq<char>), b: (Seq<char>, Seq<char>)) -> int {
    if lex_order(a.0, b.0) != 0 {
        lex_order(a.0, b.0)
    } else {
        lex_order(a.1, b.1)
    }
}

pub proof fn lemma_pair_antisym(a: (Seq<char>, Seq<char>), b: (Seq<char>, Seq<char>))
    ensures
        pair_order(a, b) == -pair_order(b, a),
        pair_order(a, b) == 0 <==> a == b,
{
    lemma_lex_antisym(a.0, b.0);
    lemma_lex_antisym(a.1, b.1);
}

pub proof fn lemma_pair_trans(a: (Seq<char>, Seq<char>), b: (Seq<char>, Seq<char>), c: (Seq<char>, Seq<char>))
    requires
        pair_order(a, b) < 0,
        pair_order(b, c) < 0,
    ensures
        pair_order(a, c) < 0,
{
    lemma_lex_antisym(a.0, b.0);
    lemma_lex_antisym(b.0, c.0);
    lemma_lex_antisym(a.0, c.0);
    if lex_order(a.0, b.0) < 0 && lex_order(b.0, c.0) < 0 {
        lemma_lex_trans(a.0, b.0, c.0);
    } else if lex_order(a.0, b.0) == 0 && lex_order(b.0, c.0) == 0 {
        lemma_lex_trans(a.1, b.1, c.1);
    }
}

pub open spec fn ascending_pairs(s: Seq<(Seq<char>, Seq<char>)>) -> bool {
    forall|i: int, j: int| 0 <= i < j < s.len() ==> pair_order(#[trigger] s[i], #[trigger] s[j]) < 0
}

pub open spec fn pair_views(v: Seq<(String, String)>) -> Seq<(Seq<char>, Seq<char>)> {
    v.map_values(|p: (String, String)| (p.0@, p.1@))
}

fn compare_pairs(a: &(String, String), b: &(String, String)) -> (r: i8)
    ensures
        r as int == pair_order((a.0@, a.1@), (b.0@, b.1@)),
{
    let c = compare_chars(&crate::text::chars_of(a.0.as_str()), &crate::text::chars_of(b.0.as_str()));
    if c != 0 {
        c
    } else {
        compare_chars(&crate::text::chars_of(a.1.as_str()), &crate::text::chars_of(b.1.as_str()))
    }
}

/// The distinct pairs of `v`, in ascending order (as a `HashSet` collected
/// and sorted).
pub fn sort_dedup_pairs(v: Vec<(String, String)>) -> (r: Vec<(String, String)>)
    ensures
        ascending_pairs(pair_views(r@)),
        pair_views(r@).to_set() == pair_views(v@).to_set(),
{
    let mut r: Vec<(String, String)> = Vec::new();
    let mut i: usize = 0;
    while i < v.len()
        invariant
            i <= v.len(),
            ascending_pairs(pair_views(r@)),
            pair_views(r@).to_set() == pair_views(v@.take(i as int)).to_set(),
        decreases v.len() - i,
    {
        let x = (v[i].0.clone(), v[i].1.clone());
        let ghost xv = (x.0@, x.1@);
        let mut k: usize = 0;
        let mut found = false;
        let mut stop = false;
        while k < r.len() && !stop
            invariant
                k <= r.len(),
                xv == (x.0@, x.1@),
                forall|m: int| 0 <= m < k ==> pair_order(#[trigger] pair_views(r@)[m], xv) < 0,
                stop ==> k < r.len() && pair_order(pair_views(r@)[k as int], xv) >= 0,
                found == (stop && pair_order(pair_views(r@)[k as int], xv) == 0),
            decreases r.len() - k + (if stop { 0int } else { 1int }),
        {
            let c = compare_pairs(&r[k], &x);
            if c >= 0 {
                found = c == 0;
                stop = true;
            } else {
                k = k + 1;
            }
        }
        let ghost old_r = pair_views(r@);
        assert(pair_views(v@.take(i + 1)) =~= pair_views(v@.take(i as int)).push(xv));
        proof {
            lemma_push_to_set(pair_views(v@.take(i as int)), xv);
        }
        if found {
            proof {
                lemma_pair_antisym(pair_views(r@)[k as int], xv);
                assert(pair_views(r@).to_set().contains(xv));
                assert(pair_views(r@).to_set().insert(xv) =~= pair_views(r@).to_set());
            }
        } else {
            r.insert(k, x);
            proof {
                let nr = pair_views(r@);
                assert(nr =~= old_r.insert(k as int, xv));
                assert forall|a: int, b: int| 0 <= a < b < nr.len() implies pair_order(#[trigger] nr[a], #[trigger] nr[b]) < 0 by {
                    if b < k {
                    } else if b == k {
                    } else if a < k {
                        if k < old_r.len() {
                            lemma_pair_antisym(old_r[k as int], xv);
                            if b - 1 > k {
                                lemma_pair_trans(xv, old_r[k as int], old_r[b - 1]);
                            }
                        }
                        lemma_pair_trans(nr[a], xv, nr[b]);
                    } else if a == k {
                        if k < old_r.len() {
                            lemma_pair_antisym(old_r[k as int], xv);
                            if b - 1 > k {
                                lemma_pair_trans(xv, old_r[k as int], old_r[b - 1]);
                            }
                        }
                    } else {
                    }
                }
                assert(nr.to_set() =~= old_r.to_set().insert(xv)) by {
                    assert forall|e: (Seq<char>, Seq<char>)| nr.to_set().contains(e) <==> old_r.to_set().insert(xv).contains(e) by {
                        if nr.contains(e) {
                            let w = choose|w: int| 0 <= w < nr.len() && nr[w] == e;
                            if w < k {
                                assert(old_r[w] == e);
                            } else if w > k {
                                assert(old_r[w - 1] == e);
                            }
                        }
                        if old_r.contains(e) {
                            let w = choose|w: int| 0 <= w < old_r.len() && old_r[w] == e;
                            if w < k {
                                assert(nr[w] == e);
                            } else {
                                assert(nr[w + 1] == e);
                            }
                        }
                        if e == xv {
                            assert(nr[k as int] == e);
                        }
                    }
                }
            }
        }
        i = i + 1;
    }
    assert(v@.take(v.len() as int) =~= v@);
    r
}

} // verus!
