use vstd::prelude::*;
use crate::model::{PackageMetadata, metadata_eq, same_metadata, str_eq};
use crate::naming::{key_view, version_key_of, version_sort_key};
use crate::order::{lemma_lex_antisym, lemma_lex_trans};
use crate::text::{chars_of, compare_chars, lex_order};

verus! {

// ── Order of index entries ──────────────────────────────────────────────

pub type VersionKey = Seq<(bool, u64, Seq<char>)>;

/// The order of one element of a version key: numeric runs after text
/// runs, then by value, then by text.
pub open spec fn run_order(a: (bool, u64, Seq<char>), b: (bool, u64, Seq<char>)) -> int {
    if a.0 != b.0 {
        if !a.0 {
            -1
        } else {
            1
        }
    } else if a.1 != b.1 {
        if a.1 < b.1 {
            -1
        } else {
            1
        }
    } else {
        lex_order(a.2, b.2)
    }
}

/// The order of version keys: element by element.
pub open spec fn vkey_order(a: VersionKey, b: VersionKey) -> int
    decreases a.len(),
{
    if a.len() == 0 {
        if b.len() == 0 {
            0
        } else {
            -1
        }
    } else if b.len() == 0 {
        1
    } else if run_order(a[0], b[0]) != 0 {
        run_order(a[0], b[0])
    } else {
        vkey_order(a.drop_first(), b.drop_first())
    }
}

/// Version keys are ordered like lists compared element by element: a key
/// that is a proper prefix of another comes first (`1.0` before `1.0.1`),
/// and otherwise the first element where they differ decides.
pub proof fn law_vkey_order_is_lexicographic(a: VersionKey, b: VersionKey)
    ensures
        a.len() < b.len() && b.take(a.len() as int) == a ==> vkey_order(a, b) < 0,
        forall|i: int|
            0 <= i < a.len() && i < b.len() && a.take(i) == b.take(i) && #[trigger] run_order(a[i], b[i]) != 0
                ==> vkey_order(a, b) == run_order(a[i], b[i]),
        a == b ==> vkey_order(a, b) == 0,
    decreases a.len(),
{
    if a.len() > 0 && b.len() > 0 {
        law_vkey_order_is_lexicographic(a.drop_first(), b.drop_first());
        if a.len() < b.len() && b.take(a.len() as int) == a {
            assert(b[0] == b.take(a.len() as int)[0]);
            lemma_run_antisym(a[0], b[0]);
            assert(b.drop_first().take(a.drop_first().len() as int) =~= a.drop_first());
        }
        assert forall|i: int|
            0 <= i < a.len() && i < b.len() && a.take(i) == b.take(i) && #[trigger] run_order(a[i], b[i]) != 0
                implies vkey_order(a, b) == run_order(a[i], b[i]) by {
            if i == 0 {
            } else {
                assert(a[0] == a.take(i)[0] && b[0] == b.take(i)[0]);
                lemma_run_antisym(a[0], b[0]);
                assert(a.drop_first().take(i - 1) =~= b.drop_first().take(i - 1)) by {
                    assert forall|k: int| 0 <= k < i - 1 implies #[trigger] a.drop_first().take(i - 1)[k] == b.drop_first().take(i - 1)[k] by {
                        assert(a.take(i)[k + 1] == b.take(i)[k + 1]);
                    }
                }
                assert(a.drop_first()[i - 1] == a[i] && b.drop_first()[i - 1] == b[i]);
            }
        }
        if a == b {
            lemma_run_antisym(a[0], b[0]);
        }
    } else if a.len() == 0 && b.len() > 0 {
    }
}

proof fn lemma_run_antisym(a: (bool, u64, Seq<char>), b: (bool, u64, Seq<char>))
    ensures
        run_order(a, b) == -run_order(b, a),
        run_order(a, b) == 0 <==> a == b,
{
    lemma_lex_antisym(a.2, b.2);
}

proof fn lemma_run_trans(a: (bool, u64, Seq<char>), b: (bool, u64, Seq<char>), c: (bool, u64, Seq<char>))
    requires
        run_order(a, b) < 0,
        run_order(b, c) < 0,
    ensures
        run_order(a, c) < 0,
{
    if a.0 == b.0 && b.0 == c.0 && a.1 == b.1 && b.1 == c.1 {
        lemma_lex_trans(a.2, b.2, c.2);
    }
}

proof fn lemma_vkey_antisym(a: VersionKey, b: VersionKey)
    ensures
        vkey_order(a, b) == -vkey_order(b, a),
        vkey_order(a, b) == 0 <==> a == b,
    decreases a.len(),
{
    if a.len() > 0 && b.len() > 0 {
        lemma_run_antisym(a[0], b[0]);
        if run_order(a[0], b[0]) == 0 {
            lemma_vkey_antisym(a.drop_first(), b.drop_first());
            if a.drop_first() == b.drop_first() {
                assert(a =~= seq![a[0]] + a.drop_first());
                assert(b =~= seq![b[0]] + b.drop_first());
            }
        }
    } else if a.len() == 0 && b.len() == 0 {
        assert(a =~= b);
    }
}

proof fn lemma_vkey_trans(a: VersionKey, b: VersionKey, c: VersionKey)
    requires
        vkey_order(a, b) < 0,
        vkey_order(b, c) < 0,
    ensures
        vkey_order(a, c) < 0,
    decreases a.len(),
{
    if a.len() > 0 && b.len() > 0 && c.len() > 0 {
        lemma_run_antisym(a[0], b[0]);
        lemma_run_antisym(b[0], c[0]);
        lemma_run_antisym(a[0], c[0]);
        if run_order(a[0], b[0]) < 0 && run_order(b[0], c[0]) < 0 {
            lemma_run_trans(a[0], b[0], c[0]);
        } else if run_order(a[0], b[0]) == 0 && run_order(b[0], c[0]) == 0 {
            lemma_vkey_trans(a.drop_first(), b.drop_first(), c.drop_first());
        }
    }
}

/// Where an entry sorts in the index: its name, then its version key.
pub open spec fn class_of(m: PackageMetadata) -> (Seq<char>, VersionKey) {
    (m.pkg_name@, version_key_of(m.version@))
}

pub open spec fn class_order(a: (Seq<char>, VersionKey), b: (Seq<char>, VersionKey)) -> int {
    if lex_order(a.0, b.0) != 0 {
        lex_order(a.0, b.0)
    } else {
        vkey_order(a.1, b.1)
    }
}

pub proof fn lemma_class_antisym(a: (Seq<char>, VersionKey), b: (Seq<char>, VersionKey))
    ensures
        class_order(a, b) == -class_order(b, a),
        class_order(a, b) == 0 <==> a == b,
{
    lemma_lex_antisym(a.0, b.0);
    lemma_vkey_antisym(a.1, b.1);
}

pub proof fn lemma_class_trans(a: (Seq<char>, VersionKey), b: (Seq<char>, VersionKey), c: (Seq<char>, VersionKey))
    requires
        class_order(a, b) < 0,
        class_order(b, c) < 0,
    ensures
        class_order(a, c) < 0,
{
    lemma_lex_antisym(a.0, b.0);
    lemma_lex_antisym(b.0, c.0);
    lemma_lex_antisym(a.0, c.0);
    if lex_order(a.0, b.0) < 0 && lex_order(b.0, c.0) < 0 {
        lemma_lex_trans(a.0, b.0, c.0);
    } else if lex_order(a.0, b.0) == 0 && lex_order(b.0, c.0) == 0 {
        lemma_vkey_trans(a.1, b.1, c.1);
    }
}

fn compare_vkeys(a: &Vec<(bool, u64, String)>, b: &Vec<(bool, u64, String)>) -> (r: i8)
    ensures
        r as int == vkey_order(key_view(a@), key_view(b@)),
        -1 <= r <= 1,
{
    let ghost va = key_view(a@);
    let ghost vb = key_view(b@);
    let mut i: usize = 0;
    assert(va.skip(0) =~= va);
    assert(vb.skip(0) =~= vb);
    proof {
        lemma_vkey_antisym(va, vb);
    }
    while i < a.len() && i < b.len()
        invariant
            i <= a.len(),
            i <= b.len(),
            va == key_view(a@),
            vb == key_view(b@),
            vkey_order(va, vb) == vkey_order(va.skip(i as int), vb.skip(i as int)),
        decreases a.len() - i,
    {
        let x = &a[i];
        let y = &b[i];
        assert(va.skip(i as int)[0] == (x.0, x.1, x.2@));
        assert(vb.skip(i as int)[0] == (y.0, y.1, y.2@));
        if x.0 != y.0 {
            return if !x.0 { -1 } else { 1 };
        }
        if x.1 != y.1 {
            return if x.1 < y.1 { -1 } else { 1 };
        }
        let c = compare_chars(&chars_of(x.2.as_str()), &chars_of(y.2.as_str()));
        if c != 0 {
            proof {
                lemma_lex_antisym(x.2@, y.2@);
            }
            return c;
        }
        assert(va.skip(i as int).drop_first() =~= va.skip(i + 1));
        assert(vb.skip(i as int).drop_first() =~= vb.skip(i + 1));
        i = i + 1;
    }
    if i < a.len() {
        1
    } else if i < b.len() {
        -1
    } else {
        0
    }
}

fn compare_entries(a: &PackageMetadata, b: &PackageMetadata) -> (r: i8)
    ensures
        r as int == class_order(class_of(*a), class_of(*b)),
{
    let c = compare_chars(&chars_of(a.pkg_name.as_str()), &chars_of(b.pkg_name.as_str()));
    if c != 0 {
        return c;
    }
    compare_vkeys(&version_sort_key(a.version.as_str()), &version_sort_key(b.version.as_str()))
}

/// The entries of `s` that sort as `c`, in order.
pub open spec fn in_class(s: Seq<PackageMetadata>, c: (Seq<char>, VersionKey)) -> Seq<PackageMetadata>
    decreases s.len(),
{
    if s.len() == 0 {
        Seq::empty()
    } else if class_of(s.last()) == c {
        in_class(s.drop_last(), c).push(s.last())
    } else {
        in_class(s.drop_last(), c)
    }
}

/// `r` is `v` sorted by name then version key, keeping the order of
/// entries that sort alike (a stable sort).
pub open spec fn index_sorted(r: Seq<PackageMetadata>, v: Seq<PackageMetadata>) -> bool {
    &&& forall|i: int, j: int| 0 <= i < j < r.len() ==> class_order(class_of(#[trigger] r[i]), class_of(#[trigger] r[j])) <= 0
    &&& forall|c: (Seq<char>, VersionKey)| #[trigger] in_class(r, c) == in_class(v, c)
}

proof fn lemma_in_class_concat(a: Seq<PackageMetadata>, b: Seq<PackageMetadata>, c: (Seq<char>, VersionKey))
    ensures
        in_class(a + b, c) == in_class(a, c) + in_class(b, c),
    decreases b.len(),
{
    if b.len() == 0 {
        assert(a + b =~= a);
        assert(in_class(a, c) + in_class(b, c) =~= in_class(a, c));
    } else {
        lemma_in_class_concat(a, b.drop_last(), c);
        assert((a + b).drop_last() =~= a + b.drop_last());
        assert((a + b).last() == b.last());
        if class_of(b.last()) == c {
            assert(in_class(a, c) + in_class(b.drop_last(), c).push(b.last()) =~= (in_class(a, c) + in_class(b.drop_last(), c)).push(b.last()));
        }
    }
}

proof fn lemma_in_class_none(s: Seq<PackageMetadata>, c: (Seq<char>, VersionKey))
    requires
        forall|i: int| 0 <= i < s.len() ==> class_of(#[trigger] s[i]) != c,
    ensures
        in_class(s, c) == Seq::<PackageMetadata>::empty(),
    decreases s.len(),
{
    if s.len() > 0 {
        lemma_in_class_none(s.drop_last(), c);
    }
}

proof fn lemma_insert_index(old_r: Seq<PackageMetadata>, k: int, x: PackageMetadata, prefix: Seq<PackageMetadata>)
    requires
        0 <= k <= old_r.len(),
        index_sorted(old_r, prefix),
        forall|m: int| 0 <= m < k ==> class_order(class_of(#[trigger] old_r[m]), class_of(x)) <= 0,
        forall|m: int| k <= m < old_r.len() ==> class_order(class_of(#[trigger] old_r[m]), class_of(x)) > 0,
    ensures
        index_sorted(old_r.insert(k, x), prefix.push(x)),
{
    let nr = old_r.insert(k, x);
    let a = old_r.take(k);
    let b = old_r.skip(k);
    let xs = seq![x];
    assert(nr =~= a + xs + b);
    assert(old_r =~= a + b);
    assert(prefix.push(x).drop_last() =~= prefix);
    assert forall|p: int, q: int| 0 <= p < q < nr.len() implies class_order(class_of(#[trigger] nr[p]), class_of(#[trigger] nr[q])) <= 0 by {
        if q < k {
            assert(nr[p] == old_r[p] && nr[q] == old_r[q]);
        } else if q == k {
            assert(nr[p] == old_r[p]);
        } else if p < k {
            assert(nr[p] == old_r[p] && nr[q] == old_r[q - 1]);
        } else if p == k {
            assert(nr[q] == old_r[q - 1]);
            lemma_class_antisym(class_of(old_r[q - 1]), class_of(x));
        } else {
            assert(nr[p] == old_r[p - 1] && nr[q] == old_r[q - 1]);
        }
    }
    assert forall|c: (Seq<char>, VersionKey)| #[trigger] in_class(nr, c) == in_class(prefix.push(x), c) by {
        lemma_in_class_concat(a + xs, b, c);
        lemma_in_class_concat(a, xs, c);
        lemma_in_class_concat(a, b, c);
        assert(xs.drop_last() =~= Seq::<PackageMetadata>::empty());
        assert(xs.last() == x);
        assert(in_class(Seq::<PackageMetadata>::empty(), c) == Seq::<PackageMetadata>::empty());
        assert(in_class(old_r, c) == in_class(prefix, c));
        if c == class_of(x) {
            assert forall|m: int| 0 <= m < b.len() implies class_of(#[trigger] b[m]) != c by {
                assert(b[m] == old_r[m + k]);
                lemma_class_antisym(class_of(old_r[m + k]), class_of(x));
            }
            lemma_in_class_none(b, c);
            assert(in_class(xs, c) =~= seq![x]);
            assert(in_class(nr, c) =~= in_class(a, c).push(x));
            assert(in_class(old_r, c) =~= in_class(a, c));
        } else {
            assert(in_class(xs, c) =~= Seq::<PackageMetadata>::empty());
            assert(in_class(nr, c) =~= in_class(a, c) + in_class(b, c));
        }
    }
}

/// The index entries sorted by name, then by version (numeric runs by
/// value), keeping the order of entries that sort alike.
pub fn sort_index(v: Vec<PackageMetadata>) -> (r: Vec<PackageMetadata>)
    ensures
        index_sorted(r@, v@),
{
    let mut v = v;
    let ghost orig = v@;
    let total = v.len();
    let mut r: Vec<PackageMetadata> = Vec::new();
    let mut i: usize = 0;
    while v.len() > 0
        invariant
            i + v.len() == orig.len(),
            orig.len() == total,
            v@ == orig.skip(i as int),
            index_sorted(r@, orig.take(i as int)),
        decreases v.len(),
    {
        let x = v.remove(0);
        assert(x == orig[i as int]);
        let mut k: usize = 0;
        let mut stop = false;
        while k < r.len() && !stop
            invariant
                k <= r.len(),
                forall|m: int| 0 <= m < k ==> class_order(class_of(#[trigger] r@[m]), class_of(x)) <= 0,
                stop ==> k < r.len() && class_order(class_of(r@[k as int]), class_of(x)) > 0,
            decreases r.len() - k + (if stop { 0int } else { 1int }),
        {
            if compare_entries(&r[k], &x) > 0 {
                stop = true;
            } else {
                k = k + 1;
            }
        }
        let ghost old_r = r@;
        proof {
            assert forall|m: int| k <= m < old_r.len() implies class_order(class_of(#[trigger] old_r[m]), class_of(x)) > 0 by {
                lemma_class_antisym(class_of(old_r[k as int]), class_of(x));
                lemma_class_antisym(class_of(old_r[m]), class_of(x));
                if m > k {
                    lemma_class_antisym(class_of(old_r[k as int]), class_of(old_r[m]));
                    if class_order(class_of(old_r[k as int]), class_of(old_r[m])) < 0 {
                        lemma_class_trans(class_of(x), class_of(old_r[k as int]), class_of(old_r[m]));
                    }
                }
            }
        }
        r.insert(k, x);
        proof {
            assert(orig.take(i + 1) =~= orig.take(i as int).push(x));
            lemma_insert_index(old_r, k as int, x, orig.take(i as int));
        }
        i = i + 1;
    }
    assert(orig.take(orig.len() as int) =~= orig);
    r
}

// ── Adding a package to the index ───────────────────────────────────────

pub open spec fn is_entry_for(m: PackageMetadata, name: Seq<char>, version: Seq<char>) -> bool {
    m.pkg_name@ == name && m.version@ == version
}

/// The position of the first entry for `name` and `version`, or -1.
pub open spec fn entry_position(s: Seq<PackageMetadata>, name: Seq<char>, version: Seq<char>) -> int
    decreases s.len(),
{
    if s.len() == 0 {
        -1
    } else {
        let p = entry_position(s.drop_last(), name, version);
        if p >= 0 {
            p
        } else if is_entry_for(s.last(), name, version) {
            s.len() - 1
        } else {
            -1
        }
    }
}

proof fn lemma_entry_position(s: Seq<PackageMetadata>, name: Seq<char>, version: Seq<char>)
    ensures
        -1 <= entry_position(s, name, version) < s.len(),
        entry_position(s, name, version) >= 0 ==> is_entry_for(s[entry_position(s, name, version)], name, version),
        forall|j: int| 0 <= j < s.len() && (entry_position(s, name, version) == -1 || j < entry_position(s, name, version)) ==> !is_entry_for(#[trigger] s[j], name, version),
    decreases s.len(),
{
    if s.len() > 0 {
        lemma_entry_position(s.drop_last(), name, version);
        let p = entry_position(s.drop_last(), name, version);
        assert forall|j: int| 0 <= j < s.len() && (entry_position(s, name, version) == -1 || j < entry_position(s, name, version)) implies !is_entry_for(#[trigger] s[j], name, version) by {
            if j < s.len() - 1 {
                assert(s[j] == s.drop_last()[j]);
            }
        }
        if p >= 0 {
            assert(s[p] == s.drop_last()[p]);
        }
    }
}

fn find_entry(s: &Vec<PackageMetadata>, name: &String, version: &String) -> (r: Option<usize>)
    ensures
        r matches Some(i) ==> i < s.len() && i as int == entry_position(s@, name@, version@),
        r is None ==> entry_position(s@, name@, version@) == -1,
{
    let mut i: usize = 0;
    proof {
        lemma_entry_position(s@, name@, version@);
    }
    while i < s.len()
        invariant
            i <= s.len(),
            forall|j: int| 0 <= j < i ==> !is_entry_for(#[trigger] s@[j], name@, version@),
        decreases s.len() - i,
    {
        if str_eq(&s[i].pkg_name, name) && str_eq(&s[i].version, version) {
            proof {
                lemma_entry_position(s@, name@, version@);
                let p = entry_position(s@, name@, version@);
                if p == -1 || (p >= 0 && i < p) {
                    assert(!is_entry_for(s@[i as int], name@, version@));
                }
                if p >= 0 && p < i {
                    assert(!is_entry_for(s@[p], name@, version@));
                }
            }
            return Some(i);
        }
        i = i + 1;
    }
    proof {
        lemma_entry_position(s@, name@, version@);
        let p = entry_position(s@, name@, version@);
        if p >= 0 {
            assert(!is_entry_for(s@[p], name@, version@));
        }
    }
    None
}

/// The entries after adding `meta`: it replaces the first entry for its
/// name and version, or is appended.
pub open spec fn merged(entries: Seq<PackageMetadata>, meta: PackageMetadata) -> Seq<PackageMetadata> {
    let p = entry_position(entries, meta.pkg_name@, meta.version@);
    if p >= 0 {
        entries.update(p, meta)
    } else {
        entries.push(meta)
    }
}

/// Whether the index already lists `meta` as it is.
pub open spec fn already_indexed(entries: Seq<PackageMetadata>, meta: PackageMetadata) -> bool {
    let p = entry_position(entries, meta.pkg_name@, meta.version@);
    p >= 0 && same_metadata(entries[p], meta)
}

/// The repository index after adding the package `meta` to `entries`, in
/// index order; `None` when the index already lists it as it is and need
/// not be written.
pub fn index(entries: Vec<PackageMetadata>, meta: PackageMetadata) -> (r: Option<Vec<PackageMetadata>>)
    ensures
        already_indexed(entries@, meta) ==> r is None,
        !already_indexed(entries@, meta) ==> (r matches Some(out) && index_sorted(out@, merged(entries@, meta))),
{
    let mut entries = entries;
    let ghost e0 = entries@;
    match find_entry(&entries, &meta.pkg_name, &meta.version) {
        Some(i) => {
            if metadata_eq(&entries[i], &meta) {
                return None;
            }
            entries.set(i, meta);
        },
        None => {
            entries.push(meta);
        },
    }
    assert(entries@ == merged(e0, meta));
    Some(sort_index(entries))
}

/// The first entry for `name` and `version` in an index listing the same
/// entries of each sort position in the same order is the same.
proof fn lemma_position_by_class(s: Seq<PackageMetadata>, t: Seq<PackageMetadata>, name: Seq<char>, version: Seq<char>, c: (Seq<char>, VersionKey))
    requires
        c == (name, version_key_of(version)),
        in_class(s, c) == in_class(t, c),
    ensures
        (entry_position(s, name, version) >= 0) == (entry_position(t, name, version) >= 0),
        entry_position(s, name, version) >= 0 ==> s[entry_position(s, name, version)] == t[entry_position(t, name, version)],
{
    lemma_position_in_class(s, name, version, c);
    lemma_position_in_class(t, name, version, c);
}

/// The first entry for `name` and `version` is the first such entry of its
/// sort position.
proof fn lemma_position_in_class(s: Seq<PackageMetadata>, name: Seq<char>, version: Seq<char>, c: (Seq<char>, VersionKey))
    requires
        c == (name, version_key_of(version)),
    ensures
        (entry_position(s, name, version) >= 0) == (entry_position(in_class(s, c), name, version) >= 0),
        entry_position(s, name, version) >= 0 ==> s[entry_position(s, name, version)] == in_class(s, c)[entry_position(in_class(s, c), name, version)],
    decreases s.len(),
{
    if s.len() > 0 {
        let h = s.drop_last();
        lemma_position_in_class(h, name, version, c);
        lemma_entry_position(h, name, version);
        lemma_entry_position(in_class(h, c), name, version);
        let p = entry_position(h, name, version);
        if class_of(s.last()) == c {
            let ih = in_class(h, c);
            assert(in_class(s, c) == ih.push(s.last()));
            assert(ih.push(s.last()).drop_last() =~= ih);
            if p >= 0 {
                let q = entry_position(ih, name, version);
                assert(s[p] == h[p]);
                assert(ih.push(s.last())[q] == ih[q]);
            }
        } else {
            if p >= 0 {
                assert(s[p] == h[p]);
            }
            if is_entry_for(s.last(), name, version) {
                assert(class_of(s.last()) == c);
            }
        }
    }
}

/// Adding a package to the index is idempotent: once added, adding it
/// again leaves nothing to write.
pub proof fn law_index_idempotent(entries: Seq<PackageMetadata>, meta: PackageMetadata, out: Seq<PackageMetadata>)
    requires
        index_sorted(out, merged(entries, meta)),
    ensures
        already_indexed(out, meta),
{
    let c = class_of(meta);
    let m = merged(entries, meta);
    lemma_position_by_class(out, m, meta.pkg_name@, meta.version@, c);
    lemma_entry_position(entries, meta.pkg_name@, meta.version@);
    let p = entry_position(entries, meta.pkg_name@, meta.version@);
    if p >= 0 {
        assert(m == entries.update(p, meta));
        assert(entry_position(m, meta.pkg_name@, meta.version@) == p) by {
            lemma_update_position(entries, p, meta);
        }
    } else {
        assert(m == entries.push(meta));
        assert(m.drop_last() =~= entries);
        assert(entry_position(m, meta.pkg_name@, meta.version@) == entries.len());
    }
    lemma_same_metadata_refl(meta);
}

proof fn lemma_update_position(entries: Seq<PackageMetadata>, p: int, meta: PackageMetadata)
    requires
        p == entry_position(entries, meta.pkg_name@, meta.version@),
        p >= 0,
    ensures
        entry_position(entries.update(p, meta), meta.pkg_name@, meta.version@) == p,
    decreases entries.len(),
{
    lemma_entry_position(entries, meta.pkg_name@, meta.version@);
    let u = entries.update(p, meta);
    lemma_entry_position(u, meta.pkg_name@, meta.version@);
    let q = entry_position(u, meta.pkg_name@, meta.version@);
    assert(is_entry_for(u[p], meta.pkg_name@, meta.version@));
    if q >= 0 && q < p {
        assert(u[q] == entries[q]);
    }
}

proof fn lemma_same_metadata_refl(m: PackageMetadata)
    ensures
        same_metadata(m, m),
{
}

} // verus!
