use vstd::prelude::*;
use crate::model::str_eq;
use crate::order::views;
use crate::text::{chars_of, eq_ci, eq_ignore_ascii_case};

verus! {

// ── Dependency graph of the repository index ────────────────────────────

/// A graph as an adjacency list: each entry is a package and the packages
/// it depends on. A package may have several entries; its edges are their
/// union.
pub open spec fn graph_view(g: Seq<(String, Vec<String>)>) -> Seq<(Seq<char>, Seq<Seq<char>>)> {
    g.map_values(|e: (String, Vec<String>)| (e.0@, views(e.1@)))
}

/// `u` depends on `v` in `g`.
pub open spec fn edge(g: Seq<(Seq<char>, Seq<Seq<char>>)>, u: Seq<char>, v: Seq<char>) -> bool {
    exists|i: int| 0 <= i < g.len() && #[trigger] g[i].0 == u && g[i].1.contains(v)
}

/// `p` is a walk through `g` that starts at one of `roots` and never
/// enters a package named `cur` (up to ASCII case).
pub open spec fn is_path(
    g: Seq<(Seq<char>, Seq<Seq<char>>)>,
    cur: Seq<char>,
    roots: Set<Seq<char>>,
    p: Seq<Seq<char>>,
) -> bool {
    &&& p.len() > 0
    &&& roots.contains(p[0])
    &&& forall|i: int| 0 <= i < p.len() ==> !eq_ci(#[trigger] p[i], cur)
    &&& forall|i: int, j: int| #![trigger p[i], p[j]] 0 <= i && j == i + 1 && j < p.len() ==> edge(g, p[i], p[j])
}

/// `v` is reached from `roots` without passing through `cur`.
pub open spec fn reachable(
    g: Seq<(Seq<char>, Seq<Seq<char>>)>,
    cur: Seq<char>,
    roots: Set<Seq<char>>,
    v: Seq<char>,
) -> bool {
    exists|p: Seq<Seq<char>>| #[trigger] is_path(g, cur, roots, p) && p.last() == v
}

/// `c` is a dependency, other than `cur`, of a package reached from
/// `roots`: a transitive dependency.
pub open spec fn transitive_dep(
    g: Seq<(Seq<char>, Seq<Seq<char>>)>,
    cur: Seq<char>,
    roots: Set<Seq<char>>,
    c: Seq<char>,
) -> bool {
    !eq_ci(c, cur) && exists|v: Seq<char>| #[trigger] reachable(g, cur, roots, v) && edge(g, v, c)
}

pub open spec fn count_false(s: Seq<bool>) -> nat
    decreases s.len(),
{
    if s.len() == 0 {
        0
    } else {
        count_false(s.drop_last()) + if s.last() {
            0nat
        } else {
            1nat
        }
    }
}

proof fn lemma_count_false_set(s: Seq<bool>, i: int)
    requires
        0 <= i < s.len(),
        !s[i],
    ensures
        count_false(s.update(i, true)) + 1 == count_false(s),
    decreases s.len(),
{
    if i < s.len() - 1 {
        lemma_count_false_set(s.drop_last(), i);
        assert(s.update(i, true).drop_last() =~= s.drop_last().update(i, true));
    } else {
        assert(s.update(i, true).drop_last() =~= s.drop_last());
    }
}

fn ci_equal(a: &String, b: &str) -> (r: bool)
    ensures
        r == eq_ci(a@, b@),
{
    eq_ignore_ascii_case(&chars_of(a.as_str()), &chars_of(b))
}

fn position(nodes: &Vec<String>, x: &String) -> (r: usize)
    ensures
        r <= nodes.len(),
        r < nodes.len() ==> nodes@[r as int]@ == x@,
        r == nodes.len() ==> !views(nodes@).contains(x@),
{
    let mut i: usize = 0;
    while i < nodes.len()
        invariant
            i <= nodes.len(),
            forall|k: int| 0 <= k < i ==> nodes@[k]@ != x@,
        decreases nodes.len() - i,
    {
        if str_eq(&nodes[i], x) {
            return i;
        }
        i = i + 1;
    }
    assert forall|k: int| 0 <= k < views(nodes@).len() implies views(nodes@)[k] != x@ by {
        assert(views(nodes@)[k] == nodes@[k]@);
    }
    i
}

pub open spec fn distinct(s: Seq<Seq<char>>) -> bool {
    forall|a: int, b: int| 0 <= a < b < s.len() ==> s[a] != s[b]
}

fn add_node(nodes: &mut Vec<String>, x: &String)
    requires
        distinct(views(old(nodes)@)),
    ensures
        distinct(views(final(nodes)@)),
        views(final(nodes)@).to_set() == views(old(nodes)@).to_set().insert(x@),
{
    let p = position(nodes, x);
    if p == nodes.len() {
        let ghost before = views(nodes@);
        nodes.push(x.clone());
        proof {
            assert(views(nodes@) =~= before.push(x@));
            crate::order::lemma_push_to_set(before, x@);
        }
    } else {
        proof {
            assert(views(nodes@)[p as int] == x@);
            assert(views(nodes@).to_set().insert(x@) =~= views(nodes@).to_set());
        }
    }
}

/// Every package reached from `roots`, without entering `cur`, and the
/// packages each names: the transitive dependencies that the graph adds.
/// A package appears once for every edge into it.
pub fn transitive(graph: &Vec<(String, Vec<String>)>, cur: &str, roots: &Vec<String>) -> (r: Vec<String>)
    ensures
        forall|c: Seq<char>| #![trigger views(r@).contains(c)]
            views(r@).contains(c) <==> transitive_dep(graph_view(graph@), cur@, views(roots@).to_set(), c),
{
    let ghost g = graph_view(graph@);
    let ghost rs = views(roots@).to_set();
    // The universe: the roots and every package named in the graph.
    let mut nodes: Vec<String> = Vec::new();
    let mut i: usize = 0;
    while i < roots.len()
        invariant
            i <= roots.len(),
            distinct(views(nodes@)),
            views(nodes@).to_set() == views(roots@.take(i as int)).to_set(),
        decreases roots.len() - i,
    {
        add_node(&mut nodes, &roots[i]);
        assert(views(roots@.take(i + 1)) =~= views(roots@.take(i as int)).push(roots@[i as int]@));
        proof {
            crate::order::lemma_push_to_set(views(roots@.take(i as int)), roots@[i as int]@);
        }
        i = i + 1;
    }
    assert(roots@.take(roots.len() as int) =~= roots@);
    let mut e: usize = 0;
    while e < graph.len()
        invariant
            e <= graph.len(),
            g == graph_view(graph@),
            distinct(views(nodes@)),
            forall|x: Seq<char>| rs.contains(x) ==> views(nodes@).to_set().contains(x),
            forall|k: int, m: int| 0 <= k < e && 0 <= m < graph@[k].1.len() ==> views(nodes@).to_set().contains(#[trigger] graph@[k].1@[m]@),
        decreases graph.len() - e,
    {
        let children = &graph[e].1;
        let mut m: usize = 0;
        while m < children.len()
            invariant
                e < graph.len(),
                children == graph@[e as int].1,
                m <= children.len(),
                distinct(views(nodes@)),
                forall|x: Seq<char>| rs.contains(x) ==> views(nodes@).to_set().contains(x),
                forall|k: int, q: int| 0 <= k < e && 0 <= q < graph@[k].1.len() ==> views(nodes@).to_set().contains(#[trigger] graph@[k].1@[q]@),
                forall|q: int| 0 <= q < m ==> views(nodes@).to_set().contains(#[trigger] children@[q]@),
            decreases children.len() - m,
        {
            add_node(&mut nodes, &children[m]);
            m = m + 1;
        }
        e = e + 1;
    }
    // Every child in the graph is a node.
    assert forall|u: Seq<char>, v: Seq<char>| edge(g, u, v) implies views(nodes@).to_set().contains(v) by {
        let k = choose|k: int| 0 <= k < g.len() && #[trigger] g[k].0 == u && g[k].1.contains(v);
        let q = choose|q: int| 0 <= q < g[k].1.len() && g[k].1[q] == v;
        assert(g[k].1 == views(graph@[k].1@));
        assert(graph@[k].1@[q]@ == v);
    }
    let n = nodes.len();
    let ghost ns = views(nodes@);
    let mut marks: Vec<bool> = Vec::new();
    while marks.len() < n
        invariant
            marks.len() <= n,
            forall|k: int| 0 <= k < marks.len() ==> !marks@[k],
        decreases n - marks.len(),
    {
        marks.push(false);
    }
    let mut stack: Vec<usize> = Vec::new();
    // Seed with the roots.
    let mut i: usize = 0;
    while i < roots.len()
        invariant
            i <= roots.len(),
            n == nodes.len(),
            ns == views(nodes@),
            marks.len() == n,
            g == graph_view(graph@),
            forall|x: Seq<char>| rs.contains(x) ==> ns.to_set().contains(x),
            rs == views(roots@).to_set(),
            forall|k: int| 0 <= k < stack.len() ==> #[trigger] stack@[k] < n && marks@[stack@[k] as int],
            forall|a: int, b: int| 0 <= a < b < stack.len() ==> stack@[a] != stack@[b],
            forall|k: int| 0 <= k < n && #[trigger] marks@[k] ==> reachable(g, cur@, rs, ns[k]),
            forall|k: int| 0 <= k < n && #[trigger] marks@[k] ==> stack@.contains(k as usize),
            forall|k: int| 0 <= k < i && !eq_ci(roots@[k]@, cur@) ==> exists|j: int| 0 <= j < n && ns[j] == roots@[k]@ && #[trigger] marks@[j],
        decreases roots.len() - i,
    {
        if !ci_equal(&roots[i], cur) {
            let j = position(&nodes, &roots[i]);
            proof {
                assert(views(roots@)[i as int] == roots@[i as int]@);
                assert(rs.contains(roots@[i as int]@));
                assert(ns.to_set().contains(roots@[i as int]@));
                assert(ns[j as int] == roots@[i as int]@);
            }
            let ghost m0 = marks@;
            let ghost s0 = stack@;
            if !marks[j] {
                proof {
                    lemma_root_reachable(g, cur@, rs, ns[j as int]);
                    assert forall|k: int| 0 <= k < s0.len() implies s0[k] != j by {
                        assert(m0[s0[k] as int]);
                    }
                }
                marks.set(j, true);
                stack.push(j);
                proof {
                    assert(stack@ == s0.push(j));
                    assert forall|k: int| 0 <= k < stack.len() implies #[trigger] stack@[k] < n && marks@[stack@[k] as int] by {
                        if k < s0.len() {
                            assert(stack@[k] == s0[k]);
                        }
                    }
                    assert forall|k: int| 0 <= k < n && #[trigger] marks@[k] implies stack@.contains(k as usize) by {
                        if k == j {
                            assert(stack@[s0.len() as int] == j);
                        } else {
                            assert(m0[k]);
                            let w = choose|w: int| 0 <= w < s0.len() && s0[w] == k as usize;
                            assert(stack@[w] == k as usize);
                        }
                    }
                }
            }
            proof {
                assert(marks@[j as int]);
                assert forall|k: int| 0 <= k < i + 1 && !eq_ci(roots@[k]@, cur@) implies exists|jj: int| 0 <= jj < n && ns[jj] == roots@[k]@ && #[trigger] marks@[jj] by {
                    if k < i {
                        let jj = choose|jj: int| 0 <= jj < n && ns[jj] == roots@[k]@ && #[trigger] m0[jj];
                        assert(marks@[jj]);
                    } else {
                        assert(marks@[j as int]);
                    }
                }
            }
        }
        i = i + 1;
    }
    // Visit everything reachable.
    while stack.len() > 0
        invariant
            n == nodes.len(),
            ns == views(nodes@),
            marks.len() == n,
            g == graph_view(graph@),
            distinct(ns),
            forall|u: Seq<char>, w: Seq<char>| edge(g, u, w) ==> ns.to_set().contains(w),
            forall|k: int| 0 <= k < stack.len() ==> #[trigger] stack@[k] < n && marks@[stack@[k] as int],
            forall|a: int, b: int| 0 <= a < b < stack.len() ==> stack@[a] != stack@[b],
            forall|k: int| 0 <= k < n && #[trigger] marks@[k] ==> reachable(g, cur@, rs, ns[k]),
            forall|k: int| 0 <= k < roots.len() && !eq_ci(roots@[k]@, cur@) ==> exists|j: int| 0 <= j < n && ns[j] == roots@[k]@ && #[trigger] marks@[j],
            forall|k: int, j: int| #![trigger edge(g, ns[k], ns[j])] 0 <= k < n && 0 <= j < n && marks@[k] && !stack@.contains(k as usize) && edge(g, ns[k], ns[j]) && !eq_ci(ns[j], cur@) ==> marks@[j],
        decreases 2 * count_false(marks@) + stack.len(),
    {
        let ghost measure = 2 * count_false(marks@) + stack.len();
        let ghost full = stack@;
        let top = stack.pop().unwrap();
        proof {
            assert(full == stack@.push(top));
            assert(full[full.len() - 1] == top);
            if stack@.contains(top) {
                let w = choose|w: int| 0 <= w < stack@.len() && stack@[w] == top;
                assert(full[w] == top);
            }
            assert forall|k: int| 0 <= k < stack.len() implies #[trigger] stack@[k] < n && marks@[stack@[k] as int] by {
                assert(full[k] == stack@[k]);
            }
            assert forall|a: int, b: int| 0 <= a < b < stack.len() implies stack@[a] != stack@[b] by {
                assert(full[a] == stack@[a]);
                assert(full[b] == stack@[b]);
            }
            assert forall|k: usize| #![trigger stack@.contains(k)] k != top && !stack@.contains(k) implies !full.contains(k) by {
                if full.contains(k) {
                    let w = choose|w: int| 0 <= w < full.len() && full[w] == k;
                    if w < stack.len() {
                        assert(stack@[w] == k);
                    }
                }
            }
        }
        let v = nodes[top].clone();
        let mut x: usize = 0;
        while x < graph.len()
            invariant
                top < n,
                n == nodes.len(),
                ns == views(nodes@),
                marks.len() == n,
                marks@[top as int],
                x <= graph.len(),
                g == graph_view(graph@),
                v@ == ns[top as int],
                distinct(ns),
                forall|u: Seq<char>, w: Seq<char>| edge(g, u, w) ==> ns.to_set().contains(w),
                !stack@.contains(top),
                forall|k: int| 0 <= k < stack.len() ==> #[trigger] stack@[k] < n && marks@[stack@[k] as int],
                forall|a: int, b: int| 0 <= a < b < stack.len() ==> stack@[a] != stack@[b],
                forall|k: int| 0 <= k < n && #[trigger] marks@[k] ==> reachable(g, cur@, rs, ns[k]),
                forall|k: int| 0 <= k < roots.len() && !eq_ci(roots@[k]@, cur@) ==> exists|j: int| 0 <= j < n && ns[j] == roots@[k]@ && #[trigger] marks@[j],
                forall|k: int, j: int| #![trigger edge(g, ns[k], ns[j])] 0 <= k < n && 0 <= j < n && k != top && marks@[k] && !stack@.contains(k as usize) && edge(g, ns[k], ns[j]) && !eq_ci(ns[j], cur@) ==> marks@[j],
                forall|y: int, j: int| #![trigger g[y].1.contains(ns[j])] 0 <= y < x && 0 <= j < n && g[y].0 == v@ && g[y].1.contains(ns[j]) && !eq_ci(ns[j], cur@) ==> marks@[j],
                2 * count_false(marks@) + stack.len() < measure,
            decreases graph.len() - x,
        {
            if str_eq(&graph[x].0, &v) {
                let children = &graph[x].1;
                let mut q: usize = 0;
                while q < children.len()
                    invariant
                        top < n,
                        n == nodes.len(),
                        ns == views(nodes@),
                        marks.len() == n,
                        marks@[top as int],
                        x < graph.len(),
                        children == graph@[x as int].1,
                        q <= children.len(),
                        g == graph_view(graph@),
                        g[x as int].0 == v@,
                        v@ == ns[top as int],
                        distinct(ns),
                        forall|u: Seq<char>, w: Seq<char>| edge(g, u, w) ==> ns.to_set().contains(w),
                        !stack@.contains(top),
                        forall|k: int| 0 <= k < stack.len() ==> #[trigger] stack@[k] < n && marks@[stack@[k] as int],
                        forall|a: int, b: int| 0 <= a < b < stack.len() ==> stack@[a] != stack@[b],
                        forall|k: int| 0 <= k < n && #[trigger] marks@[k] ==> reachable(g, cur@, rs, ns[k]),
                        forall|k: int| 0 <= k < roots.len() && !eq_ci(roots@[k]@, cur@) ==> exists|j: int| 0 <= j < n && ns[j] == roots@[k]@ && #[trigger] marks@[j],
                        forall|k: int, j: int| #![trigger edge(g, ns[k], ns[j])] 0 <= k < n && 0 <= j < n && k != top && marks@[k] && !stack@.contains(k as usize) && edge(g, ns[k], ns[j]) && !eq_ci(ns[j], cur@) ==> marks@[j],
                        forall|y: int, j: int| #![trigger g[y].1.contains(ns[j])] 0 <= y < x && 0 <= j < n && g[y].0 == v@ && g[y].1.contains(ns[j]) && !eq_ci(ns[j], cur@) ==> marks@[j],
                        forall|p: int, j: int| #![trigger g[x as int].1[p], ns[j]] 0 <= p < q && 0 <= j < n && g[x as int].1[p] == ns[j] && !eq_ci(ns[j], cur@) ==> marks@[j],
                        2 * count_false(marks@) + stack.len() < measure,
                    decreases children.len() - q,
                {
                    let c = &children[q];
                    proof {
                        assert(g[x as int].1 == views(children@));
                        assert(g[x as int].1[q as int] == c@);
                        assert(g[x as int].1.contains(c@));
                        assert(edge(g, v@, c@));
                    }
                    if !ci_equal(c, cur) {
                        let j = position(&nodes, c);
                        proof {
                            assert(ns.to_set().contains(c@));
                        }
                        if !marks[j] {
                            proof {
                                assert(reachable(g, cur@, rs, ns[top as int]));
                                assert(edge(g, ns[top as int], ns[j as int]));
                                lemma_reach_step(g, cur@, rs, ns[top as int], ns[j as int]);
                                lemma_count_false_set(marks@, j as int);
                                assert forall|k: int| 0 <= k < stack.len() implies stack@[k] != j by {
                                    assert(marks@[stack@[k] as int]);
                                }
                            }
                            let ghost before = stack@;
                            let ghost m0 = marks@;
                            marks.set(j, true);
                            stack.push(j);
                            proof {
                                assert forall|k: int| 0 <= k < roots.len() && !eq_ci(roots@[k]@, cur@) implies exists|jj: int| 0 <= jj < n && ns[jj] == roots@[k]@ && #[trigger] marks@[jj] by {
                                    let jj = choose|jj: int| 0 <= jj < n && ns[jj] == roots@[k]@ && #[trigger] m0[jj];
                                    assert(marks@[jj]);
                                }
                                assert(stack@ == before.push(j));
                                assert forall|k: usize| #![trigger stack@.contains(k)] !stack@.contains(k) implies !before.contains(k) by {
                                    if before.contains(k) {
                                        let w = choose|w: int| 0 <= w < before.len() && before[w] == k;
                                        assert(stack@[w] == k);
                                    }
                                }
                                assert(stack@[stack.len() - 1] == j);
                                assert(stack@.contains(j));
                                assert forall|k: int| 0 <= k < stack.len() implies #[trigger] stack@[k] < n && marks@[stack@[k] as int] by {
                                    if k < before.len() {
                                        assert(stack@[k] == before[k]);
                                    }
                                }
                                if stack@.contains(top) {
                                    let w = choose|w: int| 0 <= w < stack@.len() && stack@[w] == top;
                                    if w < before.len() {
                                        assert(before[w] == top);
                                    }
                                }
                            }
                        }
                        proof {
                            assert(marks@[j as int]);
                            assert forall|jj: int| 0 <= jj < n && ns[jj] == c@ implies marks@[jj] by {
                                if jj < j {
                                    assert(ns[jj] != ns[j as int]);
                                } else if jj > j {
                                    assert(ns[j as int] != ns[jj]);
                                }
                            }
                        }
                    }
                    proof {
                        assert forall|p: int, jj: int| #![trigger g[x as int].1[p], ns[jj]] 0 <= p < q + 1 && 0 <= jj < n && g[x as int].1[p] == ns[jj] && !eq_ci(ns[jj], cur@) implies marks@[jj] by {
                            if p == q {
                                assert(ns[jj] == c@);
                            }
                        }
                    }
                    q = q + 1;
                }
                proof {
                    assert forall|y: int, j: int| #![trigger g[y].1.contains(ns[j])] 0 <= y < x + 1 && 0 <= j < n && g[y].0 == v@ && g[y].1.contains(ns[j]) && !eq_ci(ns[j], cur@) implies marks@[j] by {
                        if y == x {
                            let p = choose|p: int| 0 <= p < g[y].1.len() && g[y].1[p] == ns[j];
                            assert(g[x as int].1 == views(children@));
                        }
                    }
                }
            }
            x = x + 1;
        }
        proof {
            assert forall|k: int, j: int| #![trigger edge(g, ns[k], ns[j])] 0 <= k < n && 0 <= j < n && marks@[k] && !stack@.contains(k as usize) && edge(g, ns[k], ns[j]) && !eq_ci(ns[j], cur@) implies marks@[j] by {
                if k == top {
                    let y = choose|y: int| 0 <= y < g.len() && #[trigger] g[y].0 == ns[k] && g[y].1.contains(ns[j]);
                }
            }
        }
    }
    // Every reachable package is marked.
    proof {
        assert forall|v: Seq<char>| reachable(g, cur@, rs, v) implies exists|j: int| 0 <= j < n && ns[j] == v && #[trigger] marks@[j] by {
            lemma_reach_marked(g, cur@, rs, roots@, ns, marks@, v);
        }
    }
    // Collect the packages named by the marked ones.
    let mut out: Vec<String> = Vec::new();
    let mut k: usize = 0;
    while k < n
        invariant
            k <= n,
            n == nodes.len(),
            ns == views(nodes@),
            marks.len() == n,
            g == graph_view(graph@),
            views(out@) == marked_children(g, ns, marks@, cur@, k as int),
        decreases n - k,
    {
        let ghost base = views(out@);
        if marks[k] {
            let mut y: usize = 0;
            assert(g.take(0) =~= Seq::<(Seq<char>, Seq<Seq<char>>)>::empty());
            while y < graph.len()
                invariant
                    k < n,
                    n == nodes.len(),
                    ns == views(nodes@),
                    marks.len() == n,
                    y <= graph.len(),
                    g == graph_view(graph@),
                    views(out@) == base + children_of(g.take(y as int), ns[k as int], cur@),
                decreases graph.len() - y,
            {
                let ghost mid = views(out@);
                proof {
                    assert(g.take(y + 1).drop_last() =~= g.take(y as int));
                    assert(g.take(y + 1).last() == g[y as int]);
                }
                if str_eq(&graph[y].0, &nodes[k]) {
                    let children = &graph[y].1;
                    let mut q: usize = 0;
                    assert(g[y as int].1.take(0) =~= Seq::<Seq<char>>::empty());
                    while q < children.len()
                        invariant
                            k < n,
                            y < graph.len(),
                            children == graph@[y as int].1,
                            n == nodes.len(),
                            ns == views(nodes@),
                            q <= children.len(),
                            g == graph_view(graph@),
                            views(out@) == mid + not_named(cur@, g[y as int].1.take(q as int)),
                        decreases children.len() - q,
                    {
                        let c = &children[q];
                        proof {
                            assert(g[y as int].1 == views(children@));
                            assert(g[y as int].1.take(q + 1).drop_last() =~= g[y as int].1.take(q as int));
                            assert(g[y as int].1.take(q + 1).last() == c@);
                        }
                        let ghost before = views(out@);
                        if !ci_equal(c, cur) {
                            out.push(c.clone());
                            assert(views(out@) =~= before.push(c@));
                        }
                        q = q + 1;
                    }
                    proof {
                        assert(g[y as int].1.take(children.len() as int) =~= g[y as int].1);
                        assert(g[y as int].1 == views(children@));
                    }
                }
                y = y + 1;
            }
            assert(g.take(graph.len() as int) =~= g);
        }
        k = k + 1;
    }
    proof {
        assert forall|c: Seq<char>| #![trigger views(out@).contains(c)] views(out@).contains(c) <==> transitive_dep(g, cur@, rs, c) by {
            lemma_marked_children(g, ns, marks@, cur@, n as int, c);
            if views(out@).contains(c) {
                let kk = choose|kk: int| 0 <= kk < n && marks@[kk] && #[trigger] children_of(g, ns[kk], cur@).contains(c);
                lemma_children_of(g, ns[kk], cur@, c);
                assert(reachable(g, cur@, rs, ns[kk]));
            }
            if transitive_dep(g, cur@, rs, c) {
                let v = choose|v: Seq<char>| #[trigger] reachable(g, cur@, rs, v) && edge(g, v, c);
                let j = choose|j: int| 0 <= j < n && ns[j] == v && #[trigger] marks@[j];
                lemma_children_of(g, v, cur@, c);
                assert(children_of(g, ns[j], cur@).contains(c));
            }
        }
    }
    out
}

/// The elements of `cs` not named `cur` (up to ASCII case).
pub open spec fn not_named(cur: Seq<char>, cs: Seq<Seq<char>>) -> Seq<Seq<char>>
    decreases cs.len(),
{
    if cs.len() == 0 {
        Seq::empty()
    } else if eq_ci(cs.last(), cur) {
        not_named(cur, cs.drop_last())
    } else {
        not_named(cur, cs.drop_last()).push(cs.last())
    }
}

/// The dependencies of `v` in `g`, other than `cur`, entry by entry.
pub open spec fn children_of(g: Seq<(Seq<char>, Seq<Seq<char>>)>, v: Seq<char>, cur: Seq<char>) -> Seq<Seq<char>>
    decreases g.len(),
{
    if g.len() == 0 {
        Seq::empty()
    } else if g.last().0 == v {
        children_of(g.drop_last(), v, cur) + not_named(cur, g.last().1)
    } else {
        children_of(g.drop_last(), v, cur)
    }
}

pub open spec fn marked_children(
    g: Seq<(Seq<char>, Seq<Seq<char>>)>,
    ns: Seq<Seq<char>>,
    marks: Seq<bool>,
    cur: Seq<char>,
    k: int,
) -> Seq<Seq<char>>
    decreases k,
{
    if k <= 0 {
        Seq::empty()
    } else if marks[k - 1] {
        marked_children(g, ns, marks, cur, k - 1) + children_of(g, ns[k - 1], cur)
    } else {
        marked_children(g, ns, marks, cur, k - 1)
    }
}

pub proof fn lemma_not_named(cur: Seq<char>, cs: Seq<Seq<char>>, c: Seq<char>)
    ensures
        not_named(cur, cs).contains(c) <==> (cs.contains(c) && !eq_ci(c, cur)),
    decreases cs.len(),
{
    if cs.len() > 0 {
        lemma_not_named(cur, cs.drop_last(), c);
        let p = not_named(cur, cs.drop_last());
        if cs.contains(c) {
            let w = choose|w: int| 0 <= w < cs.len() && cs[w] == c;
            if w < cs.len() - 1 {
                assert(cs.drop_last()[w] == c);
            }
        }
        if cs.drop_last().contains(c) {
            let w = choose|w: int| 0 <= w < cs.drop_last().len() && cs.drop_last()[w] == c;
            assert(cs[w] == c);
        }
        if !eq_ci(cs.last(), cur) {
            let q = p.push(cs.last());
            if q.contains(c) {
                let w = choose|w: int| 0 <= w < q.len() && q[w] == c;
                if w < p.len() {
                    assert(p[w] == c);
                }
            }
            if p.contains(c) {
                let w = choose|w: int| 0 <= w < p.len() && p[w] == c;
                assert(q[w] == c);
            }
            assert(q[p.len() as int] == cs.last());
        }
    }
}

proof fn lemma_concat_contains(a: Seq<Seq<char>>, b: Seq<Seq<char>>, c: Seq<char>)
    ensures
        (a + b).contains(c) <==> (a.contains(c) || b.contains(c)),
{
    if (a + b).contains(c) {
        let w = choose|w: int| 0 <= w < (a + b).len() && (a + b)[w] == c;
        if w < a.len() {
            assert(a[w] == c);
        } else {
            assert(b[w - a.len()] == c);
        }
    }
    if a.contains(c) {
        let w = choose|w: int| 0 <= w < a.len() && a[w] == c;
        assert((a + b)[w] == c);
    }
    if b.contains(c) {
        let w = choose|w: int| 0 <= w < b.len() && b[w] == c;
        assert((a + b)[w + a.len()] == c);
    }
}

pub proof fn lemma_children_of(g: Seq<(Seq<char>, Seq<Seq<char>>)>, v: Seq<char>, cur: Seq<char>, c: Seq<char>)
    ensures
        children_of(g, v, cur).contains(c) <==> (!eq_ci(c, cur) && edge(g, v, c)),
    decreases g.len(),
{
    if g.len() > 0 {
        let h = g.drop_last();
        lemma_children_of(h, v, cur, c);
        if g.last().0 == v {
            lemma_concat_contains(children_of(h, v, cur), not_named(cur, g.last().1), c);
            lemma_not_named(cur, g.last().1, c);
        }
        if edge(g, v, c) {
            let i = choose|i: int| 0 <= i < g.len() && #[trigger] g[i].0 == v && g[i].1.contains(c);
            if i < g.len() - 1 {
                assert(h[i].0 == v);
                assert(edge(h, v, c));
            }
        }
        if edge(h, v, c) {
            let i = choose|i: int| 0 <= i < h.len() && #[trigger] h[i].0 == v && h[i].1.contains(c);
            assert(g[i].0 == v);
        }
        if g.last().0 == v && g.last().1.contains(c) {
            assert(g[g.len() - 1].0 == v);
        }
    }
}

proof fn lemma_marked_children(
    g: Seq<(Seq<char>, Seq<Seq<char>>)>,
    ns: Seq<Seq<char>>,
    marks: Seq<bool>,
    cur: Seq<char>,
    k: int,
    c: Seq<char>,
)
    requires
        0 <= k <= marks.len(),
    ensures
        marked_children(g, ns, marks, cur, k).contains(c) <==> exists|kk: int| 0 <= kk < k && marks[kk] && #[trigger] children_of(g, ns[kk], cur).contains(c),
    decreases k,
{
    if k > 0 {
        lemma_marked_children(g, ns, marks, cur, k - 1, c);
        if marks[k - 1] {
            lemma_concat_contains(marked_children(g, ns, marks, cur, k - 1), children_of(g, ns[k - 1], cur), c);
        }
        if exists|kk: int| 0 <= kk < k && marks[kk] && #[trigger] children_of(g, ns[kk], cur).contains(c) {
            let kk = choose|kk: int| 0 <= kk < k && marks[kk] && #[trigger] children_of(g, ns[kk], cur).contains(c);
            if kk < k - 1 {
            }
        }
    }
}

proof fn lemma_root_reachable(g: Seq<(Seq<char>, Seq<Seq<char>>)>, cur: Seq<char>, rs: Set<Seq<char>>, r: Seq<char>)
    requires
        rs.contains(r),
        !eq_ci(r, cur),
    ensures
        reachable(g, cur, rs, r),
{
    let p = seq![r];
    assert(is_path(g, cur, rs, p));
}

proof fn lemma_reach_step(
    g: Seq<(Seq<char>, Seq<Seq<char>>)>,
    cur: Seq<char>,
    rs: Set<Seq<char>>,
    u: Seq<char>,
    v: Seq<char>,
)
    requires
        reachable(g, cur, rs, u),
        edge(g, u, v),
        !eq_ci(v, cur),
    ensures
        reachable(g, cur, rs, v),
{
    let p = choose|p: Seq<Seq<char>>| #[trigger] is_path(g, cur, rs, p) && p.last() == u;
    let q = p.push(v);
    assert forall|i: int| 0 <= i < q.len() implies !eq_ci(#[trigger] q[i], cur) by {
        if i < p.len() {
            assert(q[i] == p[i]);
        }
    }
    assert forall|i: int, j: int| #![trigger q[i], q[j]] 0 <= i && j == i + 1 && j < q.len() implies edge(g, q[i], q[j]) by {
        if j < p.len() {
            assert(q[i] == p[i]);
            assert(q[j] == p[j]);
        } else {
            assert(q[i] == p[i]);
            assert(p[i] == u);
        }
    }
    assert(q[0] == p[0]);
    assert(is_path(g, cur, rs, q));
    assert(q.last() == v);
}

proof fn lemma_reach_marked(
    g: Seq<(Seq<char>, Seq<Seq<char>>)>,
    cur: Seq<char>,
    rs: Set<Seq<char>>,
    roots: Seq<String>,
    ns: Seq<Seq<char>>,
    marks: Seq<bool>,
    v: Seq<char>,
)
    requires
        ns.len() == marks.len(),
        rs == views(roots).to_set(),
        reachable(g, cur, rs, v),
        forall|k: int| 0 <= k < roots.len() && !eq_ci(roots[k]@, cur) ==> exists|j: int| 0 <= j < ns.len() && ns[j] == roots[k]@ && #[trigger] marks[j],
        forall|u: Seq<char>, w: Seq<char>| edge(g, u, w) ==> ns.to_set().contains(w),
        forall|k: int, j: int| #![trigger edge(g, ns[k], ns[j])] 0 <= k < ns.len() && 0 <= j < ns.len() && marks[k] && edge(g, ns[k], ns[j]) && !eq_ci(ns[j], cur) ==> marks[j],
    ensures
        exists|j: int| 0 <= j < ns.len() && ns[j] == v && #[trigger] marks[j],
{
    let p = choose|p: Seq<Seq<char>>| #[trigger] is_path(g, cur, rs, p) && p.last() == v;
    lemma_path_marked(g, cur, rs, roots, ns, marks, p, p.len() - 1);
}

proof fn lemma_path_marked(
    g: Seq<(Seq<char>, Seq<Seq<char>>)>,
    cur: Seq<char>,
    rs: Set<Seq<char>>,
    roots: Seq<String>,
    ns: Seq<Seq<char>>,
    marks: Seq<bool>,
    p: Seq<Seq<char>>,
    i: int,
)
    requires
        ns.len() == marks.len(),
        rs == views(roots).to_set(),
        is_path(g, cur, rs, p),
        0 <= i < p.len(),
        forall|k: int| 0 <= k < roots.len() && !eq_ci(roots[k]@, cur) ==> exists|j: int| 0 <= j < ns.len() && ns[j] == roots[k]@ && #[trigger] marks[j],
        forall|u: Seq<char>, w: Seq<char>| edge(g, u, w) ==> ns.to_set().contains(w),
        forall|k: int, j: int| #![trigger edge(g, ns[k], ns[j])] 0 <= k < ns.len() && 0 <= j < ns.len() && marks[k] && edge(g, ns[k], ns[j]) && !eq_ci(ns[j], cur) ==> marks[j],
    ensures
        exists|j: int| 0 <= j < ns.len() && ns[j] == p[i] && #[trigger] marks[j],
    decreases i,
{
    if i == 0 {
        assert(!eq_ci(p[0], cur));
        assert(views(roots).to_set().contains(p[0]));
        let k = choose|k: int| 0 <= k < views(roots).len() && views(roots)[k] == p[0];
        assert(roots[k]@ == p[0]);
    } else {
        lemma_path_marked(g, cur, rs, roots, ns, marks, p, i - 1);
        let ku = choose|ku: int| 0 <= ku < ns.len() && ns[ku] == p[i - 1] && #[trigger] marks[ku];
        assert(edge(g, p[i - 1], p[i]));
        assert(!eq_ci(p[i], cur));
        assert(ns.to_set().contains(p[i]));
        let jv = choose|jv: int| 0 <= jv < ns.len() && ns[jv] == p[i];
        assert(edge(g, ns[ku], ns[jv]));
        assert(marks[jv]);
    }
}

/// The transitive dependencies are closed under the graph: a dependency,
/// other than `cur`, of a transitive dependency is itself one.
pub proof fn law_transitive_closed(
    g: Seq<(Seq<char>, Seq<Seq<char>>)>,
    cur: Seq<char>,
    roots: Set<Seq<char>>,
    c: Seq<char>,
    d: Seq<char>,
)
    requires
        transitive_dep(g, cur, roots, c),
        edge(g, c, d),
        !eq_ci(d, cur),
    ensures
        transitive_dep(g, cur, roots, d),
{
    let v = choose|v: Seq<char>| #[trigger] reachable(g, cur, roots, v) && edge(g, v, c);
    lemma_reach_step(g, cur, roots, v, c);
    assert(reachable(g, cur, roots, c) && edge(g, c, d));
}

/// A package named `cur` is never a transitive dependency.
pub proof fn law_transitive_excludes_self(
    g: Seq<(Seq<char>, Seq<Seq<char>>)>,
    cur: Seq<char>,
    roots: Set<Seq<char>>,
    c: Seq<char>,
)
    requires
        eq_ci(c, cur),
    ensures
        !transitive_dep(g, cur, roots, c),
{
}

} // verus!
