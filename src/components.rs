//! Connected components of a graph on `[0, n)`, computed with union_find's
//! disjoint-set forest.
use union_find::{QuickUnionUf, UnionByRank, UnionFind};
use vstd::prelude::*;

verus! {

#[verifier::external_type_specification]
#[verifier::external_body]
#[verifier::reject_recursive_types(V)]
pub struct ExQuickUnionUf<V>(QuickUnionUf<V>);

#[verifier::external_type_specification]
#[verifier::external_body]
pub struct ExUnionByRank(UnionByRank);

/// The root that each key of a forest reaches.
pub uninterp spec fn uf_roots(uf: QuickUnionUf<UnionByRank>) -> Seq<int>;

/// Relies on union_find's `UnionFind::new`: `n` keys, each its own root.
#[verifier::external_body]
fn uf_new(n: usize) -> (uf: QuickUnionUf<UnionByRank>)
    ensures
        uf_roots(uf) == Seq::new(n as nat, |i: int| i),
{
    QuickUnionUf::<UnionByRank>::new(n)
}

/// Relies on `QuickUnionUf::find`: the key's root; path compression keeps every root.
#[verifier::external_body]
fn uf_find(uf: &mut QuickUnionUf<UnionByRank>, key: usize) -> (r: usize)
    requires
        key < uf_roots(*old(uf)).len(),
    ensures
        uf_roots(*final(uf)) == uf_roots(*old(uf)),
        r as int == uf_roots(*old(uf))[key as int],
{
    uf.find(key)
}

/// Relies on `QuickUnionUf::union`: when the keys' roots differ, one of the two
/// roots becomes the root of every key of the other's set; otherwise nothing changes.
#[verifier::external_body]
fn uf_union(uf: &mut QuickUnionUf<UnionByRank>, a: usize, b: usize) -> (r: bool)
    requires
        a < uf_roots(*old(uf)).len(),
        b < uf_roots(*old(uf)).len(),
    ensures
        uf_roots(*final(uf)).len() == uf_roots(*old(uf)).len(),
        r == (uf_roots(*old(uf))[a as int] != uf_roots(*old(uf))[b as int]),
        !r ==> uf_roots(*final(uf)) == uf_roots(*old(uf)),
        r ==> merged_into(uf_roots(*old(uf)), uf_roots(*final(uf)), a as int, b as int)
            || merged_into(uf_roots(*old(uf)), uf_roots(*final(uf)), b as int, a as int),
{
    uf.union(a, b)
}

/// `after` is `before` with the set of `loser` joined under the root of `winner`.
pub open spec fn merged_into(before: Seq<int>, after: Seq<int>, winner: int, loser: int) -> bool {
    forall|i: int|
        0 <= i < before.len() ==> #[trigger] after[i] == if before[i] == before[loser] {
            before[winner]
        } else {
            before[i]
        }
}

/// Whether an edge joins `a` and `b`, in either direction.
pub open spec fn is_edge(edges: Seq<(usize, usize)>, a: int, b: int) -> bool {
    exists|k: int|
        0 <= k < edges.len() && ((#[trigger] edges[k].0 == a && edges[k].1 == b) || (edges[k].0 == b
            && edges[k].1 == a))
}

/// Whether `p` is a walk along edges.
pub open spec fn is_walk(edges: Seq<(usize, usize)>, p: Seq<int>) -> bool {
    p.len() >= 1 && forall|k: int| 0 <= k < p.len() - 1 ==> is_edge(edges, #[trigger] p[k], p[k + 1])
}

/// Whether a walk along edges leads from `a` to `b`.
pub open spec fn connected(edges: Seq<(usize, usize)>, a: int, b: int) -> bool {
    exists|p: Seq<int>| #[trigger] is_walk(edges, p) && p[0] == a && p.last() == b
}

/// The pairs `(p, q)` with `p < q < q_end` and `rel(p, q)`, by increasing `q`.
pub open spec fn row_pairs(rel: spec_fn(int, int) -> bool, p: int, q_end: int) -> Seq<(usize, usize)>
    decreases q_end - p,
{
    if q_end <= p + 1 {
        Seq::empty()
    } else {
        row_pairs(rel, p, q_end - 1) + if rel(p, q_end - 1) {
            seq![(p as usize, (q_end - 1) as usize)]
        } else {
            Seq::empty()
        }
    }
}

/// The pairs `(p, q)` with `p < p_end`, `p < q < n` and `rel(p, q)`, in row order.
pub open spec fn related_pairs(rel: spec_fn(int, int) -> bool, p_end: int, n: int) -> Seq<(usize, usize)>
    decreases p_end,
{
    if p_end <= 0 {
        Seq::empty()
    } else {
        related_pairs(rel, p_end - 1, n) + row_pairs(rel, p_end - 1, n)
    }
}

/// Whether `x` is a member of one of `groups`.
pub open spec fn in_some_group(groups: Seq<Seq<usize>>, x: int) -> bool {
    exists|g: int, k: int| 0 <= g < groups.len() && 0 <= k < groups[g].len() && #[trigger] groups[g][k] == x
}

pub open spec fn listed(groups: Seq<Vec<usize>>, x: int) -> bool {
    exists|g: int, k: int| 0 <= g < groups.len() && 0 <= k < groups[g]@.len() && #[trigger] groups[g]@[k] == x
}

/// `groups` lists the connected components of the graph on `[0, n)`: each index in
/// exactly one group, a group ascending, groups ordered by their smallest index.
pub open spec fn is_component_partition(
    n: nat,
    edges: Seq<(usize, usize)>,
    groups: Seq<Seq<usize>>,
) -> bool {
    &&& forall|g: int| 0 <= g < groups.len() ==> (#[trigger] groups[g]).len() > 0
    &&& forall|g: int, k: int| 0 <= g < groups.len() && 0 <= k < groups[g].len() ==> #[trigger] groups[g][k] < n
    &&& forall|g: int, k1: int, k2: int|
        0 <= g < groups.len() && 0 <= k1 < k2 < groups[g].len() ==> #[trigger] groups[g][k1] < #[trigger] groups[g][k2]
    &&& forall|x: int| 0 <= x < n ==> #[trigger] in_some_group(groups, x)
    &&& forall|g1: int, k1: int, g2: int, k2: int|
        0 <= g1 < groups.len() && 0 <= k1 < groups[g1].len() && 0 <= g2 < groups.len() && 0 <= k2 < groups[g2].len()
            ==> (connected(edges, #[trigger] groups[g1][k1] as int, #[trigger] groups[g2][k2] as int) <==> g1 == g2)
    &&& forall|g1: int, g2: int| 0 <= g1 < g2 < groups.len() ==> #[trigger] groups[g1][0] < #[trigger] groups[g2][0]
}

pub proof fn lemma_connected_refl(edges: Seq<(usize, usize)>, a: int)
    ensures
        connected(edges, a, a),
{
    assert(is_walk(edges, seq![a]));
}

pub proof fn lemma_edge_connected(edges: Seq<(usize, usize)>, a: int, b: int)
    requires
        is_edge(edges, a, b),
    ensures
        connected(edges, a, b),
{
    let p = seq![a, b];
    assert(p[0] == a);
    assert(is_walk(edges, p));
}

pub proof fn lemma_connected_sym(edges: Seq<(usize, usize)>, a: int, b: int)
    requires
        connected(edges, a, b),
    ensures
        connected(edges, b, a),
{
    let p = choose|p: Seq<int>| #[trigger] is_walk(edges, p) && p[0] == a && p.last() == b;
    let q = Seq::new(p.len(), |i: int| p[p.len() - 1 - i]);
    assert forall|k: int| 0 <= k < q.len() - 1 implies is_edge(edges, #[trigger] q[k], q[k + 1]) by {
        let j = p.len() - 2 - k;
        assert(is_edge(edges, p[j], p[j + 1]));
        let e = choose|e: int|
            0 <= e < edges.len() && ((#[trigger] edges[e].0 == p[j] && edges[e].1 == p[j + 1]) || (edges[e].0 == p[j + 1]
                && edges[e].1 == p[j]));
        assert(edges[e].0 == q[k] && edges[e].1 == q[k + 1] || edges[e].0 == q[k + 1] && edges[e].1 == q[k]);
    }
    assert(is_walk(edges, q));
}

pub proof fn lemma_connected_trans(edges: Seq<(usize, usize)>, a: int, b: int, c: int)
    requires
        connected(edges, a, b),
        connected(edges, b, c),
    ensures
        connected(edges, a, c),
{
    let p = choose|p: Seq<int>| #[trigger] is_walk(edges, p) && p[0] == a && p.last() == b;
    let q = choose|q: Seq<int>| #[trigger] is_walk(edges, q) && q[0] == b && q.last() == c;
    let w = p + q.drop_first();
    assert forall|k: int| 0 <= k < w.len() - 1 implies is_edge(edges, #[trigger] w[k], w[k + 1]) by {
        if k < p.len() - 1 {
            assert(is_edge(edges, p[k], p[k + 1]));
        } else {
            let j = k - (p.len() - 1);
            assert(is_edge(edges, q[j], q[j + 1]));
            if k == p.len() - 1 {
                assert(w[k] == b);
            }
        }
    }
    assert(is_walk(edges, w));
    if q.len() == 1 {
        assert(w.last() == p.last());
    }
}

/// Roots of a forest on `n` keys: each root is its own root.
pub open spec fn roots_wf(roots: Seq<int>, n: nat) -> bool {
    roots.len() == n && forall|i: int|
        0 <= i < n ==> 0 <= #[trigger] roots[i] < n && roots[roots[i]] == roots[i]
}

/// Keys with one root are connected.
pub open spec fn roots_sound(roots: Seq<int>, edges: Seq<(usize, usize)>) -> bool {
    forall|x: int, y: int|
        0 <= x < roots.len() && 0 <= y < roots.len() && #[trigger] roots[x] == #[trigger] roots[y]
            ==> connected(edges, x, y)
}

proof fn lemma_walk_one_root(roots: Seq<int>, edges: Seq<(usize, usize)>, p: Seq<int>)
    requires
        is_walk(edges, p),
        0 <= p[0] < roots.len(),
        forall|k: int| 0 <= k < edges.len() ==> (#[trigger] edges[k]).0 < roots.len() && edges[k].1 < roots.len()
            && roots[edges[k].0 as int] == roots[edges[k].1 as int],
    ensures
        0 <= p.last() < roots.len(),
        roots[p[0]] == roots[p.last()],
    decreases p.len(),
{
    if p.len() > 1 {
        let q = p.drop_last();
        assert forall|k: int| 0 <= k < q.len() - 1 implies is_edge(edges, #[trigger] q[k], q[k + 1]) by {
            assert(is_edge(edges, p[k], p[k + 1]));
        }
        lemma_walk_one_root(roots, edges, q);
        let j = p.len() - 2;
        assert(is_edge(edges, p[j], p[j + 1]));
        let e = choose|e: int|
            0 <= e < edges.len() && ((#[trigger] edges[e].0 == p[j] && edges[e].1 == p[j + 1]) || (edges[e].0 == p[j + 1]
                && edges[e].1 == p[j]));
        assert(roots[edges[e].0 as int] == roots[edges[e].1 as int]);
    }
}

/// The connected components of the graph on `[0, n)` with the given edges.
pub fn components(n: usize, edges: &Vec<(usize, usize)>) -> (groups: Vec<Vec<usize>>)
    requires
        forall|k: int| 0 <= k < edges@.len() ==> (#[trigger] edges@[k]).0 < n && edges@[k].1 < n,
    ensures
        is_component_partition(n as nat, edges@, groups@.map_values(|g: Vec<usize>| g@)),
{
    let ghost es = edges@;
    let mut uf = uf_new(n);
    proof {
        let roots = uf_roots(uf);
        assert forall|x: int, y: int|
            0 <= x < roots.len() && 0 <= y < roots.len() && #[trigger] roots[x] == #[trigger] roots[y]
            implies connected(es, x, y) by {
            lemma_connected_refl(es, x);
        }
    }
    let mut k: usize = 0;
    while k < edges.len()
        invariant
            k <= edges.len(),
            es == edges@,
            forall|j: int| 0 <= j < es.len() ==> (#[trigger] es[j]).0 < n && es[j].1 < n,
            roots_wf(uf_roots(uf), n as nat),
            roots_sound(uf_roots(uf), es),
            forall|j: int| 0 <= j < k ==> uf_roots(uf)[(#[trigger] es[j]).0 as int] == uf_roots(uf)[es[j].1 as int],
        decreases edges.len() - k,
    {
        let (a, b) = edges[k];
        let ghost before = uf_roots(uf);
        let joined = uf_union(&mut uf, a, b);
        proof {
            let after = uf_roots(uf);
            assert(is_edge(es, a as int, b as int)) by {
                assert(es[k as int].0 == a && es[k as int].1 == b);
            }
            if joined {
                let (w, l) = if merged_into(before, after, a as int, b as int) {
                    (a as int, b as int)
                } else {
                    (b as int, a as int)
                };
                assert(merged_into(before, after, w, l));
                assert(is_edge(es, w, l));
                // the new roots are a forest
                assert forall|i: int| 0 <= i < n implies 0 <= #[trigger] after[i] < n && after[after[i]] == after[i] by {
                    assert(after[i] == if before[i] == before[l] { before[w] } else { before[i] });
                    assert(after[before[w]] == before[w]);
                    if before[i] != before[l] {
                        assert(after[before[i]] == before[before[i]]);
                    }
                }
                // keys that now share a root are connected
                assert forall|x: int, y: int|
                    0 <= x < after.len() && 0 <= y < after.len() && #[trigger] after[x] == #[trigger] after[y]
                    implies connected(es, x, y) by {
                    assert(after[x] == if before[x] == before[l] { before[w] } else { before[x] });
                    assert(after[y] == if before[y] == before[l] { before[w] } else { before[y] });
                    lemma_edge_connected(es, w, l);
                    if before[x] == before[l] && before[y] != before[l] {
                        // x ~ l, l - w, w ~ y
                        lemma_connected_sym(es, w, l);
                        lemma_connected_trans(es, x, l, w);
                        lemma_connected_trans(es, x, w, y);
                    } else if before[x] != before[l] && before[y] == before[l] {
                        lemma_connected_trans(es, x, w, l);
                        lemma_connected_trans(es, x, l, y);
                    }
                }
                assert forall|j: int| 0 <= j <= k implies after[(#[trigger] es[j]).0 as int] == after[es[j].1 as int] by {
                    let u = es[j].0 as int;
                    let v = es[j].1 as int;
                    assert(after[u] == if before[u] == before[l] { before[w] } else { before[u] });
                    assert(after[v] == if before[v] == before[l] { before[w] } else { before[v] });
                }
            }
        }
        k = k + 1;
    }
    // label each key with the group of its root, groups in order of first key
    let mut reps: Vec<usize> = Vec::new();
    let mut groups: Vec<Vec<usize>> = Vec::new();
    let ghost roots = uf_roots(uf);
    proof {
        // every connected pair shares a root
        assert forall|x: int, y: int| 0 <= x < n && 0 <= y < n && connected(es, x, y) implies roots[x] == roots[y] by {
            let p = choose|p: Seq<int>| #[trigger] is_walk(es, p) && p[0] == x && p.last() == y;
            lemma_walk_one_root(roots, es, p);
        }
    }
    let mut i: usize = 0;
    while i < n
        invariant
            i <= n,
            uf_roots(uf) == roots,
            roots_wf(roots, n as nat),
            roots_sound(roots, es),
            forall|x: int, y: int| 0 <= x < n && 0 <= y < n && connected(es, x, y) ==> roots[x] == roots[y],
            reps@.len() == groups@.len(),
            forall|g1: int, g2: int| 0 <= g1 < g2 < reps@.len() ==> reps@[g1] != reps@[g2],
            forall|g: int| 0 <= g < groups@.len() ==> (#[trigger] groups@[g])@.len() > 0,
            forall|g: int, k: int| 0 <= g < groups@.len() && 0 <= k < groups@[g]@.len() ==>
                #[trigger] groups@[g]@[k] < i && roots[groups@[g]@[k] as int] == reps@[g] as int,
            forall|g: int, k1: int, k2: int| 0 <= g < groups@.len() && 0 <= k1 < k2 < groups@[g]@.len() ==>
                #[trigger] groups@[g]@[k1] < #[trigger] groups@[g]@[k2],
            forall|x: int| 0 <= x < i ==> #[trigger] listed(groups@, x),
            forall|g1: int, g2: int| 0 <= g1 < g2 < groups@.len() ==> #[trigger] groups@[g1]@[0] < #[trigger] groups@[g2]@[0],
        decreases n - i,
    {
        let r = uf_find(&mut uf, i);
        let mut g: usize = 0;
        while g < reps.len() && reps[g] != r
            invariant
                g <= reps@.len(),
                forall|h: int| 0 <= h < g ==> reps@[h] != r,
            decreases reps@.len() - g,
        {
            g = g + 1;
        }
        let ghost old_groups = groups@;
        if g < reps.len() {
            groups[g].push(i);
            proof {
                assert(groups@[g as int]@ == old_groups[g as int]@.push(i));
                assert forall|h: int| 0 <= h < groups@.len() && h != g implies groups@[h] == old_groups[h] by {}
                assert forall|x: int| 0 <= x < i + 1 implies #[trigger] listed(groups@, x) by {
                    if x < i {
                        assert(listed(old_groups, x));
                        let (h, k) = choose|h: int, k: int|
                            0 <= h < old_groups.len() && 0 <= k < old_groups[h]@.len() && #[trigger] old_groups[h]@[k] == x;
                        if h == g {
                            assert(groups@[h]@[k] == old_groups[h]@[k]);
                        }
                        assert(groups@[h]@[k] == x);
                    } else {
                        assert(groups@[g as int]@[old_groups[g as int]@.len() as int] == x);
                    }
                }
            }
        } else {
            reps.push(r);
            groups.push(vec![i]);
            proof {
                assert(groups@[g as int]@ == seq![i]);
                assert forall|x: int| 0 <= x < i + 1 implies #[trigger] listed(groups@, x) by {
                    if x < i {
                        assert(listed(old_groups, x));
                        let (h, k) = choose|h: int, k: int|
                            0 <= h < old_groups.len() && 0 <= k < old_groups[h]@.len() && #[trigger] old_groups[h]@[k] == x;
                        assert(groups@[h] == old_groups[h]);
                        assert(groups@[h]@[k] == x);
                    } else {
                        assert(groups@[g as int]@[0] == x);
                    }
                }
                assert forall|h: int| 0 <= h < g implies #[trigger] groups@[h]@[0] < groups@[g as int]@[0] by {
                    assert(groups@[h]@[0] < i);
                }
            }
        }
        i = i + 1;
    }
    proof {
        let gm = groups@.map_values(|g: Vec<usize>| g@);
        assert forall|g1: int, k1: int, g2: int, k2: int|
            0 <= g1 < gm.len() && 0 <= k1 < gm[g1].len() && 0 <= g2 < gm.len() && 0 <= k2 < gm[g2].len()
            implies (connected(es, #[trigger] gm[g1][k1] as int, #[trigger] gm[g2][k2] as int) <==> g1 == g2) by {
            let x = gm[g1][k1] as int;
            let y = gm[g2][k2] as int;
            assert(roots[x] == reps@[g1] as int);
            assert(roots[y] == reps@[g2] as int);
            if g1 == g2 {
                assert(roots[x] == roots[y]);
            } else {
                if connected(es, x, y) {
                    assert(roots[x] == roots[y]);
                    if g1 < g2 {
                        assert(reps@[g1] != reps@[g2]);
                    } else {
                        assert(reps@[g2] != reps@[g1]);
                    }
                }
            }
        }
        assert forall|x: int| 0 <= x < n implies #[trigger] in_some_group(gm, x) by {
            assert(listed(groups@, x));
            let (h, k) = choose|h: int, k: int|
                0 <= h < groups@.len() && 0 <= k < groups@[h]@.len() && #[trigger] groups@[h]@[k] == x;
            assert(gm[h][k] == x);
        }
        assert(is_component_partition(n as nat, es, gm));
    }
    groups
}

} // verus!
