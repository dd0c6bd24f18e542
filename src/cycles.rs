use vstd::prelude::*;
use crate::elements::Edge;
use crate::graph_circ::{CircGraph, arc_of, arcs_of, is_walk, is_cycle, has_cycle, is_simple_canonical_cycle, is_source, edge_ends, edge_in, edges_of_graph};

verus! {

// ---------------------------------------------------------------------------
// Paths as sequences of edge positions.

/// `q` is a walk through the edges at these positions of `es`.
pub open spec fn is_index_walk(es: Seq<(u64, u64)>, q: Seq<usize>) -> bool {
    &&& forall|k: int| 0 <= k < q.len() ==> #[trigger] q[k] < es.len()
    &&& forall|k: int| 0 <= k < q.len() - 1 ==> es[#[trigger] q[k] as int].1 == es[q[k + 1] as int].0
}

/// A walk that leaves each vertex at most once.
pub open spec fn is_open_path(es: Seq<(u64, u64)>, q: Seq<usize>) -> bool {
    &&& q.len() > 0
    &&& is_index_walk(es, q)
    &&& forall|i: int, j: int| 0 <= i < j < q.len() ==> es[q[i] as int].0 != es[q[j] as int].0
}

/// The walk `q` ends at a vertex that it has already left.
pub open spec fn comes_back(es: Seq<(u64, u64)>, q: Seq<usize>) -> bool {
    exists|k: int| 0 <= k < q.len() && #[trigger] es[q[k] as int].0 == es[q.last() as int].1
}

/// Some continuation of the walk `q` returns to a vertex the walk has left.
pub open spec fn may_return(es: Seq<(u64, u64)>, q: Seq<usize>) -> bool {
    exists|x: Seq<usize>| #[trigger] is_index_walk(es, q + x) && comes_back(es, q + x)
}

/// The arcs along the walk `q`.
pub open spec fn walk_arcs(es: Seq<(u64, u64)>, q: Seq<usize>) -> Seq<(u64, u64)> {
    q.map_values(|i: usize| es[i as int])
}

pub(crate) proof fn lemma_distinct_positions_bound(q: Seq<usize>, n: nat)
    requires
        q.no_duplicates(),
        forall|k: int| 0 <= k < q.len() ==> #[trigger] q[k] < n,
    ensures
        q.len() <= n,
{
    let qi = q.map_values(|x: usize| x as int);
    assert forall|i: int, j: int| 0 <= i < qi.len() && 0 <= j < qi.len() && i != j implies qi[i] != qi[j] by {
        assert(q[i] != q[j]);
    }
    assert(qi.no_duplicates());
    qi.unique_seq_to_set();
    vstd::set_lib::lemma_int_range(0, n as int);
    assert(qi.to_set().subset_of(vstd::set_lib::set_int_range(0, n as int))) by {
        assert forall|x: int| qi.to_set().contains(x) implies vstd::set_lib::set_int_range(0, n as int).contains(x) by {
            assert(qi.contains(x));
            let k = choose|k: int| 0 <= k < qi.len() && qi[k] == x;
            assert(q[k] < n);
        }
    }
    vstd::set_lib::lemma_len_subset(qi.to_set(), vstd::set_lib::set_int_range(0, n as int));
}

proof fn lemma_open_path_bound(es: Seq<(u64, u64)>, q: Seq<usize>)
    requires
        is_open_path(es, q),
    ensures
        q.len() <= es.len(),
{
    assert forall|i: int, j: int| 0 <= i < j < q.len() implies q[i] != q[j] by {
        assert(es[q[i] as int].0 != es[q[j] as int].0);
    }
    assert(q.no_duplicates());
    lemma_distinct_positions_bound(q, es.len());
}

/// A walk that returns to a vertex it has left holds a cycle.
pub(crate) proof fn lemma_return_gives_cycle(es: Seq<(u64, u64)>, q: Seq<usize>)
    requires
        is_index_walk(es, q),
        q.len() > 0,
        comes_back(es, q),
    ensures
        has_cycle(es.to_set()),
{
    let k = choose|k: int| 0 <= k < q.len() && #[trigger] es[q[k] as int].0 == es[q.last() as int].1;
    let c = walk_arcs(es, q.subrange(k, q.len() as int));
    assert forall|m: int| 0 <= m < c.len() implies es.to_set().contains(#[trigger] c[m]) by {
        assert(c[m] == es[q[k + m] as int]);
        assert(q[k + m] < es.len());
        assert(es.contains(c[m]));
    }
    assert forall|m: int| 0 <= m < c.len() - 1 implies (#[trigger] c[m]).1 == c[m + 1].0 by {
        assert(c[m] == es[q[k + m] as int]);
        assert(c[m + 1] == es[q[k + m + 1] as int]);
        assert(es[q[k + m] as int].1 == es[q[k + m + 1] as int].0);
    }
    assert(is_cycle(es.to_set(), c));
}

/// A cycle over the arcs of `es` is seen by a walk from one of its edges.
proof fn lemma_cycle_gives_return(es: Seq<(u64, u64)>)
    requires
        has_cycle(es.to_set()),
        es.len() <= usize::MAX,
    ensures
        exists|t: usize| t < es.len() && #[trigger] may_return(es, seq![t]),
{
    let c = choose|c: Seq<(u64, u64)>| is_cycle(es.to_set(), c);
    assert forall|m: int| 0 <= m < c.len() implies es.contains(#[trigger] c[m]) by {
        assert(es.to_set().contains(c[m]));
    }
    let q = Seq::new(c.len(), |m: int| (choose|j: usize| j < es.len() && es[j as int] == c[m]));
    assert forall|m: int| 0 <= m < c.len() implies #[trigger] q[m] < es.len() && es[q[m] as int] == c[m] by {
        assert(es.contains(c[m]));
        let j = choose|j: int| 0 <= j < es.len() && es[j] == c[m];
        assert((j as usize) < es.len() && es[(j as usize) as int] == c[m]);
    }
    let t = q[0];
    let x = q.drop_first();
    assert(seq![t] + x =~= q);
    assert(is_index_walk(es, q)) by {
        assert forall|k: int| 0 <= k < q.len() - 1 implies es[#[trigger] q[k] as int].1 == es[q[k + 1] as int].0 by {
            assert(c[k].1 == c[k + 1].0);
        }
    }
    assert(comes_back(es, q)) by {
        assert(es[q[0] as int].0 == es[q.last() as int].1);
    }
    assert(may_return(es, seq![t]));
}

/// A walk from `t` that returns is also one after any path that leads to `t`.
proof fn lemma_may_return_extends(es: Seq<(u64, u64)>, p: Seq<usize>, t: usize)
    requires
        is_index_walk(es, p.push(t)),
        may_return(es, seq![t]),
    ensures
        may_return(es, p.push(t)),
{
    let x = choose|x: Seq<usize>| #[trigger] is_index_walk(es, seq![t] + x) && comes_back(es, seq![t] + x);
    let q1 = seq![t] + x;
    let q2 = p.push(t) + x;
    assert(q2 =~= p + q1);
    assert forall|k: int| 0 <= k < q2.len() implies #[trigger] q2[k] < es.len() by {
        if k >= p.len() {
            assert(q2[k] == q1[k - p.len()]);
        }
    }
    assert forall|k: int| 0 <= k < q2.len() - 1 implies es[#[trigger] q2[k] as int].1 == es[q2[k + 1] as int].0 by {
        if k >= p.len() {
            assert(q2[k] == q1[k - p.len()]);
            assert(q2[k + 1] == q1[k + 1 - p.len()]);
        } else if k < p.len() - 1 {
            assert(q2[k] == p.push(t)[k]);
            assert(q2[k + 1] == p.push(t)[k + 1]);
        } else {
            assert(q2[k] == p.push(t)[k]);
            assert(q2[k + 1] == t);
        }
    }
    let k = choose|k: int| 0 <= k < q1.len() && #[trigger] es[q1[k] as int].0 == es[q1.last() as int].1;
    assert(q2[k + p.len()] == q1[k]);
    assert(q2.last() == q1.last());
    assert(comes_back(es, q2));
    assert(is_index_walk(es, q2));
}

impl CircGraph {
    /// Searches the continuations of `path` for a walk that returns to a vertex it has left,
    /// marking each edge it walks in `visited`.
    fn search_cycle(&self, path: &mut Vec<usize>, visited: &mut Vec<bool>) -> (found: bool)
        requires
            is_open_path(arcs_of(self.e@), old(path)@),
            old(visited)@.len() == self.e@.len(),
        ensures
            final(path)@ == old(path)@,
            final(visited)@.len() == self.e@.len(),
            forall|t: int| 0 <= t < self.e@.len() && old(visited)@[t] ==> #[trigger] final(visited)@[t],
            found == may_return(arcs_of(self.e@), old(path)@),
            !found ==> forall|t: int|
                0 <= t < self.e@.len() && #[trigger] final(visited)@[t] ==> old(visited)@[t] || !may_return(
                    arcs_of(self.e@),
                    seq![t as usize],
                ),
        decreases self.e@.len() - old(path)@.len(),
    {
        let ghost es = arcs_of(self.e@);
        let ghost p = path@;
        proof {
            lemma_open_path_bound(es, p);
        }
        let last = path[path.len() - 1];
        let to = self.e[last].to.index;
        assert(to == es[p.last() as int].1);
        let mut k: usize = 0;
        while k < path.len()
            invariant
                path@ == p,
                p == old(path)@,
                visited@ == old(visited)@,
                old(visited)@.len() == self.e@.len(),
                es == arcs_of(self.e@),
                is_open_path(es, p),
                to == es[p.last() as int].1,
                0 <= k <= p.len(),
                forall|m: int| 0 <= m < k ==> es[p[m] as int].0 != to,
            decreases p.len() - k,
        {
            assert(es[p[k as int] as int] == arc_of(self.e@[p[k as int] as int]));
            if self.e[path[k]].from.index == to {
                assert(es[p[k as int] as int].0 == es[p.last() as int].1);
                assert(comes_back(es, p));
                assert(p + Seq::<usize>::empty() =~= p);
                assert(may_return(es, p)) by {
                    assert(is_index_walk(es, p + Seq::<usize>::empty()));
                }
                return true;
            }
            k += 1;
        }
        let mut t: usize = 0;
        while t < self.e.len()
            invariant
                path@ == p,
                p == old(path)@,
                es == arcs_of(self.e@),
                is_open_path(es, p),
                p.len() <= es.len(),
                to == es[p.last() as int].1,
                forall|m: int| 0 <= m < p.len() ==> es[p[m] as int].0 != to,
                visited@.len() == self.e@.len(),
                forall|u: int| 0 <= u < self.e@.len() && old(visited)@[u] ==> #[trigger] visited@[u],
                0 <= t <= es.len(),
                forall|u: usize| u < t && es[u as int].0 == to ==> !#[trigger] may_return(es, p.push(u)),
                forall|u: int|
                    0 <= u < self.e@.len() && #[trigger] visited@[u] ==> old(visited)@[u] || !may_return(
                        es,
                        seq![u as usize],
                    ),
            decreases es.len() - t,
        {
            assert(es[t as int] == arc_of(self.e@[t as int]));
            if self.e[t].from.index == to {
                let ghost vis_before = visited@;
                visited.set(t, true);
                path.push(t);
                assert(is_open_path(es, path@)) by {
                    assert(path@ == p.push(t));
                    assert forall|i: int, j: int| 0 <= i < j < path@.len() implies es[path@[i] as int].0
                        != es[path@[j] as int].0 by {
                        if j == p.len() {
                            assert(path@[j] == t);
                        } else {
                            assert(path@[i] == p[i]);
                            assert(path@[j] == p[j]);
                        }
                    }
                    assert forall|m: int| 0 <= m < path@.len() - 1 implies es[#[trigger] path@[m] as int].1
                        == es[path@[m + 1] as int].0 by {
                        if m < p.len() - 1 {
                            assert(path@[m] == p[m]);
                            assert(path@[m + 1] == p[m + 1]);
                        } else {
                            assert(path@[m] == p.last());
                            assert(path@[m + 1] == t);
                        }
                    }
                }
                proof {
                    lemma_open_path_bound(es, path@);
                }
                let f = self.search_cycle(path, visited);
                path.pop();
                assert(path@ =~= p);
                if f {
                    proof {
                        let x = choose|x: Seq<usize>| #[trigger] is_index_walk(es, p.push(t) + x) && comes_back(es, p.push(t) + x);
                        assert(p.push(t) + x =~= p + (seq![t] + x));
                        assert(is_index_walk(es, p + (seq![t] + x)));
                    }
                    return true;
                }
                proof {
                    if may_return(es, seq![t]) {
                        lemma_may_return_extends(es, p, t);
                    }
                    assert forall|u: int|
                        0 <= u < self.e@.len() && #[trigger] visited@[u] implies old(visited)@[u] || !may_return(
                            es,
                            seq![u as usize],
                        ) by {
                        if u != t {
                            assert(vis_before[u] == visited@[u] || !may_return(es, seq![u as usize]));
                        }
                    }
                }
            }
            t += 1;
        }
        proof {
            if may_return(es, p) {
                let x = choose|x: Seq<usize>| #[trigger] is_index_walk(es, p + x) && comes_back(es, p + x);
                if x.len() == 0 {
                    assert(p + x =~= p);
                    let m = choose|m: int| 0 <= m < p.len() && #[trigger] es[p[m] as int].0 == es[p.last() as int].1;
                } else {
                    let u = x[0];
                    let q = p + x;
                    assert(q[p.len() as int] == u);
                    assert(q[p.len() - 1] == p.last());
                    assert(es[u as int].0 == to);
                    assert(p.push(u) + x.drop_first() =~= q);
                    assert(is_index_walk(es, p.push(u) + x.drop_first()));
                    assert(comes_back(es, p.push(u) + x.drop_first()));
                    assert(may_return(es, p.push(u)));
                }
            }
        }
        false
    }
}


proof fn lemma_may_return_gives_cycle(es: Seq<(u64, u64)>, q: Seq<usize>)
    requires
        may_return(es, q),
        q.len() > 0,
    ensures
        has_cycle(es.to_set()),
{
    let x = choose|x: Seq<usize>| #[trigger] is_index_walk(es, q + x) && comes_back(es, q + x);
    lemma_return_gives_cycle(es, q + x);
}

impl CircGraph {
    /// The positions, in order, of the edges whose origin has no incoming edge.
    pub(crate) fn get_path_start_edges(&self) -> (r: Vec<usize>)
        ensures
            forall|k: int| 0 <= k < r@.len() ==> #[trigger] r@[k] < self.e@.len(),
            forall|k: int| 0 <= k < r@.len() ==> is_source(self.arcs(), arcs_of(self.e@)[#[trigger] r@[k] as int].0),
            forall|t: usize|
                t < self.e@.len() && is_source(self.arcs(), arcs_of(self.e@)[t as int].0) ==> #[trigger] r@.contains(t),
            forall|i: int, j: int| 0 <= i < j < r@.len() ==> r@[i] < r@[j],
    {
        let ghost es = arcs_of(self.e@);
        let mut r: Vec<usize> = Vec::new();
        let mut t: usize = 0;
        while t < self.e.len()
            invariant
                es == arcs_of(self.e@),
                0 <= t <= es.len(),
                forall|k: int| 0 <= k < r@.len() ==> #[trigger] r@[k] < t,
                forall|k: int| 0 <= k < r@.len() ==> is_source(es.to_set(), es[#[trigger] r@[k] as int].0),
                forall|u: usize| u < t && is_source(es.to_set(), es[u as int].0) ==> #[trigger] r@.contains(u),
                forall|i: int, j: int| 0 <= i < j < r@.len() ==> r@[i] < r@[j],
            decreases es.len() - t,
        {
            let v = self.e[t].from.index;
            assert(es[t as int].0 == v);
            let mut f: usize = 0;
            let mut no_incoming = true;
            while f < self.e.len()
                invariant
                    es == arcs_of(self.e@),
                    0 <= f <= es.len(),
                    no_incoming ==> forall|g: int| 0 <= g < f ==> es[g].1 != v,
                    !no_incoming ==> !is_source(es.to_set(), v),
                decreases es.len() - f,
            {
                assert(es[f as int] == arc_of(self.e@[f as int]));
                if self.e[f].to.index == v {
                    assert(es.to_set().contains(es[f as int]));
                    no_incoming = false;
                }
                f += 1;
            }
            if no_incoming {
                assert(is_source(es.to_set(), v)) by {
                    assert forall|x: (u64, u64)| es.to_set().contains(x) implies x.1 != v by {
                        assert(es.contains(x));
                        let g = choose|g: int| 0 <= g < es.len() && es[g] == x;
                    }
                }
                let ghost old_r = r@;
                r.push(t);
                assert forall|u: usize| u < t + 1 && is_source(es.to_set(), es[u as int].0) implies #[trigger] r@.contains(u) by {
                    if u < t {
                        assert(old_r.contains(u));
                        let k = choose|k: int| 0 <= k < old_r.len() && old_r[k] == u;
                        assert(r@[k] == u);
                    } else {
                        assert(r@[old_r.len() as int] == u);
                    }
                }
            } else {
                assert forall|u: usize| u < t + 1 && is_source(es.to_set(), es[u as int].0) implies #[trigger] r@.contains(u) by {
                }
            }
            t += 1;
        }
        r
    }

    /// Whether the graph has a directed cycle.
    ///
    /// A code is circular exactly where the cycle is missing.
    pub fn is_cyclic(&self) -> (r: bool)
        ensures
            r == has_cycle(self.arcs()),
    {
        let ghost es = arcs_of(self.e@);
        let starts = self.get_path_start_edges();
        let n = self.e.len();
        let mut visited: Vec<bool> = Vec::new();
        while visited.len() < n
            invariant
                visited@.len() <= n,
                forall|k: int| 0 <= k < visited@.len() ==> !#[trigger] visited@[k],
            decreases n - visited@.len(),
        {
            visited.push(false);
        }
        let mut i: usize = 0;
        while i < starts.len()
            invariant
                es == arcs_of(self.e@),
                n == es.len(),
                visited@.len() == n,
                forall|k: int| 0 <= k < starts@.len() ==> #[trigger] starts@[k] < n,
                forall|t: int| 0 <= t < n && #[trigger] visited@[t] ==> !may_return(es, seq![t as usize]),
            decreases starts@.len() - i,
        {
            let s = starts[i];
            if !visited[s] {
                visited.set(s, true);
                let mut path: Vec<usize> = Vec::new();
                path.push(s);
                assert(is_open_path(es, path@));
                let ghost vis_before = visited@;
                if self.search_cycle(&mut path, &mut visited) {
                    proof {
                        lemma_may_return_gives_cycle(es, seq![s]);
                        assert(path@ =~= seq![s]);
                    }
                    return true;
                }
                assert(path@ =~= seq![s]);
                assert forall|t: int| 0 <= t < n && #[trigger] visited@[t] implies !may_return(es, seq![t as usize]) by {
                    if t != s as int {
                        assert(vis_before[t] || !may_return(es, seq![t as usize]));
                    }
                }
            }
            i += 1;
        }
        let mut t: usize = 0;
        while t < n
            invariant
                es == arcs_of(self.e@),
                n == es.len(),
                visited@.len() == n,
                0 <= t <= n,
                forall|u: int| 0 <= u < t ==> #[trigger] visited@[u],
                forall|u: int| 0 <= u < n && #[trigger] visited@[u] ==> !may_return(es, seq![u as usize]),
            decreases n - t,
        {
            if !visited[t] {
                visited.set(t, true);
                let mut path: Vec<usize> = Vec::new();
                path.push(t);
                assert(is_open_path(es, path@));
                let ghost vis_before = visited@;
                if self.search_cycle(&mut path, &mut visited) {
                    proof {
                        lemma_may_return_gives_cycle(es, seq![t]);
                        assert(path@ =~= seq![t]);
                    }
                    return true;
                }
                assert(path@ =~= seq![t]);
                assert forall|u: int| 0 <= u < n && #[trigger] visited@[u] implies !may_return(es, seq![u as usize]) by {
                    if u != t as int {
                        assert(vis_before[u] || !may_return(es, seq![u as usize]));
                    }
                }
                assert forall|u: int| 0 <= u < t + 1 implies #[trigger] visited@[u] by {
                    assert(vis_before[u]);
                }
            }
            t += 1;
        }
        proof {
            if has_cycle(es.to_set()) {
                lemma_cycle_gives_return(es);
                let u = choose|u: usize| u < es.len() && #[trigger] may_return(es, seq![u]);
                assert(visited@[u as int]);
            }
        }
        false
    }
}

/// `c` is `s` turned: a suffix of `s` followed by the rest.
pub open spec fn rotation_of(c: Seq<usize>, s: Seq<usize>) -> bool {
    exists|d: int| 0 <= d < s.len() && c == #[trigger] s.subrange(d, s.len() as int) + s.subrange(0, d)
}

/// No walk `r + y[..j]` with `j < |y|` comes back to a vertex it has left.
pub open spec fn no_return_before(es: Seq<(u64, u64)>, r: Seq<usize>, y: Seq<usize>) -> bool {
    forall|j: int| 0 <= j < y.len() ==> !#[trigger] comes_back(es, r + y.subrange(0, j))
}

/// The walk `r + y` comes back to a vertex it has left at its last edge and not before.
pub open spec fn closes_at_end(es: Seq<(u64, u64)>, r: Seq<usize>, y: Seq<usize>) -> bool {
    no_return_before(es, r, y) && comes_back(es, r + y)
}

/// Some entry of `cs` is the cycle that closes at the end of `q`, turned.
pub open spec fn records(es: Seq<(u64, u64)>, cs: Seq<Vec<usize>>, q: Seq<usize>) -> bool {
    exists|k: int, j: int|
        0 <= k < cs.len() && 0 <= j < q.len() && es[q[j] as int].0 == es[q.last() as int].1 && #[trigger] rotation_of(
            cs[k]@,
            q.subrange(j, q.len() as int),
        )
}

/// `c` runs once around a cycle through the edges at these positions of `es`, leaving each
/// vertex once and starting at the vertex of least index.
pub open spec fn is_canonical_index_cycle(es: Seq<(u64, u64)>, c: Seq<usize>) -> bool {
    &&& c.len() > 0
    &&& is_index_walk(es, c)
    &&& es[c.last() as int].1 == es[c[0] as int].0
    &&& forall|i: int, j: int| 0 <= i < j < c.len() ==> es[c[i] as int].0 != es[c[j] as int].0
    &&& forall|k: int| 0 <= k < c.len() ==> es[c[0] as int].0 <= es[#[trigger] c[k] as int].0
}

proof fn lemma_rotated_cycle(es: Seq<(u64, u64)>, seg: Seq<usize>, m: int)
    requires
        seg.len() > 0,
        is_index_walk(es, seg),
        es[seg.last() as int].1 == es[seg[0] as int].0,
        forall|i: int, j: int| 0 <= i < j < seg.len() ==> es[seg[i] as int].0 != es[seg[j] as int].0,
        0 <= m < seg.len(),
        forall|k: int| 0 <= k < seg.len() ==> es[seg[m] as int].0 <= es[#[trigger] seg[k] as int].0,
    ensures
        is_canonical_index_cycle(es, seg.subrange(m, seg.len() as int) + seg.subrange(0, m)),
{
    let l = seg.len() as int;
    let c = seg.subrange(m, l) + seg.subrange(0, m);
    assert forall|k: int| 0 <= k < c.len() implies c[k] == seg[if k < l - m { k + m } else { k - (l - m) }] by {
    }
    assert forall|k: int| 0 <= k < c.len() implies #[trigger] c[k] < es.len() by {
        let j = if k < l - m { k + m } else { k - (l - m) };
        assert(seg[j] < es.len());
    }
    assert forall|k: int| 0 <= k < c.len() - 1 implies es[#[trigger] c[k] as int].1 == es[c[k + 1] as int].0 by {
        if k < l - m - 1 {
            assert(es[seg[k + m] as int].1 == es[seg[k + m + 1] as int].0);
        } else if k == l - m - 1 {
            assert(c[k] == seg[l - 1]);
            assert(c[k + 1] == seg[0]);
        } else {
            assert(es[seg[k - (l - m)] as int].1 == es[seg[k - (l - m) + 1] as int].0);
        }
    }
    assert(es[c.last() as int].1 == es[c[0] as int].0) by {
        if m > 0 {
            assert(c.last() == seg[m - 1]);
            assert(es[seg[m - 1] as int].1 == es[seg[m] as int].0);
        } else {
            assert(c.last() == seg[l - 1]);
        }
    }
    assert forall|i: int, j: int| 0 <= i < j < c.len() implies es[c[i] as int].0 != es[c[j] as int].0 by {
        let ii = if i < l - m { i + m } else { i - (l - m) };
        let jj = if j < l - m { j + m } else { j - (l - m) };
        assert(ii != jj);
        if ii < jj {
            assert(es[seg[ii] as int].0 != es[seg[jj] as int].0);
        } else {
            assert(es[seg[jj] as int].0 != es[seg[ii] as int].0);
        }
    }
    assert forall|k: int| 0 <= k < c.len() implies es[c[0] as int].0 <= es[#[trigger] c[k] as int].0 by {
        let j = if k < l - m { k + m } else { k - (l - m) };
        assert(es[seg[m] as int].0 <= es[seg[j] as int].0);
    }
}

proof fn lemma_canonical_arcs(es: Seq<(u64, u64)>, c: Seq<usize>)
    requires
        is_canonical_index_cycle(es, c),
    ensures
        is_simple_canonical_cycle(es.to_set(), walk_arcs(es, c)),
{
    let w = walk_arcs(es, c);
    assert forall|k: int| 0 <= k < w.len() implies es.to_set().contains(#[trigger] w[k]) by {
        assert(c[k] < es.len());
        assert(es.contains(es[c[k] as int]));
    }
    assert forall|k: int| 0 <= k < w.len() - 1 implies (#[trigger] w[k]).1 == w[k + 1].0 by {
        assert(es[c[k] as int].1 == es[c[k + 1] as int].0);
    }
    assert forall|k: int| 0 <= k < w.len() implies w[0].0 <= (#[trigger] w[k]).0 by {
        assert(es[c[0] as int].0 <= es[c[k] as int].0);
    }
}

#[verifier::rlimit(100)]
proof fn lemma_segment_cycle(es: Seq<(u64, u64)>, p: Seq<usize>, k: int, m: int)
    requires
        is_open_path(es, p),
        0 <= k <= m < p.len(),
        es[p[k] as int].0 == es[p.last() as int].1,
        forall|q: int| k <= q < p.len() ==> es[p[m] as int].0 <= es[#[trigger] p[q] as int].0,
    ensures
        is_canonical_index_cycle(es, p.subrange(m, p.len() as int) + p.subrange(k, m)),
{
    let seg = p.subrange(k, p.len() as int);
    let mm = m - k;
    assert(seg.subrange(mm, seg.len() as int) =~= p.subrange(m, p.len() as int));
    assert(seg.subrange(0, mm) =~= p.subrange(k, m));
    assert forall|q2: int| 0 <= q2 < seg.len() implies #[trigger] seg[q2] < es.len() by {
        assert(seg[q2] == p[q2 + k]);
    }
    assert forall|q2: int| 0 <= q2 < seg.len() - 1 implies es[#[trigger] seg[q2] as int].1 == es[seg[q2 + 1] as int].0 by {
        assert(seg[q2] == p[q2 + k]);
        assert(seg[q2 + 1] == p[q2 + k + 1]);
    }
    assert forall|i: int, j2: int| 0 <= i < j2 < seg.len() implies es[seg[i] as int].0 != es[seg[j2] as int].0 by {
        assert(seg[i] == p[i + k]);
        assert(seg[j2] == p[j2 + k]);
    }
    assert forall|q2: int| 0 <= q2 < seg.len() implies es[seg[mm] as int].0 <= es[#[trigger] seg[q2] as int].0 by {
        assert(seg[q2] == p[q2 + k]);
    }
    assert(seg.last() == p.last());
    assert(seg[0] == p[k]);
    lemma_rotated_cycle(es, seg, mm);
}

proof fn lemma_segment_rotation(p: Seq<usize>, k: int, m: int)
    requires
        0 <= k <= m < p.len(),
    ensures
        rotation_of(p.subrange(m, p.len() as int) + p.subrange(k, m), p.subrange(k, p.len() as int)),
{
    let seg = p.subrange(k, p.len() as int);
    let d = m - k;
    assert(seg.subrange(d, seg.len() as int) =~= p.subrange(m, p.len() as int));
    assert(seg.subrange(0, d) =~= p.subrange(k, m));
}

impl CircGraph {
    /// The cycle that closes at the end of `path` and starts at position `k`, turned to start
    /// at its vertex of least index (the first such).
    #[verifier::rlimit(100)]
    fn extract_cycle(&self, path: &Vec<usize>, k: usize) -> (c: Vec<usize>)
        requires
            is_open_path(arcs_of(self.e@), path@),
            k < path@.len(),
            arcs_of(self.e@)[path@[k as int] as int].0 == arcs_of(self.e@)[path@.last() as int].1,
        ensures
            is_canonical_index_cycle(arcs_of(self.e@), c@),
            rotation_of(c@, path@.subrange(k as int, path@.len() as int)),
    {
        let ghost es = arcs_of(self.e@);
        let ghost p = path@;
        let mut m: usize = k;
        let mut j: usize = k;
        while j < path.len()
            invariant
                path@ == p,
                es == arcs_of(self.e@),
                is_open_path(es, p),
                k <= m < p.len(),
                k <= j <= p.len(),
                forall|q: int| k <= q < j ==> es[p[m as int] as int].0 <= es[#[trigger] p[q] as int].0,
            decreases p.len() - j,
        {
            assert(es[p[j as int] as int] == arc_of(self.e@[p[j as int] as int]));
            assert(es[p[m as int] as int] == arc_of(self.e@[p[m as int] as int]));
            if self.e[path[j]].from.index < self.e[path[m]].from.index {
                m = j;
            }
            j += 1;
        }
        let mut c: Vec<usize> = Vec::new();
        let mut q: usize = m;
        while q < path.len()
            invariant
                path@ == p,
                k <= m < p.len(),
                m <= q <= p.len(),
                c@ == p.subrange(m as int, q as int),
            decreases p.len() - q,
        {
            c.push(path[q]);
            assert(c@ =~= p.subrange(m as int, q + 1));
            q += 1;
        }
        let mut q: usize = k;
        while q < m
            invariant
                path@ == p,
                k <= q <= m,
                m < p.len(),
                c@ == p.subrange(m as int, p.len() as int) + p.subrange(k as int, q as int),
            decreases m - q,
        {
            c.push(path[q]);
            assert(c@ =~= p.subrange(m as int, p.len() as int) + p.subrange(k as int, q + 1));
            q += 1;
        }
        proof {
            lemma_segment_cycle(es, p, k as int, m as int);
            lemma_segment_rotation(p, k as int, m as int);
        }
        c
    }
}


/// A list grown at its end keeps what it recorded.
proof fn lemma_records_grow(es: Seq<(u64, u64)>, cs1: Seq<Vec<usize>>, cs2: Seq<Vec<usize>>, q: Seq<usize>)
    requires
        records(es, cs1, q),
        cs2.len() >= cs1.len(),
        forall|k: int| 0 <= k < cs1.len() ==> #[trigger] cs2[k] == cs1[k],
    ensures
        records(es, cs2, q),
{
    let (k, j) = choose|k: int, j: int|
        0 <= k < cs1.len() && 0 <= j < q.len() && es[q[j] as int].0 == es[q.last() as int].1 && #[trigger] rotation_of(
            cs1[k]@,
            q.subrange(j, q.len() as int),
        );
    assert(cs2[k] == cs1[k]);
}

/// A continuation of `p.push(t)` is one of `p` that starts with `t`.
proof fn lemma_closes_step(es: Seq<(u64, u64)>, p: Seq<usize>, y: Seq<usize>)
    requires
        y.len() > 0,
        closes_at_end(es, p, y),
    ensures
        closes_at_end(es, p.push(y[0]), y.drop_first()),
        p.push(y[0]) + y.drop_first() == p + y,
{
    let t = y[0];
    let y2 = y.drop_first();
    assert(p.push(t) + y2 =~= p + y);
    assert forall|j: int| 0 <= j < y2.len() implies !#[trigger] comes_back(es, p.push(t) + y2.subrange(0, j)) by {
        assert(p.push(t) + y2.subrange(0, j) =~= p + y.subrange(0, j + 1));
        assert(!comes_back(es, p + y.subrange(0, j + 1)));
    }
}

/// A continuation of `p` that starts with `t` and then continues `p.push(t)` without coming
/// back keeps not coming back.
proof fn lemma_no_return_prepend(es: Seq<(u64, u64)>, p: Seq<usize>, t: usize, y2: Seq<usize>)
    requires
        !comes_back(es, p),
        no_return_before(es, p.push(t), y2),
    ensures
        no_return_before(es, p, seq![t] + y2),
        p + (seq![t] + y2) == p.push(t) + y2,
{
    let y = seq![t] + y2;
    assert(p + y =~= p.push(t) + y2);
    assert forall|j: int| 0 <= j < y.len() implies !#[trigger] comes_back(es, p + y.subrange(0, j)) by {
        if j == 0 {
            assert(p + y.subrange(0, 0) =~= p);
        } else {
            assert(p + y.subrange(0, j) =~= p.push(t) + y2.subrange(0, j - 1));
            assert(!comes_back(es, p.push(t) + y2.subrange(0, j - 1)));
        }
    }
}

impl CircGraph {
    /// Like `search_cycle`, but walks every continuation and records in `cycles` each cycle it
    /// closes, cut out of the path and turned to start at its vertex of least index.
    fn collect_cycles(&self, path: &mut Vec<usize>, visited: &mut Vec<bool>, cycles: &mut Vec<Vec<usize>>) -> (found: bool)
        requires
            is_open_path(arcs_of(self.e@), old(path)@),
            old(visited)@.len() == self.e@.len(),
        ensures
            final(path)@ == old(path)@,
            final(visited)@.len() == self.e@.len(),
            forall|t: int| 0 <= t < self.e@.len() && old(visited)@[t] ==> #[trigger] final(visited)@[t],
            found == may_return(arcs_of(self.e@), old(path)@),
            !found ==> forall|t: int|
                0 <= t < self.e@.len() && #[trigger] final(visited)@[t] ==> old(visited)@[t] || !may_return(
                    arcs_of(self.e@),
                    seq![t as usize],
                ),
            !found ==> final(cycles)@ == old(cycles)@,
            found ==> final(cycles)@.len() > old(cycles)@.len(),
            final(cycles)@.len() >= old(cycles)@.len(),
            forall|k: int| 0 <= k < old(cycles)@.len() ==> #[trigger] final(cycles)@[k] == old(cycles)@[k],
            forall|k: int|
                old(cycles)@.len() <= k < final(cycles)@.len() ==> is_canonical_index_cycle(
                    arcs_of(self.e@),
                    #[trigger] final(cycles)@[k]@,
                ),
            forall|y: Seq<usize>|
                #[trigger] is_index_walk(arcs_of(self.e@), old(path)@ + y) && closes_at_end(arcs_of(self.e@), old(path)@, y)
                    ==> records(arcs_of(self.e@), final(cycles)@, old(path)@ + y),
            forall|u: int|
                0 <= u < self.e@.len() && #[trigger] final(visited)@[u] && !old(visited)@[u] ==> exists|y: Seq<usize>|
                    y.len() > 0 && (old(path)@ + y).last() == u && #[trigger] is_index_walk(arcs_of(self.e@), old(path)@ + y)
                        && no_return_before(arcs_of(self.e@), old(path)@, y),
        decreases self.e@.len() - old(path)@.len(),
    {
        let ghost es = arcs_of(self.e@);
        let ghost p = path@;
        proof {
            lemma_open_path_bound(es, p);
        }
        let last = path[path.len() - 1];
        let to = self.e[last].to.index;
        assert(to == es[p.last() as int].1);
        let mut k: usize = 0;
        while k < path.len()
            invariant
                path@ == p,
                p == old(path)@,
                visited@ == old(visited)@,
                cycles@ == old(cycles)@,
                old(visited)@.len() == self.e@.len(),
                es == arcs_of(self.e@),
                is_open_path(es, p),
                to == es[p.last() as int].1,
                0 <= k <= p.len(),
                forall|m: int| 0 <= m < k ==> es[p[m] as int].0 != to,
            decreases p.len() - k,
        {
            assert(es[p[k as int] as int] == arc_of(self.e@[p[k as int] as int]));
            if self.e[path[k]].from.index == to {
                assert(es[p[k as int] as int].0 == es[p.last() as int].1);
                assert(comes_back(es, p));
                assert(p + Seq::<usize>::empty() =~= p);
                assert(may_return(es, p)) by {
                    assert(is_index_walk(es, p + Seq::<usize>::empty()));
                }
                let c = self.extract_cycle(path, k);
                let ghost cv = c@;
                cycles.push(c);
                proof {
                    assert(cycles@[cycles@.len() - 1]@ == cv);
                    assert(records(es, cycles@, p));
                    assert forall|y: Seq<usize>|
                        #[trigger] is_index_walk(es, p + y) && closes_at_end(es, p, y) implies records(es, cycles@, p + y) by {
                        if y.len() > 0 {
                            assert(p + y.subrange(0, 0) =~= p);
                            assert(!comes_back(es, p + y.subrange(0, 0)));
                        }
                        assert(p + y =~= p);
                    }
                }
                return true;
            }
            k += 1;
        }
        let mut found = false;
        let mut t: usize = 0;
        while t < self.e.len()
            invariant
                path@ == p,
                p == old(path)@,
                es == arcs_of(self.e@),
                is_open_path(es, p),
                p.len() <= es.len(),
                to == es[p.last() as int].1,
                forall|m: int| 0 <= m < p.len() ==> es[p[m] as int].0 != to,
                visited@.len() == self.e@.len(),
                forall|u: int| 0 <= u < self.e@.len() && old(visited)@[u] ==> #[trigger] visited@[u],
                0 <= t <= es.len(),
                found ==> may_return(es, p),
                !found ==> forall|u: usize| u < t && es[u as int].0 == to ==> !#[trigger] may_return(es, p.push(u)),
                !found ==> forall|u: int|
                    0 <= u < self.e@.len() && #[trigger] visited@[u] ==> old(visited)@[u] || !may_return(
                        es,
                        seq![u as usize],
                    ),
                !found ==> cycles@ == old(cycles)@,
                found ==> cycles@.len() > old(cycles)@.len(),
                cycles@.len() >= old(cycles)@.len(),
                forall|q: int| 0 <= q < old(cycles)@.len() ==> #[trigger] cycles@[q] == old(cycles)@[q],
                forall|q: int| old(cycles)@.len() <= q < cycles@.len() ==> is_canonical_index_cycle(es, #[trigger] cycles@[q]@),
                !comes_back(es, p),
                forall|y: Seq<usize>|
                    #[trigger] is_index_walk(es, p + y) && closes_at_end(es, p, y) && y.len() > 0 && y[0] < t ==> records(
                        es,
                        cycles@,
                        p + y,
                    ),
                forall|u: int|
                    0 <= u < self.e@.len() && #[trigger] visited@[u] && !old(visited)@[u] ==> exists|y: Seq<usize>|
                        y.len() > 0 && (p + y).last() == u && #[trigger] is_index_walk(es, p + y) && no_return_before(es, p, y),
            decreases es.len() - t,
        {
            assert(es[t as int] == arc_of(self.e@[t as int]));
            if self.e[t].from.index == to {
                let ghost vis_before = visited@;
                let ghost cyc_before = cycles@;
                visited.set(t, true);
                path.push(t);
                assert(is_open_path(es, path@)) by {
                    assert(path@ == p.push(t));
                    assert forall|i: int, j: int| 0 <= i < j < path@.len() implies es[path@[i] as int].0
                        != es[path@[j] as int].0 by {
                        if j == p.len() {
                            assert(path@[j] == t);
                        } else {
                            assert(path@[i] == p[i]);
                            assert(path@[j] == p[j]);
                        }
                    }
                    assert forall|m: int| 0 <= m < path@.len() - 1 implies es[#[trigger] path@[m] as int].1
                        == es[path@[m + 1] as int].0 by {
                        if m < p.len() - 1 {
                            assert(path@[m] == p[m]);
                            assert(path@[m + 1] == p[m + 1]);
                        } else {
                            assert(path@[m] == p.last());
                            assert(path@[m + 1] == t);
                        }
                    }
                }
                proof {
                    lemma_open_path_bound(es, path@);
                }
                let ghost vis_mid = visited@;
                let f = self.collect_cycles(path, visited, cycles);
                path.pop();
                assert(path@ =~= p);
                proof {
                    assert forall|y: Seq<usize>|
                        #[trigger] is_index_walk(es, p + y) && closes_at_end(es, p, y) && y.len() > 0 && y[0] < t + 1 implies records(
                            es,
                            cycles@,
                            p + y,
                        ) by {
                        if y[0] < t {
                            lemma_records_grow(es, cyc_before, cycles@, p + y);
                        } else {
                            lemma_closes_step(es, p, y);
                            assert(y[0] == t);
                            assert(is_index_walk(es, p.push(t) + y.drop_first()));
                        }
                    }
                    assert forall|u: int|
                        0 <= u < self.e@.len() && #[trigger] visited@[u] && !old(visited)@[u] implies exists|y: Seq<usize>|
                            y.len() > 0 && (p + y).last() == u && #[trigger] is_index_walk(es, p + y) && no_return_before(es, p, y) by {
                        if vis_before[u] {
                        } else if u == t {
                            let y = seq![t];
                            assert(p + y =~= p.push(t));
                            assert(no_return_before(es, p, y)) by {
                                assert forall|j: int| 0 <= j < y.len() implies !#[trigger] comes_back(es, p + y.subrange(0, j)) by {
                                    assert(p + y.subrange(0, j) =~= p);
                                }
                            }
                            assert(is_index_walk(es, p + y));
                        } else {
                            assert(!vis_mid[u]);
                            let y2 = choose|y2: Seq<usize>|
                                y2.len() > 0 && (p.push(t) + y2).last() == u && #[trigger] is_index_walk(es, p.push(t) + y2)
                                    && no_return_before(es, p.push(t), y2);
                            lemma_no_return_prepend(es, p, t, y2);
                            assert((p + (seq![t] + y2)).last() == u);
                            assert(is_index_walk(es, p + (seq![t] + y2)));
                        }
                    }
                }
                if f {
                    proof {
                        let x = choose|x: Seq<usize>| #[trigger] is_index_walk(es, p.push(t) + x) && comes_back(es, p.push(t) + x);
                        assert(p.push(t) + x =~= p + (seq![t] + x));
                        assert(is_index_walk(es, p + (seq![t] + x)));
                    }
                    found = true;
                } else {
                    proof {
                        if may_return(es, seq![t]) {
                            lemma_may_return_extends(es, p, t);
                        }
                        if !found {
                            assert forall|u: int|
                                0 <= u < self.e@.len() && #[trigger] visited@[u] implies old(visited)@[u] || !may_return(
                                    es,
                                    seq![u as usize],
                                ) by {
                                if u != t {
                                    assert(vis_before[u] == visited@[u] || !may_return(es, seq![u as usize]));
                                }
                            }
                        }
                    }
                }
                assert forall|q: int| 0 <= q < old(cycles)@.len() implies #[trigger] cycles@[q] == old(cycles)@[q] by {
                    assert(cyc_before[q] == old(cycles)@[q]);
                }
                assert forall|q: int| old(cycles)@.len() <= q < cycles@.len() implies is_canonical_index_cycle(es, #[trigger] cycles@[q]@) by {
                    if q < cyc_before.len() {
                        assert(cycles@[q] == cyc_before[q]);
                    }
                }
            } else {
                assert forall|y: Seq<usize>|
                    #[trigger] is_index_walk(es, p + y) && closes_at_end(es, p, y) && y.len() > 0 && y[0] < t + 1 implies records(
                        es,
                        cycles@,
                        p + y,
                    ) by {
                    if y[0] == t {
                        assert((p + y)[p.len() - 1] == p.last());
                        assert((p + y)[p.len() as int] == t);
                    }
                }
            }
            t += 1;
        }
        proof {
            assert forall|y: Seq<usize>|
                #[trigger] is_index_walk(es, p + y) && closes_at_end(es, p, y) implies records(es, cycles@, p + y) by {
                if y.len() == 0 {
                    assert(p + y =~= p);
                } else {
                    assert((p + y)[p.len() as int] == y[0]);
                    assert(y[0] < es.len());
                }
            }
            if !found && may_return(es, p) {
                let x = choose|x: Seq<usize>| #[trigger] is_index_walk(es, p + x) && comes_back(es, p + x);
                if x.len() == 0 {
                    assert(p + x =~= p);
                    let m = choose|m: int| 0 <= m < p.len() && #[trigger] es[p[m] as int].0 == es[p.last() as int].1;
                } else {
                    let u = x[0];
                    let q = p + x;
                    assert(q[p.len() as int] == u);
                    assert(q[p.len() - 1] == p.last());
                    assert(es[u as int].0 == to);
                    assert(p.push(u) + x.drop_first() =~= q);
                    assert(is_index_walk(es, p.push(u) + x.drop_first()));
                    assert(comes_back(es, p.push(u) + x.drop_first()));
                    assert(may_return(es, p.push(u)));
                }
            }
        }
        found
    }
}


/// `s` turned by `d`: its suffix from `d` followed by the rest.
pub open spec fn turned<A>(s: Seq<A>, d: int) -> Seq<A> {
    s.subrange(d, s.len() as int) + s.subrange(0, d)
}

/// The search from the edge at `s` recorded every cycle that closes after it.
pub open spec fn complete_from(es: Seq<(u64, u64)>, cs: Seq<Vec<usize>>, s: usize) -> bool {
    forall|y: Seq<usize>|
        #[trigger] is_index_walk(es, seq![s] + y) && closes_at_end(es, seq![s], y) ==> records(es, cs, seq![s] + y)
}

/// The edge at `u` was reached by the search started at the `i`-th edge of `order`, along a
/// walk that never came back to a vertex it had left before reaching `u`.
pub open spec fn visit_witness(es: Seq<(u64, u64)>, order: Seq<usize>, cs: Seq<Vec<usize>>, i: int, u: int) -> bool {
    exists|i2: int, y: Seq<usize>|
        0 <= i2 < i && 0 <= i2 < order.len() && complete_from(es, cs, order[i2]) && (seq![order[i2]] + y).last() == u
            && #[trigger] is_index_walk(es, seq![order[i2]] + y) && no_return_before(es, seq![order[i2]], y) && i2 <= order.len()
            - es.len() + u
}

proof fn lemma_complete_grow(es: Seq<(u64, u64)>, cs1: Seq<Vec<usize>>, cs2: Seq<Vec<usize>>, s: usize)
    requires
        complete_from(es, cs1, s),
        cs2.len() >= cs1.len(),
        forall|k: int| 0 <= k < cs1.len() ==> #[trigger] cs2[k] == cs1[k],
    ensures
        complete_from(es, cs2, s),
{
    assert forall|y: Seq<usize>|
        #[trigger] is_index_walk(es, seq![s] + y) && closes_at_end(es, seq![s], y) implies records(es, cs2, seq![s] + y) by {
        lemma_records_grow(es, cs1, cs2, seq![s] + y);
    }
}

/// Two turns of a cycle that leaves each vertex once and that both start at its vertex of
/// least index are the same.
proof fn lemma_least_turn_unique(x: Seq<(u64, u64)>, d1: int, d2: int)
    requires
        x.len() > 0,
        0 <= d1 < x.len(),
        0 <= d2 < x.len(),
        forall|i: int, j: int| 0 <= i < j < x.len() ==> x[i].0 != x[j].0,
        forall|k: int| 0 <= k < x.len() ==> turned(x, d1)[0].0 <= (#[trigger] turned(x, d1)[k]).0,
        forall|k: int| 0 <= k < x.len() ==> turned(x, d2)[0].0 <= (#[trigger] turned(x, d2)[k]).0,
    ensures
        turned(x, d1) == turned(x, d2),
{
    let l = x.len() as int;
    assert(turned(x, d1)[0] == x[d1]);
    assert(turned(x, d2)[0] == x[d2]);
    let k1 = if d2 >= d1 { d2 - d1 } else { d2 + l - d1 };
    assert(turned(x, d1)[k1] == x[d2]);
    let k2 = if d1 >= d2 { d1 - d2 } else { d1 + l - d2 };
    assert(turned(x, d2)[k2] == x[d1]);
    assert(x[d1].0 == x[d2].0);
    if d1 < d2 {
        assert(x[d1].0 != x[d2].0);
    } else if d2 < d1 {
        assert(x[d2].0 != x[d1].0);
    }
}

proof fn lemma_walk_arcs_turned(es: Seq<(u64, u64)>, q: Seq<usize>, d: int)
    requires
        0 <= d <= q.len(),
    ensures
        walk_arcs(es, turned(q, d)) == turned(walk_arcs(es, q), d),
{
    assert(walk_arcs(es, turned(q, d)) =~= turned(walk_arcs(es, q), d));
}

/// `v` is a vertex that the cycle `c` leaves.
pub open spec fn on_cycle(c: Seq<(u64, u64)>, v: u64) -> bool {
    exists|m: int| 0 <= m < c.len() && #[trigger] c[m].0 == v
}

/// The first position of `q` whose edge leaves a vertex of `c`, where there is one.
proof fn lemma_first_hit(es: Seq<(u64, u64)>, q: Seq<usize>, c: Seq<(u64, u64)>) -> (j0: int)
    requires
        exists|m: int| 0 <= m < q.len() && #[trigger] on_cycle(c, es[q[m] as int].0),
    ensures
        0 <= j0 < q.len(),
        on_cycle(c, es[q[j0] as int].0),
        forall|m: int| 0 <= m < j0 ==> !#[trigger] on_cycle(c, es[q[m] as int].0),
    decreases q.len(),
{
    let last = q.len() - 1;
    if exists|m: int| 0 <= m < last && #[trigger] on_cycle(c, es[q.drop_last()[m] as int].0) {
        let j = lemma_first_hit(es, q.drop_last(), c);
        assert forall|m: int| 0 <= m < j implies !#[trigger] on_cycle(c, es[q[m] as int].0) by {
            assert(q[m] == q.drop_last()[m]);
        }
        assert(q[j] == q.drop_last()[j]);
        j
    } else {
        let m = choose|m: int| 0 <= m < q.len() && #[trigger] on_cycle(c, es[q[m] as int].0);
        assert forall|m2: int| 0 <= m2 < last implies !#[trigger] on_cycle(c, es[q[m2] as int].0) by {
            assert(q[m2] == q.drop_last()[m2]);
            assert(!on_cycle(c, es[q.drop_last()[m2] as int].0));
        }
        assert(m == last);
        last
    }
}

/// A turn of a cycle that leaves each vertex once is again such a closed walk, and its
/// vertices are those of the cycle.
#[verifier::rlimit(100)]
proof fn lemma_turn_simple(arcs: Set<(u64, u64)>, c: Seq<(u64, u64)>, d2: int)
    requires
        is_simple_canonical_cycle(arcs, c),
        0 <= d2 < c.len(),
    ensures
        ({
            let x = turned(c, d2);
            &&& x.len() == c.len()
            &&& forall|i: int, j: int| 0 <= i < j < x.len() ==> x[i].0 != x[j].0
            &&& x[x.len() - 1].1 == x[0].0
            &&& forall|i: int| 0 <= i < x.len() - 1 ==> (#[trigger] x[i]).1 == x[i + 1].0
            &&& forall|i: int| 0 <= i < x.len() ==> on_cycle(c, (#[trigger] x[i]).0)
        }),
{
    let l = c.len() as int;
    let x = turned(c, d2);
    assert forall|i: int| 0 <= i < l implies #[trigger] x[i] == c[if i < l - d2 { i + d2 } else { i - (l - d2) }] by {
    }
    assert forall|i: int, j: int| 0 <= i < j < l implies x[i].0 != x[j].0 by {
        let ii = if i < l - d2 { i + d2 } else { i - (l - d2) };
        let jj = if j < l - d2 { j + d2 } else { j - (l - d2) };
        if ii < jj {
            assert(c[ii].0 != c[jj].0);
        } else {
            assert(c[jj].0 != c[ii].0);
        }
    }
    assert(x[l - 1].1 == x[0].0) by {
        if d2 > 0 {
            assert(x[l - 1] == c[d2 - 1]);
            assert(c[d2 - 1].1 == c[d2].0);
        } else {
            assert(x[l - 1] == c[l - 1]);
        }
    }
    assert forall|i: int| 0 <= i < l - 1 implies (#[trigger] x[i]).1 == x[i + 1].0 by {
        let ii = if i < l - d2 { i + d2 } else { i - (l - d2) };
        if i == l - d2 - 1 {
            assert(x[i] == c[l - 1]);
            assert(x[i + 1] == c[0]);
        } else {
            assert(c[ii].1 == c[ii + 1].0);
        }
    }
    assert forall|i: int| 0 <= i < l implies on_cycle(c, (#[trigger] x[i]).0) by {
        let ii = if i < l - d2 { i + d2 } else { i - (l - d2) };
        assert(c[ii].0 == x[i].0);
    }
}

proof fn lemma_concat_walk(es: Seq<(u64, u64)>, r: Seq<usize>, pv: Seq<usize>)
    requires
        r.len() > 0,
        pv.len() > 0,
        is_index_walk(es, r),
        is_index_walk(es, pv),
        es[r.last() as int].1 == es[pv[0] as int].0,
    ensures
        is_index_walk(es, r + pv),
{
    let q = r + pv;
    assert forall|k: int| 0 <= k < q.len() implies #[trigger] q[k] < es.len() by {
        if k < r.len() {
            assert(q[k] == r[k]);
        } else {
            assert(q[k] == pv[k - r.len()]);
        }
    }
    assert forall|k: int| 0 <= k < q.len() - 1 implies es[#[trigger] q[k] as int].1 == es[q[k + 1] as int].0 by {
        if k < r.len() - 1 {
            assert(q[k] == r[k]);
            assert(q[k + 1] == r[k + 1]);
        } else if k == r.len() - 1 {
            assert(q[k] == r.last());
            assert(q[k + 1] == pv[0]);
        } else {
            assert(q[k] == pv[k - r.len()]);
            assert(q[k + 1] == pv[k - r.len() + 1]);
        }
    }
}

#[verifier::rlimit(60)]
proof fn lemma_no_return_along_cycle(es: Seq<(u64, u64)>, s: usize, yr: Seq<usize>, pv: Seq<usize>, c: Seq<(u64, u64)>, x: Seq<(u64, u64)>)
    requires
        no_return_before(es, seq![s], yr),
        !comes_back(es, seq![s] + yr),
        forall|m: int| 0 <= m < yr.len() + 1 ==> !#[trigger] on_cycle(c, es[(seq![s] + yr)[m] as int].0),
        walk_arcs(es, pv) == x,
        forall|i: int, j: int| 0 <= i < j < x.len() ==> x[i].0 != x[j].0,
        forall|i: int| 0 <= i < x.len() - 1 ==> (#[trigger] x[i]).1 == x[i + 1].0,
        forall|i: int| 0 <= i < x.len() ==> on_cycle(c, (#[trigger] x[i]).0),
    ensures
        no_return_before(es, seq![s], yr + pv),
{
    let r = seq![s] + yr;
    let yq = yr + pv;
    assert forall|j: int| 0 <= j < yq.len() implies !#[trigger] comes_back(es, seq![s] + yq.subrange(0, j)) by {
        let w = seq![s] + yq.subrange(0, j);
        if j < yr.len() {
            assert(yq.subrange(0, j) =~= yr.subrange(0, j));
        } else if j == yr.len() {
            assert(w =~= r);
        } else {
            let m = j - yr.len();
            assert(w =~= r + pv.subrange(0, m));
            assert(w.last() == pv[m - 1]);
            assert(es[pv[m - 1] as int] == x[m - 1]);
            assert(x[m - 1].1 == x[m].0);
            if comes_back(es, w) {
                let kk = choose|kk: int| 0 <= kk < w.len() && #[trigger] es[w[kk] as int].0 == es[w.last() as int].1;
                if kk < r.len() {
                    assert(w[kk] == r[kk]);
                    assert(on_cycle(c, x[m].0));
                } else {
                    assert(w[kk] == pv[kk - r.len()]);
                    assert(es[pv[kk - r.len()] as int] == x[kk - r.len()]);
                    assert(x[kk - r.len()].0 == x[m].0);
                }
            }
        }
    }
}

/// A walk that leaves no vertex of the simple cycle `c` and ends where the turn of `c` at `d2`
/// starts, followed by that turn, closes at its end and not before; so a search complete from
/// its first edge recorded `c`.
#[verifier::rlimit(60)]
proof fn lemma_closing_along_cycle(
    es: Seq<(u64, u64)>,
    cs: Seq<Vec<usize>>,
    s: usize,
    yr: Seq<usize>,
    pv: Seq<usize>,
    c: Seq<(u64, u64)>,
    d2: int,
)
    requires
        complete_from(es, cs, s),
        forall|k: int| 0 <= k < cs.len() ==> is_canonical_index_cycle(es, #[trigger] cs[k]@),
        is_index_walk(es, seq![s] + yr),
        no_return_before(es, seq![s], yr),
        !comes_back(es, seq![s] + yr),
        forall|m: int| 0 <= m < yr.len() + 1 ==> !#[trigger] on_cycle(c, es[(seq![s] + yr)[m] as int].0),
        pv.len() > 0,
        is_index_walk(es, pv),
        es[(seq![s] + yr).last() as int].1 == es[pv[0] as int].0,
        walk_arcs(es, pv) == turned(c, d2),
        0 <= d2 < c.len(),
        is_simple_canonical_cycle(es.to_set(), c),
    ensures
        exists|k: int| 0 <= k < cs.len() && walk_arcs(es, cs[k]@) == c,
{
    let l = c.len() as int;
    let r = seq![s] + yr;
    let x = turned(c, d2);
    let q = r + pv;
    lemma_turn_simple(es.to_set(), c, d2);
    lemma_concat_walk(es, r, pv);
    lemma_no_return_along_cycle(es, s, yr, pv, c, x);
    let yq = yr + pv;
    assert(seq![s] + yq =~= q);
    assert(pv.len() == l);
    assert(q.subrange(0, r.len() as int) =~= r);
    assert(comes_back(es, q)) by {
        assert(q[r.len() as int] == pv[0]);
        assert(q.last() == pv[l - 1]);
        assert(es[pv[0] as int] == x[0]);
        assert(es[pv[l - 1] as int] == x[l - 1]);
        assert(es[q[r.len() as int] as int].0 == es[q.last() as int].1);
    }
    assert(is_index_walk(es, seq![s] + yq));
    assert(closes_at_end(es, seq![s], yq));
    assert(records(es, cs, seq![s] + yq));
    assert forall|i: int| 0 <= i < pv.len() implies q[r.len() + i] == #[trigger] pv[i] by {
    }
    assert forall|m: int| 0 <= m < r.len() implies !#[trigger] on_cycle(c, es[q[m] as int].0) by {
        assert(q[m] == r[m]);
    }
    lemma_recorded_cycle(es, cs, q, r.len() as int, pv, c, d2);
}

/// The entry recorded for a walk that ends with a turn `pv` of the simple cycle `c`, closing
/// there and nowhere before, is `c` itself.
proof fn lemma_recorded_cycle(
    es: Seq<(u64, u64)>,
    cs: Seq<Vec<usize>>,
    q: Seq<usize>,
    rl: int,
    pv: Seq<usize>,
    c: Seq<(u64, u64)>,
    d2: int,
)
    requires
        records(es, cs, q),
        forall|k: int| 0 <= k < cs.len() ==> is_canonical_index_cycle(es, #[trigger] cs[k]@),
        0 <= rl,
        pv.len() == c.len(),
        q.len() == rl + pv.len(),
        forall|i: int| 0 <= i < pv.len() ==> q[rl + i] == #[trigger] pv[i],
        forall|m: int| 0 <= m < rl ==> !#[trigger] on_cycle(c, es[q[m] as int].0),
        walk_arcs(es, pv) == turned(c, d2),
        0 <= d2 < c.len(),
        is_simple_canonical_cycle(es.to_set(), c),
        forall|i: int, j: int| 0 <= i < j < c.len() ==> turned(c, d2)[i].0 != turned(c, d2)[j].0,
        turned(c, d2)[c.len() - 1].1 == turned(c, d2)[0].0,
        on_cycle(c, turned(c, d2)[0].0),
    ensures
        exists|k: int| 0 <= k < cs.len() && walk_arcs(es, cs[k]@) == c,
{
    let (k, d1) = lemma_recorded_turn(es, cs, q, rl, pv, c, turned(c, d2));
    assert(is_canonical_index_cycle(es, cs[k]@));
    lemma_turn_of_turn(es, cs[k]@, pv, c, d1, d2);
}

/// The entry recorded for such a walk is a turn of `pv`.
#[verifier::rlimit(60)]
proof fn lemma_recorded_turn(
    es: Seq<(u64, u64)>,
    cs: Seq<Vec<usize>>,
    q: Seq<usize>,
    rl: int,
    pv: Seq<usize>,
    c: Seq<(u64, u64)>,
    x: Seq<(u64, u64)>,
) -> (r: (int, int))
    requires
        records(es, cs, q),
        0 <= rl,
        pv.len() > 0,
        q.len() == rl + pv.len(),
        forall|i: int| 0 <= i < pv.len() ==> q[rl + i] == #[trigger] pv[i],
        forall|m: int| 0 <= m < rl ==> !#[trigger] on_cycle(c, es[q[m] as int].0),
        walk_arcs(es, pv) == x,
        forall|i: int, j: int| 0 <= i < j < x.len() ==> x[i].0 != x[j].0,
        x[x.len() - 1].1 == x[0].0,
        on_cycle(c, x[0].0),
    ensures
        0 <= r.0 < cs.len(),
        0 <= r.1 < pv.len(),
        cs[r.0]@ == turned(pv, r.1),
{
    let l = pv.len() as int;
    let (k, j) = choose|k: int, j: int|
        0 <= k < cs.len() && 0 <= j < q.len() && es[q[j] as int].0 == es[q.last() as int].1 && #[trigger] rotation_of(
            cs[k]@,
            q.subrange(j, q.len() as int),
        );
    assert(q.last() == pv[l - 1]);
    assert(es[pv[l - 1] as int] == x[l - 1]);
    assert(j == rl) by {
        if j < rl {
            assert(es[q[j] as int].0 == x[0].0);
        } else if j > rl {
            assert(q[j] == pv[j - rl]);
            assert(es[pv[j - rl] as int] == x[j - rl]);
            assert(x[0].0 != x[j - rl].0);
        }
    }
    assert(q.subrange(j, q.len() as int) =~= pv);
    let d1 = choose|d1: int| 0 <= d1 < pv.len() && cs[k]@ == #[trigger] pv.subrange(d1, pv.len() as int) + pv.subrange(0, d1);
    assert(cs[k]@ == turned(pv, d1));
    (k, d1)
}

/// A canonical turn of a turn of the canonical simple cycle `c` runs over `c` itself.
#[verifier::rlimit(100)]
proof fn lemma_turn_of_turn(es: Seq<(u64, u64)>, ck: Seq<usize>, pv: Seq<usize>, c: Seq<(u64, u64)>, d1: int, d2: int)
    requires
        forall|i: int, j: int| 0 <= i < j < c.len() ==> turned(c, d2)[i].0 != turned(c, d2)[j].0,
        0 <= d1 < pv.len(),
        ck == turned(pv, d1),
        is_canonical_index_cycle(es, ck),
        pv.len() == c.len(),
        walk_arcs(es, pv) == turned(c, d2),
        0 <= d2 < c.len(),
        is_simple_canonical_cycle(es.to_set(), c),
    ensures
        walk_arcs(es, ck) == c,
{
    let l = c.len() as int;
    let x = turned(c, d2);
    lemma_walk_arcs_turned(es, pv, d1);
    let w1 = walk_arcs(es, ck);
    assert(w1 == turned(x, d1));
    assert forall|i: int| 0 <= i < l implies turned(x, d1)[0].0 <= (#[trigger] turned(x, d1)[i]).0 by {
        assert(w1[i] == es[ck[i] as int]);
        assert(w1[0] == es[ck[0] as int]);
    }
    let d3 = if d2 == 0 { 0 } else { l - d2 };
    assert(turned(x, d3) =~= c);
    assert forall|i: int| 0 <= i < l implies turned(x, d3)[0].0 <= (#[trigger] turned(x, d3)[i]).0 by {
    }
    lemma_least_turn_unique(x, d1, d3);
}

proof fn lemma_turned_walk(es: Seq<(u64, u64)>, pp: Seq<usize>, d: int)
    requires
        pp.len() > 0,
        is_index_walk(es, pp),
        es[pp.last() as int].1 == es[pp[0] as int].0,
        0 <= d < pp.len(),
    ensures
        is_index_walk(es, turned(pp, d)),
        turned(pp, d).len() == pp.len(),
        turned(pp, d)[0] == pp[d],
{
    let l = pp.len() as int;
    let w = turned(pp, d);
    assert forall|k: int| 0 <= k < l implies #[trigger] w[k] == pp[if k < l - d { k + d } else { k - (l - d) }] by {
    }
    assert forall|k: int| 0 <= k < l implies #[trigger] w[k] < es.len() by {
        let kk = if k < l - d { k + d } else { k - (l - d) };
        assert(pp[kk] < es.len());
    }
    assert forall|k: int| 0 <= k < l - 1 implies es[#[trigger] w[k] as int].1 == es[w[k + 1] as int].0 by {
        if k == l - d - 1 {
            assert(w[k] == pp[l - 1]);
            assert(w[k + 1] == pp[0]);
        } else if k < l - d - 1 {
            assert(es[pp[k + d] as int].1 == es[pp[k + d + 1] as int].0);
        } else {
            assert(es[pp[k - (l - d)] as int].1 == es[pp[k - (l - d) + 1] as int].0);
        }
    }
}

/// The walk along the simple cycle `c` from its first edge closes at its end and not before.
proof fn lemma_cycle_walk_closes(es: Seq<(u64, u64)>, pp: Seq<usize>, c: Seq<(u64, u64)>)
    requires
        is_index_walk(es, pp),
        walk_arcs(es, pp) == c,
        is_simple_canonical_cycle(es.to_set(), c),
    ensures
        closes_at_end(es, seq![pp[0]], pp.drop_first()),
        seq![pp[0]] + pp.drop_first() == pp,
{
    let l = c.len() as int;
    let y = pp.drop_first();
    assert(seq![pp[0]] + y =~= pp);
    assert forall|j: int| 0 <= j < y.len() implies !#[trigger] comes_back(es, seq![pp[0]] + y.subrange(0, j)) by {
        let w = seq![pp[0]] + y.subrange(0, j);
        assert(w =~= pp.subrange(0, j + 1));
        assert(w.last() == pp[j]);
        assert(es[pp[j] as int] == c[j]);
        assert(c[j].1 == c[j + 1].0);
        if comes_back(es, w) {
            let kk = choose|kk: int| 0 <= kk < w.len() && #[trigger] es[w[kk] as int].0 == es[w.last() as int].1;
            assert(w[kk] == pp[kk]);
            assert(es[pp[kk] as int] == c[kk]);
            assert(c[kk].0 != c[j + 1].0);
        }
    }
    assert(comes_back(es, pp)) by {
        assert(es[pp[0] as int] == c[0]);
        assert(es[pp[l - 1] as int] == c[l - 1]);
        assert(es[pp[0] as int].0 == es[pp.last() as int].1);
    }
}

/// The search from the first edge of a simple cycle records it.
proof fn lemma_found_from_its_edge(es: Seq<(u64, u64)>, cs: Seq<Vec<usize>>, pp: Seq<usize>, c: Seq<(u64, u64)>)
    requires
        complete_from(es, cs, pp[0]),
        forall|k: int| 0 <= k < cs.len() ==> is_canonical_index_cycle(es, #[trigger] cs[k]@),
        is_index_walk(es, pp),
        walk_arcs(es, pp) == c,
        is_simple_canonical_cycle(es.to_set(), c),
    ensures
        exists|k: int| 0 <= k < cs.len() && walk_arcs(es, cs[k]@) == c,
{
    lemma_cycle_walk_closes(es, pp, c);
    assert(is_index_walk(es, seq![pp[0]] + pp.drop_first()));
    assert(records(es, cs, pp));
    assert(turned(c, 0) =~= c);
    lemma_turn_simple(es.to_set(), c, 0);
    assert(turned(c, 0)[0] == c[0]);
    assert(on_cycle(c, c[0].0));
    lemma_recorded_cycle(es, cs, pp, 0, pp, c, 0);
}

/// A walk whose edges leave no vertex of a simple cycle before it reaches the cycle's first
/// edge: the search records the cycle.
proof fn lemma_found_fresh(es: Seq<(u64, u64)>, cs: Seq<Vec<usize>>, s: usize, y: Seq<usize>, pp: Seq<usize>, c: Seq<(u64, u64)>)
    requires
        complete_from(es, cs, s),
        forall|k: int| 0 <= k < cs.len() ==> is_canonical_index_cycle(es, #[trigger] cs[k]@),
        y.len() > 0,
        is_index_walk(es, seq![s] + y),
        no_return_before(es, seq![s], y),
        (seq![s] + y).last() == pp[0],
        forall|m: int| 0 <= m < y.len() ==> !#[trigger] on_cycle(c, es[(seq![s] + y)[m] as int].0),
        is_index_walk(es, pp),
        walk_arcs(es, pp) == c,
        is_simple_canonical_cycle(es.to_set(), c),
    ensures
        exists|k: int| 0 <= k < cs.len() && walk_arcs(es, cs[k]@) == c,
{
    let q = seq![s] + y;
    let yr = y.subrange(0, y.len() - 1);
    let r = seq![s] + yr;
    assert(r =~= q.subrange(0, y.len() as int));
    assert(no_return_before(es, seq![s], yr)) by {
        assert forall|j: int| 0 <= j < yr.len() implies !#[trigger] comes_back(es, seq![s] + yr.subrange(0, j)) by {
            assert(yr.subrange(0, j) =~= y.subrange(0, j));
        }
    }
    assert(!comes_back(es, r)) by {
        assert(seq![s] + y.subrange(0, y.len() - 1) =~= r);
    }
    assert(is_index_walk(es, r)) by {
        assert forall|k: int| 0 <= k < r.len() implies #[trigger] r[k] < es.len() by {
            assert(r[k] == q[k]);
        }
        assert forall|k: int| 0 <= k < r.len() - 1 implies es[#[trigger] r[k] as int].1 == es[r[k + 1] as int].0 by {
            assert(r[k] == q[k]);
            assert(r[k + 1] == q[k + 1]);
        }
    }
    assert forall|m: int| 0 <= m < yr.len() + 1 implies !#[trigger] on_cycle(c, es[(seq![s] + yr)[m] as int].0) by {
        assert((seq![s] + yr)[m] == q[m]);
    }
    assert(r.last() == q[y.len() - 1]);
    assert(es[q[y.len() - 1] as int].1 == es[q[y.len() as int] as int].0);
    assert(turned(pp, 0) =~= pp);
    lemma_walk_arcs_turned(es, pp, 0);
    assert(turned(c, 0) =~= c);
    lemma_closing_along_cycle(es, cs, s, yr, pp, c, 0);
}

/// A walk that first meets a vertex of a simple cycle after its first edge: the search records
/// the cycle along the branch that follows it from there.
proof fn lemma_found_on_entry(
    es: Seq<(u64, u64)>,
    cs: Seq<Vec<usize>>,
    s: usize,
    y: Seq<usize>,
    j0: int,
    pp: Seq<usize>,
    c: Seq<(u64, u64)>,
)
    requires
        complete_from(es, cs, s),
        forall|k: int| 0 <= k < cs.len() ==> is_canonical_index_cycle(es, #[trigger] cs[k]@),
        0 < j0 < y.len(),
        is_index_walk(es, seq![s] + y),
        no_return_before(es, seq![s], y),
        on_cycle(c, es[(seq![s] + y)[j0] as int].0),
        forall|m: int| 0 <= m < j0 ==> !#[trigger] on_cycle(c, es[(seq![s] + y)[m] as int].0),
        is_index_walk(es, pp),
        walk_arcs(es, pp) == c,
        is_simple_canonical_cycle(es.to_set(), c),
    ensures
        exists|k: int| 0 <= k < cs.len() && walk_arcs(es, cs[k]@) == c,
{
    let l = c.len() as int;
    let q = seq![s] + y;
    let yr = y.subrange(0, j0 - 1);
    let r = seq![s] + yr;
    assert(r =~= q.subrange(0, j0));
    let v = es[q[j0] as int].0;
    let mv = choose|m: int| 0 <= m < c.len() && #[trigger] c[m].0 == v;
    assert(pp.len() == l);
    assert(es[pp[0] as int] == c[0]);
    assert(es[pp[l - 1] as int] == c[l - 1]);
    lemma_turned_walk(es, pp, mv);
    let pv = turned(pp, mv);
    lemma_walk_arcs_turned(es, pp, mv);
    assert(is_index_walk(es, r)) by {
        assert forall|k: int| 0 <= k < r.len() implies #[trigger] r[k] < es.len() by {
            assert(r[k] == q[k]);
        }
        assert forall|k: int| 0 <= k < r.len() - 1 implies es[#[trigger] r[k] as int].1 == es[r[k + 1] as int].0 by {
            assert(r[k] == q[k]);
            assert(r[k + 1] == q[k + 1]);
        }
    }
    assert(no_return_before(es, seq![s], yr)) by {
        assert forall|j: int| 0 <= j < yr.len() implies !#[trigger] comes_back(es, seq![s] + yr.subrange(0, j)) by {
            assert(yr.subrange(0, j) =~= y.subrange(0, j));
        }
    }
    assert(!comes_back(es, r)) by {
        assert(seq![s] + y.subrange(0, j0 - 1) =~= r);
    }
    assert forall|m: int| 0 <= m < yr.len() + 1 implies !#[trigger] on_cycle(c, es[(seq![s] + yr)[m] as int].0) by {
        assert((seq![s] + yr)[m] == q[m]);
    }
    assert(r.last() == q[j0 - 1]);
    assert(es[q[j0 - 1] as int].1 == es[q[j0] as int].0);
    assert(pv[0] == pp[mv]);
    assert(es[pp[mv] as int] == c[mv]);
    lemma_closing_along_cycle(es, cs, s, yr, pv, c, mv);
}

/// A search that reaches the first edge of a simple cycle did not start from an edge that
/// leaves a vertex of the cycle, where start edges come by origin index after those leaving
/// vertices without incoming edges.
proof fn lemma_no_start_on_cycle(
    es: Seq<(u64, u64)>,
    order: Seq<usize>,
    ns: int,
    i2: int,
    y: Seq<usize>,
    pp: Seq<usize>,
    c: Seq<(u64, u64)>,
)
    requires
        forall|i: int, j: int| 0 <= i < j < es.len() ==> es[i].0 <= es[j].0,
        0 <= ns,
        order.len() == ns + es.len(),
        forall|u: int| 0 <= u < es.len() ==> #[trigger] order[ns + u] == u,
        forall|k: int| 0 <= k < ns ==> #[trigger] order[k] < es.len() && is_source(es.to_set(), es[order[k] as int].0),
        0 <= i2 < order.len(),
        i2 <= ns + pp[0],
        y.len() > 0,
        is_index_walk(es, seq![order[i2]] + y),
        no_return_before(es, seq![order[i2]], y),
        (seq![order[i2]] + y).last() == pp[0],
        is_index_walk(es, pp),
        walk_arcs(es, pp) == c,
        is_simple_canonical_cycle(es.to_set(), c),
    ensures
        !on_cycle(c, es[order[i2] as int].0),
{
    let l = c.len() as int;
    let s = order[i2];
    let t = pp[0];
    let q = seq![s] + y;
    assert(es[t as int] == c[0]);
    let qp = q.subrange(0, y.len() as int);
    assert(!comes_back(es, qp)) by {
        assert(seq![s] + y.subrange(0, y.len() - 1) =~= qp);
    }
    assert(es[q[y.len() - 1] as int].1 == es[q[y.len() as int] as int].0);
    assert(q[y.len() as int] == t);
    if !on_cycle(c, es[s as int].0) {
        return;
    }
    let m = choose|m: int| 0 <= m < c.len() && #[trigger] c[m].0 == es[s as int].0;
    if es[s as int].0 == c[0].0 {
        assert(qp[0] == s);
        assert(qp.last() == q[y.len() - 1]);
        assert(es[qp[0] as int].0 == es[qp.last() as int].1);
        assert(comes_back(es, qp));
    }
    assert(c[0].0 <= c[m].0);
    if i2 < ns {
        let pm = if m == 0 { l - 1 } else { m - 1 };
        assert(c[pm].1 == c[m].0);
        assert(es.to_set().contains(c[pm]));
        assert(is_source(es.to_set(), es[order[i2] as int].0));
    } else {
        let u = i2 - ns;
        assert(order[ns + u] == u);
        if (s as int) < (t as int) {
            assert(es[s as int].0 <= es[t as int].0);
        }
    }
}

/// On a graph whose edges are ordered by origin, the searches started from the edges in
/// `order` record every simple cycle.
proof fn lemma_cycle_recorded(es: Seq<(u64, u64)>, order: Seq<usize>, ns: int, cs: Seq<Vec<usize>>, c: Seq<(u64, u64)>)
    requires
        es.len() <= usize::MAX,
        forall|i: int, j: int| 0 <= i < j < es.len() ==> es[i].0 <= es[j].0,
        0 <= ns,
        order.len() == ns + es.len(),
        forall|u: int| 0 <= u < es.len() ==> #[trigger] order[ns + u] == u,
        forall|k: int| 0 <= k < ns ==> #[trigger] order[k] < es.len() && is_source(es.to_set(), es[order[k] as int].0),
        forall|u: int| 0 <= u < es.len() ==> #[trigger] visit_witness(es, order, cs, order.len() as int, u),
        forall|k: int| 0 <= k < cs.len() ==> is_canonical_index_cycle(es, #[trigger] cs[k]@),
        is_simple_canonical_cycle(es.to_set(), c),
    ensures
        exists|k: int| 0 <= k < cs.len() && walk_arcs(es, cs[k]@) == c,
{
    let pp = lemma_walk_positions(es, c);
    let t = pp[0];
    assert(t < es.len());
    assert(visit_witness(es, order, cs, order.len() as int, t as int));
    let (i2, y) = choose|i2: int, y: Seq<usize>|
        0 <= i2 < order.len() && 0 <= i2 < order.len() && complete_from(es, cs, order[i2]) && (seq![order[i2]] + y).last()
            == t && #[trigger] is_index_walk(es, seq![order[i2]] + y) && no_return_before(es, seq![order[i2]], y) && i2
            <= order.len() - es.len() + t;
    let s = order[i2];
    let q = seq![s] + y;
    if y.len() == 0 {
        assert(s == t);
        lemma_found_from_its_edge(es, cs, pp, c);
    } else if exists|m: int| 0 <= m < y.len() && #[trigger] on_cycle(c, es[q.subrange(0, y.len() as int)[m] as int].0) {
        let qp = q.subrange(0, y.len() as int);
        let j0 = lemma_first_hit(es, qp, c);
        assert forall|m: int| 0 <= m < j0 implies !#[trigger] on_cycle(c, es[q[m] as int].0) by {
            assert(qp[m] == q[m]);
        }
        assert(qp[j0] == q[j0]);
        if j0 > 0 {
            lemma_found_on_entry(es, cs, s, y, j0, pp, c);
        } else {
            assert(q[0] == s);
            lemma_no_start_on_cycle(es, order, ns, i2, y, pp, c);
        }
    } else {
        assert forall|m: int| 0 <= m < y.len() implies !#[trigger] on_cycle(c, es[q[m] as int].0) by {
            assert(q.subrange(0, y.len() as int)[m] == q[m]);
        }
        lemma_found_fresh(es, cs, s, y, pp, c);
    }
}

/// Some path of `r` runs over the arcs `w`.
pub open spec fn arcs_listed(es: Seq<(u64, u64)>, r: Seq<Vec<usize>>, w: Seq<(u64, u64)>) -> bool {
    exists|j: int| 0 <= j < r.len() && #[trigger] walk_arcs(es, r[j]@) == w
}

impl CircGraph {
    /// Runs `collect_cycles` from each edge that leaves a vertex without incoming edges, then
    /// from every edge, skipping the edges already walked.
    fn find_all_cycles(&self) -> (r: (bool, Vec<Vec<usize>>))
        ensures
            r.0 == has_cycle(self.arcs()),
            r.0 == (r.1@.len() > 0),
            forall|k: int| 0 <= k < r.1@.len() ==> is_canonical_index_cycle(arcs_of(self.e@), #[trigger] r.1@[k]@),
            self.edges_sorted() ==> forall|c: Seq<(u64, u64)>|
                #[trigger] is_simple_canonical_cycle(self.arcs(), c) ==> exists|k: int|
                    0 <= k < r.1@.len() && walk_arcs(arcs_of(self.e@), r.1@[k]@) == c,
    {
        let ghost es = arcs_of(self.e@);
        let starts = self.get_path_start_edges();
        let n = self.e.len();
        let mut visited: Vec<bool> = Vec::new();
        while visited.len() < n
            invariant
                visited@.len() <= n,
                forall|k: int| 0 <= k < visited@.len() ==> !#[trigger] visited@[k],
            decreases n - visited@.len(),
        {
            visited.push(false);
        }
        let mut cycles: Vec<Vec<usize>> = Vec::new();
        let mut any = false;
        let mut order: Vec<usize> = Vec::new();
        let mut i: usize = 0;
        while i < starts.len()
            invariant
                0 <= i <= starts@.len(),
                order@ == starts@.subrange(0, i as int),
                forall|k: int| 0 <= k < starts@.len() ==> #[trigger] starts@[k] < n,
            decreases starts@.len() - i,
        {
            order.push(starts[i]);
            assert(order@ =~= starts@.subrange(0, i + 1));
            i += 1;
        }
        let ghost ns = starts@.len() as int;
        let mut t: usize = 0;
        while t < n
            invariant
                0 <= t <= n,
                ns == starts@.len(),
                order@.len() == starts@.len() + t,
                forall|k: int| 0 <= k < order@.len() ==> #[trigger] order@[k] < n,
                forall|k: int| 0 <= k < ns ==> #[trigger] order@[k] == starts@[k],
                forall|u: int| 0 <= u < t ==> #[trigger] order@[starts@.len() + u] == u,
            decreases n - t,
        {
            order.push(t);
            t += 1;
        }
        let mut i: usize = 0;
        while i < order.len()
            invariant
                es == arcs_of(self.e@),
                n == es.len(),
                visited@.len() == n,
                0 <= i <= order@.len(),
                ns == starts@.len(),
                order@.len() == starts@.len() + n,
                forall|k: int| 0 <= k < order@.len() ==> #[trigger] order@[k] < n,
                forall|u: int| 0 <= u < n ==> #[trigger] order@[starts@.len() + u] == u,
                forall|k: int| 0 <= k < ns ==> #[trigger] order@[k] == starts@[k],
                forall|k: int| 0 <= k < i ==> #[trigger] visited@[order@[k] as int],
                any ==> has_cycle(es.to_set()),
                any == (cycles@.len() > 0),
                !any ==> forall|u: int| 0 <= u < n && #[trigger] visited@[u] ==> !may_return(es, seq![u as usize]),
                forall|k: int| 0 <= k < cycles@.len() ==> is_canonical_index_cycle(es, #[trigger] cycles@[k]@),
                forall|u: int| 0 <= u < n && #[trigger] visited@[u] ==> visit_witness(es, order@, cycles@, i as int, u),
            decreases order@.len() - i,
        {
            let s = order[i];
            if !visited[s] {
                let ghost vis_before = visited@;
                let ghost cyc_before = cycles@;
                visited.set(s, true);
                let ghost vis_mid = visited@;
                let mut path: Vec<usize> = Vec::new();
                path.push(s);
                assert(is_open_path(es, path@));
                let f = self.collect_cycles(&mut path, &mut visited, &mut cycles);
                assert(path@ =~= seq![s]);
                if f {
                    proof {
                        lemma_may_return_gives_cycle(es, seq![s]);
                    }
                    any = true;
                } else if !any {
                    assert forall|u: int| 0 <= u < n && #[trigger] visited@[u] implies !may_return(es, seq![u as usize]) by {
                        if u != s as int {
                            assert(vis_before[u] || !may_return(es, seq![u as usize]));
                        }
                    }
                }
                assert forall|k: int| 0 <= k < cycles@.len() implies is_canonical_index_cycle(es, #[trigger] cycles@[k]@) by {
                    if k < cyc_before.len() {
                        assert(cycles@[k] == cyc_before[k]);
                    }
                }
                assert forall|k: int| 0 <= k < i + 1 implies #[trigger] visited@[order@[k] as int] by {
                    assert(vis_before[order@[k] as int] || order@[k] == s);
                }
                proof {
                    assert(complete_from(es, cycles@, s));
                    assert forall|u: int| 0 <= u < n && #[trigger] visited@[u] implies visit_witness(es, order@, cycles@, i + 1, u) by {
                        if vis_before[u] {
                            assert(visit_witness(es, order@, cyc_before, i as int, u));
                            let (i2, y) = choose|i2: int, y: Seq<usize>|
                                0 <= i2 < i && 0 <= i2 < order@.len() && complete_from(es, cyc_before, order@[i2]) && (seq![
                                    order@[i2],
                                ] + y).last() == u && #[trigger] is_index_walk(es, seq![order@[i2]] + y) && no_return_before(
                                    es,
                                    seq![order@[i2]],
                                    y,
                                ) && i2 <= order@.len() - es.len() + u;
                            lemma_complete_grow(es, cyc_before, cycles@, order@[i2]);
                            assert(is_index_walk(es, seq![order@[i2]] + y));
                        } else if u == s as int {
                            let y = Seq::<usize>::empty();
                            assert(seq![s] + y =~= seq![s]);
                            assert(is_index_walk(es, seq![order@[i as int]] + y));
                            if i >= ns {
                                assert(order@[ns + (i - ns)] == i - ns);
                            }
                        } else {
                            assert(!vis_mid[u]);
                            let y = choose|y: Seq<usize>|
                                y.len() > 0 && (seq![s] + y).last() == u && #[trigger] is_index_walk(es, seq![s] + y)
                                    && no_return_before(es, seq![s], y);
                            assert(is_index_walk(es, seq![order@[i as int]] + y));
                            if ns + u < i {
                                assert(visited@[order@[ns + u] as int]);
                                assert(vis_before[order@[ns + u] as int] || order@[ns + u] == s);
                            }
                        }
                    }
                }
            } else {
                proof {
                    assert forall|u: int| 0 <= u < n && #[trigger] visited@[u] implies visit_witness(es, order@, cycles@, i + 1, u) by {
                        assert(visit_witness(es, order@, cycles@, i as int, u));
                    }
                }
            }
            i += 1;
        }
        proof {
            if !any && has_cycle(es.to_set()) {
                lemma_cycle_gives_return(es);
                let u = choose|u: usize| u < es.len() && #[trigger] may_return(es, seq![u]);
                assert(order@[starts@.len() + u] == u);
                assert(visited@[order@[starts@.len() + u] as int]);
            }
            if self.edges_sorted() {
                assert forall|a: int, b: int| 0 <= a < b < es.len() implies es[a].0 <= es[b].0 by {
                    assert(es[a] == arc_of(self.e@[a]));
                    assert(es[b] == arc_of(self.e@[b]));
                }
                assert forall|k: int| 0 <= k < ns implies #[trigger] order@[k] < es.len() && is_source(es.to_set(), es[order@[k] as int].0) by {
                    assert(order@[k] == starts@[k]);
                }
                assert forall|u: int| 0 <= u < es.len() implies #[trigger] visit_witness(es, order@, cycles@, order@.len() as int, u) by {
                    assert(order@[ns + u] == u);
                    assert(visited@[order@[ns + u] as int]);
                }
                assert forall|c: Seq<(u64, u64)>| #[trigger] is_simple_canonical_cycle(self.arcs(), c) implies exists|k: int|
                    0 <= k < cycles@.len() && walk_arcs(es, cycles@[k]@) == c by {
                    lemma_cycle_recorded(es, order@, ns, cycles@, c);
                }
            }
        }
        assert(self.edges_sorted() ==> forall|c: Seq<(u64, u64)>|
            #[trigger] is_simple_canonical_cycle(self.arcs(), c) ==> exists|k: int|
                0 <= k < cycles@.len() && walk_arcs(arcs_of(self.e@), cycles@[k]@) == c);
        (any, cycles)
    }

    /// Whether two paths run over the same arcs.
    fn same_arcs(&self, a: &Vec<usize>, b: &Vec<usize>) -> (r: bool)
        requires
            forall|k: int| 0 <= k < a@.len() ==> #[trigger] a@[k] < self.e@.len(),
            forall|k: int| 0 <= k < b@.len() ==> #[trigger] b@[k] < self.e@.len(),
        ensures
            r == (walk_arcs(arcs_of(self.e@), a@) == walk_arcs(arcs_of(self.e@), b@)),
    {
        let ghost es = arcs_of(self.e@);
        if a.len() != b.len() {
            assert(walk_arcs(es, a@).len() != walk_arcs(es, b@).len());
            return false;
        }
        let mut k: usize = 0;
        while k < a.len()
            invariant
                es == arcs_of(self.e@),
                a@.len() == b@.len(),
                0 <= k <= a@.len(),
                forall|q: int| 0 <= q < a@.len() ==> #[trigger] a@[q] < es.len(),
                forall|q: int| 0 <= q < b@.len() ==> #[trigger] b@[q] < es.len(),
                forall|q: int| 0 <= q < k ==> #[trigger] es[a@[q] as int] == es[b@[q] as int],
            decreases a@.len() - k,
        {
            let x = &self.e[a[k]];
            let y = &self.e[b[k]];
            assert(es[a@[k as int] as int] == arc_of(self.e@[a@[k as int] as int]));
            assert(es[b@[k as int] as int] == arc_of(self.e@[b@[k as int] as int]));
            if x.from.index != y.from.index || x.to.index != y.to.index {
                assert(walk_arcs(es, a@)[k as int] != walk_arcs(es, b@)[k as int]);
                return false;
            }
            k += 1;
        }
        assert(walk_arcs(es, a@) =~= walk_arcs(es, b@));
        true
    }
}


impl CircGraph {
    /// The cycles ordered by length, keeping the order of discovery among equal lengths and the
    /// first of cycles that run over the same arcs.
    fn sort_cycles(&self, raw: &Vec<Vec<usize>>) -> (r: Vec<Vec<usize>>)
        requires
            forall|k: int| 0 <= k < raw@.len() ==> is_canonical_index_cycle(arcs_of(self.e@), #[trigger] raw@[k]@),
        ensures
            (r@.len() > 0) == (raw@.len() > 0),
            forall|k: int| 0 <= k < r@.len() ==> is_canonical_index_cycle(arcs_of(self.e@), #[trigger] r@[k]@),
            forall|i: int, j: int|
                0 <= i < j < r@.len() ==> walk_arcs(arcs_of(self.e@), r@[i]@) != walk_arcs(arcs_of(self.e@), r@[j]@),
            forall|i: int, j: int| 0 <= i < j < r@.len() ==> r@[i]@.len() <= r@[j]@.len(),
            forall|k: int| 0 <= k < raw@.len() ==> #[trigger] arcs_listed(arcs_of(self.e@), r@, walk_arcs(arcs_of(self.e@), raw@[k]@)),
    {
        let ghost es = arcs_of(self.e@);
        let mut r: Vec<Vec<usize>> = Vec::new();
        let mut i: usize = 0;
        while i < raw.len()
            invariant
                es == arcs_of(self.e@),
                0 <= i <= raw@.len(),
                forall|k: int| 0 <= k < raw@.len() ==> is_canonical_index_cycle(es, #[trigger] raw@[k]@),
                (r@.len() > 0) == (i > 0),
                forall|k: int| 0 <= k < r@.len() ==> is_canonical_index_cycle(es, #[trigger] r@[k]@),
                forall|a: int, b: int| 0 <= a < b < r@.len() ==> walk_arcs(es, r@[a]@) != walk_arcs(es, r@[b]@),
                forall|a: int, b: int| 0 <= a < b < r@.len() ==> r@[a]@.len() <= r@[b]@.len(),
                forall|k: int| 0 <= k < i ==> #[trigger] arcs_listed(es, r@, walk_arcs(es, raw@[k]@)),
            decreases raw@.len() - i,
        {
            let c = &raw[i];
            assert(is_canonical_index_cycle(es, raw@[i as int]@));
            let mut present = false;
            let mut k: usize = 0;
            while k < r.len()
                invariant
                    es == arcs_of(self.e@),
                    is_canonical_index_cycle(es, c@),
                    forall|q: int| 0 <= q < r@.len() ==> is_canonical_index_cycle(es, #[trigger] r@[q]@),
                    0 <= k <= r@.len(),
                    !present ==> forall|q: int| 0 <= q < k ==> walk_arcs(es, #[trigger] r@[q]@) != walk_arcs(es, c@),
                    present ==> r@.len() > 0,
                    present ==> exists|j: int| 0 <= j < r@.len() && #[trigger] walk_arcs(es, r@[j]@) == walk_arcs(es, c@),
                decreases r@.len() - k,
            {
                assert(is_canonical_index_cycle(es, r@[k as int]@));
                if self.same_arcs(&r[k], c) {
                    present = true;
                }
                k += 1;
            }
            let ghost r_before = r@;
            if !present {
                let mut pos: usize = 0;
                while pos < r.len() && r[pos].len() <= c.len()
                    invariant
                        0 <= pos <= r@.len(),
                        forall|q: int| 0 <= q < pos ==> (#[trigger] r@[q])@.len() <= c@.len(),
                    decreases r@.len() - pos,
                {
                    pos += 1;
                }
                let ghost before = r@;
                let mut copy: Vec<usize> = Vec::new();
                let mut q: usize = 0;
                while q < c.len()
                    invariant
                        0 <= q <= c@.len(),
                        copy@ == c@.subrange(0, q as int),
                    decreases c@.len() - q,
                {
                    copy.push(c[q]);
                    assert(copy@ =~= c@.subrange(0, q + 1));
                    q += 1;
                }
                assert(copy@ =~= c@);
                r.insert(pos, copy);
                assert forall|a: int| 0 <= a < r@.len() implies r@[a] == (if a < pos { before[a] } else if a == pos {
                    r@[pos as int]
                } else {
                    before[a - 1]
                }) by {
                }
                assert forall|a: int, b: int| 0 <= a < b < r@.len() implies r@[a]@.len() <= r@[b]@.len() by {
                    if b == pos {
                    } else if a == pos {
                        if pos < before.len() {
                            assert(!(before[pos as int]@.len() <= c@.len()) || pos == before.len());
                            assert(before[pos as int]@.len() <= before[b - 1]@.len() || b - 1 == pos);
                        }
                    } else if a < pos && b > pos {
                        assert(before[a]@.len() <= c@.len());
                    }
                }
                assert forall|a: int, b: int| 0 <= a < b < r@.len() implies walk_arcs(es, r@[a]@) != walk_arcs(es, r@[b]@) by {
                    if a == pos {
                        assert(walk_arcs(es, before[b - 1]@) != walk_arcs(es, c@));
                    } else if b == pos {
                        assert(walk_arcs(es, before[a]@) != walk_arcs(es, c@));
                    }
                }
                assert forall|k: int| 0 <= k < i + 1 implies #[trigger] arcs_listed(es, r@, walk_arcs(es, raw@[k]@)) by {
                    if k == i {
                        assert(r@[pos as int]@ == c@);
                        assert(walk_arcs(es, r@[pos as int]@) == walk_arcs(es, raw@[k]@));
                    } else {
                        assert(arcs_listed(es, before, walk_arcs(es, raw@[k]@)));
                        let j = choose|j: int| 0 <= j < before.len() && #[trigger] walk_arcs(es, before[j]@) == walk_arcs(es, raw@[k]@);
                        if j < pos {
                            assert(r@[j] == before[j]);
                            assert(walk_arcs(es, r@[j]@) == walk_arcs(es, raw@[k]@));
                        } else {
                            assert(r@[j + 1] == before[j]);
                            assert(walk_arcs(es, r@[j + 1]@) == walk_arcs(es, raw@[k]@));
                        }
                    }
                }
            } else {
                assert forall|k: int| 0 <= k < i + 1 implies #[trigger] arcs_listed(es, r@, walk_arcs(es, raw@[k]@)) by {
                    if k == i {
                        let j = choose|j: int| 0 <= j < r@.len() && #[trigger] walk_arcs(es, r@[j]@) == walk_arcs(es, c@);
                    }
                }
            }
            i += 1;
        }
        r
    }

    /// The edges at the positions of `c`.
    pub(crate) fn path_edges(&self, c: &Vec<usize>) -> (r: Vec<Edge>)
        requires
            forall|k: int| 0 <= k < c@.len() ==> #[trigger] c@[k] < self.e@.len(),
        ensures
            arcs_of(r@) == walk_arcs(arcs_of(self.e@), c@),
            forall|k: int| 0 <= k < r@.len() ==> #[trigger] r@[k].from.label@ == self.e@[c@[k] as int].from.label@
                && r@[k].to.label@ == self.e@[c@[k] as int].to.label@,
            edges_of_graph(self.e@, r@),
            r@.len() == c@.len(),
            forall|k: int| 0 <= k < r@.len() ==> edge_ends(#[trigger] r@[k]) == edge_ends(self.e@[c@[k] as int]),
    {
        let ghost es = arcs_of(self.e@);
        let mut r: Vec<Edge> = Vec::new();
        let mut k: usize = 0;
        while k < c.len()
            invariant
                es == arcs_of(self.e@),
                0 <= k <= c@.len(),
                forall|q: int| 0 <= q < c@.len() ==> #[trigger] c@[q] < self.e@.len(),
                r@.len() == k,
                arcs_of(r@) == walk_arcs(es, c@).subrange(0, k as int),
                forall|q: int| 0 <= q < r@.len() ==> #[trigger] r@[q].from.label@ == self.e@[c@[q] as int].from.label@
                    && r@[q].to.label@ == self.e@[c@[q] as int].to.label@,
                forall|q: int| 0 <= q < r@.len() ==> edge_ends(#[trigger] r@[q]) == edge_ends(self.e@[c@[q] as int]),
            decreases c@.len() - k,
        {
            let d = self.e[c[k]].duplicate();
            let ghost before = r@;
            r.push(d);
            assert(arcs_of(r@) =~= walk_arcs(es, c@).subrange(0, k + 1)) by {
                assert forall|q: int| 0 <= q < k implies arcs_of(r@)[q] == arcs_of(before)[q] by {}
                assert(arcs_of(r@)[k as int] == arc_of(self.e@[c@[k as int] as int]));
            }
            k += 1;
        }
        assert(walk_arcs(es, c@).subrange(0, c@.len() as int) =~= walk_arcs(es, c@));
        assert forall|j: int| 0 <= j < r@.len() implies #[trigger] edge_in(self.e@, r@[j]) by {
            assert(c@[j] < self.e@.len());
            assert(edge_ends(r@[j]) == edge_ends(self.e@[c@[j] as int]));
        }
        assert(edges_of_graph(self.e@, r@));
        r
    }

    /// Whether the graph has a cycle, and its cycles: each passes a vertex once, starts at its
    /// vertex of least index, appears once, and they come by increasing length.
    pub fn all_cycles(&self) -> (r: (bool, Vec<Vec<Edge>>))
        ensures
            r.0 == has_cycle(self.arcs()),
            r.0 == (r.1@.len() > 0),
            forall|k: int| 0 <= k < r.1@.len() ==> is_simple_canonical_cycle(self.arcs(), arcs_of(#[trigger] r.1@[k]@)),
            forall|i: int, j: int| 0 <= i < j < r.1@.len() ==> arcs_of(r.1@[i]@) != arcs_of(r.1@[j]@),
            forall|i: int, j: int| 0 <= i < j < r.1@.len() ==> r.1@[i]@.len() <= r.1@[j]@.len(),
            self.edges_sorted() ==> forall|c: Seq<(u64, u64)>|
                #[trigger] is_simple_canonical_cycle(self.arcs(), c) ==> exists|k: int|
                    0 <= k < r.1@.len() && arcs_of(r.1@[k]@) == c,
            forall|k: int| 0 <= k < r.1@.len() ==> edges_of_graph(self.e@, #[trigger] r.1@[k]@),
    {
        let ghost es = arcs_of(self.e@);
        let (any, raw) = self.find_all_cycles();
        let sorted = self.sort_cycles(&raw);
        let ghost complete = self.edges_sorted() ==> forall|c: Seq<(u64, u64)>|
            #[trigger] is_simple_canonical_cycle(self.arcs(), c) ==> arcs_listed(es, sorted@, c);
        proof {
            if self.edges_sorted() {
                assert forall|c: Seq<(u64, u64)>| #[trigger] is_simple_canonical_cycle(self.arcs(), c) implies arcs_listed(
                    es,
                    sorted@,
                    c,
                ) by {
                    let kr = choose|kr: int| 0 <= kr < raw@.len() && walk_arcs(es, raw@[kr]@) == c;
                    assert(arcs_listed(es, sorted@, walk_arcs(es, raw@[kr]@)));
                }
            }
        }
        let mut out: Vec<Vec<Edge>> = Vec::new();
        let mut k: usize = 0;
        while k < sorted.len()
            invariant
                complete,
                complete == (self.edges_sorted() ==> forall|c: Seq<(u64, u64)>|
                    #[trigger] is_simple_canonical_cycle(self.arcs(), c) ==> arcs_listed(es, sorted@, c)),
                es == arcs_of(self.e@),
                0 <= k <= sorted@.len(),
                out@.len() == k,
                forall|q: int| 0 <= q < sorted@.len() ==> is_canonical_index_cycle(es, #[trigger] sorted@[q]@),
                forall|q: int| 0 <= q < k ==> arcs_of(#[trigger] out@[q]@) == walk_arcs(es, sorted@[q]@),
                forall|q: int| 0 <= q < k ==> edges_of_graph(self.e@, #[trigger] out@[q]@),
            decreases sorted@.len() - k,
        {
            assert(is_canonical_index_cycle(es, sorted@[k as int]@));
            let edges = self.path_edges(&sorted[k]);
            out.push(edges);
            k += 1;
        }
        assert forall|q: int| 0 <= q < out@.len() implies is_simple_canonical_cycle(self.arcs(), arcs_of(#[trigger] out@[q]@)) by {
            assert(is_canonical_index_cycle(es, sorted@[q]@));
            lemma_canonical_arcs(es, sorted@[q]@);
        }
        assert forall|i: int, j: int| 0 <= i < j < out@.len() implies out@[i]@.len() <= out@[j]@.len() by {
            assert(arcs_of(out@[i]@).len() == walk_arcs(es, sorted@[i]@).len());
            assert(arcs_of(out@[j]@).len() == walk_arcs(es, sorted@[j]@).len());
        }
        proof {
            if self.edges_sorted() {
                assert forall|c: Seq<(u64, u64)>| #[trigger] is_simple_canonical_cycle(self.arcs(), c) implies exists|k: int|
                    0 <= k < out@.len() && arcs_of(out@[k]@) == c by {
                    assert(arcs_listed(es, sorted@, c));
                    let j = choose|j: int| 0 <= j < sorted@.len() && #[trigger] walk_arcs(es, sorted@[j]@) == c;
                    assert(arcs_of(out@[j]@) == c);
                }
            }
        }
        assert(self.edges_sorted() ==> forall|c: Seq<(u64, u64)>|
            #[trigger] is_simple_canonical_cycle(self.arcs(), c) ==> exists|k: int| 0 <= k < out@.len() && arcs_of(out@[k]@) == c);
        let r = (any, out);
        assert(r.1@ == out@);
        r
    }
}



/// The positions of the edges along a walk over the arcs of `es`.
pub(crate) proof fn lemma_walk_positions(es: Seq<(u64, u64)>, w: Seq<(u64, u64)>) -> (q: Seq<usize>)
    requires
        is_walk(es.to_set(), w),
        es.len() <= usize::MAX,
    ensures
        is_index_walk(es, q),
        walk_arcs(es, q) == w,
{
    assert forall|m: int| 0 <= m < w.len() implies es.contains(#[trigger] w[m]) by {
        assert(es.to_set().contains(w[m]));
    }
    let q = Seq::new(w.len(), |m: int| (choose|j: usize| j < es.len() && es[j as int] == w[m]));
    assert forall|m: int| 0 <= m < w.len() implies #[trigger] q[m] < es.len() && es[q[m] as int] == w[m] by {
        assert(es.contains(w[m]));
        let j = choose|j: int| 0 <= j < es.len() && es[j] == w[m];
        assert((j as usize) < es.len() && es[(j as usize) as int] == w[m]);
    }
    assert forall|k: int| 0 <= k < q.len() - 1 implies es[#[trigger] q[k] as int].1 == es[q[k + 1] as int].0 by {
        assert(w[k].1 == w[k + 1].0);
    }
    assert(walk_arcs(es, q) =~= w);
    q
}

/// `c` is a longest cycle over `arcs` among those that leave each vertex once, written from
/// its vertex of least index.
pub open spec fn is_longest_simple_cycle(arcs: Set<(u64, u64)>, c: Seq<(u64, u64)>) -> bool {
    &&& is_simple_canonical_cycle(arcs, c)
    &&& forall|c2: Seq<(u64, u64)>| #[trigger] is_simple_canonical_cycle(arcs, c2) ==> c2.len() <= c.len()
}

impl CircGraph {
    /// The number of edges of the longest cycle that leaves each vertex once, or `None` where
    /// the graph has no cycle.
    pub(crate) fn longest_cycle_len(&self) -> (r: Option<usize>)
        ensures
            r is None <==> !has_cycle(self.arcs()),
            r is Some ==> exists|c: Seq<(u64, u64)>|
                #[trigger] is_simple_canonical_cycle(self.arcs(), c) && c.len() == r->Some_0 && (self.edges_sorted()
                    ==> is_longest_simple_cycle(self.arcs(), c)),
    {
        let (is_cyclic, cycles) = self.all_cycles();
        if !is_cyclic {
            return None;
        }
        let last = cycles.len() - 1;
        let c = cycles[last].len();
        let ghost cl = arcs_of(cycles@[last as int]@);
        assert(is_simple_canonical_cycle(self.arcs(), cl));
        assert(cl.len() == c);
        proof {
            if self.edges_sorted() {
                assert forall|c2: Seq<(u64, u64)>| #[trigger] is_simple_canonical_cycle(self.arcs(), c2) implies c2.len()
                    <= cl.len() by {
                    let k = choose|k: int| 0 <= k < cycles@.len() && arcs_of(cycles@[k]@) == c2;
                    if k < last {
                        assert(cycles@[k]@.len() <= cycles@[last as int]@.len());
                    }
                }
                assert(is_longest_simple_cycle(self.arcs(), cl));
            }
        }
        Some(c)
    }
}

} // verus!
