use vstd::prelude::*;
use crate::elements::Edge;
use crate::graph_circ::{CircGraph, arc_of, arcs_of, has_cycle, is_source, is_source_walk, longest_source_walk_len, edges_of_graph};
use crate::cycles::{is_index_walk, comes_back, walk_arcs, lemma_distinct_positions_bound, lemma_return_gives_cycle, lemma_walk_positions};

verus! {

/// In a graph without cycles a walk never takes an edge twice, so it has at most one edge of
/// each position.
proof fn lemma_acyclic_walk_bound(es: Seq<(u64, u64)>, q: Seq<usize>)
    requires
        !has_cycle(es.to_set()),
        is_index_walk(es, q),
    ensures
        q.len() <= es.len(),
{
    assert forall|i: int, j: int| 0 <= i < q.len() && 0 <= j < q.len() && i != j implies q[i] != q[j] by {
        if q[i] == q[j] {
            let a = if i < j { i } else { j };
            let b = if i < j { j } else { i };
            let s2 = q.subrange(a, b);
            assert(s2[0] == q[a]);
            assert(s2.last() == q[b - 1]);
            assert(es[q[b - 1] as int].1 == es[q[b] as int].0);
            assert(es[s2[0] as int].0 == es[s2.last() as int].1);
            assert(comes_back(es, s2));
            assert forall|k: int| 0 <= k < s2.len() implies #[trigger] s2[k] < es.len() by {
                assert(s2[k] == q[a + k]);
            }
            assert forall|k: int| 0 <= k < s2.len() - 1 implies es[#[trigger] s2[k] as int].1 == es[s2[k + 1] as int].0 by {
                assert(s2[k] == q[a + k]);
                assert(s2[k + 1] == q[a + k + 1]);
            }
            lemma_return_gives_cycle(es, s2);
        }
    }
    assert(q.no_duplicates());
    lemma_distinct_positions_bound(q, es.len());
}

/// `q` extends the path `p`.
pub open spec fn extends(q: Seq<usize>, p: Seq<usize>) -> bool {
    q.len() >= p.len() && q.subrange(0, p.len() as int) == p
}

impl CircGraph {
    /// Records every walk that extends `path`, the longer continuations first and `path`
    /// itself last.
    fn rec_find_all_longest_paths(&self, path: &mut Vec<usize>, all: &mut Vec<Vec<usize>>)
        requires
            !has_cycle(self.arcs()),
            is_index_walk(arcs_of(self.e@), old(path)@),
            old(path)@.len() > 0,
        ensures
            final(path)@ == old(path)@,
            final(all)@.len() > old(all)@.len(),
            forall|k: int| 0 <= k < old(all)@.len() ==> #[trigger] final(all)@[k] == old(all)@[k],
            forall|k: int|
                old(all)@.len() <= k < final(all)@.len() ==> is_index_walk(arcs_of(self.e@), #[trigger] final(all)@[k]@)
                    && extends(final(all)@[k]@, old(path)@),
            forall|x: Seq<usize>|
                #[trigger] is_index_walk(arcs_of(self.e@), old(path)@ + x) ==> exists|k: int|
                    old(all)@.len() <= k < final(all)@.len() && #[trigger] final(all)@[k]@ == old(path)@ + x,
            forall|a: int, b: int| old(all)@.len() <= a < b < final(all)@.len() ==> final(all)@[a]@ != final(all)@[b]@,
        decreases self.e@.len() - old(path)@.len(),
    {
        let ghost es = arcs_of(self.e@);
        let ghost p = path@;
        proof {
            lemma_acyclic_walk_bound(es, p);
        }
        let to = self.e[path[path.len() - 1]].to.index;
        assert(to == es[p.last() as int].1);
        let mut t: usize = 0;
        while t < self.e.len()
            invariant
                path@ == p,
                p == old(path)@,
                p.len() > 0,
                es == arcs_of(self.e@),
                !has_cycle(self.arcs()),
                is_index_walk(es, p),
                p.len() <= es.len(),
                to == es[p.last() as int].1,
                0 <= t <= es.len(),
                all@.len() >= old(all)@.len(),
                forall|k: int| 0 <= k < old(all)@.len() ==> #[trigger] all@[k] == old(all)@[k],
                forall|k: int|
                    old(all)@.len() <= k < all@.len() ==> is_index_walk(es, #[trigger] all@[k]@) && extends(all@[k]@, p),
                forall|x: Seq<usize>|
                    #[trigger] is_index_walk(es, p + x) && x.len() > 0 && x[0] < t ==> exists|k: int|
                        old(all)@.len() <= k < all@.len() && #[trigger] all@[k]@ == p + x,
                forall|a: int, b: int| old(all)@.len() <= a < b < all@.len() ==> all@[a]@ != all@[b]@,
                forall|k: int| old(all)@.len() <= k < all@.len() ==> (#[trigger] all@[k])@.len() > p.len() && all@[k]@[p.len() as int] < t,
            decreases es.len() - t,
        {
            assert(es[t as int] == arc_of(self.e@[t as int]));
            if self.e[t].from.index == to {
                let ghost all_before = all@;
                path.push(t);
                assert(is_index_walk(es, path@)) by {
                    assert(path@ == p.push(t));
                    assert forall|m: int| 0 <= m < path@.len() - 1 implies es[#[trigger] path@[m] as int].1
                        == es[path@[m + 1] as int].0 by {
                        if m < p.len() - 1 {
                            assert(path@[m] == p[m]);
                            assert(path@[m + 1] == p[m + 1]);
                        } else {
                            assert(path@[m] == p.last());
                            assert(path@[m + 1] == t);
                        }
                    }
                }
                proof {
                    lemma_acyclic_walk_bound(es, path@);
                }
                self.rec_find_all_longest_paths(path, all);
                path.pop();
                assert(path@ =~= p);
                assert forall|k: int| old(all)@.len() <= k < all@.len() implies (#[trigger] all@[k])@.len() > p.len() && all@[k]@[p.len() as int] < t + 1 by {
                    if k < all_before.len() {
                        assert(all@[k] == all_before[k]);
                    } else {
                        assert(extends(all@[k]@, p.push(t)));
                        assert(all@[k]@.subrange(0, p.len() as int + 1)[p.len() as int] == t);
                    }
                }
                assert forall|a: int, b: int| old(all)@.len() <= a < b < all@.len() implies all@[a]@ != all@[b]@ by {
                    if b < all_before.len() {
                        assert(all@[a] == all_before[a]);
                        assert(all@[b] == all_before[b]);
                    } else if a < all_before.len() {
                        assert(all@[a] == all_before[a]);
                        assert(all_before[a]@[p.len() as int] < t);
                        assert(extends(all@[b]@, p.push(t)));
                        assert(all@[b]@.subrange(0, p.len() as int + 1)[p.len() as int] == t);
                    }
                }
                assert forall|k: int| 0 <= k < old(all)@.len() implies #[trigger] all@[k] == old(all)@[k] by {
                    assert(all_before[k] == old(all)@[k]);
                }
                assert forall|k: int|
                    old(all)@.len() <= k < all@.len() implies is_index_walk(es, #[trigger] all@[k]@) && extends(all@[k]@, p) by {
                    if k < all_before.len() {
                        assert(all@[k] == all_before[k]);
                    } else {
                        assert(extends(all@[k]@, p.push(t)));
                        assert(all@[k]@.subrange(0, p.len() as int) =~= p.push(t).subrange(0, p.len() as int));
                    }
                }
                assert forall|x: Seq<usize>|
                    #[trigger] is_index_walk(es, p + x) && x.len() > 0 && x[0] < t + 1 implies exists|k: int|
                        old(all)@.len() <= k < all@.len() && #[trigger] all@[k]@ == p + x by {
                    if x[0] < t {
                        let k = choose|k: int| old(all)@.len() <= k < all_before.len() && #[trigger] all_before[k]@ == p + x;
                        assert(all@[k] == all_before[k]);
                    } else {
                        let y = x.drop_first();
                        assert(p.push(t) + y =~= p + x);
                        assert(is_index_walk(es, p.push(t) + y));
                        let k = choose|k: int| all_before.len() <= k < all@.len() && #[trigger] all@[k]@ == p.push(t) + y;
                    }
                }
            } else {
                assert forall|x: Seq<usize>|
                    #[trigger] is_index_walk(es, p + x) && x.len() > 0 && x[0] < t + 1 implies exists|k: int|
                        old(all)@.len() <= k < all@.len() && #[trigger] all@[k]@ == p + x by {
                    if x[0] == t {
                        assert((p + x)[p.len() - 1] == p.last());
                        assert((p + x)[p.len() as int] == t);
                    }
                }
            }
            t += 1;
        }
        let mut copy: Vec<usize> = Vec::new();
        let mut q: usize = 0;
        while q < path.len()
            invariant
                path@ == p,
                0 <= q <= p.len(),
                copy@ == p.subrange(0, q as int),
            decreases p.len() - q,
        {
            copy.push(path[q]);
            assert(copy@ =~= p.subrange(0, q + 1));
            q += 1;
        }
        assert(copy@ =~= p);
        let ghost all_before = all@;
        all.push(copy);
        assert forall|a: int, b: int| old(all)@.len() <= a < b < all@.len() implies all@[a]@ != all@[b]@ by {
            if b < all_before.len() {
                assert(all@[a] == all_before[a]);
                assert(all@[b] == all_before[b]);
            } else {
                assert(all@[a] == all_before[a]);
                assert(all@[b]@ == p);
                assert(all_before[a]@.len() > p.len());
            }
        }
        assert(extends(p, p)) by {
            assert(p.subrange(0, p.len() as int) =~= p);
        }
        assert forall|x: Seq<usize>|
            #[trigger] is_index_walk(es, p + x) implies exists|k: int|
                old(all)@.len() <= k < all@.len() && #[trigger] all@[k]@ == p + x by {
            if x.len() == 0 {
                assert(p + x =~= p);
                assert(all@[all_before.len() as int]@ == p + x);
            } else {
                let u = x[0];
                assert((p + x)[p.len() - 1] == p.last());
                assert((p + x)[p.len() as int] == u);
                assert(u < es.len());
                let k = choose|k: int| old(all)@.len() <= k < all_before.len() && #[trigger] all_before[k]@ == p + x;
                assert(all@[k] == all_before[k]);
            }
        }
    }
}


proof fn lemma_index_source_walk(es: Seq<(u64, u64)>, q: Seq<usize>)
    requires
        is_index_walk(es, q),
        q.len() > 0,
        is_source(es.to_set(), es[q[0] as int].0),
    ensures
        is_source_walk(es.to_set(), walk_arcs(es, q)),
{
    let w = walk_arcs(es, q);
    assert forall|k: int| 0 <= k < w.len() implies es.to_set().contains(#[trigger] w[k]) by {
        assert(q[k] < es.len());
        assert(es.contains(es[q[k] as int]));
    }
    assert forall|k: int| 0 <= k < w.len() - 1 implies (#[trigger] w[k]).1 == w[k + 1].0 by {
        assert(es[q[k] as int].1 == es[q[k + 1] as int].0);
    }
}

/// `ps` are the longest walks from vertices without incoming arcs: each is such a walk, all
/// have one length, no such walk is longer, and each such walk of that length is among them.
pub open spec fn are_longest_source_walks(arcs: Set<(u64, u64)>, ps: Seq<Vec<Edge>>) -> bool {
    &&& forall|k: int| 0 <= k < ps.len() ==> is_source_walk(arcs, arcs_of(#[trigger] ps[k]@))
    &&& forall|i: int, j: int| 0 <= i < ps.len() && 0 <= j < ps.len() ==> ps[i]@.len() == ps[j]@.len()
    &&& forall|w: Seq<(u64, u64)>| #[trigger] is_source_walk(arcs, w) ==> exists|k: int|
        0 <= k < ps.len() && w.len() <= (#[trigger] ps[k])@.len()
    &&& forall|w: Seq<(u64, u64)>|
        #[trigger] is_source_walk(arcs, w) && (exists|k: int| 0 <= k < ps.len() && (#[trigger] ps[k])@.len() == w.len())
            ==> exists|k: int| 0 <= k < ps.len() && arcs_of(#[trigger] ps[k]@) == w
}

#[verifier::rlimit(60)]
proof fn lemma_longest_paths_result(
    arcs: Set<(u64, u64)>,
    es: Seq<(u64, u64)>,
    all: Seq<Vec<usize>>,
    longest: int,
    picked: Seq<int>,
    ps: Seq<Vec<Edge>>,
)
    requires
        arcs == es.to_set(),
        es.len() <= usize::MAX,
        forall|q: int| 0 <= q < all.len() ==> (#[trigger] all[q])@.len() <= longest,
        all.len() > 0 ==> exists|q: int| 0 <= q < all.len() && (#[trigger] all[q])@.len() == longest,
        forall|q: int| 0 <= q < all.len() ==> #[trigger] all[q]@.len() > 0 && is_index_walk(es, all[q]@)
            && is_source(arcs, es[all[q]@[0] as int].0),
        forall|q: Seq<usize>|
            #[trigger] is_index_walk(es, q) && q.len() > 0 && is_source(arcs, es[q[0] as int].0)
                ==> exists|k: int| 0 <= k < all.len() && #[trigger] all[k]@ == q,
        ps.len() == picked.len(),
        forall|m: int| 0 <= m < picked.len() ==> 0 <= #[trigger] picked[m] < all.len() && all[picked[m]]@.len() == longest
            && arcs_of(ps[m]@) == walk_arcs(es, all[picked[m]]@),
        forall|q: int| 0 <= q < all.len() && (#[trigger] all[q])@.len() == longest ==> exists|m: int| 0 <= m < picked.len() && picked[m] == q,
    ensures
        are_longest_source_walks(arcs, ps),
{
    assert forall|m: int| 0 <= m < ps.len() implies is_source_walk(arcs, arcs_of(#[trigger] ps[m]@)) by {
        assert(0 <= picked[m] < all.len());
        lemma_index_source_walk(es, all[picked[m]]@);
    }
    assert forall|i: int, j: int| 0 <= i < ps.len() && 0 <= j < ps.len() implies ps[i]@.len() == ps[j]@.len() by {
        assert(arcs_of(ps[i]@).len() == walk_arcs(es, all[picked[i]]@).len());
        assert(arcs_of(ps[j]@).len() == walk_arcs(es, all[picked[j]]@).len());
        assert(all[picked[i]]@.len() == longest);
        assert(all[picked[j]]@.len() == longest);
    }
    assert forall|w: Seq<(u64, u64)>| #[trigger] is_source_walk(arcs, w) implies exists|k: int|
        0 <= k < ps.len() && w.len() <= (#[trigger] ps[k])@.len() by {
        let q = lemma_walk_positions(es, w);
        assert(walk_arcs(es, q).len() == q.len());
        assert(es[q[0] as int] == w[0]);
        let a = choose|a: int| 0 <= a < all.len() && #[trigger] all[a]@ == q;
        let b = choose|b: int| 0 <= b < all.len() && (#[trigger] all[b])@.len() == longest;
        let m = choose|m: int| 0 <= m < picked.len() && picked[m] == b;
        assert(arcs_of(ps[m]@).len() == walk_arcs(es, all[b]@).len());
    }
    assert forall|w: Seq<(u64, u64)>|
        #[trigger] is_source_walk(arcs, w) && (exists|k: int| 0 <= k < ps.len() && (#[trigger] ps[k])@.len() == w.len())
            implies exists|k: int| 0 <= k < ps.len() && arcs_of(#[trigger] ps[k]@) == w by {
        let q = lemma_walk_positions(es, w);
        assert(walk_arcs(es, q).len() == q.len());
        assert(es[q[0] as int] == w[0]);
        let a = choose|a: int| 0 <= a < all.len() && #[trigger] all[a]@ == q;
        let k0 = choose|k: int| 0 <= k < ps.len() && (#[trigger] ps[k])@.len() == w.len();
        assert(arcs_of(ps[k0]@).len() == walk_arcs(es, all[picked[k0]]@).len());
        assert(all[a]@.len() == longest);
        let m = choose|m: int| 0 <= m < picked.len() && picked[m] == a;
        assert(arcs_of(ps[m]@) == w);
    }
}

impl CircGraph {
    /// Every walk from an edge that leaves a vertex without incoming edges, the walks of each
    /// start edge after those of the edges before it.
    fn all_source_walks(&self) -> (all: Vec<Vec<usize>>)
        requires
            !has_cycle(self.arcs()),
        ensures
            forall|k: int| 0 <= k < all@.len() ==> #[trigger] all@[k]@.len() > 0 && is_index_walk(arcs_of(self.e@), all@[k]@)
                && is_source(self.arcs(), arcs_of(self.e@)[all@[k]@[0] as int].0),
            forall|q: Seq<usize>|
                #[trigger] is_index_walk(arcs_of(self.e@), q) && q.len() > 0 && is_source(self.arcs(), arcs_of(self.e@)[q[0] as int].0)
                    ==> exists|k: int| 0 <= k < all@.len() && #[trigger] all@[k]@ == q,
            forall|a: int, b: int| 0 <= a < b < all@.len() ==> all@[a]@ != all@[b]@,
    {
        let ghost es = arcs_of(self.e@);
        let starts = self.get_path_start_edges();
        let mut all: Vec<Vec<usize>> = Vec::new();
        let mut i: usize = 0;
        while i < starts.len()
            invariant
                es == arcs_of(self.e@),
                !has_cycle(self.arcs()),
                0 <= i <= starts@.len(),
                forall|k: int| 0 <= k < starts@.len() ==> #[trigger] starts@[k] < es.len(),
                forall|k: int| 0 <= k < starts@.len() ==> is_source(self.arcs(), es[#[trigger] starts@[k] as int].0),
                forall|k: int| 0 <= k < all@.len() ==> #[trigger] all@[k]@.len() > 0 && is_index_walk(es, all@[k]@)
                    && is_source(self.arcs(), es[all@[k]@[0] as int].0),
                forall|q: Seq<usize>|
                    #[trigger] is_index_walk(es, q) && q.len() > 0 && starts@.subrange(0, i as int).contains(q[0])
                        ==> exists|k: int| 0 <= k < all@.len() && #[trigger] all@[k]@ == q,
                forall|a: int, b: int| 0 <= a < b < starts@.len() ==> starts@[a] < starts@[b],
                forall|a: int, b: int| 0 <= a < b < all@.len() ==> all@[a]@ != all@[b]@,
                i > 0 ==> forall|k: int| 0 <= k < all@.len() ==> (#[trigger] all@[k])@[0] <= starts@[i - 1],
                i == 0 ==> all@.len() == 0,
            decreases starts@.len() - i,
        {
            let s0 = starts[i];
            let mut path: Vec<usize> = Vec::new();
            path.push(s0);
            let ghost all_before = all@;
            assert(is_index_walk(es, path@));
            self.rec_find_all_longest_paths(&mut path, &mut all);
            assert forall|k: int| 0 <= k < all@.len() implies #[trigger] all@[k]@.len() > 0 && is_index_walk(es, all@[k]@)
                && is_source(self.arcs(), es[all@[k]@[0] as int].0) by {
                if k < all_before.len() {
                    assert(all@[k] == all_before[k]);
                } else {
                    assert(extends(all@[k]@, seq![s0]));
                    assert(all@[k]@.subrange(0, 1)[0] == s0);
                }
            }
            assert forall|k: int| 0 <= k < all@.len() implies (#[trigger] all@[k])@[0] <= starts@[i as int] by {
                if k < all_before.len() {
                    assert(all@[k] == all_before[k]);
                    assert(i > 0);
                    assert(all_before[k]@[0] <= starts@[i - 1]);
                    assert(starts@[i - 1] < starts@[i as int]);
                } else {
                    assert(extends(all@[k]@, seq![s0]));
                    assert(all@[k]@.subrange(0, 1)[0] == s0);
                }
            }
            assert forall|a: int, b: int| 0 <= a < b < all@.len() implies all@[a]@ != all@[b]@ by {
                if b < all_before.len() {
                    assert(all@[a] == all_before[a]);
                    assert(all@[b] == all_before[b]);
                } else if a < all_before.len() {
                    assert(all@[a] == all_before[a]);
                    assert(i > 0);
                    assert(all_before[a]@[0] <= starts@[i - 1]);
                    assert(starts@[i - 1] < starts@[i as int]);
                    assert(extends(all@[b]@, seq![s0]));
                    assert(all@[b]@.subrange(0, 1)[0] == s0);
                }
            }
            assert forall|q: Seq<usize>|
                #[trigger] is_index_walk(es, q) && q.len() > 0 && starts@.subrange(0, i + 1).contains(q[0]) implies exists|k: int|
                    0 <= k < all@.len() && #[trigger] all@[k]@ == q by {
                if q[0] == s0 {
                    let x = q.drop_first();
                    assert(seq![s0] + x =~= q);
                    assert(is_index_walk(es, seq![s0] + x));
                    let k = choose|k: int| all_before.len() <= k < all@.len() && #[trigger] all@[k]@ == seq![s0] + x;
                } else {
                    let j = choose|j: int| 0 <= j < i + 1 && #[trigger] starts@.subrange(0, i + 1)[j] == q[0];
                    assert(j < i);
                    assert(starts@.subrange(0, i as int)[j] == q[0]);
                    let k = choose|k: int| 0 <= k < all_before.len() && #[trigger] all_before[k]@ == q;
                    assert(all@[k] == all_before[k]);
                }
            }
            i += 1;
        }
        assert forall|q: Seq<usize>|
            #[trigger] is_index_walk(es, q) && q.len() > 0 && is_source(self.arcs(), es[q[0] as int].0) implies exists|k: int|
                0 <= k < all@.len() && #[trigger] all@[k]@ == q by {
            assert(q[0] < es.len());
            assert(starts@.contains(q[0]));
            assert(starts@.subrange(0, starts@.len() as int) =~= starts@);
        }
        all
    }

    /// The longest walks from vertices without incoming edges, or `None` where the graph has a
    /// cycle.
    pub fn all_longest_paths(&self) -> (r: Option<Vec<Vec<Edge>>>)
        ensures
            r is None <==> has_cycle(self.arcs()),
            r is Some ==> are_longest_source_walks(self.arcs(), r->Some_0@),
            r is Some ==> forall|k: int| 0 <= k < r->Some_0@.len() ==> edges_of_graph(self.e@, #[trigger] r->Some_0@[k]@),
    {
        if self.is_cyclic() {
            return None;
        }
        Some(self.longest_source_walks())
    }

    /// The longest walks from vertices without incoming edges, in a graph without cycles.
    fn longest_source_walks(&self) -> (ps: Vec<Vec<Edge>>)
        requires
            !has_cycle(self.arcs()),
        ensures
            are_longest_source_walks(self.arcs(), ps@),
            forall|k: int| 0 <= k < ps@.len() ==> edges_of_graph(self.e@, #[trigger] ps@[k]@),
    {
        let ghost es = arcs_of(self.e@);
        let all = self.all_source_walks();
        let mut longest: usize = 0;
        let mut arg: usize = 0;
        let mut k: usize = 0;
        while k < all.len()
            invariant
                0 <= k <= all@.len(),
                forall|q: int| 0 <= q < k ==> (#[trigger] all@[q])@.len() <= longest,
                k > 0 ==> 0 <= arg < k && all@[arg as int]@.len() == longest,
            decreases all@.len() - k,
        {
            if k == 0 || all[k].len() > longest {
                longest = all[k].len();
                arg = k;
            }
            k += 1;
        }
        let n = self.e.len();
        let mut out: Vec<Vec<Edge>> = Vec::new();
        let ghost mut picked: Seq<int> = Seq::empty();
        let mut k: usize = 0;
        while k < all.len()
            invariant
                es == arcs_of(self.e@),
                0 <= k <= all@.len(),
                forall|q: int| 0 <= q < all@.len() ==> (#[trigger] all@[q])@.len() <= longest,
                forall|q: int| 0 <= q < all@.len() ==> #[trigger] all@[q]@.len() > 0 && is_index_walk(es, all@[q]@)
                    && is_source(self.arcs(), es[all@[q]@[0] as int].0),
                out@.len() == picked.len(),
                forall|m: int| 0 <= m < picked.len() ==> 0 <= #[trigger] picked[m] < k && all@[picked[m]]@.len() == longest
                    && arcs_of(out@[m]@) == walk_arcs(es, all@[picked[m]]@),
                forall|q: int| 0 <= q < k && (#[trigger] all@[q])@.len() == longest ==> exists|m: int| 0 <= m < picked.len() && picked[m] == q,
                forall|m: int| 0 <= m < out@.len() ==> edges_of_graph(self.e@, #[trigger] out@[m]@),
            decreases all@.len() - k,
        {
            if all[k].len() == longest {
                assert(is_index_walk(es, all@[k as int]@));
                let edges = self.path_edges(&all[k]);
                out.push(edges);
                let ghost old_picked = picked;
                proof {
                    picked = picked.push(k as int);
                }
                assert(picked[picked.len() - 1] == k);
                assert forall|q: int| 0 <= q < k + 1 && (#[trigger] all@[q])@.len() == longest implies exists|m: int|
                    0 <= m < picked.len() && picked[m] == q by {
                    if q < k {
                        let m = choose|m: int| 0 <= m < old_picked.len() && old_picked[m] == q;
                        assert(picked[m] == q);
                    } else {
                        assert(picked[picked.len() - 1] == q);
                    }
                }
            }
            k += 1;
        }
        proof {
            lemma_longest_paths_result(self.arcs(), es, all@, longest as int, picked, out@);
        }
        out
    }
}


impl CircGraph {
    /// The number of edges of the longest walks from vertices without incoming edges, or `None`
    /// where the graph has a cycle.
    #[verifier::rlimit(100)]
    pub(crate) fn longest_path_len(&self) -> (r: Option<usize>)
        ensures
            r is Some <==> !has_cycle(self.arcs()),
            r is Some ==> longest_source_walk_len(self.arcs(), r->Some_0 as nat),
    {
        let ghost arcs = self.arcs();
        match self.all_longest_paths() {
            None => None,
            Some(paths) => {
                if paths.len() == 0 {
                    assert forall|w: Seq<(u64, u64)>| #[trigger] is_source_walk(arcs, w) implies w.len() <= 0 by {
                        let k = choose|k: int| 0 <= k < paths@.len() && w.len() <= (#[trigger] paths@[k])@.len();
                    }
                    Some(0)
                } else {
                    let l = paths[0].len();
                    assert forall|w: Seq<(u64, u64)>| #[trigger] is_source_walk(arcs, w) implies w.len() <= l by {
                        let k = choose|k: int| 0 <= k < paths@.len() && w.len() <= (#[trigger] paths@[k])@.len();
                        assert(paths@[k]@.len() == paths@[0]@.len());
                    }
                    assert(is_source_walk(arcs, arcs_of(paths@[0]@)));
                    assert(arcs_of(paths@[0]@).len() == l);
                    Some(l)
                }
            },
        }
    }
}


} // verus!
