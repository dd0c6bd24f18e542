use vstd::prelude::*;
use vstd::string::*;
use crate::code::{CircCode, uses_symbol};
use crate::elements::{Edge, Vertex, GraphElementsErr, label_index, in_alphabet};
use crate::paths::are_longest_source_walks;

verus! {

/// Failures when building a split graph or a part of it.
#[derive(Debug, PartialEq, Eq, Structural)]
pub enum CircGraphErr {
    VertexErr,
    EmptyCode,
    EdgeErr,
    NoSubErr,
}

impl CircGraphErr {
    /// A short message that names the failure.
    pub fn to_string(&self) -> (r: String)
        ensures
            *self == CircGraphErr::EmptyCode ==> r@ == "Empty Code"@,
            *self == CircGraphErr::VertexErr ==> r@ == "Vertex Code"@,
            *self == CircGraphErr::EdgeErr ==> r@ == "Edge Error"@,
            *self == CircGraphErr::NoSubErr ==> r@ == "Graph is no subgraph!"@,
    {
        match self {
            CircGraphErr::EmptyCode => String::from_str("Empty Code"),
            CircGraphErr::VertexErr => String::from_str("Vertex Code"),
            CircGraphErr::EdgeErr => String::from_str("Edge Error"),
            CircGraphErr::NoSubErr => String::from_str("Graph is no subgraph!"),
        }
    }
}

// ---------------------------------------------------------------------------
// Graphs as sets of arcs between vertex indices.

/// The arc of an edge: the indices of its origin and its target.
pub open spec fn arc_of(e: Edge) -> (u64, u64) {
    (e.from.index, e.to.index)
}

/// The arcs of a list of edges.
pub open spec fn arcs_of(es: Seq<Edge>) -> Seq<(u64, u64)> {
    es.map_values(|e: Edge| arc_of(e))
}

/// `w` is a walk over `arcs`: each arc is in the set and each ends where the next begins.
pub open spec fn is_walk(arcs: Set<(u64, u64)>, w: Seq<(u64, u64)>) -> bool {
    &&& forall|k: int| 0 <= k < w.len() ==> arcs.contains(#[trigger] w[k])
    &&& forall|k: int| 0 <= k < w.len() - 1 ==> (#[trigger] w[k]).1 == w[k + 1].0
}

/// `c` is a closed walk over `arcs`.
pub open spec fn is_cycle(arcs: Set<(u64, u64)>, c: Seq<(u64, u64)>) -> bool {
    &&& c.len() > 0
    &&& is_walk(arcs, c)
    &&& c.last().1 == c[0].0
}

/// Some closed walk runs over `arcs`.
pub open spec fn has_cycle(arcs: Set<(u64, u64)>) -> bool {
    exists|c: Seq<(u64, u64)>| is_cycle(arcs, c)
}

/// A cycle that passes each vertex once and starts at its vertex of least index.
pub open spec fn is_simple_canonical_cycle(arcs: Set<(u64, u64)>, c: Seq<(u64, u64)>) -> bool {
    &&& is_cycle(arcs, c)
    &&& forall|i: int, j: int| 0 <= i < j < c.len() ==> c[i].0 != c[j].0
    &&& forall|k: int| 0 <= k < c.len() ==> c[0].0 <= (#[trigger] c[k]).0
}

/// `v` has no incoming arc.
pub open spec fn is_source(arcs: Set<(u64, u64)>, v: u64) -> bool {
    forall|x: (u64, u64)| arcs.contains(x) ==> x.1 != v
}

/// A walk that starts at a vertex without incoming arcs.
pub open spec fn is_source_walk(arcs: Set<(u64, u64)>, w: Seq<(u64, u64)>) -> bool {
    &&& w.len() > 0
    &&& is_walk(arcs, w)
    &&& is_source(arcs, w[0].0)
}

// ---------------------------------------------------------------------------
// The split graph of a code.

/// `pre` followed by `suf` is a word of `ws`, both non-empty.
pub open spec fn is_split(ws: Seq<Seq<char>>, pre: Seq<char>, suf: Seq<char>) -> bool {
    exists|i: int, s: int|
        0 <= i < ws.len() && 0 < s < ws[i].len() && pre == #[trigger] ws[i].subrange(0, s) && suf
            == ws[i].subrange(s, ws[i].len() as int)
}

/// The prefix and the suffix of the `i`-th word cut at `s` have indices over `a` that fit in
/// 64 bits.
pub open spec fn split_indexable(ws: Seq<Seq<char>>, a: Seq<char>, i: int, s: int) -> bool {
    &&& label_index(ws[i].subrange(0, s), a) <= u64::MAX
    &&& label_index(ws[i].subrange(s, ws[i].len() as int), a) <= u64::MAX
}

/// Every prefix and suffix of every split of `ws` has an index over `a` that fits in 64 bits.
pub open spec fn splits_indexable(ws: Seq<Seq<char>>, a: Seq<char>) -> bool {
    forall|i: int, s: int| 0 <= i < ws.len() && 0 < s < ws[i].len() ==> #[trigger] split_indexable(ws, a, i, s)
}

/// Some edge of `es` is the split of the `i`-th word of `ws` at `s`.
pub open spec fn split_covered(es: Seq<Edge>, ws: Seq<Seq<char>>, i: int, s: int) -> bool {
    exists|y: Edge|
        #[trigger] es.contains(y) && y.from.label@ == ws[i].subrange(0, s) && y.to.label@ == ws[i].subrange(
            s,
            ws[i].len() as int,
        )
}

/// The arcs of the split graph of `ws` over the alphabet `a`: from each non-empty proper prefix
/// of a word to the rest of the word.
pub open spec fn split_arcs(ws: Seq<Seq<char>>, a: Seq<char>) -> Set<(u64, u64)> {
    Set::new(
        |x: (u64, u64)|
            exists|pre: Seq<char>, suf: Seq<char>|
                #[trigger] is_split(ws, pre, suf) && x.0 == label_index(pre, a) && x.1 == label_index(
                    suf,
                    a,
                ),
    )
}

/// The split graph of a code: vertices are the prefixes and suffixes of the words, and each
/// way of cutting a word in two is an edge from the prefix to the suffix.
pub struct CircGraph {
    /// The alphabet of the code.
    pub alphabet: Vec<char>,
    /// The vertices.
    pub v: Vec<Vertex>,
    /// The edges.
    pub e: Vec<Edge>,
}

impl CircGraph {
    /// The arcs of the graph.
    pub open spec fn arcs(&self) -> Set<(u64, u64)> {
        arcs_of(self.e@).to_set()
    }

    /// The edges are ordered by the index of their origin.
    pub open spec fn edges_sorted(&self) -> bool {
        forall|i: int, j: int| 0 <= i < j < self.e@.len() ==> self.e@[i].from.index <= self.e@[j].from.index
    }

    /// The vertices are ordered by index, each index once.
    pub open spec fn vertices_sorted(&self) -> bool {
        forall|i: int, j: int| 0 <= i < j < self.v@.len() ==> self.v@[i].index < self.v@[j].index
    }
}

/// Inserts `x` after every edge whose origin's index is not greater than its own.
fn insert_edge_sorted(es: &mut Vec<Edge>, x: Edge)
    requires
        forall|i: int, j: int| 0 <= i < j < old(es)@.len() ==> old(es)@[i].from.index <= old(es)@[j].from.index,
    ensures
        forall|i: int, j: int| 0 <= i < j < final(es)@.len() ==> final(es)@[i].from.index <= final(es)@[j].from.index,
        forall|y: Edge| final(es)@.contains(y) <==> (old(es)@.contains(y) || y == x),
        final(es)@.len() == old(es)@.len() + 1,
        exists|p: int| 0 <= p <= old(es)@.len() && final(es)@ == old(es)@.insert(p, x),
{
    let mut i: usize = 0;
    while i < es.len() && es[i].from.index <= x.from.index
        invariant
            0 <= i <= es.len(),
            forall|k: int| 0 <= k < i ==> es@[k].from.index <= x.from.index,
        decreases es.len() - i,
    {
        i += 1;
    }
    let ghost before = es@;
    let ghost xv = x;
    es.insert(i, x);
    assert(es@ == before.insert(i as int, xv));
    assert forall|y: Edge| es@.contains(y) <==> before.contains(y) || y == xv by {
        if es@.contains(y) {
            let k = choose|k: int| 0 <= k < es@.len() && es@[k] == y;
            if k < i {
                assert(before[k] == y);
            } else if k > i {
                assert(before[k - 1] == y);
            }
        }
        if before.contains(y) {
            let k = choose|k: int| 0 <= k < before.len() && before[k] == y;
            if k < i {
                assert(es@[k] == y);
            } else {
                assert(es@[k + 1] == y);
            }
        }
        if y == xv {
            assert(es@[i as int] == y);
        }
    }
    assert(forall|y: Edge| es@.contains(y) <==> (old(es)@.contains(y) || y == xv));
}

/// Inserts `x` at its place among vertices sorted by index, unless its index is there.
fn insert_vertex_sorted(vs: &mut Vec<Vertex>, x: Vertex)
    requires
        forall|i: int, j: int| 0 <= i < j < old(vs)@.len() ==> old(vs)@[i].index < old(vs)@[j].index,
    ensures
        forall|i: int, j: int| 0 <= i < j < final(vs)@.len() ==> final(vs)@[i].index < final(vs)@[j].index,
        forall|y: Vertex| final(vs)@.contains(y) ==> (old(vs)@.contains(y) || y == x),
        forall|y: Vertex| old(vs)@.contains(y) ==> final(vs)@.contains(y),
        exists|y: Vertex| #[trigger] final(vs)@.contains(y) && y.index == x.index,
{
    let mut i: usize = 0;
    while i < vs.len() && vs[i].index < x.index
        invariant
            0 <= i <= vs.len(),
            forall|k: int| 0 <= k < i ==> vs@[k].index < x.index,
        decreases vs.len() - i,
    {
        i += 1;
    }
    if i < vs.len() && vs[i].index == x.index {
        assert(vs@.contains(vs@[i as int]));
        return;
    }
    let ghost before = vs@;
    let ghost xv = x;
    vs.insert(i, x);
    assert forall|y: Vertex| vs@.contains(y) implies before.contains(y) || y == xv by {
        let k = choose|k: int| 0 <= k < vs@.len() && vs@[k] == y;
        if k < i {
            assert(before[k] == y);
        } else if k > i {
            assert(before[k - 1] == y);
        }
    }
    assert forall|y: Vertex| before.contains(y) implies vs@.contains(y) by {
        let k = choose|k: int| 0 <= k < before.len() && before[k] == y;
        if k < i {
            assert(vs@[k] == y);
        } else {
            assert(vs@[k + 1] == y);
        }
    }
    assert(vs@[i as int] == xv);
    assert(vs@.contains(xv));
}

/// An edge of the split graph of `ws`: a split of a word, with indices over `a`.
pub open spec fn edge_ok(ws: Seq<Seq<char>>, a: Seq<char>, e: Edge) -> bool {
    &&& is_split(ws, e.from.label@, e.to.label@)
    &&& e.label@ == e.from.label@ + e.to.label@
    &&& e.from.index == label_index(e.from.label@, a)
    &&& e.to.index == label_index(e.to.label@, a)
}

/// A vertex of the split graph of `ws`: a prefix or suffix of a split, with its index over `a`.
pub open spec fn vertex_ok(ws: Seq<Seq<char>>, a: Seq<char>, v: Vertex) -> bool {
    &&& v.index == label_index(v.label@, a)
    &&& (exists|other: Seq<char>| #[trigger] is_split(ws, v.label@, other)) || (exists|other: Seq<char>|
        #[trigger] is_split(ws, other, v.label@))
}

/// The labels at the two ends of an edge.
pub open spec fn label_pair(e: Edge) -> (Seq<char>, Seq<char>) {
    (e.from.label@, e.to.label@)
}

/// No two edges of `es` join the same two labels.
pub open spec fn edges_once(es: Seq<Edge>) -> bool {
    forall|i: int, j: int| 0 <= i < j < es.len() ==> label_pair(es[i]) != label_pair(es[j])
}

/// Some vertex of `vs` has the index `idx`.
pub open spec fn has_vertex_index(vs: Seq<Vertex>, idx: int) -> bool {
    exists|y: Vertex| #[trigger] vs.contains(y) && y.index == idx
}

/// The prefix and the suffix of the `i`-th word cut at `s` both have a vertex in `vs`.
pub open spec fn split_vertices(vs: Seq<Vertex>, ws: Seq<Seq<char>>, a: Seq<char>, i: int, s: int) -> bool {
    &&& has_vertex_index(vs, label_index(ws[i].subrange(0, s), a))
    &&& has_vertex_index(vs, label_index(ws[i].subrange(s, ws[i].len() as int), a))
}

/// The edge `e` is the split of a word at a place before the `s`-th place of the `i`-th word.
pub open spec fn from_split_before(ws: Seq<Seq<char>>, e: Edge, i: int, s: int) -> bool {
    exists|i2: int, s2: int|
        0 <= i2 < ws.len() && 0 < s2 < ws[i2].len() && (i2 < i || (i2 == i && s2 < s)) && label_pair(e) == (
            #[trigger] ws[i2].subrange(0, s2),
            ws[i2].subrange(s2, ws[i2].len() as int),
        )
}

/// A split of a duplicate-free list of words fixes the word and the place.
proof fn lemma_split_unique(ws: Seq<Seq<char>>, i: int, s: int, i2: int, s2: int)
    requires
        ws.no_duplicates(),
        0 <= i < ws.len(),
        0 < s < ws[i].len(),
        0 <= i2 < ws.len(),
        0 < s2 < ws[i2].len(),
        ws[i].subrange(0, s) == ws[i2].subrange(0, s2),
        ws[i].subrange(s, ws[i].len() as int) == ws[i2].subrange(s2, ws[i2].len() as int),
    ensures
        i == i2,
        s == s2,
{
    assert(ws[i] =~= ws[i].subrange(0, s) + ws[i].subrange(s, ws[i].len() as int));
    assert(ws[i2] =~= ws[i2].subrange(0, s2) + ws[i2].subrange(s2, ws[i2].len() as int));
    assert(ws[i] == ws[i2]);
    assert(ws[i].subrange(0, s).len() == s);
}

proof fn lemma_word_part_in_alphabet(x: &CircCode, i: int, lo: int, hi: int)
    requires
        x.wf(),
        0 <= i < x.words().len(),
        0 <= lo <= hi <= x.words()[i].len(),
    ensures
        in_alphabet(x.words()[i].subrange(lo, hi), x.alphabet@),
{
    let w = x.words()[i];
    assert forall|k: int| 0 <= k < hi - lo implies x.alphabet@.contains(#[trigger] w.subrange(lo, hi)[k]) by {
        assert(w[lo + k] == w.subrange(lo, hi)[k]);
        assert(w.contains(w[lo + k]));
        assert(uses_symbol(x.words(), w[lo + k]));
    }
}

impl CircGraph {
    /// The split graph of a code.
    ///
    /// Fails with `VertexErr` where the index of some prefix or suffix does not fit in 64 bits.
    pub fn new(x: &CircCode) -> (r: Result<Self, CircGraphErr>)
        requires
            x.wf(),
        ensures
            r is Ok <==> splits_indexable(x.words(), x.alphabet@),
            !(r is Ok) ==> r == Err::<Self, CircGraphErr>(CircGraphErr::VertexErr),
            r is Ok ==> ({
                let g = r->Ok_0;
                &&& g.alphabet@ == x.alphabet@
                &&& g.arcs() == split_arcs(x.words(), x.alphabet@)
                &&& g.edges_sorted()
                &&& g.vertices_sorted()
                &&& forall|k: int| 0 <= k < g.e@.len() ==> edge_ok(x.words(), x.alphabet@, #[trigger] g.e@[k])
                &&& forall|k: int| 0 <= k < g.v@.len() ==> vertex_ok(x.words(), x.alphabet@, #[trigger] g.v@[k])
                &&& edges_once(g.e@)
                &&& forall|i: int, s: int|
                    0 <= i < x.words().len() && 0 < s < x.words()[i].len() ==> #[trigger] split_covered(
                        g.e@,
                        x.words(),
                        i,
                        s,
                    )
                &&& forall|i: int, s: int|
                    0 <= i < x.words().len() && 0 < s < x.words()[i].len() ==> #[trigger] split_vertices(
                        g.v@,
                        x.words(),
                        x.alphabet@,
                        i,
                        s,
                    )
            }),
    {
        let ghost ws = x.words();
        let ghost a = x.alphabet@;
        let mut g = CircGraph { alphabet: x.alphabet.clone(), v: Vec::new(), e: Vec::new() };
        let mut i: usize = 0;
        while i < x.code.len()
            invariant
                x.wf(),
                ws == x.words(),
                a == x.alphabet@,
                g.alphabet@ == a,
                0 <= i <= ws.len(),
                g.edges_sorted(),
                g.vertices_sorted(),
                forall|k: int| 0 <= k < g.e@.len() ==> edge_ok(ws, a, #[trigger] g.e@[k]),
                forall|k: int| 0 <= k < g.v@.len() ==> vertex_ok(ws, a, #[trigger] g.v@[k]),
                forall|i2: int, s2: int|
                    0 <= i2 < i && 0 < s2 < ws[i2].len() ==> #[trigger] split_covered(g.e@, ws, i2, s2),
                forall|i2: int, s2: int|
                    0 <= i2 < i && 0 < s2 < ws[i2].len() ==> #[trigger] split_indexable(ws, a, i2, s2),
                forall|i2: int, s2: int|
                    0 <= i2 < i && 0 < s2 < ws[i2].len() ==> #[trigger] split_vertices(g.v@, ws, a, i2, s2),
                edges_once(g.e@),
                forall|k: int| 0 <= k < g.e@.len() ==> #[trigger] from_split_before(ws, g.e@[k], i as int, 0),
            decreases ws.len() - i,
        {
            let w = x.code[i].as_str();
            let n = w.unicode_len();
            assert(w@ == ws[i as int]);
            assert forall|k: int| 0 <= k < g.e@.len() implies #[trigger] from_split_before(ws, g.e@[k], i as int, 1) by {
                assert(from_split_before(ws, g.e@[k], i as int, 0));
            }
            let mut s: usize = 1;
            while s < n
                invariant
                    x.wf(),
                    ws == x.words(),
                    a == x.alphabet@,
                    g.alphabet@ == a,
                    0 <= i < ws.len(),
                    w@ == ws[i as int],
                    n == w@.len(),
                    1 <= s,
                    g.edges_sorted(),
                    g.vertices_sorted(),
                    forall|k: int| 0 <= k < g.e@.len() ==> edge_ok(ws, a, #[trigger] g.e@[k]),
                    forall|k: int| 0 <= k < g.v@.len() ==> vertex_ok(ws, a, #[trigger] g.v@[k]),
                    forall|i2: int, s2: int|
                        ((0 <= i2 < i && 0 < s2 < ws[i2].len()) || (i2 == i && 0 < s2 < s && s2 < n))
                            ==> #[trigger] split_covered(g.e@, ws, i2, s2),
                    forall|i2: int, s2: int|
                        ((0 <= i2 < i && 0 < s2 < ws[i2].len()) || (i2 == i && 0 < s2 < s && s2 < n))
                            ==> #[trigger] split_indexable(ws, a, i2, s2),
                    forall|i2: int, s2: int|
                        ((0 <= i2 < i && 0 < s2 < ws[i2].len()) || (i2 == i && 0 < s2 < s && s2 < n))
                            ==> #[trigger] split_vertices(g.v@, ws, a, i2, s2),
                    edges_once(g.e@),
                    forall|k: int| 0 <= k < g.e@.len() ==> #[trigger] from_split_before(ws, g.e@[k], i as int, s as int),
                decreases n - s,
            {
                let pre = String::from_str(w.substring_char(0, s));
                let suf = String::from_str(w.substring_char(s, n));
                proof {
                    lemma_word_part_in_alphabet(x, i as int, 0, s as int);
                    lemma_word_part_in_alphabet(x, i as int, s as int, n as int);
                }
                let ghost pv = pre@;
                let ghost sv = suf@;
                assert(pv == ws[i as int].subrange(0, s as int));
                assert(sv == ws[i as int].subrange(s as int, ws[i as int].len() as int));
                assert(in_alphabet(pv, g.alphabet@));
                assert(in_alphabet(sv, g.alphabet@));
                assert(is_split(ws, pre@, suf@));
                let rf = Vertex::new(pre, &g.alphabet);
                let vf = match rf {
                    Ok(v) => v,
                    Err(e) => {
                        assert(rf != Err::<Vertex, GraphElementsErr>(GraphElementsErr::NotInAlphabet));
                        assert(e == GraphElementsErr::IndexOverflow);
                        assert(label_index(pv, a) > u64::MAX);
                        assert(!split_indexable(ws, a, i as int, s as int));
                        return Err(CircGraphErr::VertexErr);
                    },
                };
                let rt = Vertex::new(suf, &g.alphabet);
                let vt = match rt {
                    Ok(v) => v,
                    Err(e) => {
                        assert(rt != Err::<Vertex, GraphElementsErr>(GraphElementsErr::NotInAlphabet));
                        assert(e == GraphElementsErr::IndexOverflow);
                        assert(label_index(sv, a) > u64::MAX);
                        assert(!split_indexable(ws, a, i as int, s as int));
                        return Err(CircGraphErr::VertexErr);
                    },
                };
                assert(split_indexable(ws, a, i as int, s as int));
                let ghost gv_before = g.v@;
                let d1 = vf.duplicate();
                let d2 = vt.duplicate();
                let ghost gd1 = d1;
                let ghost gd2 = d2;
                insert_vertex_sorted(&mut g.v, d1);
                let ghost gv_mid = g.v@;
                insert_vertex_sorted(&mut g.v, d2);
                assert forall|k: int| 0 <= k < g.v@.len() implies vertex_ok(ws, a, #[trigger] g.v@[k]) by {
                    assert(g.v@.contains(g.v@[k]));
                    if g.v@[k] == gd1 {
                        assert(gd1.label@ == pv);
                        assert(gd1.index == label_index(pv, a));
                        assert(is_split(ws, gd1.label@, sv));
                        assert(vertex_ok(ws, a, gd1));
                    } else if g.v@[k] == gd2 {
                        assert(gd2.label@ == sv);
                        assert(gd2.index == label_index(sv, a));
                        assert(is_split(ws, gd2.label@, pv) || is_split(ws, pv, gd2.label@));
                        assert(vertex_ok(ws, a, gd2));
                    } else {
                        assert(gv_mid.contains(g.v@[k]));
                        let m = choose|m: int| 0 <= m < gv_before.len() && gv_before[m] == g.v@[k];
                        assert(vertex_ok(ws, a, gv_before[m]));
                    }
                }
                proof {
                    assert(has_vertex_index(gv_mid, gd1.index as int));
                    let y1 = choose|y: Vertex| #[trigger] gv_mid.contains(y) && y.index == gd1.index;
                    assert(g.v@.contains(y1));
                    assert(has_vertex_index(g.v@, label_index(pv, a)));
                    assert(has_vertex_index(g.v@, label_index(sv, a)));
                    assert forall|i2: int, s2: int|
                        ((0 <= i2 < i && 0 < s2 < ws[i2].len()) || (i2 == i && 0 < s2 < s + 1 && s2 < n))
                            implies #[trigger] split_vertices(g.v@, ws, a, i2, s2) by {
                        if !(i2 == i && s2 == s) {
                            assert(split_vertices(gv_before, ws, a, i2, s2));
                            let ya = choose|y: Vertex| #[trigger] gv_before.contains(y) && y.index == label_index(
                                ws[i2].subrange(0, s2),
                                a,
                            );
                            let yb = choose|y: Vertex| #[trigger] gv_before.contains(y) && y.index == label_index(
                                ws[i2].subrange(s2, ws[i2].len() as int),
                                a,
                            );
                            assert(gv_mid.contains(ya));
                            assert(gv_mid.contains(yb));
                            assert(g.v@.contains(ya));
                            assert(g.v@.contains(yb));
                        }
                    }
                }
                let edge = Edge::new(vf, vt);
                let ghost ge = edge;
                let ghost ge_before = g.e@;
                insert_edge_sorted(&mut g.e, edge);
                proof {
                    let p = choose|p: int| 0 <= p <= ge_before.len() && g.e@ == ge_before.insert(p, ge);
                    assert(label_pair(ge) == (ws[i as int].subrange(0, s as int), ws[i as int].subrange(s as int, ws[i as int].len() as int)));
                    assert forall|k: int| 0 <= k < ge_before.len() implies label_pair(ge_before[k]) != label_pair(ge) by {
                        assert(from_split_before(ws, ge_before[k], i as int, s as int));
                        let (i2, s2) = choose|i2: int, s2: int|
                            0 <= i2 < ws.len() && 0 < s2 < ws[i2].len() && (i2 < i || (i2 == i && s2 < s)) && label_pair(ge_before[k]) == (
                                #[trigger] ws[i2].subrange(0, s2),
                                ws[i2].subrange(s2, ws[i2].len() as int),
                            );
                        if label_pair(ge_before[k]) == label_pair(ge) {
                            lemma_split_unique(ws, i as int, s as int, i2, s2);
                        }
                    }
                    assert forall|a1: int, b1: int| 0 <= a1 < b1 < g.e@.len() implies label_pair(g.e@[a1]) != label_pair(g.e@[b1]) by {
                        if a1 < p && b1 < p {
                            assert(g.e@[a1] == ge_before[a1] && g.e@[b1] == ge_before[b1]);
                        } else if a1 < p && b1 == p {
                            assert(g.e@[a1] == ge_before[a1]);
                        } else if a1 < p {
                            assert(g.e@[a1] == ge_before[a1] && g.e@[b1] == ge_before[b1 - 1]);
                        } else if a1 == p {
                            assert(g.e@[b1] == ge_before[b1 - 1]);
                        } else {
                            assert(g.e@[a1] == ge_before[a1 - 1] && g.e@[b1] == ge_before[b1 - 1]);
                        }
                    }
                    assert forall|k: int| 0 <= k < g.e@.len() implies #[trigger] from_split_before(ws, g.e@[k], i as int, s + 1) by {
                        if k < p {
                            assert(g.e@[k] == ge_before[k]);
                            assert(from_split_before(ws, ge_before[k], i as int, s as int));
                        } else if k == p {
                            assert(g.e@[k] == ge);
                            assert(ws[i as int].subrange(0, s as int) == ws[i as int].subrange(0, s as int));
                        } else {
                            assert(g.e@[k] == ge_before[k - 1]);
                            assert(from_split_before(ws, ge_before[k - 1], i as int, s as int));
                        }
                    }
                }
                assert forall|k: int| 0 <= k < g.e@.len() implies edge_ok(ws, a, #[trigger] g.e@[k]) by {
                    assert(g.e@.contains(g.e@[k]));
                    if g.e@[k] != ge {
                        let m = choose|m: int| 0 <= m < ge_before.len() && ge_before[m] == g.e@[k];
                        assert(edge_ok(ws, a, ge_before[m]));
                    }
                }
                assert(g.e@.contains(ge));
                assert(split_covered(g.e@, ws, i as int, s as int));
                assert forall|i2: int, s2: int|
                    ((0 <= i2 < i && 0 < s2 < ws[i2].len()) || (i2 == i && 0 < s2 < s + 1 && s2 < n))
                        implies #[trigger] split_covered(g.e@, ws, i2, s2) by {
                    if i2 == i && s2 == s {
                    } else {
                    assert(split_covered(ge_before, ws, i2, s2));
                    let y = choose|y: Edge|
                        #[trigger] ge_before.contains(y) && y.from.label@ == ws[i2].subrange(0, s2)
                            && y.to.label@ == ws[i2].subrange(s2, ws[i2].len() as int);
                    assert(g.e@.contains(y));
                    }
                }
                s += 1;
            }
            assert forall|k: int| 0 <= k < g.e@.len() implies #[trigger] from_split_before(ws, g.e@[k], i + 1, 0) by {
                assert(from_split_before(ws, g.e@[k], i as int, s as int));
            }
            i += 1;
        }
        proof {
            lemma_graph_arcs(&g, ws, a);
        }
        Ok(g)
    }
}

proof fn lemma_graph_arcs(g: &CircGraph, ws: Seq<Seq<char>>, a: Seq<char>)
    requires
        forall|k: int| 0 <= k < g.e@.len() ==> edge_ok(ws, a, #[trigger] g.e@[k]),
        forall|i2: int, s2: int|
            0 <= i2 < ws.len() && 0 < s2 < ws[i2].len() ==> #[trigger] split_covered(g.e@, ws, i2, s2),
    ensures
        g.arcs() == split_arcs(ws, a),
{
    assert forall|x: (u64, u64)| g.arcs().contains(x) <==> split_arcs(ws, a).contains(x) by {
        if g.arcs().contains(x) {
            let k = choose|k: int| 0 <= k < arcs_of(g.e@).len() && arcs_of(g.e@)[k] == x;
            let y = g.e@[k];
            assert(edge_ok(ws, a, y));
            assert(is_split(ws, y.from.label@, y.to.label@));
        }
        if split_arcs(ws, a).contains(x) {
            let (pre, suf) = choose|pre: Seq<char>, suf: Seq<char>|
                #[trigger] is_split(ws, pre, suf) && x.0 == label_index(pre, a) && x.1 == label_index(suf, a);
            let (i2, s2) = choose|i2: int, s2: int|
                0 <= i2 < ws.len() && 0 < s2 < ws[i2].len() && pre == #[trigger] ws[i2].subrange(0, s2) && suf
                    == ws[i2].subrange(s2, ws[i2].len() as int);
            assert(split_covered(g.e@, ws, i2, s2));
            let y = choose|y: Edge|
                #[trigger] g.e@.contains(y) && y.from.label@ == ws[i2].subrange(0, s2)
                    && y.to.label@ == ws[i2].subrange(s2, ws[i2].len() as int);
            let k = choose|k: int| 0 <= k < g.e@.len() && g.e@[k] == y;
            assert(edge_ok(ws, a, g.e@[k]));
            assert(arcs_of(g.e@)[k] == x);
        }
    }
    assert(g.arcs() =~= split_arcs(ws, a));
}


/// The two ends of an edge: origin index and label, target index and label.
pub open spec fn edge_ends(e: Edge) -> (u64, Seq<char>, u64, Seq<char>) {
    (e.from.index, e.from.label@, e.to.index, e.to.label@)
}

/// The ends of each edge of a list.
pub open spec fn ends_of(es: Seq<Edge>) -> Seq<(u64, Seq<char>, u64, Seq<char>)> {
    es.map_values(|e: Edge| edge_ends(e))
}

/// The ends of the edges of `es` with an endpoint label of length `i`, in order.
pub open spec fn component_ends(es: Seq<Edge>, i: nat) -> Seq<(u64, Seq<char>, u64, Seq<char>)>
    decreases es.len(),
{
    if es.len() == 0 {
        Seq::empty()
    } else {
        let c = component_ends(es.drop_last(), i);
        let e = es.last();
        if e.to.label@.len() == i || e.from.label@.len() == i {
            c.push(edge_ends(e))
        } else {
            c
        }
    }
}

/// Some edge of `es` has the ends of `e`.
pub open spec fn edge_in(es: Seq<Edge>, e: Edge) -> bool {
    exists|m: int| 0 <= m < es.len() && edge_ends(#[trigger] es[m]) == edge_ends(e)
}

/// Each edge of the path `p` is, end for end, an edge of `es`.
pub open spec fn edges_of_graph(es: Seq<Edge>, p: Seq<Edge>) -> bool {
    forall|j: int| 0 <= j < p.len() ==> #[trigger] edge_in(es, p[j])
}

/// `y` and `v` have the same index and label.
pub open spec fn same_vertex(y: Vertex, v: Vertex) -> bool {
    y.index == v.index && y.label@ == v.label@
}

/// Some vertex of `vs` is `v`.
pub open spec fn vertex_listed(vs: Seq<Vertex>, v: Vertex) -> bool {
    exists|y: Vertex| #[trigger] vs.contains(y) && same_vertex(y, v)
}

/// `y` is an end of some edge of `es`.
pub open spec fn endpoint_in(es: Seq<Edge>, y: Vertex) -> bool {
    exists|k: int| 0 <= k < es.len() && (same_vertex(y, (#[trigger] es[k]).from) || same_vertex(y, es[k].to))
}

/// The vertices `vs` are the ends of the edges `es`, and each edge is labelled with the labels
/// of its ends joined.
pub open spec fn built_from_edges(vs: Seq<Vertex>, es: Seq<Edge>) -> bool {
    &&& forall|y: Vertex| #[trigger] vs.contains(y) ==> endpoint_in(es, y)
    &&& forall|k: int| 0 <= k < es.len() ==> vertex_listed(vs, (#[trigger] es[k]).from) && vertex_listed(vs, es[k].to)
    &&& forall|k: int| 0 <= k < es.len() ==> (#[trigger] es[k]).label@ == es[k].from.label@ + es[k].to.label@
}

proof fn lemma_built_empty()
    ensures
        built_from_edges(Seq::<Vertex>::empty(), Seq::<Edge>::empty()),
{
}

proof fn lemma_built_push_vertices(vs: Seq<Vertex>, es: Seq<Edge>, a: Vertex, b: Vertex, e: Edge)
    requires
        forall|y: Vertex| #[trigger] vs.contains(y) ==> endpoint_in(es, y),
        same_vertex(a, e.to),
        same_vertex(b, e.from),
    ensures
        forall|y: Vertex| #[trigger] vs.push(a).push(b).contains(y) ==> endpoint_in(es.push(e), y),
{
    let vs2 = vs.push(a).push(b);
    let es2 = es.push(e);
    assert(es2[es.len() as int] == e);
    assert forall|y: Vertex| #[trigger] vs2.contains(y) implies endpoint_in(es2, y) by {
        let m = choose|m: int| 0 <= m < vs2.len() && vs2[m] == y;
        if m < vs.len() {
            assert(vs[m] == y);
            assert(vs.contains(y));
            let k = choose|k: int| 0 <= k < es.len() && (same_vertex(y, (#[trigger] es[k]).from) || same_vertex(y, es[k].to));
            assert(es2[k] == es[k]);
        } else if m == vs.len() {
            assert(y == a);
        } else {
            assert(y == b);
        }
    }
}

proof fn lemma_built_push_ends(vs: Seq<Vertex>, es: Seq<Edge>, a: Vertex, b: Vertex, e: Edge)
    requires
        forall|k: int| 0 <= k < es.len() ==> vertex_listed(vs, (#[trigger] es[k]).from) && vertex_listed(vs, es[k].to),
        same_vertex(a, e.to),
        same_vertex(b, e.from),
    ensures
        forall|k: int| 0 <= k < es.len() + 1 ==> vertex_listed(vs.push(a).push(b), (#[trigger] es.push(e)[k]).from)
            && vertex_listed(vs.push(a).push(b), es.push(e)[k].to),
{
    let vs2 = vs.push(a).push(b);
    let es2 = es.push(e);
    assert forall|k: int| 0 <= k < es.len() + 1 implies vertex_listed(vs2, (#[trigger] es2[k]).from) && vertex_listed(vs2, es2[k].to) by {
        if k < es.len() {
            assert(es2[k] == es[k]);
            assert(vertex_listed(vs, es[k].from));
            assert(vertex_listed(vs, es[k].to));
            let y1 = choose|y: Vertex| #[trigger] vs.contains(y) && same_vertex(y, es[k].from);
            let y2 = choose|y: Vertex| #[trigger] vs.contains(y) && same_vertex(y, es[k].to);
            let m1 = choose|m: int| 0 <= m < vs.len() && vs[m] == y1;
            let m2 = choose|m: int| 0 <= m < vs.len() && vs[m] == y2;
            assert(vs2[m1] == y1);
            assert(vs2.contains(y1));
            assert(vs2[m2] == y2);
            assert(vs2.contains(y2));
        } else {
            assert(es2[k] == e);
            assert(vs2[vs.len() as int] == a);
            assert(vs2.contains(a));
            assert(vs2[vs.len() as int + 1] == b);
            assert(vs2.contains(b));
        }
    }
}

proof fn lemma_built_push(vs: Seq<Vertex>, es: Seq<Edge>, a: Vertex, b: Vertex, e: Edge)
    requires
        built_from_edges(vs, es),
        same_vertex(a, e.to),
        same_vertex(b, e.from),
        e.label@ == e.from.label@ + e.to.label@,
    ensures
        built_from_edges(vs.push(a).push(b), es.push(e)),
{
    lemma_built_push_vertices(vs, es, a, b, e);
    lemma_built_push_ends(vs, es, a, b, e);
    let es2 = es.push(e);
    assert forall|k: int| 0 <= k < es2.len() implies (#[trigger] es2[k]).label@ == es2[k].from.label@ + es2[k].to.label@ by {
        if k < es.len() {
            assert(es2[k] == es[k]);
        }
    }
}

/// The labels along a non-empty path: each origin, then the last target.
pub open spec fn path_labels(es: Seq<Edge>) -> Seq<Seq<char>> {
    es.map_values(|e: Edge| e.from.label@).push(es.last().to.label@)
}

/// The strings of `s` joined by `sep`.
pub open spec fn joined(s: Seq<Seq<char>>, sep: Seq<char>) -> Seq<char>
    decreases s.len(),
{
    if s.len() == 0 {
        Seq::empty()
    } else if s.len() == 1 {
        s[0]
    } else {
        joined(s.drop_last(), sep) + sep + s.last()
    }
}

/// The text of a path: its labels joined by " -> ".
pub open spec fn path_text(es: Seq<Edge>) -> Seq<char> {
    joined(path_labels(es), " -> "@)
}

impl CircGraph {
    /// The graph made of the given edges of this graph, with their endpoints.
    ///
    /// Fails with `NoSubErr` where an edge is not one of this graph's.
    pub fn subgraph_from_list_of_edges(&self, edges: Vec<Edge>) -> (r: Result<Self, CircGraphErr>)
        ensures
            r is Err <==> exists|k: int| 0 <= k < edges@.len() && !self.arcs().contains(arc_of(#[trigger] edges@[k])),
            r is Err ==> r == Err::<Self, CircGraphErr>(CircGraphErr::NoSubErr),
            r is Ok ==> ({
                let g = r->Ok_0;
                &&& g.alphabet@ == self.alphabet@
                &&& arcs_of(g.e@) == arcs_of(edges@)
                &&& ends_of(g.e@) == ends_of(edges@)
                &&& built_from_edges(g.v@, g.e@)
            }),
    {
        let ghost es = arcs_of(self.e@);
        let mut g = CircGraph { alphabet: self.alphabet.clone(), v: Vec::new(), e: Vec::new() };
        let mut k: usize = 0;
        proof {
            lemma_built_empty();
        }
        while k < edges.len()
            invariant
                es == arcs_of(self.e@),
                g.alphabet@ == self.alphabet@,
                0 <= k <= edges@.len(),
                g.e@.len() == k,
                arcs_of(g.e@) == arcs_of(edges@).subrange(0, k as int),
                ends_of(g.e@) == ends_of(edges@).subrange(0, k as int),
                built_from_edges(g.v@, g.e@),
                forall|q: int| 0 <= q < k ==> self.arcs().contains(arc_of(#[trigger] edges@[q])),
            decreases edges@.len() - k,
        {
            let e = &edges[k];
            let mut found = false;
            let mut f: usize = 0;
            while f < self.e.len()
                invariant
                    es == arcs_of(self.e@),
                    0 <= f <= es.len(),
                    found ==> self.arcs().contains(arc_of(*e)),
                    !found ==> forall|h: int| 0 <= h < f ==> es[h] != arc_of(*e),
                decreases es.len() - f,
            {
                assert(es[f as int] == arc_of(self.e@[f as int]));
                if self.e[f].from.index == e.from.index && self.e[f].to.index == e.to.index {
                    assert(es.contains(es[f as int]));
                    found = true;
                }
                f += 1;
            }
            if !found {
                assert(!self.arcs().contains(arc_of(edges@[k as int]))) by {
                    if es.contains(arc_of(*e)) {
                        let h = choose|h: int| 0 <= h < es.len() && es[h] == arc_of(*e);
                    }
                }
                return Err(CircGraphErr::NoSubErr);
            }
            let ghost vs_before = g.v@;
            let ghost before = g.e@;
            let v_to = e.to.duplicate();
            let v_from = e.from.duplicate();
            let a = v_to.duplicate();
            let b = v_from.duplicate();
            let ghost ga = a;
            let ghost gb = b;
            g.v.push(a);
            g.v.push(b);
            let ne = Edge::new(v_from, v_to);
            let ghost gne = ne;
            g.e.push(ne);
            proof {
                lemma_built_push(vs_before, before, ga, gb, gne);
            }
            assert(arcs_of(g.e@) =~= arcs_of(edges@).subrange(0, k + 1)) by {
                assert forall|q: int| 0 <= q < k implies arcs_of(g.e@)[q] == arcs_of(before)[q] by {}
            }
            assert(ends_of(g.e@) =~= ends_of(edges@).subrange(0, k + 1)) by {
                assert forall|q: int| 0 <= q < k implies ends_of(g.e@)[q] == ends_of(before)[q] by {}
            }
            k += 1;
        }
        assert(arcs_of(edges@).subrange(0, edges@.len() as int) =~= arcs_of(edges@));
        assert(ends_of(edges@).subrange(0, edges@.len() as int) =~= ends_of(edges@));
        Ok(g)
    }

    /// The part of the graph made of the edges with an endpoint label of length `i`, in order,
    /// with their endpoints.
    ///
    /// Fails with `EmptyCode` where no edge has one.
    pub fn component(&self, i: u32) -> (r: Result<Self, CircGraphErr>)
        ensures
            r is Err <==> component_ends(self.e@, i as nat).len() == 0,
            r is Err ==> r == Err::<Self, CircGraphErr>(CircGraphErr::EmptyCode),
            r is Ok ==> ({
                let g = r->Ok_0;
                &&& g.alphabet@ == self.alphabet@
                &&& ends_of(g.e@) == component_ends(self.e@, i as nat)
                &&& built_from_edges(g.v@, g.e@)
            }),
    {
        let mut g = CircGraph { alphabet: self.alphabet.clone(), v: Vec::new(), e: Vec::new() };
        let mut k: usize = 0;
        proof {
            lemma_built_empty();
        }
        while k < self.e.len()
            invariant
                g.alphabet@ == self.alphabet@,
                0 <= k <= self.e@.len(),
                ends_of(g.e@) == component_ends(self.e@.subrange(0, k as int), i as nat),
                built_from_edges(g.v@, g.e@),
            decreases self.e@.len() - k,
        {
            let e = &self.e[k];
            assert(self.e@.subrange(0, k + 1).drop_last() =~= self.e@.subrange(0, k as int));
            assert(self.e@.subrange(0, k + 1).last() == *e);
            let lt = e.to.label.as_str().unicode_len();
            let lf = e.from.label.as_str().unicode_len();
            if lt == i as usize || lf == i as usize {
                let ghost vs_before = g.v@;
                let ghost before = g.e@;
                let v_to = e.to.duplicate();
                let v_from = e.from.duplicate();
                let a = v_to.duplicate();
                let b = v_from.duplicate();
                let ghost ga = a;
                let ghost gb = b;
                g.v.push(a);
                g.v.push(b);
                let ne = Edge::new(v_from, v_to);
                let ghost gne = ne;
                g.e.push(ne);
                proof {
                    lemma_built_push(vs_before, before, ga, gb, gne);
                }
                assert(ends_of(g.e@) =~= ends_of(before).push(edge_ends(*e)));
            }
            k += 1;
        }
        assert(self.e@.subrange(0, self.e@.len() as int) =~= self.e@);
        if g.e.len() == 0 {
            assert(ends_of(g.e@).len() == 0);
            return Err(CircGraphErr::EmptyCode);
        }
        Ok(g)
    }

    /// The labels of the vertices.
    pub fn get_vertices(&self) -> (r: Vec<String>)
        ensures
            r@.len() == self.v@.len(),
            forall|k: int| 0 <= k < r@.len() ==> (#[trigger] r@[k])@ == self.v@[k].label@,
    {
        let mut r: Vec<String> = Vec::new();
        let mut k: usize = 0;
        while k < self.v.len()
            invariant
                0 <= k <= self.v@.len(),
                r@.len() == k,
                forall|q: int| 0 <= q < k ==> (#[trigger] r@[q])@ == self.v@[q].label@,
            decreases self.v@.len() - k,
        {
            r.push(self.v[k].label.clone());
            k += 1;
        }
        r
    }

    /// A copy of the edges.
    pub fn get_edges(&self) -> (r: Vec<Edge>)
        ensures
            arcs_of(r@) == arcs_of(self.e@),
            r@.len() == self.e@.len(),
            forall|k: int| 0 <= k < r@.len() ==> (#[trigger] r@[k]).from.label@ == self.e@[k].from.label@
                && r@[k].to.label@ == self.e@[k].to.label@ && r@[k].label@ == self.e@[k].label@,
    {
        let mut r: Vec<Edge> = Vec::new();
        let mut k: usize = 0;
        while k < self.e.len()
            invariant
                0 <= k <= self.e@.len(),
                r@.len() == k,
                forall|q: int| 0 <= q < k ==> arc_of(#[trigger] r@[q]) == arc_of(self.e@[q]),
                forall|q: int| 0 <= q < k ==> (#[trigger] r@[q]).from.label@ == self.e@[q].from.label@
                    && r@[q].to.label@ == self.e@[q].to.label@ && r@[q].label@ == self.e@[q].label@,
            decreases self.e@.len() - k,
        {
            r.push(self.e[k].duplicate());
            k += 1;
        }
        assert(arcs_of(r@) =~= arcs_of(self.e@));
        r
    }

    /// The labels along a non-empty path: each origin, then the last target.
    pub fn path_as_vertex_vec(edges: &Vec<Edge>) -> (r: Vec<String>)
        requires
            edges@.len() > 0,
        ensures
            r@.len() == path_labels(edges@).len(),
            forall|k: int| 0 <= k < r@.len() ==> (#[trigger] r@[k])@ == path_labels(edges@)[k],
    {
        let mut r: Vec<String> = Vec::new();
        let mut k: usize = 0;
        while k < edges.len()
            invariant
                0 <= k <= edges@.len(),
                r@.len() == k,
                forall|q: int| 0 <= q < k ==> (#[trigger] r@[q])@ == edges@[q].from.label@,
            decreases edges@.len() - k,
        {
            r.push(edges[k].from.label.clone());
            k += 1;
        }
        r.push(edges[edges.len() - 1].to.label.clone());
        r
    }

    /// The text of a non-empty path: its labels joined by " -> ".
    pub fn path_as_string(edges: &Vec<Edge>) -> (r: String)
        requires
            edges@.len() > 0,
        ensures
            r@ == path_text(edges@),
    {
        let labels = Self::path_as_vertex_vec(edges);
        let ghost ls = path_labels(edges@);
        let mut r = labels[0].clone();
        assert(ls.subrange(0, 1).drop_last().len() == 0);
        assert(r@ == joined(ls.subrange(0, 1), " -> "@));
        let mut k: usize = 1;
        while k < labels.len()
            invariant
                ls == path_labels(edges@),
                labels@.len() == ls.len(),
                forall|q: int| 0 <= q < labels@.len() ==> (#[trigger] labels@[q])@ == ls[q],
                1 <= k <= labels@.len(),
                r@ == joined(ls.subrange(0, k as int), " -> "@),
            decreases labels@.len() - k,
        {
            r.append(" -> ");
            r.append(labels[k].as_str());
            assert(ls.subrange(0, k + 1).drop_last() =~= ls.subrange(0, k as int));
            assert(ls.subrange(0, k + 1).last() == ls[k as int]);
            k += 1;
        }
        assert(ls.subrange(0, ls.len() as int) =~= ls);
        r
    }
}


/// The views of a list of strings.
pub open spec fn string_views(v: Seq<String>) -> Seq<Seq<char>> {
    v.map_values(|s: String| s@)
}

/// Some edge of `r` has the arc `x`.
pub open spec fn has_arc(r: Seq<Edge>, x: (u64, u64)) -> bool {
    exists|m: int| 0 <= m < r.len() && #[trigger] arc_of(r[m]) == x
}

/// All edges of the given paths, one path after the other.
fn flatten_paths(ps: &Vec<Vec<Edge>>, arcs: Ghost<Set<(u64, u64)>>) -> (r: Vec<Edge>)
    requires
        forall|i: int, j: int| 0 <= i < ps@.len() && 0 <= j < ps@[i]@.len() ==> arcs@.contains(arc_of(#[trigger] ps@[i]@[j])),
    ensures
        forall|k: int| 0 <= k < r@.len() ==> arcs@.contains(arc_of(#[trigger] r@[k])),
        forall|i: int, j: int| 0 <= i < ps@.len() && 0 <= j < ps@[i]@.len() ==> has_arc(r@, arc_of(#[trigger] ps@[i]@[j])),
{
    let mut r: Vec<Edge> = Vec::new();
    let mut i: usize = 0;
    while i < ps.len()
        invariant
            0 <= i <= ps@.len(),
            forall|a: int, b: int| 0 <= a < ps@.len() && 0 <= b < ps@[a]@.len() ==> arcs@.contains(arc_of(#[trigger] ps@[a]@[b])),
            forall|k: int| 0 <= k < r@.len() ==> arcs@.contains(arc_of(#[trigger] r@[k])),
            forall|a: int, b: int| 0 <= a < i && 0 <= b < ps@[a]@.len() ==> has_arc(r@, arc_of(#[trigger] ps@[a]@[b])),
        decreases ps@.len() - i,
    {
        let mut j: usize = 0;
        while j < ps[i].len()
            invariant
                0 <= i < ps@.len(),
                0 <= j <= ps@[i as int]@.len(),
                forall|a: int, b: int| 0 <= a < ps@.len() && 0 <= b < ps@[a]@.len() ==> arcs@.contains(arc_of(#[trigger] ps@[a]@[b])),
                forall|k: int| 0 <= k < r@.len() ==> arcs@.contains(arc_of(#[trigger] r@[k])),
                forall|a: int, b: int|
                    ((0 <= a < i && 0 <= b < ps@[a]@.len()) || (a == i && 0 <= b < j)) ==> has_arc(r@, arc_of(#[trigger] ps@[a]@[b])),
            decreases ps@[i as int]@.len() - j,
        {
            let d = ps[i][j].duplicate();
            assert(arcs@.contains(arc_of(ps@[i as int]@[j as int])));
            let ghost before = r@;
            r.push(d);
            assert forall|k: int| 0 <= k < r@.len() implies arcs@.contains(arc_of(#[trigger] r@[k])) by {
                if k < before.len() {
                    assert(r@[k] == before[k]);
                }
            }
            assert forall|a: int, b: int|
                ((0 <= a < i && 0 <= b < ps@[a]@.len()) || (a == i && 0 <= b < j + 1)) implies has_arc(r@, arc_of(#[trigger] ps@[a]@[b])) by {
                if a == i && b == j {
                    assert(arc_of(r@[before.len() as int]) == arc_of(ps@[a]@[b]));
                } else {
                    assert(has_arc(before, arc_of(ps@[a]@[b])));
                    let m = choose|m: int| 0 <= m < before.len() && #[trigger] arc_of(before[m]) == arc_of(ps@[a]@[b]);
                    assert(r@[m] == before[m]);
                }
            }
            j += 1;
        }
        i += 1;
    }
    r
}

impl CircGraph {
    /// `cs` is what `all_cycles` lists: every cycle of this graph that leaves each vertex once
    /// (where the edges are ordered by origin), written from its vertex of least index, each
    /// once, by increasing length, made of edges of the graph.
    pub open spec fn cycle_listing(&self, cs: Seq<Vec<Edge>>) -> bool {
        &&& forall|k: int| 0 <= k < cs.len() ==> is_simple_canonical_cycle(self.arcs(), arcs_of(#[trigger] cs[k]@))
        &&& forall|k: int| 0 <= k < cs.len() ==> edges_of_graph(self.e@, #[trigger] cs[k]@)
        &&& forall|i: int, j: int| 0 <= i < j < cs.len() ==> arcs_of(cs[i]@) != arcs_of(cs[j]@)
        &&& forall|i: int, j: int| 0 <= i < j < cs.len() ==> cs[i]@.len() <= cs[j]@.len()
        &&& self.edges_sorted() ==> forall|c: Seq<(u64, u64)>|
            #[trigger] is_simple_canonical_cycle(self.arcs(), c) ==> exists|k: int| 0 <= k < cs.len() && arcs_of(cs[k]@) == c
    }

    /// `ps` is what `all_longest_paths` lists: the longest walks from vertices without incoming
    /// edges, made of edges of the graph.
    pub open spec fn longest_listing(&self, ps: Seq<Vec<Edge>>) -> bool {
        &&& are_longest_source_walks(self.arcs(), ps)
        &&& forall|k: int| 0 <= k < ps.len() ==> edges_of_graph(self.e@, #[trigger] ps[k]@)
    }

    /// Like `all_cycles`, with each cycle as its text.
    pub fn all_cycles_as_string_vec(&self) -> (r: (bool, Vec<String>))
        ensures
            r.0 == has_cycle(self.arcs()),
            r.0 == (r.1@.len() > 0),
            exists|cs: Seq<Vec<Edge>>|
                #[trigger] self.cycle_listing(cs) && cs.len() == r.1@.len() && forall|k: int|
                    0 <= k < cs.len() ==> (#[trigger] r.1@[k])@ == path_text(cs[k]@),
    {
        let (res, cycles) = self.all_cycles();
        assert(self.cycle_listing(cycles@));
        let mut out: Vec<String> = Vec::new();
        let mut k: usize = 0;
        while k < cycles.len()
            invariant
                0 <= k <= cycles@.len(),
                out@.len() == k,
                forall|q: int| 0 <= q < cycles@.len() ==> is_simple_canonical_cycle(self.arcs(), arcs_of(#[trigger] cycles@[q]@)),
                forall|q: int| 0 <= q < k ==> (#[trigger] out@[q])@ == path_text(cycles@[q]@),
            decreases cycles@.len() - k,
        {
            assert(is_simple_canonical_cycle(self.arcs(), arcs_of(cycles@[k as int]@)));
            let t = Self::path_as_string(&cycles[k]);
            out.push(t);
            k += 1;
        }
        (res, out)
    }

    /// Like `all_cycles`, with each cycle as the labels along it.
    pub fn all_cycles_as_vertex_vec(&self) -> (r: (bool, Vec<Vec<String>>))
        ensures
            r.0 == has_cycle(self.arcs()),
            r.0 == (r.1@.len() > 0),
            exists|cs: Seq<Vec<Edge>>|
                #[trigger] self.cycle_listing(cs) && cs.len() == r.1@.len() && forall|k: int|
                    0 <= k < cs.len() ==> string_views((#[trigger] r.1@[k])@) == path_labels(cs[k]@),
    {
        let (res, cycles) = self.all_cycles();
        assert(self.cycle_listing(cycles@));
        let mut out: Vec<Vec<String>> = Vec::new();
        let mut k: usize = 0;
        while k < cycles.len()
            invariant
                0 <= k <= cycles@.len(),
                out@.len() == k,
                forall|q: int| 0 <= q < cycles@.len() ==> is_simple_canonical_cycle(self.arcs(), arcs_of(#[trigger] cycles@[q]@)),
                forall|q: int| 0 <= q < k ==> string_views((#[trigger] out@[q])@) == path_labels(cycles@[q]@),
            decreases cycles@.len() - k,
        {
            assert(is_simple_canonical_cycle(self.arcs(), arcs_of(cycles@[k as int]@)));
            let l = Self::path_as_vertex_vec(&cycles[k]);
            assert(string_views(l@) =~= path_labels(cycles@[k as int]@));
            out.push(l);
            k += 1;
        }
        (res, out)
    }

    /// The graph made of all edges on cycles, and whether there is a cycle.
    pub fn all_cycles_as_sub_graph(&self) -> (r: Result<(bool, Self), CircGraphErr>)
        ensures
            r is Ok,
            r->Ok_0.0 == has_cycle(self.arcs()),
            r->Ok_0.1.alphabet@ == self.alphabet@,
            forall|k: int| 0 <= k < r->Ok_0.1.e@.len() ==> self.arcs().contains(arc_of(#[trigger] r->Ok_0.1.e@[k])),
            self.edges_sorted() ==> forall|c: Seq<(u64, u64)>|
                #[trigger] is_simple_canonical_cycle(self.arcs(), c) ==> forall|k: int|
                    0 <= k < c.len() ==> has_arc(r->Ok_0.1.e@, #[trigger] c[k]),
    {
        let (res, cycles) = self.all_cycles();
        assert forall|i: int, j: int| 0 <= i < cycles@.len() && 0 <= j < cycles@[i]@.len() implies self.arcs().contains(
            arc_of(#[trigger] cycles@[i]@[j]),
        ) by {
            assert(is_simple_canonical_cycle(self.arcs(), arcs_of(cycles@[i]@)));
            assert(arcs_of(cycles@[i]@)[j] == arc_of(cycles@[i]@[j]));
        }
        let edges = flatten_paths(&cycles, Ghost(self.arcs()));
        let ghost eview = edges@;
        match self.subgraph_from_list_of_edges(edges) {
            Ok(g) => {
                assert forall|k: int| 0 <= k < g.e@.len() implies self.arcs().contains(arc_of(#[trigger] g.e@[k])) by {
                    assert(arcs_of(g.e@).len() == g.e@.len());
                    assert(arcs_of(eview).len() == eview.len());
                    assert(arcs_of(g.e@)[k] == arcs_of(eview)[k]);
                    assert(arc_of(eview[k]) == arcs_of(eview)[k]);
                }
                proof {
                    if self.edges_sorted() {
                        assert forall|c: Seq<(u64, u64)>| #[trigger] is_simple_canonical_cycle(self.arcs(), c) implies forall|k: int|
                            0 <= k < c.len() ==> has_arc(g.e@, #[trigger] c[k]) by {
                            let q = choose|q: int| 0 <= q < cycles@.len() && arcs_of(cycles@[q]@) == c;
                            assert forall|k: int| 0 <= k < c.len() implies has_arc(g.e@, #[trigger] c[k]) by {
                                assert(arcs_of(cycles@[q]@)[k] == arc_of(cycles@[q]@[k]));
                                assert(has_arc(eview, arc_of(cycles@[q]@[k])));
                                lemma_has_arc_same(g.e@, eview, c[k]);
                            }
                        }
                    }
                }
                Ok((res, g))
            },
            Err(e) => Err(e),
        }
    }

    /// Like `all_longest_paths`, with each path as its text.
    pub fn all_longest_paths_as_string_vec(&self) -> (r: Option<Vec<String>>)
        ensures
            r is None <==> has_cycle(self.arcs()),
            r is Some ==> exists|ps: Seq<Vec<Edge>>|
                #[trigger] self.longest_listing(ps) && ps.len() == r->Some_0@.len() && forall|k: int|
                    0 <= k < ps.len() ==> (#[trigger] r->Some_0@[k])@ == path_text(ps[k]@),
    {
        match self.all_longest_paths() {
            None => None,
            Some(paths) => {
                assert(self.longest_listing(paths@));
                let mut out: Vec<String> = Vec::new();
                let mut k: usize = 0;
                while k < paths.len()
                    invariant
                        0 <= k <= paths@.len(),
                        out@.len() == k,
                        forall|q: int| 0 <= q < paths@.len() ==> is_source_walk(self.arcs(), arcs_of(#[trigger] paths@[q]@)),
                        forall|q: int| 0 <= q < k ==> (#[trigger] out@[q])@ == path_text(paths@[q]@),
                    decreases paths@.len() - k,
                {
                    assert(is_source_walk(self.arcs(), arcs_of(paths@[k as int]@)));
                    let t = Self::path_as_string(&paths[k]);
                    out.push(t);
                    k += 1;
                }
                Some(out)
            },
        }
    }

    /// Like `all_longest_paths`, with each path as the labels along it.
    pub fn all_longest_paths_as_vertex_vec(&self) -> (r: Option<Vec<Vec<String>>>)
        ensures
            r is None <==> has_cycle(self.arcs()),
            r is Some ==> exists|ps: Seq<Vec<Edge>>|
                #[trigger] self.longest_listing(ps) && ps.len() == r->Some_0@.len() && forall|k: int|
                    0 <= k < ps.len() ==> string_views((#[trigger] r->Some_0@[k])@) == path_labels(ps[k]@),
    {
        match self.all_longest_paths() {
            None => None,
            Some(paths) => {
                assert(self.longest_listing(paths@));
                let mut out: Vec<Vec<String>> = Vec::new();
                let mut k: usize = 0;
                while k < paths.len()
                    invariant
                        0 <= k <= paths@.len(),
                        out@.len() == k,
                        forall|q: int| 0 <= q < paths@.len() ==> is_source_walk(self.arcs(), arcs_of(#[trigger] paths@[q]@)),
                        forall|q: int| 0 <= q < k ==> string_views((#[trigger] out@[q])@) == path_labels(paths@[q]@),
                    decreases paths@.len() - k,
                {
                    assert(is_source_walk(self.arcs(), arcs_of(paths@[k as int]@)));
                    let l = Self::path_as_vertex_vec(&paths[k]);
                    assert(string_views(l@) =~= path_labels(paths@[k as int]@));
                    out.push(l);
                    k += 1;
                }
                Some(out)
            },
        }
    }

    /// The graph made of all edges on longest paths.
    ///
    /// Fails with `EmptyCode` where the graph has a cycle.
    pub fn all_longest_paths_as_sub_graph(&self) -> (r: Result<Self, CircGraphErr>)
        ensures
            r is Err <==> has_cycle(self.arcs()),
            r is Err ==> r == Err::<Self, CircGraphErr>(CircGraphErr::EmptyCode),
            r is Ok ==> r->Ok_0.alphabet@ == self.alphabet@,
            r is Ok ==> forall|k: int| 0 <= k < r->Ok_0.e@.len() ==> self.arcs().contains(arc_of(#[trigger] r->Ok_0.e@[k])),
            r is Ok ==> forall|w: Seq<(u64, u64)>|
                #[trigger] is_source_walk(self.arcs(), w) && longest_source_walk_len(self.arcs(), w.len()) ==> forall|k: int|
                    0 <= k < w.len() ==> has_arc(r->Ok_0.e@, #[trigger] w[k]),
    {
        match self.all_longest_paths() {
            None => Err(CircGraphErr::EmptyCode),
            Some(paths) => {
                assert forall|i: int, j: int| 0 <= i < paths@.len() && 0 <= j < paths@[i]@.len() implies self.arcs().contains(
                    arc_of(#[trigger] paths@[i]@[j]),
                ) by {
                    assert(is_source_walk(self.arcs(), arcs_of(paths@[i]@)));
                    assert(arcs_of(paths@[i]@)[j] == arc_of(paths@[i]@[j]));
                }
                let edges = flatten_paths(&paths, Ghost(self.arcs()));
                let ghost eview = edges@;
                match self.subgraph_from_list_of_edges(edges) {
                    Ok(g) => {
                        assert forall|k: int| 0 <= k < g.e@.len() implies self.arcs().contains(arc_of(#[trigger] g.e@[k])) by {
                            assert(arcs_of(g.e@).len() == g.e@.len());
                            assert(arcs_of(eview).len() == eview.len());
                            assert(arcs_of(g.e@)[k] == arcs_of(eview)[k]);
                            assert(arc_of(eview[k]) == arcs_of(eview)[k]);
                        }
                        proof {
                            lemma_longest_arcs_covered(self.arcs(), paths@, eview, g.e@);
                        }
                        Ok(g)
                    },
                    Err(_) => Err(CircGraphErr::NoSubErr),
                }
            },
        }
    }
}

#[verifier::rlimit(60)]
proof fn lemma_longest_arcs_covered(arcs: Set<(u64, u64)>, ps: Seq<Vec<Edge>>, eview: Seq<Edge>, ge: Seq<Edge>)
    requires
        are_longest_source_walks(arcs, ps),
        forall|i: int, j: int| 0 <= i < ps.len() && 0 <= j < ps[i]@.len() ==> has_arc(eview, arc_of(#[trigger] ps[i]@[j])),
        arcs_of(ge) == arcs_of(eview),
    ensures
        forall|w: Seq<(u64, u64)>|
            #[trigger] is_source_walk(arcs, w) && longest_source_walk_len(arcs, w.len()) ==> forall|k: int|
                0 <= k < w.len() ==> has_arc(ge, #[trigger] w[k]),
{
    assert forall|w: Seq<(u64, u64)>|
        #[trigger] is_source_walk(arcs, w) && longest_source_walk_len(arcs, w.len()) implies forall|k: int|
            0 <= k < w.len() ==> has_arc(ge, #[trigger] w[k]) by {
        let q0 = choose|q: int| 0 <= q < ps.len() && w.len() <= (#[trigger] ps[q])@.len();
        assert(is_source_walk(arcs, arcs_of(ps[q0]@)));
        assert(arcs_of(ps[q0]@).len() <= w.len());
        assert(ps[q0]@.len() == w.len());
        let q = choose|q: int| 0 <= q < ps.len() && arcs_of(#[trigger] ps[q]@) == w;
        assert forall|k: int| 0 <= k < w.len() implies has_arc(ge, #[trigger] w[k]) by {
            assert(arcs_of(ps[q]@)[k] == arc_of(ps[q]@[k]));
            assert(has_arc(eview, arc_of(ps[q]@[k])));
            lemma_has_arc_same(ge, eview, w[k]);
        }
    }
}

proof fn lemma_has_arc_same(a: Seq<Edge>, b: Seq<Edge>, x: (u64, u64))
    requires
        arcs_of(a) == arcs_of(b),
        has_arc(b, x),
    ensures
        has_arc(a, x),
{
    let m = choose|m: int| 0 <= m < b.len() && #[trigger] arc_of(b[m]) == x;
    assert(arcs_of(b)[m] == x);
    assert(arcs_of(a).len() == a.len());
    assert(arcs_of(a)[m] == arc_of(a[m]));
}

/// `l` is the greatest number of arcs of a walk over `arcs` from a vertex without incoming
/// arcs (0 where there is none).
pub open spec fn longest_source_walk_len(arcs: Set<(u64, u64)>, l: nat) -> bool {
    &&& forall|w: Seq<(u64, u64)>| #[trigger] is_source_walk(arcs, w) ==> w.len() <= l
    &&& l > 0 ==> exists|w: Seq<(u64, u64)>| #[trigger] is_source_walk(arcs, w) && w.len() == l
}

} // verus!
