use vstd::prelude::*;
use crate::code::{
    CircCode,
    rotate_all,
    lemma_shift_round_trip,
    circular_spec,
    bounded_paths_spec,
    single_edge_paths_spec,
    k_unbounded,
};
use crate::graph_circ::{CircGraph, splits_indexable, split_arcs, has_cycle, longest_source_walk_len};
use crate::graph_code::{CodeGraph, flat, is_ambiguous, is_factorization, walks_decide_code, rows_of};

verus! {

/// Shifting a code by `s` and then by `-s` gives back its words, in order; so the two codes
/// are equal.
pub proof fn law_shift_round_trip(x: CircCode, s: int)
    requires
        x.wf(),
    ensures
        rotate_all(rotate_all(x.words(), s), -s) == x.words(),
        rotate_all(rotate_all(x.words(), s), -s).to_set() == x.words().to_set(),
{
    lemma_shift_round_trip(x.words(), s);
}

/// The words along a list of word positions.
pub open spec fn decomposition(ws: Seq<Seq<char>>, f: Seq<usize>) -> Seq<Seq<char>> {
    f.map_values(|i: usize| ws[i as int])
}

/// A sequence reported as ambiguous has two different decompositions into words of the code.
pub proof fn law_ambiguous_has_two_decompositions(ws: Seq<Seq<char>>, s: Seq<char>)
    requires
        is_ambiguous(ws, s),
    ensures
        exists|f1: Seq<usize>, f2: Seq<usize>|
            #[trigger] is_factorization(ws, f1) && #[trigger] is_factorization(ws, f2) && decomposition(ws, f1)
                != decomposition(ws, f2) && flat(ws, f1) == s && flat(ws, f2) == s,
{
    let (f1, f2) = choose|f1: Seq<usize>, f2: Seq<usize>|
        #[trigger] is_factorization(ws, f1) && #[trigger] is_factorization(ws, f2) && ws[f1[0] as int] != ws[f2[0] as int]
            && flat(ws, f1) == s && flat(ws, f2) == s;
    assert(decomposition(ws, f1)[0] != decomposition(ws, f2)[0]);
}

/// A code and its decidability graph decide alike: both answers are the outcome of the same
/// walks over the graph's rows, in the mode that stops early and in the one that collects every
/// sequence found.
pub proof fn law_code_matches_its_graph(x: CircCode, g: CodeGraph)
    requires
        x.wf(),
        g.wf(),
        g.ws() == x.words(),
    ensures
        walks_decide_code(g.rows()) == walks_decide_code(rows_of(x.words())),
{
}

/// A code is circular exactly where its split graph has no cycle.
pub proof fn law_circular_iff_acyclic(x: CircCode, g: CircGraph)
    requires
        x.wf(),
        splits_indexable(x.words(), x.alphabet@),
        g.arcs() == split_arcs(x.words(), x.alphabet@),
    ensures
        circular_spec(x.words(), x.alphabet@) == !has_cycle(g.arcs()),
{
}

/// A strong comma-free code is comma-free, and a comma-free code is circular.
pub proof fn law_comma_free_chain(ws: Seq<Seq<char>>, a: Seq<char>)
    ensures
        single_edge_paths_spec(ws, a) ==> bounded_paths_spec(ws, a, 2),
        bounded_paths_spec(ws, a, 2) ==> circular_spec(ws, a),
{
    if single_edge_paths_spec(ws, a) {
        let l = choose|l: nat| #[trigger] longest_source_walk_len(split_arcs(ws, a), l) && l == 1;
        assert(longest_source_walk_len(split_arcs(ws, a), l) && l <= 2);
    }
}

/// Where the split graph can be built, the k of a code is unbounded exactly when the code is
/// circular.
pub proof fn law_k_unbounded_iff_circular(ws: Seq<Seq<char>>, a: Seq<char>)
    requires
        splits_indexable(ws, a),
    ensures
        k_unbounded(ws, a) == circular_spec(ws, a),
{
}

} // verus!
