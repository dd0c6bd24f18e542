use gcatcirc::code::{CircCode, CircCodeErr};
use gcatcirc::elements::{GraphElementsErr, Vertex};
use gcatcirc::graph_circ::{CircGraph, CircGraphErr};

fn code_of(words: &[&str]) -> CircCode {
    CircCode::new_from_vec(words.iter().map(|w| w.to_string()).collect()).unwrap()
}

fn sample_codes() -> Vec<CircCode> {
    vec![
        code_of(&["1100", "0022", "2233", "3311"]),
        code_of(&["1100", "0022", "2233", "3314"]),
        code_of(&["1100", "0022", "2211"]),
        code_of(&["ABC", "DEF"]),
        code_of(&["ABC", "CEF"]),
        code_of(&["ABB", "AB", "AAB"]),
        code_of(&["ADB", "BA", "AAD", "DAA"]),
        code_of(&["A", "B"]),
    ]
}

#[test]
fn shift_round_trip_restores_words() {
    let start = code_of(&["BDC", "CA", "DB", "ABCDE"]);
    for s in [-7, -3, -1, 0, 1, 2, 5, 11] {
        let mut a = start.clone();
        a.shift(s);
        a.shift(-s);
        assert_eq!(a.code, start.code);
        assert_eq!(a, start);
    }
}

#[test]
fn shift_by_word_length_keeps_word() {
    let mut a = code_of(&["BDC", "CA"]);
    a.shift(6);
    assert_eq!(a.code, vec!["BDC", "CA"]);
    a.shift(2);
    assert_eq!(a.code, vec!["CBD", "CA"]);
    a.shift(-2);
    assert_eq!(a.code, vec!["BDC", "CA"]);
}

#[test]
fn circular_matches_acyclic_split_graph() {
    for c in sample_codes() {
        let graph = CircGraph::new(&c).unwrap();
        assert_eq!(c.is_circular(), !graph.is_cyclic());
    }
}

#[test]
fn comma_free_chain_holds() {
    for c in sample_codes() {
        if c.is_strong_comma_free() {
            assert!(c.is_comma_free());
        }
        if c.is_comma_free() {
            assert!(c.is_circular());
        }
    }
}

#[test]
fn k_unbounded_exactly_when_circular() {
    for c in sample_codes() {
        assert_eq!(c.get_exact_k_circular() == u32::MAX, c.is_circular());
    }
}

#[test]
fn ambiguous_sequences_when_not_a_code() {
    let a = code_of(&["ABDC", "AB", "DC"]);
    assert_eq!(a.is_code(), false);
    let (is_code, seqs) = a.all_ambiguous_sequences();
    assert_eq!(is_code, false);
    assert!(!seqs.is_empty());
    assert!(seqs.contains(&"ABDC".to_string()));
    let b = code_of(&["BDC", "CA", "DB"]);
    let (is_code, seqs) = b.all_ambiguous_sequences();
    assert_eq!(is_code, true);
    assert!(seqs.is_empty());
}

#[test]
fn spec_scenario_code_model() {
    let mut a = code_of(&["BDC", "CA", "DB"]);
    assert!(a.is_code());
    assert_eq!(a.get_tuple_length(), vec![2, 3]);
    assert_eq!(a.get_alphabet(), vec!['A', 'B', 'C', 'D']);
    a.shift(-1);
    assert_eq!(a.get_code(), vec!["CBD", "AC", "BD"]);
}

#[test]
fn spec_scenario_circular_and_k() {
    let a = code_of(&["1100", "0022", "2233", "3314"]);
    assert!(a.is_circular());
    assert_eq!(a.get_exact_k_circular(), u32::MAX);
    let b = code_of(&["1100", "0022", "2211"]);
    assert_eq!(b.get_exact_k_circular(), 2);
    assert!(!b.is_circular());
}

#[test]
fn new_from_seq_errors_and_remainder() {
    assert_eq!(CircCode::new_from_seq("AB".to_string(), 3).unwrap_err(), CircCodeErr::EmptyCode);
    assert_eq!(CircCode::new_from_seq("".to_string(), 1).unwrap_err(), CircCodeErr::EmptyCode);
    let a = CircCode::new_from_seq("ABABCDX".to_string(), 2).unwrap();
    assert_eq!(a.code, vec!["AB", "CD"]);
    assert_eq!(a.tuple_length, vec![2]);
    assert_eq!(a.alphabet, vec!['A', 'B', 'C', 'D']);
}

#[test]
fn new_from_vec_keeps_first_occurrences() {
    let a = code_of(&["AB", "CD", "AB", "E", "CD"]);
    assert_eq!(a.code, vec!["AB", "CD", "E"]);
    assert_eq!(a.tuple_length, vec![1, 2]);
    assert_eq!(a.alphabet, vec!['A', 'B', 'C', 'D', 'E']);
    assert_eq!(CircCode::new_from_vec(vec!["".to_string()]).unwrap_err(), CircCodeErr::EmptyWord);
}

#[test]
fn default_code() {
    let d = CircCode::default();
    assert_eq!(d.code, vec!["A"]);
    assert_eq!(d.id, "no id");
    assert_eq!(d.tuple_length, vec![1]);
    assert_eq!(d.alphabet, vec!['A']);
}

#[test]
fn vertex_index_overflow() {
    let al = vec!['A', 'B'];
    let fits = "A".repeat(41);
    let v = Vertex::new(fits, &al).unwrap();
    assert_eq!(v.index, 18236498188585393201);
    let long = "A".repeat(42);
    let e = Vertex::new(long, &al).unwrap_err();
    assert_eq!(e, GraphElementsErr::IndexOverflow);
    assert_eq!(e.to_string(), "Index out of range!");
}

#[test]
fn graph_that_cannot_be_built() {
    let mut word = "A".repeat(60);
    word.push('B');
    let c = code_of(&[word.as_str(), "B"]);
    assert_eq!(CircGraph::new(&c).err(), Some(CircGraphErr::VertexErr));
    assert_eq!(c.get_associated_graph().err(), Some(CircGraphErr::VertexErr));
    assert_eq!(c.is_circular(), false);
    assert_eq!(c.is_comma_free(), false);
    assert_eq!(c.get_exact_k_circular(), u32::MAX);
}

#[test]
fn edgeless_graph_paths() {
    let c = code_of(&["A", "B"]);
    let g = CircGraph::new(&c).unwrap();
    assert_eq!(g.all_longest_paths().unwrap().len(), 0);
    assert!(c.is_comma_free());
    assert!(!c.is_strong_comma_free());
    assert!(c.is_circular());
}

#[test]
fn subgraph_rejects_foreign_edge() {
    let g = CircGraph::new(&code_of(&["ABC", "DEF"])).unwrap();
    let other = CircGraph::new(&code_of(&["AAA"])).unwrap();
    let foreign = other.get_edges();
    assert_eq!(g.subgraph_from_list_of_edges(foreign).err(), Some(CircGraphErr::NoSubErr));
    let own = g.get_edges();
    let sub = g.subgraph_from_list_of_edges(own.clone()).unwrap();
    assert_eq!(sub.e, own);
}

#[test]
fn component_of_split_length() {
    let g = CircGraph::new(&code_of(&["ABC", "DEF"])).unwrap();
    let c2 = g.component(2).unwrap();
    assert_eq!(c2.e.len(), 4);
    let c1 = g.component(1).unwrap();
    assert_eq!(c1.e.len(), 4);
    assert_eq!(g.component(3).err(), Some(CircGraphErr::EmptyCode));
}

#[test]
fn longest_paths_text() {
    let g = CircGraph::new(&code_of(&["ABC", "BCD"])).unwrap();
    let texts = g.all_longest_paths_as_string_vec().unwrap();
    assert!(!texts.is_empty());
    let labels = g.all_longest_paths_as_vertex_vec().unwrap();
    assert_eq!(labels.len(), texts.len());
    for (t, l) in texts.iter().zip(labels.iter()) {
        assert_eq!(*t, l.join(" -> "));
    }
    assert!(g.all_longest_paths_as_sub_graph().is_ok());
    let cyclic = CircGraph::new(&code_of(&["AAC", "CAA"])).unwrap();
    assert_eq!(cyclic.all_longest_paths_as_sub_graph().err(), Some(CircGraphErr::EmptyCode));
    assert_eq!(cyclic.all_longest_paths_as_string_vec(), None);
}

#[test]
fn error_messages() {
    assert_eq!(CircGraphErr::EmptyCode.to_string(), "Empty Code");
    assert_eq!(CircGraphErr::VertexErr.to_string(), "Vertex Code");
    assert_eq!(CircGraphErr::EdgeErr.to_string(), "Edge Error");
    assert_eq!(CircGraphErr::NoSubErr.to_string(), "Graph is no subgraph!");
    assert_eq!(CircCodeErr::EmptyCode.to_string(), "Empty Code");
    assert_eq!(GraphElementsErr::NotInAlphabet.to_string(), "Wrong word nod in alphabet!");
}

#[test]
fn vertices_and_edges_of_graph() {
    let g = CircGraph::new(&code_of(&["AB"])).unwrap();
    assert_eq!(g.get_vertices(), vec!["A", "B"]);
    let e = g.get_edges();
    assert_eq!(e.len(), 1);
    assert_eq!(e[0].label, "AB");
    assert_eq!(CircGraph::path_as_string(&e), "A -> B");
    assert_eq!(CircGraph::path_as_vertex_vec(&e), vec!["A", "B"]);
}

#[test]
fn comma_free_chain_is_strict() {
    let circular_only = code_of(&["ABC", "BCD", "DEF", "EFG"]);
    assert!(circular_only.is_circular());
    assert!(!circular_only.is_comma_free());
    let comma_free_only = code_of(&["ABC", "CEF"]);
    assert!(comma_free_only.is_comma_free());
    assert!(!comma_free_only.is_strong_comma_free());
}

#[test]
fn cycles_are_canonical_and_sorted() {
    let g = CircGraph::new(&code_of(&["ADB", "BA", "AAD", "DAA"])).unwrap();
    let (cyclic, cycles) = g.all_cycles();
    assert!(cyclic);
    for c in &cycles {
        let first = c[0].from.index;
        assert!(c.iter().all(|e| e.from.index >= first));
        assert_eq!(c.last().unwrap().to.index, first);
    }
    for w in cycles.windows(2) {
        assert!(w[0].len() <= w[1].len());
    }
    let k = code_of(&["ADB", "BA", "AAD", "DAA"]).get_exact_k_circular();
    assert_eq!(k, 2);
}

#[test]
fn code_from_words_and_sequence() {
    let a: CircCode = CircCode::from(vec!["AB".to_string(), "CD".to_string(), "AB".to_string()]);
    assert_eq!(a.code, vec!["AB", "CD"]);
    let d: CircCode = CircCode::from(vec!["AB".to_string(), "".to_string()]);
    assert_eq!(d.code, vec!["A"]);
    assert_eq!(d.id, "no id");
    let s: CircCode = CircCode::from(("ABCCDE".to_string(), 2usize));
    assert_eq!(s.code, vec!["AB", "CC", "DE"]);
    let e: CircCode = CircCode::from(("AB".to_string(), 3usize));
    assert_eq!(e.code, vec!["A"]);
}
