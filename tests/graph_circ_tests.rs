use gcatcirc::code::CircCode;
use gcatcirc::graph_circ::{CircGraph, CircGraphErr};

#[test]
fn new_graph() {
    let code = match CircCode::new_from_vec(vec!["ABB".to_string(), "AB".to_string(), "AAB".to_string()]) {
        Ok(code) => code,
        _ => panic!(),
    };

    let graph = match CircGraph::new(&code) {
        Ok(graph) => graph,
        _ => panic!(),
    };

    assert_eq!(graph.v.iter().map(|x| x.label.clone()).collect::<Vec<String>>(), vec!["A", "B", "AA", "AB", "BB"])
}

#[test]
fn is_acyclic() {
    {
        let code = match CircCode::new_from_vec(vec!["ABB".to_string(), "AB".to_string(), "AAB".to_string()]) {
            Ok(code) => code,
            _ => panic!(),
        };

        let graph = match CircGraph::new(&code) {
            Ok(graph) => graph,
            _ => panic!(),
        };

        assert_eq!(graph.is_cyclic(), false);
    }
    {
        let code = match CircCode::new_from_vec(vec!["ABB".to_string(), "BA".to_string(), "AAB".to_string()]) {
            Ok(code) => code,
            _ => panic!(),
        };

        let graph = match CircGraph::new(&code) {
            Ok(graph) => graph,
            _ => panic!(),
        };

        assert_eq!(graph.is_cyclic(), true);
    }
}

#[test]
fn get_all_cyclic() {
    {
        let code = match CircCode::new_from_vec(vec!["ADB".to_string(), "BA".to_string(), "AAD".to_string()]) {
            Ok(code) => code,
            _ => panic!(),
        };

        let graph = match CircGraph::new(&code) {
            Ok(graph) => graph,
            _ => panic!(),
        };

        let (res, cycles) = graph.all_cycles();

        assert_eq!(res, true);
        assert_eq!(cycles.len(), 1);
    }
    {
        let code = match CircCode::new_from_vec(vec!["ADB".to_string(), "BA".to_string(), "AAD".to_string(), "DAA".to_string()]) {
            Ok(code) => code,
            _ => panic!(),
        };

        let graph = match CircGraph::new(&code) {
            Ok(graph) => graph,
            _ => panic!(),
        };

        let (res, cycles) = graph.all_cycles();

        assert_eq!(res, true);
        assert_eq!(cycles.len(), 2);

        let (res, cycles_string) = graph.all_cycles_as_string_vec();
        assert_eq!(res, true);
        assert_eq!(cycles_string.len(), 2);
        assert_eq!(cycles_string[0], "D -> AA -> D");
        assert_eq!(cycles_string[1], "A -> AD -> B -> A");

        let (res, cycles_string) = graph.all_cycles_as_vertex_vec();
        assert_eq!(res, true);
        assert_eq!(cycles_string[0], vec!["D", "AA", "D"]);
        assert_eq!(cycles_string[1], vec!["A", "AD", "B", "A"]);

        let new_graph = match graph.subgraph_from_list_of_edges(cycles[0].clone()) {
            Ok(graph) => graph,
            _ => panic!(),
        };
        assert_eq!(new_graph.e, cycles[0]);

        let (_, new_graph) = match graph.all_cycles_as_sub_graph() {
            Ok(graph) => graph,
            _ => panic!(),
        };

        assert_eq!(new_graph.e.len(), 5);
    }
    {
        let code = match CircCode::new_from_vec(vec!["ACB".to_string(), "BDC".to_string(), "ABC".to_string(), "DDC".to_string(), "BAA".to_string(), "BBB".to_string(), "BDA".to_string(), "ACD".to_string(), "ADA".to_string(), "BBC".to_string(), "DDB".to_string(), "AAD".to_string(), "CDC".to_string(), "ADC".to_string(), "CAD".to_string(), "CBD".to_string(), "ACA".to_string(), "BCA".to_string(), "CCD".to_string(), "DCD".to_string(), "ABA".to_string(), "BCC".to_string(), "ADB".to_string(), "CAA".to_string(), "DCB".to_string(), "DBB".to_string(), "CBA".to_string(), "CDD".to_string(), "DAD".to_string(), "CDB".to_string()]) {
            Ok(code) => code,
            _ => panic!(),
        };

        let graph = match CircGraph::new(&code) {
            Ok(graph) => graph,
            _ => panic!(),
        };

        let (res, cycles) = graph.all_cycles();

        assert_eq!(cycles.len(), 838);

        assert_eq!(res, true);
    }
}

#[test]
fn component() {
    let code = match CircCode::new_from_vec(vec!["ADBD".to_string(), "BADD".to_string(), "AAAD".to_string()]) {
        Ok(code) => code,
        _ => panic!(),
    };

    let graph = match CircGraph::new(&code) {
        Ok(graph) => graph,
        _ => panic!(),
    };
    let subgraph = match graph.component(1) {
        Ok(graph) => graph,
        _ => panic!(),
    };

    assert_eq!(subgraph.e.len(), 6);

    let subgraph = match graph.component(5) {
        Err(e) => e,
        _ => panic!(),
    };
    assert_eq!(subgraph, CircGraphErr::EmptyCode);
}

#[test]
fn all_longest_paths() {
    let code = match CircCode::new_from_vec(vec!["ABC".to_string(), "BCD".to_string(), "DEF".to_string(), "EFG".to_string()]) {
        Ok(code) => code,
        _ => panic!(),
    };

    let graph = match CircGraph::new(&code) {
        Ok(graph) => graph,
        _ => panic!(),
    };

    let a = graph.all_longest_paths().unwrap();
    assert_eq!(a[0].len(), 4);

    let code = CircCode::new_from_vec(vec!["AAC".to_string(), "AAG".to_string(), "AAT".to_string(), "ACC".to_string(), "ACG".to_string(), "ACT".to_string(), "AGC".to_string(), "AGG".to_string(), "AGT".to_string(), "ATT".to_string(), "CCG".to_string(), "CCT".to_string(), "CGG".to_string(), "CGT".to_string(), "CTT".to_string(), "GCT".to_string(), "GGT".to_string(), "GTT".to_string(), "TCA".to_string(), "TGA".to_string()]).unwrap_or_default();

    let graph = match CircGraph::new(&code) {
        Ok(graph) => graph,
        _ => panic!(),
    };

    let a = graph.all_longest_paths().unwrap();
    assert_eq!(a.len(), 16);
    assert_eq!(a[0].len(), 8);

    let code = CircCode::new_from_vec(vec!["AAC".to_string(), "CAA".to_string()]).unwrap_or_default();

    let graph = match CircGraph::new(&code) {
        Ok(graph) => graph,
        _ => panic!(),
    };

    assert_eq!(graph.all_longest_paths(), None);
}
