use gcatcirc::code::CircCode;
use gcatcirc::graph_code::{CodeGraph, ROOT};

#[test]
fn mod_new_graph() {
    {
        let a = match CircCode::new_from_vec(vec!["BDC".to_string(), "CA".to_string(), "DB".to_string()]) {
            Ok(code) => code,
            _ => panic!(),
        };

        let b = CodeGraph::new(&a);

        assert_eq!(b.e[0], vec![ROOT]);
        assert_eq!(b.e[1], vec![ROOT, 'B', 'D', 'C']);
        assert_eq!(b.e[2], vec![ROOT, 'C', 'A']);
        assert_eq!(b.e[3], vec![ROOT, 'D', 'B']);

        assert_eq!(b.is_code(), true);
    }
}

#[test]
fn is_code_graph() {
    {
        let a = match CircCode::new_from_vec(vec!["BDCC".to_string(), "BD".to_string(), "CC".to_string()]) {
            Ok(code) => code,
            _ => panic!(),
        };

        let b = CodeGraph::new(&a);

        assert_eq!(b.is_code(), false);
    }
    {
        let a = match CircCode::new_from_vec(vec!["BDADCC".to_string(), "AD".to_string(), "BD".to_string(), "CC".to_string()]) {
            Ok(code) => code,
            _ => panic!(),
        };

        let b = CodeGraph::new(&a);

        assert_eq!(b.is_code(), false);
    }
    {
        let a = match CircCode::new_from_vec(vec!["BDADA".to_string(), "AD".to_string(), "BD".to_string(), "ACC".to_string(), "CC".to_string()]) {
            Ok(code) => code,
            _ => panic!(),
        };

        let b = CodeGraph::new(&a);

        assert_eq!(b.is_code(), false);
    }
    {
        let a = match CircCode::new_from_vec(vec!["AC".to_string(), "ACA".to_string(), "CAA".to_string()]) {
            Ok(code) => code,
            _ => panic!(),
        };

        let b = CodeGraph::new(&a);

        assert_eq!(b.is_code(), true);
    }
}

#[test]
fn mod_ambiguous_sequences_graph() {
    {
        let a = match CircCode::new_from_vec(vec!["BDADCC".to_string(), "AD".to_string(), "BD".to_string(), "CC".to_string(), "ADCC".to_string()]) {
            Ok(code) => code,
            _ => panic!(),
        };

        let b = CodeGraph::new(&a);
        let (is_code, an_seq) = b.all_ambiguous_sequences();

        assert_eq!(is_code, false);
        assert_eq!(an_seq, vec!["BDADCC".to_string(), "BDADCC".to_string(), "ADCC".to_string()]);
    }
}
