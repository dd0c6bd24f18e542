use gcatcirc::elements::{Edge, Vertex};

#[test]
fn new_vertex() {
    {
        let al = vec!['A', 'B'];
        let label = "AB".to_string();
        let v = match Vertex::new(label, &al) {
            Ok(ver) => ver,
            _ => panic!(),
        };

        assert_eq!(v.index, 7);
    }
    {
        let al = vec!['A', 'B', 'C'];
        let label = "CAB".to_string();
        let v = match Vertex::new(label, &al) {
            Ok(ver) => ver,
            _ => panic!(),
        };

        assert_eq!(v.index, 3 * 1 + 1 * 4 + 2 * 16);
    }
    {
        let al = vec!['A', 'B'];
        let label = "CAB".to_string();
        let res = match Vertex::new(label, &al) {
            Err(e) => e,
            _ => panic!(),
        };

        assert_eq!(res.to_string(), "Wrong word nod in alphabet!");
    }
}

#[test]
fn new_edge() {
    {
        let al = vec!['A', 'B'];
        let label = "AB".to_string();
        let v1 = match Vertex::new(label, &al) {
            Ok(ver) => ver,
            _ => panic!(),
        };

        let label = "ABB".to_string();
        let v2 = match Vertex::new(label, &al) {
            Ok(ver) => ver,
            _ => panic!(),
        };

        let e = Edge::new(v1, v2);
        assert_eq!(e.label, "ABABB");
    }
    {
        let al = vec!['A', 'B', 'C'];
        let label = "CAB".to_string();
        let v = match Vertex::new(label, &al) {
            Ok(ver) => ver,
            _ => panic!(),
        };

        assert_eq!(v.index, 3 * 1 + 1 * 4 + 2 * 16);
    }
}
