use graphics_engine::mesh::{parse_corner, parse_index, parse_record, resolve_face, split_fields, FaceCorner, Indices3, Record};

fn bytes(s: &str) -> Vec<u8> {
    s.as_bytes().to_vec()
}

#[test]
fn split_fields_keeps_empty_fields() {
    assert_eq!(split_fields(&bytes("a b  c"), b' '), vec![bytes("a"), bytes("b"), bytes(""), bytes("c")]);
    assert_eq!(split_fields(&bytes(""), b' '), vec![bytes("")]);
    assert_eq!(split_fields(&bytes("1//3"), b'/'), vec![bytes("1"), bytes(""), bytes("3")]);
}

#[test]
fn parse_index_reads_decimal() {
    assert_eq!(parse_index(&bytes("12")), Some(12));
    assert_eq!(parse_index(&bytes("+7")), Some(7));
    assert_eq!(parse_index(&bytes("0")), Some(0));
    assert_eq!(parse_index(&bytes("")), None);
    assert_eq!(parse_index(&bytes("+")), None);
    assert_eq!(parse_index(&bytes("1a")), None);
    assert_eq!(parse_index(&bytes("-1")), None);
    let max = usize::MAX.to_string();
    assert_eq!(parse_index(&bytes(&max)), Some(usize::MAX));
    assert_eq!(parse_index(&bytes(&format!("{}0", max))), None);
}

#[test]
fn parse_index_agrees_with_std() {
    for s in ["0", "42", "+42", "007", "", "+", "++1", "4 2", "99999999999999999999999"] {
        assert_eq!(parse_index(&bytes(s)), s.parse::<usize>().ok());
    }
}

#[test]
fn parse_corner_forms() {
    assert_eq!(parse_corner(&bytes("3")), Some(FaceCorner { point: 3, normal: None }));
    assert_eq!(parse_corner(&bytes("3/1/2")), Some(FaceCorner { point: 3, normal: Some(2) }));
    assert_eq!(parse_corner(&bytes("3//2")), Some(FaceCorner { point: 3, normal: Some(2) }));
    assert_eq!(parse_corner(&bytes("3/2")), None);
    assert_eq!(parse_corner(&bytes("x")), None);
}

#[test]
fn parse_record_kinds() {
    match parse_record(&bytes("v 1.5 -2 3e1")) {
        Some(Record::Vertex(x, y, z)) => assert_eq!((x, y, z), (bytes("1.5"), bytes("-2"), bytes("3e1"))),
        _ => panic!("not a vertex"),
    }
    match parse_record(&bytes("vn 0 1 0")) {
        Some(Record::Normal(x, y, z)) => assert_eq!((x, y, z), (bytes("0"), bytes("1"), bytes("0"))),
        _ => panic!("not a normal"),
    }
    match parse_record(&bytes("f 1 2/5/3 4")) {
        Some(Record::Face(a, b, c)) => {
            assert_eq!(a, FaceCorner { point: 1, normal: None });
            assert_eq!(b, FaceCorner { point: 2, normal: Some(3) });
            assert_eq!(c, FaceCorner { point: 4, normal: None });
        },
        _ => panic!("not a face"),
    }
    assert!(matches!(parse_record(&bytes("# a comment")), Some(Record::Other)));
    assert!(matches!(parse_record(&bytes("")), Some(Record::Other)));
    assert!(matches!(parse_record(&bytes("vt 0 0")), Some(Record::Other)));
}

#[test]
fn parse_record_rejects_short_or_bad_records() {
    assert!(parse_record(&bytes("f 1 2")).is_none());
    assert!(parse_record(&bytes("v 1 2")).is_none());
    assert!(parse_record(&bytes("f 1 2 x")).is_none());
}

#[test]
fn resolve_face_makes_indices_zero_based() {
    let c = |p: usize, n: Option<usize>| FaceCorner { point: p, normal: n };
    let t = resolve_face(c(1, Some(2)), c(2, Some(1)), c(3, Some(2)), 3, 2).unwrap();
    assert_eq!(t.points, Indices3 { a: 0, b: 1, c: 2 });
    assert_eq!(t.normals, Some(Indices3 { a: 1, b: 0, c: 1 }));
    let flat = resolve_face(c(1, Some(1)), c(2, None), c(3, Some(1)), 3, 1).unwrap();
    assert_eq!(flat.normals, None);
    assert!(resolve_face(c(0, None), c(1, None), c(2, None), 3, 0).is_none());
    assert!(resolve_face(c(1, None), c(2, None), c(4, None), 3, 0).is_none());
    assert!(resolve_face(c(1, Some(3)), c(2, Some(1)), c(3, Some(1)), 3, 2).is_none());
}
