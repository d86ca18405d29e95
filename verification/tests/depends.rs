use pkg::control::parse_control;
use pkg::depends::{dependencies_of, parse_depends, RelOp, RelationKind};
use pkg::version::Version;
use pkg::PkgError;

#[test]
fn depends_empty_field_is_empty_expression() {
    let e = parse_depends(b"").unwrap();
    assert_eq!(e.groups.len(), 0);
    let e = parse_depends(b"   ").unwrap();
    assert_eq!(e.groups.len(), 0);
}

#[test]
fn depends_single_name() {
    let e = parse_depends(b"libc6").unwrap();
    assert_eq!(e.groups.len(), 1);
    assert_eq!(e.groups[0].terms.len(), 1);
    assert_eq!(e.groups[0].terms[0].name, b"libc6".to_vec());
    assert!(e.groups[0].terms[0].constraint.is_none());
}

#[test]
fn depends_alternatives_and_constraints() {
    let e = parse_depends(b"libc6 (>= 2.7) | libc6-alt, libfoo").unwrap();
    assert_eq!(e.groups.len(), 2);
    let g0 = &e.groups[0];
    assert_eq!(g0.terms.len(), 2);
    assert_eq!(g0.terms[0].name, b"libc6".to_vec());
    let (op, v) = g0.terms[0].constraint.as_ref().unwrap();
    assert_eq!(*op, RelOp::Ge);
    assert_eq!(*v, Version::new("2.7".to_string()).unwrap());
    assert_eq!(g0.terms[1].name, b"libc6-alt".to_vec());
    assert!(g0.terms[1].constraint.is_none());
    let g1 = &e.groups[1];
    assert_eq!(g1.terms.len(), 1);
    assert_eq!(g1.terms[0].name, b"libfoo".to_vec());
}

#[test]
fn depends_all_operators() {
    for (text, op) in [
        ("a (<< 1.0)", RelOp::Lt),
        ("a (<= 1.0)", RelOp::Le),
        ("a (= 1.0)", RelOp::Eq),
        ("a (>= 1.0)", RelOp::Ge),
        ("a (>> 1.0)", RelOp::Gt),
        ("a (< 1.0)", RelOp::Le),
        ("a (> 1.0)", RelOp::Ge),
    ] {
        let e = parse_depends(text.as_bytes()).unwrap();
        let (got, _) = e.groups[0].terms[0].constraint.as_ref().unwrap();
        assert_eq!(*got, op, "for {:?}", text);
    }
}

#[test]
fn depends_malformed_fields_fail() {
    for text in ["a (== 1.0)", "a (>= )", "a (>= 1.0", "two words", "a (1.0)", ","] {
        match parse_depends(text.as_bytes()) {
            Err(PkgError::ParseError) => {}
            other => panic!("expected ParseError for {:?}, got {:?}", text, other),
        }
    }
}

#[test]
fn record_relationship_fields_parse_on_demand() {
    let mut ps = parse_control(
        b"Package: x\nVersion: 1.0\nDepends: a (>= 2.0), b\nRecommends: c | d\nSuggests: \n",
    )
    .unwrap();
    let p = ps.pop().unwrap();
    let deps = dependencies_of(&p, RelationKind::Depends).unwrap();
    assert_eq!(deps.groups.len(), 2);
    let recs = dependencies_of(&p, RelationKind::Recommends).unwrap();
    assert_eq!(recs.groups.len(), 1);
    assert_eq!(recs.groups[0].terms.len(), 2);
    let sug = dependencies_of(&p, RelationKind::Suggests).unwrap();
    assert_eq!(sug.groups.len(), 0);
    let enh = dependencies_of(&p, RelationKind::Enhances).unwrap();
    assert_eq!(enh.groups.len(), 0);
}
