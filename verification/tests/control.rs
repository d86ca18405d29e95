use pkg::control::{parse_control, Pkg};
use pkg::version::Version;
use pkg::PkgError;

fn one(text: &str) -> Pkg {
    let mut ps = parse_control(text.as_bytes()).unwrap();
    assert_eq!(ps.len(), 1);
    ps.pop().unwrap()
}

#[test]
fn stanza_basic_fields() {
    let p = one(
        "Package: hello\nVersion: 2.10-3\nArchitecture: amd64\nDepends: libc6 (>= 2.7)\nMaintainer: Jane Doe <jane@example.test>\nDescription: a friendly greeter\nFilename: pool/h/hello.deb\n",
    );
    assert_eq!(p.name, b"hello".to_vec());
    assert_eq!(p.version, Version::new("2.10-3".to_string()).unwrap());
    assert_eq!(p.arch, b"amd64".to_vec());
    assert_eq!(p.deps, b"libc6 (>= 2.7)".to_vec());
    assert_eq!(p.maintainer, b"Jane Doe <jane@example.test>".to_vec());
    assert_eq!(p.description, b"a friendly greeter".to_vec());
    assert_eq!(p.path, b"pool/h/hello.deb".to_vec());
    assert_eq!(p.homepage, b"".to_vec());
    assert_eq!(p.recommends, b"".to_vec());
}

#[test]
fn stanza_field_order_does_not_matter() {
    let a = one("Package: x\nVersion: 1.0\nArchitecture: all\nMaintainer: m\n");
    let b = one("Maintainer: m\nArchitecture: all\nPackage: x\nVersion: 1.0\n");
    assert_eq!(a.name, b.name);
    assert_eq!(a.version, b.version);
    assert_eq!(a.arch, b.arch);
    assert_eq!(a.maintainer, b.maintainer);
}

#[test]
fn description_continuation_lines() {
    let p = one("Package: x\nVersion: 1.0\nDescription: first\n second\n third\n");
    assert_eq!(p.description, b"first\nsecond\nthird".to_vec());
}

#[test]
fn continuation_before_description_has_no_effect() {
    let p = one("Package: x\n stray continuation\nVersion: 1.0\nDescription: d\n");
    assert_eq!(p.description, b"d".to_vec());
}

#[test]
fn continuation_after_other_field_has_no_effect() {
    let p = one("Package: x\nVersion: 1.0\nDescription: d\nMaintainer: m\n more\n");
    assert_eq!(p.description, b"d".to_vec());
    assert_eq!(p.maintainer, b"m".to_vec());
}

#[test]
fn unrecognized_lines_are_ignored() {
    let p = one("Package: x\nVersion: 1.0\nX-Unknown-Field: whatever\nSection: games\n");
    assert_eq!(p.name, b"x".to_vec());
}

#[test]
fn two_stanzas_two_records_each_with_own_fields() {
    let text = "Package: one\nVersion: 1.0\nDepends: liba\n\nPackage: two\nVersion: 2.0\nMaintainer: m2\n";
    let ps = parse_control(text.as_bytes()).unwrap();
    assert_eq!(ps.len(), 2);
    assert_eq!(ps[0].name, b"one".to_vec());
    assert_eq!(ps[0].deps, b"liba".to_vec());
    assert_eq!(ps[0].maintainer, b"".to_vec());
    assert_eq!(ps[1].name, b"two".to_vec());
    assert_eq!(ps[1].deps, b"".to_vec());
    assert_eq!(ps[1].maintainer, b"m2".to_vec());
}

#[test]
fn malformed_version_fails_whole_batch() {
    let text = "Package: one\nVersion: 1.0\n\nPackage: two\nVersion: not a version\n";
    match parse_control(text.as_bytes()) {
        Err(PkgError::InvalidVersion) => {}
        other => panic!("expected InvalidVersion, got {:?}", other),
    }
}

#[test]
fn missing_version_fails() {
    match parse_control(b"Package: x\nMaintainer: m\n") {
        Err(PkgError::InvalidVersion) => {}
        other => panic!("expected InvalidVersion, got {:?}", other),
    }
}

#[test]
fn empty_input_gives_no_records() {
    let ps = parse_control(b"").unwrap();
    assert_eq!(ps.len(), 0);
    let ps = parse_control(b"Section: misc\nPriority: optional\n").unwrap();
    assert_eq!(ps.len(), 0);
}

#[test]
fn crlf_lines_are_accepted() {
    let p = one("Package: x\r\nVersion: 1.0\r\n");
    assert_eq!(p.name, b"x".to_vec());
    assert_eq!(p.version, Version::new("1.0".to_string()).unwrap());
}
