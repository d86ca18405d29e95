use pkg::backend::{
    extract_deb, extract_deb_full, format_pkg_info, DebFile, InstallMachine, InstallPhase,
    Outcome,
};
use pkg::control::parse_control;
use pkg::{Action, PkgError};

const CONTROL: &str = "Package: hello\nVersion: 2.10-3\nArchitecture: amd64\nDepends: libc6 (>= 2.7)\nMaintainer: Jane Doe\nDescription: a friendly greeter\n and a second line\n";

fn machine() -> InstallMachine {
    let deb = DebFile::new("/tmp/hello.deb");
    InstallMachine::new(&deb, b"/r".to_vec(), b"/scratch/meta".to_vec(), b"/scratch/pay".to_vec())
}

#[test]
fn extract_commands() {
    let deb = DebFile::new("/tmp/hello.deb");
    assert_eq!(
        extract_deb_full(&deb, b"/out"),
        b"dpkg-deb -R /tmp/hello.deb /out".to_vec()
    );
    assert_eq!(extract_deb(&deb, b"/out"), b"dpkg-deb -x /tmp/hello.deb /out".to_vec());
}

#[test]
fn install_happy_path_writes_pkg_info_last() {
    let mut m = machine();
    // metadata extraction
    match m.next_action() {
        Some(Action::Run(c)) => {
            assert_eq!(c, b"dpkg-deb -R /tmp/hello.deb /scratch/meta".to_vec())
        }
        other => panic!("unexpected action {:?}", other),
    }
    m.step(Outcome::Success);
    // control file read
    match m.next_action() {
        Some(Action::ReadFile(p)) => assert_eq!(p, b"/scratch/meta/DEBIAN/control".to_vec()),
        other => panic!("unexpected action {:?}", other),
    }
    m.step(Outcome::Output(CONTROL.as_bytes().to_vec()));
    // payload extraction
    match m.next_action() {
        Some(Action::Run(c)) => {
            assert_eq!(c, b"dpkg-deb -x /tmp/hello.deb /scratch/pay".to_vec())
        }
        other => panic!("unexpected action {:?}", other),
    }
    m.step(Outcome::Success);
    // payload copy into the destination directory
    match m.next_action() {
        Some(Action::Run(c)) => assert_eq!(
            c,
            b"mkdir -p /r/System/Packages/hello---2.10-3 && cp -r /scratch/pay/* /r/System/Packages/hello---2.10-3"
                .to_vec()
        ),
        other => panic!("unexpected action {:?}", other),
    }
    m.step(Outcome::Success);
    // the metadata record, written only now
    match m.next_action() {
        Some(Action::WriteFile(path, text)) => {
            assert_eq!(path, b"/r/System/Packages/hello---2.10-3/pkg-info".to_vec());
            let text = String::from_utf8(text).unwrap();
            assert!(text.contains("Name = 'hello'"));
            assert!(text.contains("Version = '2.10-3'"));
            assert!(text.contains("Architecture = 'amd64'"));
            assert!(text.contains("Depends = 'libc6 (>= 2.7)'"));
            assert!(text.contains("Description = '''a friendly greeter\nand a second line'''"));
            assert!(text.contains("source = 'deb'"));
        }
        other => panic!("unexpected action {:?}", other),
    }
    m.step(Outcome::Success);
    assert_eq!(m.phase(), InstallPhase::Done);
    assert!(m.next_action().is_none());
    let p = m.into_result().unwrap();
    assert_eq!(p.name, b"hello".to_vec());
    // the record's source location is the archive it came from
    assert_eq!(p.path, b"/tmp/hello.deb".to_vec());
}

#[test]
fn install_failed_copy_never_writes_pkg_info() {
    let mut m = machine();
    let mut wrote = false;
    let mut steps = 0;
    while let Some(action) = m.next_action() {
        steps += 1;
        assert!(steps < 10);
        match action {
            Action::ReadFile(_) => m.step(Outcome::Output(CONTROL.as_bytes().to_vec())),
            Action::Run(c) => {
                if c.starts_with(b"mkdir -p ") {
                    // the payload copy is forced to fail
                    m.step(Outcome::Failure);
                } else {
                    m.step(Outcome::Success);
                }
            }
            Action::WriteFile(..) => {
                wrote = true;
                m.step(Outcome::Success);
            }
        }
    }
    assert!(!wrote);
    assert_eq!(m.phase(), InstallPhase::Failed);
    match m.into_result() {
        Err(PkgError::IOError(path)) => {
            assert_eq!(path, b"/r/System/Packages/hello---2.10-3".to_vec());
        }
        other => panic!("expected IOError, got {:?}", other),
    }
}

#[test]
fn install_failed_extraction_reports_the_archive() {
    let mut m = machine();
    assert!(m.next_action().is_some());
    m.step(Outcome::Failure);
    assert_eq!(m.phase(), InstallPhase::Failed);
    match m.into_result() {
        Err(PkgError::ExtractionError(path)) => {
            assert_eq!(path, b"/tmp/hello.deb".to_vec());
        }
        other => panic!("expected ExtractionError, got {:?}", other),
    }
}

#[test]
fn install_empty_control_is_a_parse_error() {
    let mut m = machine();
    assert!(m.next_action().is_some());
    m.step(Outcome::Success);
    assert!(m.next_action().is_some());
    m.step(Outcome::Output(b"Section: misc\n".to_vec()));
    assert_eq!(m.phase(), InstallPhase::Failed);
    match m.into_result() {
        Err(PkgError::ParseError) => {}
        other => panic!("expected ParseError, got {:?}", other),
    }
}

#[test]
fn pkg_info_document_exact_text() {
    let mut ps = parse_control(b"Package: x\nVersion: 1.0-1\nArchitecture: all\nMaintainer: m\nDescription: d\n").unwrap();
    let p = ps.pop().unwrap();
    let doc = String::from_utf8(format_pkg_info(&p)).unwrap();
    let expected = "InfoType = 1\nDepsIncluded = false\n\n[Package]\nName = 'x'\nVersion = '1.0-1'\nArchitecture = 'all'\nDepends = ''\nRecommends = ''\nSuggests = ''\nPre-Depends = ''\nEnhances = ''\nMaintainer = 'm'\nDescription = '''d'''\n\n[Other]\nsource = 'deb'";
    assert_eq!(doc, expected);
}

#[test]
fn equal_versions_install_to_the_same_directory() {
    // textually different but comparison-equal version texts name the same
    // destination directory
    let mut dests: Vec<Vec<u8>> = Vec::new();
    for version_text in ["1.0-0", "1.0", "0:1.00"] {
        let mut m = machine();
        m.next_action();
        m.step(Outcome::Success);
        m.next_action();
        let control = format!("Package: hello\nVersion: {}\n", version_text);
        m.step(Outcome::Output(control.into_bytes()));
        m.next_action();
        m.step(Outcome::Success);
        match m.next_action() {
            Some(Action::Run(c)) => dests.push(c),
            other => panic!("unexpected action {:?}", other),
        }
    }
    assert_eq!(dests[0], b"mkdir -p /r/System/Packages/hello---1.0 && cp -r /scratch/pay/* /r/System/Packages/hello---1.0".to_vec());
    assert_eq!(dests[1], dests[0]);
    assert_eq!(dests[2], dests[0]);
}
