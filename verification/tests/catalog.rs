use pkg::frontend::{
    parse_index_manifest, read_apt_sources_list, read_package_lists, PackageSource, UpdateMachine,
    UpdatePhase,
};
use pkg::{Action, PkgError};

fn sources(text: &str) -> Vec<PackageSource> {
    read_apt_sources_list(text.as_bytes())
}

#[test]
fn sources_list_well_formed_line_round_trips() {
    let ss = sources("deb http://deb.example.test/debian stable main\n");
    assert_eq!(ss.len(), 1);
    assert_eq!(ss[0].source_type, b"deb".to_vec());
    assert_eq!(ss[0].url, b"http://deb.example.test/debian".to_vec());
    assert_eq!(ss[0].dist, b"stable".to_vec());
    assert_eq!(ss[0].subtype, b"main".to_vec());
}

#[test]
fn sources_list_skips_three_and_five_field_lines() {
    let ss = sources(
        "deb http://a.test/debian stable\ndeb http://b.test/debian stable main extra\ndeb http://c.test/debian sid main\n",
    );
    assert_eq!(ss.len(), 1);
    assert_eq!(ss[0].url, b"http://c.test/debian".to_vec());
}

#[test]
fn sources_list_keeps_configured_order() {
    let ss = sources("deb u1 d1 c1\ndeb-src u2 d2 c2\ndeb u3 d3 c3\n");
    assert_eq!(ss.len(), 3);
    assert_eq!(ss[0].url, b"u1".to_vec());
    assert_eq!(ss[1].source_type, b"deb-src".to_vec());
    assert_eq!(ss[2].url, b"u3".to_vec());
}

/// Drives the machine, failing the downloads whose (zero-based) order among
/// the download actions appears in `fail_downloads`; returns every action
/// it was asked to perform, paired with the outcome it reported.
fn drive(mut m: UpdateMachine, fail_downloads: &[usize]) -> (Vec<(Action, bool)>, Result<(), PkgError>) {
    let mut log: Vec<(Action, bool)> = Vec::new();
    let mut downloads = 0usize;
    while let Some(action) = m.next_action() {
        let ok = match &action {
            Action::Run(cmd) => {
                if cmd.starts_with(b"wget ") {
                    let ok = !fail_downloads.contains(&downloads);
                    downloads += 1;
                    ok
                } else {
                    true
                }
            }
            _ => true,
        };
        log.push((action, ok));
        m.step(ok);
    }
    (log, m.into_result())
}

#[test]
fn update_happy_path_end_to_end() {
    // the example end to end: one configured source, everything succeeds
    let ss = sources("deb http://example.test/debian stable main\n");
    let m = UpdateMachine::new(b"/r".to_vec(), ss, b"amd64".to_vec());
    let (log, result) = drive(m, &[]);
    assert!(result.is_ok());
    let cmds: Vec<&Action> = log.iter().map(|(a, _)| a).collect();
    // backup, clear, recreate, fetch, decompress, write the manifest
    match cmds[0] {
        Action::Run(c) => assert_eq!(c, &b"rm -rf /r/System/Cache/Packages.bak".to_vec()),
        other => panic!("unexpected action {:?}", other),
    }
    match cmds[4] {
        Action::Run(c) => assert_eq!(
            c,
            &b"wget http://example.test/debian/dists/stable/main/binary-amd64/Packages.gz -O /r/System/Cache/Packages/0.gz"
                .to_vec()
        ),
        other => panic!("unexpected action {:?}", other),
    }
    match cmds[5] {
        Action::Run(c) => assert_eq!(c, &b"gzip -d /r/System/Cache/Packages/0.gz".to_vec()),
        other => panic!("unexpected action {:?}", other),
    }
    match cmds[6] {
        Action::WriteFile(path, text) => {
            assert_eq!(path, &b"/r/System/Cache/Packages/index".to_vec());
            assert_eq!(text, &b"0 http://example.test/debian stable main\n".to_vec());
        }
        other => panic!("unexpected action {:?}", other),
    }
    assert_eq!(log.len(), 7);
}

#[test]
fn update_failed_download_rolls_back_and_writes_no_index() {
    // three deb sources, the second download is forced to fail
    let ss = sources("deb u1 d1 c1\ndeb u2 d2 c2\ndeb u3 d3 c3\n");
    let m = UpdateMachine::new(b"/r".to_vec(), ss, b"amd64".to_vec());
    let (log, result) = drive(m, &[1]);
    // the error names the failing source's index URL
    match result {
        Err(PkgError::TransportError(url)) => {
            assert_eq!(url, b"u2/dists/d2/c2/binary-amd64/Packages.gz".to_vec());
        }
        other => panic!("expected TransportError, got {:?}", other),
    }
    // the index manifest is never created or updated
    assert!(log.iter().all(|(a, _)| !matches!(a, Action::WriteFile(..))));
    // the half-built catalog is deleted and the backup restored, in order
    let n = log.len();
    match &log[n - 2].0 {
        Action::Run(c) => assert_eq!(c, &b"rm -rf /r/System/Cache/Packages".to_vec()),
        other => panic!("unexpected action {:?}", other),
    }
    match &log[n - 1].0 {
        Action::Run(c) => assert_eq!(
            c,
            &b"mkdir -p /r/System/Cache/Packages && cp -r /r/System/Cache/Packages.bak/* /r/System/Cache/Packages"
                .to_vec()
        ),
        other => panic!("unexpected action {:?}", other),
    }
    // and no third download was attempted
    let wgets = log
        .iter()
        .filter(|(a, _)| matches!(a, Action::Run(c) if c.starts_with(b"wget ")))
        .count();
    assert_eq!(wgets, 2);
}

#[test]
fn update_skips_non_deb_sources_and_numbers_deb_sources() {
    let ss = sources("deb-src u0 d0 c0\ndeb u1 d1 c1\ndeb u2 d2 c2\n");
    let m = UpdateMachine::new(b"/r".to_vec(), ss, b"arm64".to_vec());
    let (log, result) = drive(m, &[]);
    assert!(result.is_ok());
    match log.last().map(|(a, _)| a) {
        Some(Action::WriteFile(_, text)) => {
            assert_eq!(text, &b"0 u1 d1 c1\n1 u2 d2 c2\n".to_vec());
        }
        other => panic!("unexpected action {:?}", other),
    }
}

#[test]
fn update_with_no_deb_sources_writes_empty_manifest() {
    let ss = sources("deb-src u0 d0 c0\n");
    let m = UpdateMachine::new(b"/r".to_vec(), ss, b"amd64".to_vec());
    let (log, result) = drive(m, &[]);
    assert!(result.is_ok());
    match log.last().map(|(a, _)| a) {
        Some(Action::WriteFile(path, text)) => {
            assert_eq!(path, &b"/r/System/Cache/Packages/index".to_vec());
            assert_eq!(text, &b"".to_vec());
        }
        other => panic!("unexpected action {:?}", other),
    }
}

#[test]
fn update_early_io_failure_fails_without_rollback() {
    let ss = sources("deb u1 d1 c1\n");
    let mut m = UpdateMachine::new(b"/r".to_vec(), ss, b"amd64".to_vec());
    // the first action clears the backup; report that it failed
    assert!(matches!(m.next_action(), Some(Action::Run(_))));
    m.step(false);
    assert_eq!(m.phase(), UpdatePhase::Failed);
    match m.into_result() {
        Err(PkgError::IOError(path)) => {
            assert_eq!(path, b"/r/System/Cache/Packages.bak".to_vec());
        }
        other => panic!("expected IOError, got {:?}", other),
    }
}

#[test]
fn index_manifest_round_trip() {
    let entries = parse_index_manifest(b"0 http://example.test/debian stable main\n1 u d c\n");
    assert_eq!(entries.len(), 2);
    assert_eq!(entries[0].file, b"0".to_vec());
    assert_eq!(entries[0].url, b"http://example.test/debian".to_vec());
    assert_eq!(entries[1].file, b"1".to_vec());
    assert_eq!(entries[1].subtype, b"c".to_vec());
}

#[test]
fn read_package_lists_concatenates_in_order() {
    let lists = vec![
        b"Package: a\nVersion: 1.0\n\nPackage: b\nVersion: 2.0\n".to_vec(),
        b"Package: c\nVersion: 3.0\n".to_vec(),
    ];
    let ps = read_package_lists(&lists).unwrap();
    assert_eq!(ps.len(), 3);
    assert_eq!(ps[0].name, b"a".to_vec());
    assert_eq!(ps[1].name, b"b".to_vec());
    assert_eq!(ps[2].name, b"c".to_vec());
}

#[test]
fn read_package_lists_fails_on_one_bad_list() {
    let lists = vec![
        b"Package: a\nVersion: 1.0\n".to_vec(),
        b"Package: bad\nVersion: !!\n".to_vec(),
    ];
    match read_package_lists(&lists) {
        Err(PkgError::InvalidVersion) => {}
        other => panic!("expected InvalidVersion, got {:?}", other),
    }
}
