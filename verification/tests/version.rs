use pkg::version::Version;
use pkg::PkgError;

#[test]
fn test_version_eq() {
    let v = Version::new("1.2.3".to_string()).unwrap();
    assert_eq!(v, Version::new("1.2.3".to_string()).unwrap());
}

#[test]
fn test_version_ne() {
    let v = Version::new("5.4.3".to_string()).unwrap();
    assert_ne!(v, Version::new("5.4.4".to_string()).unwrap());
}

#[test]
fn test_version_lt() {
    let v = Version::new("5.4.3".to_string()).unwrap();
    assert!(v.lt(&Version::new("5.4.4".to_string()).unwrap()));
    assert!(!v.lt(&Version::new("5.4.3".to_string()).unwrap()));
}

#[test]
fn test_version_gt() {
    let v = Version::new("5.4.4".to_string()).unwrap();
    assert!(v.gt(&Version::new("5.4.3".to_string()).unwrap()));
    assert!(!v.gt(&Version::new("5.4.4".to_string()).unwrap()));
    assert!(!v.gt(&Version::new("5.4.5".to_string()).unwrap()));
}

#[test]
fn test_version_le() {
    let v = Version::new("5.4.3".to_string()).unwrap();
    assert!(v.le(&Version::new("5.4.4".to_string()).unwrap()));
    assert!(v.le(&Version::new("5.4.3".to_string()).unwrap()));
}

#[test]
fn test_version_ge() {
    let v = Version::new("5.4.4".to_string()).unwrap();
    assert!(v.ge(&Version::new("5.4.3".to_string()).unwrap()));
    assert!(v.ge(&Version::new("5.4.4".to_string()).unwrap()));
}

#[test]
fn version_ordering_examples() {
    // revision, upstream and epoch dominance, in that order of weakness
    let a = Version::new("1.0-1".to_string()).unwrap();
    let b = Version::new("1.0-2".to_string()).unwrap();
    let c = Version::new("2.0-1".to_string()).unwrap();
    assert!(a.lt(&b));
    assert!(b.lt(&c));
    assert!(a.lt(&c));
    // the epoch dominates the upstream comparison
    let d = Version::new("1:1.0".to_string()).unwrap();
    let e = Version::new("2.0".to_string()).unwrap();
    assert!(d.gt(&e));
}

#[test]
fn version_tilde_sorts_before_release() {
    let rc = Version::new("1.0~rc1".to_string()).unwrap();
    let rel = Version::new("1.0".to_string()).unwrap();
    assert!(rc.lt(&rel));
    assert!(rel.gt(&rc));
}

#[test]
fn version_leading_zeros_do_not_break_equality() {
    let a = Version::new("1.02.3".to_string()).unwrap();
    let b = Version::new("1.2.03".to_string()).unwrap();
    assert_eq!(a, b);
    let c = Version::new("0:1.2.3".to_string()).unwrap();
    let d = Version::new("1.2.3".to_string()).unwrap();
    assert_eq!(c, d);
}

#[test]
fn version_canonical_round_trip() {
    for text in ["1.2.3", "1:2.3-4", "0:1.00-07", "1.0~rc1+dfsg", "2:1.0-1-1"] {
        let v = Version::new(text.to_string()).unwrap();
        let canon = v.canonical();
        let back = Version::from_bytes(&canon).unwrap();
        assert_eq!(v, back);
        // rendering the re-parsed value gives the same canonical text
        assert_eq!(back.canonical(), canon);
    }
}

#[test]
fn version_canonical_text() {
    let v = Version::new("1.00-07".to_string()).unwrap();
    assert_eq!(v.canonical(), b"1.0-7".to_vec());
    let w = Version::new("1:2.3".to_string()).unwrap();
    assert_eq!(w.canonical(), b"1:2.3".to_vec());
}

#[test]
fn equal_versions_render_the_same_canonical_text() {
    // comparison-equal versions always render identically, so the install
    // destination directory is the same whatever text the archive carried
    for (a, b) in [
        ("0:1.00-07", "1.0-7"),
        ("1.0a", "1.0a0"),
        ("1.0-0", "1.0"),
        ("1.0-00", "1.0-0"),
        ("0:1.2.3", "1.2.3"),
        ("00:1.0", "0:1.0"),
    ] {
        let va = Version::new(a.to_string()).unwrap();
        let vb = Version::new(b.to_string()).unwrap();
        assert_eq!(va, vb, "{} vs {}", a, b);
        assert_eq!(va.canonical(), vb.canonical(), "{} vs {}", a, b);
    }
}

#[test]
fn zero_parts_kept_when_the_upstream_needs_their_licence() {
    // an upstream colon is licensed only by a written epoch, an upstream
    // dash only by a written revision: there the zero part stays
    let v = Version::new("0:1:2".to_string()).unwrap();
    assert_eq!(v.canonical(), b"0:1:2".to_vec());
    let w = Version::new("1-2-0".to_string()).unwrap();
    assert_eq!(w.canonical(), b"1-2-0".to_vec());
    // and round-trips still hold
    assert_eq!(v, Version::from_bytes(&v.canonical()).unwrap());
    assert_eq!(w, Version::from_bytes(&w.canonical()).unwrap());
}

#[test]
fn version_trims_surrounding_whitespace() {
    let v = Version::new("  1.2.3\n".to_string()).unwrap();
    assert_eq!(v, Version::new("1.2.3".to_string()).unwrap());
}

#[test]
fn version_malformed_is_invalid() {
    for text in ["", "  ", "1.0 beta", "abc:1.0", ":1.0", "1.0-", "-1", "a_b", "1!2"] {
        match Version::new(text.to_string()) {
            Err(PkgError::InvalidVersion) => {}
            other => panic!("expected InvalidVersion for {:?}, got {:?}", text, other),
        }
    }
}

#[test]
fn version_compare_is_total_on_examples() {
    let texts = ["1.0", "1.0-1", "1:0.5", "2.0~beta", "2.0", "10.0", "1.0+b1"];
    for x in texts {
        for y in texts {
            let a = Version::new(x.to_string()).unwrap();
            let b = Version::new(y.to_string()).unwrap();
            let ab = a.compare(&b);
            let ba = b.compare(&a);
            assert_eq!(ab, -ba);
            assert!((-1..=1).contains(&ab));
            assert_eq!(ab == 0, a == b);
        }
    }
}

#[test]
fn version_trailing_letter_equals_trailing_zero() {
    // a missing digit run counts as zero
    let a = Version::new("1.0a".to_string()).unwrap();
    let b = Version::new("1.0a0".to_string()).unwrap();
    assert_eq!(a, b);
}

#[test]
fn version_shorter_is_earlier_when_prefix() {
    let a = Version::new("1.0".to_string()).unwrap();
    let b = Version::new("1.0.0".to_string()).unwrap();
    assert!(a.lt(&b));
    // but a tilde suffix sorts before the shorter form
    let c = Version::new("1.0~1".to_string()).unwrap();
    assert!(c.lt(&a));
}

#[test]
fn version_numeric_runs_compare_numerically() {
    let a = Version::new("1.9".to_string()).unwrap();
    let b = Version::new("1.10".to_string()).unwrap();
    assert!(a.lt(&b));
}
