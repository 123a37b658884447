//! Round trips, ordering and parsing of versions, ranges and package specs.

use pkgx::range::{Constraint, VersionRange};
use pkgx::semver::Version;
use pkgx::types::PackageReq;

#[test]
fn version_parse_to_string_roundtrip() {
    for s in ["1.2.3", "0", "10.0", "1.2.3.4", "003.1"] {
        let v = Version::parse(s).unwrap();
        assert_eq!(v.to_string(), s);
    }
}

#[test]
fn version_parse_rejects_bad_strings() {
    for s in ["", "1..2", "1.2.", ".1", "1.2a", "v1.2", "one", "18446744073709551616"] {
        assert!(Version::parse(s).is_err(), "{} should not parse", s);
    }
}

#[test]
fn version_component_bound_is_kept() {
    // The largest representable component parses; one more does not.
    assert!(Version::parse("18446744073709551615").is_ok());
    assert!(Version::parse("18446744073709551616").is_err());
}

#[test]
fn version_order_reads_missing_components_as_zero() {
    let a = Version::parse("1.2").unwrap();
    let b = Version::parse("1.2.0").unwrap();
    assert!(a.eq_ver(&b));
    assert!(!a.lt_ver(&b));
    let c = Version::parse("1.2.1").unwrap();
    assert!(a.lt_ver(&c));
    assert!(b.le_ver(&c));
    assert!(!c.le_ver(&a));
}

#[test]
fn range_parse_and_satisfies() {
    let r = VersionRange::parse("^1.2").unwrap();
    assert!(r.satisfies(&Version::parse("1.2.0").unwrap()));
    assert!(r.satisfies(&Version::parse("1.9.9").unwrap()));
    assert!(!r.satisfies(&Version::parse("2.0").unwrap()));
    assert!(!r.satisfies(&Version::parse("1.1").unwrap()));

    let r = VersionRange::parse("~1.2").unwrap();
    assert!(r.satisfies(&Version::parse("1.2.5").unwrap()));
    assert!(!r.satisfies(&Version::parse("1.3").unwrap()));

    let r = VersionRange::parse("=1.2.3").unwrap();
    assert!(r.satisfies(&Version::parse("1.2.3").unwrap()));
    assert!(!r.satisfies(&Version::parse("1.2.4").unwrap()));

    let r = VersionRange::parse(">=1.1<2.3").unwrap();
    assert!(r.satisfies(&Version::parse("1.1").unwrap()));
    assert!(r.satisfies(&Version::parse("2.2.9").unwrap()));
    assert!(!r.satisfies(&Version::parse("2.3").unwrap()));

    let r = VersionRange::parse("*").unwrap();
    assert!(r.satisfies(&Version::parse("0.0.1").unwrap()));

    let r = VersionRange::parse("@1.2").unwrap();
    assert!(r.satisfies(&Version::parse("1.2.9").unwrap()));
    assert!(!r.satisfies(&Version::parse("1.3").unwrap()));
}

#[test]
fn range_parse_rejects_bad_strings() {
    for s in ["", "abc", "^", ">=2<1", "<0", "= 1", "^x"] {
        assert!(VersionRange::parse(s).is_err(), "{} should not parse", s);
    }
}

#[test]
fn range_format_canonical_forms() {
    for s in ["*", "=1.2.3", "^1.2", "~1.2", "@1.2.3", ">=1.2<3.4", ">=1.5"] {
        let r = VersionRange::parse(s).unwrap();
        assert_eq!(r.format(), s, "canonical form of {}", s);
    }
    // A two-component bump form denotes the same interval as the tilde form
    // and canonicalizes to it; a whole-major interval canonicalizes to the
    // caret form.
    assert_eq!(VersionRange::parse("@1.2").unwrap().format(), "~1.2");
    assert_eq!(VersionRange::parse(">=1<2").unwrap().format(), "^1");
}

#[test]
fn range_caret_zero_forms() {
    // The zero caret denotes the whole zero major and canonicalizes to the
    // explicit interval.
    assert_eq!(VersionRange::parse("^0").unwrap().format(), ">=0<1");
    // ^0.2 bumps the minor; ^0.0.5 admits exactly itself.
    let r = VersionRange::parse("^0.2").unwrap();
    assert!(r.satisfies(&Version::parse("0.2.9").unwrap()));
    assert!(!r.satisfies(&Version::parse("0.3").unwrap()));
    let r = VersionRange::parse("^0.0.5").unwrap();
    assert!(r.satisfies(&Version::parse("0.0.5").unwrap()));
    assert!(!r.satisfies(&Version::parse("0.0.6").unwrap()));
}

#[test]
fn intersect_any_is_identity() {
    let r = VersionRange::parse("^1.2").unwrap();
    let any = VersionRange::any();
    let out = r.intersect(&any).unwrap();
    assert_eq!(out.format(), r.format());
    assert_eq!(out.constraints.len(), r.constraints.len());
}

#[test]
fn intersect_narrows_and_fails_when_empty() {
    let a = VersionRange::parse(">=1<3").unwrap();
    let b = VersionRange::parse(">=2<5").unwrap();
    let c = a.intersect(&b).unwrap();
    assert!(c.satisfies(&Version::parse("2.5").unwrap()));
    assert!(!c.satisfies(&Version::parse("1.5").unwrap()));
    assert!(!c.satisfies(&Version::parse("3.0").unwrap()));

    let d = VersionRange::parse(">=5<6").unwrap();
    assert!(a.intersect(&d).is_err());

    let s1 = VersionRange::parse("=1.2").unwrap();
    let s2 = VersionRange::parse("=1.3").unwrap();
    assert!(s1.intersect(&s2).is_err());
}

#[test]
fn package_req_parse_splits_at_first_operator() {
    let rq = PackageReq::parse("openssl.org@3").unwrap();
    assert_eq!(rq.project, "openssl.org");
    assert!(rq.constraint.satisfies(&Version::parse("3.2.1").unwrap()));
    assert!(!rq.constraint.satisfies(&Version::parse("4.0").unwrap()));

    let rq = PackageReq::parse("node@18").unwrap();
    assert_eq!(rq.project, "node");

    let rq = PackageReq::parse("  cmake.org  ").unwrap();
    assert_eq!(rq.project, "cmake.org");
    assert!(rq.constraint.satisfies(&Version::parse("0.1").unwrap()));
}

#[test]
fn package_req_roundtrip_canonical() {
    for (s, expect) in [
        ("openssl.org^3", "openssl.org^3"),
        ("node@18", "node^18"),
        ("cmake.org", "cmake.org*"),
        ("x.org=1.2.3", "x.org=1.2.3"),
        ("a.b~1.2", "a.b~1.2"),
        ("c.d>=1.2<3.4", "c.d>=1.2<3.4"),
    ] {
        let rq = PackageReq::parse(s).unwrap();
        assert_eq!(rq.format(), expect, "canonical form of {}", s);
    }
}

#[test]
fn package_req_trailing_operator_means_any() {
    // An operator with nothing after it belongs to the project name.
    let rq = PackageReq::parse("foo@").unwrap();
    assert_eq!(rq.project, "foo@");
    assert!(rq.constraint.satisfies(&Version::parse("9.9").unwrap()));
}

#[test]
fn package_req_parse_rejects_empty_and_bad() {
    assert!(PackageReq::parse("").is_err());
    assert!(PackageReq::parse("   ").is_err());
    assert!(PackageReq::parse("foo@x").is_err());
}

#[test]
fn constraint_format_single() {
    let v = Version::parse("1.2").unwrap();
    let c = Constraint::Single(v);
    assert_eq!(c.format(), "=1.2");
}
