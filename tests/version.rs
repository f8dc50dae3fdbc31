use netherite::req::{parse_range, CmpOp, RangeError};
use netherite::version::{ReqVer, SemVer, Upper, VersionError};

fn v(a: i16, b: i16, c: i16) -> SemVer {
    SemVer(a, b, c)
}

fn range(lo: Option<SemVer>, hi: Option<Upper>) -> ReqVer {
    ReqVer { lo, hi }
}

#[test]
fn intersect_is_commutative_associative_idempotent() {
    let a = range(Some(v(1, 0, 0)), Some(Upper::Excl(v(3, 0, 0))));
    let b = range(Some(v(2, 0, 0)), Some(Upper::Incl(v(3, 0, 0))));
    let c = range(None, Some(Upper::Incl(v(2, 5, 0))));
    assert_eq!(a.intersect(&b), b.intersect(&a));
    assert_eq!(a.intersect(&b).intersect(&c), a.intersect(&b.intersect(&c)));
    assert_eq!(a.intersect(&a), a);
    assert_eq!(a.intersect(&ReqVer::unbounded()), a);
    assert_eq!(ReqVer::unbounded().intersect(&b), b);
    assert_eq!(
        a.intersect(&b),
        range(Some(v(2, 0, 0)), Some(Upper::Excl(v(3, 0, 0))))
    );
}

#[test]
fn intersect_can_be_empty() {
    let a = ReqVer::ge(v(2, 0, 0));
    let b = ReqVer::lt(v(1, 0, 0));
    let r = a.intersect(&b);
    assert!(r.is_empty());
    assert!(!v(1, 5, 0).within(r));
    assert!(ReqVer::exact(v(1, 0, 0)).intersect(&ReqVer::lt(v(1, 0, 0))).is_empty());
    assert!(!ReqVer::exact(v(1, 0, 0)).is_empty());
}

#[test]
fn unbounded_contains_every_version() {
    for x in [v(0, 0, 0), v(-32768, -32768, -32768), v(32767, 32767, 32767), v(1, 2, 3)] {
        assert!(x.within(ReqVer::unbounded()));
    }
}

#[test]
fn within_checks_both_bounds() {
    let r = range(Some(v(1, 0, 0)), Some(Upper::Excl(v(2, 0, 0))));
    assert!(v(1, 0, 0).within(r));
    assert!(v(1, 9, 9).within(r));
    assert!(!v(2, 0, 0).within(r));
    assert!(!v(0, 9, 9).within(r));
    assert!(v(2, 0, 0).within(ReqVer::le(v(2, 0, 0))));
    assert!(!v(2, 0, 1).within(ReqVer::le(v(2, 0, 0))));
    assert!(v(5, 0, 0).within(ReqVer::ge(v(2, 0, 0))));
}

#[test]
fn parse_range_conjunction() {
    let r = parse_range(">=1.0.0, <2.0.0").unwrap();
    assert_eq!(r, range(Some(v(1, 0, 0)), Some(Upper::Excl(v(2, 0, 0)))));
    assert_eq!(parse_range("=1.2.3").unwrap(), ReqVer::exact(v(1, 2, 3)));
    assert_eq!(parse_range("*").unwrap(), ReqVer::unbounded());
}

#[test]
fn parse_range_round_trip() {
    let ranges = [
        range(Some(v(1, 0, 0)), Some(Upper::Excl(v(2, 0, 0)))),
        range(Some(v(1, 2, 3)), None),
        range(None, Some(Upper::Excl(v(4, 5, 6)))),
        ReqVer::exact(v(0, 1, 0)),
        ReqVer::unbounded(),
        range(Some(v(3, 0, 0)), Some(Upper::Excl(v(2, 0, 0)))),
    ];
    for r in ranges {
        let text = r.to_req_text().unwrap();
        assert_eq!(parse_range(&text).unwrap(), r);
    }
    assert_eq!(ranges[0].to_req_text().unwrap(), ">=1.0.0, <2.0.0");
    assert_eq!(ranges[3].to_req_text().unwrap(), "=0.1.0");
    assert_eq!(ranges[4].to_req_text().unwrap(), "*");
}

#[test]
fn only_canonical_ranges_have_requirement_text() {
    assert!(ReqVer::le(v(1, 0, 0)).to_req_text().is_none());
    assert!(ReqVer::ge(v(-1, 0, 0)).to_req_text().is_none());
    assert!(range(Some(v(1, 0, 0)), Some(Upper::Incl(v(2, 0, 0)))).to_req_text().is_none());
}

#[test]
fn parse_range_refuses_unsupported_forms() {
    assert_eq!(parse_range(">1.0.0"), Err(RangeError::Unsupported(CmpOp::Greater)));
    assert_eq!(parse_range("<=1.0.0"), Err(RangeError::Unsupported(CmpOp::LessEq)));
    assert_eq!(parse_range("^1.0.0"), Err(RangeError::Unsupported(CmpOp::Caret)));
    assert_eq!(parse_range("~1.0.0"), Err(RangeError::Unsupported(CmpOp::Tilde)));
    assert_eq!(parse_range(">=1.0"), Err(RangeError::Partial));
    assert_eq!(parse_range(">=40000.0.0"), Err(RangeError::TooLarge));
    assert_eq!(parse_range("not a range"), Err(RangeError::Syntax));
}

#[test]
fn version_parse() {
    assert_eq!(SemVer::parse("1.2.3"), Ok(v(1, 2, 3)));
    assert_eq!(SemVer::parse("-1.+2.30"), Ok(v(-1, 2, 30)));
    assert_eq!("11.45.14".parse::<SemVer>(), Ok(v(11, 45, 14)));
    assert_eq!(SemVer::parse("1.2"), Err(VersionError::Length));
    assert_eq!(SemVer::parse("1.2.3.4"), Err(VersionError::Length));
    assert_eq!(SemVer::parse(""), Err(VersionError::Length));
    assert_eq!(SemVer::parse("a.b.c"), Err(VersionError::Syntax));
    assert_eq!(SemVer::parse("1..3"), Err(VersionError::Syntax));
    assert_eq!(SemVer::parse("40000.0.0"), Err(VersionError::Syntax));
}

#[test]
fn version_and_range_text() {
    assert_eq!(v(1, 2, 3).to_text(), "1.2.3");
    assert_eq!(v(-4, 0, 10).to_text(), "-4.0.10");
    assert_eq!(range(Some(v(1, 0, 0)), Some(Upper::Excl(v(2, 0, 0)))).to_text(), "[1.0.0,2.0.0)");
    assert_eq!(ReqVer::le(v(3, 0, 0)).to_text(), "(,3.0.0]");
    assert_eq!(ReqVer::unbounded().to_text(), "(,)");
}

#[test]
fn version_order() {
    assert!(v(1, 2, 3).precedes(&v(1, 3, 0)));
    assert!(!v(1, 3, 0).precedes(&v(1, 2, 9)));
    assert!(v(1, 2, 3).at_most(&v(1, 2, 3)));
    assert!(!v(2, 0, 0).at_most(&v(1, 9, 9)));
}
