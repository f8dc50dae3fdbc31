use vstd::prelude::*;

use crate::version::{ver_text, ReqVer, SemVer, Upper};
use vstd::string::StringExecFns;

verus! {

/// The comparison operator of one clause of a version requirement.
#[derive(Clone, Copy, PartialEq, Eq, Structural, Debug)]
pub enum CmpOp {
    Exact,
    Greater,
    GreaterEq,
    Less,
    LessEq,
    Tilde,
    Caret,
    Wildcard,
}

/// One clause of a version requirement, as the requirement syntax writes it.
#[derive(Clone, Copy, PartialEq, Eq, Structural, Debug)]
pub struct Clause {
    pub op: CmpOp,
    pub major: u64,
    pub minor: Option<u64>,
    pub patch: Option<u64>,
}

/// Why a requirement could not be turned into a range.
#[derive(Clone, Copy, PartialEq, Eq, Structural, Debug)]
pub enum RangeError {
    /// The text is not a version requirement.
    Syntax,
    /// The operator has no range form here (`>`, `<=`, `~`, `^`, `*`).
    Unsupported(CmpOp),
    /// The clause leaves out the minor or the patch component.
    Partial,
    /// A component does not fit a version component.
    TooLarge,
}

/// What the requirement syntax reads from a text: its clauses in the order
/// written, or nothing if the text is not a requirement.
pub uninterp spec fn req_clauses(text: Seq<char>) -> Option<Seq<Clause>>;

pub open spec fn fits(n: u64) -> bool {
    n <= 32767
}

/// The range of one clause.
pub open spec fn clause_range(c: Clause) -> Result<ReqVer, RangeError> {
    match (c.minor, c.patch) {
        (Some(mi), Some(pa)) => {
            if !(fits(c.major) && fits(mi) && fits(pa)) {
                Err(RangeError::TooLarge)
            } else {
                let v = SemVer(c.major as i16, mi as i16, pa as i16);
                match c.op {
                    CmpOp::Exact => Ok(ReqVer { lo: Some(v), hi: Some(Upper::Incl(v)) }),
                    CmpOp::GreaterEq => Ok(ReqVer { lo: Some(v), hi: None }),
                    CmpOp::Less => Ok(ReqVer { lo: None, hi: Some(Upper::Excl(v)) }),
                    op => Err(RangeError::Unsupported(op)),
                }
            }
        },
        _ => Err(RangeError::Partial),
    }
}

/// The intersection of the ranges of the clauses, starting from the unbounded
/// range; the first clause that has no range gives the error.
pub open spec fn clauses_range(s: Seq<Clause>) -> Result<ReqVer, RangeError>
    decreases s.len(),
{
    if s.len() == 0 {
        Ok(ReqVer::full())
    } else {
        match clauses_range(s.drop_last()) {
            Err(e) => Err(e),
            Ok(r) => match clause_range(s.last()) {
                Err(e) => Err(e),
                Ok(c) => Ok(r.meet(c)),
            },
        }
    }
}

/// The range that a requirement text stands for.
pub open spec fn text_range(text: Seq<char>) -> Result<ReqVer, RangeError> {
    match req_clauses(text) {
        None => Err(RangeError::Syntax),
        Some(s) => clauses_range(s),
    }
}

/// Relies on semver::VersionReq::parse: reads the comparators of a
/// requirement text, each with its operator and its components (pre-release
/// tags are not kept; operators that semver may add later read as `*`).
#[verifier::external_body]
fn read_req(text: &str) -> (r: Option<Vec<Clause>>)
    ensures
        match r {
            Some(v) => req_clauses(text@) == Some(v@),
            None => req_clauses(text@) is None,
        },
{
    let req = semver::VersionReq::parse(text).ok()?;
    Some(req.comparators.iter().map(|c| {
        let op = match c.op {
            semver::Op::Exact => CmpOp::Exact,
            semver::Op::Greater => CmpOp::Greater,
            semver::Op::GreaterEq => CmpOp::GreaterEq,
            semver::Op::Less => CmpOp::Less,
            semver::Op::LessEq => CmpOp::LessEq,
            semver::Op::Tilde => CmpOp::Tilde,
            semver::Op::Caret => CmpOp::Caret,
            _ => CmpOp::Wildcard,
        };
        Clause { op, major: c.major, minor: c.minor, patch: c.patch }
    }).collect())
}

/// The range of one clause.
pub fn to_range(c: &Clause) -> (r: Result<ReqVer, RangeError>)
    ensures
        r == clause_range(*c),
{
    match (c.minor, c.patch) {
        (Some(mi), Some(pa)) => {
            if !(c.major <= 32767 && mi <= 32767 && pa <= 32767) {
                return Err(RangeError::TooLarge);
            }
            let v = SemVer(c.major as i16, mi as i16, pa as i16);
            match c.op {
                CmpOp::Exact => Ok(ReqVer::exact(v)),
                CmpOp::GreaterEq => Ok(ReqVer::ge(v)),
                CmpOp::Less => Ok(ReqVer::lt(v)),
                op => Err(RangeError::Unsupported(op)),
            }
        },
        _ => Err(RangeError::Partial),
    }
}

/// The intersection of the ranges of all clauses.
pub fn range_of_clauses(cs: &Vec<Clause>) -> (r: Result<ReqVer, RangeError>)
    ensures
        r == clauses_range(cs@),
{
    let mut rng = ReqVer::unbounded();
    let mut i: usize = 0;
    while i < cs.len()
        invariant
            i <= cs.len(),
            clauses_range(cs@.subrange(0, i as int)) == Ok::<ReqVer, RangeError>(rng),
        decreases cs.len() - i,
    {
        let c = to_range(&cs[i]);
        proof {
            assert(cs@.subrange(0, i + 1).drop_last() =~= cs@.subrange(0, i as int));
        }
        match c {
            Err(e) => {
                proof {
                    lemma_error_stays(cs@, i as int + 1);
                }
                return Err(e);
            },
            Ok(n) => {
                rng = rng.intersect(&n);
            },
        }
        i = i + 1;
    }
    assert(cs@.subrange(0, cs.len() as int) =~= cs@);
    Ok(rng)
}

/// Once a prefix of the clauses fails, the whole list fails the same way.
proof fn lemma_error_stays(s: Seq<Clause>, k: int)
    requires
        0 <= k <= s.len(),
        clauses_range(s.subrange(0, k)) is Err,
    ensures
        clauses_range(s) == clauses_range(s.subrange(0, k)),
    decreases s.len() - k,
{
    if k == s.len() {
        assert(s.subrange(0, k) =~= s);
    } else {
        assert(s.subrange(0, k + 1).drop_last() =~= s.subrange(0, k));
        lemma_error_stays(s, k + 1);
    }
}

/// Reads a requirement text, such as `>=1.0.0, <2.0.0`, into a range.
pub fn parse_range(text: &str) -> (r: Result<ReqVer, RangeError>)
    ensures
        r == text_range(text@),
{
    match read_req(text) {
        None => Err(RangeError::Syntax),
        Some(cs) => range_of_clauses(&cs),
    }
}

/// A range that the clause syntax can write: non-negative bounds, and an
/// inclusive upper end only where it equals the lower end.
pub open spec fn canonical(r: ReqVer) -> bool {
    &&& match r.lo {
        Some(l) => l.0 >= 0 && l.1 >= 0 && l.2 >= 0,
        None => true,
    }
    &&& match r.hi {
        Some(Upper::Excl(h)) => h.0 >= 0 && h.1 >= 0 && h.2 >= 0,
        Some(Upper::Incl(h)) => r.lo == Some(h),
        None => true,
    }
}

pub open spec fn clause_of(op: CmpOp, v: SemVer) -> Clause {
    Clause { op, major: v.0 as u64, minor: Some(v.1 as u64), patch: Some(v.2 as u64) }
}

/// The clauses that write a canonical range: `=v` for a single version,
/// else `>=lo` and `<hi` for the bounds that are present.
pub open spec fn clauses_of(r: ReqVer) -> Seq<Clause> {
    match (r.lo, r.hi) {
        (Some(l), Some(Upper::Incl(_))) => seq![clause_of(CmpOp::Exact, l)],
        (Some(l), Some(Upper::Excl(h))) => seq![
            clause_of(CmpOp::GreaterEq, l),
            clause_of(CmpOp::Less, h),
        ],
        (Some(l), None) => seq![clause_of(CmpOp::GreaterEq, l)],
        (None, Some(Upper::Excl(h))) => seq![clause_of(CmpOp::Less, h)],
        _ => seq![],
    }
}

/// Writing a canonical range as clauses and reading them back gives the same range.
pub proof fn lemma_clauses_round_trip(r: ReqVer)
    requires
        canonical(r),
    ensures
        clauses_range(clauses_of(r)) == Ok::<ReqVer, RangeError>(r),
{
    let s = clauses_of(r);
    reveal_with_fuel(clauses_range, 3);
    if s.len() == 2 {
        assert(s.drop_last().drop_last() =~= Seq::<Clause>::empty());
    } else if s.len() == 1 {
        assert(s.drop_last() =~= Seq::<Clause>::empty());
    }
}

/// The requirement text of a canonical range: `=v` for a single version,
/// `>=lo` and `<hi` joined by `, `, or `*` for the unbounded range.
pub open spec fn req_text(r: ReqVer) -> Seq<char> {
    match (r.lo, r.hi) {
        (Some(l), Some(Upper::Incl(_))) => seq!['='] + ver_text(l),
        (Some(l), Some(Upper::Excl(h))) => seq!['>', '='] + ver_text(l) + seq![',', ' ', '<']
            + ver_text(h),
        (Some(l), None) => seq!['>', '='] + ver_text(l),
        (None, Some(Upper::Excl(h))) => seq!['<'] + ver_text(h),
        _ => seq!['*'],
    }
}

fn non_negative(v: &SemVer) -> (r: bool)
    ensures
        r == (v.0 >= 0 && v.1 >= 0 && v.2 >= 0),
{
    v.0 >= 0 && v.1 >= 0 && v.2 >= 0
}

impl ReqVer {
    /// The range written in the requirement syntax, for a range that the
    /// syntax can write.
    pub fn to_req_text(&self) -> (r: Option<String>)
        ensures
            r is Some <==> canonical(*self),
            r matches Some(t) ==> t@ == req_text(*self),
    {
        let lo_ok = match self.lo {
            Some(l) => non_negative(&l),
            None => true,
        };
        let hi_ok = match self.hi {
            Some(Upper::Excl(h)) => non_negative(&h),
            Some(Upper::Incl(h)) => self.lo == Some(h),
            None => true,
        };
        if !(lo_ok && hi_ok) {
            return None;
        }
        let mut t = String::new();
        match (self.lo, self.hi) {
            (Some(l), Some(Upper::Incl(_))) => {
                t.append("=");
                t.append(l.to_text().as_str());
            },
            (Some(l), Some(Upper::Excl(h))) => {
                t.append(">=");
                t.append(l.to_text().as_str());
                t.append(", <");
                t.append(h.to_text().as_str());
            },
            (Some(l), None) => {
                t.append(">=");
                t.append(l.to_text().as_str());
            },
            (None, Some(Upper::Excl(h))) => {
                t.append("<");
                t.append(h.to_text().as_str());
            },
            _ => {
                t.append("*");
            },
        }
        proof {
            reveal_strlit("=");
            reveal_strlit(">=");
            reveal_strlit(", <");
            reveal_strlit("<");
            reveal_strlit("*");
            assert(t@ =~= req_text(*self));
        }
        Some(t)
    }
}

} // verus!
