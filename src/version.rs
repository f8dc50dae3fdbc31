use vstd::prelude::*;
use vstd::string::StringExecFns;

verus! {

/// A version: major, minor and patch, ordered component by component.
#[derive(Clone, Copy, PartialEq, Eq, Structural, Debug, Hash)]
pub struct SemVer(pub i16, pub i16, pub i16);

/// `a` comes strictly before `b` in the lexicographic order of the components.
pub open spec fn ver_lt(a: SemVer, b: SemVer) -> bool {
    a.0 < b.0 || (a.0 == b.0 && (a.1 < b.1 || (a.1 == b.1 && a.2 < b.2)))
}

pub open spec fn ver_le(a: SemVer, b: SemVer) -> bool {
    ver_lt(a, b) || a == b
}

/// The upper end of a range: inclusive or exclusive.
#[derive(Clone, Copy, PartialEq, Eq, Structural, Debug, Hash)]
pub enum Upper {
    Incl(SemVer),
    Excl(SemVer),
}

impl Upper {
    pub open spec fn at(self) -> SemVer {
        match self {
            Upper::Incl(v) => v,
            Upper::Excl(v) => v,
        }
    }
}

/// A set of versions: an optional inclusive lower bound and an optional upper bound.
#[derive(Clone, Copy, PartialEq, Eq, Structural, Debug, Hash)]
pub struct ReqVer {
    pub lo: Option<SemVer>,
    pub hi: Option<Upper>,
}

pub open spec fn above_lo(lo: Option<SemVer>, v: SemVer) -> bool {
    match lo {
        Some(l) => ver_le(l, v),
        None => true,
    }
}

pub open spec fn below_hi(hi: Option<Upper>, v: SemVer) -> bool {
    match hi {
        Some(Upper::Incl(h)) => ver_le(v, h),
        Some(Upper::Excl(h)) => ver_lt(v, h),
        None => true,
    }
}

/// The greater of two lower bounds, a missing one standing for minus infinity.
pub open spec fn max_lo(a: Option<SemVer>, b: Option<SemVer>) -> Option<SemVer> {
    match (a, b) {
        (None, _) => b,
        (_, None) => a,
        (Some(x), Some(y)) => if ver_lt(x, y) { b } else { a },
    }
}

/// The tighter of two upper ends; at the same version the exclusive one.
pub open spec fn min_upper(u: Upper, w: Upper) -> Upper {
    if ver_lt(u.at(), w.at()) {
        u
    } else if ver_lt(w.at(), u.at()) {
        w
    } else if u is Excl {
        u
    } else {
        w
    }
}

/// The smaller of two upper bounds, a missing one standing for plus infinity.
pub open spec fn min_hi(a: Option<Upper>, b: Option<Upper>) -> Option<Upper> {
    match (a, b) {
        (None, _) => b,
        (_, None) => a,
        (Some(x), Some(y)) => Some(min_upper(x, y)),
    }
}

impl ReqVer {
    /// The range that holds every version.
    pub open spec fn full() -> ReqVer {
        ReqVer { lo: None, hi: None }
    }

    pub open spec fn has(self, v: SemVer) -> bool {
        above_lo(self.lo, v) && below_hi(self.hi, v)
    }

    pub open spec fn meet(self, o: ReqVer) -> ReqVer {
        ReqVer { lo: max_lo(self.lo, o.lo), hi: min_hi(self.hi, o.hi) }
    }

    /// Both bounds are present and the lower one lies past the upper one.
    pub open spec fn empty(self) -> bool {
        match (self.lo, self.hi) {
            (Some(l), Some(Upper::Incl(h))) => ver_lt(h, l),
            (Some(l), Some(Upper::Excl(h))) => ver_le(h, l),
            _ => false,
        }
    }

    /// Every version of `self` is a version of `o`.
    pub open spec fn within_range(self, o: ReqVer) -> bool {
        forall|v: SemVer| #[trigger] self.has(v) ==> o.has(v)
    }

    pub fn unbounded() -> (r: ReqVer)
        ensures
            r == ReqVer::full(),
    {
        ReqVer { lo: None, hi: None }
    }

    pub fn ge(v: SemVer) -> (r: ReqVer)
        ensures
            r == (ReqVer { lo: Some(v), hi: None }),
            forall|w: SemVer| r.has(w) == ver_le(v, w),
    {
        ReqVer { lo: Some(v), hi: None }
    }

    pub fn le(v: SemVer) -> (r: ReqVer)
        ensures
            r == (ReqVer { lo: None, hi: Some(Upper::Incl(v)) }),
            forall|w: SemVer| r.has(w) == ver_le(w, v),
    {
        ReqVer { lo: None, hi: Some(Upper::Incl(v)) }
    }

    pub fn lt(v: SemVer) -> (r: ReqVer)
        ensures
            r == (ReqVer { lo: None, hi: Some(Upper::Excl(v)) }),
            forall|w: SemVer| r.has(w) == ver_lt(w, v),
    {
        ReqVer { lo: None, hi: Some(Upper::Excl(v)) }
    }

    pub fn exact(v: SemVer) -> (r: ReqVer)
        ensures
            r == (ReqVer { lo: Some(v), hi: Some(Upper::Incl(v)) }),
            forall|w: SemVer| r.has(w) == (w == v),
    {
        ReqVer { lo: Some(v), hi: Some(Upper::Incl(v)) }
    }

    /// The versions that lie in both ranges.
    pub fn intersect(&self, o: &ReqVer) -> (r: ReqVer)
        ensures
            r == self.meet(*o),
            forall|v: SemVer| r.has(v) == (self.has(v) && o.has(v)),
    {
        proof {
            lemma_meet_has(*self, *o);
        }
        let lo = match (self.lo, o.lo) {
            (None, b) => b,
            (a, None) => a,
            (Some(x), Some(y)) => if x.precedes(&y) { o.lo } else { self.lo },
        };
        let hi = match (self.hi, o.hi) {
            (None, b) => b,
            (a, None) => a,
            (Some(x), Some(y)) => Some(tighter(x, y)),
        };
        ReqVer { lo, hi }
    }

    pub fn is_empty(&self) -> (r: bool)
        ensures
            r == self.empty(),
            r ==> forall|v: SemVer| !self.has(v),
    {
        match (self.lo, self.hi) {
            (Some(l), Some(Upper::Incl(h))) => h.precedes(&l),
            (Some(l), Some(Upper::Excl(h))) => h.at_most(&l),
            _ => false,
        }
    }
}

fn tighter(u: Upper, w: Upper) -> (r: Upper)
    ensures
        r == min_upper(u, w),
{
    let (x, ux) = match u {
        Upper::Incl(v) => (v, false),
        Upper::Excl(v) => (v, true),
    };
    let y = match w {
        Upper::Incl(v) => v,
        Upper::Excl(v) => v,
    };
    if x.precedes(&y) {
        u
    } else if y.precedes(&x) {
        w
    } else if ux {
        u
    } else {
        w
    }
}

impl SemVer {
    pub fn precedes(&self, o: &SemVer) -> (r: bool)
        ensures
            r == ver_lt(*self, *o),
    {
        self.0 < o.0 || (self.0 == o.0 && (self.1 < o.1 || (self.1 == o.1 && self.2 < o.2)))
    }

    pub fn at_most(&self, o: &SemVer) -> (r: bool)
        ensures
            r == ver_le(*self, *o),
    {
        self.precedes(o) || *self == *o
    }

    /// Whether the version lies in the range.
    pub fn within(&self, rng: ReqVer) -> (r: bool)
        ensures
            r == rng.has(*self),
    {
        let ge = match rng.lo {
            Some(lo) => lo.at_most(self),
            None => true,
        };
        let le = match rng.hi {
            Some(Upper::Incl(hi)) => self.at_most(&hi),
            Some(Upper::Excl(hi)) => self.precedes(&hi),
            None => true,
        };
        ge && le
    }
}

/// A version lies in the meet of two ranges exactly when it lies in both.
pub proof fn lemma_meet_has(a: ReqVer, b: ReqVer)
    ensures
        forall|v: SemVer| #[trigger] a.meet(b).has(v) == (a.has(v) && b.has(v)),
{
}

/// Intersection is commutative.
pub proof fn lemma_intersect_commutative(a: ReqVer, b: ReqVer)
    ensures
        a.meet(b) == b.meet(a),
{
}

/// Intersection is associative.
pub proof fn lemma_intersect_associative(a: ReqVer, b: ReqVer, c: ReqVer)
    ensures
        a.meet(b).meet(c) == a.meet(b.meet(c)),
{
}

/// Intersecting a range with itself gives the range back.
pub proof fn lemma_intersect_idempotent(a: ReqVer)
    ensures
        a.meet(a) == a,
{
}

/// The unbounded range is the identity of intersection, on either side.
pub proof fn lemma_intersect_unbounded(a: ReqVer)
    ensures
        a.meet(ReqVer::full()) == a,
        ReqVer::full().meet(a) == a,
{
}

/// The unbounded range holds every version.
pub proof fn lemma_unbounded_contains(v: SemVer)
    ensures
        ReqVer::full().has(v),
{
}

/// The decimal digits of a natural number.
pub open spec fn dec(n: nat) -> Seq<char>
    decreases n,
{
    let d = seq!['0', '1', '2', '3', '4', '5', '6', '7', '8', '9'][(n % 10) as int];
    if n < 10 {
        seq![d]
    } else {
        dec(n / 10).push(d)
    }
}

/// An integer in decimal, with a leading `-` when it is negative.
pub open spec fn int_text(i: int) -> Seq<char> {
    if i < 0 {
        seq!['-'] + dec((-i) as nat)
    } else {
        dec(i as nat)
    }
}

/// A version written `major.minor.patch`.
pub open spec fn ver_text(v: SemVer) -> Seq<char> {
    int_text(v.0 as int) + seq!['.'] + int_text(v.1 as int) + seq!['.'] + int_text(v.2 as int)
}

/// Relies on `i16`'s `ToString` (through `Display`): the value in decimal,
/// with a `-` when it is negative.
#[verifier::external_body]
fn render_i16(x: i16) -> (r: String)
    ensures
        r@ == int_text(x as int),
{
    x.to_string()
}

impl SemVer {
    /// The version written `major.minor.patch`.
    pub fn to_text(&self) -> (r: String)
        ensures
            r@ == ver_text(*self),
    {
        let mut t = render_i16(self.0);
        t.append(".");
        t.append(render_i16(self.1).as_str());
        t.append(".");
        t.append(render_i16(self.2).as_str());
        proof {
            reveal_strlit(".");
            assert(t@ =~= ver_text(*self));
        }
        t
    }
}

/// A range written as an interval: `[lo,` or `(,` then `hi]`, `hi)` or `)`.
pub open spec fn range_text(r: ReqVer) -> Seq<char> {
    let left = match r.lo {
        Some(v) => seq!['['] + ver_text(v) + seq![','],
        None => seq!['(', ','],
    };
    let right = match r.hi {
        Some(Upper::Incl(v)) => ver_text(v) + seq![']'],
        Some(Upper::Excl(v)) => ver_text(v) + seq![')'],
        None => seq![')'],
    };
    left + right
}

impl ReqVer {
    /// The range written as an interval.
    pub fn to_text(&self) -> (r: String)
        ensures
            r@ == range_text(*self),
    {
        let mut s = match self.lo {
            Some(v) => {
                let mut s = String::from_str("[");
                let t = v.to_text();
                s.append(t.as_str());
                s.append(",");
                s
            },
            None => String::from_str("(,"),
        };
        match self.hi {
            Some(Upper::Incl(v)) => {
                let t = v.to_text();
                s.append(t.as_str());
                s.append("]");
            },
            Some(Upper::Excl(v)) => {
                let t = v.to_text();
                s.append(t.as_str());
                s.append(")");
            },
            None => {
                s.append(")");
            },
        }
        proof {
            reveal_strlit("[");
            reveal_strlit(",");
            reveal_strlit("(,");
            reveal_strlit("]");
            reveal_strlit(")");
            assert(s@ =~= range_text(*self));
        }
        s
    }
}

/// Why a text is not a version.
#[derive(Clone, Copy, PartialEq, Eq, Structural, Debug)]
pub enum VersionError {
    /// The text does not hold exactly three parts separated by dots.
    Length,
    /// A part is not an integer that fits a component.
    Syntax,
}

pub open spec fn is_digit(c: char) -> bool {
    '0' <= c <= '9'
}

/// The value of a string of decimal digits.
pub open spec fn digits_value(s: Seq<char>) -> int
    decreases s.len(),
{
    if s.len() == 0 {
        0
    } else {
        digits_value(s.drop_last()) * 10 + (s.last() as u32 - '0' as u32)
    }
}

pub open spec fn all_digits(s: Seq<char>) -> bool {
    s.len() > 0 && forall|i: int| 0 <= i < s.len() ==> is_digit(#[trigger] s[i])
}

/// An optional sign followed by one or more decimal digits.
pub open spec fn int_of(s: Seq<char>) -> Option<int> {
    if s.len() > 0 && s[0] == '-' && all_digits(s.skip(1)) {
        Some(-digits_value(s.skip(1)))
    } else if s.len() > 0 && s[0] == '+' && all_digits(s.skip(1)) {
        Some(digits_value(s.skip(1)))
    } else if all_digits(s) {
        Some(digits_value(s))
    } else {
        None
    }
}

/// The `i16` that a text writes, if it writes one in range.
pub open spec fn i16_of(s: Seq<char>) -> Option<i16> {
    match int_of(s) {
        Some(n) => if -32768 <= n <= 32767 {
            Some(n as i16)
        } else {
            None
        },
        None => None,
    }
}

/// Reads an `i16` written in decimal with an optional sign.
fn parse_i16(s: &str) -> (r: Option<i16>)
    ensures
        r == i16_of(s@),
{
    let n = s.unicode_len();
    if n == 0 {
        return None;
    }
    let c0 = s.get_char(0);
    let neg = c0 == '-';
    let start: usize = if c0 == '-' || c0 == '+' {
        1
    } else {
        0
    };
    if start == n {
        return None;
    }
    let ghost body = s@.subrange(start as int, n as int);
    let mut val: i64 = 0;
    let mut big = false;
    let mut i: usize = start;
    while i < n
        invariant
            n == s@.len(),
            start <= i <= n,
            start < n,
            neg == (s@[0] == '-'),
            start == 1 <==> (s@[0] == '-' || s@[0] == '+'),
            start <= 1,
            forall|j: int| start <= j < i ==> is_digit(#[trigger] s@[j]),
            !big ==> 0 <= val <= 32768 && val == digits_value(s@.subrange(start as int, i as int)),
            big ==> digits_value(s@.subrange(start as int, i as int)) > 32768,
        decreases n - i,
    {
        let c = s.get_char(i);
        if !('0' <= c && c <= '9') {
            proof {
                assert(!is_digit(s@[i as int]));
                if i >= 1 {
                    assert(s@.skip(1)[i - 1] == s@[i as int]);
                    assert(!all_digits(s@.skip(1)));
                }
                if start == 1 {
                    assert(!is_digit(s@[0]));
                }
                assert(!all_digits(s@));
            }
            return None;
        }
        proof {
            assert(s@.subrange(start as int, i + 1).drop_last() =~= s@.subrange(start as int, i as int));
            assert(s@.subrange(start as int, i + 1).last() == c);
        }
        let dig = (c as u32 - '0' as u32) as i64;
        if big {
            proof {
                let dv = digits_value(s@.subrange(start as int, i as int));
                assert(dv * 10 + dig > 32768) by (nonlinear_arith)
                    requires dv > 32768, dig >= 0;
            }
        } else {
            val = val * 10 + dig;
            if val > 32768 {
                big = true;
            }
        }
        i = i + 1;
    }
    proof {
        assert(s@.subrange(start as int, n as int) =~= if start == 1 {
            s@.skip(1)
        } else {
            s@
        });
        if start == 1 {
            assert forall|j: int| 0 <= j < s@.skip(1).len() implies is_digit(#[trigger] s@.skip(1)[j]) by {
                assert(s@.skip(1)[j] == s@[j + 1]);
            }
            assert(!is_digit(s@[0]));
        }
    }
    if big {
        return None;
    }
    let x: i64 = if neg {
        -val
    } else {
        val
    };
    if x < -32768 || x > 32767 {
        return None;
    }
    Some(x as i16)
}

/// No character of `s` between `a` (inclusive) and `b` (exclusive) is a dot.
pub open spec fn no_dot(s: Seq<char>, a: int, b: int) -> bool {
    forall|i: int| a <= i < b ==> #[trigger] s[i] != '.'
}

/// `s` holds exactly two dots, at `p` and at `q`.
pub open spec fn three_parts(s: Seq<char>, p: int, q: int) -> bool {
    &&& 0 <= p < q < s.len()
    &&& s[p] == '.'
    &&& s[q] == '.'
    &&& no_dot(s, 0, p)
    &&& no_dot(s, p + 1, q)
    &&& no_dot(s, q + 1, s.len() as int)
}

/// The version that a text `major.minor.patch` writes.
pub open spec fn version_of(s: Seq<char>) -> Result<SemVer, VersionError> {
    if exists|p: int, q: int| three_parts(s, p, q) {
        let (p, q) = choose|p: int, q: int| three_parts(s, p, q);
        match (
            i16_of(s.subrange(0, p)),
            i16_of(s.subrange(p + 1, q)),
            i16_of(s.subrange(q + 1, s.len() as int)),
        ) {
            (Some(a), Some(b), Some(c)) => Ok(SemVer(a, b, c)),
            _ => Err(VersionError::Syntax),
        }
    } else {
        Err(VersionError::Length)
    }
}

/// The two dots of a text are found at one place only.
proof fn lemma_three_parts_unique(s: Seq<char>, p: int, q: int, pb: int, qb: int)
    requires
        three_parts(s, p, q),
        three_parts(s, pb, qb),
    ensures
        p == pb && q == qb,
{
    if p < pb {
        assert(s[p] != '.');
    } else if pb < p {
        assert(s[pb] != '.');
    }
    if q < qb {
        assert(s[q] != '.');
    } else if qb < q {
        assert(s[qb] != '.');
    }
}

impl SemVer {
    /// Reads a version written `major.minor.patch`.
    pub fn parse(text: &str) -> (r: Result<SemVer, VersionError>)
        ensures
            r == version_of(text@),
    {
        let n = text.unicode_len();
        let ghost s = text@;
        let mut dots: usize = 0;
        let mut p: usize = 0;
        let mut q: usize = 0;
        let mut t: usize = 0;
        let mut i: usize = 0;
        while i < n
            invariant
                n == s.len(),
                s == text@,
                i <= n,
                dots <= 3,
                dots == 0 ==> no_dot(s, 0, i as int),
                dots >= 1 ==> p < i && s[p as int] == '.' && no_dot(s, 0, p as int),
                dots == 1 ==> no_dot(s, p + 1, i as int),
                dots >= 2 ==> p < q && q < i && s[q as int] == '.' && no_dot(s, p + 1, q as int),
                dots == 2 ==> no_dot(s, q + 1, i as int),
                dots == 3 ==> q < t && t < i && s[t as int] == '.',
            decreases n - i,
        {
            if text.get_char(i) == '.' {
                if dots == 0 {
                    p = i;
                } else if dots == 1 {
                    q = i;
                } else if dots == 2 {
                    t = i;
                }
                if dots < 3 {
                    dots = dots + 1;
                }
            }
            i = i + 1;
        }
        if dots != 2 {
            proof {
                if exists|pb: int, qb: int| three_parts(s, pb, qb) {
                    let (pb, qb) = choose|pb: int, qb: int| three_parts(s, pb, qb);
                    if dots == 0 {
                        assert(s[pb] != '.');
                    } else if dots == 1 {
                        if pb != p {
                            assert(s[pb] != '.');
                        } else {
                            assert(s[qb] != '.');
                        }
                    } else {
                        if p < pb {
                            assert(s[p as int] != '.');
                        } else if pb < p {
                            assert(s[pb] != '.');
                        } else if q < qb {
                            assert(s[q as int] != '.');
                        } else if qb < q {
                            assert(s[qb] != '.');
                        } else {
                            assert(s[t as int] != '.');
                        }
                    }
                }
            }
            return Err(VersionError::Length);
        }
        proof {
            assert(three_parts(s, p as int, q as int));
            let (pb, qb) = choose|pb: int, qb: int| three_parts(s, pb, qb);
            lemma_three_parts_unique(s, p as int, q as int, pb, qb);
        }
        let a = parse_i16(text.substring_char(0, p));
        let b = parse_i16(text.substring_char(p + 1, q));
        let c = parse_i16(text.substring_char(q + 1, n));
        match (a, b, c) {
            (Some(a), Some(b), Some(c)) => Ok(SemVer(a, b, c)),
            _ => Err(VersionError::Syntax),
        }
    }
}

impl std::str::FromStr for SemVer {
    type Err = VersionError;

    fn from_str(s: &str) -> Result<SemVer, VersionError> {
        SemVer::parse(s)
    }
}

} // verus!
