//! Ranges from semantic versioning requirements, such as `>=1.2, <2` or `^0.3.1`.
//!
//! A requirement is a list of comparators; a comparator is an operator and a
//! version where the minor and patch numbers may be left out. The meaning of
//! each operator is the one the `semver` crate documents for its `Op`.
//!
//! The conversion is not lossless: versions here have no pre-release part, so
//! the ranges only do interval arithmetic on `major.minor.patch`.

use vstd::prelude::*;

use crate::range::{point, Ranges};
use crate::version_trait::Ranked;

verus! {

/// `2^64`, the number of values of a `u64`.
pub open spec fn two_pow_64() -> int {
    0x1_0000_0000_0000_0000
}

/// A version `major.minor.patch`.
#[derive(Debug, Copy, Clone, PartialEq, Eq, Structural, Hash)]
pub struct SemverVersion {
    /// The major number.
    pub major: u64,
    /// The minor number.
    pub minor: u64,
    /// The patch number.
    pub patch: u64,
}

impl SemverVersion {
    /// The version `major.minor.patch`.
    pub fn new(major: u64, minor: u64, patch: u64) -> (r: Self)
        ensures
            r == (SemverVersion { major, minor, patch }),
    {
        SemverVersion { major, minor, patch }
    }
}

/// Two triples of numbers below `2^64` compare as their positions in base `2^64`.
proof fn lemma_lex64(a: int, b: int, c: int, d: int, e: int, f: int)
    requires
        0 <= a < two_pow_64(),
        0 <= b < two_pow_64(),
        0 <= c < two_pow_64(),
        0 <= d < two_pow_64(),
        0 <= e < two_pow_64(),
        0 <= f < two_pow_64(),
    ensures
        (a * two_pow_64() * two_pow_64() + b * two_pow_64() + c < d * two_pow_64() * two_pow_64() + e
            * two_pow_64() + f) == (a < d || (a == d && (b < e || (b == e && c < f)))),
        (a * two_pow_64() * two_pow_64() + b * two_pow_64() + c == d * two_pow_64() * two_pow_64() + e
            * two_pow_64() + f) == (a == d && b == e && c == f),
{
    let n = two_pow_64();
    let x = b * n + c;
    let y = e * n + f;
    assert(0 <= x < n * n) by (nonlinear_arith)
        requires
            0 <= b < n,
            0 <= c < n,
            x == b * n + c,
    ;
    assert(0 <= y < n * n) by (nonlinear_arith)
        requires
            0 <= e < n,
            0 <= f < n,
            y == e * n + f,
    ;
    assert((x < y) == (b < e || (b == e && c < f))) by (nonlinear_arith)
        requires
            0 <= b < n,
            0 <= c < n,
            0 <= e < n,
            0 <= f < n,
            x == b * n + c,
            y == e * n + f,
    ;
    assert((x == y) == (b == e && c == f)) by (nonlinear_arith)
        requires
            0 <= b < n,
            0 <= c < n,
            0 <= e < n,
            0 <= f < n,
            x == b * n + c,
            y == e * n + f,
    ;
    assert((a * n * n + x < d * n * n + y) == (a < d || (a == d && x < y))) by (nonlinear_arith)
        requires
            0 <= a < n,
            0 <= d < n,
            0 <= x < n * n,
            0 <= y < n * n,
    ;
    assert((a * n * n + x == d * n * n + y) == (a == d && x == y)) by (nonlinear_arith)
        requires
            0 <= a < n,
            0 <= d < n,
            0 <= x < n * n,
            0 <= y < n * n,
    ;
    assert(a * n * n + b * n + c == a * n * n + x);
    assert(d * n * n + e * n + f == d * n * n + y);
}

impl Ranked for SemverVersion {
    open spec fn rank(&self) -> int {
        self.major * two_pow_64() * two_pow_64() + self.minor * two_pow_64() + self.patch
    }

    proof fn lemma_rank_injective(a: Self, b: Self) {
        lemma_lex64(
            a.major as int,
            a.minor as int,
            a.patch as int,
            b.major as int,
            b.minor as int,
            b.patch as int,
        );
    }

    fn rank_lt(&self, other: &Self) -> (r: bool) {
        proof {
            lemma_lex64(
                self.major as int,
                self.minor as int,
                self.patch as int,
                other.major as int,
                other.minor as int,
                other.patch as int,
            );
        }
        self.major < other.major || (self.major == other.major && (self.minor < other.minor || (
        self.minor == other.minor && self.patch < other.patch)))
    }

    fn rank_le(&self, other: &Self) -> (r: bool) {
        proof {
            lemma_lex64(
                self.major as int,
                self.minor as int,
                self.patch as int,
                other.major as int,
                other.minor as int,
                other.patch as int,
            );
        }
        !other.rank_lt(self)
    }
}

/// The version `u` comes at or after `major.minor.patch`.
pub open spec fn at_or_after(u: SemverVersion, major: int, minor: int, patch: int) -> bool {
    u.major > major || (u.major == major && (u.minor > minor || (u.minor == minor && u.patch
        >= patch)))
}

/// The version `u` comes strictly after `major.minor.patch`.
pub open spec fn after(u: SemverVersion, major: int, minor: int, patch: int) -> bool {
    u.major > major || (u.major == major && (u.minor > minor || (u.minor == minor && u.patch
        > patch)))
}

/// Versions compare as their numbers, major first.
proof fn lemma_order(u: SemverVersion, v: SemverVersion)
    ensures
        (point(v) <= point(u)) == at_or_after(u, v.major as int, v.minor as int, v.patch as int),
        (point(v) < point(u)) == after(u, v.major as int, v.minor as int, v.patch as int),
        (point(v) == point(u)) == (u == v),
{
    lemma_lex64(
        u.major as int,
        u.minor as int,
        u.patch as int,
        v.major as int,
        v.minor as int,
        v.patch as int,
    );
}

/// The operators of a version requirement.
#[derive(Debug, Copy, Clone, PartialEq, Eq, Structural, Hash)]
pub enum Op {
    /// `=I.J.K`, `=I.J` or `=I`.
    Exact,
    /// `>I.J.K`, `>I.J` or `>I`.
    Greater,
    /// `>=I.J.K`, `>=I.J` or `>=I`.
    GreaterEq,
    /// `<I.J.K`, `<I.J` or `<I`.
    Less,
    /// `<=I.J.K`, `<=I.J` or `<=I`.
    LessEq,
    /// `~I.J.K`, `~I.J` or `~I`.
    Tilde,
    /// `^I.J.K`, `^I.J` or `^I`.
    Caret,
    /// `I.J.*` or `I.*`.
    Wildcard,
}

/// A comparator: an operator and a version whose minor and patch numbers may
/// be left out.
#[derive(Debug, Copy, Clone, PartialEq, Eq, Structural, Hash)]
pub struct Comparator {
    /// The operator.
    pub op: Op,
    /// The major number.
    pub major: u64,
    /// The minor number, if written.
    pub minor: Option<u64>,
    /// The patch number, if written.
    pub patch: Option<u64>,
}

/// A comparator that can be converted: no patch number without a minor one,
/// and every number below `u64::MAX`.
pub open spec fn convertible(major: u64, minor: Option<u64>, patch: Option<u64>) -> bool {
    &&& !(minor is None && patch is Some)
    &&& major < u64::MAX
    &&& minor matches Some(m) ==> m < u64::MAX
    &&& patch matches Some(p) ==> p < u64::MAX
}

/// The number written, or zero.
pub open spec fn or_zero(n: Option<u64>) -> int {
    match n {
        Some(v) => v as int,
        None => 0,
    }
}

/// Whether `u` matches `=major[.minor[.patch]]`.
pub open spec fn exact_matches(major: u64, minor: Option<u64>, patch: Option<u64>, u: SemverVersion) -> bool {
    match (minor, patch) {
        (Some(m), Some(p)) => u.major == major && u.minor == m && u.patch == p,
        (Some(m), None) => u.major == major && u.minor == m,
        (None, _) => u.major == major,
    }
}

/// Whether the version `u` matches the comparator `op major[.minor[.patch]]`,
/// as the `semver` crate documents its operators.
pub open spec fn op_matches(op: Op, major: u64, minor: Option<u64>, patch: Option<u64>, u: SemverVersion) -> bool {
    match op {
        Op::Exact => exact_matches(major, minor, patch, u),
        Op::Greater => match (minor, patch) {
            (Some(m), Some(p)) => after(u, major as int, m as int, p as int),
            (Some(m), None) => u.major > major || (u.major == major && u.minor > m),
            (None, _) => u.major > major,
        },
        Op::GreaterEq => at_or_after(u, major as int, or_zero(minor), or_zero(patch)),
        Op::Less => !at_or_after(u, major as int, or_zero(minor), or_zero(patch)),
        Op::LessEq => match (minor, patch) {
            (Some(m), Some(p)) => !after(u, major as int, m as int, p as int),
            (Some(m), None) => u.major < major || (u.major == major && u.minor <= m),
            (None, _) => u.major <= major,
        },
        Op::Tilde => match (minor, patch) {
            (Some(m), Some(p)) => u.major == major && u.minor == m && u.patch >= p,
            _ => exact_matches(major, minor, None, u),
        },
        Op::Caret => match (minor, patch) {
            (Some(m), p) => if major > 0 {
                u.major == major && at_or_after(u, major as int, m as int, or_zero(p))
            } else if m > 0 {
                u.major == 0 && u.minor == m && u.patch >= or_zero(p)
            } else {
                exact_matches(0, Some(0), p, u)
            },
            (None, _) => u.major == major,
        },
        Op::Wildcard => exact_matches(major, minor, None, u),
    }
}

/// Whether the version `u` matches every comparator of the requirement.
pub open spec fn req_matches(req: Seq<Comparator>, u: SemverVersion) -> bool {
    forall|k: int| 0 <= k < req.len() ==> #[trigger] op_matches(req[k].op, req[k].major, req[k].minor, req[k].patch, u)
}

/// The versions from `major.minor.patch` on, a left out number being zero.
pub fn ranges_greater_eq(major: u64, minor: Option<u64>, patch: Option<u64>) -> (r: Ranges<SemverVersion>)
    ensures
        forall|u: SemverVersion| #[trigger] r.contains_spec(u) == op_matches(Op::GreaterEq, major, minor, patch, u),
{
    let m = match minor {
        Some(m) => m,
        None => 0,
    };
    let p = match patch {
        Some(p) => p,
        None => 0,
    };
    let v = SemverVersion::new(major, m, p);
    let r = Ranges::higher_than(v);
    proof {
        assert forall|u: SemverVersion| #[trigger] r.contains_spec(u) == op_matches(Op::GreaterEq, major, minor, patch, u) by {
            lemma_order(u, v);
        }
    }
    r
}

/// The versions before `major.minor.patch`, a left out number being zero.
pub fn ranges_less(major: u64, minor: Option<u64>, patch: Option<u64>) -> (r: Ranges<SemverVersion>)
    ensures
        forall|u: SemverVersion| #[trigger] r.contains_spec(u) == op_matches(Op::Less, major, minor, patch, u),
{
    let m = match minor {
        Some(m) => m,
        None => 0,
    };
    let p = match patch {
        Some(p) => p,
        None => 0,
    };
    let v = SemverVersion::new(major, m, p);
    let r = Ranges::strictly_lower_than(v);
    proof {
        assert forall|u: SemverVersion| #[trigger] r.contains_spec(u) == op_matches(Op::Less, major, minor, patch, u) by {
            lemma_order(u, v);
        }
    }
    r
}

/// The versions matching `=major[.minor[.patch]]`.
pub fn ranges_exact(major: u64, minor: Option<u64>, patch: Option<u64>) -> (r: Ranges<SemverVersion>)
    requires
        convertible(major, minor, patch),
    ensures
        forall|u: SemverVersion| #[trigger] r.contains_spec(u) == op_matches(Op::Exact, major, minor, patch, u),
{
    match (minor, patch) {
        (None, _) => {
            let a = ranges_greater_eq(major, Some(0), Some(0));
            let b = ranges_less(major + 1, Some(0), Some(0));
            let r = a.intersection(&b);
            proof {
                assert forall|u: SemverVersion| #[trigger] r.contains_spec(u) == op_matches(Op::Exact, major, minor, patch, u) by {
                    assert(r.has(point(u)) == (a.has(point(u)) && b.has(point(u))));
                    assert(a.contains_spec(u) == op_matches(Op::GreaterEq, major, Some(0u64), Some(0u64), u));
                    assert(b.contains_spec(u) == op_matches(Op::Less, (major + 1) as u64, Some(0u64), Some(0u64), u));
                }
            }
            r
        },
        (Some(minor), None) => {
            let a = ranges_greater_eq(major, Some(minor), Some(0));
            let b = ranges_less(major, Some(minor + 1), Some(0));
            let r = a.intersection(&b);
            proof {
                assert forall|u: SemverVersion| #[trigger] r.contains_spec(u) == exact_matches(major, Some(minor), None, u) by {
                    assert(r.has(point(u)) == (a.has(point(u)) && b.has(point(u))));
                    assert(a.contains_spec(u) == op_matches(Op::GreaterEq, major, Some(minor), Some(0u64), u));
                    assert(b.contains_spec(u) == op_matches(Op::Less, major, Some((minor + 1) as u64), Some(0u64), u));
                }
            }
            r
        },
        (Some(minor), Some(patch)) => {
            let v = SemverVersion::new(major, minor, patch);
            let r = Ranges::singleton(v);
            proof {
                assert forall|u: SemverVersion| #[trigger] r.contains_spec(u) == exact_matches(major, Some(minor), Some(patch), u) by {
                    lemma_order(u, v);
                }
            }
            r
        },
    }
}

/// The versions matching `>major[.minor[.patch]]`.
pub fn ranges_greater(major: u64, minor: Option<u64>, patch: Option<u64>) -> (r: Ranges<SemverVersion>)
    requires
        convertible(major, minor, patch),
    ensures
        forall|u: SemverVersion| #[trigger] r.contains_spec(u) == op_matches(Op::Greater, major, minor, patch, u),
{
    match (minor, patch) {
        (None, _) => {
            let r = ranges_greater_eq(major + 1, Some(0), Some(0));
            proof {
                assert forall|u: SemverVersion| #[trigger] r.contains_spec(u) == op_matches(Op::Greater, major, minor, patch, u) by {
                    assert(r.contains_spec(u) == op_matches(Op::GreaterEq, (major + 1) as u64, Some(0u64), Some(0u64), u));
                }
            }
            r
        },
        (Some(minor), None) => {
            let r = ranges_greater_eq(major, Some(minor + 1), Some(0));
            proof {
                assert forall|u: SemverVersion| #[trigger] r.contains_spec(u) == op_matches(Op::Greater, major, Some(minor), None, u) by {
                    assert(r.contains_spec(u) == op_matches(Op::GreaterEq, major, Some((minor + 1) as u64), Some(0u64), u));
                }
            }
            r
        },
        (Some(minor), Some(patch)) => {
            let v = SemverVersion::new(major, minor, patch);
            let r = Ranges::strictly_higher_than(v);
            proof {
                assert forall|u: SemverVersion| #[trigger] r.contains_spec(u) == op_matches(Op::Greater, major, Some(minor), Some(patch), u) by {
                    lemma_order(u, v);
                }
            }
            r
        },
    }
}

/// The versions matching `<=major[.minor[.patch]]`.
pub fn ranges_less_eq(major: u64, minor: Option<u64>, patch: Option<u64>) -> (r: Ranges<SemverVersion>)
    requires
        convertible(major, minor, patch),
    ensures
        forall|u: SemverVersion| #[trigger] r.contains_spec(u) == op_matches(Op::LessEq, major, minor, patch, u),
{
    match (minor, patch) {
        (None, _) => {
            let r = ranges_less(major + 1, Some(0), Some(0));
            proof {
                assert forall|u: SemverVersion| #[trigger] r.contains_spec(u) == op_matches(Op::LessEq, major, minor, patch, u) by {
                    assert(r.contains_spec(u) == op_matches(Op::Less, (major + 1) as u64, Some(0u64), Some(0u64), u));
                }
            }
            r
        },
        (Some(minor), None) => {
            let r = ranges_less(major, Some(minor + 1), Some(0));
            proof {
                assert forall|u: SemverVersion| #[trigger] r.contains_spec(u) == op_matches(Op::LessEq, major, Some(minor), None, u) by {
                    assert(r.contains_spec(u) == op_matches(Op::Less, major, Some((minor + 1) as u64), Some(0u64), u));
                }
            }
            r
        },
        (Some(minor), Some(patch)) => {
            let v = SemverVersion::new(major, minor, patch);
            let r = Ranges::lower_than(v);
            proof {
                assert forall|u: SemverVersion| #[trigger] r.contains_spec(u) == op_matches(Op::LessEq, major, Some(minor), Some(patch), u) by {
                    lemma_order(u, v);
                }
            }
            r
        },
    }
}

/// The versions matching `~major[.minor[.patch]]`.
pub fn ranges_tilde(major: u64, minor: Option<u64>, patch: Option<u64>) -> (r: Ranges<SemverVersion>)
    requires
        convertible(major, minor, patch),
    ensures
        forall|u: SemverVersion| #[trigger] r.contains_spec(u) == op_matches(Op::Tilde, major, minor, patch, u),
{
    match (minor, patch) {
        (None, _) => ranges_exact(major, None, None),
        (Some(minor), None) => ranges_exact(major, Some(minor), None),
        (Some(minor), Some(patch)) => {
            let a = ranges_greater_eq(major, Some(minor), Some(patch));
            let b = ranges_less(major, Some(minor + 1), Some(0));
            let r = a.intersection(&b);
            proof {
                assert forall|u: SemverVersion| #[trigger] r.contains_spec(u) == op_matches(Op::Tilde, major, Some(minor), Some(patch), u) by {
                    assert(r.has(point(u)) == (a.has(point(u)) && b.has(point(u))));
                    assert(a.contains_spec(u) == op_matches(Op::GreaterEq, major, Some(minor), Some(patch), u));
                    assert(b.contains_spec(u) == op_matches(Op::Less, major, Some((minor + 1) as u64), Some(0u64), u));
                }
            }
            r
        },
    }
}

/// The versions matching `^major[.minor[.patch]]`.
pub fn ranges_caret(major: u64, minor: Option<u64>, patch: Option<u64>) -> (r: Ranges<SemverVersion>)
    requires
        convertible(major, minor, patch),
    ensures
        forall|u: SemverVersion| #[trigger] r.contains_spec(u) == op_matches(Op::Caret, major, minor, patch, u),
    decreases (if patch is None { 1int } else { 0int }),
{
    match (major, minor, patch) {
        (major, Some(minor), Some(patch)) if major > 0 => {
            let a = ranges_greater_eq(major, Some(minor), Some(patch));
            let b = ranges_less(major + 1, Some(0), Some(0));
            let r = a.intersection(&b);
            proof {
                assert forall|u: SemverVersion| #[trigger] r.contains_spec(u) == op_matches(Op::Caret, major, Some(minor), Some(patch), u) by {
                    assert(r.has(point(u)) == (a.has(point(u)) && b.has(point(u))));
                    assert(a.contains_spec(u) == op_matches(Op::GreaterEq, major, Some(minor), Some(patch), u));
                    assert(b.contains_spec(u) == op_matches(Op::Less, (major + 1) as u64, Some(0u64), Some(0u64), u));
                }
            }
            r
        },
        (0, Some(minor), Some(patch)) if minor > 0 => {
            let a = ranges_greater_eq(0, Some(minor), Some(patch));
            let b = ranges_less(0, Some(minor + 1), Some(0));
            let r = a.intersection(&b);
            proof {
                assert forall|u: SemverVersion| #[trigger] r.contains_spec(u) == op_matches(Op::Caret, 0, Some(minor), Some(patch), u) by {
                    assert(r.has(point(u)) == (a.has(point(u)) && b.has(point(u))));
                    assert(a.contains_spec(u) == op_matches(Op::GreaterEq, 0, Some(minor), Some(patch), u));
                    assert(b.contains_spec(u) == op_matches(Op::Less, 0, Some((minor + 1) as u64), Some(0u64), u));
                }
            }
            r
        },
        (0, Some(0), Some(patch)) => ranges_exact(0, Some(0), Some(patch)),
        (major, Some(minor), None) if major > 0 || minor > 0 => {
            let r = ranges_caret(major, Some(minor), Some(0));
            proof {
                assert forall|u: SemverVersion| #[trigger] r.contains_spec(u) == op_matches(Op::Caret, major, Some(minor), None, u) by {
                    assert(r.contains_spec(u) == op_matches(Op::Caret, major, Some(minor), Some(0u64), u));
                }
            }
            r
        },
        (0, Some(0), None) => ranges_exact(0, Some(0), None),
        (major, None, None) => ranges_exact(major, None, None),
        (_, _, _) => {
            proof {
                assert(false);
            }
            Ranges::empty()
        },
    }
}

/// The versions matching `major.minor.*` or `major.*`.
pub fn ranges_wildcard(major: u64, minor: Option<u64>, _patch: Option<u64>) -> (r: Ranges<SemverVersion>)
    requires
        major < u64::MAX,
        minor matches Some(m) ==> m < u64::MAX,
    ensures
        forall|u: SemverVersion| #[trigger] r.contains_spec(u) == op_matches(Op::Wildcard, major, minor, _patch, u),
{
    match minor {
        Some(minor) => ranges_exact(major, Some(minor), None),
        None => ranges_exact(major, None, None),
    }
}

impl Ranges<SemverVersion> {
    /// Convert from a semver version requirement, the list of its comparators.
    ///
    /// Note that this is not a lossless conversion: versions here have no
    /// pre-release part, so the range holds the versions that every comparator
    /// matches by its numbers alone.
    pub fn from_req(req: &[Comparator]) -> (r: Self)
        requires
            forall|k: int| 0 <= k < req@.len() ==> #[trigger] convertible(req@[k].major, req@[k].minor, req@[k].patch),
        ensures
            forall|u: SemverVersion| #[trigger] r.contains_spec(u) == req_matches(req@, u),
    {
        let mut ranges = Ranges::full();
        let mut k: usize = 0;
        while k < req.len()
            invariant
                0 <= k <= req@.len(),
                forall|i: int| 0 <= i < req@.len() ==> #[trigger] convertible(req@[i].major, req@[i].minor, req@[i].patch),
                forall|u: SemverVersion| #[trigger] ranges.contains_spec(u) == req_matches(req@.subrange(0, k as int), u),
            decreases req@.len() - k,
        {
            let comparator = req[k];
            proof {
                assert(convertible(req@[k as int].major, req@[k as int].minor, req@[k as int].patch));
            }
            let new = match comparator.op {
                Op::Exact => ranges_exact(comparator.major, comparator.minor, comparator.patch),
                Op::Greater => ranges_greater(comparator.major, comparator.minor, comparator.patch),
                Op::GreaterEq => ranges_greater_eq(comparator.major, comparator.minor, comparator.patch),
                Op::Less => ranges_less(comparator.major, comparator.minor, comparator.patch),
                Op::LessEq => ranges_less_eq(comparator.major, comparator.minor, comparator.patch),
                Op::Tilde => ranges_tilde(comparator.major, comparator.minor, comparator.patch),
                Op::Caret => ranges_caret(comparator.major, comparator.minor, comparator.patch),
                Op::Wildcard => ranges_wildcard(comparator.major, comparator.minor, comparator.patch),
            };
            let next = ranges.intersection(&new);
            proof {
                assert forall|u: SemverVersion| #[trigger] next.contains_spec(u) == req_matches(req@.subrange(0, k + 1), u) by {
                    assert(next.has(point(u)) == (ranges.has(point(u)) && new.has(point(u))));
                    assert(new.contains_spec(u) == op_matches(comparator.op, comparator.major, comparator.minor, comparator.patch, u));
                    let s = req@.subrange(0, k as int);
                    let t = req@.subrange(0, k + 1);
                    assert(ranges.contains_spec(u) == req_matches(s, u));
                    assert(comparator == req@[k as int]);
                    assert(t[k as int] == comparator);
                    if req_matches(t, u) {
                        assert forall|i: int| 0 <= i < s.len() implies #[trigger] op_matches(s[i].op, s[i].major, s[i].minor, s[i].patch, u) by {
                            assert(s[i] == t[i]);
                        }
                        assert(op_matches(t[k as int].op, t[k as int].major, t[k as int].minor, t[k as int].patch, u));
                    }
                    if req_matches(s, u) && op_matches(comparator.op, comparator.major, comparator.minor, comparator.patch, u) {
                        assert forall|i: int| 0 <= i < t.len() implies #[trigger] op_matches(t[i].op, t[i].major, t[i].minor, t[i].patch, u) by {
                            if i < k {
                                assert(s[i] == t[i]);
                            }
                        }
                    }
                }
            }
            ranges = next;
            k = k + 1;
        }
        proof {
            assert(req@.subrange(0, req@.len() as int) =~= req@);
        }
        ranges
    }
}

} // verus!
