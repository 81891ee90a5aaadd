//! Traits and implementations to create and compare versions.

use vstd::prelude::*;
use vstd::string::StrSliceExecFns;
use vstd::string::StringExecFns;

use crate::range::{above_start, below_end, flip, point, seg_has, start_le};

verus! {

/// An endpoint of a range of versions.
#[derive(Debug, Clone, Copy, PartialEq, Eq, Structural, Hash)]
pub enum Bound<V> {
    /// The endpoint is part of the range.
    Included(V),
    /// The endpoint is not part of the range.
    Excluded(V),
    /// There is no endpoint: the range goes on forever in this direction.
    Unbounded,
}

/// Versions that can be placed on a line.
///
/// `rank` gives the position of a version in the total order of versions:
/// `a < b` exactly when `a.rank() < b.rank()`, and two versions with the same
/// rank are the same version.
pub trait Ranked: Sized + Copy + core::fmt::Debug {
    /// Position of the version in the order of versions.
    spec fn rank(&self) -> int;

    /// Two versions at the same position are the same version.
    proof fn lemma_rank_injective(a: Self, b: Self)
        ensures
            a.rank() == b.rank() ==> a == b,
    ;

    /// Whether `self` comes strictly before `other`.
    fn rank_lt(&self, other: &Self) -> (r: bool)
        ensures
            r == (self.rank() < other.rank()),
    ;

    /// Whether `self` comes before `other` or is `other`.
    fn rank_le(&self, other: &Self) -> (r: bool)
        ensures
            r == (self.rank() <= other.rank()),
    ;
}

/// Whether the item is in the list.
pub fn contains_item<K: Ranked>(s: &[K], k: &K) -> (r: bool)
    ensures
        r == s@.contains(*k),
{
    let mut i: usize = 0;
    while i < s.len()
        invariant
            0 <= i <= s@.len(),
            forall|j: int| 0 <= j < i ==> #[trigger] s@[j] != *k,
        decreases s@.len() - i,
    {
        if same_as(&s[i], k) {
            return true;
        }
        i = i + 1;
    }
    false
}

/// Whether `a` is `b`.
pub fn same_as<T: Ranked>(a: &T, b: &T) -> (r: bool)
    ensures
        r == (*a == *b),
{
    let r = a.rank_le(b) && b.rank_le(a);
    proof {
        T::lemma_rank_injective(*a, *b);
    }
    r
}

impl Ranked for u8 {
    open spec fn rank(&self) -> int {
        *self as int
    }

    proof fn lemma_rank_injective(a: Self, b: Self) {
    }

    fn rank_lt(&self, other: &Self) -> (r: bool) {
        *self < *other
    }

    fn rank_le(&self, other: &Self) -> (r: bool) {
        *self <= *other
    }
}

impl Ranked for u16 {
    open spec fn rank(&self) -> int {
        *self as int
    }

    proof fn lemma_rank_injective(a: Self, b: Self) {
    }

    fn rank_lt(&self, other: &Self) -> (r: bool) {
        *self < *other
    }

    fn rank_le(&self, other: &Self) -> (r: bool) {
        *self <= *other
    }
}

impl Ranked for u32 {
    open spec fn rank(&self) -> int {
        *self as int
    }

    proof fn lemma_rank_injective(a: Self, b: Self) {
    }

    fn rank_lt(&self, other: &Self) -> (r: bool) {
        *self < *other
    }

    fn rank_le(&self, other: &Self) -> (r: bool) {
        *self <= *other
    }
}

impl Ranked for u64 {
    open spec fn rank(&self) -> int {
        *self as int
    }

    proof fn lemma_rank_injective(a: Self, b: Self) {
    }

    fn rank_lt(&self, other: &Self) -> (r: bool) {
        *self < *other
    }

    fn rank_le(&self, other: &Self) -> (r: bool) {
        *self <= *other
    }
}

impl Ranked for usize {
    open spec fn rank(&self) -> int {
        *self as int
    }

    proof fn lemma_rank_injective(a: Self, b: Self) {
    }

    fn rank_lt(&self, other: &Self) -> (r: bool) {
        *self < *other
    }

    fn rank_le(&self, other: &Self) -> (r: bool) {
        *self <= *other
    }
}

impl Ranked for i32 {
    open spec fn rank(&self) -> int {
        *self as int
    }

    proof fn lemma_rank_injective(a: Self, b: Self) {
    }

    fn rank_lt(&self, other: &Self) -> (r: bool) {
        *self < *other
    }

    fn rank_le(&self, other: &Self) -> (r: bool) {
        *self <= *other
    }
}

/// New trait for versions.
pub trait Version: Ranked {
    /// The lower bound of all versions.
    spec fn min_spec() -> Bound<Self>;

    /// The upper bound of all versions.
    spec fn max_spec() -> Bound<Self>;

    /// Every version lies between the minimum and the maximum.
    proof fn lemma_within_bounds(v: Self)
        ensures
            above_start(Self::min_spec(), point(v)),
            below_end(Self::max_spec(), point(v)),
    ;

    /// Returns the minimum version.
    fn minimum() -> (r: Bound<Self>)
        ensures
            r == Self::min_spec(),
    ;

    /// Returns the maximum version.
    fn maximum() -> (r: Bound<Self>)
        ensures
            r == Self::max_spec(),
    ;
}

/// An interval is a bounded domain containing all values
/// between its starting and ending bounds.
///
/// An interval may store other bounds than it was made from, as long as it
/// holds the same versions: `keeps` says when it stores them unchanged.
pub trait Interval<V: Version>: Sized {
    /// The bounds an interval can be made from.
    spec fn accepts(start_bound: Bound<V>, end_bound: Bound<V>) -> bool;

    /// The bounds that `new` stores as they are given.
    spec fn keeps(start_bound: Bound<V>, end_bound: Bound<V>) -> bool;

    /// The stored starting bound.
    spec fn start_spec(&self) -> Bound<V>;

    /// The stored ending bound.
    spec fn end_spec(&self) -> Bound<V>;

    /// The interval is one that `new` can give.
    spec fn made(&self) -> bool;

    /// Create an interval from its starting and ending bounds.
    /// It's the caller responsability to order them correctly.
    fn new(start_bound: Bound<V>, end_bound: Bound<V>) -> (r: Self)
        requires
            Self::accepts(start_bound, end_bound),
        ensures
            r.made(),
            Self::keeps(start_bound, end_bound) ==> r.start_spec() == start_bound && r.end_spec()
                == end_bound,
            forall|v: V| #[trigger] seg_has((r.start_spec(), r.end_spec()), point(v)) == seg_has(
                (start_bound, end_bound),
                point(v),
            ),
    ;

    /// The starting bound.
    fn start_bound(&self) -> (r: Bound<&V>)
        ensures
            deref_bound(r) == self.start_spec(),
    ;

    /// The ending bound.
    fn end_bound(&self) -> (r: Bound<&V>)
        ensures
            deref_bound(r) == self.end_spec(),
    ;

    /// An interval starts at or after the minimum.
    proof fn lemma_start_after_min(a: Self)
        requires
            a.made(),
        ensures
            start_le(V::min_spec(), a.start_spec()),
    ;

    /// `new` takes and keeps the bounds found in the complement and in the
    /// intersection of intervals.
    proof fn lemma_keeps(a: Self, b: Self)
        requires
            a.made(),
            b.made(),
        ensures
            Self::keeps(a.start_spec(), b.end_spec()) && Self::accepts(a.start_spec(), b.end_spec()),
            Self::keeps(V::min_spec(), flip(b.start_spec())) && Self::accepts(
                V::min_spec(),
                flip(b.start_spec()),
            ),
            !(a.end_spec() is Unbounded) ==> Self::keeps(flip(a.end_spec()), flip(b.start_spec())),
            Self::accepts(flip(a.end_spec()), flip(b.start_spec())),
            !(a.end_spec() is Unbounded) ==> Self::keeps(flip(a.end_spec()), V::max_spec()),
            Self::accepts(flip(a.end_spec()), V::max_spec()),
    ;

    /// The interval of all versions can be made, as it is given.
    proof fn lemma_full()
        ensures
            Self::accepts(V::min_spec(), V::max_spec()),
            Self::keeps(V::min_spec(), V::max_spec()),
    ;
}

// SemanticVersion #############################################################

/// `2^32`, the number of values of a `u32`.
pub open spec fn two_pow_32() -> int {
    0x1_0000_0000
}

/// Type for semantic versions: major.minor.patch.
#[derive(Debug, Copy, Clone, Ord, PartialOrd, Eq, PartialEq, Structural, Hash)]
pub struct SemanticVersion {
    major: u32,
    minor: u32,
    patch: u32,
}

impl SemanticVersion {
    /// The major number.
    pub closed spec fn major_spec(self) -> u32 {
        self.major
    }

    /// The minor number.
    pub closed spec fn minor_spec(self) -> u32 {
        self.minor
    }

    /// The patch number.
    pub closed spec fn patch_spec(self) -> u32 {
        self.patch
    }

    /// Two versions with the same numbers are the same version.
    pub proof fn lemma_fields_determine(a: Self, b: Self)
        ensures
            a.major_spec() == b.major_spec() && a.minor_spec() == b.minor_spec() && a.patch_spec()
                == b.patch_spec() ==> a == b,
    {
    }

    /// Create a version with "major", "minor" and "patch" values.
    /// `version = major.minor.patch`
    pub fn new(major: u32, minor: u32, patch: u32) -> (r: Self)
        ensures
            r.major_spec() == major,
            r.minor_spec() == minor,
            r.patch_spec() == patch,
    {
        Self { major, minor, patch }
    }

    /// Version 0.0.0.
    pub fn zero() -> (r: Self)
        ensures
            r == Self::new_spec(0, 0, 0),
    {
        Self::new(0, 0, 0)
    }

    /// Version 1.0.0.
    pub fn one() -> (r: Self)
        ensures
            r == Self::new_spec(1, 0, 0),
    {
        Self::new(1, 0, 0)
    }

    /// Version 2.0.0.
    pub fn two() -> (r: Self)
        ensures
            r == Self::new_spec(2, 0, 0),
    {
        Self::new(2, 0, 0)
    }

    /// The version with these numbers.
    pub closed spec fn new_spec(major: u32, minor: u32, patch: u32) -> Self {
        Self { major, minor, patch }
    }

    /// The numbers of [`Self::new_spec`].
    pub proof fn lemma_new_spec(major: u32, minor: u32, patch: u32)
        ensures
            Self::new_spec(major, minor, patch).major_spec() == major,
            Self::new_spec(major, minor, patch).minor_spec() == minor,
            Self::new_spec(major, minor, patch).patch_spec() == patch,
    {
    }

    /// Bump the patch number of a version.
    pub fn bump_patch(self) -> (r: Self)
        requires
            self.patch_spec() < u32::MAX,
        ensures
            r.major_spec() == self.major_spec(),
            r.minor_spec() == self.minor_spec(),
            r.patch_spec() == self.patch_spec() + 1,
    {
        Self::new(self.major, self.minor, self.patch + 1)
    }

    /// Bump the minor number of a version.
    pub fn bump_minor(self) -> (r: Self)
        requires
            self.minor_spec() < u32::MAX,
        ensures
            r.major_spec() == self.major_spec(),
            r.minor_spec() == self.minor_spec() + 1,
            r.patch_spec() == 0,
    {
        Self::new(self.major, self.minor + 1, 0)
    }

    /// Bump the major number of a version.
    pub fn bump_major(self) -> (r: Self)
        requires
            self.major_spec() < u32::MAX,
        ensures
            r.major_spec() == self.major_spec() + 1,
            r.minor_spec() == 0,
            r.patch_spec() == 0,
    {
        Self::new(self.major + 1, 0, 0)
    }

    /// Convert a version into a tuple (major, minor, patch).
    pub fn into_tuple(self) -> (r: (u32, u32, u32))
        ensures
            r == (self.major_spec(), self.minor_spec(), self.patch_spec()),
    {
        (self.major, self.minor, self.patch)
    }
}

/// Lexicographic order of three numbers below `2^32` is the order of their
/// combination `a * 2^64 + b * 2^32 + c`.
proof fn lemma_lex_order(a: int, b: int, c: int, d: int, e: int, f: int)
    requires
        0 <= a < two_pow_32(),
        0 <= b < two_pow_32(),
        0 <= c < two_pow_32(),
        0 <= d < two_pow_32(),
        0 <= e < two_pow_32(),
        0 <= f < two_pow_32(),
    ensures
        (a * two_pow_32() * two_pow_32() + b * two_pow_32() + c < d * two_pow_32() * two_pow_32() + e
            * two_pow_32() + f) == (a < d || (a == d && (b < e || (b == e && c < f)))),
        (a * two_pow_32() * two_pow_32() + b * two_pow_32() + c == d * two_pow_32() * two_pow_32() + e
            * two_pow_32() + f) == (a == d && b == e && c == f),
{
    let n = two_pow_32();
    let x = b * n + c;
    let y = e * n + f;
    assert(0 <= x < n * n) by (nonlinear_arith)
        requires
            0 <= b < n,
            0 <= c < n,
            x == b * n + c,
    ;
    assert(0 <= y < n * n) by (nonlinear_arith)
        requires
            0 <= e < n,
            0 <= f < n,
            y == e * n + f,
    ;
    assert((x < y) == (b < e || (b == e && c < f))) by (nonlinear_arith)
        requires
            0 <= b < n,
            0 <= c < n,
            0 <= e < n,
            0 <= f < n,
            x == b * n + c,
            y == e * n + f,
    ;
    assert((x == y) == (b == e && c == f)) by (nonlinear_arith)
        requires
            0 <= b < n,
            0 <= c < n,
            0 <= e < n,
            0 <= f < n,
            x == b * n + c,
            y == e * n + f,
    ;
    assert((a * n * n + x < d * n * n + y) == (a < d || (a == d && x < y))) by (nonlinear_arith)
        requires
            0 <= a < n,
            0 <= d < n,
            0 <= x < n * n,
            0 <= y < n * n,
    ;
    assert((a * n * n + x == d * n * n + y) == (a == d && x == y)) by (nonlinear_arith)
        requires
            0 <= a < n,
            0 <= d < n,
            0 <= x < n * n,
            0 <= y < n * n,
    ;
    assert(a * n * n + b * n + c == a * n * n + x);
    assert(d * n * n + e * n + f == d * n * n + y);
}

impl Ranked for SemanticVersion {
    open spec fn rank(&self) -> int {
        self.major_spec() * two_pow_32() * two_pow_32() + self.minor_spec() * two_pow_32() + self.patch_spec()
    }

    proof fn lemma_rank_injective(a: Self, b: Self) {
        lemma_lex_order(
            a.major_spec() as int,
            a.minor_spec() as int,
            a.patch_spec() as int,
            b.major_spec() as int,
            b.minor_spec() as int,
            b.patch_spec() as int,
        );
        Self::lemma_fields_determine(a, b);
    }

    fn rank_lt(&self, other: &Self) -> (r: bool) {
        proof {
            lemma_lex_order(
                self.major as int,
                self.minor as int,
                self.patch as int,
                other.major as int,
                other.minor as int,
                other.patch as int,
            );
        }
        self.major < other.major || (self.major == other.major && (self.minor < other.minor || (
        self.minor == other.minor && self.patch < other.patch)))
    }

    fn rank_le(&self, other: &Self) -> (r: bool) {
        proof {
            lemma_lex_order(
                self.major as int,
                self.minor as int,
                self.patch as int,
                other.major as int,
                other.minor as int,
                other.patch as int,
            );
        }
        !other.rank_lt(self)
    }
}

// Convert a tuple (major, minor, patch) into a version.
impl From<(u32, u32, u32)> for SemanticVersion {
    fn from(tuple: (u32, u32, u32)) -> (r: Self) {
        let (major, minor, patch) = tuple;
        Self::new(major, minor, patch)
    }
}

impl vstd::std_specs::convert::FromSpecImpl<(u32, u32, u32)> for SemanticVersion {
    open spec fn obeys_from_spec() -> bool {
        true
    }

    open spec fn from_spec(tuple: (u32, u32, u32)) -> Self {
        Self::new_spec(tuple.0, tuple.1, tuple.2)
    }
}

// Convert a version into a tuple (major, minor, patch).
impl From<SemanticVersion> for (u32, u32, u32) {
    fn from(v: SemanticVersion) -> (r: Self) {
        v.into_tuple()
    }
}

impl vstd::std_specs::convert::FromSpecImpl<SemanticVersion> for (u32, u32, u32) {
    open spec fn obeys_from_spec() -> bool {
        true
    }

    open spec fn from_spec(v: SemanticVersion) -> Self {
        (v.major_spec(), v.minor_spec(), v.patch_spec())
    }
}

// Implement Version for SemanticVersion.
impl Version for SemanticVersion {
    open spec fn min_spec() -> Bound<Self> {
        Bound::Included(Self::new_spec(0, 0, 0))
    }

    open spec fn max_spec() -> Bound<Self> {
        Bound::Unbounded
    }

    proof fn lemma_within_bounds(v: Self) {
        Self::lemma_new_spec(0, 0, 0);
        assert(v.major_spec() * two_pow_32() * two_pow_32() >= 0) by (nonlinear_arith);
        assert(v.minor_spec() * two_pow_32() >= 0) by (nonlinear_arith);
    }

    fn minimum() -> (r: Bound<Self>) {
        Bound::Included(Self::zero())
    }

    fn maximum() -> (r: Bound<Self>) {
        Bound::Unbounded
    }
}

// Text of versions ############################################################

/// The character of a decimal digit.
pub open spec fn digit_char(d: nat) -> char {
    ((d + 48) as u32) as char
}

/// Whether a character is a decimal digit.
pub open spec fn is_digit(c: char) -> bool {
    '0' <= c <= '9'
}

/// The value of a decimal digit character.
pub open spec fn digit_value(c: char) -> nat {
    ((c as u32) - 48) as nat
}

/// The decimal writing of a number, without leading zeros.
pub open spec fn decimal(n: nat) -> Seq<char>
    decreases n,
{
    if n < 10 {
        seq![digit_char(n)]
    } else {
        decimal(n / 10).push(digit_char(n % 10))
    }
}

/// The value of a sequence of decimal digits.
pub open spec fn digits_value(d: Seq<char>) -> nat
    decreases d.len(),
{
    if d.len() == 0 {
        0
    } else {
        digits_value(d.drop_last()) * 10 + digit_value(d.last())
    }
}

/// The first position at or after `from` that does not hold a digit (or the length).
pub open spec fn digits_end(d: Seq<char>, from: int) -> int
    decreases d.len() - from,
{
    if from < 0 || from >= d.len() {
        d.len() as int
    } else if !is_digit(d[from]) {
        from
    } else {
        digits_end(d, from + 1)
    }
}

/// How parsing a `u32` can fail.
#[derive(Debug, Clone, Copy, PartialEq, Eq, Structural)]
pub enum IntErrorKind {
    /// There is nothing to parse.
    Empty,
    /// A character is not a digit.
    InvalidDigit,
    /// The number does not fit in a `u32`.
    PosOverflow,
}

/// Parsing a `u32` the way `str::parse` does: an optional `+`, then decimal
/// digits; reading left to right, the first character that is not a digit,
/// or the first digit that makes the number too large, is the error.
pub open spec fn parse_u32_spec(p: Seq<char>) -> Result<u32, IntErrorKind> {
    if p.len() == 0 {
        Err(IntErrorKind::Empty)
    } else if (p[0] == '+' || p[0] == '-') && p.len() == 1 {
        Err(IntErrorKind::InvalidDigit)
    } else {
        let d = if p[0] == '+' { p.subrange(1, p.len() as int) } else { p };
        let k = digits_end(d, 0);
        if digits_value(d.subrange(0, k)) > u32::MAX {
            Err(IntErrorKind::PosOverflow)
        } else if k < d.len() {
            Err(IntErrorKind::InvalidDigit)
        } else {
            Ok(digits_value(d) as u32)
        }
    }
}

/// The message for each way parsing a `u32` can fail.
pub open spec fn int_error_message(k: IntErrorKind) -> Seq<char> {
    match k {
        IntErrorKind::Empty => "cannot parse integer from empty string"@,
        IntErrorKind::InvalidDigit => "invalid digit found in string"@,
        IntErrorKind::PosOverflow => "number too large to fit in target type"@,
    }
}

/// The first position at or after `from` that holds a dot (or the length).
pub open spec fn find_dot(s: Seq<char>, from: int) -> int
    decreases s.len() - from,
{
    if from < 0 || from >= s.len() {
        s.len() as int
    } else if s[from] == '.' {
        from
    } else {
        find_dot(s, from + 1)
    }
}

/// The text holds exactly two dots, so that it splits into three parts.
pub open spec fn has_three_parts(s: Seq<char>) -> bool {
    let i = find_dot(s, 0);
    let j = find_dot(s, i + 1);
    i < s.len() && j < s.len() && find_dot(s, j + 1) == s.len()
}

/// The `k`th of the three parts separated by dots.
pub open spec fn part(s: Seq<char>, k: int) -> Seq<char> {
    let i = find_dot(s, 0);
    let j = find_dot(s, i + 1);
    if k == 0 {
        s.subrange(0, i)
    } else if k == 1 {
        s.subrange(i + 1, j)
    } else {
        s.subrange(j + 1, s.len() as int)
    }
}

/// The first of the three parts that is not a `u32`.
pub open spec fn first_bad_part(s: Seq<char>) -> int {
    if parse_u32_spec(part(s, 0)) is Err {
        0
    } else if parse_u32_spec(part(s, 1)) is Err {
        1
    } else {
        2
    }
}

/// How parsing the `k`th part fails.
pub open spec fn part_error(s: Seq<char>, k: int) -> IntErrorKind {
    match parse_u32_spec(part(s, k)) {
        Err(e) => e,
        Ok(_) => IntErrorKind::Empty,
    }
}

/// The text of a version: its three numbers, in decimal, separated by dots.
pub open spec fn version_text(v: SemanticVersion) -> Seq<char> {
    decimal(v.major_spec() as nat) + seq!['.'] + decimal(v.minor_spec() as nat) + seq!['.'] + decimal(
        v.patch_spec() as nat,
    )
}

/// Error creating [SemanticVersion] from [String].
#[derive(Debug, PartialEq)]
pub enum VersionParseError {
    /// [SemanticVersion] must contain major, minor, patch versions.
    NotThreeParts {
        /// [SemanticVersion] that was being parsed.
        full_version: String,
    },
    /// Wrapper around [ParseIntError](core::num::ParseIntError).
    ParseIntError {
        /// [SemanticVersion] that was being parsed.
        full_version: String,
        /// A version part where parsing failed.
        version_part: String,
        /// A specific error resulted from parsing a part of the version as [u32].
        parse_error: String,
    },
}

impl VersionParseError {
    /// The message of the error.
    pub fn to_string(&self) -> (r: String)
        ensures
            self matches VersionParseError::NotThreeParts { full_version } ==> r@ == "version "@
                + full_version@ + " must contain 3 numbers separated by dot"@,
            self matches VersionParseError::ParseIntError { full_version, version_part, parse_error }
                ==> r@ == "cannot parse '"@ + version_part@ + "' in '"@ + full_version@ + "' as u32: "@
                + parse_error@,
    {
        match self {
            VersionParseError::NotThreeParts { full_version } => {
                let r = String::from_str("version ");
                let r = r.concat(full_version.as_str());
                r.concat(" must contain 3 numbers separated by dot")
            },
            VersionParseError::ParseIntError { full_version, version_part, parse_error } => {
                let r = String::from_str("cannot parse '");
                let r = r.concat(version_part.as_str());
                let r = r.concat("' in '");
                let r = r.concat(full_version.as_str());
                let r = r.concat("' as u32: ");
                r.concat(parse_error.as_str())
            },
        }
    }
}

/// The character of a decimal digit, as a text.
fn digit_str(d: u32) -> (r: &'static str)
    requires
        d < 10,
    ensures
        r@ == seq![digit_char(d as nat)],
{
    let r = match d {
        0 => {
            proof {
                reveal_strlit("0");
            }
            "0"
        },
        1 => {
            proof {
                reveal_strlit("1");
            }
            "1"
        },
        2 => {
            proof {
                reveal_strlit("2");
            }
            "2"
        },
        3 => {
            proof {
                reveal_strlit("3");
            }
            "3"
        },
        4 => {
            proof {
                reveal_strlit("4");
            }
            "4"
        },
        5 => {
            proof {
                reveal_strlit("5");
            }
            "5"
        },
        6 => {
            proof {
                reveal_strlit("6");
            }
            "6"
        },
        7 => {
            proof {
                reveal_strlit("7");
            }
            "7"
        },
        8 => {
            proof {
                reveal_strlit("8");
            }
            "8"
        },
        9 => {
            proof {
                reveal_strlit("9");
            }
            "9"
        },
        _ => {
            proof {
                reveal_strlit("9");
            }
            "9"
        },
    };
    proof {
        assert(r@ =~= seq![digit_char(d as nat)]);
    }
    r
}

/// The decimal writing of a number, as `u32`'s `Display` writes it.
fn u32_to_string(n: u32) -> (r: String)
    ensures
        r@ == decimal(n as nat),
    decreases n,
{
    if n < 10 {
        String::from_str(digit_str(n))
    } else {
        let mut s = u32_to_string(n / 10);
        s.append(digit_str(n % 10));
        s
    }
}

/// The characters of a text.
fn chars_of(s: &str) -> (r: Vec<char>)
    ensures
        r@ == s@,
{
    let n = s.unicode_len();
    let mut out: Vec<char> = Vec::new();
    let mut i: usize = 0;
    while i < n
        invariant
            0 <= i <= n,
            n == s@.len(),
            out@ == s@.subrange(0, i as int),
        decreases n - i,
    {
        out.push(s.get_char(i));
        i = i + 1;
        assert(out@ =~= s@.subrange(0, i as int));
    }
    assert(s@.subrange(0, n as int) =~= s@);
    out
}

/// The first position at or after `from` that holds a dot (or the length).
fn find_dot_exec(chars: &Vec<char>, from: usize) -> (r: usize)
    requires
        from <= chars@.len(),
    ensures
        r == find_dot(chars@, from as int),
        from <= r <= chars@.len(),
{
    proof {
        lemma_find_dot(chars@, from as int);
    }
    let mut i = from;
    while i < chars.len() && chars[i] != '.'
        invariant
            from <= i <= chars@.len(),
            find_dot(chars@, from as int) == find_dot(chars@, i as int),
        decreases chars@.len() - i,
    {
        i = i + 1;
    }
    i
}

/// Where the next dot is.
proof fn lemma_find_dot(s: Seq<char>, from: int)
    requires
        0 <= from <= s.len(),
    ensures
        from <= find_dot(s, from) <= s.len(),
        find_dot(s, from) < s.len() ==> s[find_dot(s, from)] == '.',
        forall|i: int| from <= i < find_dot(s, from) ==> #[trigger] s[i] != '.',
    decreases s.len() - from,
{
    if from < s.len() && s[from] != '.' {
        lemma_find_dot(s, from + 1);
    }
}

/// Digits values of longer prefixes of digits are not smaller.
proof fn lemma_digits_value_grows(d: Seq<char>, a: int, b: int)
    requires
        0 <= a <= b <= d.len(),
        forall|i: int| 0 <= i < b ==> #[trigger] is_digit(d[i]),
    ensures
        digits_value(d.subrange(0, a)) <= digits_value(d.subrange(0, b)),
    decreases b - a,
{
    if a < b {
        lemma_digits_value_grows(d, a, b - 1);
        assert(d.subrange(0, b).drop_last() =~= d.subrange(0, b - 1));
    }
}

/// Where the digits stop.
proof fn lemma_digits_end(d: Seq<char>, from: int)
    requires
        0 <= from <= d.len(),
    ensures
        from <= digits_end(d, from) <= d.len(),
        forall|i: int| from <= i < digits_end(d, from) ==> #[trigger] is_digit(d[i]),
        digits_end(d, from) < d.len() ==> !is_digit(d[digits_end(d, from)]),
    decreases d.len() - from,
{
    if from < d.len() && is_digit(d[from]) {
        lemma_digits_end(d, from + 1);
    }
}

/// Parse the characters from `from` to `to` as a `u32`, as `str::parse` does.
fn parse_u32_part(chars: &Vec<char>, from: usize, to: usize) -> (r: Result<u32, IntErrorKind>)
    requires
        from <= to <= chars@.len(),
    ensures
        r == parse_u32_spec(chars@.subrange(from as int, to as int)),
{
    let ghost p = chars@.subrange(from as int, to as int);
    if from == to {
        return Err(IntErrorKind::Empty);
    }
    let first = chars[from];
    if (first == '+' || first == '-') && to - from == 1 {
        return Err(IntErrorKind::InvalidDigit);
    }
    let start = if first == '+' { from + 1 } else { from };
    let ghost d = if p[0] == '+' { p.subrange(1, p.len() as int) } else { p };
    proof {
        assert(d =~= chars@.subrange(start as int, to as int));
        lemma_digits_end(d, 0);
    }
    let mut acc: u64 = 0;
    let mut i = start;
    while i < to
        invariant
            from <= start <= i <= to <= chars@.len(),
            p == chars@.subrange(from as int, to as int),
            p.len() > 0,
            !((p[0] == '+' || p[0] == '-') && p.len() == 1),
            d == (if p[0] == '+' { p.subrange(1, p.len() as int) } else { p }),
            d == chars@.subrange(start as int, to as int),
            forall|k: int| 0 <= k < i - start ==> #[trigger] is_digit(d[k]),
            acc == digits_value(d.subrange(0, i - start)),
            acc <= u32::MAX,
            0 <= digits_end(d, 0) <= d.len(),
            forall|k: int| 0 <= k < digits_end(d, 0) ==> #[trigger] is_digit(d[k]),
            digits_end(d, 0) < d.len() ==> !is_digit(d[digits_end(d, 0)]),
        decreases to - i,
    {
        let c = chars[i];
        let ghost m = i - start;
        proof {
            assert(d[m] == c);
        }
        if !('0' <= c && c <= '9') {
            proof {
                assert(digits_end(d, 0) <= m) by {
                    if digits_end(d, 0) > m {
                        assert(is_digit(d[m]));
                    }
                }
                assert(digits_end(d, 0) >= m) by {
                    if digits_end(d, 0) < m {
                        assert(is_digit(d[digits_end(d, 0)]));
                    }
                }
            }
            return Err(IntErrorKind::InvalidDigit);
        }
        let digit = (c as u32 - 48) as u64;
        proof {
            assert(d.subrange(0, m + 1).drop_last() =~= d.subrange(0, m));
            assert(d.subrange(0, m + 1).last() == c);
        }
        acc = acc * 10 + digit;
        if acc > 4294967295u64 {
            proof {
                let k = digits_end(d, 0);
                assert(k >= m + 1) by {
                    if k < m + 1 {
                        assert(is_digit(d[k]));
                    }
                }
                lemma_digits_value_grows(d, m + 1, k);
            }
            return Err(IntErrorKind::PosOverflow);
        }
        i = i + 1;
    }
    proof {
        let k = digits_end(d, 0);
        assert(k == d.len()) by {
            if k < d.len() {
                assert(is_digit(d[k]));
            }
        }
        assert(d.subrange(0, d.len() as int) =~= d);
    }
    Ok(acc as u32)
}

/// The message of a way parsing a `u32` can fail.
fn int_error_message_exec(k: IntErrorKind) -> (r: String)
    ensures
        r@ == int_error_message(k),
{
    match k {
        IntErrorKind::Empty => "cannot parse integer from empty string".to_owned(),
        IntErrorKind::InvalidDigit => "invalid digit found in string".to_owned(),
        IntErrorKind::PosOverflow => "number too large to fit in target type".to_owned(),
    }
}

/// The decimal writing of a number is a non-empty run of digits whose value
/// is the number.
pub proof fn lemma_decimal(n: nat)
    ensures
        decimal(n).len() >= 1,
        forall|i: int| 0 <= i < decimal(n).len() ==> #[trigger] is_digit(decimal(n)[i]),
        digits_value(decimal(n)) == n,
    decreases n,
{
    if n < 10 {
        assert(digit_value(digit_char(n)) == n);
        assert(decimal(n) == seq![digit_char(n)]);
        assert(seq![digit_char(n)].drop_last() =~= Seq::<char>::empty());
        assert(digits_value(seq![digit_char(n)]) == digits_value(Seq::<char>::empty()) * 10 + n);
    } else {
        lemma_decimal(n / 10);
        let d = n % 10;
        assert(digit_value(digit_char(d)) == d);
        assert(decimal(n) == decimal(n / 10).push(digit_char(d)));
        assert(decimal(n).drop_last() =~= decimal(n / 10));
        assert(decimal(n).last() == digit_char(d));
        assert(digits_value(decimal(n)) == digits_value(decimal(n / 10)) * 10 + d);
        assert((n / 10) * 10 + n % 10 == n);
    }
}

/// The first dot at or after `from` is at `j` when none comes before it.
proof fn lemma_find_dot_at(s: Seq<char>, from: int, j: int)
    requires
        0 <= from <= j <= s.len(),
        forall|i: int| from <= i < j ==> #[trigger] s[i] != '.',
        j == s.len() || s[j] == '.',
    ensures
        find_dot(s, from) == j,
    decreases j - from,
{
    if from < j {
        lemma_find_dot_at(s, from + 1, j);
    }
}

/// A run of digits parses to its value, when that fits in a `u32`.
proof fn lemma_parse_digits(p: Seq<char>)
    requires
        p.len() >= 1,
        forall|i: int| 0 <= i < p.len() ==> #[trigger] is_digit(p[i]),
        digits_value(p) <= u32::MAX,
    ensures
        parse_u32_spec(p) == Ok::<u32, IntErrorKind>(digits_value(p) as u32),
{
    lemma_digits_end(p, 0);
    assert(digits_end(p, 0) == p.len()) by {
        if digits_end(p, 0) < p.len() {
            assert(is_digit(p[digits_end(p, 0)]));
        }
    }
    assert(is_digit(p[0]));
    assert(p.subrange(0, p.len() as int) =~= p);
}

/// Reading back the text of a version gives the version: the text splits
/// into three parts, each the decimal writing of one of the numbers.
pub proof fn law_version_text_round_trip(v: SemanticVersion)
    ensures
        has_three_parts(version_text(v)),
        parse_u32_spec(part(version_text(v), 0)) == Ok::<u32, IntErrorKind>(v.major_spec()),
        parse_u32_spec(part(version_text(v), 1)) == Ok::<u32, IntErrorKind>(v.minor_spec()),
        parse_u32_spec(part(version_text(v), 2)) == Ok::<u32, IntErrorKind>(v.patch_spec()),
{
    let a = decimal(v.major_spec() as nat);
    let b = decimal(v.minor_spec() as nat);
    let c = decimal(v.patch_spec() as nat);
    lemma_decimal(v.major_spec() as nat);
    lemma_decimal(v.minor_spec() as nat);
    lemma_decimal(v.patch_spec() as nat);
    let t = version_text(v);
    assert(t == a + seq!['.'] + b + seq!['.'] + c);
    let i = a.len() as int;
    let j = i + 1 + b.len();
    assert forall|k: int| 0 <= k < i implies #[trigger] t[k] != '.' by {
        assert(t[k] == a[k]);
        assert(is_digit(a[k]));
    }
    assert(t[i] == '.');
    lemma_find_dot_at(t, 0, i);
    assert forall|k: int| i + 1 <= k < j implies #[trigger] t[k] != '.' by {
        assert(t[k] == b[k - i - 1]);
        assert(is_digit(b[k - i - 1]));
    }
    assert(t[j] == '.');
    lemma_find_dot_at(t, i + 1, j);
    assert forall|k: int| j + 1 <= k < t.len() implies #[trigger] t[k] != '.' by {
        assert(t[k] == c[k - j - 1]);
        assert(is_digit(c[k - j - 1]));
    }
    lemma_find_dot_at(t, j + 1, t.len() as int);
    assert(part(t, 0) =~= a);
    assert(part(t, 1) =~= b);
    assert(part(t, 2) =~= c);
    lemma_parse_digits(a);
    lemma_parse_digits(b);
    lemma_parse_digits(c);
}

impl SemanticVersion {
    /// The text of the version: `major.minor.patch`.
    pub fn to_string(&self) -> (r: String)
        ensures
            r@ == version_text(*self),
    {
        let r = u32_to_string(self.major);
        let r = r.concat(".");
        let minor = u32_to_string(self.minor);
        let r = r.concat(minor.as_str());
        let r = r.concat(".");
        let patch = u32_to_string(self.patch);
        let r = r.concat(patch.as_str());
        proof {
            reveal_strlit(".");
        }
        r
    }

    /// Parse a version written `major.minor.patch`.
    pub fn parse(s: &str) -> (r: Result<Self, VersionParseError>)
        ensures
            (r is Ok) == (has_three_parts(s@) && parse_u32_spec(part(s@, 0)) is Ok && parse_u32_spec(
                part(s@, 1),
            ) is Ok && parse_u32_spec(part(s@, 2)) is Ok),
            r matches Ok(v) ==> parse_u32_spec(part(s@, 0)) == Ok::<u32, IntErrorKind>(v.major_spec())
                && parse_u32_spec(part(s@, 1)) == Ok::<u32, IntErrorKind>(v.minor_spec())
                && parse_u32_spec(part(s@, 2)) == Ok::<u32, IntErrorKind>(v.patch_spec()),
            (r matches Err(VersionParseError::NotThreeParts { .. })) == !has_three_parts(s@),
            r matches Err(VersionParseError::NotThreeParts { full_version }) ==> full_version@ == s@,
            r matches Err(VersionParseError::ParseIntError { full_version, version_part, parse_error })
                ==> full_version@ == s@ && version_part@ == part(s@, first_bad_part(s@))
                && parse_u32_spec(part(s@, first_bad_part(s@))) is Err && parse_error@
                == int_error_message(part_error(s@, first_bad_part(s@))),
    {
        let chars = chars_of(s);
        let i = find_dot_exec(&chars, 0);
        if i == chars.len() {
            return Err(VersionParseError::NotThreeParts { full_version: s.to_owned() });
        }
        let j = find_dot_exec(&chars, i + 1);
        if j == chars.len() {
            return Err(VersionParseError::NotThreeParts { full_version: s.to_owned() });
        }
        let k = find_dot_exec(&chars, j + 1);
        if k != chars.len() {
            return Err(VersionParseError::NotThreeParts { full_version: s.to_owned() });
        }
        let n = chars.len();
        let major = match parse_u32_part(&chars, 0, i) {
            Ok(v) => v,
            Err(e) => {
                return Err(
                    VersionParseError::ParseIntError {
                        full_version: s.to_owned(),
                        version_part: s.substring_char(0, i).to_owned(),
                        parse_error: int_error_message_exec(e),
                    },
                );
            },
        };
        let minor = match parse_u32_part(&chars, i + 1, j) {
            Ok(v) => v,
            Err(e) => {
                return Err(
                    VersionParseError::ParseIntError {
                        full_version: s.to_owned(),
                        version_part: s.substring_char(i + 1, j).to_owned(),
                        parse_error: int_error_message_exec(e),
                    },
                );
            },
        };
        let patch = match parse_u32_part(&chars, j + 1, n) {
            Ok(v) => v,
            Err(e) => {
                return Err(
                    VersionParseError::ParseIntError {
                        full_version: s.to_owned(),
                        version_part: s.substring_char(j + 1, n).to_owned(),
                        parse_error: int_error_message_exec(e),
                    },
                );
            },
        };
        Ok(Self::new(major, minor, patch))
    }
}

impl core::str::FromStr for SemanticVersion {
    type Err = VersionParseError;

    fn from_str(s: &str) -> (r: Result<Self, Self::Err>)
        ensures
            (r is Ok) == (has_three_parts(s@) && parse_u32_spec(part(s@, 0)) is Ok && parse_u32_spec(
                part(s@, 1),
            ) is Ok && parse_u32_spec(part(s@, 2)) is Ok),
            r matches Ok(v) ==> parse_u32_spec(part(s@, 0)) == Ok::<u32, IntErrorKind>(v.major_spec())
                && parse_u32_spec(part(s@, 1)) == Ok::<u32, IntErrorKind>(v.minor_spec())
                && parse_u32_spec(part(s@, 2)) == Ok::<u32, IntErrorKind>(v.patch_spec()),
            (r matches Err(VersionParseError::NotThreeParts { .. })) == !has_three_parts(s@),
            r matches Err(VersionParseError::NotThreeParts { full_version }) ==> full_version@ == s@,
            r matches Err(VersionParseError::ParseIntError { full_version, version_part, parse_error })
                ==> full_version@ == s@ && version_part@ == part(s@, first_bad_part(s@))
                && parse_u32_spec(part(s@, first_bad_part(s@))) is Err && parse_error@
                == int_error_message(part_error(s@, first_bad_part(s@))),
    {
        Self::parse(s)
    }
}

// SemanticInterval ############################################################

/// An interval of semantic versions.
#[derive(Debug, Clone, Copy, Eq, PartialEq, Structural)]
pub struct SemanticInterval {
    start: Bound<SemanticVersion>,
    end: Bound<SemanticVersion>,
}

impl SemanticInterval {
    /// Ease the creation of SemanticInterval from classic ranges: (2, 0, 0)..(2, 5, 0)
    pub fn from_bounds(start: Bound<(u32, u32, u32)>, end: Bound<(u32, u32, u32)>) -> (r: Self)
        ensures
            r.start_spec() == (match start {
                Bound::Unbounded => Bound::Included(SemanticVersion::new_spec(0, 0, 0)),
                Bound::Included(t) => Bound::Included(SemanticVersion::new_spec(t.0, t.1, t.2)),
                Bound::Excluded(t) => Bound::Excluded(SemanticVersion::new_spec(t.0, t.1, t.2)),
            }),
            r.end_spec() == (match end {
                Bound::Unbounded => Bound::Unbounded,
                Bound::Included(t) => Bound::Included(SemanticVersion::new_spec(t.0, t.1, t.2)),
                Bound::Excluded(t) => Bound::Excluded(SemanticVersion::new_spec(t.0, t.1, t.2)),
            }),
    {
        let f = |t: (u32, u32, u32)| -> (v: SemanticVersion)
            ensures
                v == SemanticVersion::new_spec(t.0, t.1, t.2),
            { SemanticVersion::from(t) };
        <Self as Interval<SemanticVersion>>::new(map_bound(f, start), map_bound(f, end))
    }
}

impl Interval<SemanticVersion> for SemanticInterval {
    open spec fn accepts(start_bound: Bound<SemanticVersion>, end_bound: Bound<SemanticVersion>) -> bool {
        true
    }

    /// Only an unbounded start is replaced, by the first version.
    open spec fn keeps(start_bound: Bound<SemanticVersion>, end_bound: Bound<SemanticVersion>) -> bool {
        !(start_bound is Unbounded)
    }

    closed spec fn start_spec(&self) -> Bound<SemanticVersion> {
        self.start
    }

    closed spec fn end_spec(&self) -> Bound<SemanticVersion> {
        self.end
    }

    closed spec fn made(&self) -> bool {
        !(self.start is Unbounded)
    }

    fn new(start_bound: Bound<SemanticVersion>, end_bound: Bound<SemanticVersion>) -> (r: Self)
        ensures
            r.start_spec() == (match start_bound {
                Bound::Unbounded => Bound::Included(SemanticVersion::new_spec(0, 0, 0)),
                _ => start_bound,
            }),
            r.end_spec() == end_bound,
    {
        let start = match &start_bound {
            Bound::Unbounded => Bound::Included(SemanticVersion::zero()),
            _ => start_bound,
        };
        proof {
            assert forall|v: SemanticVersion| #[trigger]
                seg_has((start, end_bound), point(v)) == seg_has((start_bound, end_bound), point(v)) by {
                SemanticVersion::lemma_within_bounds(v);
            }
        }
        Self { start, end: end_bound }
    }

    fn start_bound(&self) -> (r: Bound<&SemanticVersion>) {
        ref_bound(&self.start)
    }

    fn end_bound(&self) -> (r: Bound<&SemanticVersion>) {
        ref_bound(&self.end)
    }

    proof fn lemma_start_after_min(a: Self) {
        SemanticVersion::lemma_new_spec(0, 0, 0);
        match a.start {
            Bound::Included(v) => SemanticVersion::lemma_within_bounds(v),
            Bound::Excluded(v) => SemanticVersion::lemma_within_bounds(v),
            Bound::Unbounded => {},
        }
    }

    proof fn lemma_keeps(a: Self, b: Self) {
    }

    proof fn lemma_full() {
    }
}

// NumberVersion ###############################################################

/// Simplest versions possible, just a positive number.
#[derive(Debug, Copy, Clone, Ord, PartialOrd, Eq, PartialEq, Structural, Hash)]
pub struct NumberVersion(pub u32);

// Convert an usize into a version.
impl From<u32> for NumberVersion {
    fn from(v: u32) -> (r: Self) {
        Self(v)
    }
}

impl vstd::std_specs::convert::FromSpecImpl<u32> for NumberVersion {
    open spec fn obeys_from_spec() -> bool {
        true
    }

    open spec fn from_spec(v: u32) -> Self {
        NumberVersion(v)
    }
}

// Convert a version into an usize.
impl From<NumberVersion> for u32 {
    fn from(version: NumberVersion) -> (r: Self) {
        version.0
    }
}

impl vstd::std_specs::convert::FromSpecImpl<NumberVersion> for u32 {
    open spec fn obeys_from_spec() -> bool {
        true
    }

    open spec fn from_spec(version: NumberVersion) -> Self {
        version.0
    }
}

impl NumberVersion {
    /// The text of the version: its number.
    pub fn to_string(&self) -> (r: String)
        ensures
            r@ == decimal(self.0 as nat),
    {
        u32_to_string(self.0)
    }

    /// The next version.
    pub fn bump(&self) -> (r: Self)
        requires
            self.0 < u32::MAX,
        ensures
            r.0 == self.0 + 1,
    {
        NumberVersion(self.0 + 1)
    }
}

impl Ranked for NumberVersion {
    open spec fn rank(&self) -> int {
        self.0 as int
    }

    proof fn lemma_rank_injective(a: Self, b: Self) {
    }

    fn rank_lt(&self, other: &Self) -> (r: bool) {
        self.0 < other.0
    }

    fn rank_le(&self, other: &Self) -> (r: bool) {
        self.0 <= other.0
    }
}

impl Version for NumberVersion {
    open spec fn min_spec() -> Bound<Self> {
        Bound::Included(NumberVersion(0))
    }

    open spec fn max_spec() -> Bound<Self> {
        Bound::Unbounded
    }

    proof fn lemma_within_bounds(v: Self) {
    }

    fn minimum() -> (r: Bound<Self>) {
        Bound::Included(NumberVersion(0))
    }

    fn maximum() -> (r: Bound<Self>) {
        Bound::Unbounded
    }
}

// NumberInterval ##############################################################

/// An interval of number versions: from a first one included, up to a last
/// one excluded if any.
#[derive(Debug, Clone, Copy, Eq, PartialEq, Structural)]
pub struct NumberInterval {
    start: NumberVersion,
    end: Option<NumberVersion>,
}

impl NumberInterval {
    /// The first version.
    pub closed spec fn first_version(self) -> NumberVersion {
        self.start
    }

    /// The first version after the interval, if any.
    pub closed spec fn version_after(self) -> Option<NumberVersion> {
        self.end
    }

    /// Ease the creation of NumberInterval from classic ranges: 0..10
    pub fn from_bounds(start: Bound<u32>, end: Bound<u32>) -> (r: Self)
        requires
            start matches Bound::Excluded(v) ==> v < u32::MAX,
            end matches Bound::Included(v) ==> v < u32::MAX,
        ensures
            r.first_version() == (match start {
                Bound::Unbounded => NumberVersion(0),
                Bound::Included(v) => NumberVersion(v),
                Bound::Excluded(v) => NumberVersion((v + 1) as u32),
            }),
            r.version_after() == (match end {
                Bound::Unbounded => None,
                Bound::Included(v) => Some(NumberVersion((v + 1) as u32)),
                Bound::Excluded(v) => Some(NumberVersion(v)),
            }),
    {
        let f = |v: u32| -> (n: NumberVersion)
            ensures
                n == NumberVersion(v),
            { NumberVersion::from(v) };
        <Self as Interval<NumberVersion>>::new(map_bound(f, start), map_bound(f, end))
    }
}

impl Interval<NumberVersion> for NumberInterval {
    /// The version after an excluded start or an included end must be a `u32`.
    open spec fn accepts(start_bound: Bound<NumberVersion>, end_bound: Bound<NumberVersion>) -> bool {
        &&& start_bound matches Bound::Excluded(v) ==> v.0 < u32::MAX
        &&& end_bound matches Bound::Included(v) ==> v.0 < u32::MAX
    }

    /// The interval stores an included start and an excluded end, or none.
    open spec fn keeps(start_bound: Bound<NumberVersion>, end_bound: Bound<NumberVersion>) -> bool {
        start_bound is Included && !(end_bound is Included)
    }

    open spec fn start_spec(&self) -> Bound<NumberVersion> {
        Bound::Included(self.first_version())
    }

    open spec fn end_spec(&self) -> Bound<NumberVersion> {
        match self.version_after() {
            None => Bound::Unbounded,
            Some(v) => Bound::Excluded(v),
        }
    }

    open spec fn made(&self) -> bool {
        true
    }

    fn new(start_bound: Bound<NumberVersion>, end_bound: Bound<NumberVersion>) -> (r: Self)
        ensures
            r.first_version() == (match start_bound {
                Bound::Unbounded => NumberVersion(0),
                Bound::Excluded(v) => NumberVersion((v.0 + 1) as u32),
                Bound::Included(v) => v,
            }),
            r.version_after() == (match end_bound {
                Bound::Unbounded => None,
                Bound::Excluded(v) => Some(v),
                Bound::Included(v) => Some(NumberVersion((v.0 + 1) as u32)),
            }),
    {
        let start = match start_bound {
            Bound::Unbounded => NumberVersion(0),
            Bound::Excluded(v) => v.bump(),
            Bound::Included(v) => v,
        };
        let end = match end_bound {
            Bound::Unbounded => None,
            Bound::Excluded(v) => Some(v),
            Bound::Included(v) => Some(v.bump()),
        };
        Self { start, end }
    }

    fn start_bound(&self) -> (r: Bound<&NumberVersion>) {
        Bound::Included(&self.start)
    }

    fn end_bound(&self) -> (r: Bound<&NumberVersion>) {
        match &self.end {
            None => Bound::Unbounded,
            Some(v) => Bound::Excluded(v),
        }
    }

    proof fn lemma_start_after_min(a: Self) {
    }

    proof fn lemma_keeps(a: Self, b: Self) {
    }

    proof fn lemma_full() {
    }
}

// Helper ##################################################################

/// The bound, read through the reference it holds.
pub open spec fn deref_bound<V>(b: Bound<&V>) -> Bound<V> {
    match b {
        Bound::Included(v) => Bound::Included(*v),
        Bound::Excluded(v) => Bound::Excluded(*v),
        Bound::Unbounded => Bound::Unbounded,
    }
}

/// Apply `f` to the version of a bound, keeping the kind of the bound.
pub fn map_bound<V, T, F: Fn(V) -> T>(f: F, bound: Bound<V>) -> (r: Bound<T>)
    requires
        bound matches Bound::Included(b) ==> f.requires((b,)),
        bound matches Bound::Excluded(b) ==> f.requires((b,)),
    ensures
        bound is Unbounded ==> r is Unbounded,
        bound matches Bound::Excluded(b) ==> r matches Bound::Excluded(t) && f.ensures((b,), t),
        bound matches Bound::Included(b) ==> r matches Bound::Included(t) && f.ensures((b,), t),
{
    match bound {
        Bound::Unbounded => Bound::Unbounded,
        Bound::Excluded(b) => Bound::Excluded(f(b)),
        Bound::Included(b) => Bound::Included(f(b)),
    }
}

/// Turn an included bound into an excluded one and back.
pub fn flip_bound<V>(bound: Bound<V>) -> (r: Bound<V>)
    ensures
        r == (match bound {
            Bound::Unbounded => Bound::Unbounded,
            Bound::Excluded(b) => Bound::Included(b),
            Bound::Included(b) => Bound::Excluded(b),
        }),
{
    match bound {
        Bound::Unbounded => Bound::Unbounded,
        Bound::Excluded(b) => Bound::Included(b),
        Bound::Included(b) => Bound::Excluded(b),
    }
}

/// A bound on a reference to the version of a bound.
pub fn ref_bound<V>(bound: &Bound<V>) -> (r: Bound<&V>)
    ensures
        deref_bound(r) == *bound,
{
    match bound {
        Bound::Included(x) => Bound::Included(x),
        Bound::Excluded(x) => Bound::Excluded(x),
        Bound::Unbounded => Bound::Unbounded,
    }
}

/// A bound on a clone of the version a bound refers to.
pub fn owned_bound<V: Clone>(bound: Bound<&V>) -> (r: Bound<V>)
    ensures
        bound is Unbounded ==> r is Unbounded,
        bound matches Bound::Included(x) ==> r matches Bound::Included(y) && cloned(*x, y),
        bound matches Bound::Excluded(x) ==> r matches Bound::Excluded(y) && cloned(*x, y),
{
    match bound {
        Bound::Unbounded => Bound::Unbounded,
        Bound::Included(x) => Bound::Included(x.clone()),
        Bound::Excluded(x) => Bound::Excluded(x.clone()),
    }
}

/// A bound on a copy of the version a bound refers to.
pub(crate) fn copied_bound<V: Copy>(bound: Bound<&V>) -> (r: Bound<V>)
    ensures
        r == deref_bound(bound),
{
    match bound {
        Bound::Unbounded => Bound::Unbounded,
        Bound::Included(x) => Bound::Included(*x),
        Bound::Excluded(x) => Bound::Excluded(*x),
    }
}

} // verus!
