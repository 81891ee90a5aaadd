use pubgrub::range::Ranges;
use pubgrub::semver_req::{
    ranges_caret, ranges_exact, ranges_greater, ranges_greater_eq, ranges_less, ranges_less_eq,
    ranges_tilde, ranges_wildcard, Comparator, Op, SemverVersion,
};

fn v(major: u64, minor: u64, patch: u64) -> SemverVersion {
    SemverVersion::new(major, minor, patch)
}

fn samples() -> Vec<SemverVersion> {
    let mut out = Vec::new();
    for major in 0..4 {
        for minor in 0..4 {
            for patch in 0..4 {
                out.push(v(major, minor, patch));
            }
        }
    }
    out
}

fn holds(r: &Ranges<SemverVersion>) -> Vec<(u64, u64, u64)> {
    samples()
        .into_iter()
        .filter(|u| r.contains(u))
        .map(|u| (u.major, u.minor, u.patch))
        .collect()
}

fn check(r: &Ranges<SemverVersion>, expected: impl Fn(&SemverVersion) -> bool) {
    for u in samples() {
        assert_eq!(r.contains(&u), expected(&u), "{u:?}");
    }
}

fn t(u: &SemverVersion) -> (u64, u64, u64) {
    (u.major, u.minor, u.patch)
}

#[test]
fn exact_requirements() {
    check(&ranges_exact(1, None, None), |u| u.major == 1);
    check(&ranges_exact(1, Some(2), None), |u| u.major == 1 && u.minor == 2);
    check(&ranges_exact(1, Some(2), Some(3)), |u| t(u) == (1, 2, 3));
    assert_eq!(holds(&ranges_exact(1, Some(2), Some(3))), vec![(1, 2, 3)]);
}

#[test]
fn comparison_requirements() {
    check(&ranges_greater(1, None, None), |u| u.major > 1);
    check(&ranges_greater(1, Some(2), None), |u| (u.major, u.minor) > (1, 2));
    check(&ranges_greater(1, Some(2), Some(3)), |u| t(u) > (1, 2, 3));
    check(&ranges_greater_eq(1, None, None), |u| t(u) >= (1, 0, 0));
    check(&ranges_greater_eq(1, Some(2), None), |u| t(u) >= (1, 2, 0));
    check(&ranges_less(1, Some(2), None), |u| t(u) < (1, 2, 0));
    check(&ranges_less(2, None, None), |u| t(u) < (2, 0, 0));
    check(&ranges_less_eq(1, None, None), |u| u.major <= 1);
    check(&ranges_less_eq(1, Some(2), None), |u| (u.major, u.minor) <= (1, 2));
    check(&ranges_less_eq(1, Some(2), Some(3)), |u| t(u) <= (1, 2, 3));
}

#[test]
fn tilde_requirements() {
    check(&ranges_tilde(1, Some(2), Some(1)), |u| {
        t(u) >= (1, 2, 1) && t(u) < (1, 3, 0)
    });
    check(&ranges_tilde(1, Some(2), None), |u| u.major == 1 && u.minor == 2);
    check(&ranges_tilde(1, None, None), |u| u.major == 1);
}

#[test]
fn caret_requirements() {
    check(&ranges_caret(1, Some(2), Some(3)), |u| t(u) >= (1, 2, 3) && t(u) < (2, 0, 0));
    check(&ranges_caret(0, Some(2), Some(3)), |u| t(u) >= (0, 2, 3) && t(u) < (0, 3, 0));
    check(&ranges_caret(0, Some(0), Some(3)), |u| t(u) == (0, 0, 3));
    check(&ranges_caret(1, Some(2), None), |u| t(u) >= (1, 2, 0) && t(u) < (2, 0, 0));
    check(&ranges_caret(0, Some(2), None), |u| t(u) >= (0, 2, 0) && t(u) < (0, 3, 0));
    check(&ranges_caret(0, Some(0), None), |u| u.major == 0 && u.minor == 0);
    check(&ranges_caret(1, None, None), |u| u.major == 1);
}

#[test]
fn wildcard_requirements() {
    check(&ranges_wildcard(1, Some(2), None), |u| u.major == 1 && u.minor == 2);
    check(&ranges_wildcard(1, None, None), |u| u.major == 1);
}

#[test]
fn requirements_intersect_their_comparators() {
    let req = [
        Comparator { op: Op::GreaterEq, major: 1, minor: Some(2), patch: None },
        Comparator { op: Op::Less, major: 2, minor: Some(1), patch: None },
    ];
    let r = Ranges::<SemverVersion>::from_req(&req);
    check(&r, |u| t(u) >= (1, 2, 0) && t(u) < (2, 1, 0));
    // No comparator: every version.
    check(&Ranges::<SemverVersion>::from_req(&[]), |_| true);
    // Contradicting comparators: no version.
    let none = [
        Comparator { op: Op::Caret, major: 1, minor: None, patch: None },
        Comparator { op: Op::Exact, major: 2, minor: None, patch: None },
    ];
    assert!(holds(&Ranges::<SemverVersion>::from_req(&none)).is_empty());
}
