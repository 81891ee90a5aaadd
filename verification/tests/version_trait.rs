use pubgrub::version_trait::{
    flip_bound, map_bound, owned_bound, ref_bound, Bound, Interval, NumberInterval, NumberVersion,
    SemanticInterval, SemanticVersion, Version, VersionParseError,
};

#[test]
fn from_str_for_semantic_version() {
    let parse = |str: &str| str.parse::<SemanticVersion>();
    assert!(parse(&SemanticVersion::new(0, 1, 0).to_string()).is_ok());
    assert!(parse("1.2.3").is_ok());
    assert_eq!(
        parse("1.abc.3"),
        Err(VersionParseError::ParseIntError {
            full_version: "1.abc.3".to_owned(),
            version_part: "abc".to_owned(),
            parse_error: "invalid digit found in string".to_owned(),
        })
    );
    assert_eq!(
        parse("1.2.-3"),
        Err(VersionParseError::ParseIntError {
            full_version: "1.2.-3".to_owned(),
            version_part: "-3".to_owned(),
            parse_error: "invalid digit found in string".to_owned(),
        })
    );
    assert_eq!(
        parse("1.2.9876543210"),
        Err(VersionParseError::ParseIntError {
            full_version: "1.2.9876543210".to_owned(),
            version_part: "9876543210".to_owned(),
            parse_error: "number too large to fit in target type".to_owned(),
        })
    );
    assert_eq!(
        parse("1.2"),
        Err(VersionParseError::NotThreeParts {
            full_version: "1.2".to_owned(),
        })
    );
    assert_eq!(
        parse("1.2.3."),
        Err(VersionParseError::NotThreeParts {
            full_version: "1.2.3.".to_owned(),
        })
    );
}

#[test]
fn parse_agrees_with_std_on_parts() {
    let cases = [
        "", "+", "-", "+7", "007", "4294967295", "4294967296", "99999999999a", "1a", "a1", " 1",
    ];
    for part in cases {
        let text = format!("1.2.{part}");
        let ours = SemanticVersion::parse(&text);
        match part.parse::<u32>() {
            Ok(n) => assert_eq!(ours, Ok(SemanticVersion::new(1, 2, n))),
            Err(e) => assert_eq!(
                ours,
                Err(VersionParseError::ParseIntError {
                    full_version: text.clone(),
                    version_part: part.to_owned(),
                    parse_error: e.to_string(),
                })
            ),
        }
    }
}

#[test]
fn parse_reports_the_first_bad_part() {
    assert_eq!(
        SemanticVersion::parse("x.y.z"),
        Err(VersionParseError::ParseIntError {
            full_version: "x.y.z".to_owned(),
            version_part: "x".to_owned(),
            parse_error: "invalid digit found in string".to_owned(),
        })
    );
    assert_eq!(
        SemanticVersion::parse("1..3"),
        Err(VersionParseError::ParseIntError {
            full_version: "1..3".to_owned(),
            version_part: "".to_owned(),
            parse_error: "cannot parse integer from empty string".to_owned(),
        })
    );
    assert_eq!(
        SemanticVersion::parse("..."),
        Err(VersionParseError::NotThreeParts {
            full_version: "...".to_owned(),
        })
    );
}

#[test]
fn version_text_round_trip() {
    for v in [
        SemanticVersion::new(0, 0, 0),
        SemanticVersion::new(10, 200, 3000),
        SemanticVersion::new(u32::MAX, 0, u32::MAX),
    ] {
        assert_eq!(v.to_string().parse::<SemanticVersion>(), Ok(v));
    }
    assert_eq!(SemanticVersion::new(1, 20, 300).to_string(), "1.20.300");
}

#[test]
fn version_parse_error_messages() {
    let e = SemanticVersion::parse("1.2").unwrap_err();
    assert_eq!(e.to_string(), "version 1.2 must contain 3 numbers separated by dot");
    let e = SemanticVersion::parse("1.abc.3").unwrap_err();
    assert_eq!(
        e.to_string(),
        "cannot parse 'abc' in '1.abc.3' as u32: invalid digit found in string"
    );
}

#[test]
fn semantic_version_constructors_and_bumps() {
    assert_eq!(SemanticVersion::zero(), SemanticVersion::new(0, 0, 0));
    assert_eq!(SemanticVersion::one(), SemanticVersion::new(1, 0, 0));
    assert_eq!(SemanticVersion::two(), SemanticVersion::new(2, 0, 0));
    let v = SemanticVersion::new(1, 2, 3);
    assert_eq!(v.bump_patch(), SemanticVersion::new(1, 2, 4));
    assert_eq!(v.bump_minor(), SemanticVersion::new(1, 3, 0));
    assert_eq!(v.bump_major(), SemanticVersion::new(2, 0, 0));
    assert_eq!(SemanticVersion::from((4, 5, 6)), SemanticVersion::new(4, 5, 6));
    let t: (u32, u32, u32) = SemanticVersion::new(4, 5, 6).into();
    assert_eq!(t, (4, 5, 6));
    assert_eq!(SemanticVersion::minimum(), Bound::Included(SemanticVersion::zero()));
    assert_eq!(SemanticVersion::maximum(), Bound::Unbounded);
}

#[test]
fn number_version_basics() {
    assert_eq!(NumberVersion::from(3), NumberVersion(3));
    let n: u32 = NumberVersion(7).into();
    assert_eq!(n, 7);
    assert_eq!(NumberVersion(41).bump(), NumberVersion(42));
    assert_eq!(NumberVersion(12).to_string(), "12");
    assert_eq!(NumberVersion(0).to_string(), "0");
    assert_eq!(NumberVersion(u32::MAX).to_string(), "4294967295");
    assert_eq!(NumberVersion(1000000007).to_string(), "1000000007");
    assert_eq!(NumberVersion::minimum(), Bound::Included(NumberVersion(0)));
    assert_eq!(NumberVersion::maximum(), Bound::Unbounded);
}

#[test]
fn intervals_from_bounds() {
    // The classic range 0..10.
    let i = NumberInterval::from_bounds(Bound::Included(0), Bound::Excluded(10));
    assert_eq!(i.start_bound(), Bound::Included(&NumberVersion(0)));
    assert_eq!(i.end_bound(), Bound::Excluded(&NumberVersion(10)));
    let i = NumberInterval::from_bounds(Bound::Excluded(0), Bound::Included(10));
    assert_eq!(i.start_bound(), Bound::Included(&NumberVersion(1)));
    assert_eq!(i.end_bound(), Bound::Excluded(&NumberVersion(11)));
    let i = NumberInterval::new(Bound::Unbounded, Bound::Included(NumberVersion(3)));
    assert_eq!(i.start_bound(), Bound::Included(&NumberVersion(0)));
    assert_eq!(i.end_bound(), Bound::Excluded(&NumberVersion(4)));
    let s = SemanticInterval::from_bounds(Bound::Unbounded, Bound::Excluded((2, 0, 0)));
    assert_eq!(s.start_bound(), Bound::Included(&SemanticVersion::zero()));
    assert_eq!(s.end_bound(), Bound::Excluded(&SemanticVersion::two()));
}

#[test]
fn bound_helpers() {
    assert_eq!(flip_bound(Bound::Included(1)), Bound::Excluded(1));
    assert_eq!(flip_bound(Bound::Excluded(1)), Bound::Included(1));
    assert_eq!(flip_bound::<u32>(Bound::Unbounded), Bound::Unbounded);
    assert_eq!(map_bound(|x: u32| x + 1, Bound::Included(1)), Bound::Included(2));
    assert_eq!(map_bound(|x: u32| x + 1, Bound::Excluded(1)), Bound::Excluded(2));
    assert_eq!(ref_bound(&Bound::Included(5)), Bound::Included(&5));
    assert_eq!(owned_bound(Bound::Excluded(&5)), Bound::Excluded(5));
    let name = String::from("x");
    assert_eq!(owned_bound(Bound::Included(&name)), Bound::Included(String::from("x")));
    assert_eq!(owned_bound::<String>(Bound::Unbounded), Bound::Unbounded);
}
