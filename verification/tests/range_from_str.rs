use range_split::range_from_str::{
    try_from_str, find_index_of_only_comma, Bound, BoundedRange, BoundedRangeParseError,
};

#[test]
fn i() {
    let str = "(1KB,10MB)";
    let expected = (1_000, 10_000_000);

    assert_eq!(
        try_from_str(str).unwrap(),
        BoundedRange {
            start: Bound::Excluded(expected.0),
            end: Bound::Excluded(expected.1),
        }
    );
}

#[test]
fn inclusive_bounds_accepted() {
    assert_eq!(
        try_from_str("[1KB,10MB]").unwrap(),
        BoundedRange {
            start: Bound::Included(1_000),
            end: Bound::Included(10_000_000),
        }
    );
}

#[test]
fn mixed_bounds_accepted() {
    assert_eq!(
        try_from_str("[4733,1MiB)").unwrap(),
        BoundedRange {
            start: Bound::Included(4_733),
            end: Bound::Excluded(1_048_576),
        }
    );
}

#[test]
fn missing_start_delimiter_rejected() {
    // The first value substring "KB" is read before the opening delimiter
    // is validated, so the underlying value parser reports the failure.
    assert!(matches!(
        try_from_str("1KB,10MB)"),
        Err(BoundedRangeParseError::ValueError(_))
    ));
}

#[test]
fn unrecognized_start_delimiter_rejected() {
    assert_eq!(
        try_from_str("{1KB,10MB)"),
        Err(BoundedRangeParseError::MissingStartBound)
    );
}

#[test]
fn two_commas_rejected() {
    assert_eq!(
        try_from_str("(1KB,5MB,10MB)"),
        Err(BoundedRangeParseError::MoreThanOneComma)
    );
}

#[test]
fn no_comma_rejected() {
    assert_eq!(
        try_from_str("(1KB10MB)"),
        Err(BoundedRangeParseError::LessThanOneComma)
    );
}

#[test]
fn missing_end_delimiter_rejected() {
    assert_eq!(
        try_from_str("(1KB,10MB"),
        Err(BoundedRangeParseError::MissingEndBound)
    );
}

#[test]
fn unreadable_value_rejected() {
    assert!(matches!(
        try_from_str("(oops,10MB)"),
        Err(BoundedRangeParseError::ValueError(_))
    ));
}

#[test]
fn comma_position_is_shifted_by_one() {
    assert_eq!(find_index_of_only_comma("aa,bb"), Ok(3));
    assert_eq!(
        find_index_of_only_comma("aabb"),
        Err(BoundedRangeParseError::LessThanOneComma)
    );
    assert_eq!(
        find_index_of_only_comma("a,b,c"),
        Err(BoundedRangeParseError::MoreThanOneComma)
    );
}

#[test]
fn half_open_conversion() {
    let excluded = BoundedRange {
        start: Bound::Excluded(1_000),
        end: Bound::Excluded(10_000_000),
    };
    assert_eq!(excluded.to_half_open(), (1_001, 10_000_000));

    let included = BoundedRange {
        start: Bound::Included(1_000),
        end: Bound::Included(10_000_000),
    };
    assert_eq!(included.to_half_open(), (1_000, 10_000_001));

    let widest = BoundedRange {
        start: Bound::Excluded(u64::MAX - 1),
        end: Bound::Included(u64::MAX - 1),
    };
    assert_eq!(widest.to_half_open(), (u64::MAX, u64::MAX));

    let at_limit = BoundedRange {
        start: Bound::Included(u64::MAX),
        end: Bound::Excluded(u64::MAX),
    };
    assert_eq!(at_limit.to_half_open(), (u64::MAX, u64::MAX));
}

#[test]
fn error_messages() {
    assert_eq!(
        BoundedRangeParseError::MissingStartBound.message(),
        "Expected start bound to be [ or ("
    );
    assert_eq!(
        BoundedRangeParseError::MissingEndBound.message(),
        "Expected end bound to be ] or )"
    );
    assert_eq!(
        BoundedRangeParseError::MoreThanOneComma.message(),
        "Expected to find one comma, but found more than one comma"
    );
    assert_eq!(
        BoundedRangeParseError::LessThanOneComma.message(),
        "Expected to find one comma, but found less than one comma"
    );
    assert_eq!(
        BoundedRangeParseError::ValueError(String::from("boom")).message(),
        "boom"
    );
}
