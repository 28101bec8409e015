use raytracer::ratio::{parse_aspect_ratio, AspectRatioError};

#[test]
fn ratio_with_slash() {
    assert_eq!(parse_aspect_ratio("16/9"), Ok((16, 9)));
}

#[test]
fn ratio_with_colon() {
    assert_eq!(parse_aspect_ratio("4:3"), Ok((4, 3)));
}

#[test]
fn ratio_with_x() {
    assert_eq!(parse_aspect_ratio("1920x1080"), Ok((1920, 1080)));
}

#[test]
fn colon_takes_precedence_over_slash() {
    assert_eq!(parse_aspect_ratio("3/2:5"), Err(AspectRatioError::BadWidth));
    assert_eq!(parse_aspect_ratio("32:5/1"), Err(AspectRatioError::BadHeight));
}

#[test]
fn height_stops_at_second_separator() {
    assert_eq!(parse_aspect_ratio("21:9:4"), Ok((21, 9)));
}

#[test]
fn signs_are_accepted() {
    assert_eq!(parse_aspect_ratio("+16/-9"), Ok((16, -9)));
}

#[test]
fn no_separator_is_an_error() {
    assert_eq!(parse_aspect_ratio("169"), Err(AspectRatioError::NoSeparator));
    assert_eq!(parse_aspect_ratio(""), Err(AspectRatioError::NoSeparator));
}

#[test]
fn empty_fields_are_errors() {
    assert_eq!(parse_aspect_ratio("/9"), Err(AspectRatioError::BadWidth));
    assert_eq!(parse_aspect_ratio("16/"), Err(AspectRatioError::BadHeight));
    assert_eq!(parse_aspect_ratio("-/9"), Err(AspectRatioError::BadWidth));
}

#[test]
fn non_digits_are_errors() {
    assert_eq!(parse_aspect_ratio("1a/9"), Err(AspectRatioError::BadWidth));
    assert_eq!(parse_aspect_ratio("16/9 "), Err(AspectRatioError::BadHeight));
}

#[test]
fn i32_range_limits() {
    assert_eq!(parse_aspect_ratio("2147483647/-2147483648"), Ok((i32::MAX, i32::MIN)));
    assert_eq!(parse_aspect_ratio("2147483648/1"), Err(AspectRatioError::BadWidth));
    assert_eq!(parse_aspect_ratio("1/-2147483649"), Err(AspectRatioError::BadHeight));
    assert_eq!(parse_aspect_ratio("1/99999999999999999999"), Err(AspectRatioError::BadHeight));
}

#[test]
fn matches_std_parse_on_fields() {
    for (w, h) in [("007", "08"), ("-0", "+0"), ("123", "4567")] {
        let text = format!("{}x{}", w, h);
        assert_eq!(
            parse_aspect_ratio(&text),
            Ok((w.parse::<i32>().unwrap(), h.parse::<i32>().unwrap()))
        );
    }
}
