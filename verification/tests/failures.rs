use curve_stats::curve::CurveConfig;
use curve_stats::failure::{push_decimal, Failure, FailureKind};
use curve_stats::image::decode_image;
use curve_stats::table::curve_cells;

#[test]
fn decimal_digits() {
    for (n, digits) in [
        (0usize, "0"),
        (7, "7"),
        (10, "10"),
        (99, "99"),
        (100, "100"),
        (1234567890, "1234567890"),
    ] {
        let mut text = String::from("n = ");
        push_decimal(&mut text, n);
        assert_eq!(text, format!("n = {}", digits));
    }
    let mut text = String::new();
    push_decimal(&mut text, usize::MAX);
    assert_eq!(text, format!("{}", usize::MAX));
}

#[test]
fn reasons() {
    assert_eq!(Failure::NoCurves.reason(), "No curve is required");
    assert_eq!(Failure::InvalidImage.reason(), "Invalid image");
    assert_eq!(Failure::MissingColumn { column_id: 12 }.reason(), "column id 12");
    assert_eq!(
        Failure::NotEnoughData { column_id: 3 }.reason(),
        "Valid data is not enough for column 3"
    );
    assert_eq!(Failure::EmptyData { column_id: 0 }.reason(), "Data length is 0 for column 0");
    assert_eq!(Failure::TooLarge { column_id: 40 }.reason(), "Data is too large for column 40");
    assert_eq!(Failure::ZeroUnit { column_id: 9 }.reason(), "Unit is 0 for column 9");
}

#[test]
fn messages() {
    assert_eq!(Failure::NoCurves.message(), "Invalid parameter: No curve is required");
    assert_eq!(Failure::InvalidImage.message(), "Invalid parameter: Invalid image");
    assert_eq!(
        Failure::MissingColumn { column_id: 5 }.message(),
        "Invalid parameter: column id 5"
    );
    assert_eq!(
        Failure::EmptyData { column_id: 21 }.message(),
        "Invalid parameter: Data length is 0 for column 21"
    );
}

#[test]
fn outside_failures_keep_their_own_words() {
    let curves = vec![CurveConfig { column_id: 0, unit: 1, max_length: 0 }];
    let failure = curve_cells(b"a,b\n1,2\n3\n", &curves).unwrap_err();
    let message = failure.message();
    assert_eq!(message, failure.reason());
    assert!(message.contains("2 fields"), "{}", message);
    let failure = decode_image("x,@@@@").unwrap_err();
    assert_eq!(failure.message(), "Invalid byte 64, offset 0.");
    assert_eq!(failure.reason(), "Invalid byte 64, offset 0.");
}

#[test]
fn kinds() {
    assert_eq!(Failure::NoCurves.kind(), FailureKind::InvalidConfiguration);
    assert_eq!(Failure::MissingColumn { column_id: 1 }.kind(), FailureKind::InvalidConfiguration);
    assert_eq!(Failure::NotEnoughData { column_id: 1 }.kind(), FailureKind::InvalidConfiguration);
    assert_eq!(Failure::EmptyData { column_id: 1 }.kind(), FailureKind::InvalidConfiguration);
    assert_eq!(Failure::TooLarge { column_id: 1 }.kind(), FailureKind::InvalidConfiguration);
    assert_eq!(Failure::ZeroUnit { column_id: 1 }.kind(), FailureKind::InvalidConfiguration);
    assert_eq!(Failure::InvalidImage.kind(), FailureKind::Encoding);
}
