use image_plugins::abi::{
    calculate_data_len, check_dimensions, interpret_status, PluginOutcome, BYTES_PER_PIXEL,
    DATA_IMAGE_ERROR_CODE, INVALID_PARAMS_CODE, NULL_POINT_ERROR_CODE, OK_CODE, PARSE_ERROR_CODE,
};

#[test]
fn test_check_dimensions_valid() {
    assert!(check_dimensions(100, 100).is_ok());
}

#[test]
fn test_check_dimensions_zero() {
    assert!(check_dimensions(0, 100).is_err());
    assert!(check_dimensions(100, 0).is_err());
}

#[test]
fn test_calculate_data_len_valid() {
    assert_eq!(
        calculate_data_len(100, 100).unwrap(),
        100 * 100 * BYTES_PER_PIXEL
    );
}

#[test]
fn test_calculate_data_len_overflow() {
    assert!(calculate_data_len(usize::MAX / 4 + 1, 100).is_err());
}

#[test]
fn dimensions_are_returned_unchanged() {
    assert_eq!(check_dimensions(3, 7), Ok((3, 7)));
    assert_eq!(check_dimensions(1, 1), Ok((1, 1)));
}

#[test]
fn zero_dimensions_are_invalid_image_data() {
    assert_eq!(check_dimensions(0, 0), Err(DATA_IMAGE_ERROR_CODE));
    assert_eq!(check_dimensions(0, 5), Err(DATA_IMAGE_ERROR_CODE));
    assert_eq!(check_dimensions(5, 0), Err(DATA_IMAGE_ERROR_CODE));
}

#[test]
fn data_len_is_exact_product() {
    assert_eq!(calculate_data_len(3, 5), Ok(60));
    assert_eq!(calculate_data_len(1, 1), Ok(4));
    assert_eq!(calculate_data_len(0, 9), Ok(0));
}

#[test]
fn data_len_overflow_is_invalid_image_data() {
    assert_eq!(calculate_data_len(usize::MAX, 2), Err(DATA_IMAGE_ERROR_CODE));
    assert_eq!(calculate_data_len(usize::MAX / 4, 1), Ok(usize::MAX / 4 * 4));
    assert_eq!(calculate_data_len(usize::MAX / 4 + 1, 1), Err(DATA_IMAGE_ERROR_CODE));
}

#[test]
fn status_codes_are_distinct() {
    let codes = [OK_CODE, PARSE_ERROR_CODE, DATA_IMAGE_ERROR_CODE, NULL_POINT_ERROR_CODE, INVALID_PARAMS_CODE];
    for i in 0..codes.len() {
        for j in 0..codes.len() {
            assert_eq!(i == j, codes[i] == codes[j]);
        }
    }
    assert_eq!(OK_CODE, 0);
}

#[test]
fn status_interpretation_covers_the_table() {
    assert_eq!(interpret_status(0), PluginOutcome::Success);
    assert_eq!(interpret_status(-1), PluginOutcome::ParseFailure);
    assert_eq!(interpret_status(-2), PluginOutcome::InvalidImageData);
    assert_eq!(interpret_status(-3), PluginOutcome::NullPointer);
    assert_eq!(interpret_status(-4), PluginOutcome::InvalidParameterValue);
}

#[test]
fn unknown_status_is_kept_verbatim() {
    assert_eq!(interpret_status(7), PluginOutcome::Unrecognized(7));
    assert_eq!(interpret_status(-5), PluginOutcome::Unrecognized(-5));
    assert_eq!(interpret_status(i32::MIN), PluginOutcome::Unrecognized(i32::MIN));
}
