use image_plugins::abi::{INVALID_PARAMS_CODE, PARSE_ERROR_CODE};
use image_plugins::params::{parse_blur_params, parse_mirror_params, BlurParams, MirrorParams};

#[test]
fn radius_zero_is_invalid_parameter() {
    assert_eq!(
        parse_blur_params("{\"radius\": 0, \"iterations\": 1}"),
        Err(INVALID_PARAMS_CODE)
    );
}

#[test]
fn radius_whole_part_is_the_half_width() {
    assert_eq!(
        parse_blur_params("{\"radius\": 2.7, \"iterations\": 3}"),
        Ok(BlurParams { radius: 2, iterations: 3 })
    );
    assert_eq!(
        parse_blur_params("{\"iterations\": 1, \"radius\": 0.5}"),
        Ok(BlurParams { radius: 0, iterations: 1 })
    );
}

#[test]
fn radius_range_bounds() {
    assert_eq!(
        parse_blur_params("{\"radius\": 1000, \"iterations\": 1000}"),
        Ok(BlurParams { radius: 1000, iterations: 1000 })
    );
    assert_eq!(parse_blur_params("{\"radius\": 1000.5, \"iterations\": 1}"), Err(INVALID_PARAMS_CODE));
    assert_eq!(parse_blur_params("{\"radius\": -1, \"iterations\": 1}"), Err(INVALID_PARAMS_CODE));
    assert_eq!(parse_blur_params("{\"radius\": 1e20, \"iterations\": 1}"), Err(INVALID_PARAMS_CODE));
    assert_eq!(
        parse_blur_params("{\"radius\": 1e-7, \"iterations\": 1}"),
        Ok(BlurParams { radius: 0, iterations: 1 })
    );
    assert_eq!(
        parse_blur_params("{\"radius\": 1.5e2, \"iterations\": 1}"),
        Ok(BlurParams { radius: 150, iterations: 1 })
    );
}

#[test]
fn iterations_range_bounds() {
    assert_eq!(parse_blur_params("{\"radius\": 1, \"iterations\": 0}"), Err(INVALID_PARAMS_CODE));
    assert_eq!(parse_blur_params("{\"radius\": 1, \"iterations\": 1001}"), Err(INVALID_PARAMS_CODE));
    assert_eq!(parse_blur_params("{\"radius\": 1, \"iterations\": 4294967295}"), Err(INVALID_PARAMS_CODE));
}

#[test]
fn iterations_must_be_a_u32_integer() {
    assert_eq!(parse_blur_params("{\"radius\": 1, \"iterations\": 1.0}"), Err(PARSE_ERROR_CODE));
    assert_eq!(parse_blur_params("{\"radius\": 1, \"iterations\": -1}"), Err(PARSE_ERROR_CODE));
    assert_eq!(parse_blur_params("{\"radius\": 1, \"iterations\": 4294967296}"), Err(PARSE_ERROR_CODE));
    assert_eq!(parse_blur_params("{\"radius\": 1, \"iterations\": \"2\"}"), Err(PARSE_ERROR_CODE));
}

#[test]
fn blur_structure_errors_are_parse_failures() {
    assert_eq!(parse_blur_params("{\"radius\": 1}"), Err(PARSE_ERROR_CODE));
    assert_eq!(parse_blur_params("{\"iterations\": 1}"), Err(PARSE_ERROR_CODE));
    assert_eq!(
        parse_blur_params("{\"radius\": 1, \"iterations\": 1, \"sigma\": 2}"),
        Err(PARSE_ERROR_CODE)
    );
    assert_eq!(parse_blur_params("{\"radius\": \"big\", \"iterations\": 1}"), Err(PARSE_ERROR_CODE));
    assert_eq!(parse_blur_params("[1, 2]"), Err(PARSE_ERROR_CODE));
    assert_eq!(parse_blur_params(""), Err(PARSE_ERROR_CODE));
}

#[test]
fn parse_failure_wins_over_range() {
    assert_eq!(parse_blur_params("{\"radius\": 0, \"iterations\": true}"), Err(PARSE_ERROR_CODE));
}

#[test]
fn mirror_params_decode() {
    assert_eq!(
        parse_mirror_params("{\"horizontal\": true, \"vertical\": false}"),
        Ok(MirrorParams { horizontal: true, vertical: false })
    );
    assert_eq!(
        parse_mirror_params(" { \"vertical\" : true , \"horizontal\" : false } "),
        Ok(MirrorParams { horizontal: false, vertical: true })
    );
}

#[test]
fn mirror_params_errors() {
    assert_eq!(parse_mirror_params("{\"horizontal\": true}"), Err(PARSE_ERROR_CODE));
    assert_eq!(parse_mirror_params("{\"horizontal\": \"true\", \"vertical\": true}"), Err(PARSE_ERROR_CODE));
    assert_eq!(parse_mirror_params("{\"horizontal\": null, \"vertical\": true}"), Err(PARSE_ERROR_CODE));
    assert_eq!(parse_mirror_params("true"), Err(PARSE_ERROR_CODE));
}
