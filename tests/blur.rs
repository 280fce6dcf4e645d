use image_plugins::abi::{DATA_IMAGE_ERROR_CODE, INVALID_PARAMS_CODE, OK_CODE, PARSE_ERROR_CODE};
use image_plugins::blur::apply_blur;
use image_plugins::plugin::{blur_buffer, run_blur};
use image_plugins::params::BlurParams;

#[test]
fn test_bluer_small_image() {
    let mut data = vec![
        255, 0, 0, 255, // red
        0, 255, 0, 255, // green
        0, 0, 255, 255, // blue
        255, 255, 0, 255, // yellow
        255, 0, 255, 255, // magenta
        0, 255, 255, 255, // cyan
        128, 128, 128, 255, // grey
        64, 64, 64, 255, // dark grey
        192, 192, 192, 255, // light grey
    ];

    let original_data = data.clone();

    apply_blur(&mut data, 3, 3, 1);

    assert_ne!(data, original_data);
}

#[test]
fn test_blur_zero_radius() {
    let mut data = vec![255; 16];
    let original_data = data.clone();

    apply_blur(&mut data, 2, 2, 0);
    assert_eq!(data, original_data);
}

// The weighted mean of one repeated value is that value: a uniform buffer
// comes out of a pass unchanged.
#[test]
fn test_blur_large_dimensions() {
    let width = 100;
    let height = 100;
    let mut data = vec![228; width * height * 4];

    let original_data = data.clone();

    apply_blur(&mut data, width, height, 2);

    assert_eq!(data, original_data);
}

#[test]
fn test_blur_edge_cases() {
    let mut data = vec![255, 0, 0, 255];
    apply_blur(&mut data, 1, 1, 1);
    assert_eq!(data, vec![255, 0, 0, 255]);

    let mut empty_data: Vec<u8> = vec![];
    apply_blur(&mut empty_data, 0, 0, 1);
    assert!(empty_data.is_empty());
}

#[test]
fn blur_exact_two_pixel_values() {
    let mut data = vec![0, 0, 0, 0, 255, 255, 255, 255];
    apply_blur(&mut data, 2, 1, 1);
    assert_eq!(data, vec![85, 85, 85, 85, 170, 170, 170, 170]);
}

#[test]
fn blur_channels_are_independent() {
    let mut data = vec![0, 30, 255, 9, 255, 30, 0, 9];
    apply_blur(&mut data, 1, 2, 5);
    assert_eq!(data, vec![85, 30, 170, 9, 170, 30, 85, 9]);
}

#[test]
fn blur_zero_radius_keeps_any_buffer() {
    let mut data: Vec<u8> = (0..36).map(|i| (i * 7 % 256) as u8).collect();
    let original = data.clone();
    apply_blur(&mut data, 3, 3, 0);
    assert_eq!(data, original);
}

#[test]
fn blur_changes_non_uniform_buffer() {
    let mut data = vec![0u8; 4 * 4 * 4];
    data[5 * 4] = 200;
    let original = data.clone();
    apply_blur(&mut data, 4, 4, 1);
    assert_ne!(data, original);
    assert_eq!(data.len(), original.len());
}

#[test]
fn uniform_three_by_three_is_unchanged() {
    let pixel = [12u8, 200, 77, 255];
    let mut data: Vec<u8> = pixel.iter().cycle().take(36).copied().collect();
    let original = data.clone();
    let code = run_blur(3, 3, &mut data, "{\"radius\": 1.5, \"iterations\": 3}");
    assert_eq!(code, OK_CODE);
    assert_eq!(data, original);
}

#[test]
fn iterations_compound_the_pass() {
    let start = vec![0, 0, 0, 0, 255, 255, 255, 255];
    let mut once = start.clone();
    apply_blur(&mut once, 2, 1, 1);
    apply_blur(&mut once, 2, 1, 1);
    let mut twice = start.clone();
    blur_buffer(&mut twice, 2, 1, &BlurParams { radius: 1, iterations: 2 });
    assert_eq!(once, twice);
    let mut run = start.clone();
    assert_eq!(run_blur(2, 1, &mut run, "{\"radius\": 1, \"iterations\": 2}"), OK_CODE);
    assert_eq!(run, twice);
}

#[test]
fn run_blur_radius_zero_is_invalid_parameter() {
    let mut data = vec![1, 2, 3, 4];
    let code = run_blur(1, 1, &mut data, "{\"radius\": 0, \"iterations\": 1}");
    assert_eq!(code, INVALID_PARAMS_CODE);
    assert_eq!(data, vec![1, 2, 3, 4]);
}

#[test]
fn run_blur_rejects_bad_dimensions() {
    let mut data = vec![1, 2, 3, 4];
    assert_eq!(run_blur(0, 1, &mut data, "{\"radius\": 1, \"iterations\": 1}"), DATA_IMAGE_ERROR_CODE);
    assert_eq!(run_blur(1, 0, &mut data, "{\"radius\": 1, \"iterations\": 1}"), DATA_IMAGE_ERROR_CODE);
    assert_eq!(run_blur(2, 1, &mut data, "{\"radius\": 1, \"iterations\": 1}"), DATA_IMAGE_ERROR_CODE);
    assert_eq!(data, vec![1, 2, 3, 4]);
}

#[test]
fn run_blur_parse_failure_leaves_buffer() {
    let mut data = vec![1, 2, 3, 4, 5, 6, 7, 8];
    assert_eq!(run_blur(2, 1, &mut data, "{\"radius\": 1}"), PARSE_ERROR_CODE);
    assert_eq!(data, vec![1, 2, 3, 4, 5, 6, 7, 8]);
}
