use image_plugins::mirror::{mirror_horizontal, mirror_vertical};
use image_plugins::plugin::run_mirror;
use image_plugins::abi::{DATA_IMAGE_ERROR_CODE, OK_CODE, PARSE_ERROR_CODE};

const GREEN: &[u8] = &[0, 255, 0, 255];
const RED: &[u8] = &[255, 0, 0, 255];
const BLUE: &[u8] = &[0, 0, 255, 255];
const WHITE: &[u8] = &[255, 255, 255, 255];
const DATA: &[u8] = &[
    255, 0, 0, 255, // red
    0, 255, 0, 255, // green
    0, 0, 255, 255, // blue
    255, 255, 255, 255, // white
];

fn patterned(width: usize, height: usize) -> Vec<u8> {
    let mut data = vec![0; width * height * 4];
    for (i, px) in data.iter_mut().enumerate() {
        *px = (i % 256) as u8;
    }
    data
}

#[test]
fn test_mirror_horizontal_small() {
    let mut data: Vec<u8> = DATA.to_vec();

    mirror_horizontal(&mut data, 2, 2);

    assert_eq!(data[0..4], *GREEN);
    assert_eq!(data[4..8], *RED);
    assert_eq!(data[8..12], *WHITE);
    assert_eq!(data[12..16], *BLUE);
}

#[test]
fn test_mirror_vertical_small() {
    let mut data: Vec<u8> = DATA.to_vec();

    mirror_vertical(&mut data, 2, 2);

    assert_eq!(data[0..4], *BLUE);
    assert_eq!(data[4..8], *WHITE);
    assert_eq!(data[8..12], *RED);
    assert_eq!(data[12..16], *GREEN);
}

#[test]
fn test_mirror_horizontal_large_dimensions() {
    let width = 1000;
    let height = 1000;
    let mut data = patterned(width, height);

    let original_data = data.clone();

    mirror_horizontal(&mut data, width, height);

    assert_ne!(data, original_data)
}

#[test]
fn test_mirror_vertical_large_dimensions() {
    let width = 1000;
    let height = 1000;
    let mut data = patterned(width, height);

    let original_data = data.clone();

    mirror_vertical(&mut data, width, height);

    assert_ne!(data, original_data)
}

#[test]
fn mirror_twice_restores_odd_buffer() {
    let original = patterned(3, 5);
    let mut data = original.clone();
    mirror_horizontal(&mut data, 3, 5);
    assert_ne!(data, original);
    mirror_horizontal(&mut data, 3, 5);
    assert_eq!(data, original);
    mirror_vertical(&mut data, 3, 5);
    assert_ne!(data, original);
    mirror_vertical(&mut data, 3, 5);
    assert_eq!(data, original);
}

#[test]
fn odd_width_keeps_centre_pixel() {
    let mut data = patterned(3, 1);
    mirror_horizontal(&mut data, 3, 1);
    assert_eq!(data, vec![8, 9, 10, 11, 4, 5, 6, 7, 0, 1, 2, 3]);
}

#[test]
fn odd_height_keeps_centre_row() {
    let mut data = patterned(1, 3);
    mirror_vertical(&mut data, 1, 3);
    assert_eq!(data, vec![8, 9, 10, 11, 4, 5, 6, 7, 0, 1, 2, 3]);
}

#[test]
fn single_row_and_column_are_fine() {
    let mut row = patterned(4, 1);
    mirror_vertical(&mut row, 4, 1);
    assert_eq!(row, patterned(4, 1));
    let mut col = patterned(1, 4);
    mirror_horizontal(&mut col, 1, 4);
    assert_eq!(col, patterned(1, 4));
}

#[test]
fn run_mirror_applies_both_mirrors() {
    let mut data = DATA.to_vec();
    let code = run_mirror(2, 2, &mut data, "{\"horizontal\": true, \"vertical\": true}");
    assert_eq!(code, OK_CODE);
    let mut expected = Vec::new();
    expected.extend_from_slice(WHITE);
    expected.extend_from_slice(BLUE);
    expected.extend_from_slice(GREEN);
    expected.extend_from_slice(RED);
    assert_eq!(data, expected);
}

#[test]
fn run_mirror_with_nothing_requested_keeps_buffer() {
    let mut data = DATA.to_vec();
    let code = run_mirror(2, 2, &mut data, "{\"horizontal\": false, \"vertical\": false}");
    assert_eq!(code, OK_CODE);
    assert_eq!(data, DATA.to_vec());
}

#[test]
fn run_mirror_requires_both_fields() {
    let mut data = DATA.to_vec();
    assert_eq!(run_mirror(2, 2, &mut data, "{\"horizontal\": true}"), PARSE_ERROR_CODE);
    assert_eq!(run_mirror(2, 2, &mut data, "{}"), PARSE_ERROR_CODE);
    assert_eq!(data, DATA.to_vec());
}

#[test]
fn run_mirror_rejects_non_boolean_and_unknown_fields() {
    let mut data = DATA.to_vec();
    assert_eq!(
        run_mirror(2, 2, &mut data, "{\"horizontal\": 1, \"vertical\": true}"),
        PARSE_ERROR_CODE
    );
    assert_eq!(
        run_mirror(2, 2, &mut data, "{\"horizontal\": true, \"vertical\": true, \"x\": 1}"),
        PARSE_ERROR_CODE
    );
    assert_eq!(run_mirror(2, 2, &mut data, "not json"), PARSE_ERROR_CODE);
    assert_eq!(data, DATA.to_vec());
}

#[test]
fn run_mirror_rejects_bad_dimensions_before_parsing() {
    let mut data = DATA.to_vec();
    assert_eq!(run_mirror(0, 2, &mut data, "garbage"), DATA_IMAGE_ERROR_CODE);
    assert_eq!(run_mirror(3, 2, &mut data, "{\"horizontal\": true, \"vertical\": true}"), DATA_IMAGE_ERROR_CODE);
    assert_eq!(data, DATA.to_vec());
}
