//! The boundary contract shared by the host and every plugin: status codes,
//! dimension checks and the checked buffer length.
use vstd::prelude::*;

verus! {

/// The call completed and the buffer holds the result.
pub const OK_CODE: i32 = 0;

/// The parameter text could not be decoded into the plugin's record.
pub const PARSE_ERROR_CODE: i32 = -1;

/// The dimensions are zero, unrepresentable, or overflow the buffer length.
pub const DATA_IMAGE_ERROR_CODE: i32 = -2;

/// A pointer handed across the boundary was null.
pub const NULL_POINT_ERROR_CODE: i32 = -3;

/// The parameters were well formed but a value lies outside its range.
pub const INVALID_PARAMS_CODE: i32 = -4;

/// Bytes per RGBA pixel.
pub const BYTES_PER_PIXEL: usize = 4;

/// Byte length of a `width` x `height` RGBA buffer.
pub open spec fn buffer_len(width: int, height: int) -> int {
    width * height * 4
}

/// Validates the dimensions received across the boundary: both must be
/// non-zero. On success returns them in the native size type.
pub fn check_dimensions(width: u32, height: u32) -> (r: Result<(usize, usize), i32>)
    ensures
        r is Ok <==> (width != 0 && height != 0),
        r matches Ok((w, h)) ==> w == width && h == height,
        r matches Err(code) ==> code == DATA_IMAGE_ERROR_CODE,
{
    if width == 0 || height == 0 {
        return Err(DATA_IMAGE_ERROR_CODE);
    }
    let width_usize = width as usize;
    let height_usize = height as usize;
    if width_usize as u32 != width || height_usize as u32 != height {
        return Err(DATA_IMAGE_ERROR_CODE);
    }
    Ok((width_usize, height_usize))
}

/// Overflow-checked `width * height * 4`; an overflow of `usize` is
/// reported as invalid image data, never wrapped.
pub fn calculate_data_len(width: usize, height: usize) -> (r: Result<usize, i32>)
    ensures
        r is Ok <==> buffer_len(width as int, height as int) <= usize::MAX,
        r matches Ok(len) ==> len == buffer_len(width as int, height as int),
        r matches Err(code) ==> code == DATA_IMAGE_ERROR_CODE,
{
    match width.checked_mul(height) {
        Some(wh) => match wh.checked_mul(BYTES_PER_PIXEL) {
            Some(len) => Ok(len),
            None => Err(DATA_IMAGE_ERROR_CODE),
        },
        None => {
            proof {
                assert(width * height > usize::MAX);
                if height > 0 {
                    assert(width * height * 4 >= width * height) by (nonlinear_arith)
                        requires height > 0;
                }
            }
            Err(DATA_IMAGE_ERROR_CODE)
        },
    }
}

/// What a status code returned by a plugin means to the host.
#[derive(PartialEq, Eq, Structural, Debug, Clone, Copy)]
pub enum PluginOutcome {
    Success,
    ParseFailure,
    InvalidImageData,
    NullPointer,
    InvalidParameterValue,
    /// A code outside the table, carried verbatim.
    Unrecognized(i32),
}

/// Maps a status code to its outcome; a code outside the table is kept as it came.
pub fn interpret_status(code: i32) -> (r: PluginOutcome)
    ensures
        (r == PluginOutcome::Success) <==> code == OK_CODE,
        (r == PluginOutcome::ParseFailure) <==> code == PARSE_ERROR_CODE,
        (r == PluginOutcome::InvalidImageData) <==> code == DATA_IMAGE_ERROR_CODE,
        (r == PluginOutcome::NullPointer) <==> code == NULL_POINT_ERROR_CODE,
        (r == PluginOutcome::InvalidParameterValue) <==> code == INVALID_PARAMS_CODE,
        (r is Unrecognized) <==> (code < INVALID_PARAMS_CODE || code > OK_CODE),
        r matches PluginOutcome::Unrecognized(c) ==> c == code,
{
    if code == OK_CODE {
        PluginOutcome::Success
    } else if code == PARSE_ERROR_CODE {
        PluginOutcome::ParseFailure
    } else if code == DATA_IMAGE_ERROR_CODE {
        PluginOutcome::InvalidImageData
    } else if code == NULL_POINT_ERROR_CODE {
        PluginOutcome::NullPointer
    } else if code == INVALID_PARAMS_CODE {
        PluginOutcome::InvalidParameterValue
    } else {
        PluginOutcome::Unrecognized(code)
    }
}

} // verus!
