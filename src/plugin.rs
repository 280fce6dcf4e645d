//! The plugins' work once the boundary has handed over a buffer and a
//! parameter text: validate the dimensions against the buffer, decode the
//! parameters, run the kernel, and answer with a status code.
use vstd::prelude::*;
use crate::abi::{buffer_len, calculate_data_len, check_dimensions, DATA_IMAGE_ERROR_CODE, OK_CODE};
use crate::blur::{apply_blur, blur_repeated, MAX_RADIUS};
use crate::mirror::{mirror_h, mirror_horizontal, mirror_v, mirror_vertical};
use crate::params::{
    blur_params_from_text, mirror_params_from_text, parse_blur_params, parse_mirror_params,
    BlurParams, MirrorParams,
};

verus! {

/// The dimensions are non-zero and describe a buffer of exactly `len` bytes.
pub open spec fn dims_match(width: u32, height: u32, len: int) -> bool {
    width != 0 && height != 0 && buffer_len(width as int, height as int) == len
}

/// The buffer after the mirrors that `p` asks for: rows first, then columns.
pub open spec fn mirrored(s: Seq<u8>, width: int, height: int, p: MirrorParams) -> Seq<u8> {
    let a = if p.horizontal {
        mirror_h(s, width)
    } else {
        s
    };
    if p.vertical {
        mirror_v(a, width, height)
    } else {
        a
    }
}

fn validate_buffer(width: u32, height: u32, data: &Vec<u8>) -> (r: Option<(usize, usize)>)
    ensures
        r is Some <==> dims_match(width, height, data@.len() as int),
        r matches Some((w, h)) ==> w == width && h == height,
{
    let n = data.len();
    let (w, h) = match check_dimensions(width, height) {
        Ok(dims) => dims,
        Err(_) => return None,
    };
    match calculate_data_len(w, h) {
        Ok(len) => if len == n {
            Some((w, h))
        } else {
            None
        },
        Err(_) => None,
    }
}

/// Runs `params.iterations` blur passes over a buffer whose dimensions
/// have been validated.
pub fn blur_buffer(data: &mut Vec<u8>, width: usize, height: usize, params: &BlurParams)
    requires
        old(data)@.len() == buffer_len(width as int, height as int),
        params.radius <= MAX_RADIUS,
    ensures
        final(data)@ == blur_repeated(
            old(data)@,
            width as int,
            height as int,
            params.radius as int,
            params.iterations as nat,
        ),
{
    let ghost orig = data@;
    for k in 0..params.iterations
        invariant
            orig.len() == buffer_len(width as int, height as int),
            params.radius <= MAX_RADIUS,
            data@ == blur_repeated(orig, width as int, height as int, params.radius as int, k as nat),
            data@.len() == orig.len(),
    {
        apply_blur(data, width, height, params.radius as usize);
    }
}

/// Applies the mirrors that `params` asks for to a buffer whose dimensions
/// have been validated.
pub fn mirror_buffer(data: &mut Vec<u8>, width: usize, height: usize, params: &MirrorParams)
    requires
        old(data)@.len() == buffer_len(width as int, height as int),
    ensures
        final(data)@ == mirrored(old(data)@, width as int, height as int, *params),
{
    if params.horizontal {
        mirror_horizontal(data, width, height);
    }
    if params.vertical {
        mirror_vertical(data, width, height);
    }
}

/// The blur plugin's work: validates the dimensions against the buffer,
/// decodes the parameter text and runs the requested passes. The buffer is
/// left untouched unless the answer is `OK_CODE`.
pub fn run_blur(width: u32, height: u32, data: &mut Vec<u8>, params: &str) -> (code: i32)
    ensures
        !dims_match(width, height, old(data)@.len() as int) ==> code == DATA_IMAGE_ERROR_CODE
            && final(data)@ == old(data)@,
        dims_match(width, height, old(data)@.len() as int) ==> match blur_params_from_text(params@) {
            Ok(p) => code == OK_CODE && final(data)@ == blur_repeated(
                old(data)@,
                width as int,
                height as int,
                p.radius as int,
                p.iterations as nat,
            ),
            Err(e) => code == e && final(data)@ == old(data)@,
        },
{
    let (w, h) = match validate_buffer(width, height, data) {
        Some(dims) => dims,
        None => return DATA_IMAGE_ERROR_CODE,
    };
    match parse_blur_params(params) {
        Ok(p) => {
            blur_buffer(data, w, h, &p);
            OK_CODE
        },
        Err(e) => e,
    }
}

/// The mirror plugin's work: validates the dimensions against the buffer,
/// decodes the parameter text and applies the requested mirrors. The buffer
/// is left untouched unless the answer is `OK_CODE`.
pub fn run_mirror(width: u32, height: u32, data: &mut Vec<u8>, params: &str) -> (code: i32)
    ensures
        !dims_match(width, height, old(data)@.len() as int) ==> code == DATA_IMAGE_ERROR_CODE
            && final(data)@ == old(data)@,
        dims_match(width, height, old(data)@.len() as int) ==> match mirror_params_from_text(params@) {
            Ok(p) => code == OK_CODE && final(data)@ == mirrored(old(data)@, width as int, height as int, p),
            Err(e) => code == e && final(data)@ == old(data)@,
        },
{
    let (w, h) = match validate_buffer(width, height, data) {
        Some(dims) => dims,
        None => return DATA_IMAGE_ERROR_CODE,
    };
    match parse_mirror_params(params) {
        Ok(p) => {
            mirror_buffer(data, w, h, &p);
            OK_CODE
        },
        Err(e) => e,
    }
}

} // verus!
