//! Strict decoding of the parameter text handed to a plugin. The text must be
//! a JSON object holding exactly the plugin's fields. A text that is not such
//! an object, or a field that is missing, unknown or of the wrong kind, is a
//! parse failure; a well-formed value outside its range is an invalid
//! parameter, decided only once the whole record has been read.
use vstd::prelude::*;
use crate::abi::{INVALID_PARAMS_CODE, PARSE_ERROR_CODE};
use crate::numeral::{check_radius, lemma_same_scale_decision, numeral_of, parse_uint, radius_decision, scan_numeral, uint_of};

verus! {

/// Decoded blur parameters.
#[derive(PartialEq, Eq, Structural, Debug, Clone, Copy)]
pub struct BlurParams {
    /// Half-width of the neighbourhood: the whole part of the radius.
    pub radius: u32,
    /// Number of full passes.
    pub iterations: u32,
}

/// Decoded mirror parameters.
#[derive(PartialEq, Eq, Structural, Debug, Clone, Copy)]
pub struct MirrorParams {
    pub horizontal: bool,
    pub vertical: bool,
}

/// What serde_json reads from `text` as a JSON object: each member's key and
/// the compact JSON text of its value; `None` where `text` is not an object.
pub uninterp spec fn json_object_members(text: Seq<char>) -> Option<Seq<(Seq<u8>, Seq<u8>)>>;

pub open spec fn members_view(m: Seq<(Vec<u8>, Vec<u8>)>) -> Seq<(Seq<u8>, Seq<u8>)> {
    Seq::new(m.len(), |i: int| (m[i].0@, m[i].1@))
}

/// Relies on `serde_json::from_str` into a `serde_json::Map`, which succeeds
/// exactly on the text of a JSON object, and on the `Display` of
/// `serde_json::Value`, which writes a value back as compact JSON text.
#[verifier::external_body]
fn object_members(text: &str) -> (r: Option<Vec<(Vec<u8>, Vec<u8>)>>)
    ensures
        r is None ==> json_object_members(text@) is None,
        r matches Some(m) ==> json_object_members(text@) == Some(members_view(m@)),
{
    match serde_json::from_str::<serde_json::Map<String, serde_json::Value>>(text) {
        Ok(map) => Some(map.into_iter().map(|(k, v)| (k.into_bytes(), v.to_string().into_bytes())).collect()),
        Err(_) => None,
    }
}

pub open spec fn radius_key() -> Seq<u8> {
    seq![114u8, 97, 100, 105, 117, 115]
}

pub open spec fn iterations_key() -> Seq<u8> {
    seq![105u8, 116, 101, 114, 97, 116, 105, 111, 110, 115]
}

pub open spec fn horizontal_key() -> Seq<u8> {
    seq![104u8, 111, 114, 105, 122, 111, 110, 116, 97, 108]
}

pub open spec fn vertical_key() -> Seq<u8> {
    seq![118u8, 101, 114, 116, 105, 99, 97, 108]
}

pub open spec fn true_text() -> Seq<u8> {
    seq![116u8, 114, 117, 101]
}

pub open spec fn false_text() -> Seq<u8> {
    seq![102u8, 97, 108, 115, 101]
}

/// The value of the first member named `key`.
pub open spec fn member_value(m: Seq<(Seq<u8>, Seq<u8>)>, key: Seq<u8>) -> Option<Seq<u8>>
    decreases m.len(),
{
    if m.len() == 0 {
        None
    } else if m[0].0 == key {
        Some(m[0].1)
    } else {
        member_value(m.drop_first(), key)
    }
}

/// Every member is named `k1` or `k2`.
pub open spec fn only_keys(m: Seq<(Seq<u8>, Seq<u8>)>, k1: Seq<u8>, k2: Seq<u8>) -> bool {
    forall|i: int| 0 <= i < m.len() ==> (#[trigger] m[i]).0 == k1 || m[i].0 == k2
}

/// The JSON text of a boolean.
pub open spec fn bool_of(t: Seq<u8>) -> Option<bool> {
    if t == true_text() {
        Some(true)
    } else if t == false_text() {
        Some(false)
    } else {
        None
    }
}

/// Blur parameters from the members of a JSON object: `radius` a number in
/// `(0, 1000]`, `iterations` an integer in `[1, 1000]`, and nothing else.
pub open spec fn blur_params_of(m: Seq<(Seq<u8>, Seq<u8>)>) -> Result<BlurParams, i32> {
    if !only_keys(m, radius_key(), iterations_key()) {
        Err(PARSE_ERROR_CODE)
    } else {
        match (member_value(m, radius_key()), member_value(m, iterations_key())) {
            (Some(rt), Some(it)) => match (numeral_of(rt), uint_of(it)) {
                (Some(n), Some(k)) => match radius_decision(n.neg, n.digits, n.point) {
                    Some(rad) => if 1 <= k <= 1000 {
                        Ok(BlurParams { radius: rad, iterations: k })
                    } else {
                        Err(INVALID_PARAMS_CODE)
                    },
                    None => Err(INVALID_PARAMS_CODE),
                },
                _ => Err(PARSE_ERROR_CODE),
            },
            _ => Err(PARSE_ERROR_CODE),
        }
    }
}

/// Mirror parameters from the members of a JSON object: the booleans
/// `horizontal` and `vertical`, both required, and nothing else.
pub open spec fn mirror_params_of(m: Seq<(Seq<u8>, Seq<u8>)>) -> Result<MirrorParams, i32> {
    if !only_keys(m, horizontal_key(), vertical_key()) {
        Err(PARSE_ERROR_CODE)
    } else {
        match (member_value(m, horizontal_key()), member_value(m, vertical_key())) {
            (Some(ht), Some(vt)) => match (bool_of(ht), bool_of(vt)) {
                (Some(h), Some(v)) => Ok(MirrorParams { horizontal: h, vertical: v }),
                _ => Err(PARSE_ERROR_CODE),
            },
            _ => Err(PARSE_ERROR_CODE),
        }
    }
}

/// Blur parameters decoded from a parameter text.
pub open spec fn blur_params_from_text(text: Seq<char>) -> Result<BlurParams, i32> {
    match json_object_members(text) {
        Some(m) => blur_params_of(m),
        None => Err(PARSE_ERROR_CODE),
    }
}

/// Mirror parameters decoded from a parameter text.
pub open spec fn mirror_params_from_text(text: Seq<char>) -> Result<MirrorParams, i32> {
    match json_object_members(text) {
        Some(m) => mirror_params_of(m),
        None => Err(PARSE_ERROR_CODE),
    }
}

fn bytes_equal(a: &Vec<u8>, b: &Vec<u8>) -> (r: bool)
    ensures
        r == (a@ == b@),
{
    if a.len() != b.len() {
        return false;
    }
    let mut i: usize = 0;
    while i < a.len()
        invariant
            a@.len() == b@.len(),
            i <= a@.len(),
            forall|j: int| 0 <= j < i ==> a@[j] == b@[j],
        decreases a@.len() - i,
    {
        if a[i] != b[i] {
            return false;
        }
        i = i + 1;
    }
    assert(a@ =~= b@);
    true
}

fn find_member(m: &Vec<(Vec<u8>, Vec<u8>)>, key: &Vec<u8>) -> (r: Option<usize>)
    ensures
        match r {
            Some(i) => i < m@.len() && member_value(members_view(m@), key@) == Some(m@[i as int].1@),
            None => member_value(members_view(m@), key@) is None,
        },
{
    let ghost mv = members_view(m@);
    let mut i: usize = 0;
    assert(mv.skip(0) =~= mv);
    while i < m.len()
        invariant
            i <= m@.len(),
            mv == members_view(m@),
            member_value(mv, key@) == member_value(mv.skip(i as int), key@),
        decreases m@.len() - i,
    {
        if bytes_equal(&m[i].0, key) {
            return Some(i);
        }
        assert(mv.skip(i as int).drop_first() =~= mv.skip(i + 1));
        i = i + 1;
    }
    None
}

fn all_keys_in(m: &Vec<(Vec<u8>, Vec<u8>)>, k1: &Vec<u8>, k2: &Vec<u8>) -> (r: bool)
    ensures
        r == only_keys(members_view(m@), k1@, k2@),
{
    let ghost mv = members_view(m@);
    let mut i: usize = 0;
    while i < m.len()
        invariant
            i <= m@.len(),
            mv == members_view(m@),
            forall|j: int| 0 <= j < i ==> (#[trigger] mv[j]).0 == k1@ || mv[j].0 == k2@,
        decreases m@.len() - i,
    {
        if !bytes_equal(&m[i].0, k1) && !bytes_equal(&m[i].0, k2) {
            assert(mv[i as int].0 == m@[i as int].0@);
            return false;
        }
        i = i + 1;
    }
    true
}

fn parse_bool(t: &Vec<u8>) -> (r: Option<bool>)
    ensures
        r == bool_of(t@),
{
    let yes: Vec<u8> = vec![116u8, 114, 117, 101];
    let no: Vec<u8> = vec![102u8, 97, 108, 115, 101];
    assert(yes@ =~= true_text());
    assert(no@ =~= false_text());
    if bytes_equal(t, &yes) {
        Some(true)
    } else if bytes_equal(t, &no) {
        Some(false)
    } else {
        None
    }
}

/// Decodes blur parameters from the members of a JSON object.
pub fn decode_blur_params(m: &Vec<(Vec<u8>, Vec<u8>)>) -> (r: Result<BlurParams, i32>)
    ensures
        r == blur_params_of(members_view(m@)),
{
    let rk: Vec<u8> = vec![114u8, 97, 100, 105, 117, 115];
    let ik: Vec<u8> = vec![105u8, 116, 101, 114, 97, 116, 105, 111, 110, 115];
    assert(rk@ =~= radius_key());
    assert(ik@ =~= iterations_key());
    if !all_keys_in(m, &rk, &ik) {
        return Err(PARSE_ERROR_CODE);
    }
    let (ri, ii) = match (find_member(m, &rk), find_member(m, &ik)) {
        (Some(ri), Some(ii)) => (ri, ii),
        _ => return Err(PARSE_ERROR_CODE),
    };
    let numeral = scan_numeral(&m[ri].1);
    let iterations = parse_uint(&m[ii].1);
    match (numeral, iterations) {
        (Some((neg, digits, point)), Some(k)) => {
            let rad = check_radius(neg, &digits, point);
            proof {
                let n = numeral_of(m@[ri as int].1@)->Some_0;
                lemma_same_scale_decision(neg, digits@, point as int, n.point);
            }
            match rad {
                Some(radius) => if 1 <= k && k <= 1000 {
                    Ok(BlurParams { radius, iterations: k })
                } else {
                    Err(INVALID_PARAMS_CODE)
                },
                None => Err(INVALID_PARAMS_CODE),
            }
        },
        _ => Err(PARSE_ERROR_CODE),
    }
}

/// Decodes mirror parameters from the members of a JSON object.
pub fn decode_mirror_params(m: &Vec<(Vec<u8>, Vec<u8>)>) -> (r: Result<MirrorParams, i32>)
    ensures
        r == mirror_params_of(members_view(m@)),
{
    let hk: Vec<u8> = vec![104u8, 111, 114, 105, 122, 111, 110, 116, 97, 108];
    let vk: Vec<u8> = vec![118u8, 101, 114, 116, 105, 99, 97, 108];
    assert(hk@ =~= horizontal_key());
    assert(vk@ =~= vertical_key());
    if !all_keys_in(m, &hk, &vk) {
        return Err(PARSE_ERROR_CODE);
    }
    let (hi, vi) = match (find_member(m, &hk), find_member(m, &vk)) {
        (Some(hi), Some(vi)) => (hi, vi),
        _ => return Err(PARSE_ERROR_CODE),
    };
    match (parse_bool(&m[hi].1), parse_bool(&m[vi].1)) {
        (Some(horizontal), Some(vertical)) => Ok(MirrorParams { horizontal, vertical }),
        _ => Err(PARSE_ERROR_CODE),
    }
}

/// Decodes blur parameters from a parameter text.
pub fn parse_blur_params(text: &str) -> (r: Result<BlurParams, i32>)
    ensures
        r == blur_params_from_text(text@),
{
    match object_members(text) {
        Some(m) => decode_blur_params(&m),
        None => Err(PARSE_ERROR_CODE),
    }
}

/// Decodes mirror parameters from a parameter text.
pub fn parse_mirror_params(text: &str) -> (r: Result<MirrorParams, i32>)
    ensures
        r == mirror_params_from_text(text@),
{
    match object_members(text) {
        Some(m) => decode_mirror_params(&m),
        None => Err(PARSE_ERROR_CODE),
    }
}

} // verus!
