//! The decisions around the native encoder's and decoder's answers: which
//! status is a failure, how an attribute query reads, and how much room a
//! read needs.
use vstd::prelude::*;
use crate::error::{DracoError, argument, argument_owned, argument_error};
use crate::mesh::{AttributeType, Encoded, TF_DRACO_OK, kind_of_code};
use crate::text::{decimal, push_decimal};

verus! {

/// Refuses an empty bitstream before it reaches the decoder.
pub fn check_bitstream(data: &[u8]) -> (r: Result<(), DracoError>)
    ensures
        r is Ok <==> data@.len() > 0,
        r matches Err(e) ==> argument_error(e, "empty bitstream"@),
{
    if data.len() == 0 {
        return Err(argument("empty bitstream"));
    }
    Ok(())
}

/// A native status: success, or the code with the native message.
pub fn native_status(code: i32, message: String) -> (r: Result<(), DracoError>)
    ensures
        r is Ok <==> code == TF_DRACO_OK,
        r matches Err(e) ==> e.code == code && e.message@ == message@,
{
    if code != TF_DRACO_OK {
        return Err(DracoError { code, message });
    }
    Ok(())
}

/// The outcome of a native encode: the bitstream and the unique ids, or the
/// native code and message.
pub fn finish_encode(code: i32, message: String, bytes: Vec<u8>, unique_ids: Vec<u32>) -> (r: Result<
    Encoded,
    DracoError,
>)
    ensures
        r is Ok <==> code == TF_DRACO_OK,
        r matches Ok(enc) ==> enc.bytes@ == bytes@ && enc.unique_ids@ == unique_ids@,
        r matches Err(e) ==> e.code == code && e.message@ == message@,
{
    native_status(code, message)?;
    Ok(Encoded { bytes, unique_ids })
}

/// The outcome of a native decode: a failure when the status says so or when
/// no mesh came back.
pub fn finish_decode(code: i32, handle_is_null: bool, message: String) -> (r: Result<(), DracoError>)
    ensures
        r is Ok <==> (code == TF_DRACO_OK && !handle_is_null),
        r matches Err(e) ==> e.code == code && e.message@ == message@,
{
    if code != TF_DRACO_OK || handle_is_null {
        return Err(DracoError { code, message });
    }
    Ok(())
}

/// An attribute query's answer: the kind and component count, or nothing
/// when the native side has no attribute with that id.
pub fn attribute_from_native(code: i32, kind: i32, components: i32) -> (r: Option<
    (AttributeType, usize),
>)
    ensures
        r is Some <==> code == TF_DRACO_OK,
        r matches Some(p) ==> p.0 == kind_of_code(kind) && p.1 == components as usize,
        r matches Some(p) ==> {
            &&& (p.0 == AttributeType::Position <==> kind == 0)
            &&& (p.0 == AttributeType::Normal <==> kind == 1)
            &&& (p.0 == AttributeType::Color <==> kind == 2)
            &&& (p.0 == AttributeType::TexCoord <==> kind == 3)
            &&& (p.0 == AttributeType::Generic <==> (kind < 0 || kind >= 4))
        },
{
    if code != TF_DRACO_OK {
        return None;
    }
    Some((AttributeType::from_code(kind), components as usize))
}

/// The component count of the attribute a query found, or an argument error
/// naming the unique id it did not find.
pub fn components_or_err(attribute: Option<(AttributeType, usize)>, unique_id: u32) -> (r: Result<
    usize,
    DracoError,
>)
    ensures
        r is Ok <==> attribute is Some,
        r matches Ok(c) ==> c == attribute->Some_0.1,
        r matches Err(e) ==> argument_error(
            e,
            "no attribute with unique id "@ + decimal(unique_id as nat),
        ),
{
    match attribute {
        Some((_, c)) => Ok(c),
        None => {
            let mut message = String::from_str("no attribute with unique id ");
            push_decimal(&mut message, unique_id as u64);
            Err(argument_owned(message))
        },
    }
}

/// Room for the triangle indices of `num_faces` faces, three per face.
pub fn index_count(num_faces: u32) -> (r: Option<usize>)
    ensures
        r is Some <==> num_faces * 3 <= usize::MAX,
        r matches Some(n) ==> n == num_faces * 3,
{
    (num_faces as usize).checked_mul(3)
}

/// Room for an attribute read: `components` values for each of `num_points`
/// points.
pub fn value_count(num_points: u32, components: usize) -> (r: Option<usize>)
    ensures
        r is Some <==> num_points * components <= usize::MAX,
        r matches Some(n) ==> n == num_points * components,
{
    (num_points as usize).checked_mul(components)
}

} // verus!
