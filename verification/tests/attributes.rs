use tileforge_draco::{
    AttributeType, Binary32, attribute_from_native, check_bitstream, components_or_err,
    finish_decode, finish_encode, index_count, is_finite, native_status, value_count,
};

#[test]
fn every_kind_comes_back_from_its_code() {
    for kind in [
        AttributeType::Position,
        AttributeType::Normal,
        AttributeType::Color,
        AttributeType::TexCoord,
        AttributeType::Generic,
    ] {
        assert_eq!(AttributeType::from_code(kind.code()), kind);
    }
    assert_eq!(AttributeType::Position.code(), 0);
    assert_eq!(AttributeType::TexCoord.code(), 3);
    assert_eq!(AttributeType::Generic.code(), 4);
    assert_eq!(AttributeType::from_code(17), AttributeType::Generic);
    assert_eq!(AttributeType::from_code(-1), AttributeType::Generic);
}

#[test]
fn an_empty_bitstream_is_refused() {
    let err = check_bitstream(&[]).unwrap_err();
    assert_eq!((err.code, err.message.as_str()), (1, "empty bitstream"));
    assert!(check_bitstream(&[0x44]).is_ok());
}

#[test]
fn a_missing_attribute_is_named_by_its_unique_id() {
    let err = components_or_err(None, 4_294_967_295).unwrap_err();
    assert_eq!(err.code, 1);
    assert_eq!(err.message, "no attribute with unique id 4294967295");
    let err = components_or_err(None, 0).unwrap_err();
    assert_eq!(err.message, "no attribute with unique id 0");
    assert_eq!(components_or_err(Some((AttributeType::Normal, 3)), 2).unwrap(), 3);
}

#[test]
fn native_answers_are_read_by_status() {
    assert_eq!(attribute_from_native(0, 3, 2), Some((AttributeType::TexCoord, 2)));
    assert_eq!(attribute_from_native(5, 3, 2), None);
    assert!(native_status(0, String::new()).is_ok());
    let err = native_status(-3, "cannot read indices".to_string()).unwrap_err();
    assert_eq!((err.code, err.message.as_str()), (-3, "cannot read indices"));

    let enc = finish_encode(0, String::new(), vec![1, 2, 3], vec![0, 1]).unwrap();
    assert_eq!(enc.bytes, vec![1, 2, 3]);
    assert_eq!(enc.unique_ids, vec![0, 1]);
    let err = finish_encode(2, "All triangles are degenerate".to_string(), vec![], vec![]).unwrap_err();
    assert_eq!((err.code, err.message.as_str()), (2, "All triangles are degenerate"));

    assert!(finish_decode(0, false, String::new()).is_ok());
    assert_eq!(finish_decode(0, true, "no mesh".to_string()).unwrap_err().code, 0);
    assert_eq!(finish_decode(3, false, "bad header".to_string()).unwrap_err().message, "bad header");
}

#[test]
fn read_buffers_are_sized_by_count() {
    assert_eq!(index_count(2), Some(6));
    assert_eq!(value_count(4, 3), Some(12));
    assert_eq!(value_count(u32::MAX, usize::MAX), None);
}

#[test]
fn only_infinities_and_nans_are_not_finite() {
    assert!(is_finite(Binary32 { bits: f32::MAX.to_bits() }));
    assert!(is_finite(Binary32 { bits: 1 }));
    assert!(!is_finite(Binary32 { bits: f32::INFINITY.to_bits() }));
    assert!(!is_finite(Binary32 { bits: f32::NAN.to_bits() }));
}
