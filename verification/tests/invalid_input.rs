use tileforge_draco::{
    Attribute, AttributeType, Binary32, EncodeOptions, MeshView, Quantization, prepare_encode,
};

fn b(x: f32) -> Binary32 {
    Binary32 { bits: x.to_bits() }
}

fn bs(xs: &[f32]) -> Vec<Binary32> {
    xs.iter().map(|&x| b(x)).collect()
}

#[test]
fn invalid_numeric_inputs_return_argument_errors() {
    for case in [
        "nan_position",
        "infinite_position",
        "negative_infinite_position",
        "bits_nan_position",
        "nan_attribute",
        "infinite_attribute",
        "nan_origin",
        "infinite_origin",
        "infinite_range",
    ] {
        let mut positions = [0.0, 0.0, 0.0, 1.0, 0.0, 0.0, 0.0, 1.0, 0.0];
        let mut uv = [0.0; 6];
        let mut origin = [0.0; 2];
        let mut range = 1.0;
        let mut quantization = Quantization::Grid { spacing: b(1.0) };
        match case {
            "nan_position" => positions[0] = f32::NAN,
            "infinite_position" => positions[0] = f32::INFINITY,
            "negative_infinite_position" => positions[0] = f32::NEG_INFINITY,
            "bits_nan_position" => {
                positions[0] = f32::NAN;
                quantization = Quantization::Bits { bits: 14 };
            }
            "nan_attribute" => uv[0] = f32::NAN,
            "infinite_attribute" => uv[0] = f32::INFINITY,
            "nan_origin" => origin[0] = f32::NAN,
            "infinite_origin" => origin[0] = f32::INFINITY,
            "infinite_range" => range = f32::INFINITY,
            _ => panic!("unknown case"),
        }
        let positions = bs(&positions);
        let uv = bs(&uv);
        let origin = bs(&origin);
        let attributes = [
            Attribute::positions(&positions),
            Attribute {
                kind: AttributeType::TexCoord,
                components: 2,
                quantization_bits: 12,
                data: &uv,
                explicit: Some((&origin, b(range))),
            },
        ];
        let error = prepare_encode(
            MeshView {
                attributes: &attributes,
                indices: &[0, 1, 2],
                num_vertices: 3,
            },
            &EncodeOptions {
                position: quantization,
                speed: 0,
            },
        )
        .unwrap_err();
        assert_eq!(error.code, 1, "{case}");
        assert!(error.message.contains("finite"), "{case}: {error:?}");
    }
}

#[test]
fn finite_inputs_with_an_explicit_origin_are_accepted() {
    let positions = bs(&[0.0, 0.0, 0.0, 1.0, 0.0, 0.0, 0.0, 1.0, 0.0]);
    let uv = bs(&[0.0; 6]);
    let origin = bs(&[0.0; 2]);
    let attributes = [
        Attribute::positions(&positions),
        Attribute {
            kind: AttributeType::TexCoord,
            components: 2,
            quantization_bits: 12,
            data: &uv,
            explicit: Some((&origin, b(1.0))),
        },
    ];
    let plan = prepare_encode(
        MeshView {
            attributes: &attributes,
            indices: &[0, 1, 2],
            num_vertices: 3,
        },
        &EncodeOptions {
            position: Quantization::Grid { spacing: b(1.0) },
            speed: 0,
        },
    )
    .unwrap();
    assert_eq!(plan.attributes.len(), 2);
}
