use tileforge_draco::{
    Attribute, AttributeType, Binary32, EncodeOptions, EncodePlan, MeshView, Quantization,
    is_power_of_two, power_of_two_at_most, prepare_encode, snap_positions,
};

fn b(x: f32) -> Binary32 {
    Binary32 { bits: x.to_bits() }
}

fn bs(xs: &[f32]) -> Vec<Binary32> {
    xs.iter().map(|&x| b(x)).collect()
}

fn f(v: Binary32) -> f32 {
    f32::from_bits(v.bits)
}

/// A quad with two triangles, positions only.
fn quad(x0: f32, x1: f32) -> (Vec<Binary32>, Vec<u32>) {
    let positions = bs(&[
        x0, 0.0, 0.0, //
        x1, 0.0, 0.0, //
        x1, 1.0, 0.0, //
        x0, 1.0, 0.0, //
    ]);
    (positions, vec![0, 1, 2, 0, 2, 3])
}

#[test]
fn a_mesh_needs_exactly_one_position_attribute() {
    let uvs = bs(&[0.0, 0.0, 1.0, 0.0, 1.0, 1.0]);
    let err = prepare_encode(
        MeshView {
            attributes: &[Attribute::tex_coords(&uvs, 12)],
            indices: &[0, 1, 2],
            num_vertices: 3,
        },
        &EncodeOptions::default(),
    )
    .unwrap_err();
    assert!(err.message.contains("exactly one position"), "{err:?}");
}

#[test]
fn an_attribute_of_the_wrong_length_is_refused() {
    let (positions, indices) = quad(0.0, 4.0);
    let uvs = bs(&[0.0, 0.0, 1.0, 0.0]); // 2 vertices, not 4
    let err = prepare_encode(
        MeshView {
            attributes: &[
                Attribute::positions(&positions),
                Attribute::tex_coords(&uvs, 12),
            ],
            indices: &indices,
            num_vertices: 4,
        },
        &EncodeOptions::default(),
    )
    .unwrap_err();
    assert!(err.message.contains("holds 4 floats"), "{err:?}");
}

#[test]
fn a_grid_spacing_must_be_a_power_of_two() {
    assert!(Quantization::grid(b(0.003318049)).is_err());
    assert!(Quantization::grid(b(0.00390625)).is_ok());
    assert!(snap_positions(&mut [b(1.0)], b(0.003318049)).is_err());
}

#[test]
fn power_of_two_at_most_rounds_down() {
    assert_eq!(f(power_of_two_at_most(b(0.003318049))), 0.001953125);
    assert_eq!(f(power_of_two_at_most(b(0.00390625))), 0.00390625);
    assert_eq!(f(power_of_two_at_most(b(3.0))), 2.0);
    assert!(is_power_of_two(power_of_two_at_most(b(0.1))));
}

#[test]
fn snapping_puts_every_vertex_on_the_grid() {
    let spacing = 0.00390625;
    let mut v = bs(&[4.369245529174805, -49.99343490600586, 0.0007]);
    snap_positions(&mut v, b(spacing)).unwrap();
    for x in v.iter().map(|&x| f(x)) {
        assert_eq!(x / spacing, (x / spacing).round(), "{x} is off the grid");
    }
}

#[test]
fn an_empty_mesh_is_refused_with_a_clear_message() {
    let positions = bs(&[0.0, 0.0, 0.0]);
    let err = prepare_encode(
        MeshView {
            attributes: &[Attribute::positions(&positions)],
            indices: &[],
            num_vertices: 1,
        },
        &EncodeOptions::default(),
    )
    .unwrap_err();
    assert!(err.message.contains("no vertices or no triangles"), "{err:?}");
}

#[test]
fn an_index_past_the_end_is_refused() {
    let positions = bs(&[0.0, 0.0, 0.0, 1.0, 0.0, 0.0, 0.0, 1.0, 0.0]);
    let err = prepare_encode(
        MeshView {
            attributes: &[Attribute::positions(&positions)],
            indices: &[0, 1, 9],
            num_vertices: 3,
        },
        &EncodeOptions::default(),
    )
    .unwrap_err();
    assert!(err.message.contains("past the last"), "{err:?}");
}

#[test]
fn every_attribute_is_planned_in_order_with_its_own_quantization() {
    let (positions, indices) = quad(0.0, 4.0);
    let uvs = bs(&[0.0, 0.0, 1.0, 0.0, 1.0, 1.0, 0.0, 1.0]);
    let normals = bs(&[0.0, 0.0, 1.0, 0.0, 0.0, 1.0, 0.0, 0.0, 1.0, 0.0, 0.0, 1.0]);
    let plan: EncodePlan = prepare_encode(
        MeshView {
            attributes: &[
                Attribute::positions(&positions),
                Attribute::tex_coords(&uvs, 12),
                Attribute {
                    kind: AttributeType::Normal,
                    components: 3,
                    quantization_bits: 10,
                    data: &normals,
                    explicit: None,
                },
            ],
            indices: &indices,
            num_vertices: 4,
        },
        &EncodeOptions {
            position: Quantization::grid(b(0.00390625)).unwrap(),
            speed: 0,
        },
    )
    .unwrap();
    assert_eq!(plan.attributes.len(), 3);
    assert_eq!(
        (plan.attributes[0].kind, plan.attributes[0].num_components, plan.attributes[0].quantization_bits),
        (0, 3, 0)
    );
    assert_eq!(
        (plan.attributes[1].kind, plan.attributes[1].num_components, plan.attributes[1].quantization_bits),
        (3, 2, 12)
    );
    assert_eq!(
        (plan.attributes[2].kind, plan.attributes[2].num_components, plan.attributes[2].quantization_bits),
        (1, 3, 10)
    );
    assert_eq!(plan.num_vertices, 4);
    assert_eq!(plan.num_faces, 2);
    assert_eq!(f(plan.position_spacing), 0.00390625);
    assert_eq!(plan.speed, 0);
}

#[test]
fn a_bit_count_is_handed_to_the_position_attribute_and_no_spacing() {
    let (positions, indices) = quad(0.0, 4.0);
    let plan = prepare_encode(
        MeshView {
            attributes: &[Attribute::positions(&positions)],
            indices: &indices,
            num_vertices: 4,
        },
        &EncodeOptions {
            position: Quantization::Bits { bits: 8 },
            speed: 7,
        },
    )
    .unwrap();
    assert_eq!(plan.attributes[0].quantization_bits, 8);
    assert_eq!(plan.position_spacing.bits, 0);
    assert_eq!(plan.speed, 7);
}

#[test]
fn the_default_settings_use_fourteen_bits_at_the_slowest_speed() {
    let opts = EncodeOptions::default();
    assert_eq!(opts.position, Quantization::Bits { bits: 14 });
    assert_eq!(opts.speed, 0);
}

#[test]
fn each_refusal_names_its_cause() {
    let (positions, indices) = quad(0.0, 4.0);
    let one = |atts: &[Attribute], idx: &[u32], nv: usize, opts: &EncodeOptions| {
        prepare_encode(
            MeshView {
                attributes: atts,
                indices: idx,
                num_vertices: nv,
            },
            opts,
        )
        .unwrap_err()
    };
    let opts = EncodeOptions::default();
    let atts = [Attribute::positions(&positions)];

    let e = one(&atts, &[0, 1], 4, &opts);
    assert_eq!((e.code, e.message.as_str()), (1, "indices is not a multiple of 3"));

    let e = one(&atts, &indices, 0, &opts);
    assert_eq!(e.message, "mesh has no vertices or no triangles");

    let two = [Attribute::positions(&positions), Attribute::positions(&positions)];
    let e = one(&two, &indices, 4, &opts);
    assert_eq!(e.message, "a mesh needs exactly one position attribute");

    let five = [Attribute {
        kind: AttributeType::Position,
        components: 5,
        quantization_bits: 0,
        data: &positions,
        explicit: None,
    }];
    let e = one(&five, &indices, 4, &opts);
    assert_eq!(e.message, "an attribute needs 1 to 4 components");

    let e = one(&atts, &indices, 5, &opts);
    assert_eq!(e.message, "attribute Position holds 12 floats, not 5 vertices times 3 components");

    let e = one(&atts, &[0, 1, 2, 0, 2, 4], 4, &opts);
    assert_eq!(e.message, "index 4 is past the last of 4 vertices");

    let e = one(&atts, &indices, 4, &EncodeOptions { position: Quantization::Bits { bits: 0 }, speed: 0 });
    assert_eq!((e.code, e.message.as_str()), (1, "a bit count must be positive"));

    let e = one(
        &atts,
        &indices,
        4,
        &EncodeOptions { position: Quantization::Grid { spacing: b(0.1) }, speed: 0 },
    );
    assert!(e.message.starts_with("grid spacing is not a power of two"), "{e:?}");

    let e = one(
        &atts,
        &indices,
        4,
        &EncodeOptions { position: Quantization::Grid { spacing: Binary32 { bits: 1 << 5 } }, speed: 0 },
    );
    assert!(e.message.contains("subnormal"), "{e:?}");
}

#[test]
fn an_explicit_origin_needs_one_value_per_component() {
    let (positions, indices) = quad(0.0, 4.0);
    let uvs = bs(&[0.0; 8]);
    let origin = bs(&[0.0, 0.0, 0.0]);
    let err = prepare_encode(
        MeshView {
            attributes: &[
                Attribute::positions(&positions),
                Attribute {
                    kind: AttributeType::TexCoord,
                    components: 2,
                    quantization_bits: 12,
                    data: &uvs,
                    explicit: Some((&origin, b(1.0))),
                },
            ],
            indices: &indices,
            num_vertices: 4,
        },
        &EncodeOptions::default(),
    )
    .unwrap_err();
    assert_eq!(
        err.message,
        "attribute TexCoord has an explicit origin of 3 floats, not 2 components"
    );
}

#[test]
fn an_explicit_range_must_be_positive() {
    let (positions, indices) = quad(0.0, 4.0);
    let uvs = bs(&[0.0; 8]);
    let origin = bs(&[0.0, 0.0]);
    for range in [0.0f32, -0.0, -1.0] {
        let err = prepare_encode(
            MeshView {
                attributes: &[
                    Attribute::positions(&positions),
                    Attribute {
                        kind: AttributeType::TexCoord,
                        components: 2,
                        quantization_bits: 12,
                        data: &uvs,
                        explicit: Some((&origin, b(range))),
                    },
                ],
                indices: &indices,
                num_vertices: 4,
            },
            &EncodeOptions::default(),
        )
        .unwrap_err();
        assert_eq!(err.code, 1);
        assert!(err.message.contains("positive"), "{err:?}");
    }
}

#[test]
fn grid_explains_a_bad_spacing_while_snapping_and_encoding_name_it_briefly() {
    let e = Quantization::grid(b(0.1)).unwrap_err();
    assert_eq!(
        e.message,
        "grid spacing is not a power of two; a spacing that is not exactly representable puts neighbouring tiles on different lattices"
    );
    let e = snap_positions(&mut [b(1.0)], b(0.1)).unwrap_err();
    assert_eq!((e.code, e.message.as_str()), (1, "grid spacing is not a power of two"));
    let (positions, indices) = quad(0.0, 4.0);
    let e = prepare_encode(
        MeshView {
            attributes: &[Attribute::positions(&positions)],
            indices: &indices,
            num_vertices: 4,
        },
        &EncodeOptions { position: Quantization::Grid { spacing: b(0.1) }, speed: 0 },
    )
    .unwrap_err();
    assert_eq!((e.code, e.message.as_str()), (1, "grid spacing is not a power of two"));
}

#[test]
fn on_a_grid_the_position_bit_count_plays_no_role() {
    let (positions, indices) = quad(0.0, 4.0);
    let opts = EncodeOptions { position: Quantization::grid(b(0.00390625)).unwrap(), speed: 0 };
    let plan_with = |bits: i32| {
        let mut att = Attribute::positions(&positions);
        att.quantization_bits = bits;
        prepare_encode(
            MeshView { attributes: &[att], indices: &indices, num_vertices: 4 },
            &opts,
        )
        .unwrap()
    };
    let a = plan_with(0);
    let c = plan_with(11);
    assert_eq!(a.attributes, c.attributes);
    assert_eq!(a.attributes[0].quantization_bits, 0);
}
