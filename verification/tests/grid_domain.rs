use tileforge_draco::{
    Attribute, Binary32, EncodeOptions, MeshView, Quantization, is_power_of_two,
    power_of_two_at_most, prepare_encode,
};

fn b(x: f32) -> Binary32 {
    Binary32 { bits: x.to_bits() }
}

#[test]
fn subnormal_power_helpers_preserve_positive_targets() {
    for bit in 0..23 {
        let power = Binary32 { bits: 1 << bit };
        assert!(is_power_of_two(power));
        assert_eq!(power_of_two_at_most(power), power);
        let target = Binary32 { bits: (1 << (bit + 1)) - 1 };
        assert_eq!(power_of_two_at_most(target), power);
        assert!(
            Quantization::grid(power).is_err(),
            "native grid needs a normal spacing"
        );
    }
}

#[test]
fn unsafe_grid_domains_return_argument_errors() {
    for (positions, spacing) in [
        (
            [
                1_000_000.0,
                0.0,
                0.0,
                1_000_001.0,
                0.0,
                0.0,
                1_000_000.0,
                1.0,
                0.0,
            ],
            1.0 / 4096.0,
        ),
        (
            [
                -1_000_000.0,
                0.0,
                0.0,
                -1_000_001.0,
                0.0,
                0.0,
                -1_000_000.0,
                1.0,
                0.0,
            ],
            1.0 / 4096.0,
        ),
        (
            [
                -1_000_000_000.0,
                0.0,
                0.0,
                1_000_000_000.0,
                0.0,
                0.0,
                0.0,
                1.0,
                0.0,
            ],
            1.0,
        ),
        ([0.0, 0.0, 0.0, f32::MAX, 0.0, 0.0, 0.0, 1.0, 0.0], 1.0),
    ] {
        let positions: Vec<Binary32> = positions.iter().map(|&x| b(x)).collect();
        let atts = [Attribute::positions(&positions)];
        let error = prepare_encode(
            MeshView {
                attributes: &atts,
                indices: &[0, 1, 2],
                num_vertices: 3,
            },
            &EncodeOptions {
                position: Quantization::Grid { spacing: b(spacing) },
                speed: 0,
            },
        )
        .unwrap_err();
        assert_eq!(error.code, 1);
        assert!(error.message.contains("grid"));
    }
}

#[test]
fn each_grid_domain_refusal_names_its_bound() {
    let one = |positions: [f32; 9], spacing: f32| {
        let positions: Vec<Binary32> = positions.iter().map(|&x| b(x)).collect();
        let atts = [Attribute::positions(&positions)];
        prepare_encode(
            MeshView {
                attributes: &atts,
                indices: &[0, 1, 2],
                num_vertices: 3,
            },
            &EncodeOptions {
                position: Quantization::Grid { spacing: b(spacing) },
                speed: 0,
            },
        )
    };
    let e = one([1_000_000.0, 0.0, 0.0, 1_000_001.0, 0.0, 0.0, 1_000_000.0, 1.0, 0.0], 1.0 / 4096.0)
        .unwrap_err();
    assert!(e.message.contains("signed 32-bit"), "{e:?}");
    let e = one([-1e9, 0.0, 0.0, 1e9, 0.0, 0.0, 0.0, 1.0, 0.0], 1.0).unwrap_err();
    assert!(e.message.contains("2^30"), "{e:?}");
    // Two steps of 2^127 from -f32::MAX to f32::MAX: 4 * 2^127 overflows.
    let big = f32::from_bits(254 << 23);
    let e = one([-f32::MAX, 0.0, 0.0, f32::MAX, 0.0, 0.0, 0.0, 1.0, 0.0], big).unwrap_err();
    assert!(e.message.contains("not finite"), "{e:?}");
    // Just inside every bound.
    assert!(one([0.0, 0.0, 0.0, 1_000_000.0, 0.0, 0.0, 0.0, 1.0, 0.0], 1.0 / 1024.0).is_ok());
    // Exactly 2^30 grid points, then one more.
    let top = ((1u32 << 30) - 64) as f32;
    assert!(one([-63.0, 0.0, 0.0, top, 0.0, 0.0, 0.0, 1.0, 0.0], 1.0).is_ok());
    let e = one([-64.0, 0.0, 0.0, top, 0.0, 0.0, 0.0, 1.0, 0.0], 1.0).unwrap_err();
    assert!(e.message.contains("2^30"), "{e:?}");
}
