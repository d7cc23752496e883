use tileforge_draco::{Binary32, snap_positions, snap_value};

fn b(x: f32) -> Binary32 {
    Binary32 { bits: x.to_bits() }
}

fn f(v: Binary32) -> f32 {
    f32::from_bits(v.bits)
}

/// The binary64 computation the snapping rule is stated by.
fn reference(v: f32, spacing: f32) -> Option<f32> {
    if !v.is_finite() {
        return None;
    }
    let s = spacing as f64;
    let r = ((v as f64) / s + 0.5).floor() * s;
    let out = r as f32;
    if out.is_finite() && out as f64 == r { Some(out) } else { None }
}

/// A small deterministic generator, so the sweep is the same every run.
fn next(state: &mut u64) -> u32 {
    *state = state.wrapping_mul(6364136223846793005).wrapping_add(1442695040888963407);
    (*state >> 32) as u32
}

#[test]
fn snapping_agrees_with_binary64_arithmetic() {
    let mut state = 7u64;
    let spacings = [
        1.0f32 / 256.0,
        1.0,
        0.5,
        1.0 / 4096.0,
        f32::MIN_POSITIVE,
        f32::from_bits(254 << 23),
        1024.0,
    ];
    for &spacing in &spacings {
        for _ in 0..20000 {
            let bits = next(&mut state);
            let v = f32::from_bits(bits);
            let got = snap_value(Binary32 { bits }, b(spacing)).map(f);
            let want = reference(v, spacing);
            match (got, want) {
                (Some(g), Some(w)) => assert_eq!(g.to_bits(), w.to_bits(), "{v} at {spacing}"),
                (None, None) => {}
                _ => panic!("{v} at {spacing}: {got:?} against {want:?}"),
            }
        }
    }
}

#[test]
fn an_aligned_value_is_not_moved_by_a_half_step_error() {
    // Binary32 arithmetic would add the half step and round 8,388,609.5 up.
    let mut v = [b(8_388_609.0)];
    snap_positions(&mut v, b(1.0)).unwrap();
    assert_eq!(f(v[0]), 8_388_609.0);
}

#[test]
fn the_largest_value_snaps_to_itself_at_half_a_metre() {
    let mut v = [b(f32::MAX), b(-f32::MAX)];
    snap_positions(&mut v, b(0.5)).unwrap();
    assert_eq!(f(v[0]), f32::MAX);
    assert_eq!(f(v[1]), -f32::MAX);
}

#[test]
fn a_halfway_value_rounds_towards_positive_infinity() {
    let mut v = [b(0.5), b(-0.5), b(1.5), b(-1.5), b(-0.25), b(-0.75)];
    snap_positions(&mut v, b(1.0)).unwrap();
    let got: Vec<f32> = v.iter().map(|&x| f(x)).collect();
    assert_eq!(got, vec![1.0, 0.0, 2.0, -1.0, 0.0, -1.0]);
    // Zero results are positive zero.
    assert_eq!(v[1].bits, 0);
    assert_eq!(v[4].bits, 0);
}

#[test]
fn negative_zero_snaps_to_positive_zero() {
    assert_eq!(snap_value(b(-0.0), b(1.0)), Some(b(0.0)));
}

#[test]
fn snapping_twice_changes_nothing() {
    let spacing = b(1.0 / 256.0);
    let mut v = vec![b(4.369245529174805), b(-49.99343490600586), b(0.0007), b(1e-30), b(-3.0e7)];
    snap_positions(&mut v, spacing).unwrap();
    let once = v.clone();
    snap_positions(&mut v, spacing).unwrap();
    assert_eq!(v, once);
}

#[test]
fn a_snapped_value_moves_at_most_half_a_step() {
    let spacing = 1.0f32 / 256.0;
    let originals = [4.369245529174805f32, -49.99343490600586, 0.0007, 123.456, -0.001953125];
    let mut v: Vec<Binary32> = originals.iter().map(|&x| b(x)).collect();
    snap_positions(&mut v, b(spacing)).unwrap();
    for (&a, &o) in v.iter().zip(&originals) {
        assert!((f(a) as f64 - o as f64).abs() <= spacing as f64 / 2.0);
    }
}

#[test]
fn a_refused_snap_leaves_every_value_in_place() {
    let before = vec![b(1.3), b(f32::NAN), b(2.7)];
    let mut v = before.clone();
    let err = snap_positions(&mut v, b(1.0)).unwrap_err();
    assert_eq!(err.code, 1);
    assert_eq!(err.message, "position 1 is not finite");
    assert_eq!(v, before);

    // Rounding f32::MAX up to the next multiple of 2^127 leaves the range.
    let before = vec![b(1.0), b(2.0), b(f32::MAX)];
    let mut v = before.clone();
    let err = snap_positions(&mut v, Binary32 { bits: 254 << 23 }).unwrap_err();
    assert_eq!(err.message, "position 2 lands beyond the largest finite value when snapped");
    assert_eq!(v, before);
}

#[test]
fn a_subnormal_spacing_is_refused_by_snapping() {
    let mut v = [b(1.0)];
    let err = snap_positions(&mut v, Binary32 { bits: 1 }).unwrap_err();
    assert!(err.message.contains("subnormal"), "{err:?}");
    assert_eq!(f(v[0]), 1.0);
}

#[test]
fn two_tiles_snap_a_shared_vertex_to_the_same_bits() {
    let spacing = b(0.00390625);
    let mut left: Vec<Binary32> = [-3.0f32, 0.0, 0.0, 4.0, 0.0, 0.0, 4.0, 1.0, 0.0, -3.0, 1.0, 0.0]
        .iter()
        .map(|&x| b(x + 0.0001))
        .collect();
    let mut right: Vec<Binary32> = [4.0f32, 0.0, 0.0, 11.0, 0.0, 0.0, 11.0, 1.0, 0.0, 4.0, 1.0, 0.0]
        .iter()
        .map(|&x| b(x + 0.0001))
        .collect();
    snap_positions(&mut left, spacing).unwrap();
    snap_positions(&mut right, spacing).unwrap();
    // The seam vertices (4, 0, 0) and (4, 1, 0) sit at left[1], left[2] and right[0], right[3].
    assert_eq!(&left[3..9], &[right[0], right[1], right[2], right[9], right[10], right[11]]);
    assert_eq!(f(left[3]), 4.0);
}

#[test]
fn snapped_values_lie_whole_steps_apart() {
    let spacing = 1.0f32 / 1024.0;
    let mut v = vec![b(3.14159), b(-2.71828), b(1000.0001), b(0.0)];
    snap_positions(&mut v, b(spacing)).unwrap();
    for &x in &v {
        for &y in &v {
            let steps = (f(x) as f64 - f(y) as f64) / spacing as f64;
            assert_eq!(steps, steps.round());
        }
    }
}
