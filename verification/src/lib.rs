//! Grid arithmetic and mesh validation for a Draco encoder that keeps
//! neighbouring tiles on one lattice.
//!
//! Floating-point values are held by their IEEE 754 binary32 bit patterns
//! (`Binary32`) and reasoned about exactly, in whole multiples of the
//! smallest positive subnormal, 2^-149.

pub mod binary32;
pub mod grid;
pub mod text;
pub mod error;
pub mod search;
pub mod mesh;
pub mod decode;

pub use binary32::{Binary32, is_finite, is_power_of_two, power_of_two_at_most};
pub use decode::{
    attribute_from_native, check_bitstream, components_or_err, finish_decode, finish_encode,
    index_count, native_status, value_count,
};
pub use error::{DracoError, argument};
pub use grid::{Quantization, check_grid_domain, snap_positions, snap_value};
pub use mesh::{
    Attribute, AttributeType, EncodeOptions, EncodePlan, Encoded, MeshView, NativeAttribute,
    prepare_encode,
};
