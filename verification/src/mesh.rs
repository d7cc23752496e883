//! Meshes on their way into Draco: attribute kinds, the encoder settings,
//! and the argument check that runs before any native work.
use vstd::prelude::*;
use crate::binary32::{Binary32, is_finite, is_positive, is_normal_power_of_two_bits};
use crate::error::{DracoError, argument, argument_owned, argument_error};
use crate::grid::{Quantization, spacing_refusal, check_spacing, check_grid_domain, grid_domain_refusal};
use crate::search::{
    any_fails, first_failing, is_first_failing, lemma_first_failing, lemma_first_failing_agree,
};
use crate::text::{decimal, push_decimal};

verus! {

/// The native status code of success.
pub const TF_DRACO_OK: i32 = 0;

/// Native attribute kind codes; they mirror `draco::GeometryAttribute::Type`.
pub const TF_DRACO_ATTR_POSITION: i32 = 0;

pub const TF_DRACO_ATTR_NORMAL: i32 = 1;

pub const TF_DRACO_ATTR_COLOR: i32 = 2;

pub const TF_DRACO_ATTR_TEX_COORD: i32 = 3;

pub const TF_DRACO_ATTR_GENERIC: i32 = 4;

/// What kind of thing an attribute holds.
#[derive(Debug, Clone, Copy, PartialEq, Eq, Structural)]
pub enum AttributeType {
    Position,
    Normal,
    Color,
    TexCoord,
    Generic,
}

/// The native code of an attribute kind.
pub open spec fn kind_code(t: AttributeType) -> i32 {
    match t {
        AttributeType::Position => TF_DRACO_ATTR_POSITION,
        AttributeType::Normal => TF_DRACO_ATTR_NORMAL,
        AttributeType::Color => TF_DRACO_ATTR_COLOR,
        AttributeType::TexCoord => TF_DRACO_ATTR_TEX_COORD,
        AttributeType::Generic => TF_DRACO_ATTR_GENERIC,
    }
}

/// The attribute kind of a native code; an unknown code is generic.
pub open spec fn kind_of_code(code: i32) -> AttributeType {
    if code == TF_DRACO_ATTR_POSITION {
        AttributeType::Position
    } else if code == TF_DRACO_ATTR_NORMAL {
        AttributeType::Normal
    } else if code == TF_DRACO_ATTR_COLOR {
        AttributeType::Color
    } else if code == TF_DRACO_ATTR_TEX_COORD {
        AttributeType::TexCoord
    } else {
        AttributeType::Generic
    }
}

/// The name an attribute kind is shown by in messages.
pub open spec fn kind_name(t: AttributeType) -> Seq<char> {
    match t {
        AttributeType::Position => "Position"@,
        AttributeType::Normal => "Normal"@,
        AttributeType::Color => "Color"@,
        AttributeType::TexCoord => "TexCoord"@,
        AttributeType::Generic => "Generic"@,
    }
}

impl AttributeType {
    /// The native code of this kind.
    pub fn code(self) -> (c: i32)
        ensures
            c == kind_code(self),
    {
        match self {
            AttributeType::Position => TF_DRACO_ATTR_POSITION,
            AttributeType::Normal => TF_DRACO_ATTR_NORMAL,
            AttributeType::Color => TF_DRACO_ATTR_COLOR,
            AttributeType::TexCoord => TF_DRACO_ATTR_TEX_COORD,
            AttributeType::Generic => TF_DRACO_ATTR_GENERIC,
        }
    }

    /// The kind a native code names; a code Draco adds later reads as generic.
    pub fn from_code(code: i32) -> (t: AttributeType)
        ensures
            t == kind_of_code(code),
            (t == AttributeType::Position) <==> code == 0,
            (t == AttributeType::Normal) <==> code == 1,
            (t == AttributeType::Color) <==> code == 2,
            (t == AttributeType::TexCoord) <==> code == 3,
            (t == AttributeType::Generic) <==> (code < 0 || code >= 4),
    {
        proof {
            lemma_code_reading(code);
        }
        if code == TF_DRACO_ATTR_POSITION {
            AttributeType::Position
        } else if code == TF_DRACO_ATTR_NORMAL {
            AttributeType::Normal
        } else if code == TF_DRACO_ATTR_COLOR {
            AttributeType::Color
        } else if code == TF_DRACO_ATTR_TEX_COORD {
            AttributeType::TexCoord
        } else {
            AttributeType::Generic
        }
    }

    /// The name this kind is shown by in messages.
    pub fn name(self) -> (s: &'static str)
        ensures
            s@ == kind_name(self),
    {
        match self {
            AttributeType::Position => "Position",
            AttributeType::Normal => "Normal",
            AttributeType::Color => "Color",
            AttributeType::TexCoord => "TexCoord",
            AttributeType::Generic => "Generic",
        }
    }
}

/// Reading back the code of a kind gives the kind.
pub proof fn lemma_kind_code_round_trip(t: AttributeType)
    ensures
        kind_of_code(kind_code(t)) == t,
{
}

/// Every code that names a kind comes back as itself.
pub proof fn lemma_known_code_round_trip(code: i32)
    requires
        TF_DRACO_ATTR_POSITION <= code <= TF_DRACO_ATTR_GENERIC,
    ensures
        kind_code(kind_of_code(code)) == code,
{
}

/// One vertex attribute on its way into Draco.
///
/// `data` holds `components` values per vertex, tightly packed, in vertex
/// order. Positions take their quantization from [`EncodeOptions::position`],
/// so `quantization_bits` is ignored on a position attribute.
#[derive(Debug, Clone, Copy)]
pub struct Attribute<'a> {
    pub kind: AttributeType,
    pub components: usize,
    /// 0 leaves the attribute unquantized.
    pub quantization_bits: i32,
    pub data: &'a [Binary32],
    /// An explicit quantization origin, one value per component, and range.
    pub explicit: Option<(&'a [Binary32], Binary32)>,
}

impl<'a> Attribute<'a> {
    /// Positions, three values per vertex.
    pub fn positions(data: &'a [Binary32]) -> (r: Self)
        ensures
            r.kind == AttributeType::Position,
            r.components == 3,
            r.quantization_bits == 0,
            r.data@ == data@,
            r.explicit is None,
    {
        Attribute {
            kind: AttributeType::Position,
            components: 3,
            quantization_bits: 0,
            data,
            explicit: None,
        }
    }

    /// Texture coordinates, two values per vertex.
    pub fn tex_coords(data: &'a [Binary32], bits: i32) -> (r: Self)
        ensures
            r.kind == AttributeType::TexCoord,
            r.components == 2,
            r.quantization_bits == bits,
            r.data@ == data@,
            r.explicit is None,
    {
        Attribute {
            kind: AttributeType::TexCoord,
            components: 2,
            quantization_bits: bits,
            data,
            explicit: None,
        }
    }
}

/// One mesh on its way into Draco.
///
/// Exactly one attribute must be a [`AttributeType::Position`]. `indices`
/// holds three entries per triangle.
#[derive(Debug, Clone, Copy)]
pub struct MeshView<'a> {
    pub attributes: &'a [Attribute<'a>],
    pub indices: &'a [u32],
    pub num_vertices: usize,
}

/// Encoder settings.
#[derive(Debug, Clone, Copy)]
pub struct EncodeOptions {
    pub position: Quantization,
    /// Draco's own scale: 0 is slowest and smallest, 10 is fastest.
    pub speed: i32,
}

impl Default for EncodeOptions {
    fn default() -> (r: Self)
        ensures
            r.position == (Quantization::Bits { bits: 14 }),
            r.speed == 0,
    {
        EncodeOptions { position: Quantization::Bits { bits: 14 }, speed: 0 }
    }
}

/// A Draco bitstream and the unique id Draco gave each input attribute.
///
/// The `KHR_draco_mesh_compression` extension names attributes by unique id,
/// not by position, so the caller needs both halves to write the extension.
#[derive(Debug, Clone)]
pub struct Encoded {
    pub bytes: Vec<u8>,
    /// One id per attribute of the input mesh, in the same order.
    pub unique_ids: Vec<u32>,
}

/// How many attributes in `atts` are positions.
pub open spec fn position_count<'a>(atts: Seq<Attribute<'a>>) -> nat
    decreases atts.len(),
{
    if atts.len() == 0 {
        0
    } else {
        position_count(atts.drop_last()) + (if atts.last().kind == AttributeType::Position {
            1nat
        } else {
            0nat
        })
    }
}

/// An attribute has 1 to 4 components and one value per component per vertex.
pub open spec fn shape_ok<'a>(a: Attribute<'a>, nv: nat) -> bool {
    1 <= a.components <= 4 && a.data@.len() == nv * a.components
}

/// Why an attribute's shape is refused.
pub open spec fn shape_message<'a>(a: Attribute<'a>, nv: nat) -> Seq<char> {
    if !(1 <= a.components <= 4) {
        "an attribute needs 1 to 4 components"@
    } else {
        "attribute "@ + kind_name(a.kind) + " holds "@ + decimal(a.data@.len()) + " floats, not "@
            + decimal(nv) + " vertices times "@ + decimal(a.components as nat) + " components"@
    }
}

/// Why an index is refused.
pub open spec fn index_message(index: u32, nv: nat) -> Seq<char> {
    "index "@ + decimal(index as nat) + " is past the last of "@ + decimal(nv) + " vertices"@
}

/// Every value in `s` is finite.
pub open spec fn all_finite(s: Seq<Binary32>) -> bool {
    forall|i: int| 0 <= i < s.len() ==> (#[trigger] s[i]).is_finite()
}

/// An attribute's values, explicit origin and explicit range are all finite,
/// the origin has one value per component and the range is positive.
pub open spec fn values_ok<'a>(a: Attribute<'a>) -> bool {
    &&& all_finite(a.data@)
    &&& match a.explicit {
        None => true,
        Some((origin, range)) => {
            &&& origin@.len() == a.components
            &&& all_finite(origin@)
            &&& range.is_finite()
            &&& range.value() > 0
        },
    }
}

/// Why an attribute's values are refused.
pub open spec fn values_message<'a>(a: Attribute<'a>) -> Seq<char> {
    let head = "attribute "@ + kind_name(a.kind);
    if !all_finite(a.data@) {
        head + " holds a value that is not finite"@
    } else {
        match a.explicit {
            None => Seq::empty(),
            Some((origin, range)) => if origin@.len() != a.components {
                head + " has an explicit origin of "@ + decimal(origin@.len()) + " floats, not "@
                    + decimal(a.components as nat) + " components"@
            } else if !all_finite(origin@) {
                head + " has an explicit origin that is not finite"@
            } else {
                head + " has an explicit range that is not finite and positive"@
            },
        }
    }
}

/// Counts the position attributes.
fn count_positions<'a>(atts: &[Attribute<'a>]) -> (n: usize)
    ensures
        n == position_count(atts@),
{
    let mut n: usize = 0;
    let mut i: usize = 0;
    while i < atts.len()
        invariant
            i <= atts@.len(),
            n <= i,
            n == position_count(atts@.take(i as int)),
        decreases atts@.len() - i,
    {
        proof {
            assert(atts@.take(i + 1).drop_last() =~= atts@.take(i as int));
        }
        if atts[i].kind == AttributeType::Position {
            n = n + 1;
        }
        i = i + 1;
    }
    proof {
        assert(atts@.take(atts@.len() as int) =~= atts@);
    }
    n
}

/// Checks every attribute's component count and length, in order.
fn check_shapes<'a>(atts: &[Attribute<'a>], nv: usize) -> (r: Result<(), DracoError>)
    ensures
        r is Ok <==> !any_fails(atts@, |a: Attribute<'a>| shape_ok(a, nv as nat)),
        r matches Err(e) ==> argument_error(
            e,
            shape_message(atts@[first_failing(atts@, |a: Attribute<'a>| shape_ok(a, nv as nat))], nv as nat),
        ),
{
    let ghost ok = |a: Attribute<'a>| shape_ok(a, nv as nat);
    let mut i: usize = 0;
    while i < atts.len()
        invariant
            ok == (|a: Attribute<'a>| shape_ok(a, nv as nat)),
            i <= atts@.len(),
            forall|j: int| 0 <= j < i ==> ok(#[trigger] atts@[j]),
        decreases atts@.len() - i,
    {
        let att = atts[i];
        let dl = att.data.len();
        let fits = match nv.checked_mul(att.components) {
            Some(n) => dl == n,
            None => false,
        };
        if att.components < 1 || att.components > 4 || !fits {
            proof {
                assert(!ok(atts@[i as int]));
                assert(is_first_failing(atts@, ok, i as int));
                lemma_first_failing(atts@, ok, i as int);
            }
            if att.components < 1 || att.components > 4 {
                return Err(argument("an attribute needs 1 to 4 components"));
            }
            let mut message = String::from_str("attribute ");
            message.append(att.kind.name());
            message.append(" holds ");
            push_decimal(&mut message, att.data.len() as u64);
            message.append(" floats, not ");
            push_decimal(&mut message, nv as u64);
            message.append(" vertices times ");
            push_decimal(&mut message, att.components as u64);
            message.append(" components");
            return Err(argument_owned(message));
        }
        i = i + 1;
    }
    Ok(())
}

/// Checks that every index names a vertex, in order.
fn check_indices(indices: &[u32], nv: usize) -> (r: Result<(), DracoError>)
    ensures
        r is Ok <==> !any_fails(indices@, |i: u32| (i as nat) < nv),
        r matches Err(e) ==> argument_error(
            e,
            index_message(indices@[first_failing(indices@, |i: u32| (i as nat) < nv)], nv as nat),
        ),
{
    let ghost ok = |i: u32| (i as nat) < nv;
    let mut k: usize = 0;
    while k < indices.len()
        invariant
            ok == (|i: u32| (i as nat) < nv),
            k <= indices@.len(),
            forall|j: int| 0 <= j < k ==> ok(#[trigger] indices@[j]),
        decreases indices@.len() - k,
    {
        let bad = indices[k];
        if bad as usize >= nv {
            proof {
                assert(!ok(indices@[k as int]));
                assert(is_first_failing(indices@, ok, k as int));
                lemma_first_failing(indices@, ok, k as int);
            }
            let mut message = String::from_str("index ");
            push_decimal(&mut message, bad as u64);
            message.append(" is past the last of ");
            push_decimal(&mut message, nv as u64);
            message.append(" vertices");
            return Err(argument_owned(message));
        }
        k = k + 1;
    }
    Ok(())
}

/// Whether every value is finite.
fn slice_is_finite(s: &[Binary32]) -> (r: bool)
    ensures
        r == all_finite(s@),
{
    let mut i: usize = 0;
    while i < s.len()
        invariant
            i <= s@.len(),
            forall|j: int| 0 <= j < i ==> (#[trigger] s@[j]).is_finite(),
        decreases s@.len() - i,
    {
        if !is_finite(s[i]) {
            return false;
        }
        i = i + 1;
    }
    true
}

/// Checks every attribute's values, explicit origin and explicit range, in
/// order.
fn check_values<'a>(atts: &[Attribute<'a>]) -> (r: Result<(), DracoError>)
    ensures
        r is Ok <==> !any_fails(atts@, |a: Attribute<'a>| values_ok(a)),
        r matches Err(e) ==> argument_error(
            e,
            values_message(atts@[first_failing(atts@, |a: Attribute<'a>| values_ok(a))]),
        ),
{
    let ghost ok = |a: Attribute<'a>| values_ok(a);
    let mut i: usize = 0;
    while i < atts.len()
        invariant
            ok == (|a: Attribute<'a>| values_ok(a)),
            i <= atts@.len(),
            forall|j: int| 0 <= j < i ==> ok(#[trigger] atts@[j]),
        decreases atts@.len() - i,
    {
        let att = atts[i];
        let data_finite = slice_is_finite(att.data);
        let mut message = String::from_str("attribute ");
        message.append(att.kind.name());
        if !data_finite {
            proof {
                assert(is_first_failing(atts@, ok, i as int));
                lemma_first_failing(atts@, ok, i as int);
            }
            message.append(" holds a value that is not finite");
            return Err(argument_owned(message));
        }
        match att.explicit {
            None => {},
            Some((origin, range)) => {
                if origin.len() != att.components {
                    proof {
                        assert(is_first_failing(atts@, ok, i as int));
                        lemma_first_failing(atts@, ok, i as int);
                    }
                    message.append(" has an explicit origin of ");
                    push_decimal(&mut message, origin.len() as u64);
                    message.append(" floats, not ");
                    push_decimal(&mut message, att.components as u64);
                    message.append(" components");
                    return Err(argument_owned(message));
                }
                if !slice_is_finite(origin) {
                    proof {
                        assert(is_first_failing(atts@, ok, i as int));
                        lemma_first_failing(atts@, ok, i as int);
                    }
                    message.append(" has an explicit origin that is not finite");
                    return Err(argument_owned(message));
                }
                if !is_finite(range) || !is_positive(range) {
                    proof {
                        assert(is_first_failing(atts@, ok, i as int));
                        lemma_first_failing(atts@, ok, i as int);
                    }
                    message.append(" has an explicit range that is not finite and positive");
                    return Err(argument_owned(message));
                }
            },
        }
        i = i + 1;
    }
    Ok(())
}

/// The position of the first position attribute.
fn find_position<'a>(atts: &[Attribute<'a>]) -> (i: usize)
    requires
        position_count(atts@) == 1,
    ensures
        is_first_failing(atts@, |a: Attribute<'a>| a.kind != AttributeType::Position, i as int),
{
    let ghost ok = |a: Attribute<'a>| a.kind != AttributeType::Position;
    let mut i: usize = 0;
    while i < atts.len()
        invariant
            ok == (|a: Attribute<'a>| a.kind != AttributeType::Position),
            i <= atts@.len(),
            position_count(atts@) == 1,
            forall|j: int| 0 <= j < i ==> ok(#[trigger] atts@[j]),
            position_count(atts@.take(i as int)) == 0,
        decreases atts@.len() - i,
    {
        proof {
            assert(atts@.take(i + 1).drop_last() =~= atts@.take(i as int));
        }
        if atts[i].kind == AttributeType::Position {
            return i;
        }
        i = i + 1;
    }
    proof {
        assert(atts@.take(atts@.len() as int) =~= atts@);
    }
    0
}

/// One attribute as the native encoder receives it.
#[derive(Debug, Clone, Copy, PartialEq, Eq, Structural)]
pub struct NativeAttribute {
    pub kind: i32,
    pub num_components: i32,
    pub quantization_bits: i32,
}

/// Everything the native encoder is handed besides the value buffers
/// themselves, which stay where the mesh holds them.
#[derive(Debug, Clone)]
pub struct EncodePlan {
    /// One entry per attribute of the mesh, in the same order.
    pub attributes: Vec<NativeAttribute>,
    pub num_vertices: u32,
    pub num_faces: u32,
    /// The grid spacing, or zero when positions are quantized by a bit count.
    pub position_spacing: Binary32,
    pub speed: i32,
}

/// The bit count handed to the native side for positions: the count itself,
/// or 0 on a grid, where Draco picks it.
pub open spec fn position_bits(q: Quantization) -> i32 {
    match q {
        Quantization::Bits { bits } => bits,
        Quantization::Grid { .. } => 0,
    }
}

/// The grid spacing handed to the native side: zero for a bit count.
pub open spec fn position_spacing(q: Quantization) -> Binary32 {
    match q {
        Quantization::Grid { spacing } => spacing,
        Quantization::Bits { .. } => Binary32 { bits: 0 },
    }
}

/// How one attribute is described to the native side: positions take the
/// quantization of the settings, every other kind keeps its own bit count.
pub open spec fn native_attribute<'a>(a: Attribute<'a>, q: Quantization) -> NativeAttribute {
    NativeAttribute {
        kind: kind_code(a.kind),
        num_components: a.components as i32,
        quantization_bits: if a.kind == AttributeType::Position {
            position_bits(q)
        } else {
            a.quantization_bits
        },
    }
}

/// The vertex, triangle and attribute counts fit the native interface's
/// 32-bit counters.
pub open spec fn counts_fit<'a>(mesh: MeshView<'a>) -> bool {
    &&& mesh.num_vertices <= u32::MAX
    &&& mesh.indices@.len() / 3 <= u32::MAX
    &&& mesh.attributes@.len() <= u32::MAX
}

/// The position attribute of a mesh that has exactly one.
pub open spec fn position_attribute<'a>(atts: Seq<Attribute<'a>>) -> Attribute<'a> {
    atts[first_failing(atts, |a: Attribute<'a>| a.kind != AttributeType::Position)]
}

/// Why `encode` refuses a mesh before any native work, if it does. The
/// checks run in this order and the first that fails is reported.
pub open spec fn encode_refusal<'a>(mesh: MeshView<'a>, opts: EncodeOptions) -> Option<Seq<char>> {
    let atts = mesh.attributes@;
    let indices = mesh.indices@;
    let nv = mesh.num_vertices as nat;
    let shape = |a: Attribute<'a>| shape_ok(a, nv);
    let in_range = |i: u32| (i as nat) < nv;
    let finite = |a: Attribute<'a>| values_ok(a);
    if indices.len() % 3 != 0 {
        Some("indices is not a multiple of 3"@)
    } else if nv == 0 || indices.len() == 0 {
        Some("mesh has no vertices or no triangles"@)
    } else if position_count(atts) != 1 {
        Some("a mesh needs exactly one position attribute"@)
    } else if any_fails(atts, shape) {
        Some(shape_message(atts[first_failing(atts, shape)], nv))
    } else if any_fails(indices, in_range) {
        Some(index_message(indices[first_failing(indices, in_range)], nv))
    } else if any_fails(atts, finite) {
        Some(values_message(atts[first_failing(atts, finite)]))
    } else if !counts_fit(mesh) {
        Some("the mesh has more vertices, triangles or attributes than the native interface counts"@)
    } else {
        match opts.position {
            Quantization::Grid { spacing } => if spacing_refusal(spacing, false) is Some {
                spacing_refusal(spacing, false)
            } else {
                let p = position_attribute(atts);
                grid_domain_refusal(p.data@, p.components as nat, nv, spacing)
            },
            Quantization::Bits { bits } => if bits <= 0 {
                Some("a bit count must be positive"@)
            } else {
                None
            },
        }
    }
}

/// `plan` describes `mesh` under `opts` to the native encoder.
pub open spec fn plans<'a>(mesh: MeshView<'a>, opts: EncodeOptions, plan: EncodePlan) -> bool {
    &&& plan.attributes@.len() == mesh.attributes@.len()
    &&& forall|i: int|
        0 <= i < mesh.attributes@.len() ==> #[trigger] plan.attributes@[i] == native_attribute(
            mesh.attributes@[i],
            opts.position,
        )
    &&& plan.num_vertices == mesh.num_vertices
    &&& plan.num_faces == mesh.indices@.len() / 3
    &&& plan.position_spacing == position_spacing(opts.position)
    &&& plan.speed == opts.speed
}

/// Checks a mesh and settings for the native encoder, and describes them to
/// it. Every refusal is an argument error (code 1) and happens before any
/// native work.
pub fn prepare_encode<'a>(mesh: MeshView<'a>, opts: &EncodeOptions) -> (r: Result<EncodePlan, DracoError>)
    ensures
        r is Ok <==> encode_refusal(mesh, *opts) is None,
        r matches Ok(plan) ==> plans(mesh, *opts, plan),
        r matches Err(e) ==> argument_error(e, encode_refusal(mesh, *opts)->Some_0),
        r matches Ok(plan) ==> forall|i: int|
            0 <= i < mesh.attributes@.len() ==> {
                let a = #[trigger] mesh.attributes@[i];
                let n = plan.attributes@[i];
                &&& n.kind == kind_code(a.kind)
                &&& n.num_components == a.components as i32
                &&& a.kind != AttributeType::Position ==> n.quantization_bits == a.quantization_bits
                &&& a.kind == AttributeType::Position ==> n.quantization_bits == match opts.position {
                    Quantization::Bits { bits } => bits,
                    Quantization::Grid { .. } => 0i32,
                }
            },
        well_formed_mesh(mesh) ==> match opts.position {
            Quantization::Bits { bits } => (r is Ok <==> bits > 0),
            Quantization::Grid { spacing } => is_normal_power_of_two_bits(spacing.bits) ==> (r is Ok
                <==> grid_domain_refusal(
                position_attribute(mesh.attributes@).data@,
                position_attribute(mesh.attributes@).components as nat,
                mesh.num_vertices as nat,
                spacing,
            ) is None),
        },
{
    proof {
        if well_formed_mesh(mesh) {
            lemma_well_formed_mesh_is_accepted(mesh, *opts);
        }
        lemma_plan_quantization(mesh, *opts);
    }
    let num_vertices = mesh.num_vertices;
    let ghost nv = num_vertices as nat;
    let ghost atts = mesh.attributes@;
    if mesh.indices.len() % 3 != 0 {
        return Err(argument("indices is not a multiple of 3"));
    }
    if num_vertices == 0 || mesh.indices.len() == 0 {
        return Err(argument("mesh has no vertices or no triangles"));
    }
    if count_positions(mesh.attributes) != 1 {
        return Err(argument("a mesh needs exactly one position attribute"));
    }
    check_shapes(mesh.attributes, num_vertices)?;
    check_indices(mesh.indices, num_vertices)?;
    check_values(mesh.attributes)?;
    if num_vertices > 0xffff_ffff || mesh.indices.len() / 3 > 0xffff_ffff || mesh.attributes.len()
        > 0xffff_ffff {
        return Err(
            argument(
                "the mesh has more vertices, triangles or attributes than the native interface counts",
            ),
        );
    }
    let position_bits: i32;
    let spacing: Binary32;
    match opts.position {
        Quantization::Grid { spacing: s } => {
            check_spacing(s, false)?;
            let p = find_position(mesh.attributes);
            let pos = mesh.attributes[p];
            proof {
                lemma_first_failing(atts, |a: Attribute<'a>| a.kind != AttributeType::Position, p as int);
                let shape = |a: Attribute<'a>| shape_ok(a, nv);
                let finite = |a: Attribute<'a>| values_ok(a);
                assert(shape(atts[p as int]));
                assert(finite(atts[p as int]));
            }
            check_grid_domain(pos.data, pos.components, num_vertices, s)?;
            position_bits = 0;
            spacing = s;
        },
        Quantization::Bits { bits } => {
            if bits <= 0 {
                return Err(argument("a bit count must be positive"));
            }
            position_bits = bits;
            spacing = Binary32 { bits: 0 };
        },
    }
    let mut attributes: Vec<NativeAttribute> = Vec::new();
    let mut i: usize = 0;
    while i < mesh.attributes.len()
        invariant
            atts == mesh.attributes@,
            i <= atts.len(),
            attributes@.len() == i,
            position_bits == crate::mesh::position_bits(opts.position),
            forall|j: int| 0 <= j < atts.len() ==> 1 <= (#[trigger] atts[j]).components <= 4,
            forall|j: int|
                0 <= j < i ==> #[trigger] attributes@[j] == native_attribute(atts[j], opts.position),
        decreases atts.len() - i,
    {
        let a = mesh.attributes[i];
        let quantization_bits = if a.kind == AttributeType::Position {
            position_bits
        } else {
            a.quantization_bits
        };
        attributes.push(
            NativeAttribute {
                kind: a.kind.code(),
                num_components: a.components as i32,
                quantization_bits,
            },
        );
        i = i + 1;
    }
    Ok(
        EncodePlan {
            attributes,
            num_vertices: num_vertices as u32,
            num_faces: (mesh.indices.len() / 3) as u32,
            position_spacing: spacing,
            speed: opts.speed,
        },
    )
}

/// `a2` is `a1`, except that a position attribute may carry another bit
/// count of its own.
pub open spec fn same_but_position_bits<'a>(a1: Attribute<'a>, a2: Attribute<'a>) -> bool {
    &&& a1.kind == a2.kind
    &&& a1.components == a2.components
    &&& a1.data@ == a2.data@
    &&& a1.explicit == a2.explicit
    &&& a1.kind != AttributeType::Position ==> a1.quantization_bits == a2.quantization_bits
}

/// Position counts depend on the kinds alone.
proof fn lemma_position_count_by_kind<'a>(s1: Seq<Attribute<'a>>, s2: Seq<Attribute<'a>>)
    requires
        s1.len() == s2.len(),
        forall|i: int| 0 <= i < s1.len() ==> (#[trigger] s1[i]).kind == s2[i].kind,
    ensures
        position_count(s1) == position_count(s2),
    decreases s1.len(),
{
    if s1.len() > 0 {
        lemma_position_count_by_kind(s1.drop_last(), s2.drop_last());
    }
}

/// On a grid the position attribute's own bit count plays no role: two
/// meshes that differ only there are refused alike and described to the
/// native encoder alike.
pub proof fn lemma_grid_ignores_position_bits<'a>(
    m1: MeshView<'a>,
    m2: MeshView<'a>,
    opts: EncodeOptions,
)
    requires
        opts.position is Grid,
        m1.indices@ == m2.indices@,
        m1.num_vertices == m2.num_vertices,
        m1.attributes@.len() == m2.attributes@.len(),
        forall|i: int|
            0 <= i < m1.attributes@.len() ==> same_but_position_bits(
                #[trigger] m1.attributes@[i],
                m2.attributes@[i],
            ),
    ensures
        encode_refusal(m1, opts) == encode_refusal(m2, opts),
        forall|plan: EncodePlan| plans(m1, opts, plan) <==> plans(m2, opts, plan),
{
    let s1 = m1.attributes@;
    let s2 = m2.attributes@;
    let nv = m1.num_vertices as nat;
    assert forall|i: int| 0 <= i < s1.len() implies (#[trigger] s1[i]).kind == s2[i].kind by {
        assert(same_but_position_bits(s1[i], s2[i]));
    }
    lemma_position_count_by_kind(s1, s2);
    let shape1 = |a: Attribute<'a>| shape_ok(a, nv);
    let finite1 = |a: Attribute<'a>| values_ok(a);
    let notpos = |a: Attribute<'a>| a.kind != AttributeType::Position;
    assert forall|i: int| 0 <= i < s1.len() implies shape1(s1[i]) == shape1(s2[i]) && finite1(s1[i])
        == finite1(s2[i]) && notpos(s1[i]) == notpos(s2[i]) && shape_message(s1[i], nv)
        == shape_message(s2[i], nv) && values_message(s1[i]) == values_message(s2[i])
        && native_attribute(s1[i], opts.position) == native_attribute(
        s2[i],
        opts.position,
    ) by {
        assert(same_but_position_bits(s1[i], s2[i]));
    }
    lemma_first_failing_agree(s1, shape1, s2, shape1);
    lemma_first_failing_agree(s1, finite1, s2, finite1);
    lemma_first_failing_agree(s1, notpos, s2, notpos);
    if any_fails(s1, notpos) {
        let j = first_failing(s1, notpos);
        lemma_first_exists_at(s1, notpos);
        assert(same_but_position_bits(s1[j], s2[j]));
        assert(position_attribute(s1).data@ == position_attribute(s2).data@);
        assert(position_attribute(s1).components == position_attribute(s2).components);
    }
    if any_fails(s1, shape1) {
        let j = first_failing(s1, shape1);
        lemma_first_exists_at(s1, shape1);
        assert(shape_message(s1[j], nv) == shape_message(s2[j], nv));
    }
    if any_fails(s1, finite1) {
        let j = first_failing(s1, finite1);
        lemma_first_exists_at(s1, finite1);
        assert(values_message(s1[j]) == values_message(s2[j]));
    }
    assert(counts_fit(m1) == counts_fit(m2));
    if !any_fails(s1, notpos) {
        assert forall|i: int| 0 <= i < s1.len() implies (#[trigger] s1[i]).kind
            != AttributeType::Position by {
            assert(notpos(s1[i]));
        }
        lemma_no_position_count_zero(s1);
    }
    assert forall|plan: EncodePlan| plans(m1, opts, plan) <==> plans(m2, opts, plan) by {
        if plans(m1, opts, plan) {
            assert forall|i: int| 0 <= i < s2.len() implies #[trigger] plan.attributes@[i]
                == native_attribute(s2[i], opts.position) by {
                assert(plan.attributes@[i] == native_attribute(s1[i], opts.position));
            }
        }
        if plans(m2, opts, plan) {
            assert forall|i: int| 0 <= i < s1.len() implies #[trigger] plan.attributes@[i]
                == native_attribute(s1[i], opts.position) by {
                assert(plan.attributes@[i] == native_attribute(s2[i], opts.position));
            }
        }
    }
}

/// The first failing position of a sequence that has one lies inside it.
proof fn lemma_first_exists_at<T>(s: Seq<T>, ok: spec_fn(T) -> bool)
    requires
        any_fails(s, ok),
    ensures
        0 <= first_failing(s, ok) < s.len(),
{
    let i = choose|i: int| 0 <= i < s.len() && !ok(#[trigger] s[i]);
    crate::search::lemma_first_exists(s, ok, i);
}

/// A sequence without a position attribute counts none.
proof fn lemma_no_position_count_zero<'a>(s: Seq<Attribute<'a>>)
    requires
        forall|i: int| 0 <= i < s.len() ==> (#[trigger] s[i]).kind != AttributeType::Position,
    ensures
        position_count(s) == 0,
    decreases s.len(),
{
    if s.len() > 0 {
        lemma_no_position_count_zero(s.drop_last());
    }
}

/// How a native kind code reads: each of 0 to 3 names its own kind, and every
/// other code, 4 included, reads as generic.
pub proof fn lemma_code_reading(code: i32)
    ensures
        (kind_of_code(code) == AttributeType::Position) <==> code == 0,
        (kind_of_code(code) == AttributeType::Normal) <==> code == 1,
        (kind_of_code(code) == AttributeType::Color) <==> code == 2,
        (kind_of_code(code) == AttributeType::TexCoord) <==> code == 3,
        (kind_of_code(code) == AttributeType::Generic) <==> (code < 0 || code >= 4),
{
}

/// Exactly one attribute, the one at `p`, is a position.
pub open spec fn only_position_at<'a>(atts: Seq<Attribute<'a>>, p: int) -> bool {
    &&& 0 <= p < atts.len()
    &&& atts[p].kind == AttributeType::Position
    &&& forall|j: int| 0 <= j < atts.len() && j != p ==> (#[trigger] atts[j]).kind
        != AttributeType::Position
}

/// A mesh every check before the quantization settings accepts, stated
/// directly: whole triangles, at least one vertex and one triangle, exactly
/// one position attribute, 1 to 4 components and one value per component per
/// vertex on every attribute, every index naming a vertex, finite values, a
/// well-formed explicit origin and range where given, and counts that fit
/// the native 32-bit counters.
pub open spec fn well_formed_mesh<'a>(mesh: MeshView<'a>) -> bool {
    let atts = mesh.attributes@;
    let nv = mesh.num_vertices as int;
    &&& mesh.indices@.len() % 3 == 0
    &&& nv > 0
    &&& mesh.indices@.len() > 0
    &&& exists|p: int| only_position_at(atts, p)
    &&& forall|i: int|
        0 <= i < atts.len() ==> {
            let a = #[trigger] atts[i];
            &&& 1 <= a.components <= 4
            &&& a.data@.len() == nv * a.components
            &&& forall|k: int| 0 <= k < a.data@.len() ==> (#[trigger] a.data@[k]).is_finite()
            &&& a.explicit matches Some((origin, range)) ==> {
                &&& origin@.len() == a.components
                &&& forall|k: int| 0 <= k < origin@.len() ==> (#[trigger] origin@[k]).is_finite()
                &&& range.is_finite()
                &&& range.value() > 0
            }
        }
    &&& forall|k: int| 0 <= k < mesh.indices@.len() ==> (#[trigger] mesh.indices@[k]) < nv
    &&& mesh.num_vertices <= u32::MAX
    &&& mesh.indices@.len() / 3 <= u32::MAX
    &&& atts.len() <= u32::MAX
}

/// One position attribute means a position count of one.
proof fn lemma_single_position_count<'a>(atts: Seq<Attribute<'a>>, p: int)
    requires
        only_position_at(atts, p),
    ensures
        position_count(atts) == 1,
    decreases atts.len(),
{
    let prefix = atts.drop_last();
    if p == atts.len() - 1 {
        assert forall|i: int| 0 <= i < prefix.len() implies (#[trigger] prefix[i]).kind
            != AttributeType::Position by {
            assert(prefix[i] == atts[i]);
        }
        lemma_no_position_count_zero(prefix);
    } else {
        assert(only_position_at(prefix, p)) by {
            assert forall|j: int| 0 <= j < prefix.len() && j != p implies (#[trigger] prefix[j]).kind
                != AttributeType::Position by {
                assert(prefix[j] == atts[j]);
            }
        }
        lemma_single_position_count(prefix, p);
        assert(atts.last().kind != AttributeType::Position);
    }
}

/// A well-formed mesh passes every check before the quantization settings:
/// it is refused by a bit count only when the count is not positive, and on a
/// normal power-of-two grid only for the grid's own domain.
pub proof fn lemma_well_formed_mesh_is_accepted<'a>(mesh: MeshView<'a>, opts: EncodeOptions)
    requires
        well_formed_mesh(mesh),
    ensures
        match opts.position {
            Quantization::Bits { bits } => (encode_refusal(mesh, opts) is None <==> bits > 0),
            Quantization::Grid { spacing } => is_normal_power_of_two_bits(spacing.bits) ==> (
            encode_refusal(mesh, opts) == grid_domain_refusal(
                position_attribute(mesh.attributes@).data@,
                position_attribute(mesh.attributes@).components as nat,
                mesh.num_vertices as nat,
                spacing,
            )),
        },
{
    let atts = mesh.attributes@;
    let nv = mesh.num_vertices as nat;
    let p = choose|p: int| only_position_at(atts, p);
    lemma_single_position_count(atts, p);
    let shape = |a: Attribute<'a>| shape_ok(a, nv);
    let in_range = |i: u32| (i as nat) < nv;
    let finite = |a: Attribute<'a>| values_ok(a);
    assert(!any_fails(atts, shape)) by {
        assert forall|i: int| 0 <= i < atts.len() implies shape(#[trigger] atts[i]) by {
            let a = atts[i];
            assert(1 <= a.components <= 4);
        }
    }
    assert(!any_fails(mesh.indices@, in_range)) by {
        assert forall|k: int| 0 <= k < mesh.indices@.len() implies in_range(
            #[trigger] mesh.indices@[k],
        ) by {
            assert(mesh.indices@[k] < mesh.num_vertices);
        }
    }
    assert(!any_fails(atts, finite)) by {
        assert forall|i: int| 0 <= i < atts.len() implies finite(#[trigger] atts[i]) by {
            let a = atts[i];
            assert(1 <= a.components <= 4);
        }
    }
}

/// The plan hands every attribute its own kind and component count; an
/// attribute other than the position keeps its own bit count under any
/// settings, and the position takes the settings' bit count, or 0 on a grid.
pub proof fn lemma_plan_quantization<'a>(mesh: MeshView<'a>, opts: EncodeOptions)
    ensures
        forall|plan: EncodePlan|
            #[trigger] plans(mesh, opts, plan) ==> forall|i: int|
                0 <= i < mesh.attributes@.len() ==> {
                    let a = #[trigger] mesh.attributes@[i];
                    let n = plan.attributes@[i];
                    &&& n.kind == kind_code(a.kind)
                    &&& n.num_components == a.components as i32
                    &&& a.kind != AttributeType::Position ==> n.quantization_bits
                        == a.quantization_bits
                    &&& a.kind == AttributeType::Position ==> n.quantization_bits
                        == match opts.position {
                        Quantization::Bits { bits } => bits,
                        Quantization::Grid { .. } => 0i32,
                    }
                },
{
    assert forall|plan: EncodePlan| #[trigger] plans(mesh, opts, plan) implies forall|i: int|
        0 <= i < mesh.attributes@.len() ==> {
            let a = #[trigger] mesh.attributes@[i];
            let n = plan.attributes@[i];
            &&& n.kind == kind_code(a.kind)
            &&& n.num_components == a.components as i32
            &&& a.kind != AttributeType::Position ==> n.quantization_bits == a.quantization_bits
            &&& a.kind == AttributeType::Position ==> n.quantization_bits == match opts.position {
                Quantization::Bits { bits } => bits,
                Quantization::Grid { .. } => 0i32,
            }
        } by {
        assert forall|i: int| 0 <= i < mesh.attributes@.len() implies {
            let a = #[trigger] mesh.attributes@[i];
            let n = plan.attributes@[i];
            &&& n.kind == kind_code(a.kind)
            &&& n.num_components == a.components as i32
            &&& a.kind != AttributeType::Position ==> n.quantization_bits == a.quantization_bits
            &&& a.kind == AttributeType::Position ==> n.quantization_bits == match opts.position {
                Quantization::Bits { bits } => bits,
                Quantization::Grid { .. } => 0i32,
            }
        } by {
            assert(plan.attributes@[i] == native_attribute(mesh.attributes@[i], opts.position));
        }
    }
}

} // verus!
