//! Settings of a noise generator, and the tags that stand for them in a kernel
//! payload.

use vstd::prelude::*;

use crate::error::{ErrorView, FastNoiseError, FastNoiseResult};
use crate::text::{decimal, with_decimal};

verus! {

/// A single-precision number, by its IEEE 754 bit pattern.
#[derive(Clone, Copy, Debug, PartialEq, Eq, Structural)]
pub struct F32Bits(pub u32);

/// The bit pattern of `0.0`.
pub const ZERO_BITS: u32 = 0x0000_0000;

/// The bit pattern of `1.0`.
pub const ONE_BITS: u32 = 0x3f80_0000;

#[derive(Clone, Copy, Debug, PartialEq, Eq, Structural)]
pub enum NoiseType {
    OpenSimplex2,
    OpenSimplex2S,
    Cellular,
    Perlin,
    ValueCubic,
    Value,
}

#[derive(Clone, Copy, Debug, PartialEq, Eq, Structural)]
pub enum RotationType3D {
    NoRotation,
    ImproveXYPlanes,
    ImproveXZPlanes,
}

#[derive(Clone, Copy, Debug, PartialEq, Eq, Structural)]
pub enum FractalType {
    NoFractal,
    FBm,
    Ridged,
    PingPong,
    DomainWarpProgressive,
    DomainWarpIndependent,
}

#[derive(Clone, Copy, Debug, PartialEq, Eq, Structural)]
pub enum CellularDistanceFunction {
    Euclidean,
    EuclideanSq,
    Manhattan,
    Hybrid,
}

#[derive(Clone, Copy, Debug, PartialEq, Eq, Structural)]
pub enum CellularReturnType {
    CellValue,
    Distance,
    Distance2,
    Distance2Add,
    Distance2Sub,
    Distance2Mul,
    Distance2Div,
}

#[derive(Clone, Copy, Debug, PartialEq, Eq, Structural)]
pub enum DomainWarpType {
    OpenSimplex2,
    OpenSimplex2Reduced,
    BasicGrid,
}

/// How two scalar fields, or one field and parameters, become a new field.
#[derive(Clone, Copy, Debug, PartialEq, Eq, Structural)]
pub enum CombineOp {
    Add,
    Sub,
    Mul,
    Min,
    Max,
    Clamp,
    Remap,
    YGradient,
}

/// The settings of a noise generator.
#[derive(Clone, Copy, Debug, PartialEq, Eq, Structural)]
pub struct FastNoiseLite {
    pub seed: i32,
    pub frequency: F32Bits,
    pub noise_type: NoiseType,
    pub rotation_type_3d: RotationType3D,
    pub fractal_type: FractalType,
    pub octaves: i32,
    pub lacunarity: F32Bits,
    pub gain: F32Bits,
    pub weighted_strength: F32Bits,
    pub ping_pong_strength: F32Bits,
    pub cellular_distance_function: CellularDistanceFunction,
    pub cellular_return_type: CellularReturnType,
    pub cellular_jitter_modifier: F32Bits,
    pub domain_warp_type: DomainWarpType,
    pub domain_warp_amp: F32Bits,
}

/// The refusal of a tag that stands for nothing.
pub open spec fn unknown_tag(label: Seq<char>, tag: u32) -> ErrorView {
    ErrorView::InvalidSpec("unknown "@ + label + " "@ + decimal(tag as nat))
}

fn refuse_tag(label: &str, tag: u32) -> (error: FastNoiseError)
    ensures
        error@ == unknown_tag(label@, tag),
{
    let mut text = "unknown ".to_owned();
    text.append(label);
    text.append(" ");
    FastNoiseError::InvalidSpec(with_decimal(text.as_str(), tag as u64))
}

/// The tag of a noise type.
pub open spec fn noise_type_tag(value: NoiseType) -> u32 {
    match value {
        NoiseType::OpenSimplex2 => 0,
        NoiseType::OpenSimplex2S => 1,
        NoiseType::Cellular => 2,
        NoiseType::Perlin => 3,
        NoiseType::ValueCubic => 4,
        NoiseType::Value => 5,
    }
}

/// The noise type that a tag stands for.
pub open spec fn noise_type_of(tag: u32) -> Option<NoiseType> {
    if tag == 0 {
        Some(NoiseType::OpenSimplex2)
    } else if tag == 1 {
        Some(NoiseType::OpenSimplex2S)
    } else if tag == 2 {
        Some(NoiseType::Cellular)
    } else if tag == 3 {
        Some(NoiseType::Perlin)
    } else if tag == 4 {
        Some(NoiseType::ValueCubic)
    } else if tag == 5 {
        Some(NoiseType::Value)
    } else {
        None
    }
}

pub fn encode_noise_type(value: NoiseType) -> (tag: u32)
    ensures
        tag == noise_type_tag(value),
{
    match value {
        NoiseType::OpenSimplex2 => 0,
        NoiseType::OpenSimplex2S => 1,
        NoiseType::Cellular => 2,
        NoiseType::Perlin => 3,
        NoiseType::ValueCubic => 4,
        NoiseType::Value => 5,
    }
}

pub fn decode_noise_type(tag: u32) -> (value: FastNoiseResult<NoiseType>)
    ensures
        match noise_type_of(tag) {
            Some(known) => value == Ok::<NoiseType, FastNoiseError>(known),
            None => value is Err && value->Err_0@ == unknown_tag("noise type tag"@, tag),
        },
{
    if tag == 0 {
        Ok(NoiseType::OpenSimplex2)
    } else if tag == 1 {
        Ok(NoiseType::OpenSimplex2S)
    } else if tag == 2 {
        Ok(NoiseType::Cellular)
    } else if tag == 3 {
        Ok(NoiseType::Perlin)
    } else if tag == 4 {
        Ok(NoiseType::ValueCubic)
    } else if tag == 5 {
        Ok(NoiseType::Value)
    } else {
        Err(refuse_tag("noise type tag", tag))
    }
}

/// The tag of a rotation type.
pub open spec fn rotation_type_tag(value: RotationType3D) -> u32 {
    match value {
        RotationType3D::NoRotation => 0,
        RotationType3D::ImproveXYPlanes => 1,
        RotationType3D::ImproveXZPlanes => 2,
    }
}

/// The rotation type that a tag stands for.
pub open spec fn rotation_type_of(tag: u32) -> Option<RotationType3D> {
    if tag == 0 {
        Some(RotationType3D::NoRotation)
    } else if tag == 1 {
        Some(RotationType3D::ImproveXYPlanes)
    } else if tag == 2 {
        Some(RotationType3D::ImproveXZPlanes)
    } else {
        None
    }
}

pub fn encode_rotation_type(value: RotationType3D) -> (tag: u32)
    ensures
        tag == rotation_type_tag(value),
{
    match value {
        RotationType3D::NoRotation => 0,
        RotationType3D::ImproveXYPlanes => 1,
        RotationType3D::ImproveXZPlanes => 2,
    }
}

pub fn decode_rotation_type(tag: u32) -> (value: FastNoiseResult<RotationType3D>)
    ensures
        match rotation_type_of(tag) {
            Some(known) => value == Ok::<RotationType3D, FastNoiseError>(known),
            None => value is Err && value->Err_0@ == unknown_tag("rotation type tag"@, tag),
        },
{
    if tag == 0 {
        Ok(RotationType3D::NoRotation)
    } else if tag == 1 {
        Ok(RotationType3D::ImproveXYPlanes)
    } else if tag == 2 {
        Ok(RotationType3D::ImproveXZPlanes)
    } else {
        Err(refuse_tag("rotation type tag", tag))
    }
}

/// The tag of a fractal type.
pub open spec fn fractal_type_tag(value: FractalType) -> u32 {
    match value {
        FractalType::NoFractal => 0,
        FractalType::FBm => 1,
        FractalType::Ridged => 2,
        FractalType::PingPong => 3,
        FractalType::DomainWarpProgressive => 4,
        FractalType::DomainWarpIndependent => 5,
    }
}

/// The fractal type that a tag stands for.
pub open spec fn fractal_type_of(tag: u32) -> Option<FractalType> {
    if tag == 0 {
        Some(FractalType::NoFractal)
    } else if tag == 1 {
        Some(FractalType::FBm)
    } else if tag == 2 {
        Some(FractalType::Ridged)
    } else if tag == 3 {
        Some(FractalType::PingPong)
    } else if tag == 4 {
        Some(FractalType::DomainWarpProgressive)
    } else if tag == 5 {
        Some(FractalType::DomainWarpIndependent)
    } else {
        None
    }
}

pub fn encode_fractal_type(value: FractalType) -> (tag: u32)
    ensures
        tag == fractal_type_tag(value),
{
    match value {
        FractalType::NoFractal => 0,
        FractalType::FBm => 1,
        FractalType::Ridged => 2,
        FractalType::PingPong => 3,
        FractalType::DomainWarpProgressive => 4,
        FractalType::DomainWarpIndependent => 5,
    }
}

pub fn decode_fractal_type(tag: u32) -> (value: FastNoiseResult<FractalType>)
    ensures
        match fractal_type_of(tag) {
            Some(known) => value == Ok::<FractalType, FastNoiseError>(known),
            None => value is Err && value->Err_0@ == unknown_tag("fractal type tag"@, tag),
        },
{
    if tag == 0 {
        Ok(FractalType::NoFractal)
    } else if tag == 1 {
        Ok(FractalType::FBm)
    } else if tag == 2 {
        Ok(FractalType::Ridged)
    } else if tag == 3 {
        Ok(FractalType::PingPong)
    } else if tag == 4 {
        Ok(FractalType::DomainWarpProgressive)
    } else if tag == 5 {
        Ok(FractalType::DomainWarpIndependent)
    } else {
        Err(refuse_tag("fractal type tag", tag))
    }
}

/// The tag of a cellular distance.
pub open spec fn cellular_distance_function_tag(value: CellularDistanceFunction) -> u32 {
    match value {
        CellularDistanceFunction::Euclidean => 0,
        CellularDistanceFunction::EuclideanSq => 1,
        CellularDistanceFunction::Manhattan => 2,
        CellularDistanceFunction::Hybrid => 3,
    }
}

/// The cellular distance that a tag stands for.
pub open spec fn cellular_distance_function_of(tag: u32) -> Option<CellularDistanceFunction> {
    if tag == 0 {
        Some(CellularDistanceFunction::Euclidean)
    } else if tag == 1 {
        Some(CellularDistanceFunction::EuclideanSq)
    } else if tag == 2 {
        Some(CellularDistanceFunction::Manhattan)
    } else if tag == 3 {
        Some(CellularDistanceFunction::Hybrid)
    } else {
        None
    }
}

pub fn encode_cellular_distance_function(value: CellularDistanceFunction) -> (tag: u32)
    ensures
        tag == cellular_distance_function_tag(value),
{
    match value {
        CellularDistanceFunction::Euclidean => 0,
        CellularDistanceFunction::EuclideanSq => 1,
        CellularDistanceFunction::Manhattan => 2,
        CellularDistanceFunction::Hybrid => 3,
    }
}

pub fn decode_cellular_distance_function(tag: u32) -> (value: FastNoiseResult<CellularDistanceFunction>)
    ensures
        match cellular_distance_function_of(tag) {
            Some(known) => value == Ok::<CellularDistanceFunction, FastNoiseError>(known),
            None => value is Err && value->Err_0@ == unknown_tag("cellular distance tag"@, tag),
        },
{
    if tag == 0 {
        Ok(CellularDistanceFunction::Euclidean)
    } else if tag == 1 {
        Ok(CellularDistanceFunction::EuclideanSq)
    } else if tag == 2 {
        Ok(CellularDistanceFunction::Manhattan)
    } else if tag == 3 {
        Ok(CellularDistanceFunction::Hybrid)
    } else {
        Err(refuse_tag("cellular distance tag", tag))
    }
}

/// The tag of a cellular return.
pub open spec fn cellular_return_type_tag(value: CellularReturnType) -> u32 {
    match value {
        CellularReturnType::CellValue => 0,
        CellularReturnType::Distance => 1,
        CellularReturnType::Distance2 => 2,
        CellularReturnType::Distance2Add => 3,
        CellularReturnType::Distance2Sub => 4,
        CellularReturnType::Distance2Mul => 5,
        CellularReturnType::Distance2Div => 6,
    }
}

/// The cellular return that a tag stands for.
pub open spec fn cellular_return_type_of(tag: u32) -> Option<CellularReturnType> {
    if tag == 0 {
        Some(CellularReturnType::CellValue)
    } else if tag == 1 {
        Some(CellularReturnType::Distance)
    } else if tag == 2 {
        Some(CellularReturnType::Distance2)
    } else if tag == 3 {
        Some(CellularReturnType::Distance2Add)
    } else if tag == 4 {
        Some(CellularReturnType::Distance2Sub)
    } else if tag == 5 {
        Some(CellularReturnType::Distance2Mul)
    } else if tag == 6 {
        Some(CellularReturnType::Distance2Div)
    } else {
        None
    }
}

pub fn encode_cellular_return_type(value: CellularReturnType) -> (tag: u32)
    ensures
        tag == cellular_return_type_tag(value),
{
    match value {
        CellularReturnType::CellValue => 0,
        CellularReturnType::Distance => 1,
        CellularReturnType::Distance2 => 2,
        CellularReturnType::Distance2Add => 3,
        CellularReturnType::Distance2Sub => 4,
        CellularReturnType::Distance2Mul => 5,
        CellularReturnType::Distance2Div => 6,
    }
}

pub fn decode_cellular_return_type(tag: u32) -> (value: FastNoiseResult<CellularReturnType>)
    ensures
        match cellular_return_type_of(tag) {
            Some(known) => value == Ok::<CellularReturnType, FastNoiseError>(known),
            None => value is Err && value->Err_0@ == unknown_tag("cellular return tag"@, tag),
        },
{
    if tag == 0 {
        Ok(CellularReturnType::CellValue)
    } else if tag == 1 {
        Ok(CellularReturnType::Distance)
    } else if tag == 2 {
        Ok(CellularReturnType::Distance2)
    } else if tag == 3 {
        Ok(CellularReturnType::Distance2Add)
    } else if tag == 4 {
        Ok(CellularReturnType::Distance2Sub)
    } else if tag == 5 {
        Ok(CellularReturnType::Distance2Mul)
    } else if tag == 6 {
        Ok(CellularReturnType::Distance2Div)
    } else {
        Err(refuse_tag("cellular return tag", tag))
    }
}

/// The tag of a domain warp.
pub open spec fn domain_warp_type_tag(value: DomainWarpType) -> u32 {
    match value {
        DomainWarpType::OpenSimplex2 => 0,
        DomainWarpType::OpenSimplex2Reduced => 1,
        DomainWarpType::BasicGrid => 2,
    }
}

/// The domain warp that a tag stands for.
pub open spec fn domain_warp_type_of(tag: u32) -> Option<DomainWarpType> {
    if tag == 0 {
        Some(DomainWarpType::OpenSimplex2)
    } else if tag == 1 {
        Some(DomainWarpType::OpenSimplex2Reduced)
    } else if tag == 2 {
        Some(DomainWarpType::BasicGrid)
    } else {
        None
    }
}

pub fn encode_domain_warp_type(value: DomainWarpType) -> (tag: u32)
    ensures
        tag == domain_warp_type_tag(value),
{
    match value {
        DomainWarpType::OpenSimplex2 => 0,
        DomainWarpType::OpenSimplex2Reduced => 1,
        DomainWarpType::BasicGrid => 2,
    }
}

pub fn decode_domain_warp_type(tag: u32) -> (value: FastNoiseResult<DomainWarpType>)
    ensures
        match domain_warp_type_of(tag) {
            Some(known) => value == Ok::<DomainWarpType, FastNoiseError>(known),
            None => value is Err && value->Err_0@ == unknown_tag("domain warp tag"@, tag),
        },
{
    if tag == 0 {
        Ok(DomainWarpType::OpenSimplex2)
    } else if tag == 1 {
        Ok(DomainWarpType::OpenSimplex2Reduced)
    } else if tag == 2 {
        Ok(DomainWarpType::BasicGrid)
    } else {
        Err(refuse_tag("domain warp tag", tag))
    }
}

/// The tag of a combine op.
pub open spec fn combine_op_tag(value: CombineOp) -> u32 {
    match value {
        CombineOp::Add => 0,
        CombineOp::Sub => 1,
        CombineOp::Mul => 2,
        CombineOp::Min => 3,
        CombineOp::Max => 4,
        CombineOp::Clamp => 5,
        CombineOp::Remap => 6,
        CombineOp::YGradient => 7,
    }
}

/// The combine op that a tag stands for.
pub open spec fn combine_op_of(tag: u32) -> Option<CombineOp> {
    if tag == 0 {
        Some(CombineOp::Add)
    } else if tag == 1 {
        Some(CombineOp::Sub)
    } else if tag == 2 {
        Some(CombineOp::Mul)
    } else if tag == 3 {
        Some(CombineOp::Min)
    } else if tag == 4 {
        Some(CombineOp::Max)
    } else if tag == 5 {
        Some(CombineOp::Clamp)
    } else if tag == 6 {
        Some(CombineOp::Remap)
    } else if tag == 7 {
        Some(CombineOp::YGradient)
    } else {
        None
    }
}

pub fn encode_combine_op(value: CombineOp) -> (tag: u32)
    ensures
        tag == combine_op_tag(value),
{
    match value {
        CombineOp::Add => 0,
        CombineOp::Sub => 1,
        CombineOp::Mul => 2,
        CombineOp::Min => 3,
        CombineOp::Max => 4,
        CombineOp::Clamp => 5,
        CombineOp::Remap => 6,
        CombineOp::YGradient => 7,
    }
}

pub fn decode_combine_op(tag: u32) -> (value: FastNoiseResult<CombineOp>)
    ensures
        match combine_op_of(tag) {
            Some(known) => value == Ok::<CombineOp, FastNoiseError>(known),
            None => value is Err && value->Err_0@ == unknown_tag("combine op tag"@, tag),
        },
{
    if tag == 0 {
        Ok(CombineOp::Add)
    } else if tag == 1 {
        Ok(CombineOp::Sub)
    } else if tag == 2 {
        Ok(CombineOp::Mul)
    } else if tag == 3 {
        Ok(CombineOp::Min)
    } else if tag == 4 {
        Ok(CombineOp::Max)
    } else if tag == 5 {
        Ok(CombineOp::Clamp)
    } else if tag == 6 {
        Ok(CombineOp::Remap)
    } else if tag == 7 {
        Ok(CombineOp::YGradient)
    } else {
        Err(refuse_tag("combine op tag", tag))
    }
}

/// A tag and the value that it stands for determine each other.
pub proof fn law_tags_are_faithful()
    ensures
        forall|value: NoiseType| #[trigger] noise_type_of(noise_type_tag(value)) == Some(value),
        forall|tag: u32|
            (#[trigger] noise_type_of(tag)) matches Some(value) ==> noise_type_tag(value) == tag,
        forall|value: RotationType3D| #[trigger] rotation_type_of(rotation_type_tag(value)) == Some(value),
        forall|tag: u32|
            (#[trigger] rotation_type_of(tag)) matches Some(value) ==> rotation_type_tag(value) == tag,
        forall|value: FractalType| #[trigger] fractal_type_of(fractal_type_tag(value)) == Some(value),
        forall|tag: u32|
            (#[trigger] fractal_type_of(tag)) matches Some(value) ==> fractal_type_tag(value) == tag,
        forall|value: CellularDistanceFunction| #[trigger] cellular_distance_function_of(cellular_distance_function_tag(value)) == Some(value),
        forall|tag: u32|
            (#[trigger] cellular_distance_function_of(tag)) matches Some(value) ==> cellular_distance_function_tag(value) == tag,
        forall|value: CellularReturnType| #[trigger] cellular_return_type_of(cellular_return_type_tag(value)) == Some(value),
        forall|tag: u32|
            (#[trigger] cellular_return_type_of(tag)) matches Some(value) ==> cellular_return_type_tag(value) == tag,
        forall|value: DomainWarpType| #[trigger] domain_warp_type_of(domain_warp_type_tag(value)) == Some(value),
        forall|tag: u32|
            (#[trigger] domain_warp_type_of(tag)) matches Some(value) ==> domain_warp_type_tag(value) == tag,
        forall|value: CombineOp| #[trigger] combine_op_of(combine_op_tag(value)) == Some(value),
        forall|tag: u32|
            (#[trigger] combine_op_of(tag)) matches Some(value) ==> combine_op_tag(value) == tag,
{
}

/// Tags number the settings in their order, from zero.
pub proof fn law_tags_are_numbered()
    ensures
        noise_type_tag(NoiseType::OpenSimplex2) == 0,
        noise_type_tag(NoiseType::OpenSimplex2S) == 1,
        noise_type_tag(NoiseType::Cellular) == 2,
        noise_type_tag(NoiseType::Perlin) == 3,
        noise_type_tag(NoiseType::ValueCubic) == 4,
        noise_type_tag(NoiseType::Value) == 5,
        rotation_type_tag(RotationType3D::NoRotation) == 0,
        rotation_type_tag(RotationType3D::ImproveXYPlanes) == 1,
        rotation_type_tag(RotationType3D::ImproveXZPlanes) == 2,
        fractal_type_tag(FractalType::NoFractal) == 0,
        fractal_type_tag(FractalType::FBm) == 1,
        fractal_type_tag(FractalType::Ridged) == 2,
        fractal_type_tag(FractalType::PingPong) == 3,
        fractal_type_tag(FractalType::DomainWarpProgressive) == 4,
        fractal_type_tag(FractalType::DomainWarpIndependent) == 5,
        cellular_distance_function_tag(CellularDistanceFunction::Euclidean) == 0,
        cellular_distance_function_tag(CellularDistanceFunction::EuclideanSq) == 1,
        cellular_distance_function_tag(CellularDistanceFunction::Manhattan) == 2,
        cellular_distance_function_tag(CellularDistanceFunction::Hybrid) == 3,
        cellular_return_type_tag(CellularReturnType::CellValue) == 0,
        cellular_return_type_tag(CellularReturnType::Distance) == 1,
        cellular_return_type_tag(CellularReturnType::Distance2) == 2,
        cellular_return_type_tag(CellularReturnType::Distance2Add) == 3,
        cellular_return_type_tag(CellularReturnType::Distance2Sub) == 4,
        cellular_return_type_tag(CellularReturnType::Distance2Mul) == 5,
        cellular_return_type_tag(CellularReturnType::Distance2Div) == 6,
        domain_warp_type_tag(DomainWarpType::OpenSimplex2) == 0,
        domain_warp_type_tag(DomainWarpType::OpenSimplex2Reduced) == 1,
        domain_warp_type_tag(DomainWarpType::BasicGrid) == 2,
        combine_op_tag(CombineOp::Add) == 0,
        combine_op_tag(CombineOp::Sub) == 1,
        combine_op_tag(CombineOp::Mul) == 2,
        combine_op_tag(CombineOp::Min) == 3,
        combine_op_tag(CombineOp::Max) == 4,
        combine_op_tag(CombineOp::Clamp) == 5,
        combine_op_tag(CombineOp::Remap) == 6,
        combine_op_tag(CombineOp::YGradient) == 7,
{
}

/// A tag stands for a setting if and only if it is one of the numbers given out.
pub proof fn law_tags_are_bounded(tag: u32)
    ensures
        noise_type_of(tag) is Some <==> tag <= 5,
        rotation_type_of(tag) is Some <==> tag <= 2,
        fractal_type_of(tag) is Some <==> tag <= 5,
        cellular_distance_function_of(tag) is Some <==> tag <= 3,
        cellular_return_type_of(tag) is Some <==> tag <= 6,
        domain_warp_type_of(tag) is Some <==> tag <= 2,
        combine_op_of(tag) is Some <==> tag <= 7,
{
}

/// What is told of an unknown tag is what it was to stand for, and the tag.
pub proof fn law_unknown_tags_are_told(label: Seq<char>, tag: u32)
    ensures
        unknown_tag(label, tag) == ErrorView::InvalidSpec(
            "unknown "@ + label + " "@ + decimal(tag as nat),
        ),
{
}

} // verus!
