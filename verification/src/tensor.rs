//! The tensor library's types, as the rest of the library carries them.
use vstd::prelude::*;

verus! {

/// A tensor of the `candle_core` crate, carried through unexamined.
#[verifier::external_type_specification]
#[verifier::external_body]
pub struct ExTensor(candle_core::Tensor);

/// An error of the `candle_core` crate.
#[verifier::external_type_specification]
#[verifier::external_body]
pub struct ExCandleError(candle_core::Error);

/// A compute device of the `candle_core` crate.
#[verifier::external_type_specification]
#[verifier::external_body]
pub struct ExDevice(candle_core::Device);

/// An element type of the `candle_core` crate.
#[verifier::external_type_specification]
#[verifier::external_body]
pub struct ExDType(candle_core::DType);

/// The dimensions of a tensor, outermost first. A tensor's shape is fixed
/// when it is made.
pub uninterp spec fn tensor_shape(t: candle_core::Tensor) -> Seq<usize>;

/// Calls `candle_core::Tensor::dims3`: the three dimensions of a tensor of
/// rank 3, or the crate's error (as text) for any other rank.
#[verifier::external_body]
pub(crate) fn tensor_dims3(t: &candle_core::Tensor) -> (r: Result<(usize, usize, usize), String>)
    ensures
        r is Ok <==> tensor_shape(*t).len() == 3,
        r matches Ok((a, b, c)) ==> tensor_shape(*t) == seq![a, b, c],
{
    t.dims3().map_err(|e| e.to_string())
}

/// Calls `candle_core::Tensor::rank`: the number of dimensions of a tensor.
#[verifier::external_body]
pub(crate) fn tensor_rank(t: &candle_core::Tensor) -> (r: usize)
    ensures
        r == tensor_shape(*t).len(),
{
    t.rank()
}

/// Whether a device is the host processor (what `candle_core::Device::is_cpu`
/// says of it).
pub uninterp spec fn device_is_cpu(d: candle_core::Device) -> bool;

/// The library's name for an element type of the tensor library, for the
/// types the library names.
pub uninterp spec fn dtype_name_of(d: candle_core::DType) -> crate::config::DTypeName;

/// Gives `candle_core::Device::Cpu`, the host processor.
#[verifier::external_body]
pub(crate) fn cpu_device() -> (r: candle_core::Device)
    ensures
        device_is_cpu(r),
{
    candle_core::Device::Cpu
}

/// Gives `candle_core::DType::F16`.
#[verifier::external_body]
pub(crate) fn candle_f16() -> (r: candle_core::DType)
    ensures
        dtype_name_of(r) == crate::config::DTypeName::F16,
{
    candle_core::DType::F16
}

/// Gives `candle_core::DType::F32`.
#[verifier::external_body]
pub(crate) fn candle_f32() -> (r: candle_core::DType)
    ensures
        dtype_name_of(r) == crate::config::DTypeName::F32,
{
    candle_core::DType::F32
}

/// Gives `candle_core::DType::BF16`.
#[verifier::external_body]
pub(crate) fn candle_bf16() -> (r: candle_core::DType)
    ensures
        dtype_name_of(r) == crate::config::DTypeName::Bf16,
{
    candle_core::DType::BF16
}

} // verus!
