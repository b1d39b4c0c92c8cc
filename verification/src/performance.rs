//! Choices that depend on what the machine offers and on how weights are stored.

use crate::text::str_equal;
use vstd::prelude::*;

verus! {

/// The name of the best compute backend among those available: CUDA before
/// Metal before Vulkan, and the processor if none of them is.
pub open spec fn best_backend(cuda: bool, metal: bool, vulkan: bool) -> Seq<char> {
    if cuda {
        "cuda"@
    } else if metal {
        "metal"@
    } else if vulkan {
        "vulkan"@
    } else {
        "cpu"@
    }
}

/// Picks the best compute backend among those available.
pub fn get_best_backend(cuda: bool, metal: bool, vulkan: bool) -> (name: String)
    ensures
        name@ == best_backend(cuda, metal, vulkan),
{
    let name = if cuda {
        "cuda"
    } else if metal {
        "metal"
    } else if vulkan {
        "vulkan"
    } else {
        "cpu"
    };
    name.to_string()
}

/// Bytes of one weight before quantization.
pub const WEIGHT_BYTES: usize = 8;

/// The bytes that `count` weights take in the given format: four each as `f32`
/// and in any format not known, two each as `f16` or `bf16`, one each as
/// `q8_0`, and one for every two as `q4_0` or `q4_1`.
pub open spec fn quantized_bytes(count: int, format: Seq<char>) -> int {
    if format == "f32"@ {
        count * 4
    } else if format == "f16"@ || format == "bf16"@ {
        count * 2
    } else if format == "q8_0"@ {
        count
    } else if format == "q4_0"@ || format == "q4_1"@ {
        count / 2
    } else {
        count * 4
    }
}

/// The bytes that `count` weights take before quantization.
pub fn original_byte_size(count: usize) -> (bytes: usize)
    requires
        count * WEIGHT_BYTES <= usize::MAX,
    ensures
        bytes == count * WEIGHT_BYTES,
{
    count * WEIGHT_BYTES
}

/// The bytes that `count` weights take in the given format.
pub fn quantized_byte_size(count: usize, format: &str) -> (bytes: usize)
    requires
        count * WEIGHT_BYTES <= usize::MAX,
    ensures
        bytes == quantized_bytes(count as int, format@),
{
    if str_equal(format, "f32") {
        count * 4
    } else if str_equal(format, "f16") || str_equal(format, "bf16") {
        count * 2
    } else if str_equal(format, "q8_0") {
        count
    } else if str_equal(format, "q4_0") || str_equal(format, "q4_1") {
        count / 2
    } else {
        count * 4
    }
}

} // verus!
