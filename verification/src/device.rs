//! On which device the decoder runs.

use crate::term::DType;
use vstd::prelude::*;

verus! {

/// A device.
#[derive(Clone, Copy, PartialEq, Eq, Structural, Debug)]
pub enum Device {
    Cpu,
    /// A CUDA device, by its ordinal.
    Cuda(usize),
}

/// The line shown where the decoder falls back to the CPU.
pub open spec fn fallback_notice() -> Seq<char> {
    "Running on CPU; build with the cuda feature to use the GPU."@
}

/// Chooses a device: the CPU where it is asked for, else the first CUDA device
/// where there is one, else the CPU with a notice.
pub fn device(cpu: bool, cuda_is_available: bool) -> (r: (Device, Option<&'static str>))
    ensures
        r.0 == if !cpu && cuda_is_available {
            Device::Cuda(0)
        } else {
            Device::Cpu
        },
        (r.1 is Some) == (!cpu && !cuda_is_available),
        r.1 matches Some(line) ==> line@
            == "Running on CPU; build with the cuda feature to use the GPU."@,
        r.1 matches Some(line) ==> line@ == fallback_notice(),
{
    if cpu {
        (Device::Cpu, None)
    } else if cuda_is_available {
        (Device::Cuda(0), None)
    } else {
        (Device::Cpu, Some("Running on CPU; build with the cuda feature to use the GPU."))
    }
}

/// The element type of the weights on a device.
pub fn weights_dtype(device: Device) -> (r: DType)
    ensures
        r == match device {
            Device::Cuda(_) => DType::BF16,
            Device::Cpu => DType::F32,
        },
{
    match device {
        Device::Cuda(_) => DType::BF16,
        Device::Cpu => DType::F32,
    }
}

} // verus!
