//! Evaluation of constraint programs on a compute device.
//!
//! [`payload`] encodes a program and its inputs as 32-bit words, [`kernel`] is what the
//! device computes from them, [`reduce`] turns its answer back into a field element, and
//! [`dispatch`] decides where a program runs. [`word_laws`] says what the words are, one by one.

pub mod dispatch;
pub mod kernel;
pub mod payload;
pub mod reduce;
pub mod word_laws;

pub use payload::{
    build_packed_main_payload, GpuInstruction, GpuKernelHeader, PackedMainGpuPayload, PayloadError,
    MAX_DEVICE_OPCODES, MAX_EXTENSION_DEGREE,
};
pub use reduce::reduce_gpu_output;
