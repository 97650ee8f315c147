//! Code generation support for an eBPF interpreter: a fixed-capacity
//! assembling buffer, the x86-64 instruction selection for every eBPF
//! opcode, the step-table layout of the threaded interpreter, and the
//! token-threading compiler that stitches instruction templates together.

pub mod codegen;
pub mod ebpf;
pub mod rng;
pub mod token_threading;
