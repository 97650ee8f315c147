//! eBPF instruction encoding: classes, operation codes and the full opcodes.

use vstd::prelude::*;

verus! {

/// Instruction class: immediate loads.
pub const BPF_LD: u8 = 0x00;
/// Instruction class: loads from memory.
pub const BPF_LDX: u8 = 0x01;
/// Instruction class: stores of an immediate.
pub const BPF_ST: u8 = 0x02;
/// Instruction class: stores of a register.
pub const BPF_STX: u8 = 0x03;
/// Instruction class: 32-bit arithmetic.
pub const BPF_ALU32_LOAD: u8 = 0x04;
/// Instruction class: 64-bit jumps.
pub const BPF_JMP64: u8 = 0x05;
/// Instruction class: 32-bit jumps and the product/quotient group.
pub const BPF_JMP32: u8 = 0x06;
/// Instruction class: 64-bit arithmetic.
pub const BPF_ALU64_STORE: u8 = 0x07;
/// Mask of the instruction class.
pub const BPF_CLS_MASK: u8 = 0x07;
/// Mask of the operation code.
pub const BPF_ALU_OP_MASK: u8 = 0xf0;
/// Source operand: the immediate.
pub const BPF_K: u8 = 0x00;
/// Source operand: the source register.
pub const BPF_X: u8 = 0x08;
/// Size modifier: word.
pub const BPF_W: u8 = 0x00;
/// Size modifier: half word.
pub const BPF_H: u8 = 0x08;
/// Size modifier: byte.
pub const BPF_B: u8 = 0x10;
/// Size modifier: double word.
pub const BPF_DW: u8 = 0x18;
/// Mode modifier: immediate.
pub const BPF_IMM: u8 = 0x00;
/// Mode modifier: memory.
pub const BPF_MEM: u8 = 0x60;
pub const BPF_ADD: u8 = 0x00;
pub const BPF_SUB: u8 = 0x10;
pub const BPF_MUL: u8 = 0x20;
pub const BPF_DIV: u8 = 0x30;
pub const BPF_OR: u8 = 0x40;
pub const BPF_AND: u8 = 0x50;
pub const BPF_LSH: u8 = 0x60;
pub const BPF_RSH: u8 = 0x70;
pub const BPF_NEG: u8 = 0x80;
pub const BPF_MOD: u8 = 0x90;
pub const BPF_XOR: u8 = 0xa0;
pub const BPF_MOV: u8 = 0xb0;
pub const BPF_ARSH: u8 = 0xc0;
pub const BPF_END: u8 = 0xd0;
pub const BPF_HOR: u8 = 0xf0;
pub const BPF_LMUL: u8 = 0x80;
pub const BPF_SREM: u8 = 0xe0;
pub const BPF_JA: u8 = 0x00;
pub const BPF_JEQ: u8 = 0x10;
pub const BPF_JGT: u8 = 0x20;
pub const BPF_JGE: u8 = 0x30;
pub const BPF_JSET: u8 = 0x40;
pub const BPF_JNE: u8 = 0x50;
pub const BPF_JSGT: u8 = 0x60;
pub const BPF_JSGE: u8 = 0x70;
pub const BPF_CALL: u8 = 0x80;
pub const BPF_EXIT: u8 = 0x90;
pub const BPF_JLT: u8 = 0xa0;
pub const BPF_JLE: u8 = 0xb0;
pub const BPF_JSLT: u8 = 0xc0;
pub const BPF_JSLE: u8 = 0xd0;

pub const ADD32_IMM: u8 = 0x04;
pub const JA: u8 = 0x05;
pub const ADD64_IMM: u8 = 0x07;
pub const ADD32_REG: u8 = 0x0c;
pub const ADD64_REG: u8 = 0x0f;
pub const SUB32_IMM: u8 = 0x14;
pub const JEQ64_IMM: u8 = 0x15;
pub const JEQ32_IMM: u8 = 0x16;
pub const SUB64_IMM: u8 = 0x17;
pub const LD_DW_IMM: u8 = 0x18;
pub const SUB32_REG: u8 = 0x1c;
pub const JEQ64_REG: u8 = 0x1d;
pub const JEQ32_REG: u8 = 0x1e;
pub const SUB64_REG: u8 = 0x1f;
pub const MUL32_IMM: u8 = 0x24;
pub const JGT64_IMM: u8 = 0x25;
pub const JGT32_IMM: u8 = 0x26;
pub const MUL64_IMM: u8 = 0x27;
pub const MUL32_REG: u8 = 0x2c;
pub const JGT64_REG: u8 = 0x2d;
pub const JGT32_REG: u8 = 0x2e;
pub const MUL64_REG: u8 = 0x2f;
pub const DIV32_IMM: u8 = 0x34;
pub const JGE64_IMM: u8 = 0x35;
pub const JGE32_IMM: u8 = 0x36;
pub const DIV64_IMM: u8 = 0x37;
pub const DIV32_REG: u8 = 0x3c;
pub const JGE64_REG: u8 = 0x3d;
pub const JGE32_REG: u8 = 0x3e;
pub const DIV64_REG: u8 = 0x3f;
pub const OR32_IMM: u8 = 0x44;
pub const JSET64_IMM: u8 = 0x45;
pub const JSET32_IMM: u8 = 0x46;
pub const OR64_IMM: u8 = 0x47;
pub const OR32_REG: u8 = 0x4c;
pub const JSET64_REG: u8 = 0x4d;
pub const JSET32_REG: u8 = 0x4e;
pub const OR64_REG: u8 = 0x4f;
pub const AND32_IMM: u8 = 0x54;
pub const JNE64_IMM: u8 = 0x55;
pub const JNE32_IMM: u8 = 0x56;
pub const AND64_IMM: u8 = 0x57;
pub const AND32_REG: u8 = 0x5c;
pub const JNE64_REG: u8 = 0x5d;
pub const JNE32_REG: u8 = 0x5e;
pub const AND64_REG: u8 = 0x5f;
pub const LD_W_REG: u8 = 0x61;
pub const ST_W_IMM: u8 = 0x62;
pub const ST_W_REG: u8 = 0x63;
pub const LSH32_IMM: u8 = 0x64;
pub const JSGT64_IMM: u8 = 0x65;
pub const JSGT32_IMM: u8 = 0x66;
pub const LSH64_IMM: u8 = 0x67;
pub const LD_H_REG: u8 = 0x69;
pub const ST_H_IMM: u8 = 0x6a;
pub const ST_H_REG: u8 = 0x6b;
pub const LSH32_REG: u8 = 0x6c;
pub const JSGT64_REG: u8 = 0x6d;
pub const JSGT32_REG: u8 = 0x6e;
pub const LSH64_REG: u8 = 0x6f;
pub const LD_B_REG: u8 = 0x71;
pub const ST_B_IMM: u8 = 0x72;
pub const ST_B_REG: u8 = 0x73;
pub const RSH32_IMM: u8 = 0x74;
pub const JSGE64_IMM: u8 = 0x75;
pub const JSGE32_IMM: u8 = 0x76;
pub const RSH64_IMM: u8 = 0x77;
pub const LD_DW_REG: u8 = 0x79;
pub const ST_DW_IMM: u8 = 0x7a;
pub const ST_DW_REG: u8 = 0x7b;
pub const RSH32_REG: u8 = 0x7c;
pub const JSGE64_REG: u8 = 0x7d;
pub const JSGE32_REG: u8 = 0x7e;
pub const RSH64_REG: u8 = 0x7f;
pub const NEG32: u8 = 0x84;
pub const CALL_IMM: u8 = 0x85;
pub const LMUL32_IMM: u8 = 0x86;
pub const NEG64: u8 = 0x87;
pub const CALL_REG: u8 = 0x8d;
pub const LMUL32_REG: u8 = 0x8e;
pub const MOD32_IMM: u8 = 0x94;
pub const EXIT: u8 = 0x95;
pub const LMUL64_IMM: u8 = 0x96;
pub const MOD64_IMM: u8 = 0x97;
pub const MOD32_REG: u8 = 0x9c;
pub const LMUL64_REG: u8 = 0x9e;
pub const MOD64_REG: u8 = 0x9f;
pub const XOR32_IMM: u8 = 0xa4;
pub const JLT64_IMM: u8 = 0xa5;
pub const JLT32_IMM: u8 = 0xa6;
pub const XOR64_IMM: u8 = 0xa7;
pub const XOR32_REG: u8 = 0xac;
pub const JLT64_REG: u8 = 0xad;
pub const JLT32_REG: u8 = 0xae;
pub const XOR64_REG: u8 = 0xaf;
pub const MOV32_IMM: u8 = 0xb4;
pub const JLE64_IMM: u8 = 0xb5;
pub const JLE32_IMM: u8 = 0xb6;
pub const MOV64_IMM: u8 = 0xb7;
pub const MOV32_REG: u8 = 0xbc;
pub const JLE64_REG: u8 = 0xbd;
pub const JLE32_REG: u8 = 0xbe;
pub const MOV64_REG: u8 = 0xbf;
pub const ARSH32_IMM: u8 = 0xc4;
pub const JSLT64_IMM: u8 = 0xc5;
pub const JSLT32_IMM: u8 = 0xc6;
pub const ARSH64_IMM: u8 = 0xc7;
pub const ARSH32_REG: u8 = 0xcc;
pub const JSLT64_REG: u8 = 0xcd;
pub const JSLT32_REG: u8 = 0xce;
pub const ARSH64_REG: u8 = 0xcf;
pub const LE: u8 = 0xd4;
pub const JSLE64_IMM: u8 = 0xd5;
pub const JSLE32_IMM: u8 = 0xd6;
pub const BE: u8 = 0xdc;
pub const JSLE64_REG: u8 = 0xdd;
pub const JSLE32_REG: u8 = 0xde;
pub const SREM32_IMM: u8 = 0xe6;
pub const SREM32_REG: u8 = 0xee;
pub const SREM64_IMM: u8 = 0xf6;
pub const HOR64_IMM: u8 = 0xf7;
pub const SREM64_REG: u8 = 0xfe;

} // verus!
