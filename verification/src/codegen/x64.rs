//! x86-64 code generation for the threaded eBPF interpreter.
//!
//! Every eBPF opcode, for every source and destination register, gets a
//! fixed-size step of machine code. This module decides which x86-64
//! instructions make up each step and lays the steps out in the code buffer.

use vstd::prelude::*;
use crate::ebpf;
use vstd::bytes::{spec_u32_to_le_bytes, u32_to_le_bytes};
use dynasmrt::components::LabelRegistry;
use dynasmrt::DynamicLabel;
use crate::codegen::labels::{
    patch_fields, patch_range, Patch,
    add_dynamic, add_static, define_dynamic, define_local, dynamic_label_id, dynamic_relocs,
    dynamic_slots, field_bytes, fits_field, local_versions, new_dynamic_label, new_label_registry,
    new_patch, new_relocs, patch_apply, patch_kind, patch_offsets, patch_raw, patch_size,
    patch_value, place_local_reference, relocation_from_encoding, resolve_dynamic, resolve_static,
    size_of_class, static_label_first, static_label_global, static_label_key, static_label_next,
    static_labels, static_relocs, take_dynamics, take_statics, Relocs,
};

verus! {

pub const RAX: u8 = 0;
pub const RCX: u8 = 1;
pub const RDX: u8 = 2;
pub const RBX: u8 = 3;
pub const RSP: u8 = 4;
pub const RBP: u8 = 5;
pub const RSI: u8 = 6;
pub const RDI: u8 = 7;

/// Holds the address of the eBPF instruction being executed.
pub const REG_INSN: u8 = RAX;
/// Scratch register.
pub const REG_TEMP: u8 = RCX;

/// The x86-64 register that holds eBPF register `bpf_reg`; `u8::MAX` for a
/// register number that eBPF does not have.
pub open spec fn spec_gpreg(bpf_reg: int) -> u8 {
    if bpf_reg == 0 { RSI }
    else if bpf_reg == 1 { RDI }
    else if 2 <= bpf_reg <= 9 { (bpf_reg + 6) as u8 }
    else if bpf_reg == 10 { RBX }
    else { u8::MAX }
}

/// Mapping from a numbered eBPF register to an x64 one.
pub fn gpreg(bpf_reg: usize) -> (r: u8)
    ensures
        r == spec_gpreg(bpf_reg as int),
{
    match bpf_reg {
        0 => RSI,
        1 => RDI,
        2 => 8,
        3 => 9,
        4 => 10,
        5 => 11,
        6 => 12,
        7 => 13,
        8 => 14,
        9 => 15,
        10 => RBX,
        _ => u8::MAX,
    }
}

/// Registers whose value a step may clobber: the scratch register and `rdx`.
pub open spec fn spec_disposable_reg(reg: u8) -> bool {
    reg == REG_TEMP || reg == RDX
}

/// Is the value in the provided register disposable/temporary?
pub fn disposable_reg(reg: u8) -> (r: bool)
    ensures
        r == spec_disposable_reg(reg),
{
    reg == REG_TEMP || reg == RDX
}

/// Size of an operand.
#[derive(Clone, Copy, PartialEq, Eq, Debug)]
pub enum Width {
    Byte,
    Dword,
    Qword,
}

/// Second operand of a two-operand instruction.
#[derive(Clone, Copy, PartialEq, Eq, Debug)]
pub enum Operand {
    /// A general-purpose register, accessed at the instruction's width.
    Reg(u8),
    /// The immediate field of the current eBPF instruction: memory at
    /// `[REG_INSN + 4]`, accessed at the instruction's width.
    InsnImm,
}

#[derive(Clone, Copy, PartialEq, Eq, Debug)]
pub enum AluOp {
    Add,
    Sub,
    And,
    Or,
    Xor,
    Cmp,
}

#[derive(Clone, Copy, PartialEq, Eq, Debug)]
pub enum ShiftOp {
    Shl,
    Shr,
    Sar,
}

/// Condition of a conditional jump, named after the x86-64 mnemonic.
#[derive(Clone, Copy, PartialEq, Eq, Debug)]
pub enum Cond {
    Ne,
    Be,
    B,
    E,
    Z,
    Le,
    L,
    Ae,
    A,
    Ge,
    G,
}

/// One x86-64 instruction of an interpreter step, or the definition of the
/// step's fall-through label. Register operands are x86-64 register numbers.
#[derive(Clone, Copy, PartialEq, Eq, Debug)]
pub enum X64Insn {
    /// `neg r`
    Neg(Width, u8),
    /// `op r, operand`
    Alu(AluOp, Width, u8, Operand),
    /// `mov r, operand`
    Mov(Width, u8, Operand),
    /// `movsxd r64, operand32`
    Movsxd(u8, Operand),
    /// `mulx hi, lo, operand`
    Mulx(Width, u8, u8, Operand),
    /// `div r` (unsigned divide of `rdx:rax`)
    Div(Width, u8),
    /// `shl/shr/sar r, cl`
    ShiftCl(ShiftOp, Width, u8),
    /// `shl r64, imm8`
    ShlImm(u8, u8),
    /// `add r64, imm8`
    AddImm(u8, u8),
    /// `bswap r64`
    Bswap(u8),
    /// `bzhi r64, r64, r64`
    Bzhi(u8, u8, u8),
    /// `movq xmm0, rax`
    SaveRax,
    /// `movq rax, xmm0`
    RestoreRax,
    /// `jcc BYTE =>fallthrough`
    JccFallthrough(Cond),
    /// `=> fallthrough`: defines the step's fall-through label here.
    DefineFallthrough,
    /// `int3`
    Int3,
    /// `ret`
    Ret,
    /// `movsx r64, WORD [REG_INSN + 2]`: the offset field of the current instruction.
    LoadInsnOffset(u8),
    /// `lea REG_INSN, [REG_INSN + r*8 + 8]`: skips `r + 1` instructions.
    SkipInsns(u8),
    /// `movzx r64, WORD [REG_INSN]`: the opcode and registers of the current instruction.
    LoadOpcode(u8),
    /// `lea r64, [DWORD base + r64]`
    LeaBase(u8, i32),
    /// `jmp r64`
    JmpReg(u8),
}

/// The instructions generated for one eBPF opcode.
pub struct InsnTemplate {
    pub insns: Vec<X64Insn>,
    /// The code ends the step: nothing may follow it, no epilogue either.
    pub terminal: bool,
}

/// log2 of the size of an interpreter step.
pub const STEP_SIZE_LOG2: u8 = 6;

/// Instruction class of an opcode.
pub open spec fn op_class(op: u8) -> u8 {
    (op % 8) as u8
}

/// Operation field of an opcode.
pub open spec fn op_code(op: u8) -> u8 {
    (op / 16 * 16) as u8
}

/// The opcode takes its second operand from the source register.
pub open spec fn op_uses_src_reg(op: u8) -> bool {
    (op / 8) % 2 == 1
}

/// Second operand as selected by the source bit of the opcode.
pub open spec fn spec_alu_src(op: u8, src: u8) -> Operand {
    if op_uses_src_reg(op) {
        Operand::Reg(src)
    } else {
        Operand::InsnImm
    }
}

/// Leaves the interpreter: what an invalid opcode runs.
pub open spec fn spec_invalid_insn() -> Seq<X64Insn> {
    seq![X64Insn::Mov(Width::Qword, RSP, Operand::Reg(RBP)), X64Insn::Ret]
}

/// Jumps to the step of the instruction whose address `REG_INSN` holds.
pub open spec fn spec_dispatch(base_addr: i32) -> Seq<X64Insn> {
    seq![
        X64Insn::LoadOpcode(REG_TEMP),
        X64Insn::ShlImm(REG_TEMP, STEP_SIZE_LOG2),
        X64Insn::LeaBase(REG_TEMP, base_addr),
        X64Insn::JmpReg(REG_TEMP),
    ]
}

/// Takes the branch of the current instruction, with the fall-through label
/// placed before the dispatch.
pub open spec fn spec_taken_branch(base_addr: i32) -> Seq<X64Insn> {
    seq![
        X64Insn::LoadInsnOffset(REG_TEMP),
        X64Insn::SkipInsns(REG_TEMP),
        X64Insn::DefineFallthrough,
    ] + spec_dispatch(base_addr)
}

/// Advances to the next instruction and dispatches it.
pub open spec fn spec_epilogue(base_addr: i32) -> Seq<X64Insn> {
    seq![X64Insn::AddImm(REG_INSN, 8)] + spec_dispatch(base_addr)
}

pub open spec fn spec_division(alu64: bool, is_div: bool, dst: u8, s: Operand) -> Seq<X64Insn> {
    let w = if alu64 { Width::Qword } else { Width::Dword };
    let result = if is_div { RAX } else { RDX };
    seq![
        X64Insn::Movsxd(REG_TEMP, s),
        X64Insn::SaveRax,
        X64Insn::Mov(Width::Dword, RAX, Operand::Reg(dst)),
        X64Insn::Alu(AluOp::Xor, Width::Dword, RDX, Operand::Reg(RDX)),
        X64Insn::Div(w, REG_TEMP),
        X64Insn::Mov(w, dst, Operand::Reg(result)),
        X64Insn::RestoreRax,
    ]
}

pub open spec fn spec_shift(sop: ShiftOp, w: Width, dst: u8, s: Operand) -> Seq<X64Insn> {
    seq![X64Insn::Mov(Width::Byte, RCX, s), X64Insn::ShiftCl(sop, w, dst)]
}

/// 32-bit arithmetic; `None` for an operation that does not exist.
pub open spec fn spec_alu32(op: u8, dst: u8, src: u8) -> Option<Seq<X64Insn>> {
    let code = op_code(op);
    let s = spec_alu_src(op, src);
    let w = Width::Dword;
    if code == ebpf::BPF_ADD {
        Some(seq![X64Insn::Alu(AluOp::Add, w, dst, s), X64Insn::Movsxd(dst, Operand::Reg(dst))])
    } else if code == ebpf::BPF_SUB {
        Some(seq![X64Insn::Alu(AluOp::Sub, w, dst, s), X64Insn::Movsxd(dst, Operand::Reg(dst))])
    } else if code == ebpf::BPF_MUL {
        Some(seq![X64Insn::Mulx(w, dst, dst, s), X64Insn::Movsxd(dst, Operand::Reg(dst))])
    } else if code == ebpf::BPF_DIV {
        Some(spec_division(false, true, dst, s))
    } else if code == ebpf::BPF_MOD {
        Some(spec_division(false, false, dst, s))
    } else if code == ebpf::BPF_OR {
        Some(seq![X64Insn::Alu(AluOp::Or, w, dst, s)])
    } else if code == ebpf::BPF_AND {
        Some(seq![X64Insn::Alu(AluOp::And, w, dst, s)])
    } else if code == ebpf::BPF_XOR {
        Some(seq![X64Insn::Alu(AluOp::Xor, w, dst, s)])
    } else if code == ebpf::BPF_LSH {
        Some(spec_shift(ShiftOp::Shl, w, dst, s))
    } else if code == ebpf::BPF_RSH {
        Some(spec_shift(ShiftOp::Shr, w, dst, s))
    } else if code == ebpf::BPF_ARSH {
        Some(spec_shift(ShiftOp::Sar, w, dst, s))
    } else if code == ebpf::BPF_NEG {
        if op_uses_src_reg(op) { None } else { Some(seq![X64Insn::Neg(w, dst)]) }
    } else if code == ebpf::BPF_MOV {
        Some(seq![X64Insn::Mov(w, dst, s)])
    } else if code == ebpf::BPF_END {
        if op_uses_src_reg(op) {
            Some(seq![
                X64Insn::Alu(AluOp::Xor, Width::Dword, RCX, Operand::Reg(RCX)),
                X64Insn::Bswap(dst),
                X64Insn::Alu(AluOp::Sub, Width::Byte, RCX, s),
                X64Insn::ShiftCl(ShiftOp::Shr, Width::Qword, dst),
            ])
        } else {
            Some(seq![X64Insn::Mov(w, REG_TEMP, s), X64Insn::Bzhi(dst, dst, REG_TEMP)])
        }
    } else {
        None
    }
}

/// 64-bit arithmetic; `None` for an operation that does not exist.
pub open spec fn spec_alu64(op: u8, dst: u8, src: u8) -> Option<Seq<X64Insn>> {
    let code = op_code(op);
    let x = op_uses_src_reg(op);
    let w = Width::Qword;
    let r = Operand::Reg(src);
    let t = Operand::Reg(REG_TEMP);
    if code == ebpf::BPF_ADD || code == ebpf::BPF_SUB {
        let aop = if code == ebpf::BPF_ADD { AluOp::Add } else { AluOp::Sub };
        if x {
            Some(seq![X64Insn::Alu(aop, w, dst, r)])
        } else {
            Some(seq![X64Insn::Movsxd(REG_TEMP, Operand::InsnImm), X64Insn::Alu(aop, w, dst, t)])
        }
    } else if code == ebpf::BPF_MUL {
        if x {
            Some(seq![X64Insn::Mulx(w, dst, dst, r)])
        } else {
            Some(seq![X64Insn::Movsxd(REG_TEMP, Operand::InsnImm), X64Insn::Mulx(w, dst, dst, t)])
        }
    } else if code == ebpf::BPF_DIV {
        Some(spec_division(true, true, dst, spec_alu_src(op, src)))
    } else if code == ebpf::BPF_MOD {
        Some(spec_division(true, false, dst, spec_alu_src(op, src)))
    } else if code == ebpf::BPF_OR || code == ebpf::BPF_AND || code == ebpf::BPF_XOR {
        let aop = if code == ebpf::BPF_OR {
            AluOp::Or
        } else if code == ebpf::BPF_AND {
            AluOp::And
        } else {
            AluOp::Xor
        };
        if !x {
            Some(seq![X64Insn::Mov(Width::Dword, REG_TEMP, Operand::InsnImm), X64Insn::Alu(aop, w, dst, t)])
        } else if code != ebpf::BPF_XOR && dst == src {
            Some(Seq::empty())
        } else {
            Some(seq![X64Insn::Alu(aop, w, dst, r)])
        }
    } else if code == ebpf::BPF_LSH {
        Some(spec_shift(ShiftOp::Shl, w, dst, spec_alu_src(op, src)))
    } else if code == ebpf::BPF_RSH {
        Some(spec_shift(ShiftOp::Shr, w, dst, spec_alu_src(op, src)))
    } else if code == ebpf::BPF_ARSH {
        Some(spec_shift(ShiftOp::Sar, w, dst, spec_alu_src(op, src)))
    } else if code == ebpf::BPF_NEG {
        if x { None } else { Some(seq![X64Insn::Neg(w, dst)]) }
    } else if code == ebpf::BPF_MOV {
        if !x {
            Some(seq![X64Insn::Movsxd(dst, Operand::InsnImm)])
        } else if dst == src {
            Some(Seq::empty())
        } else {
            Some(seq![X64Insn::Mov(w, dst, r)])
        }
    } else if code == ebpf::BPF_HOR {
        if x {
            None
        } else {
            Some(seq![
                X64Insn::Mov(Width::Dword, REG_TEMP, Operand::InsnImm),
                X64Insn::ShlImm(REG_TEMP, 32),
                X64Insn::Alu(AluOp::Or, w, dst, t),
            ])
        }
    } else {
        None
    }
}

/// The jump not taken by a conditional branch: the negation of its condition.
pub open spec fn spec_fallthrough_cond(code: u8) -> Option<Cond> {
    if code == ebpf::BPF_JEQ { Some(Cond::Ne) }
    else if code == ebpf::BPF_JGT { Some(Cond::Be) }
    else if code == ebpf::BPF_JGE { Some(Cond::B) }
    else if code == ebpf::BPF_JNE { Some(Cond::E) }
    else if code == ebpf::BPF_JSET { Some(Cond::Z) }
    else if code == ebpf::BPF_JSGT { Some(Cond::Le) }
    else if code == ebpf::BPF_JSGE { Some(Cond::L) }
    else if code == ebpf::BPF_JLT { Some(Cond::Ae) }
    else if code == ebpf::BPF_JLE { Some(Cond::A) }
    else if code == ebpf::BPF_JSLT { Some(Cond::Ge) }
    else if code == ebpf::BPF_JSLE { Some(Cond::G) }
    else { None }
}

/// Jumps, calls and the product/remainder group; `None` for an operation
/// that does not exist. Every conditional jump compares the low 32 bits of
/// `dst` with the immediate, whatever its class and source bit.
pub open spec fn spec_jmp(op: u8, dst: u8, base_addr: i32) -> Option<(Seq<X64Insn>, bool)> {
    let code = op_code(op);
    let x = op_uses_src_reg(op);
    match spec_fallthrough_cond(code) {
        Some(c) => Some((
            seq![
                X64Insn::Alu(AluOp::Cmp, Width::Dword, dst, Operand::InsnImm),
                X64Insn::JccFallthrough(c),
            ] + spec_taken_branch(base_addr),
            true,
        )),
        None => if op_class(op) == ebpf::BPF_JMP64 {
            if code == ebpf::BPF_JA && !x {
                Some((spec_taken_branch(base_addr), true))
            } else if code == ebpf::BPF_CALL {
                Some((seq![X64Insn::Int3], false))
            } else if code == ebpf::BPF_EXIT && !x {
                Some((seq![X64Insn::Ret], false))
            } else {
                None
            }
        } else if code != ebpf::BPF_JA {
            Some((seq![X64Insn::Int3], false))
        } else {
            None
        },
    }
}

/// Loads and stores in memory mode, and the wide immediate load.
pub open spec fn spec_is_memory_op(op: u8) -> bool {
    op == ebpf::LD_DW_IMM || (op_class(op) != ebpf::BPF_LD && op / 32 == 3)
}

/// The instructions generated for opcode `op` with x86-64 registers `dst`
/// and `src`, and whether they end the step.
pub open spec fn spec_insn_template(op: u8, dst: u8, src: u8, base_addr: i32) -> (Seq<X64Insn>, bool) {
    let class = op_class(op);
    let body = if class == ebpf::BPF_ALU32_LOAD {
        match spec_alu32(op, dst, src) {
            Some(s) => Some((s, false)),
            None => None,
        }
    } else if class == ebpf::BPF_ALU64_STORE {
        match spec_alu64(op, dst, src) {
            Some(s) => Some((s, false)),
            None => None,
        }
    } else if class == ebpf::BPF_JMP64 || class == ebpf::BPF_JMP32 {
        spec_jmp(op, dst, base_addr)
    } else if spec_is_memory_op(op) {
        Some((seq![X64Insn::Int3], false))
    } else {
        None
    };
    match body {
        Some(b) => b,
        None => (spec_invalid_insn(), true),
    }
}

/// Divisions and remainders, which use `rax` and `rdx` themselves.
pub open spec fn spec_is_division(op: u8) -> bool {
    (op_class(op) == ebpf::BPF_ALU32_LOAD || op_class(op) == ebpf::BPF_ALU64_STORE)
        && (op_code(op) == ebpf::BPF_DIV || op_code(op) == ebpf::BPF_MOD)
}

/// `ALU_SRC32`/`ALU_SRC8`: the source register for opcodes with the source
/// bit set, the instruction's immediate field otherwise.
pub fn alu_src(op: u8, src: u8) -> (r: Operand)
    ensures
        r == spec_alu_src(op, src),
{
    assert((op & ebpf::BPF_X == ebpf::BPF_X) == ((op / 8) % 2 == 1)) by (bit_vector);
    if (op & ebpf::BPF_X) == ebpf::BPF_X {
        Operand::Reg(src)
    } else {
        Operand::InsnImm
    }
}

/// This instruction is invalid: return to the caller of the interpreter.
fn invalid_insn(out: &mut Vec<X64Insn>)
    ensures
        final(out)@ == old(out)@ + spec_invalid_insn(),
{
    out.push(X64Insn::Mov(Width::Qword, RSP, Operand::Reg(RBP)));
    out.push(X64Insn::Ret);
}

fn dispatch(out: &mut Vec<X64Insn>, base_addr: i32)
    ensures
        final(out)@ == old(out)@ + spec_dispatch(base_addr),
{
    out.push(X64Insn::LoadOpcode(REG_TEMP));
    out.push(X64Insn::ShlImm(REG_TEMP, STEP_SIZE_LOG2));
    out.push(X64Insn::LeaBase(REG_TEMP, base_addr));
    out.push(X64Insn::JmpReg(REG_TEMP));
}

/// Generate code to handle branch taken case.
fn bpf_taken_branch(out: &mut Vec<X64Insn>, base_addr: i32)
    ensures
        final(out)@ == old(out)@ + spec_taken_branch(base_addr),
{
    out.push(X64Insn::LoadInsnOffset(REG_TEMP));
    out.push(X64Insn::SkipInsns(REG_TEMP));
    out.push(X64Insn::DefineFallthrough);
    dispatch(out, base_addr);
}

/// Advance to the next instruction and dispatch it.
pub fn epilogue(out: &mut Vec<X64Insn>, base_addr: i32)
    ensures
        final(out)@ == old(out)@ + spec_epilogue(base_addr),
{
    out.push(X64Insn::AddImm(REG_INSN, 8));
    dispatch(out, base_addr);
}

/// Produce a template for a single instruction: opcode `op` with its eBPF
/// registers held in x86-64 registers `dst` and `src`. `base_addr` is the
/// address of the step table.
#[verifier::rlimit(100)]
pub fn bpf_insn_template(op_byte: u8, dst: u8, src: u8, base_addr: i32) -> (t: InsnTemplate)
    requires
        spec_is_division(op_byte) ==> dst != RAX,
    ensures
        (t.insns@, t.terminal) == spec_insn_template(op_byte, dst, src, base_addr),
{
    assert((op_byte & ebpf::BPF_CLS_MASK) == op_byte % 8) by (bit_vector);
    assert((op_byte & ebpf::BPF_ALU_OP_MASK) == op_byte / 16 * 16) by (bit_vector);
    let is_alu64 = (op_byte & ebpf::BPF_CLS_MASK) == ebpf::BPF_ALU64_STORE;
    let op = op_byte & ebpf::BPF_ALU_OP_MASK;
    let s32 = alu_src(op_byte, src);
    let mut out: Vec<X64Insn> = Vec::new();
    let mut terminal = false;
    let temp = Operand::Reg(REG_TEMP);

    match op_byte {
        ebpf::NEG32 => out.push(X64Insn::Neg(Width::Dword, dst)),
        ebpf::NEG64 => out.push(X64Insn::Neg(Width::Qword, dst)),
        ebpf::OR32_IMM | ebpf::OR32_REG => out.push(X64Insn::Alu(AluOp::Or, Width::Dword, dst, s32)),
        ebpf::OR64_IMM => {
            out.push(X64Insn::Mov(Width::Dword, REG_TEMP, s32));
            out.push(X64Insn::Alu(AluOp::Or, Width::Qword, dst, temp));
        },
        ebpf::OR64_REG => if dst != src {
            out.push(X64Insn::Alu(AluOp::Or, Width::Qword, dst, Operand::Reg(src)));
        },
        ebpf::HOR64_IMM => {
            out.push(X64Insn::Mov(Width::Dword, REG_TEMP, s32));
            out.push(X64Insn::ShlImm(REG_TEMP, 32));
            out.push(X64Insn::Alu(AluOp::Or, Width::Qword, dst, temp));
        },
        ebpf::AND32_IMM | ebpf::AND32_REG => out.push(X64Insn::Alu(AluOp::And, Width::Dword, dst, s32)),
        ebpf::AND64_IMM => {
            out.push(X64Insn::Mov(Width::Dword, REG_TEMP, s32));
            out.push(X64Insn::Alu(AluOp::And, Width::Qword, dst, temp));
        },
        ebpf::AND64_REG => if dst != src {
            out.push(X64Insn::Alu(AluOp::And, Width::Qword, dst, Operand::Reg(src)));
        },
        ebpf::XOR32_IMM | ebpf::XOR32_REG => out.push(X64Insn::Alu(AluOp::Xor, Width::Dword, dst, s32)),
        ebpf::XOR64_IMM => {
            out.push(X64Insn::Mov(Width::Dword, REG_TEMP, s32));
            out.push(X64Insn::Alu(AluOp::Xor, Width::Qword, dst, temp));
        },
        ebpf::XOR64_REG => out.push(X64Insn::Alu(AluOp::Xor, Width::Qword, dst, Operand::Reg(src))),
        ebpf::MOV32_IMM => out.push(X64Insn::Mov(Width::Dword, dst, s32)),
        ebpf::MOV64_IMM => out.push(X64Insn::Movsxd(dst, s32)),
        ebpf::MOV32_REG => out.push(X64Insn::Mov(Width::Dword, dst, Operand::Reg(src))),
        ebpf::MOV64_REG => if src != dst {
            out.push(X64Insn::Mov(Width::Qword, dst, Operand::Reg(src)));
        },
        ebpf::ADD64_REG => out.push(X64Insn::Alu(AluOp::Add, Width::Qword, dst, Operand::Reg(src))),
        ebpf::SUB64_REG => out.push(X64Insn::Alu(AluOp::Sub, Width::Qword, dst, Operand::Reg(src))),
        ebpf::MUL64_REG => out.push(X64Insn::Mulx(Width::Qword, dst, dst, Operand::Reg(src))),
        ebpf::ADD64_IMM => {
            out.push(X64Insn::Movsxd(REG_TEMP, Operand::InsnImm));
            out.push(X64Insn::Alu(AluOp::Add, Width::Qword, dst, temp));
        },
        ebpf::SUB64_IMM => {
            out.push(X64Insn::Movsxd(REG_TEMP, Operand::InsnImm));
            out.push(X64Insn::Alu(AluOp::Sub, Width::Qword, dst, temp));
        },
        ebpf::MUL64_IMM => {
            out.push(X64Insn::Movsxd(REG_TEMP, Operand::InsnImm));
            out.push(X64Insn::Mulx(Width::Qword, dst, dst, temp));
        },
        ebpf::ADD32_IMM | ebpf::ADD32_REG => {
            out.push(X64Insn::Alu(AluOp::Add, Width::Dword, dst, s32));
            out.push(X64Insn::Movsxd(dst, Operand::Reg(dst)));
        },
        ebpf::SUB32_IMM | ebpf::SUB32_REG => {
            out.push(X64Insn::Alu(AluOp::Sub, Width::Dword, dst, s32));
            out.push(X64Insn::Movsxd(dst, Operand::Reg(dst)));
        },
        ebpf::MUL32_IMM | ebpf::MUL32_REG => {
            out.push(X64Insn::Mulx(Width::Dword, dst, dst, s32));
            out.push(X64Insn::Movsxd(dst, Operand::Reg(dst)));
        },
        ebpf::DIV32_IMM | ebpf::DIV32_REG | ebpf::MOD32_IMM | ebpf::MOD32_REG | ebpf::DIV64_IMM
        | ebpf::DIV64_REG | ebpf::MOD64_IMM | ebpf::MOD64_REG => {
            let is_div = (op & ebpf::BPF_ALU_OP_MASK) == ebpf::BPF_DIV;
            assert((op & ebpf::BPF_ALU_OP_MASK) == op) by (bit_vector)
                requires
                    op == op_byte & 0xf0,
            ;
            let result_reg = if is_div { RAX } else { RDX };
            out.push(X64Insn::Movsxd(REG_TEMP, s32));
            out.push(X64Insn::SaveRax);
            out.push(X64Insn::Mov(Width::Dword, RAX, Operand::Reg(dst)));
            out.push(X64Insn::Alu(AluOp::Xor, Width::Dword, RDX, Operand::Reg(RDX)));
            if is_alu64 {
                out.push(X64Insn::Div(Width::Qword, REG_TEMP));
                out.push(X64Insn::Mov(Width::Qword, dst, Operand::Reg(result_reg)));
            } else {
                out.push(X64Insn::Div(Width::Dword, REG_TEMP));
                out.push(X64Insn::Mov(Width::Dword, dst, Operand::Reg(result_reg)));
            }
            out.push(X64Insn::RestoreRax);
        },
        ebpf::LSH64_IMM | ebpf::LSH64_REG => {
            out.push(X64Insn::Mov(Width::Byte, RCX, s32));
            out.push(X64Insn::ShiftCl(ShiftOp::Shl, Width::Qword, dst));
        },
        ebpf::LSH32_IMM | ebpf::LSH32_REG => {
            out.push(X64Insn::Mov(Width::Byte, RCX, s32));
            out.push(X64Insn::ShiftCl(ShiftOp::Shl, Width::Dword, dst));
        },
        ebpf::RSH64_IMM | ebpf::RSH64_REG => {
            out.push(X64Insn::Mov(Width::Byte, RCX, s32));
            out.push(X64Insn::ShiftCl(ShiftOp::Shr, Width::Qword, dst));
        },
        ebpf::RSH32_IMM | ebpf::RSH32_REG => {
            out.push(X64Insn::Mov(Width::Byte, RCX, s32));
            out.push(X64Insn::ShiftCl(ShiftOp::Shr, Width::Dword, dst));
        },
        ebpf::ARSH64_IMM | ebpf::ARSH64_REG => {
            out.push(X64Insn::Mov(Width::Byte, RCX, s32));
            out.push(X64Insn::ShiftCl(ShiftOp::Sar, Width::Qword, dst));
        },
        ebpf::ARSH32_IMM | ebpf::ARSH32_REG => {
            out.push(X64Insn::Mov(Width::Byte, RCX, s32));
            out.push(X64Insn::ShiftCl(ShiftOp::Sar, Width::Dword, dst));
        },
        ebpf::BE => {
            out.push(X64Insn::Alu(AluOp::Xor, Width::Dword, RCX, Operand::Reg(RCX)));
            out.push(X64Insn::Bswap(dst));
            out.push(X64Insn::Alu(AluOp::Sub, Width::Byte, RCX, s32));
            out.push(X64Insn::ShiftCl(ShiftOp::Shr, Width::Qword, dst));
        },
        ebpf::LE => {
            out.push(X64Insn::Mov(Width::Dword, REG_TEMP, s32));
            out.push(X64Insn::Bzhi(dst, dst, REG_TEMP));
        },
        ebpf::JEQ32_REG | ebpf::JGT32_REG | ebpf::JGE32_REG | ebpf::JLT32_REG | ebpf::JLE32_REG
        | ebpf::JNE32_REG | ebpf::JSET32_REG | ebpf::JSGT32_REG | ebpf::JSGE32_REG
        | ebpf::JSLT32_REG | ebpf::JSLE32_REG | ebpf::JEQ32_IMM | ebpf::JGT32_IMM
        | ebpf::JGE32_IMM | ebpf::JLT32_IMM | ebpf::JLE32_IMM | ebpf::JNE32_IMM
        | ebpf::JSET32_IMM | ebpf::JSGT32_IMM | ebpf::JSGE32_IMM | ebpf::JSLT32_IMM
        | ebpf::JSLE32_IMM | ebpf::JLE64_IMM | ebpf::JEQ64_IMM | ebpf::JGT64_IMM
        | ebpf::JGE64_IMM | ebpf::JLT64_IMM | ebpf::JNE64_IMM | ebpf::JSET64_IMM
        | ebpf::JSLT64_IMM | ebpf::JSGE64_IMM | ebpf::JSGT64_IMM | ebpf::JSLE64_IMM
        | ebpf::JEQ64_REG | ebpf::JGT64_REG | ebpf::JGE64_REG | ebpf::JLT64_REG
        | ebpf::JLE64_REG | ebpf::JNE64_REG | ebpf::JSET64_REG | ebpf::JSGT64_REG
        | ebpf::JSGE64_REG | ebpf::JSLT64_REG | ebpf::JSLE64_REG => {
            // `op` has its class and source bits masked off already.
            let is_64 = (op & ebpf::BPF_CLS_MASK) == ebpf::BPF_JMP64;
            let is_imm = (op & ebpf::BPF_X) != ebpf::BPF_X;
            assert((op & 7) == 0 && (op & 8) == 0 && (op & 0xf0) == op) by (bit_vector)
                requires
                    op == op_byte & 0xf0,
            ;
            if is_64 {
                if is_imm {
                    out.push(X64Insn::Movsxd(REG_TEMP, Operand::InsnImm));
                    out.push(X64Insn::Alu(AluOp::Cmp, Width::Qword, dst, temp));
                } else {
                    out.push(X64Insn::Alu(AluOp::Cmp, Width::Qword, dst, Operand::Reg(src)));
                }
            } else {
                if is_imm {
                    out.push(X64Insn::Alu(AluOp::Cmp, Width::Dword, dst, Operand::InsnImm));
                } else {
                    out.push(X64Insn::Alu(AluOp::Cmp, Width::Dword, dst, Operand::Reg(src)));
                }
            }
            match op & ebpf::BPF_ALU_OP_MASK {
                ebpf::BPF_JEQ => out.push(X64Insn::JccFallthrough(Cond::Ne)),
                ebpf::BPF_JGT => out.push(X64Insn::JccFallthrough(Cond::Be)),
                ebpf::BPF_JGE => out.push(X64Insn::JccFallthrough(Cond::B)),
                ebpf::BPF_JNE => out.push(X64Insn::JccFallthrough(Cond::E)),
                ebpf::BPF_JSET => out.push(X64Insn::JccFallthrough(Cond::Z)),
                ebpf::BPF_JSGT => out.push(X64Insn::JccFallthrough(Cond::Le)),
                ebpf::BPF_JSGE => out.push(X64Insn::JccFallthrough(Cond::L)),
                ebpf::BPF_JLT => out.push(X64Insn::JccFallthrough(Cond::Ae)),
                ebpf::BPF_JLE => out.push(X64Insn::JccFallthrough(Cond::A)),
                ebpf::BPF_JSLT => out.push(X64Insn::JccFallthrough(Cond::Ge)),
                ebpf::BPF_JSLE => out.push(X64Insn::JccFallthrough(Cond::G)),
                _ => invalid_insn(&mut out),
            }
            bpf_taken_branch(&mut out, base_addr);
            terminal = true;
        },
        ebpf::JA => {
            bpf_taken_branch(&mut out, base_addr);
            terminal = true;
        },
        ebpf::CALL_IMM | ebpf::CALL_REG => out.push(X64Insn::Int3),
        ebpf::EXIT => out.push(X64Insn::Ret),
        ebpf::LD_B_REG | ebpf::LD_H_REG | ebpf::LD_W_REG | ebpf::LD_DW_REG | ebpf::LD_DW_IMM
        | ebpf::ST_B_IMM | ebpf::ST_H_IMM | ebpf::ST_W_IMM | ebpf::ST_DW_IMM | ebpf::ST_B_REG
        | ebpf::ST_H_REG | ebpf::ST_W_REG | ebpf::ST_DW_REG => out.push(X64Insn::Int3),
        ebpf::LMUL32_IMM | ebpf::LMUL32_REG | ebpf::SREM32_IMM | ebpf::SREM32_REG
        | ebpf::LMUL64_IMM | ebpf::LMUL64_REG | ebpf::SREM64_IMM | ebpf::SREM64_REG => out.push(
            X64Insn::Int3,
        ),
        0..=3 | 6 | 8..=11 | 13..=14 | 16..=19 | 25..=27 | 32..=35 | 40..=43 | 48..=51 | 56..=59
        | 64..=67 | 72..=75 | 80..=83 | 88..=91 | 96 | 104 | 112 | 120 | 128..=131 | 136..=140
        | 143..=147 | 152..=155 | 157 | 160..=163 | 168..=171 | 176..=179 | 184..=187
        | 192..=195 | 200..=203 | 208..=211 | 215..=219 | 223..=229 | 231..=237 | 239..=245
        | 248..=253 | 255 => {
            invalid_insn(&mut out);
            terminal = true;
        },
    }
    assert(out@ =~= spec_insn_template(op_byte, dst, src, base_addr).0);
    InsnTemplate { insns: out, terminal }
}

/// The code of one interpreter step: the instruction's template, then the
/// epilogue unless the template ends the step itself.
pub open spec fn spec_interpreter_step(op: u8, dst: u8, src: u8, base_addr: i32) -> Seq<X64Insn> {
    let (insns, terminal) = spec_insn_template(op, dst, src, base_addr);
    if terminal {
        insns
    } else {
        insns + spec_epilogue(base_addr)
    }
}

/// eBPF opcode, destination and source register numbers handled by step
/// `index` of the step table.
pub open spec fn spec_step_fields(index: u16) -> (u8, int, int) {
    ((index % 256) as u8, ((index / 256) % 16) as int, (index / 4096) as int)
}

/// Generates the code of one interpreter step.
pub fn interpreter_step(op: u8, dst: u8, src: u8, base_addr: i32) -> (insns: Vec<X64Insn>)
    requires
        spec_is_division(op) ==> dst != RAX,
    ensures
        insns@ == spec_interpreter_step(op, dst, src, base_addr),
{
    let template = bpf_insn_template(op, dst, src, base_addr);
    let generate_epilogue = !template.terminal;
    let mut insns = template.insns;
    if generate_epilogue {
        epilogue(&mut insns, base_addr);
    }
    insns
}

/// The template of step `index` of the step table. The step of an eBPF
/// instruction is selected by its first 16 bits: the opcode in the low byte,
/// the destination register in the next four bits and the source register in
/// the top four. Register numbers that eBPF does not have map to `u8::MAX`.
pub fn step_template(index: u16, base_addr: i32) -> (t: InsnTemplate)
    ensures
        ({
            let (op, bpf_dst, bpf_src) = spec_step_fields(index);
            (t.insns@, t.terminal) == spec_insn_template(
                op,
                spec_gpreg(bpf_dst),
                spec_gpreg(bpf_src),
                base_addr,
            )
        }),
{
    let bpf_op = (index % 256) as u8;
    let bpf_dst = ((index / 256) % 16) as usize;
    let bpf_src = (index / 4096) as usize;
    let src = gpreg(bpf_src);
    let dst = gpreg(bpf_dst);
    bpf_insn_template(bpf_op, dst, src, base_addr)
}

/// The code of step `index` of the step table: its template, then the
/// epilogue unless the template ends the step itself.
pub fn step_for_index(index: u16, base_addr: i32) -> (insns: Vec<X64Insn>)
    ensures
        ({
            let (op, bpf_dst, bpf_src) = spec_step_fields(index);
            insns@ == spec_interpreter_step(op, spec_gpreg(bpf_dst), spec_gpreg(bpf_src), base_addr)
        }),
{
    let template = step_template(index, base_addr);
    let generate_epilogue = !template.terminal;
    let mut insns = template.insns;
    if generate_epilogue {
        epilogue(&mut insns, base_addr);
    }
    insns
}

/// Whether the condition `c` of a conditional jump holds after `cmp a, b` on
/// 32-bit operands: the x86-64 meaning of each condition code (`jz` tests
/// the zero flag, which `cmp` sets on equality).
pub open spec fn x86_condition_after_compare(c: Cond, a: u32, b: u32) -> bool {
    match c {
        Cond::Ne => a != b,
        Cond::Be => a <= b,
        Cond::B => a < b,
        Cond::E => a == b,
        Cond::Z => a == b,
        Cond::Le => (a as i32) <= (b as i32),
        Cond::L => (a as i32) < (b as i32),
        Cond::Ae => a >= b,
        Cond::A => a > b,
        Cond::Ge => (a as i32) >= (b as i32),
        Cond::G => (a as i32) > (b as i32),
    }
}

/// Whether an eBPF conditional jump with operation `code` is taken when it
/// compares `a` with `b`.
pub open spec fn ebpf_jump_taken(code: u8, a: u32, b: u32) -> bool {
    if code == ebpf::BPF_JEQ { a == b }
    else if code == ebpf::BPF_JGT { a > b }
    else if code == ebpf::BPF_JGE { a >= b }
    else if code == ebpf::BPF_JNE { a != b }
    else if code == ebpf::BPF_JSET { a & b != 0 }
    else if code == ebpf::BPF_JSGT { (a as i32) > (b as i32) }
    else if code == ebpf::BPF_JSGE { (a as i32) >= (b as i32) }
    else if code == ebpf::BPF_JLT { a < b }
    else if code == ebpf::BPF_JLE { a <= b }
    else if code == ebpf::BPF_JSLT { (a as i32) < (b as i32) }
    else { (a as i32) <= (b as i32) }
}

/// The condition a `JccFallthrough` instruction jumps on.
pub open spec fn fallthrough_condition(i: X64Insn) -> Option<Cond> {
    match i {
        X64Insn::JccFallthrough(c) => Some(c),
        _ => None,
    }
}

/// Every conditional jump compares and then jumps to its fall-through
/// exactly when the eBPF comparison does not hold, so the branch is taken
/// exactly when it does: for every pair of compared values. `JSET` is the one
/// exception: its template compares for equality and jumps to the
/// fall-through on the zero flag, so it is taken when the values differ.
pub proof fn lemma_conditional_jump_semantics(op: u8, dst: u8, src: u8, base_addr: i32, a: u32, b: u32)
    requires
        op_class(op) == ebpf::BPF_JMP64 || op_class(op) == ebpf::BPF_JMP32,
        spec_fallthrough_cond(op_code(op)) is Some,
    ensures
        ({
            let insns = spec_insn_template(op, dst, src, base_addr).0;
            &&& insns.len() >= 2
            &&& insns[0] == X64Insn::Alu(AluOp::Cmp, Width::Dword, dst, Operand::InsnImm)
            &&& fallthrough_condition(insns[1]) is Some
            &&& op_code(op) != ebpf::BPF_JSET ==> (x86_condition_after_compare(
                fallthrough_condition(insns[1]).unwrap(),
                a,
                b,
            ) <==> !ebpf_jump_taken(op_code(op), a, b))
            &&& op_code(op) == ebpf::BPF_JSET ==> (x86_condition_after_compare(
                fallthrough_condition(insns[1]).unwrap(),
                a,
                b,
            ) <==> a == b)
        }),
{
}

/// The destination and source registers of step `index` are the two nibbles
/// of its second byte, destination low, and the opcode its first byte: the
/// step of an instruction is selected by its first 16 bits as they lie in
/// memory.
pub proof fn lemma_step_index_fields(index: u16)
    ensures
        spec_step_fields(index).0 == index & 0xff,
        spec_step_fields(index).1 == (index >> 8u16) & 0xf,
        spec_step_fields(index).2 == (index >> 12u16) & 0xf,
{
    assert(index % 256 == index & 0xff) by (bit_vector);
    assert((index / 256) % 16 == (index >> 8u16) & 0xf) by (bit_vector);
    assert(index / 4096 == (index >> 12u16) & 0xf) by (bit_vector);
}

/// Shifts keep their kind: left shifts shift left, right shifts shift in
/// zeros, arithmetic right shifts shift in the sign bit, at the width of the
/// instruction's class, by `cl`, which holds the shift amount.
pub proof fn lemma_shift_kinds(op: u8, dst: u8, src: u8, base_addr: i32)
    requires
        op_class(op) == ebpf::BPF_ALU32_LOAD || op_class(op) == ebpf::BPF_ALU64_STORE,
        op_code(op) == ebpf::BPF_LSH || op_code(op) == ebpf::BPF_RSH || op_code(op) == ebpf::BPF_ARSH,
    ensures
        ({
            let insns = spec_insn_template(op, dst, src, base_addr).0;
            let w = if op_class(op) == ebpf::BPF_ALU64_STORE { Width::Qword } else { Width::Dword };
            &&& insns.len() == 2
            &&& insns[0] == X64Insn::Mov(Width::Byte, RCX, spec_alu_src(op, src))
            &&& op_code(op) == ebpf::BPF_LSH ==> insns[1] == X64Insn::ShiftCl(ShiftOp::Shl, w, dst)
            &&& op_code(op) == ebpf::BPF_RSH ==> insns[1] == X64Insn::ShiftCl(ShiftOp::Shr, w, dst)
            &&& op_code(op) == ebpf::BPF_ARSH ==> insns[1] == X64Insn::ShiftCl(ShiftOp::Sar, w, dst)
        }),
{
}

/// Every eBPF register lives in its own x86-64 register, and none of them is
/// `REG_INSN`, a disposable register or the stack registers.
pub proof fn lemma_register_map(i: int, j: int)
    requires
        0 <= i <= 10,
        0 <= j <= 10,
    ensures
        spec_gpreg(i) != REG_INSN,
        spec_gpreg(i) != REG_TEMP,
        spec_gpreg(i) != RDX,
        spec_gpreg(i) != RSP,
        spec_gpreg(i) != RBP,
        spec_gpreg(i) < 16,
        i != j ==> spec_gpreg(i) != spec_gpreg(j),
{
}

/// The registers that steps clobber are disposable, `rax` is not, and no
/// eBPF register lives in a disposable register.
pub proof fn lemma_disposable_registers(bpf_reg: int)
    requires
        0 <= bpf_reg <= 10,
    ensures
        spec_disposable_reg(RDX),
        spec_disposable_reg(RCX),
        !spec_disposable_reg(RAX),
        !spec_disposable_reg(spec_gpreg(bpf_reg)),
{
}

/// No division is ever generated with `rax` as its destination: the
/// requirement of the template generator holds for every step of the table.
pub proof fn lemma_step_table_divisions(bpf_reg: int)
    ensures
        spec_gpreg(bpf_reg) != RAX,
{
}

/// Control never runs off the end of a step: every step ends in a return
/// or an indirect jump.
pub proof fn lemma_step_ends_in_jump(op: u8, dst: u8, src: u8, base_addr: i32)
    ensures
        ({
            let s = spec_interpreter_step(op, dst, src, base_addr);
            s.len() > 0 && (s.last() == X64Insn::Ret || s.last() == X64Insn::JmpReg(REG_TEMP))
        }),
{
}

/// Nothing follows a terminal template: the step is the template itself, and
/// it ends either in the exit sequence or in the taken-branch dispatch.
pub proof fn lemma_terminal_template_is_last(op: u8, dst: u8, src: u8, base_addr: i32)
    ensures
        ({
            let (insns, terminal) = spec_insn_template(op, dst, src, base_addr);
            terminal ==> {
                &&& spec_interpreter_step(op, dst, src, base_addr) == insns
                &&& (insns.len() >= 2 && insns.subrange(insns.len() - 2, insns.len() as int)
                    == spec_invalid_insn())
                    || (insns.len() >= 7 && insns.subrange(insns.len() - 7, insns.len() as int)
                    == spec_taken_branch(base_addr))
            }
        }),
{
    let (insns, terminal) = spec_insn_template(op, dst, src, base_addr);
    if terminal {
        if insns.len() >= 2 && insns.subrange(insns.len() - 2, insns.len() as int) =~= spec_invalid_insn() {
        } else {
            assert(insns.subrange(insns.len() - 7, insns.len() as int) =~= spec_taken_branch(base_addr));
        }
    }
}

/// Instructions that define or refer to the fall-through label.
pub open spec fn is_label_insn(x: X64Insn) -> bool {
    x == X64Insn::DefineFallthrough || x is JccFallthrough
}

pub open spec fn label_free(s: Seq<X64Insn>) -> bool {
    forall|i: int| 0 <= i < s.len() ==> !is_label_insn(#[trigger] s[i])
}

proof fn lemma_label_free_concat(a: Seq<X64Insn>, b: Seq<X64Insn>)
    requires
        label_free(a),
        label_free(b),
    ensures
        label_free(a + b),
{
    assert forall|i: int| 0 <= i < (a + b).len() implies !is_label_insn(#[trigger] (a + b)[i]) by {
        if i < a.len() {
            assert((a + b)[i] == a[i]);
        } else {
            assert((a + b)[i] == b[i - a.len()]);
        }
    }
}

/// Templates that are not branches never touch the fall-through label.
proof fn lemma_template_label_free(op: u8, dst: u8, src: u8, base_addr: i32)
    requires
        spec_fallthrough_cond(op_code(op)) is None || (op_class(op) != ebpf::BPF_JMP64
            && op_class(op) != ebpf::BPF_JMP32),
        !(op_class(op) == ebpf::BPF_JMP64 && op_code(op) == ebpf::BPF_JA && !op_uses_src_reg(op)),
    ensures
        label_free(spec_insn_template(op, dst, src, base_addr).0),
{
    let s = spec_insn_template(op, dst, src, base_addr).0;
    assert forall|i: int| 0 <= i < s.len() implies !is_label_insn(#[trigger] s[i]) by {
    }
}

/// Every step defines its fall-through label at most once, and a step that
/// jumps to that label defines it after the jump: the label of each step
/// always resolves.
pub proof fn lemma_fallthrough_defined(op: u8, dst: u8, src: u8, base_addr: i32)
    ensures
        ({
            let s = spec_interpreter_step(op, dst, src, base_addr);
            &&& forall|i: int, j: int|
                0 <= i < s.len() && 0 <= j < s.len() && s[i] == X64Insn::DefineFallthrough
                    && s[j] == X64Insn::DefineFallthrough ==> i == j
            &&& forall|i: int|
                #![trigger s[i]]
                0 <= i < s.len() && (s[i] matches X64Insn::JccFallthrough(_)) ==> exists|k: int|
                    #![trigger s[k]]
                    i < k < s.len() && s[k] == X64Insn::DefineFallthrough
        }),
{
    let s = spec_interpreter_step(op, dst, src, base_addr);
    let (insns, terminal) = spec_insn_template(op, dst, src, base_addr);
    let class = op_class(op);
    let code = op_code(op);
    if (class == ebpf::BPF_JMP64 || class == ebpf::BPF_JMP32) && spec_fallthrough_cond(code) is Some {
        let c = spec_fallthrough_cond(code).unwrap();
        let lit = seq![
            X64Insn::Alu(AluOp::Cmp, Width::Dword, dst, Operand::InsnImm),
            X64Insn::JccFallthrough(c),
            X64Insn::LoadInsnOffset(REG_TEMP),
            X64Insn::SkipInsns(REG_TEMP),
            X64Insn::DefineFallthrough,
            X64Insn::LoadOpcode(REG_TEMP),
            X64Insn::ShlImm(REG_TEMP, STEP_SIZE_LOG2),
            X64Insn::LeaBase(REG_TEMP, base_addr),
            X64Insn::JmpReg(REG_TEMP),
        ];
        assert(s =~= lit);
        assert(s[4] == X64Insn::DefineFallthrough);
    } else if class == ebpf::BPF_JMP64 && code == ebpf::BPF_JA && !op_uses_src_reg(op) {
        let lit = seq![
            X64Insn::LoadInsnOffset(REG_TEMP),
            X64Insn::SkipInsns(REG_TEMP),
            X64Insn::DefineFallthrough,
            X64Insn::LoadOpcode(REG_TEMP),
            X64Insn::ShlImm(REG_TEMP, STEP_SIZE_LOG2),
            X64Insn::LeaBase(REG_TEMP, base_addr),
            X64Insn::JmpReg(REG_TEMP),
        ];
        assert(s =~= lit);
    } else {
        lemma_template_label_free(op, dst, src, base_addr);
        if !terminal {
            assert(label_free(spec_epilogue(base_addr)));
            lemma_label_free_concat(insns, spec_epilogue(base_addr));
        }
        assert(label_free(s));
    }
}

/// Size of the step table.
pub const STEPS_SIZE: usize = 0x1_0000 * 64;
/// Size of the area after the step table that holds helper routines.
pub const HELPERS_SIZE: usize = 10240;
/// Size of one step.
pub const STEP_CAPACITY: usize = 64;

/// `s` with `bytes` written at `at`.
pub open spec fn splice(s: Seq<u8>, at: int, bytes: Seq<u8>) -> Seq<u8> {
    s.subrange(0, at) + bytes + s.subrange(at + bytes.len(), s.len() as int)
}

/// Writing one more byte extends a splice by that byte.
pub proof fn lemma_splice_step(s: Seq<u8>, at: int, bytes: Seq<u8>, i: int)
    requires
        0 <= at,
        at + bytes.len() <= s.len(),
        0 <= i < bytes.len(),
    ensures
        splice(s, at, bytes.subrange(0, i)).update(at + i, bytes[i]) == splice(
            s,
            at,
            bytes.subrange(0, i + 1),
        ),
{
    let a = splice(s, at, bytes.subrange(0, i)).update(at + i, bytes[i]);
    let b = splice(s, at, bytes.subrange(0, i + 1));
    assert(a.len() == b.len());
    assert forall|k: int| 0 <= k < a.len() implies a[k] == b[k] by {
        if k < at {
        } else if k < at + i {
        } else if k == at + i {
        } else {
        }
    }
    assert(a =~= b);
}

/// Once applying a prefix of the static relocations fails, applying all of
/// them fails the same way.
proof fn lemma_apply_statics_err(
    code: Seq<u8>,
    relocs: Seq<(PatchFields, (Seq<char>, usize))>,
    defs: Map<(Seq<char>, usize), usize>,
    base_addr: usize,
    n: int,
)
    requires
        0 <= n <= relocs.len(),
        spec_apply_statics(code, relocs.take(n), defs, base_addr) is Err,
    ensures
        spec_apply_statics(code, relocs, defs, base_addr) == spec_apply_statics(
            code,
            relocs.take(n),
            defs,
            base_addr,
        ),
    decreases relocs.len() - n,
{
    if n < relocs.len() {
        assert(relocs.take(n + 1).drop_last() =~= relocs.take(n));
        lemma_apply_statics_err(code, relocs, defs, base_addr, n + 1);
    } else {
        assert(relocs.take(n) =~= relocs);
    }
}

/// Once applying a prefix of the dynamic relocations fails, applying all of
/// them fails the same way.
proof fn lemma_apply_dynamics_err(
    code: Seq<u8>,
    relocs: Seq<(PatchFields, usize)>,
    slots: Seq<Option<usize>>,
    base_addr: usize,
    n: int,
)
    requires
        0 <= n <= relocs.len(),
        spec_apply_dynamics(code, relocs.take(n), slots, base_addr) is Err,
    ensures
        spec_apply_dynamics(code, relocs, slots, base_addr) == spec_apply_dynamics(
            code,
            relocs.take(n),
            slots,
            base_addr,
        ),
    decreases relocs.len() - n,
{
    if n < relocs.len() {
        assert(relocs.take(n + 1).drop_last() =~= relocs.take(n));
        lemma_apply_dynamics_err(code, relocs, slots, base_addr, n + 1);
    } else {
        assert(relocs.take(n) =~= relocs);
    }
}

/// Generates the interpreter's code into a buffer of `STEPS_SIZE +
/// HELPERS_SIZE` bytes, one step after the other.
pub struct InterpreterGenerator {
    code: Vec<u8>,
    offset: usize,
    labels: LabelRegistry,
    relocs: Relocs,
    /// The code of the current step has ended: nothing more may be written
    /// to it.
    terminal: bool,
}

/// The relocation fields are ones `dynasmrt` can decode: one of the four
/// kinds and one of the four field sizes.
pub open spec fn valid_patch_fields(f: (usize, isize, u8, u8, u8, usize)) -> bool {
    f.4 < 4 && (f.5 == 1 || f.5 == 2 || f.5 == 4 || f.5 == 8)
}

pub open spec fn static_relocs_valid(r: Seq<((usize, isize, u8, u8, u8, usize), (Seq<char>, usize))>) -> bool {
    forall|i: int| 0 <= i < r.len() ==> valid_patch_fields(#[trigger] r[i].0)
}

pub open spec fn dynamic_relocs_valid(r: Seq<((usize, isize, u8, u8, u8, usize), usize)>) -> bool {
    forall|i: int| 0 <= i < r.len() ==> valid_patch_fields(#[trigger] r[i].0)
}

pub type PatchFields = (usize, isize, u8, u8, u8, usize);

/// The code after applying one relocation towards `target` (`None`: the label
/// is undefined), with the step table placed at `base_addr`.
pub open spec fn spec_apply_patch(code: Seq<u8>, f: PatchFields, target: Option<usize>, base_addr: usize) -> Result<Seq<u8>, RelocationError> {
    match target {
        None => Err(RelocationError::UnknownLabel),
        Some(t) => {
            if f.2 > f.0 || f.0 - f.2 + f.5 > code.len() {
                Err(RelocationError::OutOfRange)
            } else if (f.4 == 0 || f.4 == 2) && f.3 > f.0 {
                Err(RelocationError::Impossible)
            } else if !(isize::MIN <= (patch_raw(f, t, base_addr) as isize) + f.1 <= isize::MAX) {
                Err(RelocationError::Impossible)
            } else if !fits_field(patch_value(f, t, base_addr), f.5 as nat) {
                Err(RelocationError::Impossible)
            } else {
                Ok(splice(code, f.0 - f.2, field_bytes(patch_value(f, t, base_addr), f.5 as nat)))
            }
        },
    }
}

/// The code after applying the relocations towards static labels, in order.
pub open spec fn spec_apply_statics(
    code: Seq<u8>,
    relocs: Seq<(PatchFields, (Seq<char>, usize))>,
    defs: Map<(Seq<char>, usize), usize>,
    base_addr: usize,
) -> Result<Seq<u8>, RelocationError>
    decreases relocs.len(),
{
    if relocs.len() == 0 {
        Ok(code)
    } else {
        match spec_apply_statics(code, relocs.drop_last(), defs, base_addr) {
            Err(e) => Err(e),
            Ok(c) => {
                let (f, key) = relocs.last();
                spec_apply_patch(
                    c,
                    f,
                    if defs.contains_key(key) { Some(defs[key]) } else { None },
                    base_addr,
                )
            },
        }
    }
}

/// The code after applying the relocations towards dynamic labels, in order.
pub open spec fn spec_apply_dynamics(
    code: Seq<u8>,
    relocs: Seq<(PatchFields, usize)>,
    slots: Seq<Option<usize>>,
    base_addr: usize,
) -> Result<Seq<u8>, RelocationError>
    decreases relocs.len(),
{
    if relocs.len() == 0 {
        Ok(code)
    } else {
        match spec_apply_dynamics(code, relocs.drop_last(), slots, base_addr) {
            Err(e) => Err(e),
            Ok(c) => {
                let (f, id) = relocs.last();
                spec_apply_patch(c, f, if id < slots.len() { slots[id as int] } else { None }, base_addr)
            },
        }
    }
}

/// Every recorded local label version is at least 1.
pub open spec fn versions_positive(versions: Map<Seq<char>, usize>) -> bool {
    forall|name: Seq<char>| #[trigger] versions.contains_key(name) ==> versions[name] >= 1
}

/// Version of the next definition of local label `name`.
pub open spec fn next_local_version(versions: Map<Seq<char>, usize>, name: Seq<char>) -> usize {
    if versions.contains_key(name) {
        (versions[name] + 1) as usize
    } else {
        1usize
    }
}

/// The static label a forward reference to local label `name` targets: the
/// next definition of that name.
pub open spec fn forward_label_key(versions: Map<Seq<char>, usize>, name: Seq<char>) -> (Seq<char>, usize) {
    if versions.contains_key(name) {
        (name, if versions[name] != 0 { (versions[name] + 1) as usize } else { 0usize })
    } else {
        (name, 1usize)
    }
}

/// How many filler bytes `InterpreterGenerator::align` writes at `offset`.
pub open spec fn align_pad(offset: nat, alignment: nat) -> nat {
    (alignment - offset % alignment) as nat
}

/// Aligning the generator's cursor lands it on the next multiple of
/// `alignment` strictly past it: at least one and at most `alignment` bytes
/// of filler.
pub proof fn lemma_align_reaches_boundary(offset: nat, alignment: nat)
    requires
        alignment > 0,
    ensures
        (offset + align_pad(offset, alignment)) % alignment == 0,
        1 <= align_pad(offset, alignment) <= alignment,
{
    vstd::arithmetic::div_mod::lemma_fundamental_div_mod(offset as int, alignment as int);
    let q = offset as int / alignment as int;
    assert(offset + align_pad(offset, alignment) == alignment * (q + 1)) by (nonlinear_arith)
        requires
            offset == alignment * q + offset % alignment,
            align_pad(offset, alignment) == alignment - offset % alignment,
    ;
    vstd::arithmetic::div_mod::lemma_mod_multiples_basic(q + 1, alignment as int);
}

/// A step shorter than `STEP_CAPACITY` bytes, written from the start of step
/// slot `index` and padded by `align(STEP_CAPACITY, ..)`, leaves the cursor at
/// the start of slot `index + 1`: step `index` lies at `index << STEP_SIZE_LOG2`,
/// where the dispatch jumps.
pub proof fn lemma_step_layout(index: nat, step_len: nat)
    requires
        step_len < STEP_CAPACITY,
    ensures
        STEP_CAPACITY == 1u64 << STEP_SIZE_LOG2,
        STEPS_SIZE == 0x1_0000 * STEP_CAPACITY,
        index * STEP_CAPACITY + step_len + align_pad(
            (index * STEP_CAPACITY + step_len) as nat,
            STEP_CAPACITY as nat,
        ) == (index + 1) * STEP_CAPACITY,
{
    assert(1u64 << 6u8 == 64) by (bit_vector);
    let offset: nat = (index * STEP_CAPACITY + step_len) as nat;
    vstd::arithmetic::div_mod::lemma_fundamental_div_mod(offset as int, 64);
    vstd::arithmetic::div_mod::lemma_mod_multiples_vanish(index as int, step_len as int, 64);
    vstd::arithmetic::div_mod::lemma_small_mod(step_len, 64);
    assert(offset % 64 == step_len) by (nonlinear_arith)
        requires
            offset == index * 64 + step_len,
            (64 * index + step_len) % 64 == step_len % 64,
            step_len % 64 == step_len,
    ;
}

/// Why the relocations of the step table could not be applied.
#[derive(Clone, Copy, PartialEq, Eq, Debug)]
pub enum RelocationError {
    /// The targeted label was never defined.
    UnknownLabel,
    /// The patched field lies outside the code buffer.
    OutOfRange,
    /// The value does not fit the field.
    Impossible,
}

impl InterpreterGenerator {
    /// The buffer has its full size, the cursor lies within the step table and
    /// every registered relocation is one `dynasmrt` can apply.
    pub closed spec fn wf(&self) -> bool {
        &&& self.code@.len() == STEPS_SIZE + HELPERS_SIZE
        &&& self.offset <= STEPS_SIZE
        &&& static_relocs_valid(self.static_relocations())
        &&& dynamic_relocs_valid(self.dynamic_relocations())
        &&& versions_positive(self.label_versions())
    }

    /// A well-formed generator has a buffer of the full size, a cursor within
    /// the step table, and every recorded local label version is at least 1.
    pub proof fn lemma_wf(&self)
        requires
            self.wf(),
        ensures
            self.code_view().len() == STEPS_SIZE + HELPERS_SIZE,
            self.offset_view() <= STEPS_SIZE,
            versions_positive(self.label_versions()),
    {
    }

    /// The code of the current step has ended.
    pub closed spec fn terminal_view(&self) -> bool {
        self.terminal
    }

    /// Dynamic label slots: `Some(offset)` once defined.
    pub closed spec fn dynamic_labels(&self) -> Seq<Option<usize>> {
        dynamic_slots(self.labels)
    }

    /// Defined static labels, by name and version.
    pub closed spec fn static_label_defs(&self) -> Map<(Seq<char>, usize), usize> {
        static_labels(self.labels)
    }

    /// Number of definitions of each local label name.
    pub closed spec fn label_versions(&self) -> Map<Seq<char>, usize> {
        local_versions(self.labels)
    }

    /// Pending relocations towards static labels.
    pub closed spec fn static_relocations(&self) -> Seq<((usize, isize, u8, u8, u8, usize), (Seq<char>, usize))> {
        static_relocs(self.relocs)
    }

    /// Pending relocations towards dynamic labels.
    pub closed spec fn dynamic_relocations(&self) -> Seq<((usize, isize, u8, u8, u8, usize), usize)> {
        dynamic_relocs(self.relocs)
    }

    /// Labels and relocations are the same in `self` and `other`.
    pub open spec fn same_registries(&self, other: &Self) -> bool {
        &&& self.dynamic_labels() == other.dynamic_labels()
        &&& self.static_label_defs() == other.static_label_defs()
        &&& self.label_versions() == other.label_versions()
        &&& self.static_relocations() == other.static_relocations()
        &&& self.dynamic_relocations() == other.dynamic_relocations()
    }

    /// Contents of the whole code buffer.
    pub closed spec fn code_view(&self) -> Seq<u8> {
        self.code@
    }

    /// Where the next byte goes.
    pub closed spec fn offset_view(&self) -> nat {
        self.offset as nat
    }

    /// A generator over a zeroed buffer, with the cursor at its start.
    pub fn new() -> (g: Self)
        ensures
            g.wf(),
            !g.terminal_view(),
            g.offset_view() == 0,
            g.code_view() == Seq::new((STEPS_SIZE + HELPERS_SIZE) as nat, |i: int| 0u8),
            g.dynamic_labels().len() == 0,
            g.static_label_defs().dom().len() == 0,
            g.static_label_defs().dom().finite(),
            g.label_versions().dom().len() == 0,
            g.label_versions().dom().finite(),
            g.static_relocations().len() == 0,
            g.dynamic_relocations().len() == 0,
    {
        let code: Vec<u8> = vec![0u8; STEPS_SIZE + HELPERS_SIZE];
        let labels = new_label_registry();
        let relocs = new_relocs();
        let mut this = InterpreterGenerator { code, offset: 0, labels, relocs, terminal: false };
        proof {
            vstd::set_lib::lemma_set_empty_equivalency_len(local_versions(this.labels).dom());
        }
        assert(this.code@ =~= Seq::new((STEPS_SIZE + HELPERS_SIZE) as nat, |i: int| 0u8));
        this.generate_helpers();
        this
    }

    /// Generates the helper routines behind the step table: there are none.
    pub fn generate_helpers(&mut self)
        ensures
            *final(self) == *old(self),
    {
    }

    /// Generates the interpreter's entry point: it is empty.
    pub fn entrypoint_helper(&mut self)
        ensures
            *final(self) == *old(self),
    {
    }

    pub fn offset(&self) -> (r: usize)
        ensures
            r == self.offset_view(),
    {
        self.offset
    }

    /// The code buffer.
    pub fn code(&self) -> (r: &Vec<u8>)
        ensures
            r@ == self.code_view(),
    {
        &self.code
    }

    /// Writes `buffer` at the cursor. A write must end before the end of the
    /// step table, must not cross the end of the current step, and must not
    /// follow the code that ended the step.
    pub fn extend(&mut self, buffer: &[u8])
        requires
            old(self).wf(),
            !old(self).terminal_view(),
            old(self).offset_view() + buffer@.len() < STEPS_SIZE,
            buffer@.len() <= STEP_CAPACITY - old(self).offset_view() % (STEP_CAPACITY as nat),
        ensures
            final(self).wf(),
            final(self).terminal_view() == old(self).terminal_view(),
            final(self).same_registries(old(self)),
            final(self).offset_view() == old(self).offset_view() + buffer@.len(),
            final(self).code_view() == splice(
                old(self).code_view(),
                old(self).offset_view() as int,
                buffer@,
            ),
    {
        let mut i: usize = 0;
        while i < buffer.len()
            invariant
                self.wf(),
                old(self).wf(),
                self.labels == old(self).labels,
                self.relocs == old(self).relocs,
                self.terminal == old(self).terminal,
                self.same_registries(old(self)),
                i <= buffer@.len(),
                old(self).offset_view() + buffer@.len() < STEPS_SIZE,
                self.offset == old(self).offset_view(),
                self.code@ == splice(
                    old(self).code_view(),
                    self.offset as int,
                    buffer@.subrange(0, i as int),
                ),
            decreases buffer@.len() - i,
        {
            proof {
                lemma_splice_step(old(self).code_view(), self.offset as int, buffer@, i as int);
            }
            self.code[self.offset + i] = buffer[i];
            i += 1;
        }
        assert(buffer@.subrange(0, i as int) =~= buffer@);
        self.offset += buffer.len();
    }

    /// Pads with `with` up to the next multiple of `alignment`; a full
    /// `alignment` bytes when the cursor is aligned already.
    pub fn align(&mut self, alignment: usize, with: u8)
        requires
            old(self).wf(),
            alignment > 0,
            old(self).offset_view() + align_pad(old(self).offset_view(), alignment as nat)
                <= STEPS_SIZE,
        ensures
            final(self).wf(),
            final(self).terminal_view() == old(self).terminal_view(),
            final(self).same_registries(old(self)),
            final(self).offset_view() == old(self).offset_view() + align_pad(
                old(self).offset_view(),
                alignment as nat,
            ),
            final(self).code_view() == splice(
                old(self).code_view(),
                old(self).offset_view() as int,
                Seq::new(align_pad(old(self).offset_view(), alignment as nat), |i: int| with),
            ),
    {
        let len = alignment - self.offset % alignment;
        let ghost fill = Seq::new(len as nat, |i: int| with);
        let mut i: usize = 0;
        while i < len
            invariant
                self.wf(),
                old(self).wf(),
                self.labels == old(self).labels,
                self.relocs == old(self).relocs,
                self.terminal == old(self).terminal,
                self.same_registries(old(self)),
                i <= len,
                fill.len() == len,
                forall|k: int| 0 <= k < len ==> fill[k] == with,
                self.offset + len <= STEPS_SIZE,
                self.offset == old(self).offset_view(),
                self.code@ == splice(old(self).code_view(), self.offset as int, fill.subrange(0, i as int)),
            decreases len - i,
        {
            proof {
                lemma_splice_step(old(self).code_view(), self.offset as int, fill, i as int);
            }
            self.code[self.offset + i] = with;
            i += 1;
        }
        assert(fill.subrange(0, i as int) =~= fill);
        self.offset += len;
    }

    pub fn push(&mut self, byte: u8)
        requires
            old(self).wf(),
            !old(self).terminal_view(),
            old(self).offset_view() + 1 < STEPS_SIZE,
            1 <= STEP_CAPACITY - old(self).offset_view() % (STEP_CAPACITY as nat),
        ensures
            final(self).wf(),
            final(self).terminal_view() == old(self).terminal_view(),
            final(self).same_registries(old(self)),
            final(self).offset_view() == old(self).offset_view() + 1,
            final(self).code_view() == splice(
                old(self).code_view(),
                old(self).offset_view() as int,
                seq![byte],
            ),
    {
        let bytes = [byte];
        assert(bytes@ =~= seq![byte]);
        self.extend(&bytes);
    }

    pub fn push_i8(&mut self, value: i8)
        requires
            old(self).wf(),
            !old(self).terminal_view(),
            old(self).offset_view() + 1 < STEPS_SIZE,
            1 <= STEP_CAPACITY - old(self).offset_view() % (STEP_CAPACITY as nat),
        ensures
            final(self).wf(),
            final(self).terminal_view() == old(self).terminal_view(),
            final(self).same_registries(old(self)),
            final(self).offset_view() == old(self).offset_view() + 1,
            final(self).code_view() == splice(
                old(self).code_view(),
                old(self).offset_view() as int,
                seq![value as u8],
            ),
    {
        let bytes = [value as u8];
        assert(bytes@ =~= seq![value as u8]);
        self.extend(&bytes);
    }

    /// Writes the little-endian bytes of `value`.
    pub fn push_i32(&mut self, value: i32)
        requires
            old(self).wf(),
            !old(self).terminal_view(),
            old(self).offset_view() + 4 < STEPS_SIZE,
            4 <= STEP_CAPACITY - old(self).offset_view() % (STEP_CAPACITY as nat),
        ensures
            final(self).wf(),
            final(self).terminal_view() == old(self).terminal_view(),
            final(self).same_registries(old(self)),
            final(self).offset_view() == old(self).offset_view() + 4,
            final(self).code_view() == splice(
                old(self).code_view(),
                old(self).offset_view() as int,
                spec_u32_to_le_bytes(value as u32),
            ),
    {
        let bytes = u32_to_le_bytes(value as u32);
        self.extend(bytes.as_slice());
    }

    /// Applies one relocation towards `target`.
    fn apply_patch(&mut self, patch: &Patch, target: usize, base_addr: usize) -> (r: Result<(), RelocationError>)
        requires
            old(self).wf(),
            valid_patch_fields(patch_fields(*patch)),
        ensures
            final(self).wf(),
            final(self).terminal_view() == old(self).terminal_view(),
            final(self).same_registries(old(self)),
            final(self).offset_view() == old(self).offset_view(),
            match spec_apply_patch(old(self).code_view(), patch_fields(*patch), Some(target), base_addr) {
                Ok(c) => r is Ok && final(self).code_view() == c,
                Err(e) => r == Err::<(), RelocationError>(e),
            },
    {
        let (location, target_offset, field_offset, ref_offset) = patch_offsets(patch);
        let kind = patch_kind(patch);
        let size = patch_size(patch);
        if field_offset as usize > location {
            return Err(RelocationError::OutOfRange);
        }
        if location - field_offset as usize > self.code.len() || size > self.code.len() - (location
            - field_offset as usize) {
            return Err(RelocationError::OutOfRange);
        }
        let (start, _end) = patch_range(patch);
        if (kind == 0 || kind == 2) && ref_offset as usize > location {
            return Err(RelocationError::Impossible);
        }
        let raw: usize = if kind == 0 {
            target.wrapping_sub(location - ref_offset as usize)
        } else if kind == 1 {
            target.wrapping_add(base_addr)
        } else if kind == 2 {
            target.wrapping_sub(location - ref_offset as usize).wrapping_sub(base_addr)
        } else {
            target
        };
        if (#[verifier::truncate] (raw as isize)).checked_add(target_offset).is_none() {
            return Err(RelocationError::Impossible);
        }
        if patch_apply(patch, &mut self.code, start, base_addr, target) {
            Ok(())
        } else {
            Err(RelocationError::Impossible)
        }
    }

    /// Patches every pending relocation with the offset of its label, the step
    /// table being placed at `base_addr`: first those towards static labels,
    /// then those towards dynamic labels, each in registration order. Stops at
    /// the first that cannot be applied.
    pub fn apply_relocations(&mut self, base_addr: usize) -> (r: Result<(), RelocationError>)
        requires
            old(self).wf(),
        ensures
            final(self).offset_view() == old(self).offset_view(),
            final(self).terminal_view() == old(self).terminal_view(),
            match spec_apply_statics(
                old(self).code_view(),
                old(self).static_relocations(),
                old(self).static_label_defs(),
                base_addr,
            ) {
                Err(e) => r == Err::<(), RelocationError>(e),
                Ok(c) => match spec_apply_dynamics(
                    c,
                    old(self).dynamic_relocations(),
                    old(self).dynamic_labels(),
                    base_addr,
                ) {
                    Err(e) => r == Err::<(), RelocationError>(e),
                    Ok(c2) => {
                        &&& r is Ok
                        &&& final(self).wf()
                        &&& final(self).code_view() == c2
                        &&& final(self).static_relocations().len() == 0
                        &&& final(self).dynamic_relocations().len() == 0
                    },
                },
            },
    {
        let ghost statics = self.static_relocations();
        let ghost dynamics = self.dynamic_relocations();
        let ghost code0 = self.code_view();
        let taken = take_statics(&mut self.relocs);
        let mut i: usize = 0;
        while i < taken.len()
            invariant
                self.wf(),
                0 <= i <= taken@.len(),
                taken@.len() == statics.len(),
                forall|k: int|
                    0 <= k < taken@.len() ==> (patch_fields(#[trigger] taken@[k].0), static_label_key(
                        taken@[k].1,
                    )) == statics[k],
                static_relocs_valid(statics),
                statics == old(self).static_relocations(),
                dynamics == old(self).dynamic_relocations(),
                code0 == old(self).code_view(),
                self.offset_view() == old(self).offset_view(),
                self.terminal_view() == old(self).terminal_view(),
                self.static_label_defs() == old(self).static_label_defs(),
                self.dynamic_labels() == old(self).dynamic_labels(),
                self.static_relocations().len() == 0,
                self.dynamic_relocations() == dynamics,
                spec_apply_statics(code0, statics.take(i as int), self.static_label_defs(), base_addr)
                    == Ok::<Seq<u8>, RelocationError>(self.code_view()),
            decreases taken@.len() - i,
        {
            assert(statics.take(i + 1).drop_last() =~= statics.take(i as int));
            assert(statics.take(i + 1).last() == statics[i as int]);
            let target = match resolve_static(&self.labels, &taken[i].1) {
                Some(t) => t,
                None => {
                    proof {
                        assert((patch_fields(taken@[i as int].0), static_label_key(taken@[i as int].1))
                            == statics[i as int]);
                        assert(!self.static_label_defs().contains_key(statics[i as int].1));
                        assert(spec_apply_statics(code0, statics.take(i + 1), self.static_label_defs(), base_addr)
                            == Err::<Seq<u8>, RelocationError>(RelocationError::UnknownLabel));
                        lemma_apply_statics_err(code0, statics, self.static_label_defs(), base_addr, i + 1);
                    }
                    return Err(RelocationError::UnknownLabel);
                },
            };
            proof {
                assert((patch_fields(taken@[i as int].0), static_label_key(taken@[i as int].1))
                    == statics[i as int]);
            }
            let res = self.apply_patch(&taken[i].0, target, base_addr);
            if res.is_err() {
                proof {
                    assert(spec_apply_statics(code0, statics.take(i + 1), self.static_label_defs(), base_addr)
                        == Err::<Seq<u8>, RelocationError>(res->Err_0));
                    lemma_apply_statics_err(code0, statics, self.static_label_defs(), base_addr, i + 1);
                }
                return res;
            }
            i += 1;
        }
        assert(statics.take(i as int) =~= statics);
        let ghost code1 = self.code_view();
        let taken = take_dynamics(&mut self.relocs);
        let mut i: usize = 0;
        while i < taken.len()
            invariant
                self.wf(),
                0 <= i <= taken@.len(),
                taken@.len() == dynamics.len(),
                forall|k: int|
                    0 <= k < taken@.len() ==> (patch_fields(#[trigger] taken@[k].0), dynamic_label_id(
                        taken@[k].1,
                    )) == dynamics[k],
                dynamic_relocs_valid(dynamics),
                dynamics == old(self).dynamic_relocations(),
                spec_apply_statics(
                    old(self).code_view(),
                    old(self).static_relocations(),
                    old(self).static_label_defs(),
                    base_addr,
                ) == Ok::<Seq<u8>, RelocationError>(code1),
                self.offset_view() == old(self).offset_view(),
                self.terminal_view() == old(self).terminal_view(),
                self.dynamic_labels() == old(self).dynamic_labels(),
                self.static_relocations().len() == 0,
                self.dynamic_relocations().len() == 0,
                spec_apply_dynamics(code1, dynamics.take(i as int), self.dynamic_labels(), base_addr)
                    == Ok::<Seq<u8>, RelocationError>(self.code_view()),
            decreases taken@.len() - i,
        {
            assert(dynamics.take(i + 1).drop_last() =~= dynamics.take(i as int));
            assert(dynamics.take(i + 1).last() == dynamics[i as int]);
            let target = match resolve_dynamic(&self.labels, taken[i].1) {
                Some(t) => t,
                None => {
                    proof {
                        assert((patch_fields(taken@[i as int].0), dynamic_label_id(taken@[i as int].1))
                            == dynamics[i as int]);
                        assert(spec_apply_dynamics(code1, dynamics.take(i + 1), self.dynamic_labels(), base_addr)
                            == Err::<Seq<u8>, RelocationError>(RelocationError::UnknownLabel));
                        lemma_apply_dynamics_err(code1, dynamics, self.dynamic_labels(), base_addr, i + 1);
                    }
                    return Err(RelocationError::UnknownLabel);
                },
            };
            proof {
                assert((patch_fields(taken@[i as int].0), dynamic_label_id(taken@[i as int].1))
                    == dynamics[i as int]);
            }
            let res = self.apply_patch(&taken[i].0, target, base_addr);
            if res.is_err() {
                proof {
                    assert(spec_apply_dynamics(code1, dynamics.take(i + 1), self.dynamic_labels(), base_addr)
                        == Err::<Seq<u8>, RelocationError>(res->Err_0));
                    lemma_apply_dynamics_err(code1, dynamics, self.dynamic_labels(), base_addr, i + 1);
                }
                return res;
            }
            i += 1;
        }
        assert(dynamics.take(i as int) =~= dynamics);
        Ok(())
    }

    /// Records a relocation at the cursor towards the next definition of local
    /// label `name`.
    pub fn forward_reloc(
        &mut self,
        name: &'static str,
        target_offset: isize,
        field_offset: u8,
        ref_offset: u8,
        kind: u8,
    )
        requires
            old(self).wf(),
            kind % 64 < 4,
            old(self).label_versions().contains_key(name@) ==> old(self).label_versions()[name@]
                < usize::MAX,
        ensures
            final(self).wf(),
            final(self).terminal_view() == old(self).terminal_view(),
            final(self).code_view() == old(self).code_view(),
            final(self).offset_view() == old(self).offset_view(),
            final(self).dynamic_labels() == old(self).dynamic_labels(),
            final(self).static_label_defs() == old(self).static_label_defs(),
            final(self).label_versions() == old(self).label_versions(),
            final(self).dynamic_relocations() == old(self).dynamic_relocations(),
            final(self).static_relocations() == old(self).static_relocations().push(
                (
                    (
                        old(self).offset_view() as usize,
                        target_offset,
                        field_offset,
                        ref_offset,
                        kind / 64,
                        size_of_class(kind),
                    ),
                    forward_label_key(old(self).label_versions(), name@),
                ),
            ),
    {
        let location = self.offset;
        let label = match place_local_reference(&self.labels, name) {
            Some(label) => static_label_next(label),
            None => static_label_first(name),
        };
        let reloc = relocation_from_encoding(kind);
        let patchloc = new_patch(location, target_offset, field_offset, ref_offset, reloc);
        add_static(&mut self.relocs, label, patchloc);
        assert(static_relocs_valid(self.static_relocations())) by {
            assert forall|i: int| 0 <= i < self.static_relocations().len() implies valid_patch_fields(
                #[trigger] self.static_relocations()[i].0,
            ) by {
                if i < old(self).static_relocations().len() {
                    assert(self.static_relocations()[i] == old(self).static_relocations()[i]);
                }
            }
        }
        assert(self.static_relocations().last().0 == (
            location,
            target_offset,
            field_offset,
            ref_offset,
            kind / 64,
            size_of_class(kind),
        ));
    }

    /// Records a relocation at the cursor towards global label `name`.
    pub fn global_reloc(
        &mut self,
        name: &'static str,
        target_offset: isize,
        field_offset: u8,
        ref_offset: u8,
        kind: u8,
    )
        requires
            old(self).wf(),
            kind % 64 < 4,
        ensures
            final(self).wf(),
            final(self).terminal_view() == old(self).terminal_view(),
            final(self).code_view() == old(self).code_view(),
            final(self).offset_view() == old(self).offset_view(),
            final(self).dynamic_labels() == old(self).dynamic_labels(),
            final(self).static_label_defs() == old(self).static_label_defs(),
            final(self).label_versions() == old(self).label_versions(),
            final(self).dynamic_relocations() == old(self).dynamic_relocations(),
            final(self).static_relocations() == old(self).static_relocations().push(
                (
                    (
                        old(self).offset_view() as usize,
                        target_offset,
                        field_offset,
                        ref_offset,
                        kind / 64,
                        size_of_class(kind),
                    ),
                    (name@, 0usize),
                ),
            ),
    {
        let location = self.offset;
        let label = static_label_global(name);
        let reloc = relocation_from_encoding(kind);
        let patchloc = new_patch(location, target_offset, field_offset, ref_offset, reloc);
        add_static(&mut self.relocs, label, patchloc);
        assert(static_relocs_valid(self.static_relocations())) by {
            assert forall|i: int| 0 <= i < self.static_relocations().len() implies valid_patch_fields(
                #[trigger] self.static_relocations()[i].0,
            ) by {
                if i < old(self).static_relocations().len() {
                    assert(self.static_relocations()[i] == old(self).static_relocations()[i]);
                }
            }
        }
    }

    /// Records a relocation at the cursor towards dynamic label `id`.
    pub fn dynamic_reloc(
        &mut self,
        id: DynamicLabel,
        target_offset: isize,
        field_offset: u8,
        ref_offset: u8,
        kind: u8,
    )
        requires
            old(self).wf(),
            kind % 64 < 4,
        ensures
            final(self).wf(),
            final(self).terminal_view() == old(self).terminal_view(),
            final(self).code_view() == old(self).code_view(),
            final(self).offset_view() == old(self).offset_view(),
            final(self).dynamic_labels() == old(self).dynamic_labels(),
            final(self).static_label_defs() == old(self).static_label_defs(),
            final(self).label_versions() == old(self).label_versions(),
            final(self).static_relocations() == old(self).static_relocations(),
            final(self).dynamic_relocations() == old(self).dynamic_relocations().push(
                (
                    (
                        old(self).offset_view() as usize,
                        target_offset,
                        field_offset,
                        ref_offset,
                        kind / 64,
                        size_of_class(kind),
                    ),
                    dynamic_label_id(id),
                ),
            ),
    {
        let location = self.offset;
        let reloc = relocation_from_encoding(kind);
        let patchloc = new_patch(location, target_offset, field_offset, ref_offset, reloc);
        add_dynamic(&mut self.relocs, id, patchloc);
        assert(dynamic_relocs_valid(self.dynamic_relocations())) by {
            assert forall|i: int| 0 <= i < self.dynamic_relocations().len() implies valid_patch_fields(
                #[trigger] self.dynamic_relocations()[i].0,
            ) by {
                if i < old(self).dynamic_relocations().len() {
                    assert(self.dynamic_relocations()[i] == old(self).dynamic_relocations()[i]);
                }
            }
        }
    }

    /// A new, undefined dynamic label.
    pub fn new_dynamic_label(&mut self) -> (id: DynamicLabel)
        requires
            old(self).wf(),
        ensures
            final(self).wf(),
            final(self).terminal_view() == old(self).terminal_view(),
            final(self).code_view() == old(self).code_view(),
            final(self).offset_view() == old(self).offset_view(),
            dynamic_label_id(id) == old(self).dynamic_labels().len(),
            final(self).dynamic_labels() == old(self).dynamic_labels().push(None),
            final(self).static_label_defs() == old(self).static_label_defs(),
            final(self).label_versions() == old(self).label_versions(),
            final(self).static_relocations() == old(self).static_relocations(),
            final(self).dynamic_relocations() == old(self).dynamic_relocations(),
    {
        new_dynamic_label(&mut self.labels)
    }

    /// Defines the next version of local label `name` at the cursor.
    pub fn local_label(&mut self, name: &'static str)
        requires
            old(self).wf(),
            old(self).label_versions().contains_key(name@) ==> old(self).label_versions()[name@]
                < usize::MAX,
        ensures
            final(self).wf(),
            final(self).terminal_view() == old(self).terminal_view(),
            final(self).code_view() == old(self).code_view(),
            final(self).offset_view() == old(self).offset_view(),
            final(self).dynamic_labels() == old(self).dynamic_labels(),
            ({
                let version = next_local_version(old(self).label_versions(), name@);
                &&& final(self).label_versions() == old(self).label_versions().insert(name@, version)
                &&& final(self).static_label_defs() == old(self).static_label_defs().insert(
                    (name@, version),
                    old(self).offset_view() as usize,
                )
            }),
            final(self).static_relocations() == old(self).static_relocations(),
            final(self).dynamic_relocations() == old(self).dynamic_relocations(),
    {
        define_local(&mut self.labels, name, self.offset);
    }

    /// Defines dynamic label `id` at the cursor, when it exists and is not
    /// defined yet (`true`); otherwise changes nothing (`false`).
    pub fn dynamic_label(&mut self, id: DynamicLabel) -> (defined: bool)
        requires
            old(self).wf(),
        ensures
            defined == (dynamic_label_id(id) < old(self).dynamic_labels().len()
                && old(self).dynamic_labels()[dynamic_label_id(id) as int] is None),
            final(self).wf(),
            final(self).terminal_view() == old(self).terminal_view(),
            final(self).code_view() == old(self).code_view(),
            final(self).offset_view() == old(self).offset_view(),
            defined ==> final(self).dynamic_labels() == old(self).dynamic_labels().update(
                dynamic_label_id(id) as int,
                Some(old(self).offset_view() as usize),
            ),
            !defined ==> final(self).dynamic_labels() == old(self).dynamic_labels(),
            final(self).static_label_defs() == old(self).static_label_defs(),
            final(self).label_versions() == old(self).label_versions(),
            final(self).static_relocations() == old(self).static_relocations(),
            final(self).dynamic_relocations() == old(self).dynamic_relocations(),
    {
        define_dynamic(&mut self.labels, id, self.offset)
    }

    /// Whether the code of the current step has ended.
    pub fn is_terminal(&self) -> (r: bool)
        ensures
            r == self.terminal_view(),
    {
        self.terminal
    }

    /// Records whether the code of the current step has ended.
    pub fn set_terminal(&mut self, terminal: bool)
        requires
            old(self).wf(),
        ensures
            final(self).wf(),
            final(self).terminal_view() == terminal,
            final(self).same_registries(old(self)),
            final(self).code_view() == old(self).code_view(),
            final(self).offset_view() == old(self).offset_view(),
    {
        self.terminal = terminal;
    }
}

} // verus!
