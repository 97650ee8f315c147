use solana_sbpf::codegen::x64::{
    bpf_insn_template, disposable_reg, epilogue, gpreg, interpreter_step, step_for_index,
    step_template, AluOp,
    Cond, Operand, ShiftOp, Width, X64Insn, RAX, RBP, RBX, RCX, RDI, RDX, REG_INSN, REG_TEMP,
    RSI, RSP, STEP_SIZE_LOG2,
};
use solana_sbpf::ebpf;

const BASE: i32 = 0x1000_0000;

fn dispatch() -> Vec<X64Insn> {
    vec![
        X64Insn::LoadOpcode(REG_TEMP),
        X64Insn::ShlImm(REG_TEMP, STEP_SIZE_LOG2),
        X64Insn::LeaBase(REG_TEMP, BASE),
        X64Insn::JmpReg(REG_TEMP),
    ]
}

fn with_epilogue(mut insns: Vec<X64Insn>) -> Vec<X64Insn> {
    insns.push(X64Insn::AddImm(REG_INSN, 8));
    insns.extend(dispatch());
    insns
}

fn taken_branch() -> Vec<X64Insn> {
    let mut insns = vec![
        X64Insn::LoadInsnOffset(REG_TEMP),
        X64Insn::SkipInsns(REG_TEMP),
        X64Insn::DefineFallthrough,
    ];
    insns.extend(dispatch());
    insns
}

#[test]
fn register_map_is_the_documented_one() {
    assert_eq!(gpreg(0), RSI);
    assert_eq!(gpreg(1), RDI);
    for reg in 2..10 {
        assert_eq!(gpreg(reg) as usize, reg + 6);
    }
    assert_eq!(gpreg(10), RBX);
    assert_eq!(gpreg(11), u8::MAX);
    assert_eq!(gpreg(15), u8::MAX);
}

#[test]
fn register_map_is_injective_and_avoids_reserved_registers() {
    let regs: Vec<u8> = (0..11).map(gpreg).collect();
    for (i, a) in regs.iter().enumerate() {
        assert!(*a != RAX && *a != RCX && *a != RDX && *a != RSP && *a != RBP);
        for b in regs.iter().skip(i + 1) {
            assert_ne!(a, b);
        }
    }
}

#[test]
fn disposable_registers_are_temp_and_rdx() {
    assert!(disposable_reg(REG_TEMP));
    assert!(disposable_reg(RDX));
    assert!(!disposable_reg(RAX));
    assert!(!disposable_reg(RSI));
    assert!(!disposable_reg(RBX));
}

#[test]
fn add64_imm_sign_extends_the_immediate() {
    let t = bpf_insn_template(ebpf::ADD64_IMM, 8, 9, BASE);
    assert!(!t.terminal);
    assert_eq!(
        t.insns,
        vec![
            X64Insn::Movsxd(REG_TEMP, Operand::InsnImm),
            X64Insn::Alu(AluOp::Add, Width::Qword, 8, Operand::Reg(REG_TEMP)),
        ]
    );
}

#[test]
fn add32_reg_truncates_and_sign_extends() {
    let t = bpf_insn_template(ebpf::ADD32_REG, 8, 9, BASE);
    assert_eq!(
        t.insns,
        vec![
            X64Insn::Alu(AluOp::Add, Width::Dword, 8, Operand::Reg(9)),
            X64Insn::Movsxd(8, Operand::Reg(8)),
        ]
    );
}

#[test]
fn moves_and_ors_onto_themselves_generate_nothing() {
    assert!(bpf_insn_template(ebpf::MOV64_REG, 8, 8, BASE).insns.is_empty());
    assert!(bpf_insn_template(ebpf::OR64_REG, 8, 8, BASE).insns.is_empty());
    assert!(bpf_insn_template(ebpf::AND64_REG, 8, 8, BASE).insns.is_empty());
    assert_eq!(
        bpf_insn_template(ebpf::XOR64_REG, 8, 8, BASE).insns,
        vec![X64Insn::Alu(AluOp::Xor, Width::Qword, 8, Operand::Reg(8))]
    );
    assert_eq!(
        bpf_insn_template(ebpf::MOV64_REG, 8, 9, BASE).insns,
        vec![X64Insn::Mov(Width::Qword, 8, Operand::Reg(9))]
    );
}

#[test]
fn division_saves_rax_and_selects_quotient_or_remainder() {
    let div = bpf_insn_template(ebpf::DIV64_REG, 8, 9, BASE);
    assert_eq!(
        div.insns,
        vec![
            X64Insn::Movsxd(REG_TEMP, Operand::Reg(9)),
            X64Insn::SaveRax,
            X64Insn::Mov(Width::Dword, RAX, Operand::Reg(8)),
            X64Insn::Alu(AluOp::Xor, Width::Dword, RDX, Operand::Reg(RDX)),
            X64Insn::Div(Width::Qword, REG_TEMP),
            X64Insn::Mov(Width::Qword, 8, Operand::Reg(RAX)),
            X64Insn::RestoreRax,
        ]
    );
    let rem = bpf_insn_template(ebpf::MOD32_IMM, 8, 9, BASE);
    assert_eq!(rem.insns[4], X64Insn::Div(Width::Dword, REG_TEMP));
    assert_eq!(rem.insns[5], X64Insn::Mov(Width::Dword, 8, Operand::Reg(RDX)));
    assert_eq!(rem.insns[0], X64Insn::Movsxd(REG_TEMP, Operand::InsnImm));
}

#[test]
fn shifts_go_through_cl() {
    let t = bpf_insn_template(ebpf::RSH64_REG, 8, 9, BASE);
    assert_eq!(
        t.insns,
        vec![
            X64Insn::Mov(Width::Byte, RCX, Operand::Reg(9)),
            X64Insn::ShiftCl(ShiftOp::Shr, Width::Qword, 8),
        ]
    );
}

#[test]
fn exit_returns_and_keeps_the_epilogue() {
    let t = bpf_insn_template(ebpf::EXIT, RSI, RSI, BASE);
    assert!(!t.terminal);
    assert_eq!(t.insns, vec![X64Insn::Ret]);
}

#[test]
fn calls_and_memory_operations_trap() {
    for op in [ebpf::CALL_IMM, ebpf::LD_DW_IMM, ebpf::ST_W_IMM, ebpf::LD_B_REG, ebpf::SREM64_REG] {
        let t = bpf_insn_template(op, 8, 9, BASE);
        assert!(!t.terminal);
        assert_eq!(t.insns, vec![X64Insn::Int3]);
    }
}

#[test]
fn invalid_opcode_leaves_the_interpreter() {
    for op in [0u8, 0x06, 0xff, 0x8c] {
        let t = bpf_insn_template(op, 8, 9, BASE);
        assert!(t.terminal);
        assert_eq!(
            t.insns,
            vec![X64Insn::Mov(Width::Qword, RSP, Operand::Reg(RBP)), X64Insn::Ret]
        );
    }
}

#[test]
fn unconditional_jump_takes_the_branch() {
    let t = bpf_insn_template(ebpf::JA, 8, 9, BASE);
    assert!(t.terminal);
    assert_eq!(t.insns, taken_branch());
}

#[test]
fn conditional_jump_compares_low_half_with_immediate() {
    let t = bpf_insn_template(ebpf::JEQ64_REG, RSI, RDI, BASE);
    assert!(t.terminal);
    let mut expected = vec![
        X64Insn::Alu(AluOp::Cmp, Width::Dword, RSI, Operand::InsnImm),
        X64Insn::JccFallthrough(Cond::Ne),
    ];
    expected.extend(taken_branch());
    assert_eq!(t.insns, expected);
    let gt = bpf_insn_template(ebpf::JSGT32_IMM, RSI, RDI, BASE);
    assert_eq!(gt.insns[1], X64Insn::JccFallthrough(Cond::Le));
}

#[test]
fn epilogue_advances_and_dispatches() {
    let mut out = vec![X64Insn::Int3];
    epilogue(&mut out, BASE);
    assert_eq!(out, with_epilogue(vec![X64Insn::Int3]));
}

#[test]
fn interpreter_step_appends_epilogue_unless_terminal() {
    assert_eq!(
        interpreter_step(ebpf::EXIT, RSI, RSI, BASE),
        with_epilogue(vec![X64Insn::Ret])
    );
    assert_eq!(interpreter_step(ebpf::JA, RSI, RSI, BASE), taken_branch());
}

#[test]
fn step_index_selects_opcode_then_dst_then_src() {
    // Opcode ADD64_REG, destination register 2, source register 1.
    let index: u16 = 0x1000 | 0x0200 | ebpf::ADD64_REG as u16;
    assert_eq!(
        step_for_index(index, BASE),
        with_epilogue(vec![X64Insn::Alu(AluOp::Add, Width::Qword, 8, Operand::Reg(RDI))])
    );
}

#[test]
fn step_index_with_unknown_register_uses_placeholder() {
    let index: u16 = 0xB000 | ebpf::ADD64_REG as u16;
    assert_eq!(
        step_for_index(index, BASE),
        with_epilogue(vec![X64Insn::Alu(
            AluOp::Add,
            Width::Qword,
            RSI,
            Operand::Reg(u8::MAX)
        )])
    );
}

#[test]
fn every_step_ends_in_return_or_jump() {
    for index in (0..=u16::MAX).step_by(97) {
        let step = step_for_index(index, BASE);
        let last = *step.last().unwrap();
        assert!(last == X64Insn::Ret || last == X64Insn::JmpReg(REG_TEMP));
    }
}

#[test]
fn step_template_decodes_the_index() {
    let exit = step_template(ebpf::EXIT as u16, BASE);
    assert!(!exit.terminal);
    assert_eq!(exit.insns, vec![X64Insn::Ret]);
    let ja = step_template(0x2300 | ebpf::JA as u16, BASE);
    assert!(ja.terminal);
    assert_eq!(ja.insns, taken_branch());
    let invalid = step_template(0x00FF, BASE);
    assert!(invalid.terminal);
}
