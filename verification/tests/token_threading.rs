use rand::rngs::SmallRng;
use rand::SeedableRng;
use solana_sbpf::ebpf;
use solana_sbpf::token_threading::{
    check_jumps, check_template_table, compile, compile_with_rng, get_instruction_template_metas,
    instruction_template_meta,
    read_program, syscall_resolver, EbpfError, DECRYPT_PATTERN, IMM_PATTERN, OFF_PATTERN,
    TEMPLATE_COUNT, TEMPLATE_SLOT,
};
use std::collections::BTreeMap;

const EPILOG: [u8; 4] = [0xCC, 0x0F, 0x0B, 0xCC];

fn slot(body: &[u8]) -> Vec<u8> {
    let mut s = body.to_vec();
    s.extend_from_slice(&EPILOG);
    s.resize(TEMPLATE_SLOT, 0);
    s
}

fn add64_imm_template() -> Vec<u8> {
    let mut t = vec![0x48, 0x05];
    t.extend_from_slice(&IMM_PATTERN.to_le_bytes());
    t.push(0xB9);
    t.extend_from_slice(&DECRYPT_PATTERN.to_le_bytes());
    t
}

fn ja_template() -> Vec<u8> {
    let mut t = vec![0xE9];
    t.extend_from_slice(&OFF_PATTERN.to_le_bytes());
    t
}

fn lddw_template() -> Vec<u8> {
    let mut t = vec![0x48, 0xB8];
    t.extend_from_slice(&IMM_PATTERN.to_le_bytes());
    t
}

/// A template table where every encoding is invalid but `ADD64_IMM`, `JA`,
/// `EXIT` and `LD_DW_IMM`, all with register fields zero.
fn table() -> Vec<u8> {
    let invalid = slot(&[0x0F, 0x0B]);
    let mut t = Vec::with_capacity(TEMPLATE_COUNT * TEMPLATE_SLOT);
    for _ in 0..TEMPLATE_COUNT {
        t.extend_from_slice(&invalid);
    }
    let templates = [
        (ebpf::ADD64_IMM, add64_imm_template()),
        (ebpf::JA, ja_template()),
        (ebpf::EXIT, vec![0xC3]),
        (ebpf::LD_DW_IMM, lddw_template()),
    ];
    for (index, body) in templates {
        let at = index as usize * TEMPLATE_SLOT;
        t[at..at + TEMPLATE_SLOT].copy_from_slice(&slot(&body));
    }
    t
}

fn insn(opcode: u8, off: i16, imm: i32) -> u64 {
    opcode as u64 | ((off as u16 as u64) << 16) | ((imm as u32 as u64) << 32)
}

fn text(words: &[u64]) -> Vec<u8> {
    words.iter().flat_map(|w| w.to_le_bytes()).collect()
}

fn i64_at(code: &[u8], at: usize) -> i64 {
    i64::from_le_bytes(code[at..at + 8].try_into().unwrap())
}

fn seeded() -> Option<SmallRng> {
    Some(SmallRng::seed_from_u64(0x5EED))
}

#[test]
fn template_meta_finds_placeholders_before_the_epilog() {
    let mut body = vec![0x90];
    body.extend_from_slice(&IMM_PATTERN.to_le_bytes());
    body.extend_from_slice(&IMM_PATTERN.to_le_bytes());
    body.extend_from_slice(&DECRYPT_PATTERN.to_le_bytes());
    let s = slot(&body);
    let invalid = slot(&[0x0F, 0x0B]);
    let meta = instruction_template_meta(&s, &invalid);
    assert_eq!(meta.template().unwrap().as_slice(), body.as_slice());
    assert_eq!(meta.imm_locations(), [1, 9, 0, 0]);
    assert_eq!(meta.off_locations(), [0, 0, 0, 0]);
    assert_eq!(meta.decrypt_locations(), [17, 0, 0, 0]);
}

#[test]
fn template_meta_of_the_invalid_template_is_empty() {
    let invalid = slot(&[0x0F, 0x0B]);
    let meta = instruction_template_meta(&invalid, &invalid);
    assert!(meta.template().is_none());
    assert_eq!(meta.imm_locations(), [0; 4]);
    assert_eq!(meta.off_locations(), [0; 4]);
    assert_eq!(meta.decrypt_locations(), [0; 4]);
}

#[test]
fn table_metas_follow_slot_order() {
    let t = table();
    let metas = get_instruction_template_metas(&t);
    assert_eq!(metas.len(), TEMPLATE_COUNT);
    let add = &metas[ebpf::ADD64_IMM as usize];
    assert_eq!(add.template().unwrap().as_slice(), add64_imm_template().as_slice());
    assert_eq!(add.imm_locations(), [2, 0, 0, 0]);
    assert_eq!(add.decrypt_locations(), [11, 0, 0, 0]);
    let ja = &metas[ebpf::JA as usize];
    assert_eq!(ja.off_locations(), [1, 0, 0, 0]);
    assert!(metas[0].template().is_none());
    assert!(metas[0x0006].template().is_none());
    assert!(metas[ebpf::ADD64_IMM as usize | 0x0100].template().is_none());
}

#[test]
fn read_program_takes_whole_little_endian_words() {
    let mut bytes = text(&[0x0102030405060708, u64::MAX]);
    bytes.push(0xAA);
    assert_eq!(read_program(&bytes), vec![0x0102030405060708, u64::MAX]);
    assert!(read_program(&[1, 2, 3]).is_empty());
}

#[test]
fn compile_patches_immediates_offsets_and_key() {
    let t = table();
    let program = text(&[insn(ebpf::ADD64_IMM, 0, 5), insn(ebpf::JA, 1, 0), insn(ebpf::EXIT, 0, 0)]);
    let (pc, code) = compile_with_rng(&program, &t, 0, seeded()).unwrap();
    // With a no-op rate of 0 every instruction is followed by a byte of
    // no-op space, in the positions and in the code.
    assert_eq!(pc, vec![0, 16, 26]);
    assert_eq!(code.len(), 15 + 1 + 9 + 1 + 1 + 1);
    let key = i32::from_le_bytes(code[11..15].try_into().unwrap());
    assert_eq!(&code[..2], &[0x48, 0x05]);
    assert_eq!(i64_at(&code, 2), 5i32.wrapping_sub(key) as i64);
    // The template subtracts the key once more when it decodes the field.
    assert_eq!(
        (i64_at(&code, 2) as i32).wrapping_sub(key),
        5i32.wrapping_sub(key.wrapping_mul(2))
    );
    assert_eq!(code[10], 0xB9);
    assert_eq!(code[15], 0x90);
    assert_eq!(code[16], 0xE9);
    // The jump lands on the exit: 26 - 16 bytes ahead.
    assert_eq!(i64_at(&code, 17), 10i32.wrapping_sub(key) as i64);
    assert_eq!(code[25], 0x90);
    assert_eq!(code[26], 0xC3);
    assert_eq!(code[27], 0x90);
}

#[test]
fn compile_joins_the_halves_of_a_wide_load() {
    let t = table();
    let program = text(&[
        insn(ebpf::LD_DW_IMM, 0, 0x1111_1111),
        insn(0, 0, -0x2222_2222),
        insn(ebpf::ADD64_IMM, 0, 0),
        insn(ebpf::EXIT, 0, 0),
    ]);
    let (pc, code) = compile_with_rng(&program, &t, 0, seeded()).unwrap();
    assert_eq!(pc, vec![0, u32::MAX, 11, 27]);
    assert_eq!(code.len(), 10 + 1 + 15 + 1 + 1 + 1);
    assert_eq!(code[11], 0x48);
    assert_eq!(code[27], 0xC3);
    let key = i32::from_le_bytes(code[11 + 11..11 + 15].try_into().unwrap());
    let high = 0x1111_1111i32.wrapping_sub(key) as i64;
    let low = (-0x2222_2222i32).wrapping_sub(key) as i64;
    assert_eq!(i64_at(&code, 2), (high << 32) | low);
}

#[test]
fn compile_without_generator_fails() {
    let t = table();
    let program = text(&[insn(ebpf::EXIT, 0, 0)]);
    assert_eq!(compile_with_rng(&program, &t, 0, None), Err(EbpfError::JitNotCompiled));
}

#[test]
fn compile_rejects_encodings_without_template() {
    let t = table();
    let program = text(&[insn(ebpf::ADD64_IMM, 0, 1), insn(0x06, 0, 0)]);
    assert_eq!(
        compile_with_rng(&program, &t, 0, seeded()),
        Err(EbpfError::InvalidInstruction)
    );
    // Same opcode, another destination register: no template either.
    let other_register = text(&[insn(ebpf::ADD64_IMM, 0, 1) | 0x100]);
    assert_eq!(
        compile_with_rng(&other_register, &t, 0, seeded()),
        Err(EbpfError::InvalidInstruction)
    );
}

#[test]
fn compile_rejects_truncated_wide_load() {
    let t = table();
    let program = text(&[insn(ebpf::EXIT, 0, 0), insn(ebpf::LD_DW_IMM, 0, 7)]);
    assert_eq!(
        compile_with_rng(&program, &t, 0, seeded()),
        Err(EbpfError::InvalidInstruction)
    );
}

#[test]
fn compile_rejects_jump_past_the_end() {
    let t = table();
    let program = text(&[insn(ebpf::JA, 5, 0), insn(ebpf::EXIT, 0, 0)]);
    assert_eq!(
        compile_with_rng(&program, &t, 0, seeded()),
        Err(EbpfError::InvalidInstruction)
    );
}

#[test]
fn compile_of_empty_program_is_empty() {
    let t = table();
    assert_eq!(compile_with_rng(&[], &t, 3, seeded()), Ok((vec![], vec![])));
}

#[test]
fn compile_with_system_seed_gives_the_same_layout() {
    let t = table();
    let program = text(&[insn(ebpf::ADD64_IMM, 0, 5), insn(ebpf::EXIT, 0, 0)]);
    match compile(&program, &t, 0) {
        Ok((pc, code)) => {
            assert_eq!(pc, vec![0, 16]);
            assert_eq!(code.len(), 18);
            assert_eq!(code[15], 0x90);
            assert_eq!(code[16], 0xC3);
            assert_eq!(code[17], 0x90);
        }
        Err(e) => assert_eq!(e, EbpfError::JitNotCompiled),
    }
}

#[test]
fn syscall_resolver_looks_up_registered_keys() {
    let mut registry = BTreeMap::new();
    registry.insert(0x1234_5678u32, 0x7000_0000u64);
    registry.insert(1, 0x10);
    assert_eq!(syscall_resolver(&registry, 0x1234_5678), Ok(0x7000_0000));
    assert_eq!(syscall_resolver(&registry, 1), Ok(0x10));
    assert_eq!(syscall_resolver(&registry, 2), Err(EbpfError::UnsupportedInstruction));
    assert_eq!(
        syscall_resolver(&BTreeMap::new(), 0),
        Err(EbpfError::UnsupportedInstruction)
    );
}

#[test]
fn compile_spaces_no_ops_by_the_rate() {
    let t = table();
    let program = text(&vec![insn(ebpf::EXIT, 0, 0); 64]);
    for seed in 0..8u64 {
        let rng = Some(SmallRng::seed_from_u64(seed));
        let (pc, code) = compile_with_rng(&program, &t, 1, rng).unwrap();
        assert_eq!(pc.len(), 64);
        // Every instruction's code lies at its position; the rest is no-op space.
        for (i, byte) in code.iter().enumerate() {
            let expected = if pc.contains(&(i as u32)) { 0xC3 } else { 0x90 };
            assert_eq!(*byte, expected);
        }
        let last = *pc.last().unwrap() as usize;
        assert!(code.len() == last + 1 || code.len() == last + 2);
        let mut run = 0;
        for pair in pc.windows(2) {
            let gap = pair[1] - pair[0] - 1;
            assert!(gap <= 1);
            if gap == 0 {
                run += 1;
                // At most 2 * rate instructions in a row without no-op space.
                assert!(run <= 2);
            } else {
                run = 0;
            }
        }
    }
    let (pc, _) = compile_with_rng(&program, &t, 0, seeded()).unwrap();
    let expected: Vec<u32> = (0..64).map(|i| 2 * i).collect();
    assert_eq!(pc, expected);
}

#[test]
fn template_table_checker_accepts_scannable_tables_only() {
    let mut t = table();
    assert!(check_template_table(&t));
    assert!(!check_template_table(&t[..TEMPLATE_SLOT]));
    // A slot without an epilog.
    let at = 7 * TEMPLATE_SLOT;
    t[at..at + TEMPLATE_SLOT].copy_from_slice(&[0xAA; TEMPLATE_SLOT]);
    assert!(!check_template_table(&t));
    // A slot with five immediates.
    let mut body = Vec::new();
    for _ in 0..5 {
        body.extend_from_slice(&IMM_PATTERN.to_le_bytes());
    }
    t[at..at + TEMPLATE_SLOT].copy_from_slice(&slot(&body));
    assert!(!check_template_table(&t));
}

#[test]
fn jump_checker_refuses_a_jump_to_the_end() {
    let t = table();
    let metas = get_instruction_template_metas(&t);
    let inside = text(&[insn(ebpf::JA, 1, 0), insn(ebpf::EXIT, 0, 0)]);
    assert!(check_jumps(&inside, &metas));
    let past = text(&[insn(ebpf::JA, 5, 0), insn(ebpf::EXIT, 0, 0)]);
    assert!(check_jumps(&past, &metas));
    let to_end = text(&[insn(ebpf::JA, 2, 0), insn(ebpf::EXIT, 0, 0)]);
    assert!(!check_jumps(&to_end, &metas));
}

#[test]
fn compilations_at_rate_zero_differ_only_in_placeholders() {
    let t = table();
    let program = text(&[insn(ebpf::ADD64_IMM, 0, 5), insn(ebpf::JA, 1, 0), insn(ebpf::EXIT, 0, 0)]);
    let (pc1, code1) = compile_with_rng(&program, &t, 0, Some(SmallRng::seed_from_u64(1))).unwrap();
    let (pc2, code2) = compile_with_rng(&program, &t, 0, Some(SmallRng::seed_from_u64(2))).unwrap();
    assert_eq!(pc1, pc2);
    assert_eq!(code1.len(), code2.len());
    // Placeholders: the immediate (2..10) and key (11..15) of the addition,
    // the offset of the jump (17..25).
    for i in 0..code1.len() {
        let placeholder = (2..10).contains(&i) || (11..15).contains(&i) || (17..25).contains(&i);
        if !placeholder {
            assert_eq!(code1[i], code2[i]);
        }
    }
}
