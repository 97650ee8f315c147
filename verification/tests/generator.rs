use solana_sbpf::codegen::x64::{
    InterpreterGenerator, RelocationError, HELPERS_SIZE, STEPS_SIZE, STEP_CAPACITY,
};

/// Encoding of a relative relocation of a 4-byte field.
const REL32: u8 = 2;
/// Encoding of an absolute relocation of an 8-byte field.
const ABS64: u8 = 0xC0 | 3;

#[test]
fn new_generator_is_zeroed_with_cursor_at_start() {
    let g = InterpreterGenerator::new();
    assert_eq!(g.offset(), 0);
    assert_eq!(g.code().len(), STEPS_SIZE + HELPERS_SIZE);
    assert!(g.code()[..256].iter().all(|b| *b == 0));
    assert_eq!(g.code()[STEPS_SIZE + HELPERS_SIZE - 1], 0);
}

#[test]
fn extend_writes_at_the_cursor() {
    let mut g = InterpreterGenerator::new();
    g.extend(&[1, 2, 3]);
    g.push(4);
    g.push_i8(-1);
    g.push_i32(-2);
    assert_eq!(g.offset(), 9);
    assert_eq!(&g.code()[..10], &[1, 2, 3, 4, 0xFF, 0xFE, 0xFF, 0xFF, 0xFF, 0]);
}

#[test]
fn align_pads_to_the_next_step() {
    let mut g = InterpreterGenerator::new();
    g.extend(&[0xC3]);
    g.align(STEP_CAPACITY, 0x90);
    assert_eq!(g.offset(), 64);
    assert_eq!(g.code()[0], 0xC3);
    assert!(g.code()[1..64].iter().all(|b| *b == 0x90));
    assert_eq!(g.code()[64], 0);
}

#[test]
fn align_of_aligned_cursor_pads_a_whole_step() {
    let mut g = InterpreterGenerator::new();
    g.align(STEP_CAPACITY, 0xCC);
    assert_eq!(g.offset(), 64);
    g.align(STEP_CAPACITY, 0xCC);
    assert_eq!(g.offset(), 128);
    assert!(g.code()[..128].iter().all(|b| *b == 0xCC));
}

#[test]
fn dynamic_label_relocation_is_patched_relative() {
    let mut g = InterpreterGenerator::new();
    let target = g.new_dynamic_label();
    // jmp rel32 towards `target`: the field ends at the cursor.
    g.extend(&[0xE9, 0, 0, 0, 0]);
    g.dynamic_reloc(target, 0, 4, 0, REL32);
    g.align(STEP_CAPACITY, 0x90);
    assert!(g.dynamic_label(target));
    assert_eq!(g.apply_relocations(0x4000_0000), Ok(()));
    // 64 - 5 = 59.
    assert_eq!(&g.code()[..5], &[0xE9, 59, 0, 0, 0]);
}

#[test]
fn forward_local_label_relocation_targets_next_definition() {
    let mut g = InterpreterGenerator::new();
    g.local_label("step");
    g.extend(&[0xE9, 0, 0, 0, 0]);
    g.forward_reloc("step", 0, 4, 0, REL32);
    g.align(STEP_CAPACITY, 0x90);
    g.local_label("step");
    assert_eq!(g.apply_relocations(0), Ok(()));
    assert_eq!(&g.code()[..5], &[0xE9, 59, 0, 0, 0]);
}

#[test]
fn backward_distances_are_negative() {
    let mut g = InterpreterGenerator::new();
    let back = g.new_dynamic_label();
    assert!(g.dynamic_label(back));
    g.align(STEP_CAPACITY, 0x90);
    g.extend(&[0xE9, 0, 0, 0, 0]);
    g.dynamic_reloc(back, 0, 4, 0, REL32);
    assert_eq!(g.apply_relocations(0), Ok(()));
    // 0 - 69 = -69.
    let mut expected = vec![0xE9];
    expected.extend_from_slice(&(-69i32).to_le_bytes());
    assert_eq!(&g.code()[64..69], &expected[..]);
}

#[test]
fn absolute_relocation_writes_the_offset() {
    let mut g = InterpreterGenerator::new();
    let target = g.new_dynamic_label();
    g.extend(&[0u8; 8]);
    g.dynamic_reloc(target, 0, 8, 0, ABS64);
    g.align(STEP_CAPACITY, 0x90);
    assert!(g.dynamic_label(target));
    assert_eq!(g.apply_relocations(0x1234), Ok(()));
    assert_eq!(&g.code()[..8], &64u64.to_le_bytes());
}

#[test]
fn relocation_towards_undefined_global_label_fails() {
    let mut g = InterpreterGenerator::new();
    g.extend(&[0xE9, 0, 0, 0, 0]);
    g.global_reloc("nowhere", 0, 4, 0, REL32);
    assert_eq!(g.apply_relocations(0), Err(RelocationError::UnknownLabel));
}

#[test]
fn relocation_towards_undefined_dynamic_label_fails() {
    let mut g = InterpreterGenerator::new();
    let never = g.new_dynamic_label();
    g.extend(&[0xE9, 0, 0, 0, 0]);
    g.dynamic_reloc(never, 0, 4, 0, REL32);
    assert_eq!(g.apply_relocations(0), Err(RelocationError::UnknownLabel));
}

#[test]
fn distance_too_far_for_the_field_is_impossible() {
    let mut g = InterpreterGenerator::new();
    let far = g.new_dynamic_label();
    // A one-byte relative field cannot reach 200 bytes ahead.
    g.extend(&[0xEB, 0]);
    g.dynamic_reloc(far, 0, 1, 0, 0);
    for _ in 0..4 {
        g.align(STEP_CAPACITY, 0x90);
    }
    assert!(g.dynamic_label(far));
    assert_eq!(g.apply_relocations(0), Err(RelocationError::Impossible));
}

#[test]
fn no_relocations_leave_the_code_unchanged() {
    let mut g = InterpreterGenerator::new();
    g.extend(&[1, 2, 3]);
    assert_eq!(g.apply_relocations(0), Ok(()));
    assert_eq!(&g.code()[..4], &[1, 2, 3, 0]);
    assert_eq!(g.offset(), 3);
}

#[test]
fn dynamic_label_is_defined_once() {
    let mut g = InterpreterGenerator::new();
    let label = g.new_dynamic_label();
    assert!(g.dynamic_label(label));
    g.extend(&[1]);
    assert!(!g.dynamic_label(label));
}

#[test]
fn terminal_state_is_recorded_and_kept_by_align() {
    let mut g = InterpreterGenerator::new();
    assert!(!g.is_terminal());
    g.extend(&[0xC3]);
    g.set_terminal(true);
    assert!(g.is_terminal());
    g.align(STEP_CAPACITY, 0x90);
    assert!(g.is_terminal());
    assert_eq!(g.offset(), 64);
    g.set_terminal(false);
    g.push(0x90);
    assert_eq!(g.offset(), 65);
}
