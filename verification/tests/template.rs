use solana_sbpf::codegen::Template;

#[test]
fn template_starts_empty() {
    let t = Template::<16>::new();
    assert_eq!(t.offset(), 0);
    assert!(t.as_slice().is_empty());
}

#[test]
fn template_push_and_extend_append_in_order() {
    let mut t = Template::<16>::new();
    t.push(0x90);
    t.extend(&[1, 2, 3]);
    t.push(0xCC);
    assert_eq!(t.offset(), 5);
    assert_eq!(t.as_slice(), &[0x90, 1, 2, 3, 0xCC]);
}

#[test]
fn template_extend_with_nothing_changes_nothing() {
    let mut t = Template::<4>::new();
    t.push(7);
    t.extend(&[]);
    assert_eq!(t.as_slice(), &[7]);
}

#[test]
fn template_fills_to_capacity() {
    let mut t = Template::<4>::new();
    t.push_u32(0xDEADBEEF);
    assert_eq!(t.offset(), 4);
    assert_eq!(t.as_slice(), &[0xEF, 0xBE, 0xAD, 0xDE]);
}

#[test]
fn template_pushes_are_little_endian() {
    let mut t = Template::<64>::new();
    t.push_i8(-1);
    t.push_i16(-2);
    t.push_u16(0xABCD);
    t.push_i32(-2);
    t.push_u32(0x11223344);
    t.push_i64(-1);
    t.push_u64(0x0102030405060708);
    assert_eq!(t.offset(), 1 + 2 + 2 + 4 + 4 + 8 + 8);
    let expected: Vec<u8> = vec![
        0xFF, // i8
        0xFE, 0xFF, // i16
        0xCD, 0xAB, // u16
        0xFE, 0xFF, 0xFF, 0xFF, // i32
        0x44, 0x33, 0x22, 0x11, // u32
        0xFF, 0xFF, 0xFF, 0xFF, 0xFF, 0xFF, 0xFF, 0xFF, // i64
        0x08, 0x07, 0x06, 0x05, 0x04, 0x03, 0x02, 0x01, // u64
    ];
    assert_eq!(t.as_slice(), expected.as_slice());
}

#[test]
fn template_align_pads_offset_minus_remainder() {
    let mut t = Template::<32>::new();
    t.extend(&[1, 2, 3, 4, 5, 6]);
    t.align(4, 0x90);
    // 6 - 6 % 4 = 4 bytes of filler.
    assert_eq!(t.offset(), 10);
    assert_eq!(t.as_slice(), &[1, 2, 3, 4, 5, 6, 0x90, 0x90, 0x90, 0x90]);
}

#[test]
fn template_align_of_aligned_offset_doubles_it() {
    let mut t = Template::<32>::new();
    t.extend(&[1, 2, 3, 4]);
    t.align(4, 0);
    assert_eq!(t.offset(), 8);
    assert_eq!(t.offset() % 4, 0);
}

#[test]
fn template_align_below_alignment_adds_nothing() {
    let mut t = Template::<32>::new();
    t.extend(&[1, 2, 3]);
    t.align(4, 0x90);
    assert_eq!(t.offset(), 3);
    let mut empty = Template::<8>::new();
    empty.align(8, 0x90);
    assert_eq!(empty.offset(), 0);
}

#[test]
fn template_labels_and_relocations_leave_it_unchanged() {
    let mut t = Template::<8>::new();
    t.extend(&[1, 2]);
    t.local_label("start");
    t.forward_reloc("next", 0, 4, 0, 2);
    t.backward_reloc("start", -2, 1, 0, 0);
    assert_eq!(t.offset(), 2);
    assert_eq!(t.as_slice(), &[1, 2]);
}

#[test]
fn template_copies_are_independent() {
    let mut a = Template::<8>::new();
    a.push(1);
    let mut b = a;
    b.push(2);
    assert_eq!(a.as_slice(), &[1]);
    assert_eq!(b.as_slice(), &[1, 2]);
}
