//! Assembling targets shared by the code generators.

use vstd::prelude::*;
use vstd::slice::slice_subrange;
use crate::codegen::x64::{lemma_splice_step, splice};
use vstd::bytes::{
    spec_u16_to_le_bytes, spec_u32_to_le_bytes, spec_u64_to_le_bytes, u16_to_le_bytes,
    u32_to_le_bytes, u64_to_le_bytes,
};

verus! {

pub mod labels;
pub mod x64;

/// An assembling target with no contents.
pub struct Buffer {}

/// A fixed-capacity assembling buffer: `SIZE` bytes of storage of which the
/// first `offset()` have been written, in order.
#[derive(Copy, Clone)]
pub struct Template<const SIZE: usize> {
    buffer: [u8; SIZE],
    bytes: usize,
}

impl<const SIZE: usize> View for Template<SIZE> {
    type V = Seq<u8>;

    /// The bytes written so far.
    closed spec fn view(&self) -> Seq<u8> {
        self.buffer@.subrange(0, self.bytes as int)
    }
}

impl<const SIZE: usize> Template<SIZE> {
    /// The cursor never passes the end of the storage.
    pub closed spec fn wf(&self) -> bool {
        self.bytes <= SIZE
    }

    /// The whole storage, written or not.
    pub closed spec fn storage(&self) -> Seq<u8> {
        self.buffer@
    }

    /// The storage has `SIZE` bytes, the written ones first.
    pub proof fn lemma_storage(&self)
        ensures
            self.storage().len() == SIZE,
            self.wf() ==> self@.len() <= SIZE && self@ == self.storage().subrange(
                0,
                self@.len() as int,
            ),
    {
    }

    pub fn new() -> (t: Self)
        ensures
            t.wf(),
            t@ == Seq::<u8>::empty(),
            t.storage() == Seq::new(SIZE as nat, |i: int| 0u8),
    {
        let t = Self { buffer: [0; SIZE], bytes: 0 };
        assert(t.storage() =~= Seq::new(SIZE as nat, |i: int| 0u8));
        assert(t@ =~= Seq::<u8>::empty());
        t
    }

    /// The bytes written so far.
    pub fn as_slice(&self) -> (r: &[u8])
        requires
            self.wf(),
        ensures
            r@ == self@,
    {
        slice_subrange(self.buffer.as_slice(), 0, self.bytes)
    }

    pub fn offset(&self) -> (r: usize)
        requires
            self.wf(),
        ensures
            r == self@.len(),
    {
        self.bytes
    }

    /// Appends every byte of `buffer`, in order; the storage past them is
    /// left as it was.
    pub fn extend(&mut self, buffer: &[u8])
        requires
            old(self).wf(),
            old(self)@.len() + buffer@.len() <= SIZE,
        ensures
            final(self).wf(),
            final(self)@ == old(self)@ + buffer@,
            final(self).storage() == splice(old(self).storage(), old(self)@.len() as int, buffer@),
    {
        let mut i: usize = 0;
        while i < buffer.len()
            invariant
                self.wf(),
                i <= buffer@.len(),
                old(self).bytes + buffer@.len() <= SIZE,
                old(self).buffer@.len() == SIZE,
                self.bytes == old(self).bytes + i,
                self@ == old(self)@ + buffer@.subrange(0, i as int),
                self.buffer@ == splice(old(self).buffer@, old(self).bytes as int, buffer@.subrange(0, i as int)),
            decreases buffer@.len() - i,
        {
            let ghost prev = self@;
            proof {
                lemma_splice_step(old(self).buffer@, old(self).bytes as int, buffer@, i as int);
            }
            self.buffer[self.bytes] = buffer[i];
            self.bytes += 1;
            assert(self@ =~= prev.push(buffer@[i as int]));
            assert(buffer@.subrange(0, i + 1) =~= buffer@.subrange(0, i as int).push(buffer@[i as int]));
            i += 1;
        }
        assert(buffer@.subrange(0, i as int) =~= buffer@);
    }

    /// Appends one byte.
    pub fn push(&mut self, byte: u8)
        requires
            old(self).wf(),
            old(self)@.len() < SIZE,
        ensures
            final(self).wf(),
            final(self)@ == old(self)@.push(byte),
            final(self).storage() == splice(old(self).storage(), old(self)@.len() as int, seq![byte]),
    {
        let ghost prev = self@;
        let ghost prev_storage = self.buffer@;
        self.buffer[self.bytes] = byte;
        self.bytes += 1;
        assert(self@ =~= prev.push(byte));
        assert(self.buffer@ =~= splice(prev_storage, prev.len() as int, seq![byte]));
    }

    /// Appends `offset - offset % alignment` copies of `with`.
    pub fn align(&mut self, alignment: usize, with: u8)
        requires
            old(self).wf(),
            alignment > 0,
            old(self)@.len() + align_fill_len(old(self)@.len(), alignment as nat) <= SIZE,
        ensures
            final(self).wf(),
            final(self)@ == old(self)@ + Seq::new(
                align_fill_len(old(self)@.len(), alignment as nat),
                |i: int| with,
            ),
            final(self).storage() == splice(
                old(self).storage(),
                old(self)@.len() as int,
                Seq::new(align_fill_len(old(self)@.len(), alignment as nat), |i: int| with),
            ),
    {
        let b = self.bytes;
        assert(b % alignment <= b) by (nonlinear_arith)
            requires
                alignment > 0,
        ;
        let mut to_add = self.bytes - (self.bytes % alignment);
        let ghost total = to_add;
        let ghost fill = Seq::new(total as nat, |i: int| with);
        while to_add != 0
            invariant
                self.wf(),
                total == align_fill_len(old(self)@.len(), alignment as nat),
                fill == Seq::new(total as nat, |i: int| with),
                old(self).bytes + total <= SIZE,
                old(self).buffer@.len() == SIZE,
                to_add <= total,
                self.bytes == old(self)@.len() + (total - to_add),
                self@ == old(self)@ + Seq::new((total - to_add) as nat, |i: int| with),
                self.buffer@ == splice(
                    old(self).buffer@,
                    old(self).bytes as int,
                    fill.subrange(0, (total - to_add) as int),
                ),
            decreases to_add,
        {
            let ghost prev = self@;
            proof {
                lemma_splice_step(
                    old(self).buffer@,
                    old(self).bytes as int,
                    fill,
                    (total - to_add) as int,
                );
            }
            self.buffer[self.bytes] = with;
            self.bytes += 1;
            to_add -= 1;
            assert(self@ =~= prev.push(with));
            assert(old(self)@ + Seq::new((total - to_add) as nat, |i: int| with) =~= (old(self)@
                + Seq::new((total - to_add - 1) as nat, |i: int| with)).push(with));
        }
        assert(fill.subrange(0, total as int) =~= fill);
    }

    pub fn push_i8(&mut self, value: i8)
        requires
            old(self).wf(),
            old(self)@.len() + 1 <= SIZE,
        ensures
            final(self).wf(),
            final(self)@ == old(self)@.push(value as u8),
            final(self).storage() == splice(old(self).storage(), old(self)@.len() as int, seq![value as u8]),
    {
        self.push(value as u8);
    }

    /// Appends the little-endian bytes of `value`.
    pub fn push_i16(&mut self, value: i16)
        requires
            old(self).wf(),
            old(self)@.len() + 2 <= SIZE,
        ensures
            final(self).wf(),
            final(self)@ == old(self)@ + spec_u16_to_le_bytes(value as u16),
            final(self).storage() == splice(old(self).storage(), old(self)@.len() as int, spec_u16_to_le_bytes(value as u16)),
    {
        let bytes = u16_to_le_bytes(value as u16);
        self.extend(bytes.as_slice());
    }

    /// Appends the little-endian bytes of `value`.
    pub fn push_i32(&mut self, value: i32)
        requires
            old(self).wf(),
            old(self)@.len() + 4 <= SIZE,
        ensures
            final(self).wf(),
            final(self)@ == old(self)@ + spec_u32_to_le_bytes(value as u32),
            final(self).storage() == splice(old(self).storage(), old(self)@.len() as int, spec_u32_to_le_bytes(value as u32)),
    {
        let bytes = u32_to_le_bytes(value as u32);
        self.extend(bytes.as_slice());
    }

    /// Appends the little-endian bytes of `value`.
    pub fn push_i64(&mut self, value: i64)
        requires
            old(self).wf(),
            old(self)@.len() + 8 <= SIZE,
        ensures
            final(self).wf(),
            final(self)@ == old(self)@ + spec_u64_to_le_bytes(value as u64),
            final(self).storage() == splice(old(self).storage(), old(self)@.len() as int, spec_u64_to_le_bytes(value as u64)),
    {
        let bytes = u64_to_le_bytes(value as u64);
        self.extend(bytes.as_slice());
    }

    /// Appends the little-endian bytes of `value`.
    pub fn push_u16(&mut self, value: u16)
        requires
            old(self).wf(),
            old(self)@.len() + 2 <= SIZE,
        ensures
            final(self).wf(),
            final(self)@ == old(self)@ + spec_u16_to_le_bytes(value),
            final(self).storage() == splice(old(self).storage(), old(self)@.len() as int, spec_u16_to_le_bytes(value)),
    {
        let bytes = u16_to_le_bytes(value);
        self.extend(bytes.as_slice());
    }

    /// Appends the little-endian bytes of `value`.
    pub fn push_u32(&mut self, value: u32)
        requires
            old(self).wf(),
            old(self)@.len() + 4 <= SIZE,
        ensures
            final(self).wf(),
            final(self)@ == old(self)@ + spec_u32_to_le_bytes(value),
            final(self).storage() == splice(old(self).storage(), old(self)@.len() as int, spec_u32_to_le_bytes(value)),
    {
        let bytes = u32_to_le_bytes(value);
        self.extend(bytes.as_slice());
    }

    /// Appends the little-endian bytes of `value`.
    pub fn push_u64(&mut self, value: u64)
        requires
            old(self).wf(),
            old(self)@.len() + 8 <= SIZE,
        ensures
            final(self).wf(),
            final(self)@ == old(self)@ + spec_u64_to_le_bytes(value),
            final(self).storage() == splice(old(self).storage(), old(self)@.len() as int, spec_u64_to_le_bytes(value)),
    {
        let bytes = u64_to_le_bytes(value);
        self.extend(bytes.as_slice());
    }

    /// Label definitions are not recorded by a template.
    pub fn local_label(&mut self, _name: &'static str)
        ensures
            *final(self) == *old(self),
    {
    }

    /// Relocations are not recorded by a template.
    pub fn forward_reloc(
        &mut self,
        _name: &'static str,
        _target_offset: isize,
        _field_offset: u8,
        _ref_offset: u8,
        _kind: u8,
    )
        ensures
            *final(self) == *old(self),
    {
    }

    /// Relocations are not recorded by a template.
    pub fn backward_reloc(
        &mut self,
        _name: &'static str,
        _target_offset: isize,
        _field_offset: u8,
        _ref_offset: u8,
        _kind: u8,
    )
        ensures
            *final(self) == *old(self),
    {
    }
}

/// How many filler bytes `Template::align` appends at `offset`.
pub open spec fn align_fill_len(offset: nat, alignment: nat) -> nat {
    (offset - offset % alignment) as nat
}

/// A template whose offset is a multiple of `alignment` is still aligned to
/// it after `Template::align`: the filler doubles the offset.
pub proof fn lemma_template_align_keeps_alignment(offset: nat, alignment: nat)
    requires
        alignment > 0,
        offset % alignment == 0,
    ensures
        (offset + align_fill_len(offset, alignment)) % alignment == 0,
        offset + align_fill_len(offset, alignment) == 2 * offset,
{
    assert(align_fill_len(offset, alignment) == offset);
    vstd::arithmetic::div_mod::lemma_add_mod_noop(offset as int, offset as int, alignment as int);
    vstd::arithmetic::div_mod::lemma_small_mod(0, alignment);
}

/// Extending in two steps writes what extending once by both does, and
/// extending by nothing changes nothing: the law of `Template::extend` (and
/// of every other write) over the whole storage.
pub proof fn lemma_extend_concat(s: Seq<u8>, at: int, a: Seq<u8>, b: Seq<u8>)
    requires
        0 <= at,
        at + a.len() + b.len() <= s.len(),
    ensures
        splice(splice(s, at, a), at + a.len(), b) == splice(s, at, a + b),
        splice(s, at, Seq::empty()) == s,
{
    assert(splice(splice(s, at, a), at + a.len(), b) =~= splice(s, at, a + b));
    assert(splice(s, at, Seq::empty()) =~= s);
}

/// An instruction's opcode byte and its register byte, as they lie in the
/// instruction stream.
#[allow(dead_code)]
pub struct Opcode<const INTERPRETED: bool> {
    opcode: u8,
    dstsrc: u8,
}

} // verus!
