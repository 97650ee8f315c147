//! The label and relocation registries of `dynasmrt`, as the step-table
//! generator uses them. Each item here states what the `dynasmrt` source does;
//! none of it is proved.

use vstd::prelude::*;
use crate::codegen::x64::splice;
use dynasmrt::components::{LabelRegistry, PatchLoc, RelocRegistry, StaticLabel};
use dynasmrt::relocations::{Relocation, RelocationKind, SimpleRelocation};
use dynasmrt::{AssemblyOffset, DynamicLabel};
use vstd::wrapping::usize_specs;

verus! {

#[verifier::external_type_specification]
#[verifier::external_body]
pub struct ExLabelRegistry(LabelRegistry);

#[verifier::external_type_specification]
#[verifier::external_body]
pub struct ExStaticLabel(StaticLabel);

#[verifier::external_type_specification]
#[verifier::external_body]
pub struct ExDynamicLabel(DynamicLabel);

#[verifier::external_type_specification]
#[verifier::external_body]
pub struct ExSimpleRelocation(SimpleRelocation);

/// The relocations registered so far: a `dynasmrt` `RelocRegistry`, whose
/// generic declaration Verus refuses, so it is held here.
#[verifier::external_body]
pub struct Relocs {
    inner: RelocRegistry<SimpleRelocation>,
}

/// A relocation site: a `dynasmrt` `PatchLoc`, held here for the same reason.
#[verifier::external_body]
pub struct Patch {
    inner: PatchLoc<SimpleRelocation>,
}

/// A relocation site: location, target offset, field offset, reference
/// offset, relocation kind (0 relative, 1 absolute-to-relative, 2
/// relative-to-absolute, 3 absolute) and size of the patched field.
pub uninterp spec fn patch_fields(p: Patch) -> (usize, isize, u8, u8, u8, usize);

/// Kind of a relocation, numbered as in `patch_fields`.
pub uninterp spec fn relocation_kind(r: SimpleRelocation) -> u8;

/// Size in bytes of the field a relocation patches.
pub uninterp spec fn relocation_size(r: SimpleRelocation) -> usize;

/// Size of the field of a relocation code's size class.
pub open spec fn size_of_class(code: u8) -> usize {
    if code % 64 == 0 { 1 } else if code % 64 == 1 { 2 } else if code % 64 == 2 { 4 } else { 8 }
}

/// Name and version of a static label; version 0 for a global label.
pub uninterp spec fn static_label_key(l: StaticLabel) -> (Seq<char>, usize);

/// Static label definitions of a registry.
pub uninterp spec fn static_labels(labels: LabelRegistry) -> Map<(Seq<char>, usize), usize>;

/// Number of definitions of each local label name in a registry.
pub uninterp spec fn local_versions(labels: LabelRegistry) -> Map<Seq<char>, usize>;

/// Relocations towards static labels, in registration order.
pub uninterp spec fn static_relocs(r: Relocs) -> Seq<((usize, isize, u8, u8, u8, usize), (Seq<char>, usize))>;

/// Relocations towards dynamic labels, in registration order.
pub uninterp spec fn dynamic_relocs(r: Relocs) -> Seq<((usize, isize, u8, u8, u8, usize), usize)>;

/// Dynamic label slots of a registry: `Some(offset)` once defined.
pub uninterp spec fn dynamic_slots(labels: LabelRegistry) -> Seq<Option<usize>>;

/// Index of a dynamic label in the slots of its registry.
pub uninterp spec fn dynamic_label_id(id: DynamicLabel) -> usize;

/// `LabelRegistry::new`: a registry with no labels.
#[verifier::external_body]
pub fn new_label_registry() -> (r: LabelRegistry)
    ensures
        dynamic_slots(r).len() == 0,
        static_labels(r).dom().len() == 0 && static_labels(r).dom().finite(),
        local_versions(r).dom().len() == 0 && local_versions(r).dom().finite(),
{
    LabelRegistry::new()
}

/// `LabelRegistry::new_dynamic_label`: a new, undefined slot at the end.
#[verifier::external_body]
pub fn new_dynamic_label(labels: &mut LabelRegistry) -> (id: DynamicLabel)
    ensures
        dynamic_label_id(id) == dynamic_slots(*old(labels)).len(),
        dynamic_slots(*final(labels)) == dynamic_slots(*old(labels)).push(None),
        static_labels(*final(labels)) == static_labels(*old(labels)),
        local_versions(*final(labels)) == local_versions(*old(labels)),
{
    labels.new_dynamic_label()
}

/// `LabelRegistry::define_dynamic`: defines an existing, undefined slot;
/// refuses (`false`, nothing changed) an unknown or already defined one.
#[verifier::external_body]
pub fn define_dynamic(labels: &mut LabelRegistry, id: DynamicLabel, offset: usize) -> (ok: bool)
    ensures
        ok == (dynamic_label_id(id) < dynamic_slots(*old(labels)).len()
            && dynamic_slots(*old(labels))[dynamic_label_id(id) as int] is None),
        ok ==> dynamic_slots(*final(labels)) == dynamic_slots(*old(labels)).update(
            dynamic_label_id(id) as int,
            Some(offset),
        ),
        !ok ==> dynamic_slots(*final(labels)) == dynamic_slots(*old(labels)),
        static_labels(*final(labels)) == static_labels(*old(labels)),
        local_versions(*final(labels)) == local_versions(*old(labels)),
{
    labels.define_dynamic(id, AssemblyOffset(offset)).is_ok()
}

/// `LabelRegistry::resolve_dynamic`: the offset of a defined slot.
#[verifier::external_body]
pub fn resolve_dynamic(labels: &LabelRegistry, id: DynamicLabel) -> (r: Option<usize>)
    ensures
        r == (if dynamic_label_id(id) < dynamic_slots(*labels).len() {
            dynamic_slots(*labels)[dynamic_label_id(id) as int]
        } else {
            None
        }),
{
    match labels.resolve_dynamic(id) {
        Ok(offset) => Some(offset.0),
        Err(_) => None,
    }
}

/// `LabelRegistry::define_local`: the next version of local label `name`
/// (the first is 1) is placed at `offset`.
#[verifier::external_body]
pub fn define_local(labels: &mut LabelRegistry, name: &'static str, offset: usize)
    requires
        local_versions(*old(labels)).contains_key(name@) ==> local_versions(*old(labels))[name@]
            < usize::MAX,
    ensures
        ({
            let version = if local_versions(*old(labels)).contains_key(name@) {
                (local_versions(*old(labels))[name@] + 1) as usize
            } else {
                1usize
            };
            &&& local_versions(*final(labels)) == local_versions(*old(labels)).insert(name@, version)
            &&& static_labels(*final(labels)) == static_labels(*old(labels)).insert(
                (name@, version),
                offset,
            )
        }),
        dynamic_slots(*final(labels)) == dynamic_slots(*old(labels)),
{
    labels.define_local(name, AssemblyOffset(offset))
}

/// `LabelRegistry::place_local_reference`: the latest version of local label
/// `name`, if it has been defined.
#[verifier::external_body]
pub fn place_local_reference(labels: &LabelRegistry, name: &'static str) -> (r: Option<StaticLabel>)
    ensures
        r is Some == local_versions(*labels).contains_key(name@),
        r matches Some(l) ==> static_label_key(l) == (name@, local_versions(*labels)[name@]),
{
    labels.place_local_reference(name)
}

/// `LabelRegistry::resolve_static`: the offset a static label was defined at.
#[verifier::external_body]
pub fn resolve_static(labels: &LabelRegistry, label: &StaticLabel) -> (r: Option<usize>)
    ensures
        r is Some == static_labels(*labels).contains_key(static_label_key(*label)),
        r matches Some(offset) ==> offset == static_labels(*labels)[static_label_key(*label)],
{
    match labels.resolve_static(label) {
        Ok(offset) => Some(offset.0),
        Err(_) => None,
    }
}

/// `StaticLabel::global`: version 0 of `name`.
#[verifier::external_body]
pub fn static_label_global(name: &'static str) -> (l: StaticLabel)
    ensures
        static_label_key(l) == (name@, 0usize),
{
    StaticLabel::global(name)
}

/// `StaticLabel::first`: version 1 of `name`.
#[verifier::external_body]
pub fn static_label_first(name: &'static str) -> (l: StaticLabel)
    ensures
        static_label_key(l) == (name@, 1usize),
{
    StaticLabel::first(name)
}

/// `StaticLabel::next`: the following version of a local label; a global
/// label stays itself.
#[verifier::external_body]
pub fn static_label_next(label: StaticLabel) -> (l: StaticLabel)
    requires
        static_label_key(label).1 < usize::MAX,
    ensures
        static_label_key(l) == (static_label_key(label).0, if static_label_key(label).1 != 0 {
            (static_label_key(label).1 + 1) as usize
        } else {
            0usize
        }),
{
    label.next()
}

/// `SimpleRelocation::from_encoding`: decodes a relocation of one of the
/// four plain sizes. Other size classes make `dynasmrt` panic.
#[verifier::external_body]
pub fn relocation_from_encoding(kind: u8) -> (r: SimpleRelocation)
    requires
        kind % 64 < 4,
    ensures
        relocation_kind(r) == kind / 64,
        relocation_size(r) == size_of_class(kind),
{
    SimpleRelocation::from_encoding(kind)
}

/// `PatchLoc::new`.
#[verifier::external_body]
pub fn new_patch(
    location: usize,
    target_offset: isize,
    field_offset: u8,
    ref_offset: u8,
    relocation: SimpleRelocation,
) -> (p: Patch)
    ensures
        patch_fields(p) == (
            location,
            target_offset,
            field_offset,
            ref_offset,
            relocation_kind(relocation),
            relocation_size(relocation),
        ),
{
    Patch {
        inner: PatchLoc::new(AssemblyOffset(location), target_offset, field_offset, ref_offset, relocation),
    }
}

/// The public fields of a `PatchLoc`: location, target offset, field offset
/// and reference offset.
#[verifier::external_body]
pub fn patch_offsets(p: &Patch) -> (r: (usize, isize, u8, u8))
    ensures
        r == (patch_fields(*p).0, patch_fields(*p).1, patch_fields(*p).2, patch_fields(*p).3),
{
    (p.inner.location.0, p.inner.target_offset, p.inner.field_offset, p.inner.ref_offset)
}

/// `Relocation::kind` of the site's relocation, numbered as in `patch_fields`.
#[verifier::external_body]
pub fn patch_kind(p: &Patch) -> (r: u8)
    ensures
        r == patch_fields(*p).4,
{
    match p.inner.relocation.kind() {
        RelocationKind::Relative => 0,
        RelocationKind::AbsToRel => 1,
        RelocationKind::RelToAbs => 2,
        RelocationKind::Absolute => 3,
    }
}

/// `Relocation::size` of the site's relocation.
#[verifier::external_body]
pub fn patch_size(p: &Patch) -> (r: usize)
    ensures
        r == patch_fields(*p).5,
{
    p.inner.relocation.size()
}

/// `RelocRegistry::new`: no relocations.
#[verifier::external_body]
pub fn new_relocs() -> (r: Relocs)
    ensures
        static_relocs(r).len() == 0,
        dynamic_relocs(r).len() == 0,
{
    Relocs { inner: RelocRegistry::new() }
}

/// `RelocRegistry::add_static`: appends a relocation towards a static label.
#[verifier::external_body]
pub fn add_static(relocs: &mut Relocs, label: StaticLabel, patch: Patch)
    ensures
        static_relocs(*final(relocs)) == static_relocs(*old(relocs)).push(
            (patch_fields(patch), static_label_key(label)),
        ),
        dynamic_relocs(*final(relocs)) == dynamic_relocs(*old(relocs)),
{
    relocs.inner.add_static(label, patch.inner)
}

/// `RelocRegistry::add_dynamic`: appends a relocation towards a dynamic label.
#[verifier::external_body]
pub fn add_dynamic(relocs: &mut Relocs, id: DynamicLabel, patch: Patch)
    ensures
        dynamic_relocs(*final(relocs)) == dynamic_relocs(*old(relocs)).push(
            (patch_fields(patch), dynamic_label_id(id)),
        ),
        static_relocs(*final(relocs)) == static_relocs(*old(relocs)),
{
    relocs.inner.add_dynamic(id, patch.inner)
}

/// `RelocRegistry::take_statics`: removes and returns the relocations towards
/// static labels, in registration order.
#[verifier::external_body]
pub fn take_statics(relocs: &mut Relocs) -> (r: Vec<(Patch, StaticLabel)>)
    ensures
        r@.len() == static_relocs(*old(relocs)).len(),
        forall|i: int|
            0 <= i < r@.len() ==> (patch_fields(#[trigger] r@[i].0), static_label_key(r@[i].1))
                == static_relocs(*old(relocs))[i],
        static_relocs(*final(relocs)).len() == 0,
        dynamic_relocs(*final(relocs)) == dynamic_relocs(*old(relocs)),
{
    relocs.inner.take_statics().map(|(loc, label)| (Patch { inner: loc }, label)).collect()
}

/// `RelocRegistry::take_dynamics`: removes and returns the relocations
/// towards dynamic labels, in registration order.
#[verifier::external_body]
pub fn take_dynamics(relocs: &mut Relocs) -> (r: Vec<(Patch, DynamicLabel)>)
    ensures
        r@.len() == dynamic_relocs(*old(relocs)).len(),
        forall|i: int|
            0 <= i < r@.len() ==> (patch_fields(#[trigger] r@[i].0), dynamic_label_id(r@[i].1))
                == dynamic_relocs(*old(relocs))[i],
        dynamic_relocs(*final(relocs)).len() == 0,
        static_relocs(*final(relocs)) == static_relocs(*old(relocs)),
{
    relocs.inner.take_dynamics().map(|(loc, id)| (Patch { inner: loc }, id)).collect()
}

/// `PatchLoc::range(0)`: start and end of the field the relocation patches.
#[verifier::external_body]
pub fn patch_range(p: &Patch) -> (r: (usize, usize))
    requires
        patch_fields(*p).2 <= patch_fields(*p).0,
        patch_fields(*p).0 - patch_fields(*p).2 + patch_fields(*p).5 <= usize::MAX,
    ensures
        r.0 == patch_fields(*p).0 - patch_fields(*p).2,
        r.1 == r.0 + patch_fields(*p).5,
{
    let range = p.inner.range(0);
    (range.start, range.end)
}

/// The value a relocation writes for a target at `target`, with the
/// assembled buffer placed at `buf_addr`: by kind (top two bits of the code)
/// relative, absolute-to-relative, relative-to-absolute or absolute, then
/// the target offset added.
pub open spec fn patch_value(fields: (usize, isize, u8, u8, u8, usize), target: usize, buf_addr: usize) -> int {
    (patch_raw(fields, target, buf_addr) as isize) + fields.1
}

/// The value before the target offset is added, as a wrapping `usize`.
pub open spec fn patch_raw(fields: (usize, isize, u8, u8, u8, usize), target: usize, buf_addr: usize) -> usize {
    let location = fields.0;
    let ref_offset = fields.3;
    let kind = fields.4;
    if kind == 0 {
        usize_specs::wrapping_sub(target, (location - ref_offset) as usize)
    } else if kind == 1 {
        usize_specs::wrapping_add(target, buf_addr)
    } else if kind == 2 {
        usize_specs::wrapping_sub(
            usize_specs::wrapping_sub(target, (location - ref_offset) as usize),
            buf_addr,
        )
    } else {
        target
    }
}

/// `value` fits a signed field of `size` bytes.
pub open spec fn fits_field(value: int, size: nat) -> bool {
    if size == 1 {
        i8::MIN <= value <= i8::MAX
    } else if size == 2 {
        i16::MIN <= value <= i16::MAX
    } else if size == 4 {
        i32::MIN <= value <= i32::MAX
    } else {
        i64::MIN <= value <= i64::MAX
    }
}

/// Little-endian bytes of `value` in a field of `size` bytes.
pub open spec fn field_bytes(value: int, size: nat) -> Seq<u8> {
    if size == 1 {
        seq![value as u8]
    } else if size == 2 {
        vstd::bytes::spec_u16_to_le_bytes(value as u16)
    } else if size == 4 {
        vstd::bytes::spec_u32_to_le_bytes(value as u32)
    } else {
        vstd::bytes::spec_u64_to_le_bytes(value as u64)
    }
}

/// `PatchLoc::patch` on the bytes of `code` from `start` on: writes the
/// relocation's value when it fits the field (`true`), leaves `code` as it
/// was otherwise (`false`).
#[verifier::external_body]
pub fn patch_apply(patch: &Patch, code: &mut Vec<u8>, start: usize, buf_addr: usize, target: usize) -> (ok: bool)
    requires
        patch_fields(*patch).4 < 4,
        patch_fields(*patch).5 == 1 || patch_fields(*patch).5 == 2 || patch_fields(*patch).5 == 4
            || patch_fields(*patch).5 == 8,
        patch_fields(*patch).4 == 0 || patch_fields(*patch).4 == 2 ==> patch_fields(*patch).3
            <= patch_fields(*patch).0,
        isize::MIN <= (patch_raw(patch_fields(*patch), target, buf_addr) as isize) + patch_fields(
            *patch,
        ).1 <= isize::MAX,
        start + patch_fields(*patch).5 <= old(code)@.len(),
    ensures
        ok == fits_field(
            patch_value(patch_fields(*patch), target, buf_addr),
            patch_fields(*patch).5 as nat,
        ),
        ok ==> final(code)@ == splice(
            old(code)@,
            start as int,
            field_bytes(patch_value(patch_fields(*patch), target, buf_addr), patch_fields(*patch).5 as nat),
        ),
        !ok ==> final(code)@ == old(code)@,
        final(code)@.len() == old(code)@.len(),
{
    patch.inner.patch(&mut code[start..], buf_addr, target).is_ok()
}

} // verus!
