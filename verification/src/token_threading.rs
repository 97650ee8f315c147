//! Compiler that turns SBPF bytecode into x86-64 machine code by stitching
//! together per-instruction templates ("token threading"): every template
//! holds placeholder patterns where the instruction's immediate, its offset
//! and the decryption key go, and the compiler patches them in.

use vstd::prelude::*;
use vstd::bytes::{spec_u32_from_le_bytes, spec_u64_from_le_bytes, u32_from_le_bytes, u64_from_le_bytes};
use vstd::slice::{slice_subrange, slice_to_vec};
use vstd::bytes::{spec_u32_to_le_bytes, spec_u64_to_le_bytes, u32_to_le_bytes, u64_to_le_bytes};
use vstd::wrapping::i32_specs;
use crate::ebpf;
use crate::codegen::x64::{lemma_splice_step, splice};
use crate::rng::{gen_i32, noop_range, noop_range_high, sample, small_rng_from_os, NoopRange};
use rand::rngs::SmallRng;
use std::collections::BTreeMap;

verus! {

/// Placeholder of an instruction's immediate in a template.
pub const IMM_PATTERN: u64 = 0x1234567890ABCDEF;
/// Placeholder of an instruction's offset in a template.
pub const OFF_PATTERN: u64 = 0xFEDCBA0987654321;
/// Placeholder of the decryption key in a template.
pub const DECRYPT_PATTERN: u32 = 0x7EDCBAF9;
/// Size of one template slot in the template table.
pub const TEMPLATE_SLOT: usize = 128;
/// Length of the epilog that ends every template.
pub const EPILOG_LEN: usize = 4;
/// Number of templates: one per value of an instruction's first 16 bits.
pub const TEMPLATE_COUNT: usize = 65536;

/// Errors of the compiler.
#[derive(Clone, Copy, PartialEq, Eq, Debug)]
pub enum EbpfError {
    /// No random generator could be seeded.
    JitNotCompiled,
    /// An instruction has no template, or is truncated, or jumps out of the program.
    InvalidInstruction,
    /// A call to an unknown function.
    UnsupportedInstruction,
}

/// `int3 ud2 int3`: the end of every template.
pub open spec fn is_epilog_at(t: Seq<u8>, i: int) -> bool {
    &&& 0 <= i
    &&& i + 4 <= t.len()
    &&& t[i] == 0xCC
    &&& t[i + 1] == 0x0F
    &&& t[i + 2] == 0x0B
    &&& t[i + 3] == 0xCC
}

/// The first epilog pattern at or after `i`.
pub open spec fn first_epilog_from(t: Seq<u8>, i: int) -> Option<int>
    decreases t.len() - i,
{
    if i < 0 || i + 4 > t.len() {
        None
    } else if is_epilog_at(t, i) {
        Some(i)
    } else {
        first_epilog_from(t, i + 1)
    }
}

/// Little-endian 64-bit value of the 8 bytes at `p`.
pub open spec fn u64_at(t: Seq<u8>, p: int) -> u64 {
    spec_u64_from_le_bytes(t.subrange(p, p + 8))
}

/// Little-endian 32-bit value of the 4 bytes at `p`.
pub open spec fn u32_at(t: Seq<u8>, p: int) -> u32 {
    spec_u32_from_le_bytes(t.subrange(p, p + 4))
}

/// Positions below `n`, in order, where the 8 bytes hold `pattern`.
pub open spec fn places64(t: Seq<u8>, pattern: u64, n: int) -> Seq<int>
    decreases n,
{
    if n <= 0 {
        Seq::empty()
    } else {
        places64(t, pattern, n - 1) + if u64_at(t, n - 1) == pattern {
            seq![n - 1]
        } else {
            Seq::empty()
        }
    }
}

/// Positions below `n`, in order, where the 4 bytes hold `pattern`.
pub open spec fn places32(t: Seq<u8>, pattern: u32, n: int) -> Seq<int>
    decreases n,
{
    if n <= 0 {
        Seq::empty()
    } else {
        places32(t, pattern, n - 1) + if u32_at(t, n - 1) == pattern {
            seq![n - 1]
        } else {
            Seq::empty()
        }
    }
}

/// Number of windows of `w` bytes in `t`.
pub open spec fn windows(t: Seq<u8>, w: int) -> int {
    if t.len() >= w { t.len() - w + 1 } else { 0 }
}

/// Where the immediate goes in template `t`.
pub open spec fn imm_places(t: Seq<u8>) -> Seq<int> {
    places64(t, IMM_PATTERN, windows(t, 8))
}

/// Where the offset goes in template `t`.
pub open spec fn off_places(t: Seq<u8>) -> Seq<int> {
    places64(t, OFF_PATTERN, windows(t, 8))
}

/// Where the key goes in template `t`.
pub open spec fn decrypt_places(t: Seq<u8>) -> Seq<int> {
    places32(t, DECRYPT_PATTERN, windows(t, 4))
}

/// Four location slots: the places, then zeros.
pub open spec fn location_slots(places: Seq<int>) -> Seq<u8> {
    Seq::new(4, |i: int| if i < places.len() { places[i] as u8 } else { 0u8 })
}

/// Each used location leaves room for a field of `width` bytes.
pub open spec fn locations_fit(locs: Seq<u8>, len: nat, width: nat) -> bool {
    forall|i: int| 0 <= i < locs.len() && locs[i] != 0 ==> #[trigger] locs[i] + width <= len
}

/// The template of slot `index` of a template table.
pub open spec fn template_slot(table: Seq<u8>, index: int) -> Seq<u8> {
    table.subrange(index * TEMPLATE_SLOT, (index + 1) * TEMPLATE_SLOT)
}

/// A template slot the scan handles: it has an epilog, and before it at most
/// four placeholders of each kind.
pub open spec fn slot_scannable(slot: Seq<u8>) -> bool {
    match first_epilog_from(slot, 0) {
        None => false,
        Some(len) => {
            let t = slot.subrange(0, len);
            imm_places(t).len() <= 4 && off_places(t).len() <= 4 && decrypt_places(t).len() <= 4
        },
    }
}

/// What the compiler knows of one instruction encoding, as values: the
/// template, `None` for an invalid encoding, and four location slots each for
/// the immediate, the offset and the key.
pub struct MetaView {
    pub template: Option<Seq<u8>>,
    pub imm: Seq<u8>,
    pub off: Seq<u8>,
    pub decrypt: Seq<u8>,
}

/// The meta data of template slot `slot` of a table whose slot 0, the
/// template of invalid encodings, is `invalid`: no template for a slot equal
/// to it; otherwise the template up to its epilog and where its placeholders
/// are.
pub open spec fn slot_meta(slot: Seq<u8>, invalid: Seq<u8>) -> MetaView {
    if slot == invalid {
        MetaView {
            template: None,
            imm: location_slots(Seq::empty()),
            off: location_slots(Seq::empty()),
            decrypt: location_slots(Seq::empty()),
        }
    } else {
        let t = slot.subrange(0, first_epilog_from(slot, 0).unwrap());
        MetaView {
            template: Some(t),
            imm: location_slots(imm_places(t)),
            off: location_slots(off_places(t)),
            decrypt: location_slots(decrypt_places(t)),
        }
    }
}

/// The meta data of every slot of a template table.
pub open spec fn table_metas(table: Seq<u8>) -> Seq<MetaView> {
    Seq::new(
        TEMPLATE_COUNT as nat,
        |index: int| slot_meta(template_slot(table, index), template_slot(table, 0)),
    )
}

/// Every placeholder location lies inside the template, which fits a slot.
pub open spec fn meta_wf(m: MetaView) -> bool {
    &&& m.imm.len() == 4
    &&& m.off.len() == 4
    &&& m.decrypt.len() == 4
    &&& match m.template {
        None => true,
        Some(t) => {
            &&& t.len() + EPILOG_LEN <= TEMPLATE_SLOT
            &&& locations_fit(m.imm, t.len(), 8)
            &&& locations_fit(m.off, t.len(), 8)
            &&& locations_fit(m.decrypt, t.len(), 4)
        },
    }
}

/// The values of a sequence of meta data.
pub open spec fn meta_views(metas: Seq<InsnMeta>) -> Seq<MetaView> {
    metas.map_values(|m: InsnMeta| m@)
}

/// What the compiler knows of one instruction encoding.
pub struct InsnMeta {
    template: Option<Vec<u8>>,
    imm_locations: [u8; 4],
    off_locations: [u8; 4],
    decrypt_locations: [u8; 4],
}

impl View for InsnMeta {
    type V = MetaView;

    closed spec fn view(&self) -> MetaView {
        MetaView {
            template: match self.template {
                Some(t) => Some(t@),
                None => None,
            },
            imm: self.imm_locations@,
            off: self.off_locations@,
            decrypt: self.decrypt_locations@,
        }
    }
}

impl InsnMeta {
    pub fn template(&self) -> (r: Option<&Vec<u8>>)
        ensures
            match r {
                Some(t) => self@.template == Some(t@),
                None => self@.template is None,
            },
    {
        match &self.template {
            Some(t) => Some(t),
            None => None,
        }
    }

    pub fn imm_locations(&self) -> (r: [u8; 4])
        ensures
            r@ == self@.imm,
    {
        self.imm_locations
    }

    pub fn off_locations(&self) -> (r: [u8; 4])
        ensures
            r@ == self@.off,
    {
        self.off_locations
    }

    pub fn decrypt_locations(&self) -> (r: [u8; 4])
        ensures
            r@ == self@.decrypt,
    {
        self.decrypt_locations
    }
}

/// Number of 8-byte windows before position `j` of `t` that hold `pattern`.
pub open spec fn matches64_before(t: Seq<u8>, pattern: u64, j: int) -> nat
    decreases j,
{
    if j <= 0 {
        0
    } else {
        matches64_before(t, pattern, j - 1) + if u64_at(t, j - 1) == pattern { 1nat } else { 0nat }
    }
}

/// Number of 4-byte windows before position `j` of `t` that hold `pattern`.
pub open spec fn matches32_before(t: Seq<u8>, pattern: u32, j: int) -> nat
    decreases j,
{
    if j <= 0 {
        0
    } else {
        matches32_before(t, pattern, j - 1) + if u32_at(t, j - 1) == pattern { 1nat } else { 0nat }
    }
}

/// A matching window is listed among the places, after every earlier one.
proof fn lemma_places64_index(t: Seq<u8>, pattern: u64, n: int, j: int)
    requires
        0 <= j < n,
        u64_at(t, j) == pattern,
    ensures
        places64(t, pattern, j).len() == matches64_before(t, pattern, j),
        places64(t, pattern, j).len() < places64(t, pattern, n).len(),
        places64(t, pattern, n)[places64(t, pattern, j).len() as int] == j,
    decreases n,
{
    lemma_matches64_count(t, pattern, j);
    if n - 1 > j {
        lemma_places64_index(t, pattern, n - 1, j);
    }
}

proof fn lemma_matches64_count(t: Seq<u8>, pattern: u64, j: int)
    ensures
        places64(t, pattern, j).len() == matches64_before(t, pattern, j),
    decreases j,
{
    if j > 0 {
        lemma_matches64_count(t, pattern, j - 1);
    }
}

/// A matching window is listed among the places, after every earlier one.
proof fn lemma_places32_index(t: Seq<u8>, pattern: u32, n: int, j: int)
    requires
        0 <= j < n,
        u32_at(t, j) == pattern,
    ensures
        places32(t, pattern, j).len() == matches32_before(t, pattern, j),
        places32(t, pattern, j).len() < places32(t, pattern, n).len(),
        places32(t, pattern, n)[places32(t, pattern, j).len() as int] == j,
    decreases n,
{
    lemma_matches32_count(t, pattern, j);
    if n - 1 > j {
        lemma_places32_index(t, pattern, n - 1, j);
    }
}

proof fn lemma_matches32_count(t: Seq<u8>, pattern: u32, j: int)
    ensures
        places32(t, pattern, j).len() == matches32_before(t, pattern, j),
    decreases j,
{
    if j > 0 {
        lemma_matches32_count(t, pattern, j - 1);
    }
}

/// The meta data of a template records every placeholder among its first
/// four of each kind: the `c`-th window of the template (counted from 0) that
/// holds the immediate, offset or key pattern is in location slot `c` of its
/// kind.
pub proof fn lemma_slot_meta_records_placeholders(slot: Seq<u8>, invalid: Seq<u8>, j: int)
    requires
        slot.len() == TEMPLATE_SLOT,
        slot != invalid,
        slot_scannable(slot),
        0 <= j,
    ensures
        ({
            let m = slot_meta(slot, invalid);
            let t = m.template.unwrap();
            &&& j + 8 <= t.len() && u64_at(t, j) == IMM_PATTERN && matches64_before(t, IMM_PATTERN, j)
                < 4 ==> m.imm[matches64_before(t, IMM_PATTERN, j) as int] == j
            &&& j + 8 <= t.len() && u64_at(t, j) == OFF_PATTERN && matches64_before(t, OFF_PATTERN, j)
                < 4 ==> m.off[matches64_before(t, OFF_PATTERN, j) as int] == j
            &&& j + 4 <= t.len() && u32_at(t, j) == DECRYPT_PATTERN && matches32_before(
                t,
                DECRYPT_PATTERN,
                j,
            ) < 4 ==> m.decrypt[matches32_before(t, DECRYPT_PATTERN, j) as int] == j
        }),
{
    let m = slot_meta(slot, invalid);
    lemma_first_epilog(slot, 0);
    let t = m.template.unwrap();
    assert(t.len() <= TEMPLATE_SLOT);
    if j + 8 <= t.len() && u64_at(t, j) == IMM_PATTERN {
        lemma_places64_index(t, IMM_PATTERN, windows(t, 8), j);
    }
    if j + 8 <= t.len() && u64_at(t, j) == OFF_PATTERN {
        lemma_places64_index(t, OFF_PATTERN, windows(t, 8), j);
    }
    if j + 4 <= t.len() && u32_at(t, j) == DECRYPT_PATTERN {
        lemma_places32_index(t, DECRYPT_PATTERN, windows(t, 4), j);
    }
}

proof fn lemma_places64_bound(t: Seq<u8>, pattern: u64, n: int)
    ensures
        forall|i: int|
            0 <= i < places64(t, pattern, n).len() ==> 0 <= #[trigger] places64(t, pattern, n)[i] < n,
    decreases n,
{
    if n > 0 {
        lemma_places64_bound(t, pattern, n - 1);
        let prev = places64(t, pattern, n - 1);
        assert forall|i: int| 0 <= i < places64(t, pattern, n).len() implies 0 <= #[trigger] places64(
            t,
            pattern,
            n,
        )[i] < n by {
            if i < prev.len() {
                assert(places64(t, pattern, n)[i] == prev[i]);
            }
        }
    }
}

proof fn lemma_places32_bound(t: Seq<u8>, pattern: u32, n: int)
    ensures
        forall|i: int|
            0 <= i < places32(t, pattern, n).len() ==> 0 <= #[trigger] places32(t, pattern, n)[i] < n,
    decreases n,
{
    if n > 0 {
        lemma_places32_bound(t, pattern, n - 1);
        let prev = places32(t, pattern, n - 1);
        assert forall|i: int| 0 <= i < places32(t, pattern, n).len() implies 0 <= #[trigger] places32(
            t,
            pattern,
            n,
        )[i] < n by {
            if i < prev.len() {
                assert(places32(t, pattern, n)[i] == prev[i]);
            }
        }
    }
}

/// The meta data the scan produces for a slot of a template table is well
/// formed.
pub proof fn lemma_slot_meta_wf(slot: Seq<u8>, invalid: Seq<u8>)
    requires
        slot.len() == TEMPLATE_SLOT,
        slot == invalid || slot_scannable(slot),
    ensures
        meta_wf(slot_meta(slot, invalid)),
{
    if slot != invalid {
        let len = first_epilog_from(slot, 0).unwrap();
        lemma_first_epilog(slot, 0);
        let t = slot.subrange(0, len);
        lemma_places64_bound(t, IMM_PATTERN, windows(t, 8));
        lemma_places64_bound(t, OFF_PATTERN, windows(t, 8));
        lemma_places32_bound(t, DECRYPT_PATTERN, windows(t, 4));
        let m = slot_meta(slot, invalid);
        assert(locations_fit(m.imm, t.len(), 8));
        assert(locations_fit(m.off, t.len(), 8));
        assert(locations_fit(m.decrypt, t.len(), 4));
    }
}

proof fn lemma_places64_grow(t: Seq<u8>, pattern: u64, n: int, m: int)
    requires
        n <= m,
    ensures
        places64(t, pattern, n).len() <= places64(t, pattern, m).len(),
    decreases m - n,
{
    if n < m {
        lemma_places64_grow(t, pattern, n, m - 1);
    }
}

proof fn lemma_places32_grow(t: Seq<u8>, pattern: u32, n: int, m: int)
    requires
        n <= m,
    ensures
        places32(t, pattern, n).len() <= places32(t, pattern, m).len(),
    decreases m - n,
{
    if n < m {
        lemma_places32_grow(t, pattern, n, m - 1);
    }
}

/// Finds the epilog: its first position in `t`.
fn find_epilog(t: &[u8]) -> (r: Option<usize>)
    ensures
        match r {
            Some(p) => first_epilog_from(t@, 0) == Some(p as int),
            None => first_epilog_from(t@, 0) is None,
        },
{
    if t.len() < 4 {
        return None;
    }
    let mut i: usize = t.len() - 4 + 1;
    // Scan backwards so the invariant names what lies ahead.
    let mut found: Option<usize> = None;
    while i > 0
        invariant
            t@.len() >= 4,
            i <= t@.len() - 3,
            match found {
                Some(p) => first_epilog_from(t@, i as int) == Some(p as int),
                None => first_epilog_from(t@, i as int) is None,
            },
        decreases i,
    {
        i -= 1;
        if t[i] == 0xCC && t[i + 1] == 0x0F && t[i + 2] == 0x0B && t[i + 3] == 0xCC {
            found = Some(i);
        }
    }
    found
}

/// The placeholder locations of template `t`: immediates and offsets among
/// its 8-byte windows, keys among its 4-byte windows.
fn scan_template(t: &[u8]) -> (r: ([u8; 4], [u8; 4], [u8; 4]))
    requires
        imm_places(t@).len() <= 4,
        off_places(t@).len() <= 4,
        decrypt_places(t@).len() <= 4,
    ensures
        r.0@ == location_slots(imm_places(t@)),
        r.1@ == location_slots(off_places(t@)),
        r.2@ == location_slots(decrypt_places(t@)),
{
    let mut imm_locations: [u8; 4] = [0; 4];
    let mut off_locations: [u8; 4] = [0; 4];
    let (mut imm_count, mut off_count): (usize, usize) = (0, 0);
    let mut decrypt_locations: [u8; 4] = [0; 4];
    let mut decrypt_count: usize = 0;
    let tl = t.len();
    let n8: usize = if t.len() >= 8 { t.len() - 7 } else { 0 };
    let mut place: usize = 0;
    assert(imm_locations@ =~= location_slots(places64(t@, IMM_PATTERN, 0)));
    assert(off_locations@ =~= location_slots(places64(t@, OFF_PATTERN, 0)));
    while place < n8
        invariant
            n8 == windows(t@, 8),
            n8 == 0 || n8 + 7 == t@.len(),
            tl == t@.len(),
            place <= n8,
            imm_count == places64(t@, IMM_PATTERN, place as int).len(),
            off_count == places64(t@, OFF_PATTERN, place as int).len(),
            imm_locations@ == location_slots(places64(t@, IMM_PATTERN, place as int)),
            off_locations@ == location_slots(places64(t@, OFF_PATTERN, place as int)),
            imm_places(t@).len() <= 4,
            off_places(t@).len() <= 4,
        decreases n8 - place,
    {
        assert(place + 8 <= t@.len());
        let bytes = slice_subrange(t, place, place + 8);
        let value = u64_from_le_bytes(bytes);
        proof {
            lemma_places64_grow(t@, IMM_PATTERN, place + 1, n8 as int);
            lemma_places64_grow(t@, OFF_PATTERN, place + 1, n8 as int);
        }
        if value == IMM_PATTERN {
            imm_locations[imm_count] = #[verifier::truncate] (place as u8);
            imm_count += 1;
        } else if value == OFF_PATTERN {
            off_locations[off_count] = #[verifier::truncate] (place as u8);
            off_count += 1;
        }
        place += 1;
        assert(imm_locations@ =~= location_slots(places64(t@, IMM_PATTERN, place as int)));
        assert(off_locations@ =~= location_slots(places64(t@, OFF_PATTERN, place as int)));
    }
    let n4: usize = if t.len() >= 4 { t.len() - 3 } else { 0 };
    let mut place: usize = 0;
    assert(decrypt_locations@ =~= location_slots(places32(t@, DECRYPT_PATTERN, 0)));
    while place < n4
        invariant
            n4 == windows(t@, 4),
            n4 == 0 || n4 + 3 == t@.len(),
            tl == t@.len(),
            place <= n4,
            decrypt_count == places32(t@, DECRYPT_PATTERN, place as int).len(),
            decrypt_locations@ == location_slots(places32(t@, DECRYPT_PATTERN, place as int)),
            decrypt_places(t@).len() <= 4,
        decreases n4 - place,
    {
        assert(place + 4 <= t@.len());
        let bytes = slice_subrange(t, place, place + 4);
        let value = u32_from_le_bytes(bytes);
        proof {
            lemma_places32_grow(t@, DECRYPT_PATTERN, place + 1, n4 as int);
        }
        if value == DECRYPT_PATTERN {
            decrypt_locations[decrypt_count] = #[verifier::truncate] (place as u8);
            decrypt_count += 1;
        }
        place += 1;
        assert(decrypt_locations@ =~= location_slots(places32(t@, DECRYPT_PATTERN, place as int)));
    }
    (imm_locations, off_locations, decrypt_locations)
}

/// The two byte strings are equal.
fn bytes_equal(a: &[u8], b: &[u8]) -> (r: bool)
    ensures
        r == (a@ == b@),
{
    if a.len() != b.len() {
        return false;
    }
    let mut i: usize = 0;
    while i < a.len()
        invariant
            a@.len() == b@.len(),
            i <= a@.len(),
            a@.subrange(0, i as int) == b@.subrange(0, i as int),
        decreases a@.len() - i,
    {
        if a[i] != b[i] {
            assert(a@[i as int] != b@[i as int]);
            return false;
        }
        assert(a@.subrange(0, i + 1) =~= a@.subrange(0, i as int).push(a@[i as int]));
        assert(b@.subrange(0, i + 1) =~= b@.subrange(0, i as int).push(b@[i as int]));
        i += 1;
    }
    assert(a@ =~= a@.subrange(0, i as int));
    assert(b@ =~= b@.subrange(0, i as int));
    true
}

/// The meta data of template slot `slot` of a table whose slot 0, the
/// template of invalid encodings, is `invalid`: no template for a slot equal
/// to it; otherwise the template up to its epilog and where its
/// placeholders are.
pub fn instruction_template_meta(slot: &[u8], invalid: &[u8]) -> (m: InsnMeta)
    requires
        slot@ == invalid@ || slot_scannable(slot@),
    ensures
        m@ == slot_meta(slot@, invalid@),
{
    if bytes_equal(slot, invalid) {
        let m = InsnMeta {
            template: None,
            imm_locations: [0; 4],
            off_locations: [0; 4],
            decrypt_locations: [0; 4],
        };
        assert(m@.imm =~= location_slots(Seq::empty()));
        assert(m@.off =~= location_slots(Seq::empty()));
        assert(m@.decrypt =~= location_slots(Seq::empty()));
        m
    } else {
        let template_len = match find_epilog(slot) {
            Some(len) => len,
            None => {
                assert(false);
                0
            },
        };
        assert(template_len <= slot@.len()) by {
            assert(is_epilog_at(slot@, template_len as int)) by {
                lemma_first_epilog(slot@, 0);
            }
        }
        let template = slice_subrange(slot, 0, template_len);
        let (imm_locations, off_locations, decrypt_locations) = scan_template(template);
        InsnMeta {
            template: Some(slice_to_vec(template)),
            imm_locations,
            off_locations,
            decrypt_locations,
        }
    }
}

/// A found epilog is an epilog, at or after the start of the search.
proof fn lemma_first_epilog(t: Seq<u8>, i: int)
    ensures
        first_epilog_from(t, i) matches Some(p) ==> is_epilog_at(t, p) && i <= p,
    decreases t.len() - i,
{
    if i >= 0 && i + 4 <= t.len() && !is_epilog_at(t, i) {
        lemma_first_epilog(t, i + 1);
    }
}

/// The table of templates is handled by the scan: every slot other than the
/// invalid template of slot 0 has an epilog and few placeholders.
pub open spec fn table_scannable(table: Seq<u8>) -> bool {
    forall|index: int|
        0 <= index < TEMPLATE_COUNT ==> #[trigger] template_slot(table, index) == template_slot(table, 0)
            || slot_scannable(template_slot(table, index))
}

/// Number of places of `pattern` among the 8-byte windows of `t`.
fn count_places64(t: &[u8], pattern: u64) -> (c: usize)
    ensures
        c == places64(t@, pattern, windows(t@, 8)).len(),
{
    let n8: usize = if t.len() >= 8 { t.len() - 7 } else { 0 };
    let tl = t.len();
    let mut count: usize = 0;
    let mut place: usize = 0;
    while place < n8
        invariant
            tl == t@.len(),
            n8 == windows(t@, 8),
            n8 == 0 || n8 + 7 == t@.len(),
            place <= n8,
            count == places64(t@, pattern, place as int).len(),
            count <= place,
        decreases n8 - place,
    {
        let value = u64_from_le_bytes(slice_subrange(t, place, place + 8));
        if value == pattern {
            count += 1;
        }
        place += 1;
    }
    count
}

/// Number of places of `pattern` among the 4-byte windows of `t`.
fn count_places32(t: &[u8], pattern: u32) -> (c: usize)
    ensures
        c == places32(t@, pattern, windows(t@, 4)).len(),
{
    let n4: usize = if t.len() >= 4 { t.len() - 3 } else { 0 };
    let tl = t.len();
    let mut count: usize = 0;
    let mut place: usize = 0;
    while place < n4
        invariant
            tl == t@.len(),
            n4 == windows(t@, 4),
            n4 == 0 || n4 + 3 == t@.len(),
            place <= n4,
            count == places32(t@, pattern, place as int).len(),
            count <= place,
        decreases n4 - place,
    {
        let value = u32_from_le_bytes(slice_subrange(t, place, place + 4));
        if value == pattern {
            count += 1;
        }
        place += 1;
    }
    count
}

/// Whether `slot` is a template slot the scan handles.
fn check_slot(slot: &[u8]) -> (r: bool)
    ensures
        r == slot_scannable(slot@),
{
    match find_epilog(slot) {
        None => false,
        Some(len) => {
            proof {
                lemma_first_epilog(slot@, 0);
            }
            let template = slice_subrange(slot, 0, len);
            count_places64(template, IMM_PATTERN) <= 4 && count_places64(template, OFF_PATTERN) <= 4
                && count_places32(template, DECRYPT_PATTERN) <= 4
        },
    }
}

/// Whether `table` is a template table the compiler takes: of the full size,
/// with every slot other than the invalid template of slot 0 scannable.
pub fn check_template_table(table: &[u8]) -> (r: bool)
    ensures
        r == (table@.len() == TEMPLATE_COUNT * TEMPLATE_SLOT && table_scannable(table@)),
{
    if table.len() != TEMPLATE_COUNT * TEMPLATE_SLOT {
        return false;
    }
    let invalid_instruction_template = slice_subrange(table, 0, TEMPLATE_SLOT);
    let mut index: usize = 0;
    while index < TEMPLATE_COUNT
        invariant
            table@.len() == TEMPLATE_COUNT * TEMPLATE_SLOT,
            invalid_instruction_template@ == template_slot(table@, 0),
            index <= TEMPLATE_COUNT,
            forall|k: int|
                0 <= k < index ==> #[trigger] template_slot(table@, k) == template_slot(table@, 0)
                    || slot_scannable(template_slot(table@, k)),
        decreases TEMPLATE_COUNT - index,
    {
        let slot = slice_subrange(table, index * TEMPLATE_SLOT, (index + 1) * TEMPLATE_SLOT);
        assert(slot@ == template_slot(table@, index as int));
        if !bytes_equal(slot, invalid_instruction_template) && !check_slot(slot) {
            return false;
        }
        index += 1;
    }
    true
}

/// The meta data of every template of the template table, in slot order.
pub fn get_instruction_template_metas(table: &[u8]) -> (metas: Vec<InsnMeta>)
    requires
        table@.len() == TEMPLATE_COUNT * TEMPLATE_SLOT,
        table_scannable(table@),
    ensures
        meta_views(metas@) == table_metas(table@),
        metas_wf(table_metas(table@)),
{
    let invalid_instruction_template = slice_subrange(table, 0, TEMPLATE_SLOT);
    let mut metas: Vec<InsnMeta> = Vec::new();
    let mut index: usize = 0;
    while index < TEMPLATE_COUNT
        invariant
            table@.len() == TEMPLATE_COUNT * TEMPLATE_SLOT,
            table_scannable(table@),
            invalid_instruction_template@ == template_slot(table@, 0),
            index <= TEMPLATE_COUNT,
            metas@.len() == index,
            forall|k: int|
                0 <= k < index ==> (#[trigger] metas@[k])@ == slot_meta(
                    template_slot(table@, k),
                    template_slot(table@, 0),
                ),
        decreases TEMPLATE_COUNT - index,
    {
        let instruction_template = slice_subrange(
            table,
            index * TEMPLATE_SLOT,
            (index + 1) * TEMPLATE_SLOT,
        );
        assert(template_slot(table@, index as int) == template_slot(table@, 0) || slot_scannable(
            template_slot(table@, index as int),
        ));
        let meta = instruction_template_meta(instruction_template, invalid_instruction_template);
        metas.push(meta);
        index += 1;
    }
    assert(meta_views(metas@) =~= table_metas(table@));
    assert forall|i: int| 0 <= i < table_metas(table@).len() implies meta_wf(
        #[trigger] table_metas(table@)[i],
    ) by {
        assert(template_slot(table@, i) == template_slot(table@, 0) || slot_scannable(
            template_slot(table@, i),
        ));
        lemma_slot_meta_wf(template_slot(table@, i), template_slot(table@, 0));
    }
    metas
}

/// Largest program, in 8-byte words, the compiler takes: the largest `n`
/// with `125 * n < 2^31`. A template holds at most 124 bytes and no-op space
/// adds at most one, so every position stays below `2^31`: positions fit
/// `u32`, and the jump distances, differences of positions taken as `i32`,
/// cannot overflow.
pub const MAX_PROGRAM_WORDS: usize = 17_179_869;

/// The program held by `text`: its whole 8-byte little-endian words.
pub open spec fn program_words(text: Seq<u8>) -> Seq<u64> {
    Seq::new((text.len() / 8) as nat, |k: int| u64_at(text, 8 * k))
}

/// The wide immediate load, which spans two words.
pub open spec fn is_lddw(insn: u64) -> bool {
    insn % 256 == ebpf::LD_DW_IMM
}

/// The meta data for an instruction word: that of its first 16 bits.
pub open spec fn meta_of(metas: Seq<MetaView>, insn: u64) -> MetaView {
    metas[(insn % 65536) as int]
}

/// Length of the template of an instruction word.
pub open spec fn template_len(metas: Seq<MetaView>, insn: u64) -> int {
    meta_of(metas, insn).template.unwrap().len() as int
}

/// The word after the instruction that starts at word `k`.
pub open spec fn next_slot(program: Seq<u64>, k: int) -> int {
    if is_lddw(program[k]) { k + 2 } else { k + 1 }
}

/// Word `k` starts an instruction.
pub open spec fn is_slot_start(program: Seq<u64>, k: int) -> bool
    decreases k,
{
    if k <= 0 {
        k == 0
    } else {
        (is_slot_start(program, k - 1) && !is_lddw(program[k - 1])) || (k >= 2 && is_slot_start(
            program,
            k - 2,
        ) && is_lddw(program[k - 2]))
    }
}

/// Where the scan of the instructions from word `k` on stops: past the end,
/// by one word when the last instruction is a truncated wide load.
pub open spec fn end_word(program: Seq<u64>, k: int) -> int
    decreases program.len() + 1 - k,
{
    if k < 0 || k >= program.len() {
        k
    } else {
        end_word(program, next_slot(program, k))
    }
}

/// The instructions from word `k` on all have templates.
pub open spec fn templates_exist(program: Seq<u64>, metas: Seq<MetaView>, k: int) -> bool
    decreases program.len() + 1 - k,
{
    if k < 0 || k >= program.len() {
        true
    } else {
        meta_of(metas, program[k]).template is Some && templates_exist(
            program,
            metas,
            next_slot(program, k),
        )
    }
}

/// Byte of no-op space: `nop`.
pub const NOOP_BYTE: u8 = 0x90;

/// Where the code after the instruction at word `k` starts: the position of
/// the next instruction, or `end`, the end of the code, after the last one.
pub open spec fn next_position(program: Seq<u64>, pc: Seq<u32>, end: u32, k: int) -> int {
    if next_slot(program, k) < program.len() {
        pc[next_slot(program, k)] as int
    } else {
        end as int
    }
}

/// What the first scan gives: the position of every instruction in the code,
/// `u32::MAX` for the second word of a wide load, and `end`, where the code
/// ends. Each instruction follows the one before it, whose template it leaves
/// room for, plus at most one byte of no-op space.
pub open spec fn pc_section_ok(program: Seq<u64>, metas: Seq<MetaView>, pc: Seq<u32>, end: u32) -> bool {
    &&& pc.len() == end_word(program, 0)
    &&& program.len() > 0 ==> pc[0] == 0
    &&& program.len() == 0 ==> end == 0
    &&& forall|i: int| 0 <= i < pc.len() ==> #[trigger] pc[i] == u32::MAX || pc[i] <= 125 * i
    &&& forall|k: int|
        0 <= k < program.len() && #[trigger] is_slot_start(program, k) ==> {
            &&& pc[k] <= 125 * k
            &&& is_lddw(program[k]) ==> pc[k + 1] == u32::MAX
            &&& next_position(program, pc, end, k) == pc[k] + template_len(metas, program[k])
                || next_position(program, pc, end, k) == pc[k] + template_len(metas, program[k]) + 1
        }
}

/// `t` with `bytes` written at each used location of `locs`, from slot `i` on;
/// the first unused (zero) slot ends the list.
pub open spec fn write_locations(t: Seq<u8>, locs: Seq<u8>, bytes: Seq<u8>, i: int) -> Seq<u8>
    decreases 4 - i,
{
    if i < 0 || i >= 4 || locs[i] == 0 {
        t
    } else {
        write_locations(splice(t, locs[i] as int, bytes), locs, bytes, i + 1)
    }
}

/// The immediate field of a word, minus the key.
pub open spec fn word_imm(insn: u64, key: i32) -> i64 {
    i32_specs::wrapping_sub((insn >> 32) as i32, key) as i64
}

/// The immediate of the instruction at word `k`: for a wide load the first
/// word's immediate in the high half, or'ed with the second's.
pub open spec fn slot_imm(program: Seq<u64>, k: int, key: i32) -> u64 {
    if is_lddw(program[k]) {
        ((word_imm(program[k], key) as u64) << 32u64) | (word_imm(program[k + 1], key) as u64)
    } else {
        word_imm(program[k], key) as u64
    }
}

/// The offset field of a word.
pub open spec fn word_offset(insn: u64) -> i16 {
    (insn >> 16) as i16
}

/// The instruction at word `k` is a jump of either width.
pub open spec fn is_jump(insn: u64) -> bool {
    insn % 8 == ebpf::BPF_JMP32 || insn % 8 == ebpf::BPF_JMP64
}

/// Word index a jump at word `k` lands on.
pub open spec fn jump_target(program: Seq<u64>, k: int) -> int {
    (k + word_offset(program[k])) as u32 as int
}

/// The offset of the instruction at word `k`, minus the key: for a jump the
/// distance in code bytes to its target; `None` for a jump past the end.
pub open spec fn slot_offset(program: Seq<u64>, pc: Seq<u32>, k: int, key: i32) -> Option<u64> {
    if is_jump(program[k]) {
        let target = jump_target(program, k);
        if target > pc.len() {
            None
        } else {
            Some(i32_specs::wrapping_sub(((pc[target] as i32) - (pc[k] as i32)) as i32, key) as i64 as u64)
        }
    } else {
        Some(i32_specs::wrapping_sub(word_offset(program[k]) as i32, key) as i64 as u64)
    }
}

/// The offset patched into an instruction other than a jump is its 16-bit
/// offset field, bits 16 to 31 of the word, read as a signed number, minus
/// the key, wrapped to 32 bits and sign-extended to the 8 bytes of the field.
pub proof fn lemma_non_jump_offset(program: Seq<u64>, pc: Seq<u32>, k: int, key: i32)
    requires
        0 <= k < program.len(),
        program[k] % 8 != ebpf::BPF_JMP32,
        program[k] % 8 != ebpf::BPF_JMP64,
    ensures
        slot_offset(program, pc, k, key) is Some,
        ({
            let v = slot_offset(program, pc, k, key).unwrap();
            let field = ((program[k] >> 16u64) & 0xffff) as int;
            let signed = if field >= 0x8000 { field - 0x1_0000 } else { field };
            &&& v < 0x8000_0000 || v >= 0xffff_ffff_8000_0000
            &&& ((if v < 0x8000_0000 { v as int } else { v as int - 0x1_0000_0000_0000_0000 }) - (signed - key))
                % 0x1_0000_0000 == 0
        }),
{
    let insn = program[k];
    let x = i32_specs::wrapping_sub(word_offset(insn) as i32, key);
    let w: i16 = word_offset(insn);
    let f: u64 = (insn >> 16u64) & 0xffff;
    assert(w == (insn >> 16u64) as i16);
    assert(f >= 0x8000 ==> w as i64 + 0x1_0000 == f as i64) by (bit_vector)
        requires
            w == (insn >> 16u64) as i16,
            f == (insn >> 16u64) & 0xffff,
    ;
    assert(f <= 0xffff) by (bit_vector)
        requires
            f == (insn >> 16u64) & 0xffff,
    ;
    assert(f < 0x8000 ==> w as i64 == f as i64) by (bit_vector)
        requires
            w == (insn >> 16u64) as i16,
            f == (insn >> 16u64) & 0xffff,
    ;
    assert(x >= 0 ==> (x as i64 as u64) as int == x as int) by (bit_vector);
    assert(x < 0 ==> (x as i64 as u64) as int == x as int + 0x1_0000_0000_0000_0000) by (bit_vector);
    let field = ((insn >> 16u64) & 0xffff) as int;
    let signed = if field >= 0x8000 { field - 0x1_0000 } else { field };
    assert(field == f as int);
    assert(f >= 0x8000 ==> signed == w as int);
    assert(f < 0x8000 ==> signed == w as int);
    assert(signed == word_offset(insn) as int);
    let v = slot_offset(program, pc, k, key).unwrap();
    assert(v == x as i64 as u64);
    let sv = if v < 0x8000_0000 { v as int } else { v as int - 0x1_0000_0000_0000_0000 };
    assert(sv == x as int);
    assert(x as int - (signed - key) == 0 || x as int - (signed - key) == 0x1_0000_0000 || x as int
        - (signed - key) == -0x1_0000_0000);
}

/// The immediate patched into an instruction other than a wide load is its
/// 32-bit immediate field, bits 32 to 63 of the word, read as a signed
/// number, minus the key, wrapped to 32 bits and sign-extended to 8 bytes.
pub proof fn lemma_immediate_field(program: Seq<u64>, k: int, key: i32)
    requires
        0 <= k < program.len(),
        program[k] % 256 != ebpf::LD_DW_IMM,
    ensures
        ({
            let v = slot_imm(program, k, key);
            let field = (program[k] >> 32u64) as int;
            let signed = if field >= 0x8000_0000 { field - 0x1_0000_0000 } else { field };
            &&& v < 0x8000_0000 || v >= 0xffff_ffff_8000_0000
            &&& ((if v < 0x8000_0000 { v as int } else { v as int - 0x1_0000_0000_0000_0000 }) - (signed - key))
                % 0x1_0000_0000 == 0
        }),
{
    let insn = program[k];
    let w: i32 = (insn >> 32) as i32;
    let f: u64 = insn >> 32u64;
    assert(f <= 0xffff_ffff) by (bit_vector)
        requires
            f == insn >> 32u64,
    ;
    assert(f >= 0x8000_0000 ==> w as i64 + 0x1_0000_0000 == f as i64) by (bit_vector)
        requires
            w == (insn >> 32u64) as i32,
            f == insn >> 32u64,
    ;
    assert(f < 0x8000_0000 ==> w as i64 == f as i64) by (bit_vector)
        requires
            w == (insn >> 32u64) as i32,
            f == insn >> 32u64,
    ;
    let x = i32_specs::wrapping_sub(w, key);
    assert(x >= 0 ==> (x as i64 as u64) as int == x as int) by (bit_vector);
    assert(x < 0 ==> (x as i64 as u64) as int == x as int + 0x1_0000_0000_0000_0000) by (bit_vector);
    assert(word_imm(insn, key) == x as i64);
    let v = slot_imm(program, k, key);
    assert(v == x as i64 as u64);
    assert(x as int - ((if f >= 0x8000_0000 { f as int - 0x1_0000_0000 } else { f as int }) - key) == 0
        || x as int - ((if f >= 0x8000_0000 { f as int - 0x1_0000_0000 } else { f as int }) - key)
        == 0x1_0000_0000 || x as int - ((if f >= 0x8000_0000 { f as int - 0x1_0000_0000 } else {
        f as int
    }) - key) == -0x1_0000_0000);
}

/// The code of the instruction at word `k`: its template with the
/// immediate, the offset and the key written at their locations.
pub open spec fn slot_code(
    program: Seq<u64>,
    metas: Seq<MetaView>,
    pc: Seq<u32>,
    key: i32,
    k: int,
) -> Result<Seq<u8>, EbpfError> {
    let m = meta_of(metas, program[k]);
    match m.template {
        None => Err(EbpfError::InvalidInstruction),
        Some(t) => {
            if is_lddw(program[k]) && k + 1 >= program.len() {
                Err(EbpfError::InvalidInstruction)
            } else {
                let t1 = write_locations(t, m.imm, spec_u64_to_le_bytes(slot_imm(program, k, key)), 0);
                if m.off[0] == 0 {
                    Ok(write_locations(t1, m.decrypt, spec_u32_to_le_bytes(key as u32), 0))
                } else {
                    match slot_offset(program, pc, k, key) {
                        None => Err(EbpfError::InvalidInstruction),
                        Some(off) => {
                            let t2 = write_locations(t1, m.off, spec_u64_to_le_bytes(off), 0);
                            Ok(write_locations(t2, m.decrypt, spec_u32_to_le_bytes(key as u32), 0))
                        },
                    }
                }
            }
        },
    }
}

/// The no-op space after the instruction at word `k`: one `NOOP_BYTE` where
/// the positions leave room for it.
pub open spec fn noop_fill(program: Seq<u64>, metas: Seq<MetaView>, pc: Seq<u32>, end: u32, k: int) -> Seq<u8> {
    if next_position(program, pc, end, k) == pc[k] + template_len(metas, program[k]) + 1 {
        seq![NOOP_BYTE]
    } else {
        Seq::empty()
    }
}

/// The code of the instructions from word `k` on, one after the other, each
/// followed by the no-op space its position leaves.
pub open spec fn spec_second_scan(
    program: Seq<u64>,
    metas: Seq<MetaView>,
    pc: Seq<u32>,
    end: u32,
    key: i32,
    k: int,
) -> Result<Seq<u8>, EbpfError>
    decreases program.len() + 1 - k,
{
    if k < 0 || k >= program.len() {
        Ok(Seq::empty())
    } else {
        match slot_code(program, metas, pc, key, k) {
            Err(e) => Err(e),
            Ok(code) => match spec_second_scan(program, metas, pc, end, key, next_slot(program, k)) {
                Err(e) => Err(e),
                Ok(rest) => Ok(code + noop_fill(program, metas, pc, end, k) + rest),
            },
        }
    }
}

/// No jump that the second scan patches lands exactly one past the last
/// position: the scan would read past the positions there.
pub open spec fn no_jump_to_end(program: Seq<u64>, metas: Seq<MetaView>, pc_len: int) -> bool {
    forall|k: int|
        0 <= k < program.len() && #[trigger] is_slot_start(program, k) && is_jump(program[k])
            && meta_of(metas, program[k]).template is Some && meta_of(
            metas,
            program[k],
        ).off[0] != 0 ==> jump_target(program, k) != pc_len
}

/// Every meta data is well formed and there is one per 16-bit value.
pub open spec fn metas_wf(metas: Seq<MetaView>) -> bool {
    metas.len() == TEMPLATE_COUNT && forall|i: int| 0 <= i < metas.len() ==> meta_wf(#[trigger] metas[i])
}

/// The second word of a wide load never starts an instruction.
pub proof fn lemma_second_word_not_start(program: Seq<u64>, k: int)
    requires
        0 <= k,
        k + 1 < program.len(),
        is_slot_start(program, k),
        is_lddw(program[k]),
    ensures
        !is_slot_start(program, k + 1),
    decreases k,
{
    if k >= 1 && is_slot_start(program, k - 1) && is_lddw(program[k - 1]) {
        lemma_second_word_not_start(program, k - 1);
    }
}

/// An instruction ends at or before the start of any later one.
proof fn lemma_next_slot_le(program: Seq<u64>, j: int, k: int)
    requires
        0 <= j < k < program.len(),
        is_slot_start(program, j),
        is_slot_start(program, k),
    ensures
        next_slot(program, j) <= k,
{
    if is_lddw(program[j]) && k == j + 1 {
        lemma_second_word_not_start(program, j);
    }
}

/// Only the instruction just before it leads to an instruction start.
proof fn lemma_unique_predecessor(program: Seq<u64>, j: int, k: int)
    requires
        0 <= j < k < program.len(),
        is_slot_start(program, j),
        is_slot_start(program, k),
        next_slot(program, j) <= k + 1,
        k <= next_slot(program, j),
    ensures
        next_slot(program, j) == k,
{
    if next_slot(program, j) == k + 1 {
        lemma_second_word_not_start(program, j);
    }
}

/// The no-op space recorded in `pc` and `end` follows the countdown `cd`:
/// every instruction's countdown lies in `0..=limit`; an instruction is
/// followed by a byte of no-op space exactly when its countdown is zero, after
/// which the next countdown is drawn afresh; otherwise the next instruction's
/// countdown is one less.
pub open spec fn noop_countdown_ok(
    program: Seq<u64>,
    metas: Seq<MetaView>,
    pc: Seq<u32>,
    end: u32,
    limit: int,
    cd: Seq<u32>,
) -> bool {
    &&& cd.len() == pc.len()
    &&& forall|k: int|
        0 <= k < program.len() && #[trigger] is_slot_start(program, k) ==> {
            &&& cd[k] <= limit
            &&& (cd[k] == 0) == (next_position(program, pc, end, k) == pc[k] + template_len(
                metas,
                program[k],
            ) + 1)
            &&& next_slot(program, k) < program.len() && cd[k] > 0 ==> cd[next_slot(program, k)]
                == cd[k] - 1
        }
}

/// The no-op space of `pc` and `end` follows some countdown drawn from
/// `0..=limit`: no more than `limit` instructions in a row go without it.
pub open spec fn noop_spacing_ok(
    program: Seq<u64>,
    metas: Seq<MetaView>,
    pc: Seq<u32>,
    end: u32,
    limit: int,
) -> bool {
    exists|cd: Seq<u32>| #[trigger] noop_countdown_ok(program, metas, pc, end, limit, cd)
}

/// The `len` instructions from word `j` on are each followed by another
/// instruction, with no no-op space between them.
pub open spec fn gapless_run(
    program: Seq<u64>,
    metas: Seq<MetaView>,
    pc: Seq<u32>,
    j: int,
    len: nat,
) -> bool
    decreases len,
{
    if len == 0 {
        true
    } else {
        &&& 0 <= j
        &&& next_slot(program, j) < program.len()
        &&& pc[next_slot(program, j)] == pc[j] + template_len(metas, program[j])
        &&& gapless_run(program, metas, pc, next_slot(program, j), (len - 1) as nat)
    }
}

/// Along a run without no-op space the countdown goes down by one per
/// instruction.
proof fn lemma_countdown_covers_run(
    program: Seq<u64>,
    metas: Seq<MetaView>,
    pc: Seq<u32>,
    end: u32,
    limit: int,
    cd: Seq<u32>,
    j: int,
    len: nat,
)
    requires
        noop_countdown_ok(program, metas, pc, end, limit, cd),
        0 <= j < program.len(),
        is_slot_start(program, j),
        gapless_run(program, metas, pc, j, len),
    ensures
        cd[j] >= len,
    decreases len,
{
    if len > 0 {
        let next = next_slot(program, j);
        assert(is_slot_start(program, next));
        if len > 1 {
            lemma_countdown_covers_run(program, metas, pc, end, limit, cd, next, (len - 1) as nat);
        }
    }
}

/// No more than `limit` instructions in a row go without no-op space; with a
/// limit of zero every instruction, the last one too, is followed by no-op
/// space.
pub proof fn lemma_noop_spacing(
    program: Seq<u64>,
    metas: Seq<MetaView>,
    pc: Seq<u32>,
    end: u32,
    limit: int,
    j: int,
    len: nat,
)
    requires
        noop_spacing_ok(program, metas, pc, end, limit),
        0 <= j < program.len(),
        is_slot_start(program, j),
        gapless_run(program, metas, pc, j, len),
    ensures
        len <= limit,
        limit == 0 ==> next_position(program, pc, end, j) == pc[j] + template_len(metas, program[j])
            + 1,
{
    let cd = choose|cd: Seq<u32>| noop_countdown_ok(program, metas, pc, end, limit, cd);
    lemma_countdown_covers_run(program, metas, pc, end, limit, cd, j, len);
}

/// Every word of the program starts an instruction or is the second word of
/// a wide load.
proof fn lemma_word_covered(program: Seq<u64>, i: int)
    requires
        0 <= i,
    ensures
        is_slot_start(program, i) || (i >= 1 && is_slot_start(program, i - 1) && is_lddw(
            program[i - 1],
        )),
    decreases i,
{
    if i > 0 {
        lemma_word_covered(program, i - 1);
    }
}

/// The scan ends one word past the end only after a wide load that starts on
/// the last word.
proof fn lemma_end_past_last(program: Seq<u64>, k: int)
    requires
        0 <= k <= program.len(),
        is_slot_start(program, k),
        end_word(program, k) == program.len() + 1,
    ensures
        program.len() >= 1,
        is_slot_start(program, program.len() - 1),
        is_lddw(program[program.len() - 1]),
    decreases program.len() - k,
{
    if k < program.len() {
        let next = next_slot(program, k);
        if next <= program.len() {
            assert(is_slot_start(program, next));
            lemma_end_past_last(program, next);
        }
    }
}

/// With no room for countdowns, the position of every instruction follows
/// from those before it.
proof fn lemma_rate_zero_slot(
    program: Seq<u64>,
    metas: Seq<MetaView>,
    pc1: Seq<u32>,
    end1: u32,
    pc2: Seq<u32>,
    end2: u32,
    k: int,
)
    requires
        pc_section_ok(program, metas, pc1, end1),
        pc_section_ok(program, metas, pc2, end2),
        noop_spacing_ok(program, metas, pc1, end1, 0),
        noop_spacing_ok(program, metas, pc2, end2, 0),
        0 <= k < program.len(),
        is_slot_start(program, k),
    ensures
        pc1[k] == pc2[k],
    decreases k,
{
    if k > 0 {
        let p = if is_slot_start(program, k - 1) && !is_lddw(program[k - 1]) {
            k - 1
        } else {
            k - 2
        };
        assert(is_slot_start(program, p) && next_slot(program, p) == k);
        lemma_rate_zero_slot(program, metas, pc1, end1, pc2, end2, p);
        lemma_noop_spacing(program, metas, pc1, end1, 0, p, 0);
        lemma_noop_spacing(program, metas, pc2, end2, 0, p, 0);
    }
}

/// With a no-op limit of 0 the positions and the end of the code are
/// determined by the program and the templates alone: two results of the
/// first scan are equal. Two compilations with a no-op rate of 0 therefore
/// differ only through the key.
pub proof fn lemma_rate_zero_positions(
    program: Seq<u64>,
    metas: Seq<MetaView>,
    pc1: Seq<u32>,
    end1: u32,
    pc2: Seq<u32>,
    end2: u32,
)
    requires
        pc_section_ok(program, metas, pc1, end1),
        pc_section_ok(program, metas, pc2, end2),
        noop_spacing_ok(program, metas, pc1, end1, 0),
        noop_spacing_ok(program, metas, pc2, end2, 0),
    ensures
        pc1 == pc2,
        end1 == end2,
{
    lemma_end_word_bounds(program, 0);
    assert forall|i: int| 0 <= i < pc1.len() implies pc1[i] == pc2[i] by {
        if i < program.len() {
            lemma_word_covered(program, i);
            if is_slot_start(program, i) {
                lemma_rate_zero_slot(program, metas, pc1, end1, pc2, end2, i);
            } else {
                assert(is_slot_start(program, i - 1));
            }
        } else {
            assert(is_slot_start(program, 0));
            lemma_end_past_last(program, 0);
            assert(is_slot_start(program, program.len() - 1));
        }
    }
    assert(pc1 =~= pc2);
    if program.len() > 0 {
        let n = program.len() as int;
        lemma_word_covered(program, n - 1);
        let last = if is_slot_start(program, n - 1) {
            n - 1
        } else {
            n - 2
        };
        assert(is_slot_start(program, last) && next_slot(program, last) >= n);
        lemma_rate_zero_slot(program, metas, pc1, end1, pc2, end2, last);
        lemma_noop_spacing(program, metas, pc1, end1, 0, last, 0);
        lemma_noop_spacing(program, metas, pc2, end2, 0, last, 0);
    }
}

/// First scan: the position in the code of every instruction, with a byte of
/// no-op space after an instruction whenever the countdown drawn from
/// `noop_range` runs out. Fails on an instruction without a template.
pub fn first_scan(
    program: &Vec<u64>,
    metas: &[InsnMeta],
    noop_range: &NoopRange,
    rng: &mut SmallRng,
) -> (r: Result<(Vec<u32>, u32), EbpfError>)
    requires
        metas_wf(meta_views(metas@)),
        program@.len() <= MAX_PROGRAM_WORDS,
    ensures
        match r {
            Ok((pc, end)) => {
                &&& templates_exist(program@, meta_views(metas@), 0)
                &&& pc_section_ok(program@, meta_views(metas@), pc@, end)
                &&& noop_spacing_ok(
                    program@,
                    meta_views(metas@),
                    pc@,
                    end,
                    noop_range_high(*noop_range) as int,
                )
            },
            Err(e) => e == EbpfError::InvalidInstruction && !templates_exist(program@, meta_views(metas@), 0),
        },
{
    let n = program.len();
    let mut position: u32 = 0;
    let mut next_noop_insertion = sample(noop_range, rng);
    let mut pc_section: Vec<u32> = Vec::with_capacity(n);
    let mut k: usize = 0;
    let ghost mut prev: int = 0;
    let ghost mut cd: Seq<u32> = Seq::empty();
    let ghost limit: int = noop_range_high(*noop_range) as int;
    while k < n
        invariant
            n == program@.len(),
            n <= MAX_PROGRAM_WORDS,
            metas_wf(meta_views(metas@)),
            k <= n + 1,
            k < n ==> is_slot_start(program@, k as int),
            end_word(program@, 0) == end_word(program@, k as int),
            templates_exist(program@, meta_views(metas@), 0) == templates_exist(program@, meta_views(metas@), k as int),
            pc_section@.len() == k,
            cd.len() == k,
            limit == noop_range_high(*noop_range),
            next_noop_insertion <= limit,
            forall|i: int|
                0 <= i < pc_section@.len() ==> #[trigger] pc_section@[i] == u32::MAX
                    || pc_section@[i] <= 125 * i,
            position <= 125 * k,
            k == 0 ==> position == 0,
            n > 0 && k > 0 ==> pc_section@[0] == 0,
            k > 0 ==> {
                &&& 0 <= prev < n
                &&& is_slot_start(program@, prev)
                &&& next_slot(program@, prev) == k
                &&& meta_of(meta_views(metas@), program@[prev]).template is Some
                &&& (position == pc_section@[prev] + template_len(meta_views(metas@), program@[prev])
                    || position == pc_section@[prev] + template_len(meta_views(metas@), program@[prev]) + 1)
                &&& cd[prev] <= limit
                &&& (cd[prev] == 0) == (position == pc_section@[prev] + template_len(
                    meta_views(metas@),
                    program@[prev],
                ) + 1)
                &&& cd[prev] > 0 ==> next_noop_insertion == cd[prev] - 1
            },
            forall|j: int|
                0 <= j < n && j < k && #[trigger] is_slot_start(program@, j) ==> {
                    &&& pc_section@[j] <= 125 * j
                    &&& is_lddw(program@[j]) ==> pc_section@[j + 1] == u32::MAX
                    &&& next_slot(program@, j) < k ==> pc_section@[next_slot(program@, j)]
                        == pc_section@[j] + template_len(meta_views(metas@), program@[j])
                        || pc_section@[next_slot(program@, j)] == pc_section@[j] + template_len(
                        meta_views(metas@),
                        program@[j],
                    ) + 1
                    &&& cd[j] <= limit
                    &&& next_slot(program@, j) < k ==> {
                        &&& (cd[j] == 0) == (pc_section@[next_slot(program@, j)] == pc_section@[j]
                            + template_len(meta_views(metas@), program@[j]) + 1)
                        &&& cd[j] > 0 ==> cd[next_slot(program@, j)] == cd[j] - 1
                    }
                },
        decreases n + 1 - k,
    {
        let ghost old_prev = prev;
        let ghost k0 = k as int;
        let ghost old_pc = pc_section@;
        let ghost old_cd = cd;
        let insn = program[k];
        let meta = &metas[(insn as u16) as usize];
        assert((insn as u16) as int == insn % 65536) by (bit_vector);
        let template_slice = match meta.template() {
            Some(t) => t,
            None => {
                return Err(EbpfError::InvalidInstruction);
            },
        };
        proof {
            prev = k as int;
        }
        pc_section.push(position);
        proof {
            cd = cd.push(next_noop_insertion);
        }
        assert((insn as u8 == ebpf::LD_DW_IMM) == (insn % 256 == ebpf::LD_DW_IMM)) by (bit_vector);
        if insn as u8 == ebpf::LD_DW_IMM {
            k += 1;
            pc_section.push(u32::MAX);
            proof {
                cd = cd.push(0);
            }
        }
        k += 1;
        proof {
            assert forall|j: int|
                0 <= j < n && j < k && #[trigger] is_slot_start(program@, j) implies {
                    &&& pc_section@[j] <= 125 * j
                    &&& is_lddw(program@[j]) ==> pc_section@[j + 1] == u32::MAX
                    &&& next_slot(program@, j) < k ==> pc_section@[next_slot(program@, j)]
                        == pc_section@[j] + template_len(meta_views(metas@), program@[j])
                        || pc_section@[next_slot(program@, j)] == pc_section@[j] + template_len(
                        meta_views(metas@),
                        program@[j],
                    ) + 1
                    &&& cd[j] <= limit
                    &&& next_slot(program@, j) < k ==> {
                        &&& (cd[j] == 0) == (pc_section@[next_slot(program@, j)] == pc_section@[j]
                            + template_len(meta_views(metas@), program@[j]) + 1)
                        &&& cd[j] > 0 ==> cd[next_slot(program@, j)] == cd[j] - 1
                    }
                } by {
                if j == k0 {
                    assert(pc_section@[j] <= 125 * j);
                    assert(is_lddw(program@[j]) ==> pc_section@[j + 1] == u32::MAX);
                    assert(next_slot(program@, j) == k);
                } else {
                    if j == k0 + 1 {
                        lemma_second_word_not_start(program@, k0);
                    }
                    assert(j < k0);
                    assert(pc_section@[j] == old_pc[j]);
                    assert(cd[j] == old_cd[j]);
                    if is_lddw(program@[j]) && j + 1 == k0 {
                        lemma_second_word_not_start(program@, j);
                    }
                    if next_slot(program@, j) >= k0 && next_slot(program@, j) < k {
                        lemma_unique_predecessor(program@, j, k0);
                        if j != old_prev {
                            lemma_unique_predecessor(program@, old_prev, k0);
                            if j < old_prev {
                                lemma_unique_predecessor(program@, j, old_prev);
                            } else {
                                lemma_unique_predecessor(program@, old_prev, j);
                            }
                        }
                        assert(j == old_prev);
                        assert(next_slot(program@, j) == k0);
                        assert(pc_section@[k0] == position);
                        assert(cd[k0] == next_noop_insertion);
                    }
                    assert(is_lddw(program@[j]) ==> pc_section@[j + 1] == u32::MAX);
                }
            }
        }
        position += template_slice.len() as u32;
        if next_noop_insertion == 0 {
            next_noop_insertion = sample(noop_range, rng);
            position += 1;
        } else {
            next_noop_insertion -= 1;
        }
    }
    proof {
        let mv = meta_views(metas@);
        assert forall|j: int|
            0 <= j < n && #[trigger] is_slot_start(program@, j) implies {
                &&& next_position(program@, pc_section@, position, j) == pc_section@[j]
                    + template_len(mv, program@[j]) || next_position(program@, pc_section@, position, j)
                    == pc_section@[j] + template_len(mv, program@[j]) + 1
                &&& (cd[j] == 0) == (next_position(program@, pc_section@, position, j)
                    == pc_section@[j] + template_len(mv, program@[j]) + 1)
            } by {
            if next_slot(program@, j) >= n {
                if j < prev {
                    lemma_next_slot_le(program@, j, prev);
                } else if prev < j {
                    lemma_next_slot_le(program@, prev, j);
                }
                assert(j == prev);
            }
        }
        assert(pc_section_ok(program@, mv, pc_section@, position));
        assert(noop_countdown_ok(program@, mv, pc_section@, position, limit, cd));
    }
    Ok((pc_section, position))
}

/// Writes `bytes` at each used location of `locs`, up to the first unused one.
fn write_at_locations(code: &mut Vec<u8>, locs: [u8; 4], bytes: &[u8])
    requires
        locations_fit(locs@, old(code)@.len(), bytes@.len()),
    ensures
        final(code)@ == write_locations(old(code)@, locs@, bytes@, 0),
        final(code)@.len() == old(code)@.len(),
{
    let mut i: usize = 0;
    while i < 4 && locs[i] != 0
        invariant
            i <= 4,
            code@.len() == old(code)@.len(),
            locations_fit(locs@, old(code)@.len(), bytes@.len()),
            forall|j: int| 0 <= j < i ==> locs@[j] != 0,
            write_locations(old(code)@, locs@, bytes@, 0) == write_locations(code@, locs@, bytes@, i as int),
        decreases 4 - i,
    {
        let loc = locs[i] as usize;
        assert(locs@[i as int] + bytes@.len() <= code@.len());
        let ghost before = code@;
        let code_len = code.len();
        let mut j: usize = 0;
        while j < bytes.len()
            invariant
                j <= bytes@.len(),
                code_len == before.len(),
                loc + bytes@.len() <= before.len(),
                code@.len() == before.len(),
                code@ == splice(before, loc as int, bytes@.subrange(0, j as int)),
            decreases bytes@.len() - j,
        {
            proof {
                lemma_splice_step(before, loc as int, bytes@, j as int);
            }
            code.set(loc + j, bytes[j]);
            j += 1;
        }
        assert(bytes@.subrange(0, j as int) =~= bytes@);
        i += 1;
    }
}

/// The immediate of a word, minus the key.
fn word_imm_exec(insn: u64, key: i32) -> (r: i64)
    ensures
        r == word_imm(insn, key),
{
    let field = #[verifier::truncate] ((insn >> 32) as i32);
    field.wrapping_sub(key) as i64
}

/// The offset of the instruction at word `k`, minus the key; `None` for a
/// jump past the end.
fn slot_offset_exec(program: &Vec<u64>, pc_section: &Vec<u32>, k: usize, key: i32) -> (r: Option<u64>)
    requires
        k < program@.len(),
        program@.len() <= MAX_PROGRAM_WORDS,
        k < pc_section@.len(),
        forall|i: int|
            0 <= i < pc_section@.len() ==> #[trigger] pc_section@[i] == u32::MAX || pc_section@[i]
                < 0x8000_0000,
        pc_section@[k as int] < 0x8000_0000,
        is_jump(program@[k as int]) ==> jump_target(program@, k as int) != pc_section@.len(),
    ensures
        r == slot_offset(program@, pc_section@, k as int, key),
{
    let insn = program[k];
    let offset = #[verifier::truncate] ((insn >> 16) as i16);
    assert(((insn & 0x07) as u8 == ebpf::BPF_JMP32 || (insn & 0x07) as u8 == ebpf::BPF_JMP64)
        == (insn % 8 == ebpf::BPF_JMP32 || insn % 8 == ebpf::BPF_JMP64)) by (bit_vector);
    let opcode_class = #[verifier::truncate] ((insn & 0x07) as u8);
    if opcode_class == ebpf::BPF_JMP32 || opcode_class == ebpf::BPF_JMP64 {
        let target_program_counter = (#[verifier::truncate] (((k as i32) + (offset as i32)) as u32))
            as usize;
        if target_program_counter > pc_section.len() {
            return None;
        }
        let a = pc_section[target_program_counter];
        let b = pc_section[k];
        assert(a == 0xffff_ffff ==> (a as i32) == -1i32) by (bit_vector);
        assert(a < 0x8000_0000 ==> (a as i32) as int == a as int) by (bit_vector);
        assert(b == 0xffff_ffff ==> (b as i32) == -1i32) by (bit_vector);
        assert(b < 0x8000_0000 ==> (b as i32) as int == b as int) by (bit_vector);
        let to = #[verifier::truncate] (a as i32);
        let from = #[verifier::truncate] (b as i32);
        let jmp_offset = to - from;
        Some(#[verifier::truncate] (jmp_offset.wrapping_sub(key) as i64 as u64))
    } else {
        Some(#[verifier::truncate] ((offset as i32).wrapping_sub(key) as i64 as u64))
    }
}

/// The code of the instruction at word `k`: its template with the immediate,
/// the offset and the key patched in.
fn slot_code_exec(
    program: &Vec<u64>,
    metas: &[InsnMeta],
    pc_section: &Vec<u32>,
    key: i32,
    k: usize,
) -> (r: Result<Vec<u8>, EbpfError>)
    requires
        metas_wf(meta_views(metas@)),
        k < program@.len(),
        program@.len() <= MAX_PROGRAM_WORDS,
        program@.len() <= pc_section@.len(),
        forall|i: int|
            0 <= i < pc_section@.len() ==> #[trigger] pc_section@[i] == u32::MAX || pc_section@[i]
                < 0x8000_0000,
        pc_section@[k as int] < 0x8000_0000,
        is_jump(program@[k as int]) && meta_of(meta_views(metas@), program@[k as int]).template is Some
            && meta_of(meta_views(metas@), program@[k as int]).off[0] != 0 ==> jump_target(
            program@,
            k as int,
        ) != pc_section@.len(),
    ensures
        match slot_code(program@, meta_views(metas@), pc_section@, key, k as int) {
            Ok(c) => r is Ok && r->Ok_0@ == c,
            Err(e) => r == Err::<Vec<u8>, EbpfError>(e),
        },
{
    let insn = program[k];
    assert((insn as u16) as int == insn % 65536) by (bit_vector);
    let meta = &metas[(#[verifier::truncate] (insn as u16)) as usize];
    assert(meta_of(meta_views(metas@), program@[k as int]) == meta@);
    assert(meta_wf(meta@));
    let template_slice = match meta.template() {
        Some(t) => t,
        None => {
            return Err(EbpfError::InvalidInstruction);
        },
    };
    let mut code = slice_to_vec(template_slice.as_slice());
    let mut imm: u64 = #[verifier::truncate] (word_imm_exec(insn, key) as u64);
    assert((insn as u8 == ebpf::LD_DW_IMM) == (insn % 256 == ebpf::LD_DW_IMM)) by (bit_vector);
    if insn as u8 == ebpf::LD_DW_IMM {
        if k + 1 >= program.len() {
            return Err(EbpfError::InvalidInstruction);
        }
        let next_imm = word_imm_exec(program[k + 1], key);
        imm = (imm << 32u64) | (#[verifier::truncate] (next_imm as u64));
    }
    assert(imm == slot_imm(program@, k as int, key));
    let imm_bytes = u64_to_le_bytes(imm);
    write_at_locations(&mut code, meta.imm_locations(), imm_bytes.as_slice());
    let off_locations = meta.off_locations();
    if off_locations[0] != 0 {
        let off = match slot_offset_exec(program, pc_section, k, key) {
            Some(off) => off,
            None => {
                return Err(EbpfError::InvalidInstruction);
            },
        };
        let off_bytes = u64_to_le_bytes(off);
        write_at_locations(&mut code, off_locations, off_bytes.as_slice());
    }
    let key_bytes = u32_to_le_bytes(#[verifier::truncate] (key as u32));
    write_at_locations(&mut code, meta.decrypt_locations(), key_bytes.as_slice());
    Ok(code)
}

/// One step of the second scan: the code of the instruction at word `k` and
/// its no-op space come before the code of the rest.
proof fn lemma_second_scan_step(
    program: Seq<u64>,
    metas: Seq<MetaView>,
    pc: Seq<u32>,
    end: u32,
    key: i32,
    k: int,
    text: Seq<u8>,
    code: Seq<u8>,
)
    requires
        0 <= k < program.len(),
        slot_code(program, metas, pc, key, k) == Ok::<Seq<u8>, EbpfError>(code),
        spec_second_scan(program, metas, pc, end, key, 0) == match spec_second_scan(
            program,
            metas,
            pc,
            end,
            key,
            k,
        ) {
            Ok(rest) => Ok(text + rest),
            Err(e) => Err::<Seq<u8>, EbpfError>(e),
        },
    ensures
        spec_second_scan(program, metas, pc, end, key, 0) == match spec_second_scan(
            program,
            metas,
            pc,
            end,
            key,
            next_slot(program, k),
        ) {
            Ok(rest) => Ok((text + code + noop_fill(program, metas, pc, end, k)) + rest),
            Err(e) => Err::<Seq<u8>, EbpfError>(e),
        },
{
    let fill = noop_fill(program, metas, pc, end, k);
    match spec_second_scan(program, metas, pc, end, key, next_slot(program, k)) {
        Ok(rest) => {
            assert(text + (code + fill + rest) =~= (text + code + fill) + rest);
        },
        Err(_) => {},
    }
}

/// Second scan: the code of every instruction, its template with the
/// immediate, the offset and the key patched in, one after the other, each
/// followed by a `NOOP_BYTE` where the first scan left room for one.
pub fn second_scan(
    program: &Vec<u64>,
    metas: &[InsnMeta],
    pc_section: &Vec<u32>,
    end: u32,
    immediate_value_key: i32,
) -> (r: Result<Vec<u8>, EbpfError>)
    requires
        metas_wf(meta_views(metas@)),
        program@.len() <= MAX_PROGRAM_WORDS,
        program@.len() <= pc_section@.len(),
        forall|i: int|
            0 <= i < pc_section@.len() ==> #[trigger] pc_section@[i] == u32::MAX || pc_section@[i]
                < 0x8000_0000,
        forall|k: int|
            0 <= k < program@.len() && #[trigger] is_slot_start(program@, k) ==> pc_section@[k]
                < 0x8000_0000,
        no_jump_to_end(program@, meta_views(metas@), pc_section@.len() as int),
    ensures
        match spec_second_scan(program@, meta_views(metas@), pc_section@, end, immediate_value_key, 0) {
            Ok(code) => r is Ok && r->Ok_0@ == code,
            Err(e) => r == Err::<Vec<u8>, EbpfError>(e),
        },
{
    let n = program.len();
    let key = immediate_value_key;
    let mut text_section: Vec<u8> = Vec::new();
    let mut k: usize = 0;
    assert(text_section@ + Seq::<u8>::empty() =~= Seq::<u8>::empty());
    while k < n
        invariant
            n == program@.len(),
            n <= MAX_PROGRAM_WORDS,
            n <= pc_section@.len(),
            key == immediate_value_key,
            metas_wf(meta_views(metas@)),
            forall|i: int|
                0 <= i < pc_section@.len() ==> #[trigger] pc_section@[i] == u32::MAX || pc_section@[i]
                    < 0x8000_0000,
            forall|j: int|
                0 <= j < n && #[trigger] is_slot_start(program@, j) ==> pc_section@[j]
                    < 0x8000_0000,
            no_jump_to_end(program@, meta_views(metas@), pc_section@.len() as int),
            k <= n,
            k < n ==> is_slot_start(program@, k as int),
            spec_second_scan(program@, meta_views(metas@), pc_section@, end, key, 0) == match spec_second_scan(
                program@,
                meta_views(metas@),
                pc_section@,
                end,
                key,
                k as int,
            ) {
                Ok(rest) => Ok(text_section@ + rest),
                Err(e) => Err::<Seq<u8>, EbpfError>(e),
            },
        decreases n - k,
    {
        assert(is_slot_start(program@, k as int));
        let mut code = match slot_code_exec(program, metas, pc_section, key, k) {
            Ok(code) => code,
            Err(e) => {
                assert(slot_code(program@, meta_views(metas@), pc_section@, key, k as int) == Err::<Seq<u8>, EbpfError>(e));
                assert(spec_second_scan(program@, meta_views(metas@), pc_section@, end, key, k as int) == Err::<Seq<u8>, EbpfError>(e));
                return Err(e);
            },
        };
        let ghost old_text = text_section@;
        let ghost code_view = code@;
        proof {
            lemma_slot_code_len(program@, meta_views(metas@), pc_section@, key, k as int);
            lemma_second_scan_step(program@, meta_views(metas@), pc_section@, end, key, k as int, text_section@, code@);
        }
        let code_len = code.len();
        text_section.append(&mut code);
        let insn = program[k];
        assert((insn as u8 == ebpf::LD_DW_IMM) == (insn % 256 == ebpf::LD_DW_IMM)) by (bit_vector);
        let next: usize = if (#[verifier::truncate] (insn as u8)) == ebpf::LD_DW_IMM {
            k + 2
        } else {
            k + 1
        };
        let next_pos: u32 = if next < n {
            pc_section[next]
        } else {
            end
        };
        if next_pos as u64 == pc_section[k] as u64 + code_len as u64 + 1 {
            text_section.push(NOOP_BYTE);
        }
        assert(text_section@ =~= old_text + code_view + noop_fill(
            program@,
            meta_views(metas@),
            pc_section@,
            end,
            k as int,
        ));
        k = next;
    }
    Ok(text_section)
}

/// The program, read from its text.
pub fn read_program(text: &[u8]) -> (program: Vec<u64>)
    ensures
        program@ == program_words(text@),
{
    let tl = text.len();
    let n = text.len() / 8;
    let mut program: Vec<u64> = Vec::with_capacity(n);
    let mut k: usize = 0;
    while k < n
        invariant
            n == text@.len() / 8,
            tl == text@.len(),
            k <= n,
            program@ == program_words(text@).subrange(0, k as int),
        decreases n - k,
    {
        assert(8 * k + 8 <= text@.len()) by (nonlinear_arith)
            requires
                k < n,
                n == text@.len() / 8,
        ;
        let word = u64_from_le_bytes(slice_subrange(text, 8 * k, 8 * k + 8));
        program.push(word);
        k += 1;
        assert(program@ =~= program_words(text@).subrange(0, k as int));
    }
    assert(program_words(text@).subrange(0, k as int) =~= program_words(text@));
    program
}

/// Writing the fields keeps the length of the template.
proof fn lemma_write_locations_len(t: Seq<u8>, locs: Seq<u8>, bytes: Seq<u8>, i: int)
    requires
        locs.len() == 4,
        locations_fit(locs, t.len(), bytes.len()),
    ensures
        write_locations(t, locs, bytes, i).len() == t.len(),
    decreases 4 - i,
{
    if 0 <= i < 4 && locs[i] != 0 {
        let t2 = splice(t, locs[i] as int, bytes);
        assert(t2.len() == t.len());
        lemma_write_locations_len(t2, locs, bytes, i + 1);
    }
}

/// The code of an instruction is as long as its template.
proof fn lemma_slot_code_len(
    program: Seq<u64>,
    metas: Seq<MetaView>,
    pc: Seq<u32>,
    key: i32,
    k: int,
)
    requires
        metas_wf(metas),
        0 <= k < program.len(),
        slot_code(program, metas, pc, key, k) is Ok,
    ensures
        slot_code(program, metas, pc, key, k).unwrap().len() == template_len(metas, program[k]),
{
    let m = meta_of(metas, program[k]);
    assert(meta_wf(metas[(program[k] % 65536) as int]));
    let t = m.template.unwrap();
    vstd::bytes::lemma_auto_spec_u64_to_from_le_bytes();
    vstd::bytes::lemma_auto_spec_u32_to_from_le_bytes();
    let t1 = write_locations(t, m.imm, spec_u64_to_le_bytes(slot_imm(program, k, key)), 0);
    lemma_write_locations_len(t, m.imm, spec_u64_to_le_bytes(slot_imm(program, k, key)), 0);
    if m.off[0] == 0 {
        lemma_write_locations_len(t1, m.decrypt, spec_u32_to_le_bytes(key as u32), 0);
    } else {
        let off = slot_offset(program, pc, k, key).unwrap();
        let t2 = write_locations(t1, m.off, spec_u64_to_le_bytes(off), 0);
        lemma_write_locations_len(t1, m.off, spec_u64_to_le_bytes(off), 0);
        lemma_write_locations_len(t2, m.decrypt, spec_u32_to_le_bytes(key as u32), 0);
    }
}

/// Walking the instructions from `j` on: the code of each lies at its
/// recorded position, and the code ends at `end`.
proof fn lemma_layout_from(
    program: Seq<u64>,
    metas: Seq<MetaView>,
    pc: Seq<u32>,
    end: u32,
    key: i32,
    j: int,
    prefix: Seq<u8>,
)
    requires
        metas_wf(metas),
        pc_section_ok(program, metas, pc, end),
        0 <= j < program.len(),
        is_slot_start(program, j),
        spec_second_scan(program, metas, pc, end, key, j) is Ok,
        spec_second_scan(program, metas, pc, end, key, 0) == Ok::<Seq<u8>, EbpfError>(
            prefix + spec_second_scan(program, metas, pc, end, key, j).unwrap(),
        ),
        prefix.len() == pc[j],
    ensures
        spec_second_scan(program, metas, pc, end, key, 0).unwrap().len() == end,
        forall|k: int|
            j <= k < program.len() && #[trigger] is_slot_start(program, k) ==> {
                &&& pc[k] + template_len(metas, program[k]) <= spec_second_scan(
                    program,
                    metas,
                    pc,
                    end,
                    key,
                    0,
                ).unwrap().len()
                &&& spec_second_scan(program, metas, pc, end, key, 0).unwrap().subrange(
                    pc[k] as int,
                    pc[k] + template_len(metas, program[k]),
                ) == slot_code(program, metas, pc, key, k).unwrap()
            },
    decreases program.len() - j,
{
    let whole = spec_second_scan(program, metas, pc, end, key, 0).unwrap();
    let code_j = slot_code(program, metas, pc, key, j).unwrap();
    let fill = noop_fill(program, metas, pc, end, j);
    let next = next_slot(program, j);
    let rest = spec_second_scan(program, metas, pc, end, key, next).unwrap();
    lemma_slot_code_len(program, metas, pc, key, j);
    assert(spec_second_scan(program, metas, pc, end, key, j).unwrap() == code_j + fill + rest);
    assert(whole == prefix + (code_j + fill + rest));
    assert(whole.subrange(pc[j] as int, pc[j] + template_len(metas, program[j])) =~= code_j);
    if next < program.len() {
        assert(is_slot_start(program, next));
        let prefix2 = prefix + code_j + fill;
        assert(prefix + (code_j + fill + rest) =~= prefix2 + rest);
        lemma_layout_from(program, metas, pc, end, key, next, prefix2);
        assert forall|k: int|
            j <= k < program.len() && #[trigger] is_slot_start(program, k) implies {
                &&& pc[k] + template_len(metas, program[k]) <= whole.len()
                &&& whole.subrange(pc[k] as int, pc[k] + template_len(metas, program[k]))
                    == slot_code(program, metas, pc, key, k).unwrap()
            } by {
            if k != j {
                lemma_next_slot_le(program, j, k);
            }
        }
    } else {
        assert(rest == Seq::<u8>::empty());
        assert forall|k: int|
            j <= k < program.len() && #[trigger] is_slot_start(program, k) implies {
                &&& pc[k] + template_len(metas, program[k]) <= whole.len()
                &&& whole.subrange(pc[k] as int, pc[k] + template_len(metas, program[k]))
                    == slot_code(program, metas, pc, key, k).unwrap()
            } by {
            if k != j {
                lemma_next_slot_le(program, j, k);
            }
        }
    }
}

/// The code of every instruction lies at the position the first scan
/// recorded for it, followed by the no-op space the positions leave, and the
/// code ends at `end`: the positions map every instruction to its code.
pub proof fn lemma_code_at_recorded_position(
    program: Seq<u64>,
    metas: Seq<MetaView>,
    pc: Seq<u32>,
    end: u32,
    key: i32,
)
    requires
        metas_wf(metas),
        pc_section_ok(program, metas, pc, end),
        spec_second_scan(program, metas, pc, end, key, 0) is Ok,
    ensures
        spec_second_scan(program, metas, pc, end, key, 0).unwrap().len() == end,
        forall|k: int|
            0 <= k < program.len() && #[trigger] is_slot_start(program, k) ==> {
                &&& pc[k] + template_len(metas, program[k]) <= spec_second_scan(
                    program,
                    metas,
                    pc,
                    end,
                    key,
                    0,
                ).unwrap().len()
                &&& spec_second_scan(program, metas, pc, end, key, 0).unwrap().subrange(
                    pc[k] as int,
                    pc[k] + template_len(metas, program[k]),
                ) == slot_code(program, metas, pc, key, k).unwrap()
            },
{
    if program.len() > 0 {
        assert(is_slot_start(program, 0));
        let whole = spec_second_scan(program, metas, pc, end, key, 0).unwrap();
        assert(Seq::<u8>::empty() + whole =~= whole);
        lemma_layout_from(program, metas, pc, end, key, 0, Seq::empty());
    }
}

/// What the templates decode from a patched immediate: they subtract the key
/// from the field once more, so in its low 32 bits they obtain the
/// instruction's immediate minus twice the key, modulo `2^32`. The same holds
/// of the offset of an instruction other than a jump.
pub proof fn lemma_template_decoding(insn: u64, key: i32)
    ensures
        (i32_specs::wrapping_sub(word_imm(insn, key) as i32, key) - ((insn >> 32) as i32 - 2 * key))
            % 0x1_0000_0000 == 0,
        (i32_specs::wrapping_sub(i32_specs::wrapping_sub(word_offset(insn) as i32, key), key) - (
        word_offset(insn) as i32 - 2 * key)) % 0x1_0000_0000 == 0,
{
}

/// The address of the built-in function registered under `key` in
/// `registry`, which maps keys to the addresses of their functions; a call to
/// an unregistered key is unsupported.
pub fn syscall_resolver(registry: &BTreeMap<u32, u64>, key: u32) -> (r: Result<u64, EbpfError>)
    ensures
        registry@.contains_key(key) ==> r == Ok::<u64, EbpfError>(registry@[key]),
        !registry@.contains_key(key) ==> r == Err::<u64, EbpfError>(
            EbpfError::UnsupportedInstruction,
        ),
{
    match registry.get(&key) {
        Some(callback) => Ok(*callback),
        None => Err(EbpfError::UnsupportedInstruction),
    }
}

/// Where the scan of the program's instructions stops.
fn end_word_exec(program: &Vec<u64>) -> (e: usize)
    requires
        program@.len() <= MAX_PROGRAM_WORDS,
    ensures
        e == end_word(program@, 0),
{
    let n = program.len();
    let mut k: usize = 0;
    while k < n
        invariant
            n == program@.len(),
            n <= MAX_PROGRAM_WORDS,
            k <= n + 1,
            end_word(program@, 0) == end_word(program@, k as int),
        decreases n + 1 - k,
    {
        let insn = program[k];
        assert((insn as u8 == ebpf::LD_DW_IMM) == (insn % 256 == ebpf::LD_DW_IMM)) by (bit_vector);
        if (#[verifier::truncate] (insn as u8)) == ebpf::LD_DW_IMM {
            k += 2;
        } else {
            k += 1;
        }
    }
    k
}

/// Whether no jump of the program in `text` whose template takes an offset
/// lands exactly one past the last position, where the compiler could not
/// read a position for it.
pub fn check_jumps(text: &[u8], metas: &[InsnMeta]) -> (r: bool)
    requires
        metas_wf(meta_views(metas@)),
        text@.len() / 8 <= MAX_PROGRAM_WORDS,
    ensures
        r == no_jump_to_end(
            program_words(text@),
            meta_views(metas@),
            end_word(program_words(text@), 0),
        ),
{
    let program = read_program(text);
    let n = program.len();
    let end = end_word_exec(&program);
    let ghost mv = meta_views(metas@);
    let mut k: usize = 0;
    while k < n
        invariant
            program@ == program_words(text@),
            n == program@.len(),
            n <= MAX_PROGRAM_WORDS,
            mv == meta_views(metas@),
            metas_wf(mv),
            end == end_word(program@, 0),
            k <= n + 1,
            k < n ==> is_slot_start(program@, k as int),
            forall|j: int|
                0 <= j < n && j < k && #[trigger] is_slot_start(program@, j) && is_jump(program@[j])
                    && meta_of(mv, program@[j]).template is Some && meta_of(mv, program@[j]).off[0]
                    != 0 ==> jump_target(program@, j) != end,
        decreases n + 1 - k,
    {
        let ghost k0 = k as int;
        let insn = program[k];
        assert((insn as u16) as int == insn % 65536) by (bit_vector);
        let meta = &metas[(#[verifier::truncate] (insn as u16)) as usize];
        assert(meta_of(mv, program@[k0]) == meta@);
        let off_locations = meta.off_locations();
        assert(((insn & 0x07) as u8 == ebpf::BPF_JMP32 || (insn & 0x07) as u8 == ebpf::BPF_JMP64)
            == (insn % 8 == ebpf::BPF_JMP32 || insn % 8 == ebpf::BPF_JMP64)) by (bit_vector);
        let opcode_class = #[verifier::truncate] ((insn & 0x07) as u8);
        if (opcode_class == ebpf::BPF_JMP32 || opcode_class == ebpf::BPF_JMP64) && meta.template().is_some()
            && off_locations[0] != 0 {
            let offset = #[verifier::truncate] ((insn >> 16) as i16);
            let target = (#[verifier::truncate] (((k as i32) + (offset as i32)) as u32)) as usize;
            if target == end {
                assert(is_slot_start(program@, k0));
                assert(jump_target(program@, k0) == end);
                return false;
            }
        }
        assert((insn as u8 == ebpf::LD_DW_IMM) == (insn % 256 == ebpf::LD_DW_IMM)) by (bit_vector);
        if (#[verifier::truncate] (insn as u8)) == ebpf::LD_DW_IMM {
            k += 2;
        } else {
            k += 1;
        }
        proof {
            if is_lddw(program@[k0]) && k0 + 1 < n {
                lemma_second_word_not_start(program@, k0);
            }
        }
    }
    true
}

/// The instruction at word `k` can be compiled against a position table of
/// `pc_len` entries: it has a template, a wide load has its second word, and a
/// jump whose template takes an offset lands inside the table.
pub open spec fn slot_compiles(program: Seq<u64>, metas: Seq<MetaView>, pc_len: int, k: int) -> bool {
    let m = meta_of(metas, program[k]);
    &&& m.template is Some
    &&& !(is_lddw(program[k]) && k + 1 >= program.len())
    &&& m.off[0] != 0 && is_jump(program[k]) ==> jump_target(program, k) <= pc_len
}

/// Every instruction from word `k` on can be compiled.
pub open spec fn compiles_from(program: Seq<u64>, metas: Seq<MetaView>, pc_len: int, k: int) -> bool
    decreases program.len() + 1 - k,
{
    if k < 0 || k >= program.len() {
        true
    } else {
        slot_compiles(program, metas, pc_len, k) && compiles_from(
            program,
            metas,
            pc_len,
            next_slot(program, k),
        )
    }
}

/// The whole program can be compiled.
pub open spec fn program_compiles(program: Seq<u64>, metas: Seq<MetaView>) -> bool {
    compiles_from(program, metas, end_word(program, 0), 0)
}

/// The second scan fails exactly on an instruction that cannot be compiled,
/// and then with `InvalidInstruction`.
pub proof fn lemma_second_scan_result(
    program: Seq<u64>,
    metas: Seq<MetaView>,
    pc: Seq<u32>,
    end: u32,
    key: i32,
    k: int,
)
    ensures
        spec_second_scan(program, metas, pc, end, key, k) is Ok <==> compiles_from(
            program,
            metas,
            pc.len() as int,
            k,
        ),
        spec_second_scan(program, metas, pc, end, key, k) is Err ==> spec_second_scan(
            program,
            metas,
            pc,
            end,
            key,
            k,
        ) == Err::<Seq<u8>, EbpfError>(EbpfError::InvalidInstruction),
    decreases program.len() + 1 - k,
{
    if 0 <= k < program.len() {
        lemma_second_scan_result(program, metas, pc, end, key, next_slot(program, k));
    }
}

/// Instructions that can be compiled have templates.
pub proof fn lemma_compiles_templates(program: Seq<u64>, metas: Seq<MetaView>, pc_len: int, k: int)
    requires
        compiles_from(program, metas, pc_len, k),
    ensures
        templates_exist(program, metas, k),
    decreases program.len() + 1 - k,
{
    if 0 <= k < program.len() {
        lemma_compiles_templates(program, metas, pc_len, next_slot(program, k));
    }
}

/// The scan ends past the last word, by one word at most.
pub proof fn lemma_end_word_bounds(program: Seq<u64>, k: int)
    requires
        0 <= k <= program.len() + 1,
    ensures
        program.len() <= end_word(program, k) <= program.len() + 1,
    decreases program.len() + 1 - k,
{
    if k < program.len() {
        lemma_end_word_bounds(program, next_slot(program, k));
    }
}

/// A position table of the first scan covers the program, and its positions
/// stay below `2^31`.
proof fn lemma_pc_section_bounds(program: Seq<u64>, metas: Seq<MetaView>, pc: Seq<u32>, end: u32)
    requires
        pc_section_ok(program, metas, pc, end),
        program.len() <= MAX_PROGRAM_WORDS,
    ensures
        program.len() <= pc.len(),
        forall|i: int| 0 <= i < pc.len() ==> #[trigger] pc[i] == u32::MAX || pc[i] < 0x8000_0000,
        forall|k: int|
            0 <= k < program.len() && #[trigger] is_slot_start(program, k) ==> pc[k] < 0x8000_0000,
{
    lemma_end_word_bounds(program, 0);
    assert forall|i: int| 0 <= i < pc.len() implies #[trigger] pc[i] == u32::MAX || pc[i] < 0x8000_0000 by {
        assert(pc[i] == u32::MAX || pc[i] <= 125 * i);
    }
}

/// The positions `pc` and the end `end` follow the first scan with no-op
/// space at most every `limit + 1` instructions, `code` is the second scan's
/// code for them with the key `key`, and the code of every instruction lies
/// at its position.
pub open spec fn code_layout_ok(
    program: Seq<u64>,
    metas: Seq<MetaView>,
    limit: int,
    pc: Seq<u32>,
    end: u32,
    key: i32,
    code: Seq<u8>,
) -> bool {
    &&& pc_section_ok(program, metas, pc, end)
    &&& noop_spacing_ok(program, metas, pc, end, limit)
    &&& spec_second_scan(program, metas, pc, end, key, 0) == Ok::<Seq<u8>, EbpfError>(code)
    &&& code.len() == end
    &&& forall|k: int|
        0 <= k < program.len() && #[trigger] is_slot_start(program, k) ==> {
            &&& pc[k] + template_len(metas, program[k]) <= code.len()
            &&& code.subrange(pc[k] as int, pc[k] + template_len(metas, program[k])) == slot_code(
                program,
                metas,
                pc,
                key,
                k,
            ).unwrap()
        }
}

/// A compilation of `program`: it can be compiled, and for some end of the
/// code and some key the positions and the code are laid out as the scans
/// make them.
pub open spec fn compiled(
    program: Seq<u64>,
    metas: Seq<MetaView>,
    limit: int,
    pc: Seq<u32>,
    code: Seq<u8>,
) -> bool {
    &&& program_compiles(program, metas)
    &&& exists|end: u32, key: i32| #[trigger] code_layout_ok(program, metas, limit, pc, end, key, code)
}

/// Offset `l` lies in a field of `w` bytes at one of the used locations of
/// `locs`.
pub open spec fn in_window(locs: Seq<u8>, w: int, l: int) -> bool {
    ||| (locs[0] != 0 && locs[0] <= l < locs[0] + w)
    ||| (locs[1] != 0 && locs[1] <= l < locs[1] + w)
    ||| (locs[2] != 0 && locs[2] <= l < locs[2] + w)
    ||| (locs[3] != 0 && locs[3] <= l < locs[3] + w)
}

/// Offset `l` of a template lies in one of its placeholders: the immediate,
/// the offset or the key.
pub open spec fn in_placeholder(m: MetaView, l: int) -> bool {
    in_window(m.imm, 8, l) || in_window(m.off, 8, l) || in_window(m.decrypt, 4, l)
}

/// Byte `i` of the code lies in a placeholder of the instruction whose code
/// holds it.
pub open spec fn code_placeholder(program: Seq<u64>, metas: Seq<MetaView>, pc: Seq<u32>, i: int) -> bool {
    exists|k: int|
        0 <= k < program.len() && #[trigger] is_slot_start(program, k) && pc[k] <= i < pc[k]
            + template_len(metas, program[k]) && in_placeholder(meta_of(metas, program[k]), i - pc[k])
}

/// Writing fields leaves every byte outside them as it was.
proof fn lemma_write_locations_outside(t: Seq<u8>, locs: Seq<u8>, bytes: Seq<u8>, i: int, l: int)
    requires
        locs.len() == 4,
        locations_fit(locs, t.len(), bytes.len()),
        0 <= l < t.len(),
        !in_window(locs, bytes.len() as int, l),
    ensures
        write_locations(t, locs, bytes, i)[l] == t[l],
    decreases 4 - i,
{
    if 0 <= i < 4 && locs[i] != 0 {
        let t2 = splice(t, locs[i] as int, bytes);
        assert(t2.len() == t.len());
        assert(t2[l] == t[l]);
        lemma_write_locations_outside(t2, locs, bytes, i + 1, l);
    }
}

/// Outside its placeholders, the code of an instruction is its template,
/// whatever the key.
proof fn lemma_slot_code_outside(
    program: Seq<u64>,
    metas: Seq<MetaView>,
    pc: Seq<u32>,
    key: i32,
    k: int,
    l: int,
)
    requires
        metas_wf(metas),
        0 <= k < program.len(),
        slot_code(program, metas, pc, key, k) is Ok,
        0 <= l < template_len(metas, program[k]),
        !in_placeholder(meta_of(metas, program[k]), l),
    ensures
        slot_code(program, metas, pc, key, k).unwrap()[l] == meta_of(metas, program[k]).template.unwrap()[l],
{
    let m = meta_of(metas, program[k]);
    assert(meta_wf(metas[(program[k] % 65536) as int]));
    let t = m.template.unwrap();
    vstd::bytes::lemma_auto_spec_u64_to_from_le_bytes();
    vstd::bytes::lemma_auto_spec_u32_to_from_le_bytes();
    let imm_bytes = spec_u64_to_le_bytes(slot_imm(program, k, key));
    let key_bytes = spec_u32_to_le_bytes(key as u32);
    let t1 = write_locations(t, m.imm, imm_bytes, 0);
    lemma_write_locations_len(t, m.imm, imm_bytes, 0);
    lemma_write_locations_outside(t, m.imm, imm_bytes, 0, l);
    if m.off[0] == 0 {
        lemma_write_locations_outside(t1, m.decrypt, key_bytes, 0, l);
    } else {
        let off_bytes = spec_u64_to_le_bytes(slot_offset(program, pc, k, key).unwrap());
        let t2 = write_locations(t1, m.off, off_bytes, 0);
        lemma_write_locations_len(t1, m.off, off_bytes, 0);
        lemma_write_locations_outside(t1, m.off, off_bytes, 0, l);
        lemma_write_locations_outside(t2, m.decrypt, key_bytes, 0, l);
    }
}

/// Two used fields, of `w1` bytes at `a` and of `w2` bytes at `b`, share no
/// byte.
pub open spec fn fields_apart(a: u8, w1: int, b: u8, w2: int) -> bool {
    a == 0 || b == 0 || a + w1 <= b || b + w2 <= a
}

/// The fields in location slot `i` and slot `j` of `m` share no byte, but for
/// a field and itself.
pub open spec fn apart_at(m: MetaView, i: int, j: int) -> bool {
    &&& i != j ==> fields_apart(m.imm[i], 8, m.imm[j], 8)
    &&& i != j ==> fields_apart(m.off[i], 8, m.off[j], 8)
    &&& i != j ==> fields_apart(m.decrypt[i], 4, m.decrypt[j], 4)
    &&& fields_apart(m.imm[i], 8, m.off[j], 8)
    &&& fields_apart(m.imm[i], 8, m.decrypt[j], 4)
    &&& fields_apart(m.off[i], 8, m.decrypt[j], 4)
}

/// No placeholder of `m` overlaps another one.
pub open spec fn placeholders_apart(m: MetaView) -> bool {
    forall|i: int, j: int| 0 <= i < 4 && 0 <= j < 4 ==> #[trigger] apart_at(m, i, j)
}

/// The 64-bit pattern of `x` taken modulo `2^32` as a signed 32-bit number
/// and sign-extended to 64 bits.
pub open spec fn sign_extended_32(x: int) -> u64 {
    let r = x % 0x1_0000_0000;
    if r < 0x8000_0000 {
        r as u64
    } else {
        (r + 0xffff_ffff_0000_0000) as u64
    }
}

/// Writing fields from slot `i` on leaves a byte outside all those fields as
/// it was.
proof fn lemma_write_locations_keeps(t: Seq<u8>, locs: Seq<u8>, bytes: Seq<u8>, i: int, l: int)
    requires
        locs.len() == 4,
        locations_fit(locs, t.len(), bytes.len()),
        0 <= l < t.len(),
        forall|j: int| i <= j < 4 && locs[j] != 0 ==> !(locs[j] <= l < locs[j] + bytes.len()),
    ensures
        write_locations(t, locs, bytes, i)[l] == t[l],
    decreases 4 - i,
{
    if 0 <= i < 4 && locs[i] != 0 {
        let t2 = splice(t, locs[i] as int, bytes);
        assert(t2.len() == t.len());
        assert(t2[l] == t[l]);
        lemma_write_locations_keeps(t2, locs, bytes, i + 1, l);
    }
}

/// Writing fields from slot `i` on puts `bytes` at the used location of slot
/// `c` where no later field overlaps it.
proof fn lemma_write_locations_at(t: Seq<u8>, locs: Seq<u8>, bytes: Seq<u8>, i: int, c: int)
    requires
        locs.len() == 4,
        locations_fit(locs, t.len(), bytes.len()),
        0 <= i <= c < 4,
        forall|j: int| i <= j <= c ==> locs[j] != 0,
        forall|j: int|
            c < j < 4 ==> fields_apart(locs[c], bytes.len() as int, locs[j], bytes.len() as int),
    ensures
        write_locations(t, locs, bytes, i).len() == t.len(),
        locs[c] + bytes.len() <= t.len(),
        write_locations(t, locs, bytes, i).subrange(locs[c] as int, locs[c] + bytes.len()) == bytes,
    decreases c - i,
{
    assert(locs[i] != 0);
    assert(locs[c] != 0);
    let t2 = splice(t, locs[i] as int, bytes);
    assert(t2.len() == t.len());
    lemma_write_locations_len(t, locs, bytes, i);
    if i < c {
        lemma_write_locations_at(t2, locs, bytes, i + 1, c);
    } else {
        let r = write_locations(t2, locs, bytes, i + 1);
        assert forall|l: int| locs[c] <= l < locs[c] + bytes.len() implies r[l] == t2[l] by {
            assert forall|j: int| i + 1 <= j < 4 && locs[j] != 0 implies !(locs[j] <= l < locs[j]
                + bytes.len()) by {
                assert(fields_apart(locs[c], bytes.len() as int, locs[j], bytes.len() as int));
            }
            lemma_write_locations_keeps(t2, locs, bytes, i + 1, l);
        }
        assert(r.subrange(locs[c] as int, locs[c] + bytes.len()) =~= bytes);
    }
}

/// Writing fields keeps a run of bytes that none of them overlaps.
proof fn lemma_write_locations_keeps_run(t: Seq<u8>, locs: Seq<u8>, bytes: Seq<u8>, p: int, n: int)
    requires
        locs.len() == 4,
        locations_fit(locs, t.len(), bytes.len()),
        0 <= p,
        0 <= n,
        p + n <= t.len(),
        forall|j: int| 0 <= j < 4 && locs[j] != 0 ==> locs[j] + bytes.len() <= p || p + n <= locs[j],
    ensures
        write_locations(t, locs, bytes, 0).subrange(p, p + n) == t.subrange(p, p + n),
{
    let r = write_locations(t, locs, bytes, 0);
    lemma_write_locations_len(t, locs, bytes, 0);
    assert forall|l: int| p <= l < p + n implies r[l] == t[l] by {
        lemma_write_locations_keeps(t, locs, bytes, 0, l);
    }
    assert(r.subrange(p, p + n) =~= t.subrange(p, p + n));
}

/// Every instruction of a program that the second scan compiles can be
/// compiled on its own.
proof fn lemma_compiles_at(program: Seq<u64>, metas: Seq<MetaView>, pc_len: int, j: int, k: int)
    requires
        0 <= j <= k < program.len(),
        is_slot_start(program, j),
        is_slot_start(program, k),
        compiles_from(program, metas, pc_len, j),
    ensures
        slot_compiles(program, metas, pc_len, k),
    decreases k - j,
{
    if j < k {
        lemma_next_slot_le(program, j, k);
        let n = next_slot(program, j);
        assert(is_slot_start(program, n));
        lemma_compiles_at(program, metas, pc_len, n, k);
    }
}

/// In a laid-out code, the bytes of each placeholder of an instruction hold
/// what the second scan writes there, where no placeholder of the template
/// overlaps another: the immediate, the offset and the key.
proof fn lemma_placeholder_fields(
    program: Seq<u64>,
    metas: Seq<MetaView>,
    limit: int,
    pc: Seq<u32>,
    end: u32,
    key: i32,
    code: Seq<u8>,
    k: int,
    c: int,
)
    requires
        metas_wf(metas),
        code_layout_ok(program, metas, limit, pc, end, key, code),
        0 <= k < program.len(),
        is_slot_start(program, k),
        placeholders_apart(meta_of(metas, program[k])),
        0 <= c < 4,
    ensures
        ({
            let m = meta_of(metas, program[k]);
            let p = pc[k] as int;
            &&& (forall|j: int| 0 <= j <= c ==> m.imm[j] != 0) ==> code.subrange(p + m.imm[c], p
                + m.imm[c] + 8) == spec_u64_to_le_bytes(slot_imm(program, k, key))
            &&& (forall|j: int| 0 <= j <= c ==> m.off[j] != 0) ==> slot_offset(program, pc, k, key)
                is Some && code.subrange(p + m.off[c], p + m.off[c] + 8) == spec_u64_to_le_bytes(
                slot_offset(program, pc, k, key).unwrap(),
            )
            &&& (forall|j: int| 0 <= j <= c ==> m.decrypt[j] != 0) ==> code.subrange(
                p + m.decrypt[c],
                p + m.decrypt[c] + 4,
            ) == spec_u32_to_le_bytes(key as u32)
        }),
{
    let m = meta_of(metas, program[k]);
    assert(meta_wf(metas[(program[k] % 65536) as int]));
    lemma_second_scan_result(program, metas, pc, end, key, 0);
    lemma_compiles_at(program, metas, pc.len() as int, 0, k);
    assert(slot_code(program, metas, pc, key, k) is Ok);
    let t = m.template.unwrap();
    let p = pc[k] as int;
    let whole = slot_code(program, metas, pc, key, k).unwrap();
    assert(code.subrange(p, p + t.len()) == whole);
    vstd::bytes::lemma_auto_spec_u64_to_from_le_bytes();
    vstd::bytes::lemma_auto_spec_u32_to_from_le_bytes();
    let imm_bytes = spec_u64_to_le_bytes(slot_imm(program, k, key));
    let key_bytes = spec_u32_to_le_bytes(key as u32);
    let t1 = write_locations(t, m.imm, imm_bytes, 0);
    lemma_write_locations_len(t, m.imm, imm_bytes, 0);
    let off_bytes = spec_u64_to_le_bytes(slot_offset(program, pc, k, key).unwrap());
    let t2 = if m.off[0] == 0 { t1 } else { write_locations(t1, m.off, off_bytes, 0) };
    lemma_write_locations_len(t1, m.off, off_bytes, 0);
    assert(whole == write_locations(t2, m.decrypt, key_bytes, 0));
    lemma_write_locations_len(t2, m.decrypt, key_bytes, 0);
    assert forall|a: int, b: int| p <= a <= b <= p + t.len() implies code.subrange(a, b)
        == whole.subrange(a - p, b - p) by {
        assert(code.subrange(a, b) =~= code.subrange(p, p + t.len()).subrange(a - p, b - p));
    }
    if forall|j: int| 0 <= j <= c ==> m.imm[j] != 0 {
        assert forall|j: int| c < j < 4 implies fields_apart(m.imm[c], 8, m.imm[j], 8) by {
            assert(apart_at(m, c, j));
        }
        lemma_write_locations_at(t, m.imm, imm_bytes, 0, c);
        let q = m.imm[c] as int;
        if m.off[0] != 0 {
            assert forall|j: int| 0 <= j < 4 && m.off[j] != 0 implies m.off[j] + 8 <= q || q + 8
                <= m.off[j] by {
                assert(apart_at(m, c, j));
            }
            lemma_write_locations_keeps_run(t1, m.off, off_bytes, q, 8);
        }
        assert forall|j: int| 0 <= j < 4 && m.decrypt[j] != 0 implies m.decrypt[j] + 4 <= q || q
            + 8 <= m.decrypt[j] by {
            assert(apart_at(m, c, j));
        }
        lemma_write_locations_keeps_run(t2, m.decrypt, key_bytes, q, 8);
    }
    if forall|j: int| 0 <= j <= c ==> m.off[j] != 0 {
        assert(m.off[0] != 0);
        assert forall|j: int| c < j < 4 implies fields_apart(m.off[c], 8, m.off[j], 8) by {
            assert(apart_at(m, c, j));
        }
        lemma_write_locations_at(t1, m.off, off_bytes, 0, c);
        let q = m.off[c] as int;
        assert forall|j: int| 0 <= j < 4 && m.decrypt[j] != 0 implies m.decrypt[j] + 4 <= q || q
            + 8 <= m.decrypt[j] by {
            assert(apart_at(m, c, j));
        }
        lemma_write_locations_keeps_run(t2, m.decrypt, key_bytes, q, 8);
    }
    if forall|j: int| 0 <= j <= c ==> m.decrypt[j] != 0 {
        assert forall|j: int| c < j < 4 implies fields_apart(m.decrypt[c], 4, m.decrypt[j], 4) by {
            assert(apart_at(m, c, j));
        }
        lemma_write_locations_at(t2, m.decrypt, key_bytes, 0, c);
    }
}

/// A 64-bit value in the sign-extended 32-bit range that agrees with `d`
/// modulo `2^32`, read as a signed number, is the sign-extended pattern of
/// `d`.
proof fn lemma_sign_extended_32(v: u64, d: int)
    requires
        v < 0x8000_0000 || v >= 0xffff_ffff_8000_0000,
        ((if v < 0x8000_0000 { v as int } else { v as int - 0x1_0000_0000_0000_0000 }) - d) % 0x1_0000_0000
            == 0,
    ensures
        sign_extended_32(d) == v,
{
    let s: int = if v < 0x8000_0000 { v as int } else { v as int - 0x1_0000_0000_0000_0000 };
    vstd::arithmetic::div_mod::lemma_fundamental_div_mod(s - d, 0x1_0000_0000);
    let q: int = (s - d) / 0x1_0000_0000;
    assert(s - d == 0x1_0000_0000 * q);
    if s >= 0 {
        assert(d == (-q) * 0x1_0000_0000 + s);
        vstd::arithmetic::div_mod::lemma_fundamental_div_mod_converse_mod(d, 0x1_0000_0000, -q, s);
    } else {
        assert(d == (-q - 1) * 0x1_0000_0000 + (s + 0x1_0000_0000));
        vstd::arithmetic::div_mod::lemma_fundamental_div_mod_converse_mod(
            d,
            0x1_0000_0000,
            -q - 1,
            s + 0x1_0000_0000,
        );
    }
}

/// In compiled code, the eight bytes at each offset placeholder of an
/// instruction other than a jump hold, little-endian, the instruction's
/// 16-bit offset field (bits 16 to 31 of its word) read as a signed number,
/// minus the key, wrapped to 32 bits and sign-extended to 64 bits; so where
/// no placeholders of its template overlap.
pub proof fn lemma_offset_bytes(
    program: Seq<u64>,
    metas: Seq<MetaView>,
    limit: int,
    pc: Seq<u32>,
    end: u32,
    key: i32,
    code: Seq<u8>,
    k: int,
    c: int,
)
    requires
        metas_wf(metas),
        code_layout_ok(program, metas, limit, pc, end, key, code),
        0 <= k < program.len(),
        is_slot_start(program, k),
        program[k] % 8 != ebpf::BPF_JMP32,
        program[k] % 8 != ebpf::BPF_JMP64,
        placeholders_apart(meta_of(metas, program[k])),
        0 <= c < 4,
        forall|j: int| 0 <= j <= c ==> meta_of(metas, program[k]).off[j] != 0,
    ensures
        ({
            let q = pc[k] + meta_of(metas, program[k]).off[c];
            let field = ((program[k] >> 16u64) & 0xffff) as int;
            let signed = if field >= 0x8000 { field - 0x1_0000 } else { field };
            code.subrange(q, q + 8) == spec_u64_to_le_bytes(sign_extended_32(signed - key))
        }),
{
    lemma_placeholder_fields(program, metas, limit, pc, end, key, code, k, c);
    lemma_non_jump_offset(program, pc, k, key);
    let field = ((program[k] >> 16u64) & 0xffff) as int;
    let signed = if field >= 0x8000 { field - 0x1_0000 } else { field };
    lemma_sign_extended_32(slot_offset(program, pc, k, key).unwrap(), signed - key);
}

/// In compiled code, the eight bytes at each immediate placeholder of an
/// instruction other than a wide load hold, little-endian, the instruction's
/// 32-bit immediate field (bits 32 to 63 of its word) read as a signed
/// number, minus the key, wrapped to 32 bits and sign-extended to 64 bits; so
/// where no placeholders of its template overlap.
pub proof fn lemma_immediate_bytes(
    program: Seq<u64>,
    metas: Seq<MetaView>,
    limit: int,
    pc: Seq<u32>,
    end: u32,
    key: i32,
    code: Seq<u8>,
    k: int,
    c: int,
)
    requires
        metas_wf(metas),
        code_layout_ok(program, metas, limit, pc, end, key, code),
        0 <= k < program.len(),
        is_slot_start(program, k),
        program[k] % 256 != ebpf::LD_DW_IMM,
        placeholders_apart(meta_of(metas, program[k])),
        0 <= c < 4,
        forall|j: int| 0 <= j <= c ==> meta_of(metas, program[k]).imm[j] != 0,
    ensures
        ({
            let q = pc[k] + meta_of(metas, program[k]).imm[c];
            let field = (program[k] >> 32u64) as int;
            let signed = if field >= 0x8000_0000 { field - 0x1_0000_0000 } else { field };
            code.subrange(q, q + 8) == spec_u64_to_le_bytes(sign_extended_32(signed - key))
        }),
{
    lemma_placeholder_fields(program, metas, limit, pc, end, key, code, k, c);
    lemma_immediate_field(program, k, key);
    let field = (program[k] >> 32u64) as int;
    let signed = if field >= 0x8000_0000 { field - 0x1_0000_0000 } else { field };
    lemma_sign_extended_32(slot_imm(program, k, key), signed - key);
}

/// In compiled code, the four bytes at each key placeholder of an
/// instruction hold the key, little-endian; so where no placeholders of its
/// template overlap.
pub proof fn lemma_key_bytes(
    program: Seq<u64>,
    metas: Seq<MetaView>,
    limit: int,
    pc: Seq<u32>,
    end: u32,
    key: i32,
    code: Seq<u8>,
    k: int,
    c: int,
)
    requires
        metas_wf(metas),
        code_layout_ok(program, metas, limit, pc, end, key, code),
        0 <= k < program.len(),
        is_slot_start(program, k),
        placeholders_apart(meta_of(metas, program[k])),
        0 <= c < 4,
        forall|j: int| 0 <= j <= c ==> meta_of(metas, program[k]).decrypt[j] != 0,
    ensures
        ({
            let q = pc[k] + meta_of(metas, program[k]).decrypt[c];
            code.subrange(q, q + 4) == spec_u32_to_le_bytes(key as u32)
        }),
{
    lemma_placeholder_fields(program, metas, limit, pc, end, key, code, k, c);
}

/// Walking the instructions from `j` on with two keys: the codes stay of one
/// length and agree outside the placeholders.
proof fn lemma_scans_agree_from(
    program: Seq<u64>,
    metas: Seq<MetaView>,
    pc: Seq<u32>,
    end: u32,
    key1: i32,
    key2: i32,
    j: int,
    p1: Seq<u8>,
    p2: Seq<u8>,
)
    requires
        metas_wf(metas),
        pc_section_ok(program, metas, pc, end),
        0 <= j < program.len(),
        is_slot_start(program, j),
        spec_second_scan(program, metas, pc, end, key1, j) is Ok,
        spec_second_scan(program, metas, pc, end, key2, j) is Ok,
        spec_second_scan(program, metas, pc, end, key1, 0) == Ok::<Seq<u8>, EbpfError>(
            p1 + spec_second_scan(program, metas, pc, end, key1, j).unwrap(),
        ),
        spec_second_scan(program, metas, pc, end, key2, 0) == Ok::<Seq<u8>, EbpfError>(
            p2 + spec_second_scan(program, metas, pc, end, key2, j).unwrap(),
        ),
        p1.len() == pc[j],
        p2.len() == pc[j],
        forall|i: int|
            0 <= i < pc[j] && !code_placeholder(program, metas, pc, i) ==> p1[i] == p2[i],
    ensures
        ({
            let whole1 = spec_second_scan(program, metas, pc, end, key1, 0).unwrap();
            let whole2 = spec_second_scan(program, metas, pc, end, key2, 0).unwrap();
            &&& whole1.len() == whole2.len()
            &&& forall|i: int|
                0 <= i < whole1.len() && !code_placeholder(program, metas, pc, i) ==> whole1[i]
                    == whole2[i]
        }),
    decreases program.len() - j,
{
    let c1 = slot_code(program, metas, pc, key1, j).unwrap();
    let c2 = slot_code(program, metas, pc, key2, j).unwrap();
    let fill = noop_fill(program, metas, pc, end, j);
    let next = next_slot(program, j);
    let rest1 = spec_second_scan(program, metas, pc, end, key1, next).unwrap();
    let rest2 = spec_second_scan(program, metas, pc, end, key2, next).unwrap();
    lemma_slot_code_len(program, metas, pc, key1, j);
    lemma_slot_code_len(program, metas, pc, key2, j);
    let q1 = p1 + c1 + fill;
    let q2 = p2 + c2 + fill;
    assert forall|i: int|
        0 <= i < q1.len() && !code_placeholder(program, metas, pc, i) implies q1[i] == q2[i] by {
        if i >= pc[j] && i < pc[j] + template_len(metas, program[j]) {
            let l = i - pc[j];
            assert(!in_placeholder(meta_of(metas, program[j]), l));
            lemma_slot_code_outside(program, metas, pc, key1, j, l);
            lemma_slot_code_outside(program, metas, pc, key2, j, l);
        }
    }
    assert(p1 + (c1 + fill + rest1) =~= q1 + rest1);
    assert(p2 + (c2 + fill + rest2) =~= q2 + rest2);
    if next < program.len() {
        assert(is_slot_start(program, next));
        lemma_scans_agree_from(program, metas, pc, end, key1, key2, next, q1, q2);
    } else {
        assert(rest1 == Seq::<u8>::empty());
        assert(rest2 == Seq::<u8>::empty());
    }
}

/// Two compilations of one program with a no-op rate of 0 give the same
/// positions and code of the same length, which differ only in the
/// placeholders, where the keys are patched in.
pub proof fn lemma_rate_zero_code(
    program: Seq<u64>,
    metas: Seq<MetaView>,
    pc1: Seq<u32>,
    code1: Seq<u8>,
    pc2: Seq<u32>,
    code2: Seq<u8>,
)
    requires
        metas_wf(metas),
        compiled(program, metas, 0, pc1, code1),
        compiled(program, metas, 0, pc2, code2),
    ensures
        pc1 == pc2,
        code1.len() == code2.len(),
        forall|i: int|
            0 <= i < code1.len() && !code_placeholder(program, metas, pc1, i) ==> code1[i] == code2[i],
{
    let (end1, key1) = choose|end: u32, key: i32| code_layout_ok(program, metas, 0, pc1, end, key, code1);
    let (end2, key2) = choose|end: u32, key: i32| code_layout_ok(program, metas, 0, pc2, end, key, code2);
    lemma_rate_zero_positions(program, metas, pc1, end1, pc2, end2);
    if program.len() > 0 {
        assert(is_slot_start(program, 0));
        lemma_second_scan_result(program, metas, pc1, end1, key1, 0);
        lemma_second_scan_result(program, metas, pc1, end1, key2, 0);
        assert(Seq::<u8>::empty() + code1 =~= code1);
        assert(Seq::<u8>::empty() + code2 =~= code2);
        lemma_scans_agree_from(
            program,
            metas,
            pc1,
            end1,
            key1,
            key2,
            0,
            Seq::empty(),
            Seq::empty(),
        );
    }
}

/// Compiles the program in `text` against the template table `table`, with
/// the generator `rng`, or `None` when none could be seeded: the position of
/// every instruction in the code, and the code. After an instruction, at
/// intervals drawn from `0..=2 * noop_instruction_rate`, the code holds a
/// byte of no-op space, which the positions count; the immediates, offsets
/// and the key are patched in with a key drawn from `rng`.
pub fn compile_with_rng(
    text: &[u8],
    table: &[u8],
    noop_instruction_rate: u32,
    rng: Option<SmallRng>,
) -> (r: Result<(Vec<u32>, Vec<u8>), EbpfError>)
    requires
        table@.len() == TEMPLATE_COUNT * TEMPLATE_SLOT,
        table_scannable(table@),
        noop_instruction_rate <= u32::MAX / 2,
        text@.len() / 8 <= MAX_PROGRAM_WORDS,
        no_jump_to_end(
            program_words(text@),
            table_metas(table@),
            end_word(program_words(text@), 0),
        ),
    ensures
        rng is None ==> r == Err::<(Vec<u32>, Vec<u8>), EbpfError>(EbpfError::JitNotCompiled),
        rng is Some ==> match r {
            Ok((pc, code)) => compiled(
                program_words(text@),
                table_metas(table@),
                2 * noop_instruction_rate,
                pc@,
                code@,
            ),
            Err(e) => e == EbpfError::InvalidInstruction && !program_compiles(
                program_words(text@),
                table_metas(table@),
            ),
        },
{
    let range = noop_range(noop_instruction_rate * 2);
    if rng.is_none() {
        return Err(EbpfError::JitNotCompiled);
    }
    let mut diversification_rng = rng.unwrap();
    let immediate_value_key = gen_i32(&mut diversification_rng);
    let program = read_program(text);
    let metas = get_instruction_template_metas(table);
    let ghost prog = program@;
    let ghost mv = table_metas(table@);
    let (pc_section, end) = match first_scan(&program, metas.as_slice(), &range, &mut diversification_rng) {
        Ok(scanned) => scanned,
        Err(e) => {
            proof {
                if program_compiles(prog, mv) {
                    lemma_compiles_templates(prog, mv, end_word(prog, 0), 0);
                }
            }
            return Err(e);
        },
    };
    proof {
        lemma_pc_section_bounds(prog, mv, pc_section@, end);
        lemma_second_scan_result(prog, mv, pc_section@, end, immediate_value_key, 0);
    }
    match second_scan(&program, metas.as_slice(), &pc_section, end, immediate_value_key) {
        Ok(text_section) => {
            proof {
                lemma_code_at_recorded_position(prog, mv, pc_section@, end, immediate_value_key);
                assert(code_layout_ok(
                    prog,
                    mv,
                    2 * noop_instruction_rate,
                    pc_section@,
                    end,
                    immediate_value_key,
                    text_section@,
                ));
            }
            Ok((pc_section, text_section))
        },
        Err(e) => Err(e),
    }
}

/// Compiles the program in `text` against the template table `table`: the
/// position of every instruction in the code, and the code, diversified by a
/// generator seeded from the operating system. Fails with `JitNotCompiled`
/// when no generator could be seeded, and with `InvalidInstruction` on a
/// program that cannot be compiled.
pub fn compile(
    text: &[u8],
    table: &[u8],
    noop_instruction_rate: u32,
) -> (r: Result<(Vec<u32>, Vec<u8>), EbpfError>)
    requires
        table@.len() == TEMPLATE_COUNT * TEMPLATE_SLOT,
        table_scannable(table@),
        noop_instruction_rate <= u32::MAX / 2,
        text@.len() / 8 <= MAX_PROGRAM_WORDS,
        no_jump_to_end(
            program_words(text@),
            table_metas(table@),
            end_word(program_words(text@), 0),
        ),
    ensures
        match r {
            Ok((pc, code)) => compiled(
                program_words(text@),
                table_metas(table@),
                2 * noop_instruction_rate,
                pc@,
                code@,
            ),
            Err(e) => e == EbpfError::JitNotCompiled || (e == EbpfError::InvalidInstruction
                && !program_compiles(program_words(text@), table_metas(table@))),
        },
{
    let rng = small_rng_from_os();
    compile_with_rng(text, table, noop_instruction_rate, rng)
}

} // verus!
