use vstd::prelude::*;

use crate::keycode::{is_modifier, is_modifier_spec, modifier_bit, modifier_bit_spec};

verus! {

/// Number of key-code slots of a boot-protocol keyboard report.
pub const SLOTS: usize = 6;

/// Length in bytes of a boot-protocol keyboard report.
pub const REPORT_LEN: usize = 8;

/// Byte 0 of the report for the held codes `s`: the OR of the bits of
/// every modifier among them.
pub open spec fn modifier_mask(s: Seq<u8>) -> u8
    decreases s.len(),
{
    if s.len() == 0 {
        0
    } else {
        modifier_mask(s.drop_last()) | modifier_bit_spec(s.last())
    }
}

/// Whether a held code is a candidate for a key slot.
pub open spec fn is_slot_code(code: u8) -> bool {
    code != 0 && !is_modifier_spec(code)
}

/// The key-code slots for the held codes `s`: the non-modifier codes in
/// first-seen order, each once, at most six of them.
pub open spec fn slot_codes(s: Seq<u8>) -> Seq<u8>
    decreases s.len(),
{
    if s.len() == 0 {
        Seq::empty()
    } else {
        let p = slot_codes(s.drop_last());
        let c = s.last();
        if is_slot_code(c) && !p.contains(c) && p.len() < SLOTS {
            p.push(c)
        } else {
            p
        }
    }
}

/// The eight report bytes for the held codes `s`: the modifier mask, a
/// reserved zero, then the slot codes padded with zeros.
pub open spec fn report_bytes(s: Seq<u8>) -> Seq<u8> {
    let slots = slot_codes(s);
    seq![modifier_mask(s), 0u8] + slots + Seq::new((SLOTS - slots.len()) as nat, |i: int| 0u8)
}

/// The slots never hold more than six codes, each a distinct
/// non-modifier code.
pub proof fn lemma_slot_codes_shape(s: Seq<u8>)
    ensures
        slot_codes(s).len() <= SLOTS,
        forall|i: int| 0 <= i < slot_codes(s).len() ==> is_slot_code(#[trigger] slot_codes(s)[i]),
        forall|i: int, j: int|
            0 <= i < j < slot_codes(s).len() ==> slot_codes(s)[i] != slot_codes(s)[j],
    decreases s.len(),
{
    if s.len() > 0 {
        lemma_slot_codes_shape(s.drop_last());
    }
}

/// An eight-byte keyboard report.
pub struct HidReport {
    bytes: Vec<u8>,
}

impl View for HidReport {
    type V = Seq<u8>;

    closed spec fn view(&self) -> Seq<u8> {
        self.bytes@
    }
}

impl HidReport {
    /// A report is always eight bytes long.
    pub open spec fn wf(&self) -> bool {
        self@.len() == REPORT_LEN
    }

    /// The report with no key pressed.
    pub fn empty() -> (r: HidReport)
        ensures
            r.wf(),
            r@ == report_bytes(Seq::empty()),
    {
        render(&Vec::new())
    }

    /// The report's bytes as sent on the wire.
    pub fn as_bytes(&self) -> (r: &[u8])
        ensures
            r@ == self@,
    {
        self.bytes.as_slice()
    }

    /// The modifier bitmask (byte 0).
    pub fn modifiers(&self) -> (r: u8)
        requires
            self.wf(),
        ensures
            r == self@[0],
    {
        self.bytes[0]
    }
}

/// Renders the held key codes into a report.
pub fn render(held: &Vec<u8>) -> (r: HidReport)
    ensures
        r.wf(),
        r@ == report_bytes(held@),
{
    let mut mask: u8 = 0;
    let mut slots: Vec<u8> = Vec::new();
    let mut i: usize = 0;
    while i < held.len()
        invariant
            i <= held.len(),
            mask == modifier_mask(held@.take(i as int)),
            slots@ == slot_codes(held@.take(i as int)),
        decreases held.len() - i,
    {
        proof {
            lemma_slot_codes_shape(held@.take(i as int));
            assert(held@.take(i as int + 1).drop_last() =~= held@.take(i as int));
        }
        let c = held[i];
        mask = mask | modifier_bit(c);
        if c != 0 && !is_modifier(c) && slots.len() < SLOTS {
            let mut seen = false;
            let mut j: usize = 0;
            while j < slots.len()
                invariant
                    j <= slots.len(),
                    seen == slots@.take(j as int).contains(c),
                decreases slots.len() - j,
            {
                proof {
                    assert(slots@.take(j as int + 1) =~= slots@.take(j as int).push(slots@[j as int]));
                }
                let ghost pre = slots@.take(j as int);
                let ghost next = slots@.take(j as int + 1);
                if slots[j] == c {
                    seen = true;
                    assert(next[j as int] == c);
                } else {
                    assert(next.contains(c) ==> pre.contains(c)) by {
                        if next.contains(c) {
                            let k = choose|k: int| 0 <= k < next.len() && next[k] == c;
                            assert(pre[k] == c);
                        }
                    }
                    assert(pre.contains(c) ==> next.contains(c)) by {
                        if pre.contains(c) {
                            let k = choose|k: int| 0 <= k < pre.len() && pre[k] == c;
                            assert(next[k] == c);
                        }
                    }
                }
                j = j + 1;
            }
            proof {
                assert(slots@.take(j as int) =~= slots@);
            }
            if !seen {
                slots.push(c);
            }
        }
        i = i + 1;
    }
    proof {
        assert(held@.take(i as int) =~= held@);
        lemma_slot_codes_shape(held@);
    }
    let mut bytes: Vec<u8> = Vec::new();
    bytes.push(mask);
    bytes.push(0);
    let mut k: usize = 0;
    while k < SLOTS
        invariant
            k <= SLOTS,
            slots@ == slot_codes(held@),
            slots.len() <= SLOTS,
            bytes@ =~= seq![mask, 0u8] + Seq::new(k as nat, |x: int|
                if x < slots.len() { slots@[x] } else { 0u8 }),
        decreases SLOTS - k,
    {
        if k < slots.len() {
            bytes.push(slots[k]);
        } else {
            bytes.push(0);
        }
        k = k + 1;
    }
    let r = HidReport { bytes };
    assert(r@ =~= report_bytes(held@));
    r
}

/// Equal held-key sequences, in content and order, render byte-identical
/// reports.
pub proof fn lemma_report_deterministic(a: Seq<u8>, b: Seq<u8>)
    requires
        a == b,
    ensures
        report_bytes(a) == report_bytes(b),
{
}

/// Every report is well formed whatever is held: eight bytes, byte 1
/// zero, the used slots first, each a distinct non-modifier code, and
/// the unused slots zero.
pub proof fn lemma_report_well_formed(s: Seq<u8>)
    ensures
        report_bytes(s).len() == REPORT_LEN,
        report_bytes(s)[1] == 0,
        forall|i: int| 2 <= i < 2 + slot_codes(s).len() ==> is_slot_code(#[trigger] report_bytes(s)[i]),
        forall|i: int| 2 + slot_codes(s).len() <= i < REPORT_LEN ==> #[trigger] report_bytes(s)[i] == 0,
        forall|i: int, j: int| 2 <= i < j < 2 + slot_codes(s).len() ==>
            report_bytes(s)[i] != report_bytes(s)[j],
{
    lemma_slot_codes_shape(s);
    let slots = slot_codes(s);
    assert forall|i: int| 2 <= i < 2 + slots.len() implies #[trigger] report_bytes(s)[i] == slots[i - 2] by {}
}

} // verus!
