//! The profile binary codec: deterministically transforms a sequence of
//! profiles into the wire byte stream
//! `u16_be total_length | profile_frame*`, where each profile frame is
//! `platform_header | u8 body_length | body`.

use vstd::prelude::*;
use vstd::arithmetic::power2::{lemma2_to64, lemma_pow2_adds, lemma_pow2_pos, pow2};
use vstd::relations::{sorted_by, total_ordering};
use vstd::seq_lib::lemma_sorted_unique;
use crate::bits::{
    bits_value, field_bit, field_bits, lemma_bits_value_bound, lemma_bits_value_push,
    lemma_pack_bits_append_block, lemma_pack_bits_full, pack_bits, pow2_u32,
};
use crate::profile::{
    Action, ActionType, Layer, Layout, Platform, PlatformConfig, Profile, layer_slots, spec_slots,
    SLOT_COUNT,
};

verus! {

/// Width in bits of a button action identifier field.
pub const BUTTON_ID_BITS: u32 = 5;

/// Width in bits of an analog action's magnitude field.
pub const BUTTON_VALUE_BITS: u32 = 10;

/// The count of distinct digital action identifiers. Digital identifiers
/// occupy 0 through `DIGITAL_ACTION_SPACE_SIZE - 1`; a non-zero analog
/// identifier is offset by this count so that the shared 5-bit identifier
/// field distinguishes the two identifier spaces.
pub const DIGITAL_ACTION_SPACE_SIZE: i32 = 16;

/// A pure validation failure of the codec; every variant carries the value
/// that caused it where one exists.
#[derive(Clone, Copy, Debug, PartialEq, Eq, Structural)]
pub enum EncodeError {
    /// A `platform_config` entry carries the sentinel `Unspecified` platform.
    InvalidPlatform,
    /// A `platform_config` position is not representable in 8 bits.
    PositionOutOfRange { position: i32 },
    /// A joystick threshold lies outside 0 through 100.
    ThresholdOutOfRange { threshold: i32 },
    /// A profile has no layout, or a layout has no base layer.
    MissingLayer,
    /// An action carries neither a digital nor an analog variant.
    MalformedAction,
    /// A profile body's length does not fit in its one-byte length field.
    ProfileTooLarge { body_len: usize },
}

/// One button slot's wire form: `data` written as a `num_bits`-wide field.
#[derive(Clone, Copy, Debug, PartialEq, Eq, Structural)]
pub struct Button {
    pub num_bits: u32,
    pub data: u32,
}

/// A button is either a 5-bit or a 15-bit field whose data fits its width.
pub open spec fn button_wf(b: Button) -> bool {
    &&& (b.num_bits == BUTTON_ID_BITS || b.num_bits == BUTTON_ID_BITS + BUTTON_VALUE_BITS)
    &&& (b.data as nat) < pow2(b.num_bits as nat)
}

/// The wire form of one action: a digital action is its identifier masked to
/// the 5-bit field; an analog action with a non-zero identifier packs the
/// offset identifier and the masked magnitude into 15 bits; an analog action
/// with identifier zero degenerates to the 5-bit no-op form.
pub open spec fn spec_button(t: ActionType) -> Button {
    match t {
        ActionType::Digital(id) => Button {
            num_bits: BUTTON_ID_BITS,
            data: (id & 0x1f) as u32,
        },
        ActionType::Analog(a) => {
            if a.id == 0 {
                Button { num_bits: BUTTON_ID_BITS, data: 0 }
            } else {
                Button {
                    num_bits: (BUTTON_ID_BITS + BUTTON_VALUE_BITS) as u32,
                    data: ((((a.id & 0x1f) as u32 + DIGITAL_ACTION_SPACE_SIZE as u32) % 32) * 1024
                        + (a.value & 0x3ff) as u32) as u32,
                }
            }
        },
    }
}

pub proof fn lemma_spec_button_wf(t: ActionType)
    ensures
        button_wf(spec_button(t)),
{
    lemma2_to64();
    match t {
        ActionType::Digital(id) => {
            assert(0 <= (id & 0x1f) < 32) by (bit_vector);
        },
        ActionType::Analog(a) => {
            if a.id != 0 {
                let aid = a.id;
                let aval = a.value;
                assert(0 <= (aid & 0x1f) < 32) by (bit_vector);
                assert(0 <= (aval & 0x3ff) < 1024) by (bit_vector);
            }
        },
    }
}

/// The action a slot encodes as: an absent slot is the no-op digital action;
/// a present action without a variant is malformed (`None` here).
pub open spec fn slot_action(s: Option<Action>) -> Option<ActionType> {
    match s {
        None => Some(ActionType::Digital(0)),
        Some(a) => a.action_type,
    }
}

/// Every slot of the layer encodes to an action.
pub open spec fn layer_ok(l: Layer) -> bool {
    forall|i: int|
        0 <= i < spec_slots(l).len() ==> (#[trigger] slot_action(spec_slots(l)[i])) is Some
}

/// The buttons of a layer's slots, in canonical slot order.
pub open spec fn spec_layer_buttons(l: Layer) -> Seq<Button> {
    spec_slots(l).map_values(|s: Option<Action>| spec_button(slot_action(s)->Some_0))
}

/// The bits of one button, most-significant bit first.
pub open spec fn button_bits(b: Button) -> Seq<bool> {
    field_bits(b.num_bits as nat, b.data as nat)
}

/// The concatenated bits of a button sequence.
pub open spec fn buttons_bits(bs: Seq<Button>) -> Seq<bool>
    decreases bs.len(),
{
    if bs.len() == 0 {
        Seq::empty()
    } else {
        buttons_bits(bs.drop_last()) + button_bits(bs.last())
    }
}

/// The wire form of one layer: the slots' buttons bit-packed into bytes.
pub open spec fn spec_encode_layer(l: Layer) -> Result<Seq<u8>, EncodeError> {
    if layer_ok(l) {
        Ok(pack_bits(buttons_bits(spec_layer_buttons(l))))
    } else {
        Err(EncodeError::MalformedAction)
    }
}

/// The wire form of one action, or `None` for a malformed action.
pub fn get_button(action: &Action) -> (r: Option<Button>)
    ensures
        r matches Some(b) ==> action.action_type matches Some(t) && b == spec_button(t),
        r is None <==> action.action_type is None,
{
    match action.action_type {
        None => None,
        Some(ActionType::Digital(id)) => {
            proof {
                assert(0 <= (id & 0x1f) < 32) by (bit_vector);
            }
            Some(Button { num_bits: BUTTON_ID_BITS, data: (id & 0x1f) as u32 })
        },
        Some(ActionType::Analog(a)) => {
            if a.id == 0 {
                Some(Button { num_bits: BUTTON_ID_BITS, data: 0 })
            } else {
                proof {
                    let aid = a.id;
                    let aval = a.value;
                    assert(0 <= (aid & 0x1f) < 32) by (bit_vector);
                    assert(0 <= (aval & 0x3ff) < 1024) by (bit_vector);
                }
                let id5: u32 = (a.id & 0x1f) as u32;
                let value10: u32 = (a.value & 0x3ff) as u32;
                let idf: u32 = (id5 + DIGITAL_ACTION_SPACE_SIZE as u32) % 32;
                let data: u32 = idf * 1024 + value10;
                Some(Button { num_bits: BUTTON_ID_BITS + BUTTON_VALUE_BITS, data })
            }
        },
    }
}

/// Packs a sequence of buttons into bytes, most-significant bit first,
/// flushing a final partial byte with its unused low-order bits zero.
pub fn pack_buttons(buttons: &Vec<Button>) -> (r: Vec<u8>)
    requires
        forall|i: int| 0 <= i < buttons@.len() ==> button_wf(#[trigger] buttons@[i]),
    ensures
        r@ == pack_bits(buttons_bits(buttons@)),
{
    let mut encoded: Vec<u8> = Vec::new();
    let mut curr_byte: u8 = 0;
    let mut filled: u32 = 0;
    let ghost mut gbits: Seq<bool> = Seq::empty();
    proof {
        assert(buttons@.take(0) =~= Seq::<Button>::empty());
        assert(gbits.take(0) =~= Seq::<bool>::empty());
        assert(gbits.skip(0) =~= Seq::<bool>::empty());
    }
    let mut bi: usize = 0;
    while bi < buttons.len()
        invariant
            bi <= buttons@.len(),
            forall|i: int| 0 <= i < buttons@.len() ==> button_wf(#[trigger] buttons@[i]),
            filled < 8,
            gbits == buttons_bits(buttons@.take(bi as int)),
            gbits.len() == encoded@.len() * 8 + filled,
            encoded@ == pack_bits(gbits.take(encoded@.len() as int * 8)),
            curr_byte as nat == bits_value(gbits.skip(encoded@.len() as int * 8)),
        decreases buttons@.len() - bi,
    {
        let b = buttons[bi];
        let w = b.num_bits;
        proof {
            assert(button_wf(b));
            assert(buttons@.take(bi + 1).drop_last() =~= buttons@.take(bi as int));
            assert(buttons@.take(bi + 1).last() == b);
            assert(buttons_bits(buttons@.take(bi + 1)) == gbits + button_bits(b));
            assert(button_bits(b).take(0) =~= Seq::<bool>::empty());
            assert(gbits + button_bits(b).take(0) =~= gbits);
        }
        let ghost gstart = gbits;
        let mut j: u32 = 0;
        while j < w
            invariant
                j <= w,
                w == b.num_bits,
                button_wf(b),
                filled < 8,
                gbits == gstart + button_bits(b).take(j as int),
                gbits.len() == encoded@.len() * 8 + filled,
                encoded@ == pack_bits(gbits.take(encoded@.len() as int * 8)),
                curr_byte as nat == bits_value(gbits.skip(encoded@.len() as int * 8)),
            decreases w - j,
        {
            let p = pow2_u32(w - 1 - j);
            proof {
                lemma_pow2_pos((w - 1 - j) as nat);
            }
            let bitv: u32 = (b.data / p) % 2;
            let bit = bitv == 1;
            proof {
                assert(field_bits(w as nat, b.data as nat)[j as int] == bit);
                let part = gbits.skip(encoded@.len() as int * 8);
                lemma_bits_value_bound(part);
                lemma2_to64();
                assert(part.len() == filled);
                assert(bits_value(part) < pow2(7));
            }
            curr_byte = curr_byte * 2 + (if bit {
                1u8
            } else {
                0u8
            });
            filled = filled + 1;
            proof {
                let full = encoded@.len() as int * 8;
                let part = gbits.skip(full);
                let gnew = gbits.push(field_bits(w as nat, b.data as nat)[j as int]);
                lemma_bits_value_push(part, bit);
                assert(gnew.skip(full) =~= part.push(bit));
                assert(gnew.take(full) =~= gbits.take(full));
                assert(gnew =~= gstart + button_bits(b).take(j + 1)) by {
                    assert(button_bits(b).take(j + 1) =~= button_bits(b).take(j as int).push(
                        button_bits(b)[j as int],
                    ));
                }
                gbits = gnew;
            }
            if filled == 8 {
                proof {
                    let full = encoded@.len() as int * 8;
                    let part = gbits.skip(full);
                    assert(part.len() == 8);
                    lemma_pack_bits_full(part);
                    lemma_pack_bits_append_block(gbits.take(full), part);
                    assert(gbits.take(full) + part =~= gbits);
                    assert(pack_bits(gbits) == pack_bits(gbits.take(full)) + seq![
                        bits_value(part) as u8,
                    ]);
                    assert(gbits.take(gbits.len() as int) =~= gbits);
                }
                encoded.push(curr_byte);
                curr_byte = 0;
                filled = 0;
                proof {
                    assert(encoded@.len() as int * 8 == gbits.len());
                    assert(gbits.skip(gbits.len() as int) =~= Seq::<bool>::empty());
                }
            }
            j = j + 1;
        }
        proof {
            assert(button_bits(b).take(w as int) =~= button_bits(b));
            assert(gbits == buttons_bits(buttons@.take(bi + 1)));
        }
        bi = bi + 1;
    }
    proof {
        assert(buttons@.take(buttons@.len() as int) =~= buttons@);
    }
    if filled > 0 {
        let p = pow2_u32(8 - filled);
        proof {
            let full = encoded@.len() as int * 8;
            let part = gbits.skip(full);
            assert(part.len() == filled);
            lemma_bits_value_bound(part);
            lemma_pow2_adds(filled as nat, (8 - filled) as nat);
            lemma2_to64();
            assert((bits_value(part) + 1) * pow2((8 - filled) as nat) <= pow2(filled as nat)
                * pow2((8 - filled) as nat)) by (nonlinear_arith)
                requires
                    bits_value(part) + 1 <= pow2(filled as nat),
                    pow2((8 - filled) as nat) > 0,
            ;
            assert(bits_value(part) * pow2((8 - filled) as nat) + pow2((8 - filled) as nat)
                <= 256) by (nonlinear_arith)
                requires
                    (bits_value(part) + 1) * pow2((8 - filled) as nat) <= 256,
            ;
            lemma_pack_bits_append_block(gbits.take(full), part);
            assert(gbits.take(full) + part =~= gbits);
            assert(pack_bits(part) == seq![(bits_value(part) * pow2((8 - filled) as nat)) as u8]);
        }
        let last: u32 = (curr_byte as u32) * p;
        encoded.push(last as u8);
    } else {
        proof {
            let full = encoded@.len() as int * 8;
            assert(gbits.skip(full) =~= Seq::<bool>::empty());
            assert(gbits.take(full) =~= gbits);
            lemma_pack_bits_append_block(gbits, Seq::<bool>::empty());
            assert(gbits + Seq::<bool>::empty() =~= gbits);
            assert(pack_bits(Seq::<bool>::empty()) =~= Seq::<u8>::empty());
            assert(encoded@ + Seq::<u8>::empty() =~= encoded@);
        }
    }
    encoded
}

/// The wire form of one layer: iterates the twenty canonical slots in order,
/// substituting the no-op digital action for an absent slot, and bit-packs
/// the resulting buttons.
pub fn encode_layer(layer: &Layer) -> (r: Result<Vec<u8>, EncodeError>)
    ensures
        spec_encode_layer(*layer) matches Ok(bytes) ==> r matches Ok(v) && v@ == bytes,
        spec_encode_layer(*layer) matches Err(e) ==> r matches Err(e2) && e2 == e,
{
    let slots = layer_slots(layer);
    let mut buttons: Vec<Button> = Vec::new();
    let mut i: usize = 0;
    while i < slots.len()
        invariant
            i <= slots@.len(),
            slots@ == spec_slots(*layer),
            buttons@.len() == i,
            forall|k: int|
                0 <= k < i ==> (#[trigger] slot_action(slots@[k])) is Some,
            forall|k: int|
                0 <= k < i ==> #[trigger] buttons@[k] == spec_button(slot_action(slots@[k])->Some_0),
        decreases slots@.len() - i,
    {
        let action = match &slots[i] {
            Some(a) => *a,
            None => Action { action_type: Some(ActionType::Digital(0)) },
        };
        proof {
            assert(action.action_type == slot_action(slots@[i as int]));
        }
        let button = match get_button(&action) {
            Some(x) => x,
            None => {
                proof {
                    assert(!layer_ok(*layer));
                }
                return Err(EncodeError::MalformedAction);
            },
        };
        buttons.push(button);
        i = i + 1;
    }
    proof {
        assert(layer_ok(*layer));
        assert forall|k: int| 0 <= k < buttons@.len() implies button_wf(
            #[trigger] buttons@[k],
        ) by {
            lemma_spec_button_wf(slot_action(slots@[k])->Some_0);
        }
        assert(buttons@ =~= spec_layer_buttons(*layer));
    }
    Ok(pack_buttons(&buttons))
}

/// A platform/position entry keyed for the header: the platform's fixed
/// priority and the 8-bit position.
#[derive(Clone, Copy, Debug, PartialEq, Eq, Structural)]
pub struct PlatformMask {
    pub priority: u8,
    pub position: u8,
}

/// Header order: by platform priority, then by position, ascending.
pub open spec fn mask_le(a: PlatformMask, b: PlatformMask) -> bool {
    a.priority < b.priority || (a.priority == b.priority && a.position <= b.position)
}

pub open spec fn mask_le_order() -> spec_fn(PlatformMask, PlatformMask) -> bool {
    |a: PlatformMask, b: PlatformMask| mask_le(a, b)
}

pub proof fn lemma_mask_le_total_ordering()
    ensures
        total_ordering(mask_le_order()),
{
    let r = mask_le_order();
    assert forall|x: PlatformMask, y: PlatformMask| #[trigger] r(x, y) && #[trigger] r(y, x)
        implies x == y by {}
    assert forall|x: PlatformMask, y: PlatformMask| !(#[trigger] r(x, y)) implies #[trigger] r(
        y,
        x,
    ) by {}
}

/// The masks of a config sequence, in input order; or the first validation
/// error in input order.
pub open spec fn spec_mask(c: PlatformConfig) -> PlatformMask {
    PlatformMask { priority: c.platform.spec_priority(), position: c.position as u8 }
}

pub open spec fn spec_header_masks(cs: Seq<PlatformConfig>) -> Result<
    Seq<PlatformMask>,
    EncodeError,
>
    decreases cs.len(),
{
    if cs.len() == 0 {
        Ok(Seq::empty())
    } else {
        match spec_header_masks(cs.drop_last()) {
            Err(e) => Err(e),
            Ok(pre) => {
                let c = cs.last();
                if c.platform == Platform::Unspecified {
                    Err(EncodeError::InvalidPlatform)
                } else if c.position < 0 || c.position > 255 {
                    Err(EncodeError::PositionOutOfRange { position: c.position })
                } else {
                    Ok(pre.push(spec_mask(c)))
                }
            },
        }
    }
}

/// An error among the first `i` configs decides the whole header.
pub proof fn lemma_header_masks_prefix_err(cs: Seq<PlatformConfig>, i: int)
    requires
        0 <= i <= cs.len(),
        spec_header_masks(cs.take(i)) is Err,
    ensures
        spec_header_masks(cs) == spec_header_masks(cs.take(i)),
    decreases cs.len() - i,
{
    if i == cs.len() {
        assert(cs.take(i) =~= cs);
    } else {
        assert(cs.take(i + 1).drop_last() =~= cs.take(i));
        lemma_header_masks_prefix_err(cs, i + 1);
    }
}

/// The sorted header order of a mask sequence.
pub open spec fn sort_masks(ms: Seq<PlatformMask>) -> Seq<PlatformMask> {
    ms.sort_by(mask_le_order())
}

/// The bit a present platform sets in the platform bitmap: bit
/// `8 - priority`.
pub open spec fn mask_bit(m: PlatformMask) -> u8 {
    if 1 <= m.priority && m.priority <= 8 {
        1u8 << (8 - m.priority) as u8
    } else {
        0
    }
}

/// The platform bitmap of a mask sequence.
pub open spec fn spec_bitmap(ms: Seq<PlatformMask>) -> u8
    decreases ms.len(),
{
    if ms.len() == 0 {
        0
    } else {
        spec_bitmap(ms.drop_last()) | mask_bit(ms.last())
    }
}

/// Two positions packed per byte: the first of each pair in the high nibble,
/// the second in the low nibble, zero-flushed when the count is odd.
pub open spec fn pair_byte(a: u8, b: u8) -> u8 {
    ((a & 0xf) << 4) | b
}

pub open spec fn spec_nibbles(ms: Seq<PlatformMask>) -> Seq<u8> {
    Seq::new(
        (ms.len() + 1) / 2,
        |k: int|
            pair_byte(
                ms[2 * k].position,
                if 2 * k + 1 < ms.len() {
                    ms[2 * k + 1].position
                } else {
                    0
                },
            ),
    )
}

/// The platform/position header of a profile: the platform bitmap followed by
/// the nibble-packed positions in sorted (priority, position) order.
pub open spec fn spec_encode_header(cs: Seq<PlatformConfig>) -> Result<Seq<u8>, EncodeError> {
    match spec_header_masks(cs) {
        Err(e) => Err(e),
        Ok(ms) => {
            let sorted = sort_masks(ms);
            Ok(seq![spec_bitmap(sorted)] + spec_nibbles(sorted))
        },
    }
}

/// Inserting an element anywhere adds exactly it to the sequence's multiset.
proof fn lemma_insert_to_multiset(s: Seq<PlatformMask>, i: int, a: PlatformMask)
    requires
        0 <= i <= s.len(),
    ensures
        s.insert(i, a).to_multiset() =~= s.to_multiset().insert(a),
{
    broadcast use vstd::seq_lib::group_to_multiset_ensures;
    broadcast use vstd::multiset::group_multiset_axioms;

    let pre = s.subrange(0, i);
    let post = s.subrange(i, s.len() as int);
    assert(s.insert(i, a) == pre.push(a) + post);
    vstd::seq_lib::lemma_multiset_commutative(pre.push(a), post);
    vstd::seq_lib::lemma_multiset_commutative(pre, post);
    assert(pre + post =~= s);
    assert(pre.push(a).to_multiset() =~= pre.to_multiset().insert(a));
}

fn mask_le_exec(a: PlatformMask, b: PlatformMask) -> (r: bool)
    ensures
        r == mask_le(a, b),
{
    a.priority < b.priority || (a.priority == b.priority && a.position <= b.position)
}

/// Sorts platform masks into header order by insertion into a fresh vector.
fn sorted_masks(input: &Vec<PlatformMask>) -> (r: Vec<PlatformMask>)
    ensures
        r@ == sort_masks(input@),
        r@.to_multiset() == input@.to_multiset(),
        sorted_by(r@, mask_le_order()),
        r@.len() == input@.len(),
{
    broadcast use vstd::seq_lib::group_to_multiset_ensures;

    let mut out: Vec<PlatformMask> = Vec::new();
    let mut i: usize = 0;
    proof {
        assert(input@.take(0) =~= Seq::<PlatformMask>::empty());
        assert(out@.to_multiset() =~= input@.take(0).to_multiset());
    }
    while i < input.len()
        invariant
            i <= input@.len(),
            out@.len() == i,
            sorted_by(out@, mask_le_order()),
            out@.to_multiset() == input@.take(i as int).to_multiset(),
        decreases input@.len() - i,
    {
        let m = input[i];
        let mut k: usize = 0;
        while k < out.len() && mask_le_exec(out[k], m)
            invariant
                k <= out@.len(),
                out@.len() == i,
                sorted_by(out@, mask_le_order()),
                forall|t: int| 0 <= t < k ==> mask_le(#[trigger] out@[t], m),
            decreases out@.len() - k,
        {
            k = k + 1;
        }
        proof {
            broadcast use vstd::seq_lib::group_to_multiset_ensures;

            let order = mask_le_order();
            if k < out@.len() {
                assert(!mask_le(out@[k as int], m));
                assert forall|t: int| k <= t < out@.len() implies mask_le(
                    m,
                    #[trigger] out@[t],
                ) by {
                    assert(mask_le(m, out@[k as int]));
                    if t > k {
                        assert(order(out@[k as int], out@[t]));
                    }
                }
            }
            let inserted = out@.insert(k as int, m);
            assert(sorted_by(inserted, order)) by {
                assert forall|t1: int, t2: int| 0 <= t1 < t2 < inserted.len() implies #[trigger]
                    order(inserted[t1], inserted[t2]) by {
                    if t2 < k {
                        assert(order(out@[t1], out@[t2]));
                    } else if t1 > k {
                        assert(order(out@[t1 - 1], out@[t2 - 1]));
                    } else if t1 < k && t2 == k {
                        assert(mask_le(out@[t1], m));
                    } else if t1 == k && t2 > k {
                        assert(mask_le(m, out@[t2 - 1]));
                    } else if t1 < k && t2 > k {
                        assert(order(out@[t1], out@[t2 - 1]));
                    }
                }
            }
            lemma_insert_to_multiset(out@, k as int, m);
            assert(input@.take(i + 1).drop_last() =~= input@.take(i as int));
            assert(input@.take(i + 1) =~= input@.take(i as int).push(input@[i as int]));
            assert(input@.take(i as int).push(input@[i as int]).to_multiset() =~= input@.take(
                i as int,
            ).to_multiset().insert(input@[i as int]));
        }
        out.insert(k, m);
        i = i + 1;
    }
    proof {
        assert(input@.take(input@.len() as int) =~= input@);
        input@.lemma_sort_by_ensures(mask_le_order());
        lemma_mask_le_total_ordering();
        lemma_sorted_unique(out@, input@.sort_by(mask_le_order()), mask_le_order());
        broadcast use vstd::multiset::group_multiset_axioms;

        assert(out@.to_multiset().len() == out@.len());
        assert(out@ =~= sort_masks(input@));
    }
    out
}

/// The platform/position header of a profile: validates each entry, sorts by
/// (priority, position), and emits the platform bitmap followed by the
/// nibble-packed positions.
pub fn encode_header(configs: &Vec<PlatformConfig>) -> (r: Result<Vec<u8>, EncodeError>)
    ensures
        spec_encode_header(configs@) matches Ok(bytes) ==> r matches Ok(v) && v@ == bytes,
        spec_encode_header(configs@) matches Err(e) ==> r matches Err(e2) && e2 == e,
{
    let mut masks: Vec<PlatformMask> = Vec::new();
    let mut i: usize = 0;
    proof {
        assert(configs@.take(0) =~= Seq::<PlatformConfig>::empty());
    }
    while i < configs.len()
        invariant
            i <= configs@.len(),
            spec_header_masks(configs@.take(i as int)) == Ok::<Seq<PlatformMask>, EncodeError>(
                masks@,
            ),
            forall|k: int|
                0 <= k < masks@.len() ==> 1 <= (#[trigger] masks@[k]).priority <= 4,
        decreases configs@.len() - i,
    {
        let c = configs[i];
        proof {
            assert(configs@.take(i + 1).drop_last() =~= configs@.take(i as int));
            assert(configs@.take(i + 1).last() == c);
        }
        if c.platform == Platform::Unspecified {
            proof {
                lemma_header_masks_prefix_err(configs@, i + 1);
            }
            return Err(EncodeError::InvalidPlatform);
        }
        if c.position < 0 || c.position > 255 {
            proof {
                lemma_header_masks_prefix_err(configs@, i + 1);
            }
            return Err(EncodeError::PositionOutOfRange { position: c.position });
        }
        masks.push(PlatformMask { priority: c.platform.priority(), position: c.position as u8 });
        i = i + 1;
    }
    proof {
        assert(configs@.take(configs@.len() as int) =~= configs@);
    }
    let sorted = sorted_masks(&masks);
    proof {
        broadcast use vstd::seq_lib::group_to_multiset_ensures;

        assert forall|k: int| 0 <= k < sorted@.len() implies 1 <= (#[trigger] sorted@[k]).priority
            <= 4 by {
            assert(sorted@.to_multiset().count(sorted@[k]) > 0);
            assert(masks@.to_multiset().count(sorted@[k]) > 0);
            assert(masks@.contains(sorted@[k]));
        }
    }
    let mut encoded: Vec<u8> = Vec::new();
    let mut bitmap: u8 = 0;
    let mut i: usize = 0;
    proof {
        assert(sorted@.take(0) =~= Seq::<PlatformMask>::empty());
    }
    while i < sorted.len()
        invariant
            i <= sorted@.len(),
            forall|k: int|
                0 <= k < sorted@.len() ==> 1 <= (#[trigger] sorted@[k]).priority <= 4,
            bitmap == spec_bitmap(sorted@.take(i as int)),
        decreases sorted@.len() - i,
    {
        let m = sorted[i];
        proof {
            assert(sorted@.take(i + 1).drop_last() =~= sorted@.take(i as int));
            assert(sorted@.take(i + 1).last() == m);
        }
        bitmap = bitmap | (1u8 << (8 - m.priority));
        i = i + 1;
    }
    proof {
        assert(sorted@.take(sorted@.len() as int) =~= sorted@);
    }
    encoded.push(bitmap);
    let mut k: usize = 0;
    let pairs = sorted.len() / 2 + sorted.len() % 2;
    proof {
        assert(pairs == (sorted@.len() + 1) / 2);
    }
    while k < pairs
        invariant
            k <= pairs,
            pairs == (sorted@.len() + 1) / 2,
            sorted@.len() <= usize::MAX,
            forall|t: int|
                0 <= t < sorted@.len() ==> 1 <= (#[trigger] sorted@[t]).priority <= 4,
            encoded@.len() == k + 1,
            encoded@[0] == spec_bitmap(sorted@),
            encoded@.skip(1) == spec_nibbles(sorted@).take(k as int),
        decreases pairs - k,
    {
        proof {
            assert(2 * (k as int) <= 2 * (((sorted@.len() + 1) / 2) - 1));
            assert(2 * ((sorted@.len() + 1) / 2) <= sorted@.len() + 1);
        }
        let hi = sorted[2 * k].position;
        let lo = if 2 * k + 1 < sorted.len() {
            sorted[2 * k + 1].position
        } else {
            0
        };
        let byte: u8 = ((hi & 0xf) << 4) | lo;
        proof {
            assert(byte == spec_nibbles(sorted@)[k as int]);
        }
        encoded.push(byte);
        proof {
            assert(encoded@.skip(1) =~= spec_nibbles(sorted@).take(k + 1));
        }
        k = k + 1;
    }
    proof {
        assert(spec_nibbles(sorted@).take(spec_nibbles(sorted@).len() as int) =~= spec_nibbles(
            sorted@,
        ));
        assert(encoded@ =~= seq![spec_bitmap(sorted@)] + spec_nibbles(sorted@));
    }
    Ok(encoded)
}

/// The body of a profile: the joystick threshold byte, the encoded base
/// layer, then the encoded modifier layer when one is present.
pub open spec fn spec_encode_body(layout: Layout) -> Result<Seq<u8>, EncodeError> {
    if layout.joystick_threshold < 0 || layout.joystick_threshold > 100 {
        Err(EncodeError::ThresholdOutOfRange { threshold: layout.joystick_threshold })
    } else {
        match layout.base {
            None => Err(EncodeError::MissingLayer),
            Some(base) => match spec_encode_layer(base) {
                Err(e) => Err(e),
                Ok(base_bytes) => match layout.mod_layer {
                    None => Ok(seq![layout.joystick_threshold as u8] + base_bytes),
                    Some(mod_layer) => match spec_encode_layer(mod_layer) {
                        Err(e) => Err(e),
                        Ok(mod_bytes) => Ok(
                            seq![layout.joystick_threshold as u8] + base_bytes + mod_bytes,
                        ),
                    },
                },
            },
        }
    }
}

/// One profile's frame: its header, then one byte of body length, then its
/// body; the body must fit the one-byte length field.
pub open spec fn spec_encode_profile(p: Profile) -> Result<Seq<u8>, EncodeError> {
    match p.layout {
        None => Err(EncodeError::MissingLayer),
        Some(layout) => match spec_encode_header(p.platform_config@) {
            Err(e) => Err(e),
            Ok(header) => match spec_encode_body(layout) {
                Err(e) => Err(e),
                Ok(body) => if body.len() > 255 {
                    Err(EncodeError::ProfileTooLarge { body_len: body.len() as usize })
                } else {
                    Ok(header + seq![body.len() as u8] + body)
                },
            },
        },
    }
}

/// The concatenated frames of a profile sequence; the first error in input
/// order decides the result.
pub open spec fn spec_encode_frames(ps: Seq<Profile>) -> Result<Seq<u8>, EncodeError>
    decreases ps.len(),
{
    if ps.len() == 0 {
        Ok(Seq::empty())
    } else {
        match spec_encode_frames(ps.drop_last()) {
            Err(e) => Err(e),
            Ok(pre) => match spec_encode_profile(ps.last()) {
                Err(e) => Err(e),
                Ok(frame) => Ok(pre + frame),
            },
        }
    }
}

/// An error among the first `i` profiles decides the whole encoding.
pub proof fn lemma_frames_prefix_err(ps: Seq<Profile>, i: int)
    requires
        0 <= i <= ps.len(),
        spec_encode_frames(ps.take(i)) is Err,
    ensures
        spec_encode_frames(ps) == spec_encode_frames(ps.take(i)),
    decreases ps.len() - i,
{
    if i == ps.len() {
        assert(ps.take(i) =~= ps);
    } else {
        assert(ps.take(i + 1).drop_last() =~= ps.take(i));
        lemma_frames_prefix_err(ps, i + 1);
    }
}

/// The whole wire stream: a two-byte big-endian total length (the frame bytes
/// reduced modulo 2^16, the field's width) followed by every profile frame.
pub open spec fn spec_encode(ps: Seq<Profile>) -> Result<Seq<u8>, EncodeError> {
    match spec_encode_frames(ps) {
        Err(e) => Err(e),
        Ok(frames) => Ok(
            seq![
                ((frames.len() as int % 65536) / 256) as u8,
                (frames.len() as int % 256) as u8,
            ] + frames,
        ),
    }
}

/// The body of a profile: validates the threshold, then encodes the required
/// base layer and the optional modifier layer.
pub fn encode_body(layout: &Layout) -> (r: Result<Vec<u8>, EncodeError>)
    ensures
        spec_encode_body(*layout) matches Ok(bytes) ==> r matches Ok(v) && v@ == bytes,
        spec_encode_body(*layout) matches Err(e) ==> r matches Err(e2) && e2 == e,
{
    if layout.joystick_threshold < 0 || layout.joystick_threshold > 100 {
        return Err(EncodeError::ThresholdOutOfRange { threshold: layout.joystick_threshold });
    }
    let mut encoded: Vec<u8> = Vec::new();
    encoded.push(layout.joystick_threshold as u8);
    let base = match layout.base {
        Some(x) => x,
        None => {
            return Err(EncodeError::MissingLayer);
        },
    };
    let mut base_bytes = match encode_layer(&base) {
        Ok(v) => v,
        Err(e) => {
            return Err(e);
        },
    };
    encoded.append(&mut base_bytes);
    match layout.mod_layer {
        None => {
            proof {
                assert(encoded@ =~= seq![layout.joystick_threshold as u8]
                    + spec_encode_layer(base)->Ok_0);
            }
            Ok(encoded)
        },
        Some(mod_layer) => {
            let mut mod_bytes = match encode_layer(&mod_layer) {
                Ok(v) => v,
                Err(e) => {
                    return Err(e);
                },
            };
            encoded.append(&mut mod_bytes);
            proof {
                assert(encoded@ =~= seq![layout.joystick_threshold as u8]
                    + spec_encode_layer(base)->Ok_0 + spec_encode_layer(mod_layer)->Ok_0);
            }
            Ok(encoded)
        },
    }
}

/// One profile's frame: header, one-byte body length, body.
pub fn encode_profile(profile: &Profile) -> (r: Result<Vec<u8>, EncodeError>)
    ensures
        spec_encode_profile(*profile) matches Ok(bytes) ==> r matches Ok(v) && v@ == bytes,
        spec_encode_profile(*profile) matches Err(e) ==> r matches Err(e2) && e2 == e,
{
    let layout = match profile.layout {
        Some(x) => x,
        None => {
            return Err(EncodeError::MissingLayer);
        },
    };
    let mut header = match encode_header(&profile.platform_config) {
        Ok(v) => v,
        Err(e) => {
            return Err(e);
        },
    };
    let mut body = match encode_body(&layout) {
        Ok(v) => v,
        Err(e) => {
            return Err(e);
        },
    };
    if body.len() > 255 {
        return Err(EncodeError::ProfileTooLarge { body_len: body.len() });
    }
    let mut encoded: Vec<u8> = Vec::new();
    encoded.append(&mut header);
    encoded.push(body.len() as u8);
    encoded.append(&mut body);
    proof {
        assert(encoded@ =~= spec_encode_header(profile.platform_config@)->Ok_0 + seq![
            spec_encode_body(layout)->Ok_0.len() as u8,
        ] + spec_encode_body(layout)->Ok_0);
    }
    Ok(encoded)
}

/// Deterministically transforms a profile sequence into the wire byte stream:
/// every profile's frame in order, prefixed by the two-byte big-endian total
/// length of the frames.
pub fn encode(profiles: &Vec<Profile>) -> (r: Result<Vec<u8>, EncodeError>)
    ensures
        spec_encode(profiles@) matches Ok(bytes) ==> r matches Ok(v) && v@ == bytes,
        spec_encode(profiles@) matches Err(e) ==> r matches Err(e2) && e2 == e,
{
    let mut frames: Vec<u8> = Vec::new();
    let mut i: usize = 0;
    proof {
        assert(profiles@.take(0) =~= Seq::<Profile>::empty());
    }
    while i < profiles.len()
        invariant
            i <= profiles@.len(),
            spec_encode_frames(profiles@.take(i as int)) == Ok::<Seq<u8>, EncodeError>(frames@),
        decreases profiles@.len() - i,
    {
        proof {
            assert(profiles@.take(i + 1).drop_last() =~= profiles@.take(i as int));
            assert(profiles@.take(i + 1).last() == profiles@[i as int]);
        }
        let mut frame = match encode_profile(&profiles[i]) {
            Ok(v) => v,
            Err(e) => {
                proof {
                    lemma_frames_prefix_err(profiles@, i + 1);
                }
                return Err(e);
            },
        };
        frames.append(&mut frame);
        i = i + 1;
    }
    proof {
        assert(profiles@.take(profiles@.len() as int) =~= profiles@);
    }
    let total = frames.len();
    let mut wrapped: Vec<u8> = Vec::new();
    wrapped.push(((total % 65536) / 256) as u8);
    wrapped.push((total % 256) as u8);
    wrapped.append(&mut frames);
    proof {
        assert(wrapped@ =~= seq![
            ((spec_encode_frames(profiles@)->Ok_0.len() as int % 65536) / 256) as u8,
            (spec_encode_frames(profiles@)->Ok_0.len() as int % 256) as u8,
        ] + spec_encode_frames(profiles@)->Ok_0);
    }
    Ok(wrapped)
}

/// Encoding is deterministic: the wire stream is a function of the profile
/// sequence alone, so equal inputs yield byte-identical output. The
/// executable `encode` is pinned to `spec_encode` by its contract, so any two
/// calls on equal inputs agree.
pub proof fn lemma_encode_deterministic(ps1: Seq<Profile>, ps2: Seq<Profile>)
    requires
        ps1 == ps2,
    ensures
        spec_encode(ps1) == spec_encode(ps2),
{
}

/// On a valid config sequence the header masks are exactly the configs'
/// (priority, position) pairs, in input order.
pub proof fn lemma_header_masks_map(cs: Seq<PlatformConfig>)
    requires
        spec_header_masks(cs) is Ok,
    ensures
        spec_header_masks(cs)->Ok_0 =~= cs.map_values(|c: PlatformConfig| spec_mask(c)),
    decreases cs.len(),
{
    let f = |c: PlatformConfig| spec_mask(c);
    if cs.len() == 0 {
    } else {
        lemma_header_masks_map(cs.drop_last());
        assert(cs.map_values(f).drop_last() =~= cs.drop_last().map_values(f));
        assert(spec_header_masks(cs)->Ok_0 =~= cs.map_values(f));
    }
}

/// Mapping preserves permutation: sequences with equal multisets keep equal
/// multisets after mapping each entry through the same function.
pub proof fn lemma_map_values_to_multiset<A, B>(s1: Seq<A>, s2: Seq<A>, f: spec_fn(A) -> B)
    requires
        s1.to_multiset() == s2.to_multiset(),
    ensures
        s1.map_values(f).to_multiset() == s2.map_values(f).to_multiset(),
    decreases s1.len(),
{
    broadcast use vstd::seq_lib::group_to_multiset_ensures;
    broadcast use vstd::multiset::group_multiset_axioms;

    if s1.len() == 0 {
        assert(s1.to_multiset().len() == 0);
        assert(s2.len() == 0);
        assert(s1.map_values(f) =~= s2.map_values(f));
    } else {
        let a = s1.last();
        assert(s1 =~= s1.drop_last().push(a));
        assert(s1.drop_last().push(a).to_multiset() =~= s1.drop_last().to_multiset().insert(a));
        assert(s2.to_multiset().count(a) > 0);
        assert(s2.contains(a));
        let i = choose|i: int| 0 <= i < s2.len() && s2[i] == a;
        assert(s2.remove(i).to_multiset() =~= s2.to_multiset().remove(a));
        assert(s1.drop_last().to_multiset() =~= s2.remove(i).to_multiset()) by {
            assert forall|x: A| true implies s1.drop_last().to_multiset().count(x)
                == s2.remove(i).to_multiset().count(x) by {
                assert(s1.to_multiset().count(x) == s2.to_multiset().count(x));
            }
        }
        lemma_map_values_to_multiset(s1.drop_last(), s2.remove(i), f);
        assert(s1.map_values(f) =~= s1.drop_last().map_values(f).push(f(a)));
        assert(s1.drop_last().map_values(f).push(f(a)).to_multiset() =~= s1.drop_last().map_values(
            f,
        ).to_multiset().insert(f(a)));
        let m2 = s2.map_values(f);
        assert(s2.remove(i).map_values(f) =~= m2.remove(i));
        assert(m2.remove(i).to_multiset() =~= m2.to_multiset().remove(m2[i]));
        assert(m2[i] == f(a));
        assert(m2.to_multiset().count(f(a)) > 0) by {
            assert(m2.contains(m2[i]));
        }
        assert(m2.to_multiset().remove(f(a)).insert(f(a)) =~= m2.to_multiset());
        assert(s1.map_values(f).to_multiset() =~= m2.to_multiset());
    }
}

/// Header ordering invariant: the nibble-packed positions come from the
/// entries sorted by platform priority, then position, ascending — a sorted
/// permutation of the input entries' masks.
pub proof fn lemma_header_sorted(cs: Seq<PlatformConfig>)
    requires
        spec_header_masks(cs) is Ok,
    ensures
        sorted_by(sort_masks(spec_header_masks(cs)->Ok_0), mask_le_order()),
        sort_masks(spec_header_masks(cs)->Ok_0).to_multiset() == spec_header_masks(
            cs,
        )->Ok_0.to_multiset(),
        spec_encode_header(cs) == Ok::<Seq<u8>, EncodeError>(
            seq![spec_bitmap(sort_masks(spec_header_masks(cs)->Ok_0))] + spec_nibbles(
                sort_masks(spec_header_masks(cs)->Ok_0),
            ),
        ),
{
    let ms = spec_header_masks(cs)->Ok_0;
    lemma_mask_le_total_ordering();
    ms.lemma_sort_by_ensures(mask_le_order());
}

/// Header ordering invariant, order independence: the produced header bytes
/// depend only on which (platform, position) entries are present, never on
/// the order they arrive in.
pub proof fn lemma_header_order_independent(cs1: Seq<PlatformConfig>, cs2: Seq<PlatformConfig>)
    requires
        cs1.to_multiset() == cs2.to_multiset(),
        spec_header_masks(cs1) is Ok,
        spec_header_masks(cs2) is Ok,
    ensures
        spec_encode_header(cs1) == spec_encode_header(cs2),
{
    let f = |c: PlatformConfig| spec_mask(c);
    let ms1 = spec_header_masks(cs1)->Ok_0;
    let ms2 = spec_header_masks(cs2)->Ok_0;
    lemma_header_masks_map(cs1);
    lemma_header_masks_map(cs2);
    lemma_map_values_to_multiset(cs1, cs2, f);
    lemma_mask_le_total_ordering();
    ms1.lemma_sort_by_ensures(mask_le_order());
    ms2.lemma_sort_by_ensures(mask_le_order());
    lemma_sorted_unique(sort_masks(ms1), sort_masks(ms2), mask_le_order());
    assert(sort_masks(ms1) == sort_masks(ms2));
}

/// Bit-packing boundary: when a layer's slot widths sum to a non-multiple of
/// eight, the encoding still ends in a flushed final byte whose unused
/// low-order bits are zero — the byte is a multiple of the power of two
/// matching the padding width.
pub proof fn lemma_layer_final_byte_padding(l: Layer)
    requires
        layer_ok(l),
        buttons_bits(spec_layer_buttons(l)).len() % 8 != 0,
    ensures
        spec_encode_layer(l) is Ok,
        spec_encode_layer(l)->Ok_0.len() == (buttons_bits(spec_layer_buttons(l)).len() + 7) / 8,
        spec_encode_layer(l)->Ok_0.last() as nat % pow2(
            (spec_encode_layer(l)->Ok_0.len() * 8 - buttons_bits(spec_layer_buttons(l)).len()) as nat,
        ) == 0,
{
    crate::bits::lemma_pack_bits_last_byte(buttons_bits(spec_layer_buttons(l)));
}

} // verus!
