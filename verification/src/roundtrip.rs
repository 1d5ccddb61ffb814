//! Round-trip framing: decoding the wire bytes produced for a canonical
//! profile sequence reconstructs the same platform/position table (in its
//! sorted wire order) and the same per-slot actions.

use vstd::prelude::*;
use vstd::arithmetic::power2::{lemma2_to64, pow2};
use vstd::arithmetic::div_mod::{
    lemma_div_multiples_vanish_fancy, lemma_mod_multiples_vanish, lemma_small_mod,
};
use crate::bits::{
    bits_value, bytes_to_bits, field_bits, lemma_bytes_to_bits_append, lemma_bytes_to_bits_pack,
    lemma_field_bits_skip, lemma_field_bits_take, lemma_field_bits_value, lemma_pack_bits_len,
    pack_bits,
};
use crate::encoder::{
    button_bits, buttons_bits, layer_ok, lemma_header_masks_map, lemma_mask_le_total_ordering,
    mask_bit, mask_le, mask_le_order, slot_action, sort_masks, spec_bitmap, spec_button,
    spec_encode, spec_encode_body, spec_encode_frames, spec_encode_header, spec_encode_layer,
    spec_encode_profile, spec_header_masks, spec_layer_buttons, spec_mask, spec_nibbles, Button,
    DIGITAL_ACTION_SPACE_SIZE, EncodeError, PlatformMask,
};
use crate::decoder::{
    bitmap_has, bitmap_priorities, bitmap_priorities_from, spec_decode, spec_decode_body,
    spec_decode_frames, spec_decode_header, spec_decode_layer, spec_decode_profile,
    spec_header_nibble, spec_layer_of_actions, spec_parse_buttons, spec_platform_of_priority,
};
use crate::profile::{
    ActionType, Layer, Layout, Platform, PlatformConfig, Profile, spec_slots, SLOT_COUNT,
};

verus! {

/// An action in wire-canonical form, the unique form the decoder gives back:
/// a digital identifier inside the digital space, or an analog action with a
/// distinct identifier and a ten-bit magnitude.
pub open spec fn action_canonical(t: ActionType) -> bool {
    match t {
        ActionType::Digital(id) => 0 <= id < DIGITAL_ACTION_SPACE_SIZE,
        ActionType::Analog(a) => 1 <= a.id < DIGITAL_ACTION_SPACE_SIZE && 0 <= a.value < 1024,
    }
}

/// A layer whose every slot is populated with a canonical action.
pub open spec fn layer_canonical(l: Layer) -> bool {
    forall|i: int|
        0 <= i < spec_slots(l).len() ==> {
            let s = #[trigger] spec_slots(l)[i];
            &&& s is Some
            &&& s->Some_0.action_type is Some
            &&& action_canonical(s->Some_0.action_type->Some_0)
        }
}

/// The slot actions of a fully populated layer, in canonical slot order.
pub open spec fn spec_layer_actions(l: Layer) -> Seq<ActionType> {
    Seq::new(spec_slots(l).len(), |i: int| spec_slots(l)[i]->Some_0.action_type->Some_0)
}

/// The bits of a button sequence begin with its first button's bits.
pub proof fn lemma_buttons_bits_first(bs: Seq<Button>)
    requires
        bs.len() > 0,
    ensures
        buttons_bits(bs) == button_bits(bs.first()) + buttons_bits(bs.drop_first()),
    decreases bs.len(),
{
    if bs.len() == 1 {
        assert(bs.drop_last() =~= Seq::<Button>::empty());
        assert(bs.drop_first() =~= Seq::<Button>::empty());
        assert(bs.last() == bs.first());
        assert(buttons_bits(bs) =~= button_bits(bs.first()) + buttons_bits(bs.drop_first()));
    } else {
        let pre = bs.drop_last();
        lemma_buttons_bits_first(pre);
        assert(pre.first() == bs.first());
        assert(pre.drop_first() =~= bs.drop_first().drop_last());
        assert(bs.drop_first().last() == bs.last());
        assert(bs.drop_first().len() > 0);
        assert(buttons_bits(bs.drop_first()) == buttons_bits(bs.drop_first().drop_last())
            + button_bits(bs.last()));
        assert(buttons_bits(bs) =~= button_bits(bs.first()) + buttons_bits(bs.drop_first()));
    }
}

/// Parsing the concatenated bits of canonical actions' buttons gives the
/// actions back, consuming exactly their bits, whatever follows.
pub proof fn lemma_parse_buttons_round_trip(acts: Seq<ActionType>, extra: Seq<bool>)
    requires
        forall|i: int| 0 <= i < acts.len() ==> action_canonical(#[trigger] acts[i]),
    ensures
        spec_parse_buttons(
            buttons_bits(acts.map_values(|t: ActionType| spec_button(t))) + extra,
            acts.len(),
        ) == Some(
            (acts, buttons_bits(acts.map_values(|t: ActionType| spec_button(t))).len() as nat),
        ),
    decreases acts.len(),
{
    let f = |t: ActionType| spec_button(t);
    let bs = acts.map_values(f);
    let bits = buttons_bits(bs);
    let stream = bits + extra;
    lemma2_to64();
    if acts.len() == 0 {
        assert(bits =~= Seq::<bool>::empty());
        assert(acts =~= Seq::<ActionType>::empty());
    } else {
        let t = acts.first();
        assert(action_canonical(acts[0]));
        let b = spec_button(t);
        assert(bs.first() == b);
        lemma_buttons_bits_first(bs);
        assert(bs.drop_first() =~= acts.drop_first().map_values(f));
        let bits_rest = buttons_bits(acts.drop_first().map_values(f));
        assert(stream =~= button_bits(b) + (bits_rest + extra));
        assert(forall|i: int|
            0 <= i < acts.drop_first().len() ==> action_canonical(
                #[trigger] acts.drop_first()[i],
            ));
        lemma_parse_buttons_round_trip(acts.drop_first(), extra);
        match t {
            ActionType::Digital(id) => {
                assert((id & 0x1f) == id) by (bit_vector)
                    requires
                        0 <= id < 16,
                ;
                assert(b.num_bits == 5 && b.data == id);
                assert(button_bits(b) == field_bits(5, id as nat));
                lemma_field_bits_value(5, id as nat);
                assert(stream.take(5) =~= field_bits(5, id as nat));
                let v5 = bits_value(stream.take(5));
                assert(v5 == id);
                assert(stream.skip(5) =~= bits_rest + extra);
                assert(seq![t] + acts.drop_first() =~= acts);
                assert(bits.len() == 5 + bits_rest.len());
                assert(spec_parse_buttons(stream, acts.len()) == Some(
                    (acts, bits.len() as nat),
                ));
            },
            ActionType::Analog(a) => {
                let id = a.id;
                let value = a.value;
                assert((id & 0x1f) == id) by (bit_vector)
                    requires
                        1 <= id < 16,
                ;
                assert((value & 0x3ff) == value) by (bit_vector)
                    requires
                        0 <= value < 1024,
                ;
                assert(b.num_bits == 15);
                assert(b.data == (id + 16) * 1024 + value);
                let data = b.data as nat;
                assert(data < pow2(15));
                lemma_field_bits_take(15, data, 5);
                assert(pow2(10) == 1024);
                assert(data / 1024 == id + 16) by {
                    lemma_div_multiples_vanish_fancy(id + 16, value as int, 1024);
                }
                lemma_field_bits_value(5, (id + 16) as nat);
                assert(stream.take(5) =~= field_bits(15, data).take(5)) by {
                    assert(button_bits(b).len() == 15);
                }
                assert(stream.take(5) =~= field_bits(5, (data / pow2(10)) as nat));
                let v5 = bits_value(stream.take(5));
                assert(v5 == id + 16);
                assert(v5 > 16);
                assert(data % 1024 == value) by {
                    lemma_mod_multiples_vanish(id + 16, value as int, 1024);
                    lemma_small_mod(value as nat, 1024);
                }
                lemma_field_bits_skip(15, data, 5);
                assert(stream.subrange(5, 15) =~= field_bits(15, data).skip(5)) by {
                    assert(button_bits(b).len() == 15);
                }
                assert(stream.subrange(5, 15) =~= field_bits(10, (data % pow2(10)) as nat));
                lemma_field_bits_value(10, value as nat);
                assert(bits_value(stream.subrange(5, 15)) == value);
                assert(stream.len() >= 15);
                assert(stream.skip(15) =~= bits_rest + extra);
                assert(seq![t] + acts.drop_first() =~= acts);
                assert(bits.len() == 15 + bits_rest.len());
                assert(spec_parse_buttons(stream, acts.len()) == Some(
                    (acts, bits.len() as nat),
                ));
            },
        }
    }
}

/// Decoding an encoded canonical layer gives back its slot actions and
/// consumes exactly its bytes, whatever bytes follow; rebuilding a layer from
/// those actions gives the layer itself.
pub proof fn lemma_decode_layer_round_trip(l: Layer, rest: Seq<u8>)
    requires
        layer_canonical(l),
    ensures
        spec_encode_layer(l) is Ok,
        spec_decode_layer(spec_encode_layer(l)->Ok_0 + rest) == Some(
            (spec_layer_actions(l), spec_encode_layer(l)->Ok_0.len() as nat),
        ),
        spec_layer_of_actions(spec_layer_actions(l)) == l,
        buttons_bits(spec_layer_buttons(l)).len() <= 300,
        1 <= spec_encode_layer(l)->Ok_0.len() <= 38,
{
    let f = |t: ActionType| spec_button(t);
    let acts = spec_layer_actions(l);
    assert(layer_ok(l)) by {
        assert forall|i: int| 0 <= i < spec_slots(l).len() implies (#[trigger] slot_action(
            spec_slots(l)[i],
        )) is Some by {
            assert(spec_slots(l)[i] is Some);
        }
    }
    assert(acts.map_values(f) =~= spec_layer_buttons(l)) by {
        assert forall|i: int| 0 <= i < 20 implies acts.map_values(f)[i] == spec_layer_buttons(
            l,
        )[i] by {
            assert(spec_slots(l)[i] is Some);
            assert(slot_action(spec_slots(l)[i]) == spec_slots(l)[i]->Some_0.action_type);
        }
    }
    assert(forall|i: int| 0 <= i < acts.len() ==> action_canonical(#[trigger] acts[i])) by {
        assert forall|i: int| 0 <= i < acts.len() implies action_canonical(
            #[trigger] acts[i],
        ) by {
            assert(spec_slots(l)[i] is Some);
        }
    }
    let bits = buttons_bits(spec_layer_buttons(l));
    let packed = pack_bits(bits);
    lemma_pack_bits_len(bits);
    lemma_bytes_to_bits_append(packed, rest);
    lemma_bytes_to_bits_pack(bits);
    let pad = Seq::new((packed.len() * 8 - bits.len()) as nat, |i: int| false);
    assert(bytes_to_bits(packed + rest) =~= bits + (pad + bytes_to_bits(rest)));
    lemma_parse_buttons_round_trip(acts, pad + bytes_to_bits(rest));
    assert(acts.len() == SLOT_COUNT);
    assert(spec_parse_buttons(bytes_to_bits(packed + rest), SLOT_COUNT as nat) == Some(
        (acts, bits.len() as nat),
    ));
    assert((bits.len() + 7) / 8 == packed.len());
    // The bit total is at most twenty 15-bit buttons, at least twenty 5-bit.
    assert(bits.len() <= 300 && bits.len() >= 100) by {
        assert forall|i: int| 0 <= i < acts.map_values(f).len() implies 5 <= (
        #[trigger] acts.map_values(f)[i]).num_bits <= 15 by {
            crate::encoder::lemma_spec_button_wf(acts[i]);
        }
        lemma_buttons_bits_len_bound(acts.map_values(f));
    }
    // Rebuilding the layer from its actions gives the layer back.
    let rl = spec_layer_of_actions(acts);
    assert forall|i: int| 0 <= i < 20 implies spec_slots(rl)[i] == spec_slots(l)[i] by {
        assert(spec_slots(l)[i] is Some);
        assert(spec_slots(l)[i]->Some_0.action_type is Some);
    }
    assert(rl == l) by {
        assert(spec_slots(rl)[0] == spec_slots(l)[0]);
        assert(spec_slots(rl)[1] == spec_slots(l)[1]);
        assert(spec_slots(rl)[2] == spec_slots(l)[2]);
        assert(spec_slots(rl)[3] == spec_slots(l)[3]);
        assert(spec_slots(rl)[4] == spec_slots(l)[4]);
        assert(spec_slots(rl)[5] == spec_slots(l)[5]);
        assert(spec_slots(rl)[6] == spec_slots(l)[6]);
        assert(spec_slots(rl)[7] == spec_slots(l)[7]);
        assert(spec_slots(rl)[8] == spec_slots(l)[8]);
        assert(spec_slots(rl)[9] == spec_slots(l)[9]);
        assert(spec_slots(rl)[10] == spec_slots(l)[10]);
        assert(spec_slots(rl)[11] == spec_slots(l)[11]);
        assert(spec_slots(rl)[12] == spec_slots(l)[12]);
        assert(spec_slots(rl)[13] == spec_slots(l)[13]);
        assert(spec_slots(rl)[14] == spec_slots(l)[14]);
        assert(spec_slots(rl)[15] == spec_slots(l)[15]);
        assert(spec_slots(rl)[16] == spec_slots(l)[16]);
        assert(spec_slots(rl)[17] == spec_slots(l)[17]);
        assert(spec_slots(rl)[18] == spec_slots(l)[18]);
        assert(spec_slots(rl)[19] == spec_slots(l)[19]);
    }
}

/// Each button contributes at most fifteen bits.
pub proof fn lemma_buttons_bits_len_bound(bs: Seq<Button>)
    requires
        forall|i: int| 0 <= i < bs.len() ==> 5 <= (#[trigger] bs[i]).num_bits <= 15,
    ensures
        5 * bs.len() <= buttons_bits(bs).len() <= 15 * bs.len(),
    decreases bs.len(),
{
    if bs.len() > 0 {
        lemma_buttons_bits_len_bound(bs.drop_last());
        assert(5 <= bs.last().num_bits <= 15);
    }
}

/// A platform/position entry in wire-canonical form: a real platform and a
/// position that fits its nibble.
pub open spec fn config_canonical(c: PlatformConfig) -> bool {
    c.platform != Platform::Unspecified && 0 <= c.position <= 15
}

/// A canonical header: canonical entries with pairwise distinct platforms.
pub open spec fn header_canonical(cs: Seq<PlatformConfig>) -> bool {
    &&& forall|i: int| 0 <= i < cs.len() ==> config_canonical(#[trigger] cs[i])
    &&& forall|i: int, j: int|
        0 <= i < j < cs.len() ==> cs[i].platform != cs[j].platform
}

/// The platform/position table as the wire carries it: the entries in sorted
/// (priority, position) order.
pub open spec fn sorted_masks_of(cs: Seq<PlatformConfig>) -> Seq<PlatformMask> {
    sort_masks(cs.map_values(|c: PlatformConfig| spec_mask(c)))
}

pub open spec fn spec_sorted_configs(cs: Seq<PlatformConfig>) -> Seq<PlatformConfig> {
    let sorted = sorted_masks_of(cs);
    Seq::new(
        sorted.len(),
        |j: int|
            PlatformConfig {
                platform: spec_platform_of_priority(sorted[j].priority),
                position: sorted[j].position as i32,
            },
    )
}

/// Valid entries always yield header masks.
pub proof fn lemma_header_masks_ok(cs: Seq<PlatformConfig>)
    requires
        forall|i: int|
            0 <= i < cs.len() ==> (#[trigger] cs[i]).platform != Platform::Unspecified && 0
                <= cs[i].position <= 255,
    ensures
        spec_header_masks(cs) is Ok,
    decreases cs.len(),
{
    if cs.len() > 0 {
        lemma_header_masks_ok(cs.drop_last());
    }
}

/// Bit `s` of a bitwise or is the disjunction of the operands' bits.
proof fn lemma_u8_bit_or(x: u8, y: u8, s: u8)
    requires
        s < 8,
    ensures
        (((x | y) as nat / pow2(s as nat)) % 2 == 1) == (((x as nat / pow2(s as nat)) % 2 == 1)
            || ((y as nat / pow2(s as nat)) % 2 == 1)),
{
    vstd::bits::lemma_u8_shr_is_div(x, s);
    vstd::bits::lemma_u8_shr_is_div(y, s);
    vstd::bits::lemma_u8_shr_is_div(x | y, s);
    vstd::bits::lemma_u8_low_bits_mask_is_mod(x >> s, 1);
    vstd::bits::lemma_u8_low_bits_mask_is_mod(y >> s, 1);
    vstd::bits::lemma_u8_low_bits_mask_is_mod((x | y) >> s, 1);
    vstd::bits::lemma_low_bits_mask_values();
    lemma2_to64();
    assert(((x | y) >> s) & 1 == ((x >> s) & 1) | ((y >> s) & 1)) by (bit_vector)
        requires
            s < 8,
    ;
    assert(((x >> s) & 1) < 2 && ((y >> s) & 1) < 2 && (((x | y) >> s) & 1) < 2) by (bit_vector);
    let a = (x >> s) & 1;
    let b = (y >> s) & 1;
    assert((a | b == 1) == (a == 1 || b == 1)) by (bit_vector)
        requires
            a < 2 && b < 2,
    ;
}

/// A one-hot byte `1 << j` has exactly bit `j` set.
proof fn lemma_u8_shl_bit(j: u8, s: u8)
    requires
        j < 8,
        s < 8,
    ensures
        (((1u8 << j) as nat / pow2(s as nat)) % 2 == 1) == (j == s),
{
    vstd::bits::lemma_u8_shr_is_div(1u8 << j, s);
    vstd::bits::lemma_u8_low_bits_mask_is_mod((1u8 << j) >> s, 1);
    vstd::bits::lemma_low_bits_mask_values();
    lemma2_to64();
    assert((((1u8 << j) >> s) & 1) == (if j == s {
        1u8
    } else {
        0u8
    })) by (bit_vector)
        requires
            j < 8 && s < 8,
    ;
}

/// A bitmap marks a priority exactly when some mask carries it.
proof fn lemma_bitmap_membership(ms: Seq<PlatformMask>, p: u8)
    requires
        1 <= p <= 8,
        forall|i: int| 0 <= i < ms.len() ==> 1 <= (#[trigger] ms[i]).priority <= 8,
    ensures
        bitmap_has(spec_bitmap(ms), p) == (exists|i: int|
            0 <= i < ms.len() && (#[trigger] ms[i]).priority == p),
    decreases ms.len(),
{
    let s = (8 - p) as u8;
    if ms.len() == 0 {
        vstd::arithmetic::power2::lemma_pow2_pos(s as nat);
        assert(0nat / pow2(s as nat) == 0);
        assert(!bitmap_has(0, p));
    } else {
        lemma_bitmap_membership(ms.drop_last(), p);
        let m = ms.last();
        let pre = spec_bitmap(ms.drop_last());
        assert(spec_bitmap(ms) == pre | mask_bit(m));
        lemma_u8_bit_or(pre, mask_bit(m), s);
        lemma_u8_shl_bit((8 - m.priority) as u8, s);
        assert(bitmap_has(mask_bit(m), p) == (m.priority == p));
        if bitmap_has(spec_bitmap(ms), p) {
            if bitmap_has(pre, p) {
                let i = choose|i: int|
                    0 <= i < ms.drop_last().len() && ms.drop_last()[i].priority == p;
                assert(ms[i].priority == p);
            } else {
                assert(ms[ms.len() - 1].priority == p);
            }
        } else {
            assert forall|i: int| 0 <= i < ms.len() implies (#[trigger] ms[i]).priority != p by {
                if i < ms.len() - 1 {
                    assert(ms.drop_last()[i] == ms[i]);
                }
            }
        }
    }
}

/// For a canonical header the sorted masks have strictly increasing
/// priorities, all in the valid platform range, with nibble-sized positions.
proof fn lemma_sorted_masks_increasing(cs: Seq<PlatformConfig>)
    requires
        header_canonical(cs),
    ensures
        sorted_masks_of(cs).len() == cs.len(),
        forall|i: int, j: int|
            0 <= i < j < cs.len() ==> (#[trigger] sorted_masks_of(cs)[i]).priority < (
            #[trigger] sorted_masks_of(cs)[j]).priority,
        forall|i: int|
            0 <= i < cs.len() ==> {
                let m = #[trigger] sorted_masks_of(cs)[i];
                1 <= m.priority <= 4 && m.position <= 15
            },
{
    broadcast use vstd::seq_lib::group_to_multiset_ensures;
    broadcast use vstd::multiset::group_multiset_axioms;

    let f = |c: PlatformConfig| spec_mask(c);
    let ms = cs.map_values(f);
    let sorted = sort_masks(ms);
    lemma_mask_le_total_ordering();
    ms.lemma_sort_by_ensures(mask_le_order());
    assert(sorted.to_multiset() =~= ms.to_multiset());
    assert(sorted.len() == ms.to_multiset().len());
    assert(ms.len() == ms.to_multiset().len());
    assert forall|i: int| 0 <= i < ms.len() implies 1 <= (#[trigger] ms[i]).priority <= 4 && ms[
        i
    ].position <= 15 by {
        assert(config_canonical(cs[i]));
    }
    // Masks are pairwise distinct because platforms are.
    assert(ms.no_duplicates()) by {
        assert forall|i: int, j: int| 0 <= i < j < ms.len() implies ms[i] != ms[j] by {
            assert(config_canonical(cs[i]) && config_canonical(cs[j]));
            assert(cs[i].platform != cs[j].platform);
            assert(cs[i].platform.spec_priority() != cs[j].platform.spec_priority());
        }
    }
    ms.lemma_multiset_has_no_duplicates();
    sorted.lemma_multiset_has_no_duplicates_conv();
    // Membership: every sorted mask is one of the input masks.
    assert forall|i: int| 0 <= i < sorted.len() implies 1 <= (#[trigger] sorted[i]).priority <= 4
        && sorted[i].position <= 15 by {
        assert(sorted.to_multiset().count(sorted[i]) > 0);
        assert(ms.to_multiset().count(sorted[i]) > 0);
        assert(ms.contains(sorted[i]));
    }
    assert forall|i: int, j: int| 0 <= i < j < sorted.len() implies sorted[i].priority < sorted[
        j
    ].priority by {
        assert(mask_le_order()(sorted[i], sorted[j]));
        assert(mask_le(sorted[i], sorted[j]));
        if sorted[i].priority == sorted[j].priority {
            assert(sorted[i] != sorted[j]);
            assert(ms.contains(sorted[i])) by {
                assert(sorted.to_multiset().count(sorted[i]) > 0);
                assert(ms.to_multiset().count(sorted[i]) > 0);
            }
            assert(ms.contains(sorted[j])) by {
                assert(sorted.to_multiset().count(sorted[j]) > 0);
                assert(ms.to_multiset().count(sorted[j]) > 0);
            }
            let a = choose|a: int| 0 <= a < ms.len() && ms[a] == sorted[i];
            let b = choose|b: int| 0 <= b < ms.len() && ms[b] == sorted[j];
            assert(a != b);
            assert(config_canonical(cs[a]) && config_canonical(cs[b]));
            assert(cs[a].platform != cs[b].platform);
            assert(cs[a].platform.spec_priority() != cs[b].platform.spec_priority());
        }
    }
}

/// Decoding an encoded canonical header gives back the sorted table and
/// consumes exactly the header bytes, whatever bytes follow.
pub proof fn lemma_decode_header_round_trip(cs: Seq<PlatformConfig>, rest: Seq<u8>)
    requires
        header_canonical(cs),
    ensures
        spec_encode_header(cs) is Ok,
        spec_decode_header(spec_encode_header(cs)->Ok_0 + rest) == Some(
            (spec_sorted_configs(cs), spec_encode_header(cs)->Ok_0.len() as nat),
        ),
        spec_encode_header(cs)->Ok_0.len() == 1 + (cs.len() + 1) / 2,
{
    let f = |c: PlatformConfig| spec_mask(c);
    lemma_header_masks_ok(cs);
    lemma_header_masks_map(cs);
    let ms = cs.map_values(f);
    let sorted = sort_masks(ms);
    lemma_sorted_masks_increasing(cs);
    let header = seq![spec_bitmap(sorted)] + spec_nibbles(sorted);
    assert(spec_encode_header(cs)->Ok_0 == header);
    let k = sorted.len();
    let stream = header + rest;
    assert(stream.len() >= 1);
    assert(stream[0] == spec_bitmap(sorted));
    // The decoder's priority list is exactly the sorted priorities.
    let q = Seq::new(k, |i: int| sorted[i].priority);
    assert(bitmap_priorities(stream[0]) == q) by {
        assert forall|p: u8| 1 <= p <= 8 implies (bitmap_has(spec_bitmap(sorted), p)
            == q.contains(p)) by {
            lemma_bitmap_membership(sorted, p);
            if exists|i: int| 0 <= i < sorted.len() && (#[trigger] sorted[i]).priority == p {
                let i = choose|i: int|
                    0 <= i < sorted.len() && (#[trigger] sorted[i]).priority == p;
                assert(q[i] == p);
            }
            if q.contains(p) {
                let i = choose|i: int| 0 <= i < q.len() && q[i] == p;
                assert(sorted[i].priority == p);
            }
        }
        lemma_bitmap_priorities_increasing(stream[0], q, 1);
    }
    assert(forall|j: int| 0 <= j < q.len() ==> 1 <= #[trigger] q[j] <= 4);
    assert(!(exists|j: int| 0 <= j < q.len() && q[j] > 4));
    // Length: the header holds the bitmap and one nibble byte per pair.
    assert(header.len() == 1 + (k + 1) / 2);
    assert(stream.len() >= 1 + (k as int + 1) / 2);
    // Every decoded entry matches the sorted mask it came from.
    let decoded = spec_decode_header(stream)->Some_0.0;
    assert(spec_decode_header(stream) is Some);
    assert(decoded.len() == k);
    assert forall|j: int| 0 <= j < k implies decoded[j] == spec_sorted_configs(cs)[j] by {
        assert(q[j] == sorted[j].priority);
        lemma_nibble_round_trip(sorted, header, stream, j);
    }
    assert(decoded =~= spec_sorted_configs(cs));
    assert(spec_decode_header(stream)->Some_0.1 == header.len());
}

/// The `j`th nibble of the encoded header reads back the `j`th sorted
/// position.
proof fn lemma_nibble_round_trip(
    sorted: Seq<PlatformMask>,
    header: Seq<u8>,
    stream: Seq<u8>,
    j: int,
)
    requires
        forall|i: int|
            0 <= i < sorted.len() ==> (#[trigger] sorted[i]).position <= 15,
        header == seq![spec_bitmap(sorted)] + spec_nibbles(sorted),
        0 <= j < sorted.len(),
        forall|i: int| 0 <= i < header.len() ==> #[trigger] stream[i] == header[i],
        stream.len() >= header.len(),
    ensures
        spec_header_nibble(stream, j) == sorted[j].position,
{
    let k = sorted.len();
    let pair = j / 2;
    assert(0 <= pair < (k + 1) / 2);
    assert(1 + pair < header.len());
    let byte = stream[1 + pair];
    assert(byte == spec_nibbles(sorted)[pair]);
    let a = sorted[2 * pair].position;
    let b: u8 = if 2 * pair + 1 < k {
        sorted[2 * pair + 1].position
    } else {
        0
    };
    assert(a <= 15 && b <= 15);
    assert(byte == (((a & 0xf) as u8) << 4) | b);
    assert(byte == a * 16 + b) by (bit_vector)
        requires
            a <= 15,
            b <= 15,
            byte == (((a & 0xf) as u8) << 4) | b,
    ;
    if j % 2 == 0 {
        assert(2 * pair == j);
        assert(byte / 16 == a);
    } else {
        assert(2 * pair + 1 == j);
        assert(byte % 16 == b);
    }
}

/// The priorities a bitmap marks, read ascending from `p0`, are exactly a
/// strictly increasing priority list that matches the bitmap bit for bit.
proof fn lemma_bitmap_priorities_increasing(bm: u8, q: Seq<u8>, p0: u8)
    requires
        1 <= p0 <= 9,
        forall|i: int| 0 <= i < q.len() ==> p0 <= #[trigger] q[i] <= 8,
        forall|i: int, j: int| 0 <= i < j < q.len() ==> q[i] < q[j],
        forall|p: u8| p0 <= p <= 8 ==> (bitmap_has(bm, p) == q.contains(p)),
    ensures
        bitmap_priorities_from(bm, p0) == q,
    decreases 9 - p0,
{
    if p0 > 8 {
        assert(q.len() == 0) by {
            if q.len() > 0 {
                assert(p0 <= q[0] <= 8);
            }
        }
        assert(bitmap_priorities_from(bm, p0) =~= q);
    } else if bitmap_has(bm, p0) {
        assert(q.contains(p0));
        let k = choose|k: int| 0 <= k < q.len() && q[k] == p0;
        assert(k == 0) by {
            if k > 0 {
                assert(q[0] < q[k]);
                assert(p0 <= q[0]);
            }
        }
        let tail = q.drop_first();
        assert forall|i: int| 0 <= i < tail.len() implies p0 + 1 <= #[trigger] tail[i] <= 8 by {
            assert(tail[i] == q[i + 1]);
            assert(q[0] < q[i + 1]);
        }
        assert forall|p: u8| p0 + 1 <= p <= 8 implies (bitmap_has(bm, p) == tail.contains(
            p,
        )) by {
            if q.contains(p) {
                let i = choose|i: int| 0 <= i < q.len() && q[i] == p;
                assert(i != 0);
                assert(tail[i - 1] == p);
                assert(tail.contains(p));
            }
            if tail.contains(p) {
                let i = choose|i: int| 0 <= i < tail.len() && tail[i] == p;
                assert(q[i + 1] == p);
                assert(q.contains(p));
            }
        }
        lemma_bitmap_priorities_increasing(bm, tail, (p0 + 1) as u8);
        assert(bitmap_priorities_from(bm, p0) =~= seq![p0] + tail);
        assert(seq![p0] + tail =~= q);
    } else {
        assert(!q.contains(p0));
        assert forall|i: int| 0 <= i < q.len() implies p0 + 1 <= #[trigger] q[i] <= 8 by {
            if q[i] == p0 {
                assert(q.contains(p0));
            }
        }
        lemma_bitmap_priorities_increasing(bm, q, (p0 + 1) as u8);
    }
}

/// The platform/position entry a sorted mask stands for.
pub open spec fn config_of_mask(m: PlatformMask) -> PlatformConfig {
    PlatformConfig {
        platform: spec_platform_of_priority(m.priority),
        position: m.position as i32,
    }
}

/// The sorted table holds exactly the input entries: sorting reorders them
/// and loses none.
pub proof fn lemma_sorted_configs_permutation(cs: Seq<PlatformConfig>)
    requires
        header_canonical(cs),
    ensures
        spec_sorted_configs(cs).to_multiset() == cs.to_multiset(),
{
    let f = |c: PlatformConfig| spec_mask(c);
    let g = |m: PlatformMask| config_of_mask(m);
    let ms = cs.map_values(f);
    let sorted = sorted_masks_of(cs);
    lemma_mask_le_total_ordering();
    ms.lemma_sort_by_ensures(mask_le_order());
    assert(spec_sorted_configs(cs) =~= sorted.map_values(g));
    assert(cs =~= ms.map_values(g)) by {
        assert forall|i: int| 0 <= i < cs.len() implies ms.map_values(g)[i] == cs[i] by {
            assert(config_canonical(cs[i]));
            assert(g(f(cs[i])) == cs[i]) by {
                match cs[i].platform {
                    Platform::Unspecified => {},
                    Platform::Pc => {},
                    Platform::N64 => {},
                    Platform::Gamecube => {},
                    Platform::Switch => {},
                }
            }
        }
    }
    crate::encoder::lemma_map_values_to_multiset(sorted, ms, g);
}

/// A layout in wire-canonical form: an in-range threshold, a canonical base
/// layer, and, when present, a canonical modifier layer.
pub open spec fn layout_canonical(lay: Layout) -> bool {
    &&& 0 <= lay.joystick_threshold <= 100
    &&& lay.base is Some
    &&& layer_canonical(lay.base->Some_0)
    &&& (lay.mod_layer is Some ==> layer_canonical(lay.mod_layer->Some_0))
}

/// A profile in wire-canonical form: a canonical header and layout.
pub open spec fn profile_canonical(p: Profile) -> bool {
    &&& header_canonical(p.platform_config@)
    &&& p.layout is Some
    &&& layout_canonical(p.layout->Some_0)
}

/// Decoding an encoded canonical body gives back the layout itself.
pub proof fn lemma_decode_body_round_trip(lay: Layout)
    requires
        layout_canonical(lay),
    ensures
        spec_encode_body(lay) is Ok,
        spec_decode_body(spec_encode_body(lay)->Ok_0) == Some(lay),
        2 <= spec_encode_body(lay)->Ok_0.len() <= 77,
{
    let base = lay.base->Some_0;
    let thr = seq![lay.joystick_threshold as u8];
    match lay.mod_layer {
        None => {
            lemma_decode_layer_round_trip(base, Seq::empty());
            let base_bytes = spec_encode_layer(base)->Ok_0;
            let body = thr + base_bytes;
            assert(spec_encode_body(lay)->Ok_0 == body);
            assert(body.skip(1) =~= base_bytes + Seq::<u8>::empty());
            assert(body.skip(1) =~= base_bytes);
            assert(base_bytes + Seq::<u8>::empty() =~= base_bytes);
            assert(spec_decode_layer(body.skip(1)) == Some(
                (spec_layer_actions(base), base_bytes.len() as nat),
            ));
            assert(body[0] == lay.joystick_threshold as u8);
            assert(body[0] <= 100);
            assert(body[0] as i32 == lay.joystick_threshold);
            assert(1 + base_bytes.len() == body.len());
            assert(spec_decode_body(body) == Some(
                Layout {
                    joystick_threshold: body[0] as i32,
                    base: Some(spec_layer_of_actions(spec_layer_actions(base))),
                    mod_layer: None,
                },
            ));
            assert(spec_layer_of_actions(spec_layer_actions(base)) == base);
        },
        Some(mod_layer) => {
            let mod_bytes = spec_encode_layer(mod_layer)->Ok_0;
            lemma_decode_layer_round_trip(mod_layer, Seq::empty());
            lemma_decode_layer_round_trip(base, mod_bytes);
            let base_bytes = spec_encode_layer(base)->Ok_0;
            let body = thr + base_bytes + mod_bytes;
            assert(spec_encode_body(lay)->Ok_0 == body);
            assert(body.skip(1) =~= base_bytes + mod_bytes);
            assert(spec_decode_layer(body.skip(1)) == Some(
                (spec_layer_actions(base), base_bytes.len() as nat),
            ));
            assert(body[0] == lay.joystick_threshold as u8);
            assert(body[0] <= 100);
            assert(1 + base_bytes.len() < body.len());
            assert(body.skip(1 + base_bytes.len() as int) =~= mod_bytes + Seq::<u8>::empty());
            assert(mod_bytes + Seq::<u8>::empty() =~= mod_bytes);
            assert(spec_decode_layer(body.skip(1 + base_bytes.len() as int)) == Some(
                (spec_layer_actions(mod_layer), mod_bytes.len() as nat),
            ));
            assert(1 + base_bytes.len() + mod_bytes.len() == body.len());
            assert(spec_layer_of_actions(spec_layer_actions(base)) == base);
            assert(spec_layer_of_actions(spec_layer_actions(mod_layer)) == mod_layer);
            assert(body[0] as i32 == lay.joystick_threshold);
        },
    }
}

/// Decoding an encoded canonical profile frame gives back its sorted table
/// and its layout, consuming exactly the frame, whatever bytes follow.
pub proof fn lemma_decode_profile_round_trip(p: Profile, rest: Seq<u8>)
    requires
        profile_canonical(p),
    ensures
        spec_encode_profile(p) is Ok,
        spec_decode_profile(spec_encode_profile(p)->Ok_0 + rest) == Some(
            (
                (spec_sorted_configs(p.platform_config@), p.layout->Some_0),
                spec_encode_profile(p)->Ok_0.len() as nat,
            ),
        ),
        spec_encode_profile(p)->Ok_0.len() >= 2,
{
    let cs = p.platform_config@;
    let lay = p.layout->Some_0;
    lemma_decode_body_round_trip(lay);
    let body = spec_encode_body(lay)->Ok_0;
    let blen = body.len();
    assert(blen <= 255);
    lemma_decode_header_round_trip(cs, seq![blen as u8] + body + rest);
    let header = spec_encode_header(cs)->Ok_0;
    let hlen = header.len();
    let frame = header + seq![blen as u8] + body;
    assert(spec_encode_profile(p)->Ok_0 == frame);
    let stream = frame + rest;
    assert(stream =~= header + (seq![blen as u8] + body + rest));
    assert(spec_decode_header(stream) == Some(
        (spec_sorted_configs(cs), hlen as nat),
    ));
    assert(stream.len() >= hlen + 1);
    assert(stream[hlen as int] == blen as u8);
    assert(stream.len() >= hlen + 1 + blen);
    assert(stream.subrange(hlen as int + 1, hlen as int + 1 + blen as int) =~= body);
    assert(spec_decode_body(stream.subrange(hlen as int + 1, hlen as int + 1 + blen as int))
        == Some(lay));
    assert(spec_decode_profile(stream) == Some(
        ((spec_sorted_configs(cs), lay), (hlen + 1 + blen) as nat),
    ));
    assert(frame.len() == hlen + 1 + blen);
}

/// The frames of a non-empty sequence begin with the first profile's frame.
proof fn lemma_frames_first(ps: Seq<Profile>)
    requires
        ps.len() > 0,
        spec_encode_frames(ps) is Ok,
    ensures
        spec_encode_profile(ps.first()) is Ok,
        spec_encode_frames(ps.drop_first()) is Ok,
        spec_encode_frames(ps)->Ok_0 == spec_encode_profile(ps.first())->Ok_0
            + spec_encode_frames(ps.drop_first())->Ok_0,
    decreases ps.len(),
{
    if ps.len() == 1 {
        assert(ps.drop_last() =~= Seq::<Profile>::empty());
        assert(ps.drop_first() =~= Seq::<Profile>::empty());
        assert(ps.last() == ps.first());
        assert(spec_encode_frames(ps)->Ok_0 =~= spec_encode_profile(ps.first())->Ok_0
            + spec_encode_frames(ps.drop_first())->Ok_0);
    } else {
        let pre = ps.drop_last();
        lemma_frames_first(pre);
        assert(pre.first() == ps.first());
        assert(pre.drop_first() =~= ps.drop_first().drop_last());
        assert(ps.drop_first().last() == ps.last());
        assert(ps.drop_first().len() > 0);
        assert(spec_encode_frames(ps)->Ok_0 =~= spec_encode_profile(ps.first())->Ok_0
            + spec_encode_frames(ps.drop_first())->Ok_0);
    }
}

/// Encoding succeeds on every canonical profile sequence.
pub proof fn lemma_frames_ok(ps: Seq<Profile>)
    requires
        forall|i: int| 0 <= i < ps.len() ==> profile_canonical(#[trigger] ps[i]),
    ensures
        spec_encode_frames(ps) is Ok,
    decreases ps.len(),
{
    if ps.len() > 0 {
        lemma_frames_ok(ps.drop_last());
        lemma_decode_profile_round_trip(ps.last(), Seq::empty());
    }
}

/// The decoded view of one canonical profile: its table in wire order, and
/// its layout.
pub open spec fn spec_decoded_frame(p: Profile) -> (Seq<PlatformConfig>, Layout) {
    (spec_sorted_configs(p.platform_config@), p.layout->Some_0)
}

/// Decoding the concatenated frames of a canonical profile sequence gives
/// back every profile's decoded view, in order.
pub proof fn lemma_decode_frames_round_trip(ps: Seq<Profile>)
    requires
        forall|i: int| 0 <= i < ps.len() ==> profile_canonical(#[trigger] ps[i]),
    ensures
        spec_encode_frames(ps) is Ok,
        spec_decode_frames(spec_encode_frames(ps)->Ok_0) == Some(
            Seq::new(ps.len(), |i: int| spec_decoded_frame(ps[i])),
        ),
    decreases ps.len(),
{
    lemma_frames_ok(ps);
    if ps.len() == 0 {
        assert(spec_encode_frames(ps)->Ok_0 =~= Seq::<u8>::empty());
        assert(Seq::new(0, |i: int| spec_decoded_frame(ps[i])) =~= Seq::<
            (Seq<PlatformConfig>, Layout),
        >::empty());
    } else {
        lemma_frames_first(ps);
        let first_frame = spec_encode_profile(ps.first())->Ok_0;
        let rest_bytes = spec_encode_frames(ps.drop_first())->Ok_0;
        let bytes = spec_encode_frames(ps)->Ok_0;
        assert(bytes == first_frame + rest_bytes);
        lemma_decode_profile_round_trip(ps.first(), rest_bytes);
        let n0 = first_frame.len();
        assert(spec_decode_profile(bytes) == Some(
            (spec_decoded_frame(ps.first()), n0 as nat),
        ));
        assert(bytes.len() >= n0);
        assert(bytes.skip(n0 as int) =~= rest_bytes);
        assert(forall|i: int|
            0 <= i < ps.drop_first().len() ==> profile_canonical(
                #[trigger] ps.drop_first()[i],
            ));
        lemma_decode_frames_round_trip(ps.drop_first());
        let rest_decoded = Seq::new(
            ps.drop_first().len(),
            |i: int| spec_decoded_frame(ps.drop_first()[i]),
        );
        assert(spec_decode_frames(rest_bytes) == Some(rest_decoded));
        assert(bytes.len() > 0);
        assert(n0 >= 1);
        assert(seq![spec_decoded_frame(ps.first())] + rest_decoded =~= Seq::new(
            ps.len(),
            |i: int| spec_decoded_frame(ps[i]),
        ));
    }
}

/// Round-trip framing: for a canonical profile sequence whose frames fit the
/// sixteen-bit length field, decoding the encoded wire bytes reconstructs
/// every profile's platform/position table (in sorted wire order) and its
/// per-slot actions exactly.
#[verifier::rlimit(100)]
pub proof fn lemma_round_trip(ps: Seq<Profile>)
    requires
        forall|i: int| 0 <= i < ps.len() ==> profile_canonical(#[trigger] ps[i]),
        spec_encode_frames(ps) is Ok ==> spec_encode_frames(ps)->Ok_0.len() <= 65535,
    ensures
        spec_encode(ps) is Ok,
        spec_decode(spec_encode(ps)->Ok_0) == Some(
            Seq::new(ps.len(), |i: int| spec_decoded_frame(ps[i])),
        ),
{
    lemma_decode_frames_round_trip(ps);
    let frames = spec_encode_frames(ps)->Ok_0;
    let flen = frames.len() as int;
    assert(flen <= 65535);
    let b0 = ((flen % 65536) / 256) as u8;
    let b1 = (flen % 256) as u8;
    let bytes = seq![b0, b1] + frames;
    assert(spec_encode(ps)->Ok_0 == bytes);
    assert(flen % 65536 == flen);
    assert(flen / 256 <= 255);
    assert(b0 as int == flen / 256);
    assert(b1 as int == flen % 256);
    assert((b0 as int) * 256 + (b1 as int) == flen) by {
        vstd::arithmetic::div_mod::lemma_fundamental_div_mod(flen, 256);
    }
    assert(bytes.len() == flen + 2);
    assert(bytes.skip(2) =~= frames);
}

} // verus!
