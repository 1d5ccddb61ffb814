//! The mirror of the codec: parses the wire byte stream back into
//! platform/position tables and button layouts. Profile names are not on the
//! wire, so a decoded profile carries only the table and the layout.

use vstd::prelude::*;
use vstd::arithmetic::power2::pow2;
use crate::bits::{bits_value, bytes_to_bits, lemma_bits_value_bound, pow2_u32};
use crate::profile::{
    Action, ActionType, AnalogAction, Layer, Layout, Platform, PlatformConfig, layer_from_actions,
    spec_slots, SLOT_COUNT,
};
use crate::encoder::DIGITAL_ACTION_SPACE_SIZE;

verus! {

/// One decoded profile frame: the platform/position table in wire (sorted)
/// order, and the layout. The wire carries no profile name.
#[derive(Clone, Debug, PartialEq)]
pub struct DecodedProfile {
    pub platform_config: Vec<PlatformConfig>,
    pub layout: Layout,
}

/// The platform of a header priority, for priorities 1 through 4.
pub open spec fn spec_platform_of_priority(p: u8) -> Platform {
    if p == 1 {
        Platform::Pc
    } else if p == 2 {
        Platform::N64
    } else if p == 3 {
        Platform::Gamecube
    } else if p == 4 {
        Platform::Switch
    } else {
        Platform::Unspecified
    }
}

/// Whether the platform with the given priority is present in the bitmap:
/// bit `8 - priority` counted from the least significant end.
pub open spec fn bitmap_has(bitmap: u8, priority: u8) -> bool {
    (bitmap as nat / pow2((8 - priority) as nat)) % 2 == 1
}

/// The priorities a bitmap marks present, ascending, starting at `p`.
pub open spec fn bitmap_priorities_from(bitmap: u8, p: u8) -> Seq<u8>
    decreases 9 - p,
{
    if p < 1 || p > 8 {
        Seq::empty()
    } else if bitmap_has(bitmap, p) {
        seq![p] + bitmap_priorities_from(bitmap, (p + 1) as u8)
    } else {
        bitmap_priorities_from(bitmap, (p + 1) as u8)
    }
}

/// The priorities a bitmap marks present, ascending.
pub open spec fn bitmap_priorities(bitmap: u8) -> Seq<u8> {
    bitmap_priorities_from(bitmap, 1)
}

/// The `j`th position nibble of a header: even indices in the high nibble,
/// odd in the low, starting at byte 1.
pub open spec fn spec_header_nibble(bytes: Seq<u8>, j: int) -> u8 {
    if j % 2 == 0 {
        bytes[1 + j / 2] / 16
    } else {
        bytes[1 + j / 2] % 16
    }
}

/// Decodes a platform header: the bitmap byte, then one position nibble per
/// present platform in priority order. Fails on a bitmap bit with no
/// platform, or on truncated bytes. Returns the table and the bytes
/// consumed.
pub open spec fn spec_decode_header(bytes: Seq<u8>) -> Option<(Seq<PlatformConfig>, nat)> {
    if bytes.len() < 1 {
        None
    } else {
        let prios = bitmap_priorities(bytes[0]);
        if exists|j: int| 0 <= j < prios.len() && prios[j] > 4 {
            None
        } else {
            let k = prios.len();
            let consumed = (1 + (k + 1) / 2) as nat;
            if bytes.len() < consumed {
                None
            } else {
                Some(
                    (
                        Seq::new(
                            k,
                            |j: int|
                                PlatformConfig {
                                    platform: spec_platform_of_priority(prios[j]),
                                    position: spec_header_nibble(bytes, j) as i32,
                                },
                        ),
                        consumed,
                    ),
                )
            }
        }
    }
}

/// Parses `n` buttons from a bit stream: five bits name an identifier; a
/// value below the digital space is a digital action, a value past the
/// degenerate point is an analog identifier followed by ten magnitude bits,
/// and the degenerate point itself never appears on the wire. Returns the
/// actions and the bits consumed.
pub open spec fn spec_parse_buttons(bits: Seq<bool>, n: nat) -> Option<(Seq<ActionType>, nat)>
    decreases n,
{
    if n == 0 {
        Some((Seq::empty(), 0))
    } else if bits.len() < 5 {
        None
    } else {
        let v5 = bits_value(bits.take(5));
        if v5 < DIGITAL_ACTION_SPACE_SIZE as nat {
            match spec_parse_buttons(bits.skip(5), (n - 1) as nat) {
                None => None,
                Some((acts, c)) => Some(
                    (seq![ActionType::Digital(v5 as i32)] + acts, (c + 5) as nat),
                ),
            }
        } else if v5 == DIGITAL_ACTION_SPACE_SIZE as nat {
            None
        } else if bits.len() < 15 {
            None
        } else {
            let value = bits_value(bits.subrange(5, 15));
            match spec_parse_buttons(bits.skip(15), (n - 1) as nat) {
                None => None,
                Some((acts, c)) => Some(
                    (
                        seq![
                            ActionType::Analog(
                                AnalogAction {
                                    id: (v5 - DIGITAL_ACTION_SPACE_SIZE as nat) as i32,
                                    value: value as i32,
                                },
                            ),
                        ] + acts,
                        (c + 15) as nat,
                    ),
                ),
            }
        }
    }
}

/// A layer whose twenty slots hold the given actions, in canonical order.
pub open spec fn spec_layer_of_actions(acts: Seq<ActionType>) -> Layer {
    Layer {
        thumb_top: Some(Action { action_type: Some(acts[0]) }),
        thumb_middle: Some(Action { action_type: Some(acts[1]) }),
        thumb_bottom: Some(Action { action_type: Some(acts[2]) }),
        index_top: Some(Action { action_type: Some(acts[3]) }),
        index_middle: Some(Action { action_type: Some(acts[4]) }),
        middle_top: Some(Action { action_type: Some(acts[5]) }),
        middle_middle: Some(Action { action_type: Some(acts[6]) }),
        middle_bottom: Some(Action { action_type: Some(acts[7]) }),
        ring_top: Some(Action { action_type: Some(acts[8]) }),
        ring_middle: Some(Action { action_type: Some(acts[9]) }),
        ring_bottom: Some(Action { action_type: Some(acts[10]) }),
        pinky_top: Some(Action { action_type: Some(acts[11]) }),
        pinky_middle: Some(Action { action_type: Some(acts[12]) }),
        pinky_bottom: Some(Action { action_type: Some(acts[13]) }),
        left_index_extra: Some(Action { action_type: Some(acts[14]) }),
        left_middle_extra: Some(Action { action_type: Some(acts[15]) }),
        left_ring_extra: Some(Action { action_type: Some(acts[16]) }),
        right_index_extra: Some(Action { action_type: Some(acts[17]) }),
        right_middle_extra: Some(Action { action_type: Some(acts[18]) }),
        right_ring_extra: Some(Action { action_type: Some(acts[19]) }),
    }
}

/// Decodes one layer from the front of a byte string: twenty buttons, then
/// zero padding up to the byte boundary. Returns the slot actions and the
/// bytes consumed.
pub open spec fn spec_decode_layer(bytes: Seq<u8>) -> Option<(Seq<ActionType>, nat)> {
    match spec_parse_buttons(bytes_to_bits(bytes), SLOT_COUNT as nat) {
        None => None,
        Some((acts, cbits)) => Some((acts, ((cbits + 7) / 8) as nat)),
    }
}

/// Decodes a profile body: the threshold byte, the base layer, then exactly
/// the modifier layer when bytes remain.
pub open spec fn spec_decode_body(bytes: Seq<u8>) -> Option<Layout> {
    if bytes.len() < 1 {
        None
    } else if bytes[0] > 100 {
        None
    } else {
        match spec_decode_layer(bytes.skip(1)) {
            None => None,
            Some((base_acts, bn)) => {
                if 1 + bn == bytes.len() {
                    Some(
                        Layout {
                            joystick_threshold: bytes[0] as i32,
                            base: Some(spec_layer_of_actions(base_acts)),
                            mod_layer: None,
                        },
                    )
                } else if 1 + bn > bytes.len() {
                    None
                } else {
                    match spec_decode_layer(bytes.skip(1 + bn as int)) {
                        None => None,
                        Some((mod_acts, mn)) => {
                            if 1 + bn + mn == bytes.len() {
                                Some(
                                    Layout {
                                        joystick_threshold: bytes[0] as i32,
                                        base: Some(spec_layer_of_actions(base_acts)),
                                        mod_layer: Some(spec_layer_of_actions(mod_acts)),
                                    },
                                )
                            } else {
                                None
                            }
                        },
                    }
                }
            },
        }
    }
}

/// Decodes one profile frame from the front of a byte string: header, body
/// length byte, body. Returns the frame and the bytes consumed.
pub open spec fn spec_decode_profile(bytes: Seq<u8>) -> Option<
    ((Seq<PlatformConfig>, Layout), nat),
> {
    match spec_decode_header(bytes) {
        None => None,
        Some((cfgs, hlen)) => {
            if bytes.len() < hlen + 1 {
                None
            } else {
                let blen = bytes[hlen as int] as nat;
                if bytes.len() < hlen + 1 + blen {
                    None
                } else {
                    match spec_decode_body(
                        bytes.subrange(hlen as int + 1, hlen as int + 1 + blen as int),
                    ) {
                        None => None,
                        Some(layout) => Some(((cfgs, layout), (hlen + 1 + blen) as nat)),
                    }
                }
            }
        },
    }
}

/// Decodes a run of profile frames covering the whole byte string.
pub open spec fn spec_decode_frames(bytes: Seq<u8>) -> Option<Seq<(Seq<PlatformConfig>, Layout)>>
    decreases bytes.len(),
{
    if bytes.len() == 0 {
        Some(Seq::empty())
    } else {
        match spec_decode_profile(bytes) {
            None => None,
            Some((frame, n)) => {
                if 1 <= n && n <= bytes.len() {
                    match spec_decode_frames(bytes.skip(n as int)) {
                        None => None,
                        Some(rest) => Some(seq![frame] + rest),
                    }
                } else {
                    None
                }
            },
        }
    }
}

/// Decodes the wire stream: the two-byte big-endian total length must cover
/// exactly the frames that follow.
pub open spec fn spec_decode(bytes: Seq<u8>) -> Option<Seq<(Seq<PlatformConfig>, Layout)>> {
    if bytes.len() < 2 {
        None
    } else if (bytes[0] as int) * 256 + (bytes[1] as int) != bytes.len() - 2 {
        None
    } else {
        spec_decode_frames(bytes.skip(2))
    }
}

/// A copy of the byte range `lo..hi`.
pub fn copy_range(bytes: &Vec<u8>, lo: usize, hi: usize) -> (r: Vec<u8>)
    requires
        lo <= hi <= bytes@.len(),
    ensures
        r@ == bytes@.subrange(lo as int, hi as int),
{
    let mut r: Vec<u8> = Vec::new();
    let mut i: usize = lo;
    while i < hi
        invariant
            lo <= i <= hi <= bytes@.len(),
            r@ == bytes@.subrange(lo as int, i as int),
        decreases hi - i,
    {
        r.push(bytes[i]);
        proof {
            assert(r@ =~= bytes@.subrange(lo as int, i + 1));
        }
        i = i + 1;
    }
    proof {
        assert(r@ =~= bytes@.subrange(lo as int, hi as int));
    }
    r
}

/// Reads a `width`-bit field beginning at bit `start` of the byte string,
/// most-significant bit first.
fn read_field(bytes: &Vec<u8>, start: usize, width: usize) -> (r: u32)
    requires
        bytes@.len() <= 255,
        width <= 15,
        start + width <= bytes@.len() * 8,
    ensures
        r as nat == bits_value(
            bytes_to_bits(bytes@).subrange(start as int, start as int + width as int),
        ),
{
    let mut r: u32 = 0;
    let mut j: usize = 0;
    proof {
        assert(bytes_to_bits(bytes@).subrange(start as int, start as int) =~= Seq::<
            bool,
        >::empty());
    }
    while j < width
        invariant
            j <= width,
            width <= 15,
            bytes@.len() <= 255,
            start + width <= bytes@.len() * 8,
            r as nat == bits_value(
                bytes_to_bits(bytes@).subrange(start as int, start as int + j as int),
            ),
        decreases width - j,
    {
        let pos = start + j;
        let byte = bytes[pos / 8];
        let p = pow2_u32(7 - (pos % 8) as u32);
        proof {
            vstd::arithmetic::power2::lemma_pow2_pos((7 - pos % 8) as nat);
        }
        let bitv: u32 = ((byte as u32) / p) % 2;
        proof {
            let bits = bytes_to_bits(bytes@);
            let sub = bits.subrange(start as int, start as int + j as int);
            lemma_bits_value_bound(sub);
            vstd::arithmetic::power2::lemma2_to64();
            assert(sub.len() <= 15);
            assert(bits_value(sub) < pow2(15));
            assert(bits[pos as int] == ((bytes@[pos as int / 8] as nat / pow2(
                (7 - pos as int % 8) as nat,
            )) % 2 == 1));
            assert((bitv == 1) == bits[pos as int]);
            crate::bits::lemma_bits_value_push(sub, bits[pos as int]);
            assert(bits.subrange(start as int, start as int + j + 1) =~= sub.push(
                bits[pos as int],
            ));
        }
        r = r * 2 + bitv;
        j = j + 1;
    }
    r
}

/// The platform of a header priority.
fn platform_of_priority(p: u8) -> (r: Platform)
    ensures
        r == spec_platform_of_priority(p),
{
    if p == 1 {
        Platform::Pc
    } else if p == 2 {
        Platform::N64
    } else if p == 3 {
        Platform::Gamecube
    } else if p == 4 {
        Platform::Switch
    } else {
        Platform::Unspecified
    }
}

/// Decodes a platform header from the front of the byte string.
pub fn decode_header(bytes: &Vec<u8>) -> (r: Option<(Vec<PlatformConfig>, usize)>)
    ensures
        spec_decode_header(bytes@) matches Some((cfgs, consumed)) ==> r matches Some(p) && p.0@
            == cfgs && p.1 == consumed && 1 <= consumed <= 5,
        spec_decode_header(bytes@) is None ==> r is None,
{
    if bytes.len() < 1 {
        return None;
    }
    let bitmap = bytes[0];
    let mut prios: Vec<u8> = Vec::new();
    let mut p: u8 = 1;
    proof {
        assert(bitmap_priorities(bitmap) =~= prios@ + bitmap_priorities_from(bitmap, 1));
    }
    while p <= 8
        invariant
            1 <= p <= 9,
            bytes@.len() >= 1,
            bitmap == bytes@[0],
            bitmap_priorities(bitmap) == prios@ + bitmap_priorities_from(bitmap, p),
            prios@.len() < p,
            forall|t: int| 0 <= t < prios@.len() ==> 1 <= #[trigger] prios@[t] <= 4,
        decreases 9 - p,
    {
        let pw = pow2_u32(8 - p as u32);
        proof {
            vstd::arithmetic::power2::lemma_pow2_pos((8 - p) as nat);
        }
        let bit: u32 = ((bitmap as u32) / pw) % 2;
        proof {
            assert(bitmap_has(bitmap, p) == (bit == 1));
        }
        if bit == 1 {
            if p > 4 {
                proof {
                    let from = bitmap_priorities_from(bitmap, p);
                    assert(from[0] == p);
                    let prios_all = bitmap_priorities(bitmap);
                    assert(prios_all[prios@.len() as int] == p);
                    assert(exists|j: int|
                        0 <= j < prios_all.len() && prios_all[j] > 4);
                }
                return None;
            }
            prios.push(p);
        }
        proof {
            assert(prios@ + bitmap_priorities_from(bitmap, (p + 1) as u8)
                =~= bitmap_priorities(bitmap));
        }
        p = p + 1;
    }
    proof {
        assert(bitmap_priorities_from(bitmap, 9) =~= Seq::<u8>::empty());
        assert(prios@ =~= bitmap_priorities(bitmap));
    }
    let k = prios.len();
    let nb = k / 2 + k % 2;
    proof {
        assert(nb == (k as int + 1) / 2);
    }
    if bytes.len() < 1 + nb {
        return None;
    }
    let mut cfgs: Vec<PlatformConfig> = Vec::new();
    let ghost spec_cfgs = spec_decode_header(bytes@)->Some_0.0;
    let mut j: usize = 0;
    while j < k
        invariant
            j <= k,
            k == prios@.len(),
            k < 9,
            prios@ == bitmap_priorities(bytes@[0]),
            forall|t: int| 0 <= t < prios@.len() ==> 1 <= #[trigger] prios@[t] <= 4,
            bytes@.len() >= 1 + (k as int + 1) / 2,
            spec_decode_header(bytes@) matches Some(hd) && hd.0.len() == k,
            cfgs@.len() == j,
            forall|t: int|
                0 <= t < j ==> #[trigger] cfgs@[t] == spec_decode_header(bytes@)->Some_0.0[t],
        decreases k - j,
    {
        let prio = prios[j];
        let byte = bytes[1 + j / 2];
        let pos: u8 = if j % 2 == 0 {
            byte / 16
        } else {
            byte % 16
        };
        let platform = platform_of_priority(prio);
        cfgs.push(PlatformConfig { platform, position: pos as i32 });
        proof {
            assert(spec_decode_header(bytes@)->Some_0.0[j as int] == (PlatformConfig {
                platform: spec_platform_of_priority(prios@[j as int]),
                position: spec_header_nibble(bytes@, j as int) as i32,
            }));
        }
        j = j + 1;
    }
    proof {
        assert(cfgs@ =~= spec_decode_header(bytes@)->Some_0.0);
    }
    Some((cfgs, 1 + nb))
}

/// Splices a partial parse in front of the parse of the remaining stream.
pub open spec fn compose_parse(
    acts: Seq<ActionType>,
    c: nat,
    rest: Option<(Seq<ActionType>, nat)>,
) -> Option<(Seq<ActionType>, nat)> {
    match rest {
        None => None,
        Some((racts, rc)) => Some((acts + racts, (c + rc) as nat)),
    }
}

/// Parses the twenty slot buttons of one layer from the front of the byte
/// string's bits. Layer bytes always come from a body, whose one-byte length
/// field bounds them at 255.
pub fn parse_buttons(bytes: &Vec<u8>) -> (r: Option<(Vec<ActionType>, usize)>)
    requires
        bytes@.len() <= 255,
    ensures
        spec_parse_buttons(bytes_to_bits(bytes@), SLOT_COUNT as nat) matches Some((acts, c)) ==> r
            matches Some(p) && p.0@ == acts && p.1 == c && p.0@.len() == SLOT_COUNT && c
            <= bytes@.len() * 8,
        spec_parse_buttons(bytes_to_bits(bytes@), SLOT_COUNT as nat) is None ==> r is None,
{
    let ghost bits = bytes_to_bits(bytes@);
    let bits_len = bytes.len() * 8;
    let mut acts: Vec<ActionType> = Vec::new();
    let mut c: usize = 0;
    let mut i: usize = 0;
    proof {
        assert(bits.skip(0) =~= bits);
        assert(compose_parse(acts@, 0, spec_parse_buttons(bits, SLOT_COUNT as nat))
            == compose_parse(Seq::empty(), 0, spec_parse_buttons(bits, SLOT_COUNT as nat)));
    }
    while i < SLOT_COUNT
        invariant
            i <= SLOT_COUNT,
            acts@.len() == i,
            bits == bytes_to_bits(bytes@),
            bytes@.len() <= 255,
            bits_len == bytes@.len() * 8,
            c <= bits_len,
            spec_parse_buttons(bits, SLOT_COUNT as nat) == compose_parse(
                acts@,
                c as nat,
                spec_parse_buttons(bits.skip(c as int), (SLOT_COUNT - i) as nat),
            ),
        decreases SLOT_COUNT - i,
    {
        let ghost rem = bits.skip(c as int);
        let ghost nrem = (SLOT_COUNT - i) as nat;
        if c + 5 > bits_len {
            proof {
                assert(rem.len() < 5);
                assert(spec_parse_buttons(rem, nrem) is None);
            }
            return None;
        }
        let v5 = read_field(bytes, c, 5);
        proof {
            assert(bits.subrange(c as int, c as int + 5) =~= rem.take(5));
            lemma_bits_value_bound(rem.take(5));
            vstd::arithmetic::power2::lemma2_to64();
            assert(v5 < 32);
        }
        if v5 < DIGITAL_ACTION_SPACE_SIZE as u32 {
            acts.push(ActionType::Digital(v5 as i32));
            proof {
                assert(bits.skip(c as int + 5) =~= rem.skip(5));
                let rest = spec_parse_buttons(rem.skip(5), (nrem - 1) as nat);
                match rest {
                    None => {},
                    Some((racts, rc)) => {
                        assert(acts@ + racts =~= acts@.drop_last() + (seq![
                            ActionType::Digital(v5 as i32),
                        ] + racts));
                    },
                }
            }
            c = c + 5;
        } else if v5 == DIGITAL_ACTION_SPACE_SIZE as u32 {
            proof {
                assert(spec_parse_buttons(rem, nrem) is None);
            }
            return None;
        } else {
            if c + 15 > bits_len {
                proof {
                    assert(rem.len() < 15);
                    assert(spec_parse_buttons(rem, nrem) is None);
                }
                return None;
            }
            let value = read_field(bytes, c + 5, 10);
            proof {
                assert(bits.subrange(c as int + 5, c as int + 15) =~= rem.subrange(5, 15));
                lemma_bits_value_bound(rem.subrange(5, 15));
                vstd::arithmetic::power2::lemma2_to64();
                assert(value < 1024);
            }
            acts.push(
                ActionType::Analog(
                    AnalogAction {
                        id: (v5 - DIGITAL_ACTION_SPACE_SIZE as u32) as i32,
                        value: value as i32,
                    },
                ),
            );
            proof {
                assert(bits.skip(c as int + 15) =~= rem.skip(15));
                let rest = spec_parse_buttons(rem.skip(15), (nrem - 1) as nat);
                match rest {
                    None => {},
                    Some((racts, rc)) => {
                        assert(acts@ + racts =~= acts@.drop_last() + (seq![
                            ActionType::Analog(
                                AnalogAction {
                                    id: (v5 - DIGITAL_ACTION_SPACE_SIZE as nat) as i32,
                                    value: value as i32,
                                },
                            ),
                        ] + racts));
                    },
                }
            }
            c = c + 15;
        }
        i = i + 1;
    }
    proof {
        assert(spec_parse_buttons(bits.skip(c as int), 0) == Some::<(Seq<ActionType>, nat)>(
            (Seq::empty(), 0),
        ));
        assert(acts@ + Seq::<ActionType>::empty() =~= acts@);
    }
    Some((acts, c))
}

/// Decodes one layer from the front of the byte string; layer bytes always
/// come from a body, whose one-byte length field bounds them at 255.
pub fn decode_layer(bytes: &Vec<u8>) -> (r: Option<(Layer, usize)>)
    requires
        bytes@.len() <= 255,
    ensures
        spec_decode_layer(bytes@) matches Some((acts, n)) ==> r matches Some(p) && p.0
            == spec_layer_of_actions(acts) && p.1 == n && n <= bytes@.len(),
        spec_decode_layer(bytes@) is None ==> r is None,
{
    let (acts, cbits) = match parse_buttons(bytes) {
        None => {
            return None;
        },
        Some(x) => x,
    };
    let n = cbits / 8 + if cbits % 8 == 0 {
        0
    } else {
        1
    };
    proof {
        assert(n == (cbits as int + 7) / 8);
    }
    let layer = layer_from_actions(&acts);
    proof {
        let sacts = spec_decode_layer(bytes@)->Some_0.0;
        let target = acts@.map_values(|t: ActionType| Some(Action { action_type: Some(t) }));
        assert forall|idx: int| 0 <= idx < 20 implies spec_slots(layer)[idx] == spec_slots(
            spec_layer_of_actions(acts@),
        )[idx] by {
            assert(spec_slots(layer)[idx] == target[idx]);
        }
        assert(layer == spec_layer_of_actions(acts@)) by {
            assert(spec_slots(layer)[0] == spec_slots(spec_layer_of_actions(acts@))[0]);
            assert(spec_slots(layer)[1] == spec_slots(spec_layer_of_actions(acts@))[1]);
            assert(spec_slots(layer)[2] == spec_slots(spec_layer_of_actions(acts@))[2]);
            assert(spec_slots(layer)[3] == spec_slots(spec_layer_of_actions(acts@))[3]);
            assert(spec_slots(layer)[4] == spec_slots(spec_layer_of_actions(acts@))[4]);
            assert(spec_slots(layer)[5] == spec_slots(spec_layer_of_actions(acts@))[5]);
            assert(spec_slots(layer)[6] == spec_slots(spec_layer_of_actions(acts@))[6]);
            assert(spec_slots(layer)[7] == spec_slots(spec_layer_of_actions(acts@))[7]);
            assert(spec_slots(layer)[8] == spec_slots(spec_layer_of_actions(acts@))[8]);
            assert(spec_slots(layer)[9] == spec_slots(spec_layer_of_actions(acts@))[9]);
            assert(spec_slots(layer)[10] == spec_slots(spec_layer_of_actions(acts@))[10]);
            assert(spec_slots(layer)[11] == spec_slots(spec_layer_of_actions(acts@))[11]);
            assert(spec_slots(layer)[12] == spec_slots(spec_layer_of_actions(acts@))[12]);
            assert(spec_slots(layer)[13] == spec_slots(spec_layer_of_actions(acts@))[13]);
            assert(spec_slots(layer)[14] == spec_slots(spec_layer_of_actions(acts@))[14]);
            assert(spec_slots(layer)[15] == spec_slots(spec_layer_of_actions(acts@))[15]);
            assert(spec_slots(layer)[16] == spec_slots(spec_layer_of_actions(acts@))[16]);
            assert(spec_slots(layer)[17] == spec_slots(spec_layer_of_actions(acts@))[17]);
            assert(spec_slots(layer)[18] == spec_slots(spec_layer_of_actions(acts@))[18]);
            assert(spec_slots(layer)[19] == spec_slots(spec_layer_of_actions(acts@))[19]);
        }
    }
    Some((layer, n))
}

/// Decodes one profile body; a body is bounded at 255 bytes by its one-byte
/// length field.
pub fn decode_body(bytes: &Vec<u8>) -> (r: Option<Layout>)
    requires
        bytes@.len() <= 255,
    ensures
        spec_decode_body(bytes@) matches Some(layout) ==> r == Some(layout),
        spec_decode_body(bytes@) is None ==> r is None,
{
    if bytes.len() < 1 {
        return None;
    }
    let threshold = bytes[0];
    if threshold > 100 {
        return None;
    }
    let rest = copy_range(bytes, 1, bytes.len());
    proof {
        assert(rest@ =~= bytes@.skip(1));
    }
    let (base_layer, bn) = match decode_layer(&rest) {
        None => {
            return None;
        },
        Some(x) => x,
    };
    if 1 + bn == bytes.len() {
        Some(
            Layout {
                joystick_threshold: threshold as i32,
                base: Some(base_layer),
                mod_layer: None,
            },
        )
    } else {
        let rest2 = copy_range(bytes, 1 + bn, bytes.len());
        proof {
            assert(rest2@ =~= bytes@.skip(1 + bn as int));
        }
        let (mod_layer_v, mn) = match decode_layer(&rest2) {
            None => {
                return None;
            },
            Some(x) => x,
        };
        if 1 + bn + mn == bytes.len() {
            Some(
                Layout {
                    joystick_threshold: threshold as i32,
                    base: Some(base_layer),
                    mod_layer: Some(mod_layer_v),
                },
            )
        } else {
            None
        }
    }
}

/// Decodes one profile frame from the front of the byte string.
pub fn decode_profile(bytes: &Vec<u8>) -> (r: Option<(DecodedProfile, usize)>)
    ensures
        spec_decode_profile(bytes@) matches Some((frame, n)) ==> r matches Some(p)
            && p.0.platform_config@ == frame.0 && p.0.layout == frame.1 && p.1 == n && 2 <= n
            <= bytes@.len(),
        spec_decode_profile(bytes@) is None ==> r is None,
{
    let (cfgs, hlen) = match decode_header(bytes) {
        None => {
            return None;
        },
        Some(x) => x,
    };
    if bytes.len() < hlen + 1 {
        return None;
    }
    let blen = bytes[hlen] as usize;
    if bytes.len() - hlen - 1 < blen {
        return None;
    }
    let body = copy_range(bytes, hlen + 1, hlen + 1 + blen);
    proof {
        assert(body@ =~= bytes@.subrange(hlen as int + 1, hlen as int + 1 + blen as int));
    }
    let layout = match decode_body(&body) {
        None => {
            return None;
        },
        Some(x) => x,
    };
    Some((DecodedProfile { platform_config: cfgs, layout }, hlen + 1 + blen))
}

/// Decodes the whole wire stream into profile frames, or nothing when any
/// part of it is malformed.
pub fn decode(bytes: &Vec<u8>) -> (r: Option<Vec<DecodedProfile>>)
    ensures
        spec_decode(bytes@) matches Some(frames) ==> r matches Some(v) && v@.len() == frames.len()
            && (forall|i: int|
            0 <= i < frames.len() ==> (#[trigger] v@[i]).platform_config@ == frames[i].0
                && v@[i].layout == frames[i].1),
        spec_decode(bytes@) is None ==> r is None,
{
    if bytes.len() < 2 {
        return None;
    }
    let declared = (bytes[0] as usize) * 256 + (bytes[1] as usize);
    if declared != bytes.len() - 2 {
        return None;
    }
    let mut remaining = copy_range(bytes, 2, bytes.len());
    proof {
        assert(remaining@ =~= bytes@.skip(2));
    }
    let mut out: Vec<DecodedProfile> = Vec::new();
    let ghost mut gdone: Seq<(Seq<PlatformConfig>, Layout)> = Seq::empty();
    while remaining.len() > 0
        invariant
            out@.len() == gdone.len(),
            forall|i: int|
                0 <= i < gdone.len() ==> (#[trigger] out@[i]).platform_config@ == gdone[i].0
                    && out@[i].layout == gdone[i].1,
            spec_decode_frames(bytes@.skip(2)) == (match spec_decode_frames(remaining@) {
                None => None,
                Some(rest) => Some(gdone + rest),
            }),
        decreases remaining@.len(),
    {
        let (frame, n) = match decode_profile(&remaining) {
            None => {
                return None;
            },
            Some(x) => x,
        };
        let ghost sframe = spec_decode_profile(remaining@)->Some_0.0;
        out.push(frame);
        let next = copy_range(&remaining, n, remaining.len());
        proof {
            assert(next@ =~= remaining@.skip(n as int));
            gdone = gdone.push(sframe);
            match spec_decode_frames(remaining@.skip(n as int)) {
                None => {},
                Some(rest) => {
                    assert(gdone.drop_last() + (seq![sframe] + rest) =~= gdone + rest);
                },
            }
        }
        remaining = next;
    }
    proof {
        assert(remaining@.len() == 0);
        assert(spec_decode_frames(remaining@) == Some::<Seq<(Seq<PlatformConfig>, Layout)>>(
            Seq::empty(),
        ));
        assert(gdone + Seq::<(Seq<PlatformConfig>, Layout)>::empty() =~= gdone);
    }
    Some(out)
}

} // verus!
