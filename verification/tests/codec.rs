use configurator::encoder::{
    encode, encode_body, encode_header, encode_layer, EncodeError,
};
use configurator::profile::{
    Action, ActionType, AnalogAction, Layer, Layout, Platform, PlatformConfig, Profile,
};
use configurator::profiles::find;

fn empty_layer() -> Layer {
    Layer {
        thumb_top: None,
        thumb_middle: None,
        thumb_bottom: None,
        index_top: None,
        index_middle: None,
        middle_top: None,
        middle_middle: None,
        middle_bottom: None,
        ring_top: None,
        ring_middle: None,
        ring_bottom: None,
        pinky_top: None,
        pinky_middle: None,
        pinky_bottom: None,
        left_index_extra: None,
        left_middle_extra: None,
        left_ring_extra: None,
        right_index_extra: None,
        right_middle_extra: None,
        right_ring_extra: None,
    }
}

fn digital(id: i32) -> Option<Action> {
    Some(Action {
        action_type: Some(ActionType::Digital(id)),
    })
}

fn analog(id: i32, value: i32) -> Option<Action> {
    Some(Action {
        action_type: Some(ActionType::Analog(AnalogAction { id, value })),
    })
}

fn scenario_profile() -> Profile {
    let mut base = empty_layer();
    base.thumb_top = digital(2);
    Profile {
        name: String::from("scenario"),
        platform_config: vec![PlatformConfig {
            platform: Platform::Pc,
            position: 3,
        }],
        layout: Some(Layout {
            joystick_threshold: 50,
            base: Some(base),
            mod_layer: None,
        }),
    }
}

#[test]
fn scenario_single_pc_profile() {
    let profiles = vec![scenario_profile()];
    let encoded = encode(&profiles).unwrap();
    // Header: PC (priority 1) sets bit 7; position 3 in the high nibble.
    // Body: threshold 50, then `00010` for thumb_top and nineteen `00000`
    // no-op slots, zero-padded to 13 bytes.
    let mut expected: Vec<u8> = vec![0, 17, 0x80, 0x30, 14, 50, 0x10];
    expected.extend_from_slice(&[0u8; 12]);
    assert_eq!(encoded, expected);
}

#[test]
fn encoding_is_deterministic() {
    let profiles = vec![scenario_profile(), scenario_profile()];
    let first = encode(&profiles).unwrap();
    let second = encode(&profiles).unwrap();
    assert_eq!(first, second);
}

#[test]
fn header_sorted_by_priority_then_position() {
    // Same entries in both orders produce the same header bytes.
    let forward = vec![
        PlatformConfig { platform: Platform::Pc, position: 3 },
        PlatformConfig { platform: Platform::Switch, position: 1 },
    ];
    let backward = vec![
        PlatformConfig { platform: Platform::Switch, position: 1 },
        PlatformConfig { platform: Platform::Pc, position: 3 },
    ];
    let a = encode_header(&forward).unwrap();
    let b = encode_header(&backward).unwrap();
    assert_eq!(a, b);
    // PC (priority 1) sets bit 7, Switch (priority 4) sets bit 4; PC's
    // position 3 comes first, in the high nibble.
    assert_eq!(a, vec![0x90, 0x31]);
}

#[test]
fn header_sorts_positions_within_platform() {
    let configs = vec![
        PlatformConfig { platform: Platform::N64, position: 9 },
        PlatformConfig { platform: Platform::N64, position: 2 },
        PlatformConfig { platform: Platform::N64, position: 4 },
    ];
    let header = encode_header(&configs).unwrap();
    // Bit 6 for priority 2; positions 2, 4, 9 in nibble order, odd count
    // flushed with a zero low nibble.
    assert_eq!(header, vec![0x40, 0x24, 0x90]);
}

#[test]
fn bit_packing_flushes_partial_final_byte() {
    let mut layer = empty_layer();
    layer.right_ring_extra = analog(1, 5);
    let bytes = encode_layer(&layer).unwrap();
    // Nineteen 5-bit no-ops then one 15-bit analog field: 110 bits, so 14
    // bytes with six used bits in the last one.
    assert_eq!(bytes.len(), 14);
    assert_eq!(bytes[11], 0x01);
    assert_eq!(bytes[12], 0x10);
    // Final byte: bits `000101` then two unused zero bits.
    assert_eq!(bytes[13], 0b0001_0100);
    assert_eq!(bytes[13] & 0b0000_0011, 0);
}

#[test]
fn analog_with_zero_id_degenerates_to_digital() {
    let mut with_analog_zero = empty_layer();
    with_analog_zero.thumb_top = analog(0, 77);
    let mut with_digital_zero = empty_layer();
    with_digital_zero.thumb_top = digital(0);
    assert_eq!(
        encode_layer(&with_analog_zero).unwrap(),
        encode_layer(&with_digital_zero).unwrap()
    );
}

#[test]
fn rejects_unspecified_platform() {
    let configs = vec![PlatformConfig {
        platform: Platform::Unspecified,
        position: 0,
    }];
    assert_eq!(
        encode_header(&configs),
        Err(EncodeError::InvalidPlatform)
    );
}

#[test]
fn rejects_position_out_of_range() {
    let configs = vec![PlatformConfig {
        platform: Platform::Pc,
        position: 300,
    }];
    assert_eq!(
        encode_header(&configs),
        Err(EncodeError::PositionOutOfRange { position: 300 })
    );
    let negative = vec![PlatformConfig {
        platform: Platform::Pc,
        position: -1,
    }];
    assert_eq!(
        encode_header(&negative),
        Err(EncodeError::PositionOutOfRange { position: -1 })
    );
}

#[test]
fn rejects_threshold_out_of_range() {
    let layout = Layout {
        joystick_threshold: 101,
        base: Some(empty_layer()),
        mod_layer: None,
    };
    assert_eq!(
        encode_body(&layout),
        Err(EncodeError::ThresholdOutOfRange { threshold: 101 })
    );
}

#[test]
fn rejects_missing_base_layer() {
    let layout = Layout {
        joystick_threshold: 10,
        base: None,
        mod_layer: None,
    };
    assert_eq!(encode_body(&layout), Err(EncodeError::MissingLayer));
}

#[test]
fn rejects_missing_layout() {
    let profiles = vec![Profile {
        name: String::from("no layout"),
        platform_config: vec![],
        layout: None,
    }];
    assert_eq!(encode(&profiles), Err(EncodeError::MissingLayer));
}

#[test]
fn rejects_malformed_action() {
    let mut layer = empty_layer();
    layer.pinky_bottom = Some(Action { action_type: None });
    assert_eq!(
        encode_layer(&layer),
        Err(EncodeError::MalformedAction)
    );
}

#[test]
fn first_error_in_input_order_wins() {
    let mut bad_profile = scenario_profile();
    bad_profile.platform_config = vec![PlatformConfig {
        platform: Platform::Unspecified,
        position: 0,
    }];
    let profiles = vec![scenario_profile(), bad_profile];
    assert_eq!(encode(&profiles), Err(EncodeError::InvalidPlatform));
}

#[test]
fn encodes_empty_sequence_as_zero_length() {
    let profiles: Vec<Profile> = vec![];
    assert_eq!(encode(&profiles).unwrap(), vec![0, 0]);
}

#[test]
fn encodes_mod_layer_after_base() {
    let mut base = empty_layer();
    base.thumb_top = digital(2);
    let mut mod_layer = empty_layer();
    mod_layer.thumb_top = digital(3);
    let layout = Layout {
        joystick_threshold: 7,
        base: Some(base),
        mod_layer: Some(mod_layer),
    };
    let body = encode_body(&layout).unwrap();
    // Threshold byte plus two 13-byte layers.
    assert_eq!(body.len(), 27);
    assert_eq!(body[0], 7);
    assert_eq!(body[1], 0x10);
    assert_eq!(body[14], 0x18);
}

#[test]
fn encodes_empty_platform_table_as_bare_bitmap() {
    let header = encode_header(&vec![]).unwrap();
    assert_eq!(header, vec![0]);
}

#[test]
fn find_returns_first_match() {
    let mut a = scenario_profile();
    a.name = String::from("alpha");
    let mut b = scenario_profile();
    b.name = String::from("beta");
    let mut b2 = scenario_profile();
    b2.name = String::from("beta");
    let profiles = vec![a, b, b2];
    assert_eq!(find(&profiles, "alpha"), Some(0));
    assert_eq!(find(&profiles, "beta"), Some(1));
    assert_eq!(find(&profiles, "gamma"), None);
    assert_eq!(find(&vec![], "alpha"), None);
}
