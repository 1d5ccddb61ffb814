use configurator::decoder::decode;
use configurator::encoder::encode;
use configurator::profile::{
    Action, ActionType, AnalogAction, Layer, Layout, Platform, PlatformConfig, Profile,
};

fn digital(id: i32) -> Option<Action> {
    Some(Action {
        action_type: Some(ActionType::Digital(id)),
    })
}

fn analog(id: i32, value: i32) -> Option<Action> {
    Some(Action {
        action_type: Some(ActionType::Analog(AnalogAction { id, value })),
    })
}

/// A fully populated layer in wire-canonical form.
fn full_layer(seed: i32) -> Layer {
    Layer {
        thumb_top: digital((seed) % 16),
        thumb_middle: digital((seed + 1) % 16),
        thumb_bottom: analog(1 + (seed % 15), 1000),
        index_top: digital(15),
        index_middle: digital(0),
        middle_top: analog(15, 0),
        middle_middle: digital(7),
        middle_bottom: digital(8),
        ring_top: analog(2, 513),
        ring_middle: digital(3),
        ring_bottom: digital(4),
        pinky_top: digital(5),
        pinky_middle: analog(9, 1023),
        pinky_bottom: digital(6),
        left_index_extra: digital(9),
        left_middle_extra: digital(10),
        left_ring_extra: analog(14, 256),
        right_index_extra: digital(11),
        right_middle_extra: digital(12),
        right_ring_extra: digital(13),
    }
}

#[test]
fn round_trip_single_profile() {
    let layout = Layout {
        joystick_threshold: 42,
        base: Some(full_layer(2)),
        mod_layer: None,
    };
    let profile = Profile {
        name: String::from("main"),
        platform_config: vec![
            PlatformConfig { platform: Platform::Switch, position: 2 },
            PlatformConfig { platform: Platform::Pc, position: 5 },
        ],
        layout: Some(layout),
    };
    let encoded = encode(&vec![profile]).unwrap();
    let decoded = decode(&encoded).unwrap();
    assert_eq!(decoded.len(), 1);
    // The table comes back sorted by platform priority.
    assert_eq!(
        decoded[0].platform_config,
        vec![
            PlatformConfig { platform: Platform::Pc, position: 5 },
            PlatformConfig { platform: Platform::Switch, position: 2 },
        ]
    );
    assert_eq!(decoded[0].layout, layout);
}

#[test]
fn round_trip_two_profiles_with_mod_layers() {
    let layout_a = Layout {
        joystick_threshold: 0,
        base: Some(full_layer(3)),
        mod_layer: Some(full_layer(7)),
    };
    let layout_b = Layout {
        joystick_threshold: 100,
        base: Some(full_layer(11)),
        mod_layer: None,
    };
    let profiles = vec![
        Profile {
            name: String::from("a"),
            platform_config: vec![PlatformConfig {
                platform: Platform::N64,
                position: 15,
            }],
            layout: Some(layout_a),
        },
        Profile {
            name: String::from("b"),
            platform_config: vec![
                PlatformConfig { platform: Platform::Gamecube, position: 0 },
                PlatformConfig { platform: Platform::Pc, position: 1 },
                PlatformConfig { platform: Platform::Switch, position: 9 },
            ],
            layout: Some(layout_b),
        },
    ];
    let encoded = encode(&profiles).unwrap();
    let decoded = decode(&encoded).unwrap();
    assert_eq!(decoded.len(), 2);
    assert_eq!(
        decoded[0].platform_config,
        vec![PlatformConfig { platform: Platform::N64, position: 15 }]
    );
    assert_eq!(decoded[0].layout, layout_a);
    assert_eq!(
        decoded[1].platform_config,
        vec![
            PlatformConfig { platform: Platform::Pc, position: 1 },
            PlatformConfig { platform: Platform::Gamecube, position: 0 },
            PlatformConfig { platform: Platform::Switch, position: 9 },
        ]
    );
    assert_eq!(decoded[1].layout, layout_b);
}

#[test]
fn round_trip_profile_without_platform_entries() {
    let layout = Layout {
        joystick_threshold: 1,
        base: Some(full_layer(0)),
        mod_layer: None,
    };
    let profile = Profile {
        name: String::from("unassigned"),
        platform_config: vec![],
        layout: Some(layout),
    };
    let encoded = encode(&vec![profile]).unwrap();
    let decoded = decode(&encoded).unwrap();
    assert_eq!(decoded.len(), 1);
    assert!(decoded[0].platform_config.is_empty());
    assert_eq!(decoded[0].layout, layout);
}

#[test]
fn round_trip_empty_sequence() {
    let encoded = encode(&vec![]).unwrap();
    let decoded = decode(&encoded).unwrap();
    assert!(decoded.is_empty());
}

#[test]
fn decode_rejects_wrong_total_length() {
    // Total-length field claims more bytes than follow.
    assert_eq!(decode(&vec![0, 5, 1, 2]), None);
}

#[test]
fn decode_rejects_unknown_platform_bit() {
    // Bit 3 would be priority 5, which names no platform.
    let bytes = vec![0, 3, 0x08, 0, 0];
    assert_eq!(decode(&bytes), None);
}
