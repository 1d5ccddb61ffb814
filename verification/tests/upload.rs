use configurator::encoder::EncodeError;
use configurator::profile::{
    Action, ActionType, Layer, Layout, Platform, PlatformConfig, Profile,
};
use configurator::uploader::{
    ack_step, length_prefix, upload, wait_for_bytes, AckWaitState, ByteChannel, ChannelError,
    UploadError, ACK_TIMEOUT_MILLIS, MAX_EEPROM_BYTES,
};

fn empty_layer() -> Layer {
    Layer {
        thumb_top: None,
        thumb_middle: None,
        thumb_bottom: None,
        index_top: None,
        index_middle: None,
        middle_top: None,
        middle_middle: None,
        middle_bottom: None,
        ring_top: None,
        ring_middle: None,
        ring_bottom: None,
        pinky_top: None,
        pinky_middle: None,
        pinky_bottom: None,
        left_index_extra: None,
        left_middle_extra: None,
        left_ring_extra: None,
        right_index_extra: None,
        right_middle_extra: None,
        right_ring_extra: None,
    }
}

fn small_profile(name: &str) -> Profile {
    let mut base = empty_layer();
    base.thumb_top = Some(Action {
        action_type: Some(ActionType::Digital(2)),
    });
    Profile {
        name: String::from(name),
        platform_config: vec![PlatformConfig {
            platform: Platform::Pc,
            position: 3,
        }],
        layout: Some(Layout {
            joystick_threshold: 50,
            base: Some(base),
            mod_layer: None,
        }),
    }
}

/// An in-memory channel double: records writes, answers reads from a script,
/// and advances its clock by a fixed tick on every query.
struct FakeChannel {
    writes: Vec<Vec<u8>>,
    reads: Vec<Option<u8>>,
    read_index: usize,
    now: u64,
    tick: u64,
    write_ok: bool,
}

impl FakeChannel {
    fn new(reads: Vec<Option<u8>>, tick: u64) -> FakeChannel {
        FakeChannel {
            writes: Vec::new(),
            reads,
            read_index: 0,
            now: 0,
            tick,
            write_ok: true,
        }
    }
}

impl ByteChannel for FakeChannel {
    fn write_bytes(&mut self, data: &Vec<u8>) -> Result<(), ChannelError> {
        if self.write_ok {
            self.writes.push(data.clone());
            Ok(())
        } else {
            Err(ChannelError {
                message: String::from("link down"),
            })
        }
    }

    fn try_read_byte(&mut self) -> Option<u8> {
        let r = if self.read_index < self.reads.len() {
            self.reads[self.read_index]
        } else {
            None
        };
        self.read_index += 1;
        r
    }

    fn now_millis(&mut self) -> u64 {
        self.now += self.tick;
        self.now
    }
}

#[test]
fn upload_writes_prefix_then_payload_and_acks() {
    let profiles = vec![small_profile("one")];
    let mut channel = FakeChannel::new(vec![None, Some(0)], 1);
    let result = upload(&profiles, &mut channel);
    assert_eq!(result, Ok(()));
    assert_eq!(channel.writes.len(), 2);
    // The payload is 19 bytes; its big-endian length prefix precedes it.
    assert_eq!(channel.writes[0], vec![0, 19]);
    assert_eq!(channel.writes[0], length_prefix(channel.writes[1].len()));
    assert_eq!(channel.writes[1].len(), 19);
    assert_eq!(&channel.writes[1][0..2], &[0, 17]);
}

#[test]
fn length_prefix_is_big_endian() {
    assert_eq!(length_prefix(0), vec![0, 0]);
    assert_eq!(length_prefix(19), vec![0, 19]);
    assert_eq!(length_prefix(0x1234), vec![0x12, 0x34]);
    assert_eq!(length_prefix(1064), vec![4, 40]);
}

#[test]
fn upload_rejects_oversized_payload_without_writing() {
    // 63 single-platform profiles encode to 2 + 63 * 17 = 1073 bytes, past
    // the 1064-byte EEPROM budget.
    let mut profiles = Vec::new();
    for i in 0..63 {
        profiles.push(small_profile(&format!("p{}", i)));
    }
    let mut channel = FakeChannel::new(vec![Some(0)], 1);
    let result = upload(&profiles, &mut channel);
    assert_eq!(result, Err(UploadError::PayloadTooLarge { size: 1073 }));
    assert!(1073 > MAX_EEPROM_BYTES);
    assert!(channel.writes.is_empty());
}

#[test]
fn upload_propagates_encoding_errors_without_writing() {
    let mut bad = small_profile("bad");
    bad.layout = Some(Layout {
        joystick_threshold: 101,
        base: Some(empty_layer()),
        mod_layer: None,
    });
    let mut channel = FakeChannel::new(vec![Some(0)], 1);
    let result = upload(&vec![bad], &mut channel);
    assert_eq!(
        result,
        Err(UploadError::Encoding(EncodeError::ThresholdOutOfRange {
            threshold: 101
        }))
    );
    assert!(channel.writes.is_empty());
}

#[test]
fn upload_times_out_when_no_byte_ever_arrives() {
    let profiles = vec![small_profile("one")];
    // Every read fails and each query advances the clock 10 seconds, so the
    // 70-second deadline passes after a handful of polls.
    let mut channel = FakeChannel::new(vec![], 10_000);
    let result = upload(&profiles, &mut channel);
    assert_eq!(result, Err(UploadError::AckTimeout));
    // The payload was written; only the acknowledgement was missing.
    assert_eq!(channel.writes.len(), 2);
}

#[test]
fn upload_succeeds_on_late_ack_before_deadline() {
    let profiles = vec![small_profile("one")];
    // Six failed polls at 10 seconds each stay under the deadline; the ACK
    // then arrives and wins even late.
    let reads = vec![None, None, None, None, None, Some(0)];
    let mut channel = FakeChannel::new(reads, 10_000);
    assert_eq!(upload(&profiles, &mut channel), Ok(()));
}

#[test]
fn upload_rejects_unexpected_ack_byte() {
    let profiles = vec![small_profile("one")];
    let mut channel = FakeChannel::new(vec![Some(7)], 1);
    assert_eq!(
        upload(&profiles, &mut channel),
        Err(UploadError::UnexpectedAck(7))
    );
}

#[test]
fn upload_surfaces_write_failure_as_transport_error() {
    let profiles = vec![small_profile("one")];
    let mut channel = FakeChannel::new(vec![Some(0)], 1);
    channel.write_ok = false;
    assert_eq!(
        upload(&profiles, &mut channel),
        Err(UploadError::Transport(ChannelError {
            message: String::from("link down")
        }))
    );
}

#[test]
fn ack_step_times_out_exactly_at_deadline() {
    assert_eq!(
        ack_step(None, ACK_TIMEOUT_MILLIS - 1, ACK_TIMEOUT_MILLIS),
        AckWaitState::Waiting
    );
    assert_eq!(
        ack_step(None, ACK_TIMEOUT_MILLIS, ACK_TIMEOUT_MILLIS),
        AckWaitState::TimedOut
    );
    // A successful read acknowledges even past the deadline.
    assert_eq!(
        ack_step(Some(9), ACK_TIMEOUT_MILLIS + 5, ACK_TIMEOUT_MILLIS),
        AckWaitState::Acked(9)
    );
}

#[test]
fn wait_for_bytes_collects_a_fixed_count() {
    let mut channel = FakeChannel::new(vec![Some(1), None, Some(2), Some(3)], 1);
    let bytes = wait_for_bytes(&mut channel, 3, 1000).unwrap();
    assert_eq!(bytes, vec![1, 2, 3]);
}

#[test]
fn wait_for_bytes_times_out_on_silence() {
    let mut channel = FakeChannel::new(vec![], 500);
    assert_eq!(
        wait_for_bytes(&mut channel, 1, 1000),
        Err(UploadError::AckTimeout)
    );
}
