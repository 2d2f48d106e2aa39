//! Tests of the peer-to-peer wire framing and the status surface state.

use little_dipper::mini_block::ProtoBlock;
use little_dipper::status::{AppState, ViewState};
use little_dipper::wire::{decode_put_mini_block, encode_put_mini_block, encode_varint};

#[test]
fn varints_encode_base_128() {
    assert_eq!(encode_varint(0), vec![0x00]);
    assert_eq!(encode_varint(1), vec![0x01]);
    assert_eq!(encode_varint(127), vec![0x7f]);
    assert_eq!(encode_varint(128), vec![0x80, 0x01]);
    assert_eq!(encode_varint(300), vec![0xac, 0x02]);
    assert_eq!(encode_varint(16384), vec![0x80, 0x80, 0x01]);
}

#[test]
fn frames_have_the_documented_shape() {
    let frame = encode_put_mini_block(&vec![0xde, 0xad]);
    assert_eq!(frame, vec![0x0a, 0x04, 0x0a, 0x02, 0xde, 0xad]);
    let frame = encode_put_mini_block(&vec![]);
    assert_eq!(frame, vec![0x0a, 0x02, 0x0a, 0x00]);
}

#[test]
fn frames_round_trip() {
    for data in [vec![], vec![1], vec![0; 200], (0u16..400).map(|b| b as u8).collect()] {
        let frame = encode_put_mini_block(&data);
        assert_eq!(decode_put_mini_block(&frame), Some(data));
    }
}

#[test]
fn malformed_frames_are_rejected() {
    assert_eq!(decode_put_mini_block(&vec![]), None);
    assert_eq!(decode_put_mini_block(&vec![0x0a]), None);
    // Wrong outer tag.
    assert_eq!(decode_put_mini_block(&vec![0x12, 0x04, 0x0a, 0x02, 1, 2]), None);
    // Wrong inner tag.
    assert_eq!(decode_put_mini_block(&vec![0x0a, 0x04, 0x12, 0x02, 1, 2]), None);
    // Outer length does not cover the buffer.
    assert_eq!(decode_put_mini_block(&vec![0x0a, 0x05, 0x0a, 0x02, 1, 2]), None);
    // Inner length runs past the end.
    assert_eq!(decode_put_mini_block(&vec![0x0a, 0x04, 0x0a, 0x03, 1, 2]), None);
    // Trailing garbage.
    assert_eq!(decode_put_mini_block(&vec![0x0a, 0x04, 0x0a, 0x02, 1, 2, 9]), None);
    // A padded, non-minimal varint length is not canonical.
    assert_eq!(decode_put_mini_block(&vec![0x0a, 0x85, 0x00, 0x0a, 0x02, 1, 2]), None);
}

#[test]
fn status_records_progress_per_view() {
    let mut state = AppState::new();
    assert_eq!(state.view_status(3), ViewState::Empty);
    assert!(state.block_of(3).is_none());

    state.record(3, ViewState::Prepared, Some(ProtoBlock { mini_blocks: vec![] }));
    assert_eq!(state.view_status(3), ViewState::Prepared);
    assert!(state.block_of(3).is_some());

    state.record(3, ViewState::Finalized, Some(ProtoBlock { mini_blocks: vec![] }));
    assert_eq!(state.view_status(3), ViewState::Finalized);

    state.record(4, ViewState::Nullify, None);
    assert_eq!(state.view_status(4), ViewState::Nullify);
    assert!(state.block_of(4).is_none());
    assert_eq!(state.view_status(3), ViewState::Finalized);
}
