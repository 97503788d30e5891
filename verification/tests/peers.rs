use filekv::frame::{decode_header, Frame, HEADER_LEN, TYPE_ACCEPT, TYPE_RAFT_LOG};
use filekv::peer::{
    is_initial_msg, step, MessageKind, StepAction, ELECTION_TICK, FIRST_VOTER, HEARTBEAT_TICK, SNAPSHOT_INDEX,
    SNAPSHOT_TERM,
};

#[test]
fn votes_and_first_heartbeats_are_initial() {
    assert!(is_initial_msg(MessageKind::RequestVote, 0));
    assert!(is_initial_msg(MessageKind::RequestVote, 7));
    assert!(is_initial_msg(MessageKind::RequestPreVote, 0));
    assert!(is_initial_msg(MessageKind::RequestPreVote, 7));
    assert!(is_initial_msg(MessageKind::Heartbeat, 0));
    assert!(!is_initial_msg(MessageKind::Heartbeat, 1));
    assert!(!is_initial_msg(MessageKind::Other, 0));
    assert!(!is_initial_msg(MessageKind::Other, 1));
}

#[test]
fn a_node_without_a_group_waits_for_an_initial_message() {
    assert_eq!(step(false, MessageKind::Other, 0), StepAction::Ignore);
    assert_eq!(step(false, MessageKind::Heartbeat, 3), StepAction::Ignore);
    assert_eq!(step(false, MessageKind::Heartbeat, 0), StepAction::Initialize);
    assert_eq!(step(false, MessageKind::RequestVote, 3), StepAction::Initialize);
    assert_eq!(step(false, MessageKind::RequestPreVote, 3), StepAction::Initialize);
}

#[test]
fn a_node_with_a_group_steps_every_message() {
    for kind in [MessageKind::RequestVote, MessageKind::RequestPreVote, MessageKind::Heartbeat, MessageKind::Other] {
        assert_eq!(step(true, kind, 0), StepAction::Step);
        assert_eq!(step(true, kind, 9), StepAction::Step);
    }
}

#[test]
fn ticks_of_a_node() {
    assert_eq!(ELECTION_TICK, 10);
    assert_eq!(HEARTBEAT_TICK, 3);
}

#[test]
fn first_snapshot_of_a_leader() {
    assert_eq!(SNAPSHOT_INDEX, 1);
    assert_eq!(SNAPSHOT_TERM, 1);
    assert_eq!(FIRST_VOTER, 1);
}

#[test]
fn header_is_a_type_and_a_length() {
    assert_eq!(HEADER_LEN, 9);
    assert_eq!(decode_header(&[TYPE_ACCEPT, 0, 0, 0, 0, 0, 0, 0, 0]), Frame::Accept);
    assert_eq!(decode_header(&[TYPE_ACCEPT, 9, 9, 9, 9, 9, 9, 9, 9]), Frame::Accept);
    assert_eq!(decode_header(&[TYPE_RAFT_LOG, 0, 0, 0, 0, 0, 0, 0, 0]), Frame::RaftLog { length: 0 });
    assert_eq!(decode_header(&[TYPE_RAFT_LOG, 0, 0, 0, 0, 0, 0, 1, 2]), Frame::RaftLog { length: 258 });
    assert_eq!(
        decode_header(&[TYPE_RAFT_LOG, 1, 2, 3, 4, 5, 6, 7, 8]),
        Frame::RaftLog { length: 0x0102030405060708 }
    );
    assert_eq!(
        decode_header(&[TYPE_RAFT_LOG, 255, 255, 255, 255, 255, 255, 255, 255]),
        Frame::RaftLog { length: u64::MAX }
    );
}

#[test]
fn header_of_an_unknown_type_closes() {
    assert_eq!(decode_header(&[2, 0, 0, 0, 0, 0, 0, 0, 1]), Frame::Close);
    assert_eq!(decode_header(&[255, 0, 0, 0, 0, 0, 0, 0, 1]), Frame::Close);
}
