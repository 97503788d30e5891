//! What a consensus node decides about a message before it has a raft group: whether the
//! message may start one.

use vstd::prelude::*;

verus! {

/// The kinds of message that the decision tells apart.
#[derive(Clone, Copy, Debug, PartialEq, Eq, Structural)]
pub enum MessageKind {
    RequestVote,
    RequestPreVote,
    Heartbeat,
    Other,
}

/// What a node does with a message.
#[derive(Clone, Copy, Debug, PartialEq, Eq, Structural)]
pub enum StepAction {
    /// The node has no raft group and the message starts none: it is dropped.
    Ignore,
    /// The node has no raft group and the message starts one, addressed as the message is;
    /// the message is then stepped.
    Initialize,
    /// The node has a raft group, which steps the message.
    Step,
}

/// Ticks without a leader after which a node calls an election.
pub const ELECTION_TICK: usize = 10;

/// Ticks between the heartbeats of a leader.
pub const HEARTBEAT_TICK: usize = 3;

/// Index and term of the snapshot that a leader starts from. They are not zero, so that a
/// follower catches up by snapshot first.
pub const SNAPSHOT_INDEX: u64 = 1;

pub const SNAPSHOT_TERM: u64 = 1;

/// The one voter in the configuration that a leader starts from.
pub const FIRST_VOTER: u64 = 1;

/// A message that may start a raft group: a request for a vote or a pre-vote, or the
/// heartbeat of a leader that has committed nothing.
pub open spec fn initial(kind: MessageKind, commit: u64) -> bool {
    kind == MessageKind::RequestVote || kind == MessageKind::RequestPreVote || (kind
        == MessageKind::Heartbeat && commit == 0)
}

pub fn is_initial_msg(kind: MessageKind, commit: u64) -> (r: bool)
    ensures
        r == initial(kind, commit),
{
    match kind {
        MessageKind::RequestVote => true,
        MessageKind::RequestPreVote => true,
        MessageKind::Heartbeat => commit == 0,
        MessageKind::Other => false,
    }
}

/// What a node does with a message of `kind` from a sender that has committed `commit`
/// entries, given whether the node has a raft group.
pub fn step(has_group: bool, kind: MessageKind, commit: u64) -> (r: StepAction)
    ensures
        r == if has_group {
            StepAction::Step
        } else if initial(kind, commit) {
            StepAction::Initialize
        } else {
            StepAction::Ignore
        },
{
    if has_group {
        StepAction::Step
    } else if is_initial_msg(kind, commit) {
        StepAction::Initialize
    } else {
        StepAction::Ignore
    }
}

} // verus!
