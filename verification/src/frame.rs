//! The header of a frame on a connection: one byte for the type of the frame, then the
//! length of what follows as eight bytes, most significant first.

use vstd::prelude::*;

verus! {

/// Type byte of a frame that asks to join.
pub const TYPE_ACCEPT: u8 = 0;

/// Type byte of a frame that carries a raft log message.
pub const TYPE_RAFT_LOG: u8 = 1;

/// Length of a header in bytes.
pub const HEADER_LEN: usize = 9;

/// What a header announces.
#[derive(Clone, Copy, Debug, PartialEq, Eq, Structural)]
pub enum Frame {
    /// A peer asks to join.
    Accept,
    /// A raft log message of `length` bytes follows.
    RaftLog { length: u64 },
    /// An unknown type: the connection is given up.
    Close,
}

/// The number that the eight bytes after the type denote, most significant byte first.
pub open spec fn length_of(buf: Seq<u8>) -> int {
    ((((((buf[1] * 256 + buf[2]) * 256 + buf[3]) * 256 + buf[4]) * 256 + buf[5]) * 256 + buf[6]) * 256
        + buf[7]) * 256 + buf[8]
}

/// What the header `buf` announces.
pub open spec fn header_of(buf: Seq<u8>) -> Frame {
    if buf[0] == TYPE_ACCEPT {
        Frame::Accept
    } else if buf[0] == TYPE_RAFT_LOG {
        Frame::RaftLog { length: length_of(buf) as u64 }
    } else {
        Frame::Close
    }
}

/// The length that a header denotes fits in 64 bits.
pub proof fn lemma_length_fits(buf: Seq<u8>)
    requires
        buf.len() == 9,
    ensures
        0 <= length_of(buf) <= u64::MAX,
{
}

/// Reads a header.
pub fn decode_header(buf: &[u8; 9]) -> (r: Frame)
    ensures
        r == header_of(buf@),
{
    if buf[0] == TYPE_ACCEPT {
        Frame::Accept
    } else if buf[0] == TYPE_RAFT_LOG {
        let n: u64 = buf[1] as u64;
        let n: u64 = n * 256 + buf[2] as u64;
        let n: u64 = n * 256 + buf[3] as u64;
        let n: u64 = n * 256 + buf[4] as u64;
        let n: u64 = n * 256 + buf[5] as u64;
        let n: u64 = n * 256 + buf[6] as u64;
        let n: u64 = n * 256 + buf[7] as u64;
        let n: u64 = n * 256 + buf[8] as u64;
        Frame::RaftLog { length: n }
    } else {
        Frame::Close
    }
}

} // verus!
