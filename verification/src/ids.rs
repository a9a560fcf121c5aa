//! Small integer identifiers that cross the process boundary.

use vstd::prelude::*;

verus! {

/// Correlates a response with the request that caused it.
pub type RpcId = u64;

/// The number of channel ids set aside for the core protocol. Ids at or
/// above it are free for extension traffic.
pub const RESERVED_CHANNEL_IDS: u8 = 3;

/// One sub-stream inside a channel of the multiplexed connection.
#[derive(Debug, PartialEq, Eq, Hash, Clone, Copy, Structural)]
pub struct StreamID(pub u64);

/// A capability for one scoped filesystem view. It names the stream that
/// carries the operations made under it.
#[derive(Debug, PartialEq, Eq, Hash, Clone, Copy, Structural)]
pub struct FsToken(pub StreamID);

/// Names the file descriptor behind a region of shared memory.
#[derive(Debug, PartialEq, Eq, Hash, Clone, Copy, Structural)]
pub struct FdId(pub u64);

/// An opaque key for a set of tensors that a runner has frozen.
#[derive(Debug, PartialEq, Eq, Hash, Clone, Copy, Structural)]
pub struct SealHandle(pub u64);

impl SealHandle {
    /// The handle with the number `v`.
    pub fn new(v: u64) -> (h: Self)
        ensures
            h.0 == v,
    {
        SealHandle(v)
    }
}

/// The fixed logical channels of a connection. Each keeps its number for
/// good; `NUM_RESERVED_IDS` is no channel but the first number past them.
#[allow(non_camel_case_types)]
#[derive(Debug, PartialEq, Eq, Clone, Copy, Structural)]
pub enum ChannelId {
    Rpc,
    FileSystem,
    CartonData,
    NUM_RESERVED_IDS,
}

impl ChannelId {
    /// The number that stands for this channel on the wire.
    pub open spec fn spec_id(self) -> u8 {
        match self {
            ChannelId::Rpc => 0,
            ChannelId::FileSystem => 1,
            ChannelId::CartonData => 2,
            ChannelId::NUM_RESERVED_IDS => RESERVED_CHANNEL_IDS,
        }
    }

    /// The number that stands for this channel on the wire.
    #[verifier::when_used_as_spec(spec_id)]
    pub fn id(self) -> (n: u8)
        ensures
            n == self.spec_id(),
    {
        match self {
            ChannelId::Rpc => 0,
            ChannelId::FileSystem => 1,
            ChannelId::CartonData => 2,
            ChannelId::NUM_RESERVED_IDS => RESERVED_CHANNEL_IDS,
        }
    }

    /// The core channel with number `n`, if there is one.
    pub open spec fn spec_from_id(n: u8) -> Option<ChannelId> {
        if n == 0 {
            Some(ChannelId::Rpc)
        } else if n == 1 {
            Some(ChannelId::FileSystem)
        } else if n == 2 {
            Some(ChannelId::CartonData)
        } else {
            None
        }
    }

    /// Maps a wire number back to its core channel. Numbers in the
    /// extension range belong to no core channel.
    pub fn from_id(n: u8) -> (c: Option<ChannelId>)
        ensures
            c == Self::spec_from_id(n),
            c is None <==> n >= RESERVED_CHANNEL_IDS,
            c matches Some(ch) ==> ch.spec_id() == n && ch != ChannelId::NUM_RESERVED_IDS,
    {
        if n == 0 {
            Some(ChannelId::Rpc)
        } else if n == 1 {
            Some(ChannelId::FileSystem)
        } else if n == 2 {
            Some(ChannelId::CartonData)
        } else {
            None
        }
    }
}

} // verus!
