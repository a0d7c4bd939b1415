//! How completions and connections are told apart: an operation's tag, and the
//! ids that stand for connections outside the reactor.

use vstd::prelude::*;

verus! {

/// A listener took a connection.
pub const KIND_ACCEPT: u64 = 0;

/// A connection was read.
pub const KIND_READ: u64 = 1;

/// A connection was written.
pub const KIND_WRITE: u64 = 2;

/// A descriptor was closed.
pub const KIND_CLOSE: u64 = 3;

/// The wake pipe was read.
pub const KIND_WAKE: u64 = 4;

/// A descriptor's bits as an unsigned number.
pub open spec fn fd_bits(fd: i32) -> int {
    if fd >= 0 {
        fd as int
    } else {
        fd + 0x1_0000_0000
    }
}

/// The tag an operation carries: its kind in the high 32 bits, the descriptor
/// in the low 32.
pub open spec fn tag_of(kind: u64, fd: i32) -> u64 {
    (kind % 0x1_0000_0000 * 0x1_0000_0000 + fd_bits(fd)) as u64
}

/// Pack an operation's kind and its descriptor into one tag.
pub fn tag(kind: u64, fd: i32) -> (user: u64)
    ensures
        user == tag_of(kind, fd),
        user == kind % 0x1_0000_0000 * 0x1_0000_0000 + fd_bits(fd),
{
    let low: u32 = fd as u32;
    assert(low == if fd >= 0 { fd as int } else { fd + 0x1_0000_0000 }) by (bit_vector)
        requires
            low == fd as u32,
    ;
    assert((kind << 32) | (low as u64) == kind % 0x1_0000_0000 * 0x1_0000_0000 + low)
        by (bit_vector);
    (kind << 32) | (low as u64)
}

/// The kind packed into a tag.
pub fn tag_kind(user: u64) -> (kind: u64)
    ensures
        kind == user / 0x1_0000_0000,
{
    assert(user >> 32 == user / 0x1_0000_0000) by (bit_vector);
    user >> 32
}

/// The descriptor whose bits are the low 32 of a tag.
pub open spec fn fd_of(user: u64) -> i32 {
    let low = user % 0x1_0000_0000;
    if low < 0x8000_0000 {
        low as i32
    } else {
        (low - 0x1_0000_0000) as i32
    }
}

/// The descriptor packed into a tag.
pub fn tag_fd(user: u64) -> (fd: i32)
    ensures
        fd == fd_of(user),
{
    let low: u32 = (user & 0xFFFF_FFFF) as u32;
    let fd: i32 = low as i32;
    assert(low == user % 0x1_0000_0000) by (bit_vector)
        requires
            low == (user & 0xFFFF_FFFF) as u32,
    ;
    assert(low == if fd >= 0 { fd as int } else { fd + 0x1_0000_0000 }) by (bit_vector)
        requires
            fd == low as i32,
    ;
    fd
}

/// A tag gives back the kind and the descriptor that were packed into it, for
/// every kind that fits its half.
pub proof fn law_tag_round_trip(kind: u64, fd: i32)
    requires
        kind < 0x1_0000_0000,
    ensures
        tag_of(kind, fd) / 0x1_0000_0000 == kind,
        fd_of(tag_of(kind, fd)) == fd,
{
}

/// The source of connection ids.
///
/// A descriptor is recycled the instant it closes; an id is not, so a send that
/// comes a moment too late cannot land on whatever connection inherited the
/// descriptor.
pub struct ConnectionIds {
    /// The id the next connection gets.
    pub next: u64,
}

impl ConnectionIds {
    /// Whether this id is no longer to be given out.
    pub open spec fn issued(self, id: u64) -> bool {
        id < self.next
    }

    /// Ids start at one.
    pub fn new() -> (ids: ConnectionIds)
        ensures
            ids.next == 1,
    {
        ConnectionIds { next: 1 }
    }

    /// Whether there is no further id that was never given out.
    pub fn exhausted(&self) -> (done: bool)
        ensures
            done == (self.next == u64::MAX),
    {
        self.next == u64::MAX
    }

    /// Give out an id. It was never given out before, and never is again.
    pub fn allocate(&mut self) -> (id: u64)
        requires
            old(self).next < u64::MAX,
        ensures
            id == old(self).next,
            final(self).next == old(self).next + 1,
            !old(self).issued(id),
            final(self).issued(id),
            forall|other: u64| old(self).issued(other) ==> final(self).issued(other),
    {
        let id: u64 = self.next;
        self.next = self.next + 1;
        id
    }
}

} // verus!
