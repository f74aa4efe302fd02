//! Completions of a ring: what a token stands for, what to do about a
//! completion, and the buffers that the ring hands out.
use vstd::prelude::*;

verus! {

// ---------------------------------------------------------------------------
// Tokens
// ---------------------------------------------------------------------------

/// Where the kind of a token begins.
pub const KIND_UNIT: u64 = 0x100_0000_0000_0000;

/// What a request to the ring is for.
#[derive(Clone, Copy, PartialEq, Eq, Structural, Debug)]
pub enum Kind {
    /// Accepting connections.
    Accept,
    /// Taking a client from a control connection.
    Ctrl,
    /// Reading from a client.
    Recv,
    /// Sending to a client.
    Send,
}

pub open spec fn kind_number(kind: Kind) -> int {
    match kind {
        Kind::Accept => 1,
        Kind::Ctrl => 2,
        Kind::Recv => 3,
        Kind::Send => 4,
    }
}

/// The token of a request: its kind, and what it is about.
pub open spec fn token_of(kind: Kind, payload: int) -> int {
    kind_number(kind) * KIND_UNIT + payload % (KIND_UNIT as int)
}

/// The kind in a token, if it is one.
pub open spec fn kind_in(token: int) -> Option<Kind> {
    let n = token / (KIND_UNIT as int);
    if n == 1 {
        Some(Kind::Accept)
    } else if n == 2 {
        Some(Kind::Ctrl)
    } else if n == 3 {
        Some(Kind::Recv)
    } else if n == 4 {
        Some(Kind::Send)
    } else {
        None
    }
}

/// A token tells what was put into it.
pub proof fn law_token_round_trip(kind: Kind, payload: int)
    requires
        0 <= payload < KIND_UNIT,
    ensures
        kind_in(token_of(kind, payload)) == Some(kind),
        token_of(kind, payload) % (KIND_UNIT as int) == payload,
{
}

/// The token of a request.
pub fn token(kind: Kind, payload: u64) -> (r: u64)
    ensures
        r == token_of(kind, payload as int),
{
    let n: u64 = match kind {
        Kind::Accept => 1,
        Kind::Ctrl => 2,
        Kind::Recv => 3,
        Kind::Send => 4,
    };
    n * KIND_UNIT + payload % KIND_UNIT
}

/// The kind in a token, and what the request was about.
pub fn read_token(token: u64) -> (r: (Option<Kind>, u64))
    ensures
        r.0 == kind_in(token as int),
        r.1 == token as int % (KIND_UNIT as int),
{
    let n = token / KIND_UNIT;
    let kind = if n == 1 {
        Some(Kind::Accept)
    } else if n == 2 {
        Some(Kind::Ctrl)
    } else if n == 3 {
        Some(Kind::Recv)
    } else if n == 4 {
        Some(Kind::Send)
    } else {
        None
    };
    (kind, token % KIND_UNIT)
}

// ---------------------------------------------------------------------------
// Completions
// ---------------------------------------------------------------------------

/// What to do about a completed read from a client.
#[derive(Clone, Copy, PartialEq, Eq, Structural, Debug)]
pub enum OnRecv {
    Close,
    /// So many bytes are in the buffer of this number.
    Serve { n: usize, buffer: u16 },
}

/// What a completed read with the result `res` calls for.
pub open spec fn recv_step(res: int, buffer: Option<u16>) -> OnRecv {
    match buffer {
        Some(b) => if res > 0 {
            OnRecv::Serve { n: res as usize, buffer: b }
        } else {
            OnRecv::Close
        },
        None => OnRecv::Close,
    }
}

/// A completion without bytes, or without a buffer, ends the connection.
pub fn on_recv(res: i32, buffer: Option<u16>) -> (r: OnRecv)
    ensures
        r == (if res > 0 && buffer is Some {
            OnRecv::Serve { n: res as usize, buffer: buffer->0 }
        } else {
            OnRecv::Close
        }),
        r == recv_step(res as int, buffer),
{
    if res <= 0 {
        return OnRecv::Close;
    }
    match buffer {
        Some(b) => OnRecv::Serve { n: res as usize, buffer: b },
        None => OnRecv::Close,
    }
}

/// What to do about a client that was served.
#[derive(Clone, Copy, PartialEq, Eq, Structural, Debug)]
pub enum Next {
    Close,
    /// The request is used up: ask again.
    Rearm,
    Keep,
}

/// What a client that was served calls for.
pub open spec fn serve_step(close: bool, more: bool, is_client: bool) -> Next {
    if close {
        Next::Close
    } else if more || !is_client {
        Next::Keep
    } else {
        Next::Rearm
    }
}

/// A client is closed if its requests call for it; a request that brings no
/// more completions is made again while the client is there.
pub fn after_serve(close: bool, more: bool, is_client: bool) -> (r: Next)
    ensures
        r == (if close {
            Next::Close
        } else if !more && is_client {
            Next::Rearm
        } else {
            Next::Keep
        }),
        r == serve_step(close, more, is_client),
{
    if close {
        Next::Close
    } else if !more && is_client {
        Next::Rearm
    } else {
        Next::Keep
    }
}

/// What a completed accept with the result `res` brings.
pub open spec fn accepted(res: i32) -> Option<i32> {
    if res < 0 {
        None
    } else {
        Some(res)
    }
}

/// A descriptor that was accepted, and whether to ask for more.
pub fn on_accept(res: i32, more: bool) -> (r: (Option<i32>, bool))
    ensures
        r.0 == (if res >= 0 {
            Some(res)
        } else {
            None
        }),
        r.0 == accepted(res),
        r.1 == !more,
{
    if res >= 0 {
        (Some(res), !more)
    } else {
        (None, !more)
    }
}

/// What to do about a completed read from a control connection.
#[derive(Clone, Copy, PartialEq, Eq, Structural, Debug)]
pub enum OnCtrl {
    /// The connection is gone.
    Drop,
    /// Ask again, and take this client if there is one.
    Take { client: Option<i32> },
}

/// What a completed read from a control connection calls for.
pub open spec fn ctrl_step(res: int, client: i32) -> OnCtrl {
    if res > 0 {
        OnCtrl::Take { client: accepted(client) }
    } else {
        OnCtrl::Drop
    }
}

/// `client` is what the message passed; a negative one is none.
pub fn on_ctrl(res: i32, client: i32) -> (r: OnCtrl)
    ensures
        r == (if res <= 0 {
            OnCtrl::Drop
        } else if client >= 0 {
            OnCtrl::Take { client: Some(client) }
        } else {
            OnCtrl::Take { client: None }
        }),
        r == ctrl_step(res as int, client),
{
    if res <= 0 {
        OnCtrl::Drop
    } else if client >= 0 {
        OnCtrl::Take { client: Some(client) }
    } else {
        OnCtrl::Take { client: None }
    }
}

// ---------------------------------------------------------------------------
// Buffers
// ---------------------------------------------------------------------------

/// Length of a buffer.
pub const BUF_LEN: usize = 8192;

/// Number of buffers.
pub const BUF_ENTRIES: u16 = 1024;

/// Where a buffer begins in the memory of all.
pub open spec fn start_of(buffer: int) -> int {
    buffer * BUF_LEN
}

/// Where a buffer begins in the memory of all.
pub fn buffer_start(buffer: u16) -> (r: usize)
    requires
        buffer < BUF_ENTRIES,
    ensures
        r == buffer * BUF_LEN,
        r == start_of(buffer as int),
        r + BUF_LEN <= BUF_ENTRIES * BUF_LEN,
{
    buffer as usize * BUF_LEN
}

/// The slot that the next buffer goes back to.
pub open spec fn slot_of(tail: int) -> int {
    tail % (BUF_ENTRIES as int)
}

/// The tail behind so many buffers that were given back.
pub open spec fn tail_after(tail: int, n: int) -> int {
    (tail + n) % 0x1_0000
}

/// The slot that the next buffer goes back to, and the tail behind it.
pub fn give_back(tail: u16) -> (r: (usize, u16))
    ensures
        r.0 == tail % BUF_ENTRIES,
        r.1 == (tail + 1) % 0x1_0000,
        r.0 == slot_of(tail as int),
        r.1 == tail_after(tail as int, 1),
{
    ((tail % BUF_ENTRIES) as usize, tail.wrapping_add(1))
}

/// As many buffers as there are can be given back, one after the other, before
/// a slot comes twice.
pub proof fn law_slots_differ(tail: int, i: int, j: int)
    requires
        0 <= tail < 0x1_0000,
        0 <= i < j < BUF_ENTRIES,
    ensures
        (tail + i) % 0x1_0000 % (BUF_ENTRIES as int) != (tail + j) % 0x1_0000 % (
        BUF_ENTRIES as int),
{
}

/// Buffers that are given back one after the other go round the slots, one slot
/// after the next, and the tail tells how many were.
pub proof fn law_buffers_go_round(tail: int, i: int, j: int)
    requires
        0 <= tail < 0x1_0000,
        0 <= i,
        0 <= j,
    ensures
        tail_after(tail, 0) == tail,
        tail_after(tail_after(tail, i), j) == tail_after(tail, i + j),
        0 <= slot_of(tail) < 1024,
        slot_of(tail_after(tail, 1)) == if slot_of(tail) + 1 < 1024 {
            slot_of(tail) + 1
        } else {
            0
        },
        i < j < 1024 ==> slot_of(tail_after(tail, i)) != slot_of(tail_after(tail, j)),
{
}

/// Buffers lie side by side in the memory of all, from its beginning to its end.
pub proof fn law_buffers_adjoin(buffer: int)
    ensures
        start_of(0) == 0,
        start_of(buffer + 1) == start_of(buffer) + BUF_LEN,
        start_of(BUF_ENTRIES as int) == BUF_ENTRIES * BUF_LEN,
{
    assert((buffer + 1) * 8192 == buffer * 8192 + 8192);
}

/// A read is served if and only if it brought bytes in a buffer: all of them,
/// and those of that buffer.
pub proof fn law_recv_serves_what_came(res: int, buffer: Option<u16>, n: usize, b: u16)
    requires
        res <= i32::MAX,
    ensures
        recv_step(res, buffer) == (OnRecv::Serve { n, buffer: b }) <==> res == n && n > 0 && buffer
            == Some(b),
        recv_step(res, buffer) == OnRecv::Close <==> res <= 0 || buffer is None,
{
}

/// A client that is to be closed is closed and nothing else; one that stays
/// always has a request that brings more, and none is made for one that is gone.
pub proof fn law_served_clients_stay_armed(close: bool, more: bool, is_client: bool)
    ensures
        serve_step(close, more, is_client) == Next::Close <==> close,
        serve_step(close, more, is_client) == Next::Rearm ==> is_client && !more,
        !close && is_client ==> more || serve_step(close, more, is_client) == Next::Rearm,
        serve_step(close, true, is_client) != Next::Rearm,
{
}

/// A descriptor is never negative, and none that is not negative is lost. A
/// control connection stays as long as reads from it bring bytes.
pub proof fn law_descriptors_are_taken(res: i32, client: i32)
    ensures
        accepted(res) is Some <==> 0 <= res,
        accepted(res) matches Some(fd) ==> fd == res,
        ctrl_step(res as int, client) == OnCtrl::Drop <==> res <= 0,
        res > 0 && 0 <= client ==> ctrl_step(res as int, client) == (OnCtrl::Take {
            client: Some(client),
        }),
        res > 0 && client < 0 ==> ctrl_step(res as int, client) == (OnCtrl::Take { client: None }),
{
}

/// The kind of a token stands in its highest byte, in the order of the kinds.
pub proof fn law_kinds_are_numbered(payload: int)
    requires
        0 <= payload < 0x100_0000_0000_0000,
    ensures
        token_of(Kind::Accept, payload) == 0x100_0000_0000_0000 + payload,
        token_of(Kind::Ctrl, payload) == 0x200_0000_0000_0000 + payload,
        token_of(Kind::Recv, payload) == 0x300_0000_0000_0000 + payload,
        token_of(Kind::Send, payload) == 0x400_0000_0000_0000 + payload,
        kind_in(payload) is None,
        kind_in(payload + 0x500_0000_0000_0000) is None,
{
}

} // verus!
