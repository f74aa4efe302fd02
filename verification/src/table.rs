//! The descriptors of a worker: clients, and the control connections that
//! clients come through.
use vstd::prelude::*;
use crate::conn::{self, After, Conn, Reply, Scorer};

verus! {

/// Clients with the bytes that are held back for them, and control
/// connections, by descriptor.
#[verifier::ext_equal]
pub ghost struct Peers {
    pub clients: Map<int, Seq<u8>>,
    pub ctrl: Set<int>,
}

pub struct Table {
    conns: Vec<Option<Box<Conn>>>,
    ctrl: Vec<bool>,
}

impl View for Table {
    type V = Peers;

    closed spec fn view(&self) -> Peers {
        Peers {
            clients: Map::new(
                |fd: int| 0 <= fd < self.conns@.len() && self.conns@[fd] is Some,
                |fd: int| self.conns@[fd]->0@,
            ),
            ctrl: Set::new(|fd: int| 0 <= fd < self.ctrl@.len() && self.ctrl@[fd]),
        }
    }
}

/// What to do about an event on a descriptor.
#[derive(Clone, Copy, PartialEq, Eq, Structural, Debug)]
pub enum Action {
    /// Accept control connections.
    Accept,
    /// Drop a control connection.
    Drop,
    /// Take the clients that a control connection passes.
    Drain,
    /// Close a client.
    Close,
    /// Read from a client.
    Read,
    Nothing,
}

/// What to do about an event on `fd`: whether it hung up or failed, and whether
/// it can be read.
pub open spec fn action(p: Peers, listener: int, fd: int, hangup: bool, readable: bool) -> Action {
    if fd == listener {
        Action::Accept
    } else if p.ctrl.contains(fd) {
        if hangup {
            Action::Drop
        } else if readable {
            Action::Drain
        } else {
            Action::Nothing
        }
    } else if hangup {
        Action::Close
    } else if readable {
        Action::Read
    } else {
        Action::Nothing
    }
}

/// What to do with the result of a read.
#[derive(Clone, Copy, PartialEq, Eq, Structural, Debug)]
pub enum Received {
    /// Nothing has come yet.
    Wait,
    /// The client is gone.
    Close,
    /// So many bytes have come.
    Data { n: usize },
}

/// What the result `n` of a read means.
pub open spec fn reading(n: int, would_block: bool) -> Received {
    if n == 0 || n < 0 && !would_block {
        Received::Close
    } else if n < 0 {
        Received::Wait
    } else {
        Received::Data { n: n as usize }
    }
}

/// What the result `n` of a read means: whether it `would_block` matters if it
/// is negative.
pub fn received(n: isize, would_block: bool) -> (r: Received)
    ensures
        r == (if n > 0 {
            Received::Data { n: n as usize }
        } else if n < 0 && would_block {
            Received::Wait
        } else {
            Received::Close
        }),
        r == reading(n as int, would_block),
{
    if n > 0 {
        Received::Data { n: n as usize }
    } else if n < 0 && would_block {
        Received::Wait
    } else {
        Received::Close
    }
}

/// The peers after the client `fd` has sent `data`, with the replies and how it
/// goes on. A descriptor that is no client's, and bytes that there is
/// no room for, call for closing it.
pub open spec fn fed(p: Peers, s: conn::Settings, fd: int, data: Seq<u8>) -> (Peers, Seq<
    Reply,
>, After) {
    if !p.clients.contains_key(fd) || p.clients[fd].len() + data.len() > conn::BUF_CAP {
        (p, Seq::empty(), After::Close)
    } else {
        let out = conn::served(s, p.clients[fd] + data);
        (
            Peers { clients: p.clients.insert(fd, out.rest), ctrl: p.ctrl },
            out.replies,
            out.after,
        )
    }
}

/// The peers with `fd` as a client of which nothing is held back.
pub open spec fn with_client(p: Peers, fd: int) -> Peers {
    Peers { clients: p.clients.insert(fd, Seq::empty()), ..p }
}

/// The peers without the client `fd`.
pub open spec fn without_client(p: Peers, fd: int) -> Peers {
    Peers { clients: p.clients.remove(fd), ..p }
}

/// The peers with `fd` as a control connection.
pub open spec fn with_ctrl(p: Peers, fd: int) -> Peers {
    Peers { ctrl: p.ctrl.insert(fd), ..p }
}

/// The peers without the control connection `fd`.
pub open spec fn without_ctrl(p: Peers, fd: int) -> Peers {
    Peers { ctrl: p.ctrl.remove(fd), ..p }
}

/// How many bytes there is room for from `fd`.
pub open spec fn room_for(p: Peers, fd: int) -> int {
    if p.clients.contains_key(fd) {
        conn::BUF_CAP - p.clients[fd].len()
    } else {
        0
    }
}

impl Table {
    pub closed spec fn wf(&self) -> bool {
        &&& self.conns@.len() == self.ctrl@.len()
        &&& forall|fd: int|
            0 <= fd < self.conns@.len() && self.conns@[fd] is Some ==> (
            #[trigger] self.conns@[fd])->0.wf()
    }

    pub fn new() -> (r: Table)
        ensures
            r.wf(),
            r@ == (Peers { clients: Map::empty(), ctrl: Set::empty() }),
    {
        let r = Table { conns: Vec::new(), ctrl: Vec::new() };
        assert(r@.clients =~= Map::empty());
        assert(r@.ctrl =~= Set::empty());
        r
    }

    /// Makes a place for `fd`.
    fn ensure(&mut self, fd: usize)
        requires
            old(self).wf(),
            fd < usize::MAX,
        ensures
            final(self).wf(),
            final(self)@ == old(self)@,
            fd < final(self).conns@.len(),
    {
        let ghost before = *self;
        while self.conns.len() <= fd
            invariant
                self.wf(),
                fd < usize::MAX,
                before.conns@.len() <= self.conns@.len(),
                forall|i: int|
                    0 <= i < before.conns@.len() ==> #[trigger] self.conns@[i] == before.conns@[i],
                forall|i: int|
                    0 <= i < before.conns@.len() ==> #[trigger] self.ctrl@[i] == before.ctrl@[i],
                forall|i: int|
                    before.conns@.len() <= i < self.conns@.len() ==> #[trigger] self.conns@[i] is None,
                forall|i: int|
                    before.conns@.len() <= i < self.conns@.len() ==> !(#[trigger] self.ctrl@[i]),
                before.conns@.len() == before.ctrl@.len(),
            decreases fd + 1 - self.conns@.len(),
        {
            self.conns.push(None);
            self.ctrl.push(false);
        }
        assert(self@.clients =~= before@.clients);
        assert(self@.ctrl =~= before@.ctrl);
    }

    /// Takes `fd` as a client.
    pub fn open(&mut self, fd: usize)
        requires
            old(self).wf(),
            fd < usize::MAX,
        ensures
            final(self).wf(),
            final(self)@ == (Peers {
                clients: old(self)@.clients.insert(fd as int, Seq::empty()),
                ctrl: old(self)@.ctrl,
            }),
            final(self)@ == with_client(old(self)@, fd as int),
    {
        self.ensure(fd);
        let ghost before = *self;
        self.conns.set(fd, Some(Conn::new()));
        assert(self@.clients =~= before@.clients.insert(fd as int, Seq::empty()));
        assert(self@.ctrl =~= before@.ctrl);
    }

    /// Forgets the client `fd`.
    pub fn close(&mut self, fd: usize)
        requires
            old(self).wf(),
        ensures
            final(self).wf(),
            final(self)@ == (Peers {
                clients: old(self)@.clients.remove(fd as int),
                ctrl: old(self)@.ctrl,
            }),
            final(self)@ == without_client(old(self)@, fd as int),
    {
        let ghost before = *self;
        if fd < self.conns.len() {
            self.conns.set(fd, None);
        }
        assert(self@.clients =~= before@.clients.remove(fd as int));
        assert(self@.ctrl =~= before@.ctrl);
    }

    /// Takes `fd` as a control connection.
    pub fn mark(&mut self, fd: usize)
        requires
            old(self).wf(),
            fd < usize::MAX,
        ensures
            final(self).wf(),
            final(self)@ == (Peers {
                clients: old(self)@.clients,
                ctrl: old(self)@.ctrl.insert(fd as int),
            }),
            final(self)@ == with_ctrl(old(self)@, fd as int),
    {
        self.ensure(fd);
        let ghost before = *self;
        self.ctrl.set(fd, true);
        assert(self@.clients =~= before@.clients);
        assert(self@.ctrl =~= before@.ctrl.insert(fd as int));
    }

    /// Forgets the control connection `fd`.
    pub fn unmark(&mut self, fd: usize)
        requires
            old(self).wf(),
        ensures
            final(self).wf(),
            final(self)@ == (Peers {
                clients: old(self)@.clients,
                ctrl: old(self)@.ctrl.remove(fd as int),
            }),
            final(self)@ == without_ctrl(old(self)@, fd as int),
    {
        let ghost before = *self;
        if fd < self.ctrl.len() {
            self.ctrl.set(fd, false);
        }
        assert(self@.clients =~= before@.clients);
        assert(self@.ctrl =~= before@.ctrl.remove(fd as int));
    }

    pub fn is_ctrl(&self, fd: usize) -> (r: bool)
        ensures
            r == self@.ctrl.contains(fd as int),
    {
        fd < self.ctrl.len() && self.ctrl[fd]
    }

    pub fn is_client(&self, fd: usize) -> (r: bool)
        ensures
            r == self@.clients.contains_key(fd as int),
    {
        fd < self.conns.len() && self.conns[fd].is_some()
    }

    /// What to do about an event on `fd`.
    pub fn on_event(&self, listener: usize, fd: usize, hangup: bool, readable: bool) -> (r: Action)
        ensures
            r == action(self@, listener as int, fd as int, hangup, readable),
    {
        if fd == listener {
            Action::Accept
        } else if self.is_ctrl(fd) {
            if hangup {
                Action::Drop
            } else if readable {
                Action::Drain
            } else {
                Action::Nothing
            }
        } else if hangup {
            Action::Close
        } else if readable {
            Action::Read
        } else {
            Action::Nothing
        }
    }

    /// How many bytes to read from `fd`. There is nothing to read from a
    /// descriptor that is no client's, or where there is no room.
    pub fn room(&self, fd: usize) -> (r: Option<usize>)
        requires
            self.wf(),
        ensures
            r == (if self@.clients.contains_key(fd as int) && self@.clients[fd as int].len()
                < conn::BUF_CAP {
                Some((conn::BUF_CAP - self@.clients[fd as int].len()) as usize)
            } else {
                None
            }),
            match r {
                Some(n) => n == room_for(self@, fd as int) && n > 0,
                None => room_for(self@, fd as int) <= 0,
            },
    {
        if fd >= self.conns.len() {
            return None;
        }
        match &self.conns[fd] {
            Some(c) => {
                let room = c.room();
                if room > 0 {
                    Some(room)
                } else {
                    None
                }
            },
            None => None,
        }
    }

    /// Takes the bytes `data` from the client `fd` and answers the complete
    /// requests. The result is how it goes on.
    pub fn serve(
        &mut self,
        scorer: &Scorer,
        fd: usize,
        data: &[u8],
        replies: &mut Vec<Reply>,
    ) -> (after: After)
        requires
            old(self).wf(),
            scorer.wf(),
        ensures
            final(self).wf(),
            ({
                let out = fed(old(self)@, scorer@, fd as int, data@);
                &&& final(self)@ == out.0
                &&& final(replies)@ == old(replies)@ + out.1
                &&& after == out.2
            }),
    {
        let ghost before = *self;
        let ghost earlier = replies@;
        assert(earlier + Seq::<Reply>::empty() =~= earlier);
        if fd >= self.conns.len() {
            return After::Close;
        }
        let mut c = match self.conns[fd].take() {
            Some(c) => c,
            None => {
                assert(self.conns@ =~= before.conns@);
                return After::Close;
            },
        };
        let ok = c.feed(data);
        let after = if ok {
            c.serve(scorer, replies)
        } else {
            After::Close
        };
        self.conns.set(fd, Some(c));
        proof {
            assert(self@.ctrl =~= before@.ctrl);
            let out = fed(before@, scorer@, fd as int, data@);
            assert(self@.clients =~= out.0.clients);
        }
        after
    }
}

/// How the bytes of a client come in pieces does not matter, as long as there is
/// room for them and the requests leave the connection open.
pub proof fn law_fed_in_pieces(p: Peers, s: conn::Settings, fd: int, a: Seq<u8>, b: Seq<u8>)
    requires
        p.clients.contains_key(fd),
        p.clients[fd].len() + a.len() + b.len() <= conn::BUF_CAP,
        fed(p, s, fd, a).2 == After::Open,
    ensures
        ({
            let first = fed(p, s, fd, a);
            let then = fed(first.0, s, fd, b);
            fed(p, s, fd, a + b) == (then.0, first.1 + then.1, then.2)
        }),
{
    let first = fed(p, s, fd, a);
    let then = fed(first.0, s, fd, b);
    let both = fed(p, s, fd, a + b);
    conn::law_served_in_pieces(s, p.clients[fd] + a, b);
    conn::law_rest_is_shorter(s, p.clients[fd] + a);
    assert(p.clients[fd] + (a + b) =~= (p.clients[fd] + a) + b);
    assert(both.0.clients =~= then.0.clients);
    assert(both.0 =~= then.0);
}

/// An event on the listener calls for accepting, one on a control connection for
/// dropping or draining it, and one on any other descriptor for closing or
/// reading it. What hung up is not read, and nothing is done about an event that
/// says nothing.
pub proof fn law_events_call_for(
    p: Peers,
    listener: int,
    fd: int,
    hangup: bool,
    readable: bool,
)
    ensures
        ({
            let a = action(p, listener, fd, hangup, readable);
            let ctrl = fd != listener && p.ctrl.contains(fd);
            let other = fd != listener && !p.ctrl.contains(fd);
            &&& a == Action::Accept <==> fd == listener
            &&& a == Action::Drop <==> ctrl && hangup
            &&& a == Action::Drain <==> ctrl && !hangup && readable
            &&& a == Action::Close <==> other && hangup
            &&& a == Action::Read <==> other && !hangup && readable
            &&& a == Action::Nothing <==> fd != listener && !hangup && !readable
        }),
{
}

/// A read that brought bytes brought as many as it says. One that brought none
/// ends the client, unless it only had to wait.
pub proof fn law_reads_tell(n: int, would_block: bool, k: usize)
    requires
        n <= isize::MAX,
    ensures
        reading(n, would_block) == (Received::Data { n: k }) <==> n == k && k > 0,
        reading(n, would_block) == Received::Wait <==> n < 0 && would_block,
        reading(n, would_block) == Received::Close <==> n == 0 || n < 0 && !would_block,
{
}

/// A client that has sent bytes is answered what the bytes that were held back
/// for it and these call for, and no other client notices. As many bytes as
/// there is room for are always taken; one more than that, and bytes from a
/// descriptor that is no client's, close the descriptor and change nothing.
pub proof fn law_clients_are_apart(
    p: Peers,
    s: conn::Settings,
    fd: int,
    data: Seq<u8>,
    other: int,
)
    requires
        other != fd,
    ensures
        ({
            let (q, replies, after) = fed(p, s, fd, data);
            let all = conn::served(s, p.clients[fd] + data);
            &&& q.ctrl == p.ctrl
            &&& q.clients.contains_key(other) == p.clients.contains_key(other)
            &&& p.clients.contains_key(other) ==> q.clients[other] == p.clients[other]
            &&& p.clients.contains_key(fd) && data.len() <= room_for(p, fd) ==> {
                &&& q.clients.contains_key(fd)
                &&& q.clients[fd] == all.rest
                &&& replies == all.replies
                &&& after == all.after
            }
            &&& !p.clients.contains_key(fd) || data.len() > room_for(p, fd) ==> {
                &&& q == p
                &&& replies.len() == 0
                &&& after == After::Close
            }
            &&& p.clients.contains_key(fd) ==> room_for(p, fd) + p.clients[fd].len() == 8192
        }),
{
}

/// A descriptor that was taken as a client is one, with all the room there is,
/// and one that was closed is none; a descriptor that was marked is a control
/// connection, and one that was unmarked is none. No other descriptor notices.
pub proof fn law_peers_come_and_go(p: Peers, fd: int, other: int)
    requires
        other != fd,
    ensures
        with_client(p, fd).clients.contains_key(fd),
        room_for(with_client(p, fd), fd) == 8192,
        !without_client(p, fd).clients.contains_key(fd),
        with_ctrl(p, fd).ctrl.contains(fd),
        !without_ctrl(p, fd).ctrl.contains(fd),
        ({
            let qs = seq![
                with_client(p, fd),
                without_client(p, fd),
                with_ctrl(p, fd),
                without_ctrl(p, fd),
            ];
            forall|i: int|
                0 <= i < 4 ==> {
                    &&& (#[trigger] qs[i]).ctrl.contains(other) == p.ctrl.contains(other)
                    &&& qs[i].clients.contains_key(other) == p.clients.contains_key(other)
                    &&& p.clients.contains_key(other) ==> qs[i].clients[other] == p.clients[other]
                    &&& i < 2 ==> qs[i].ctrl == p.ctrl
                    &&& i >= 2 ==> qs[i].clients == p.clients
                }
        }),
{
}

} // verus!
