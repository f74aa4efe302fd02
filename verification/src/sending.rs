//! Sending a whole message through calls that may send a part of it.
use vstd::prelude::*;

verus! {

/// What to do next about a message.
#[derive(Clone, Copy, PartialEq, Eq, Structural, Debug)]
pub enum Step {
    /// Send what is left.
    Send,
    /// Wait until more can be sent.
    Wait,
    /// Everything is sent.
    Done,
    /// The message cannot be sent.
    Fail,
}

/// How a call failed, where it did.
#[derive(Clone, Copy, PartialEq, Eq, Structural, Debug)]
pub enum Failure {
    WouldBlock,
    Interrupted,
    Other,
}

/// A message of which a part is sent.
pub struct Sending {
    pub sent: usize,
    pub total: usize,
}

/// Whether there is more to send.
pub open spec fn going(sent: int, total: int) -> Step {
    if sent < total {
        Step::Send
    } else {
        Step::Done
    }
}

/// What to do after a call that returned `n`.
pub open spec fn after_send(sent: int, total: int, n: int, why: Failure) -> Step {
    if n > 0 {
        going(sent + n, total)
    } else if n < 0 && why == Failure::WouldBlock {
        Step::Wait
    } else if n < 0 && why == Failure::Interrupted {
        Step::Send
    } else {
        Step::Fail
    }
}

/// What to do after a wait with the result `ready`.
pub open spec fn after_wait(ready: int) -> Step {
    if ready <= 0 {
        Step::Fail
    } else {
        Step::Send
    }
}

/// How much is sent after a call that returned `n`.
pub open spec fn sent_after(sent: int, n: int) -> int {
    if n < 0 {
        sent
    } else {
        sent + n
    }
}

impl Sending {
    pub open spec fn wf(self) -> bool {
        self.sent <= self.total
    }

    /// A message of `total` bytes.
    pub fn new(total: usize) -> (r: (Sending, Step))
        ensures
            r.0.wf(),
            r.0.sent == 0,
            r.0.total == total,
            r.1 == going(0, total as int),
    {
        let step = if total > 0 {
            Step::Send
        } else {
            Step::Done
        };
        (Sending { sent: 0, total }, step)
    }

    /// Takes the result of a call: how many bytes it sent, or how it failed.
    pub fn sent(&mut self, n: isize, why: Failure) -> (r: Step)
        requires
            old(self).wf(),
            n <= old(self).total - old(self).sent,
        ensures
            final(self).wf(),
            final(self).total == old(self).total,
            final(self).sent == (if n > 0 {
                old(self).sent + n
            } else {
                old(self).sent as int
            }),
            r == after_send(old(self).sent as int, old(self).total as int, n as int, why),
            final(self).sent == sent_after(old(self).sent as int, n as int),
            r == Step::Done ==> final(self).sent == final(self).total,
    {
        if n > 0 {
            self.sent = self.sent + n as usize;
            if self.sent < self.total {
                Step::Send
            } else {
                Step::Done
            }
        } else if n < 0 {
            match why {
                Failure::WouldBlock => Step::Wait,
                Failure::Interrupted => Step::Send,
                Failure::Other => Step::Fail,
            }
        } else {
            Step::Fail
        }
    }

    /// Takes the result of a wait: how many descriptors became ready.
    pub fn waited(&self, ready: i32) -> (r: Step)
        ensures
            r == (if ready > 0 {
                Step::Send
            } else {
                Step::Fail
            }),
            r == after_wait(ready as int),
    {
        if ready > 0 {
            Step::Send
        } else {
            Step::Fail
        }
    }
}

/// What is left to send is sent, and nothing else: a message is done exactly if
/// no byte is left, a call that sent something goes on while one is, and one
/// that sent nothing goes on only if it would have blocked, after a wait, or was
/// interrupted.
pub proof fn law_message_is_sent_whole(sent: int, total: int, n: int, why: Failure)
    requires
        0 <= sent <= total,
        n <= total - sent,
    ensures
        going(sent, total) == Step::Done <==> sent == total,
        going(sent, total) == Step::Send <==> sent < total,
        n > 0 ==> (after_send(sent, total, n, why) == Step::Done <==> sent + n == total),
        n > 0 ==> (after_send(sent, total, n, why) == Step::Send <==> sent + n < total),
        n == 0 ==> after_send(sent, total, n, why) == Step::Fail,
        n < 0 && why == Failure::WouldBlock ==> after_send(sent, total, n, why) == Step::Wait,
        n < 0 && why == Failure::Interrupted ==> after_send(sent, total, n, why) == Step::Send,
        n < 0 && why == Failure::Other ==> after_send(sent, total, n, why) == Step::Fail,
        after_wait(n) == Step::Send <==> n > 0,
        after_wait(n) == Step::Fail <==> n <= 0,
{
}

/// A call moves on by as many bytes as it sent, and not at all if it failed.
pub proof fn law_sent_bytes_count(sent: int, n: int)
    ensures
        n >= 0 ==> sent_after(sent, n) - sent == n,
        n < 0 ==> sent_after(sent, n) == sent,
{
}

} // verus!
