//! Handing clients to workers in turn.
use vstd::prelude::*;
use crate::ascii::COMMA;

verus! {

// ---------------------------------------------------------------------------
// Turns
// ---------------------------------------------------------------------------

/// Whose turn it is.
pub struct Turns {
    pub next: u64,
}

impl Turns {
    pub fn new() -> (r: Turns)
        ensures
            r.next == 0,
    {
        Turns { next: 0 }
    }

    /// The worker whose turn it is, out of `n`.
    pub fn take(&mut self, n: usize) -> (r: usize)
        requires
            n > 0,
        ensures
            r == old(self).next as int % n as int,
            final(self).next == (old(self).next + 1) % 0x1_0000_0000_0000_0000,
            r == turn(old(self).next as int, 0, n as int),
            final(self).next == turns_after(old(self).next as int, 1),
    {
        let r = (self.next % n as u64) as usize;
        self.next = self.next.wrapping_add(1);
        r
    }
}

/// The counter after `k` more turns: it has sixty-four bits.
pub open spec fn turns_after(next: int, k: int) -> int {
    (next + k) % 0x1_0000_0000_0000_0000
}

/// Turns go round: until the counter starts over, `n` turns in a row are those of
/// `n` different workers, and the next turn after them is the first worker's
/// again.
pub proof fn law_turns_go_round(next: int, n: int, i: int, j: int)
    requires
        0 < n,
        0 <= next,
        0 <= i < j < n,
        next + n < 0x1_0000_0000_0000_0000,
    ensures
        0 <= turn(turns_after(next, i), 0, n) < n,
        turn(turns_after(next, i), 0, n) != turn(turns_after(next, j), 0, n),
        turn(turns_after(next, n), 0, n) == turn(next, 0, n),
        turns_after(turns_after(next, i), j) == turns_after(next, i + j),
{
    let f = next % n;
    vstd::arithmetic::div_mod::lemma_mod_bound(next, n);
    vstd::arithmetic::div_mod::lemma_fundamental_div_mod(next, n);
    lemma_turn(f, i, n);
    lemma_turn(f, j, n);
    lemma_shift(next, i, n);
    lemma_shift(next, j, n);
    vstd::arithmetic::div_mod::lemma_mod_add_multiples_vanish(next, n);
}

/// Whole rounds do not change whose turn it is.
proof fn lemma_shift(next: int, i: int, n: int)
    requires
        0 < n,
    ensures
        (next + i) % n == turn(next % n, i, n),
        0 <= (next + i) % n < n,
{
    vstd::arithmetic::div_mod::lemma_add_mod_noop(next, i, n);
    vstd::arithmetic::div_mod::lemma_add_mod_noop(next % n, i, n);
    vstd::arithmetic::div_mod::lemma_mod_twice(next, n);
    vstd::arithmetic::div_mod::lemma_mod_bound(next + i, n);
}

/// The worker that is tried after `off` others.
pub open spec fn turn(first: int, off: int, n: int) -> int {
    (first + off) % n
}

/// Going round, every worker comes up exactly once.
pub proof fn law_turns_cover(first: int, n: int, w: int)
    requires
        0 <= first < n,
        0 <= w < n,
    ensures
        exists|off: int| 0 <= off < n && #[trigger] turn(first, off, n) == w,
        forall|a: int, b: int|
            0 <= a < n && 0 <= b < n && #[trigger] turn(first, a, n) == #[trigger] turn(
                first,
                b,
                n,
            ) ==> a == b,
{
    let off = if w >= first {
        w - first
    } else {
        w - first + n
    };
    assert(turn(first, off, n) == w) by {
        lemma_turn(first, off, n);
    }
    assert forall|a: int, b: int|
        0 <= a < n && 0 <= b < n && #[trigger] turn(first, a, n) == #[trigger] turn(
            first,
            b,
            n,
        ) implies a == b by {
        lemma_turn(first, a, n);
        lemma_turn(first, b, n);
    }
}

proof fn lemma_turn(first: int, off: int, n: int)
    requires
        0 <= first < n,
        0 <= off < n,
    ensures
        turn(first, off, n) == if first + off < n {
            first + off
        } else {
            first + off - n
        },
{
    if first + off < n {
        vstd::arithmetic::div_mod::lemma_small_mod((first + off) as nat, n as nat);
    } else {
        vstd::arithmetic::div_mod::lemma_small_mod((first + off - n) as nat, n as nat);
        vstd::arithmetic::div_mod::lemma_mod_add_multiples_vanish(first + off - n, n);
    }
}

// ---------------------------------------------------------------------------
// Handing over
// ---------------------------------------------------------------------------

/// What to do next about a client that is to be handed over.
#[derive(Clone, Copy, PartialEq, Eq, Structural, Debug)]
pub enum Step {
    /// Send it to this worker.
    Send { worker: usize },
    /// Connect to this worker again.
    Connect { worker: usize },
    /// Let go of it: a worker has it, or none takes it.
    Done { taken: bool },
}

/// A client on its way: how many workers have failed, and whether the present
/// one was connected to again.
pub struct Handoff {
    pub first: usize,
    pub n: usize,
    pub off: usize,
    pub again: bool,
}

/// What becomes of a client that the present worker does not take.
pub open spec fn passed_on(h: Handoff) -> (Handoff, Step) {
    if h.off + 1 < h.n {
        let next = Handoff { off: (h.off + 1) as usize, again: false, ..h };
        (next, Step::Send { worker: next.worker() as usize })
    } else {
        (h, Step::Done { taken: false })
    }
}

/// What follows from whether the client was sent.
pub open spec fn after_sent(h: Handoff, ok: bool) -> (Handoff, Step) {
    if ok {
        (h, Step::Done { taken: true })
    } else if h.again {
        passed_on(h)
    } else {
        (h, Step::Connect { worker: h.worker() as usize })
    }
}

/// What follows from whether the worker was connected to again.
pub open spec fn after_connected(h: Handoff, ok: bool) -> (Handoff, Step) {
    if ok {
        (Handoff { again: true, ..h }, Step::Send { worker: h.worker() as usize })
    } else {
        passed_on(h)
    }
}

impl Handoff {
    pub open spec fn wf(self) -> bool {
        &&& self.first < self.n
        &&& self.off < self.n
        &&& self.first + self.n <= usize::MAX
    }

    pub open spec fn worker(self) -> int {
        turn(self.first as int, self.off as int, self.n as int)
    }

    fn current(&self) -> (r: usize)
        requires
            self.wf(),
        ensures
            r == self.worker(),
            r < self.n,
    {
        (self.first + self.off) % self.n
    }

    /// Starts with the worker `first` of `n`.
    pub fn new(first: usize, n: usize) -> (r: (Handoff, Step))
        requires
            first < n,
            first + n <= usize::MAX,
        ensures
            r.0.wf(),
            r.0 == (Handoff { first, n, off: 0, again: false }),
            r.1 == (Step::Send { worker: first }),
    {
        let h = Handoff { first, n, off: 0, again: false };
        let worker = h.current();
        proof {
            lemma_turn(first as int, 0, n as int);
        }
        (h, Step::Send { worker })
    }

    /// The next worker's turn, or the end.
    fn give_up(&mut self) -> (r: Step)
        requires
            old(self).wf(),
        ensures
            final(self).wf(),
            final(self).first == old(self).first,
            final(self).n == old(self).n,
            if old(self).off + 1 < old(self).n {
                &&& final(self).off == old(self).off + 1
                &&& !final(self).again
                &&& r == (Step::Send { worker: final(self).worker() as usize })
            } else {
                &&& *final(self) == *old(self)
                &&& r == (Step::Done { taken: false })
            },
    {
        if self.off + 1 < self.n {
            self.off = self.off + 1;
            self.again = false;
            let worker = self.current();
            Step::Send { worker }
        } else {
            Step::Done { taken: false }
        }
    }

    /// Takes whether the client was sent. A worker that fails is connected to
    /// again, once; the second time the next one is tried.
    pub fn sent(&mut self, ok: bool) -> (r: Step)
        requires
            old(self).wf(),
        ensures
            final(self).wf(),
            final(self).first == old(self).first,
            final(self).n == old(self).n,
            (*final(self), r) == after_sent(*old(self), ok),
            if ok {
                &&& *final(self) == *old(self)
                &&& r == (Step::Done { taken: true })
            } else if !old(self).again {
                &&& *final(self) == *old(self)
                &&& r == (Step::Connect { worker: old(self).worker() as usize })
            } else if old(self).off + 1 < old(self).n {
                &&& final(self).off == old(self).off + 1
                &&& !final(self).again
                &&& r == (Step::Send { worker: final(self).worker() as usize })
            } else {
                &&& *final(self) == *old(self)
                &&& r == (Step::Done { taken: false })
            },
    {
        if ok {
            Step::Done { taken: true }
        } else if !self.again {
            let worker = self.current();
            Step::Connect { worker }
        } else {
            self.give_up()
        }
    }

    /// Takes whether the worker was connected to again. If not, the next one is
    /// tried.
    pub fn connected(&mut self, ok: bool) -> (r: Step)
        requires
            old(self).wf(),
        ensures
            final(self).wf(),
            final(self).first == old(self).first,
            final(self).n == old(self).n,
            (*final(self), r) == after_connected(*old(self), ok),
            if ok {
                &&& final(self).off == old(self).off
                &&& final(self).again
                &&& r == (Step::Send { worker: old(self).worker() as usize })
            } else if old(self).off + 1 < old(self).n {
                &&& final(self).off == old(self).off + 1
                &&& !final(self).again
                &&& r == (Step::Send { worker: final(self).worker() as usize })
            } else {
                &&& *final(self) == *old(self)
                &&& r == (Step::Done { taken: false })
            },
    {
        if ok {
            self.again = true;
            let worker = self.current();
            Step::Send { worker }
        } else {
            self.give_up()
        }
    }
}

/// How far a client has come: two tries for each worker.
pub open spec fn tries(h: Handoff) -> int {
    2 * h.off + if h.again {
        1int
    } else {
        0
    }
}

/// A client is handed over once and no more: it is taken exactly if it was sent.
/// Every worker gets two tries, the second one after it was connected to again,
/// and every one of them has failed before a client is let go.
pub proof fn law_handoff_tries_all(h: Handoff, ok: bool)
    requires
        h.wf(),
    ensures
        ({
            let (a, s) = after_sent(h, ok);
            let (b, t) = after_connected(h, ok);
            &&& a.wf() && b.wf()
            &&& a.first == h.first && a.n == h.n && b.first == h.first && b.n == h.n
            &&& s == (Step::Done { taken: true }) <==> ok
            &&& s is Connect <==> !ok && !h.again
            &&& s matches Step::Connect { worker } ==> worker == h.worker() && a == h
            &&& s is Send ==> tries(a) == tries(h) + 1 && a.off == h.off + 1
            &&& s == (Step::Done { taken: false }) <==> !ok && h.again && h.off == h.n - 1
            &&& t != (Step::Done { taken: true })
            &&& t == (Step::Done { taken: false }) <==> !ok && h.off == h.n - 1
            &&& ok ==> b.off == h.off && b.again
            &&& t is Send && !ok ==> b.off == h.off + 1 && !b.again
            &&& s matches Step::Send { worker } ==> worker == a.worker()
            &&& t matches Step::Send { worker } ==> worker == b.worker()
        }),
{
    lemma_turn(h.first as int, h.off as int, h.n as int);
    if h.off + 1 < h.n {
        lemma_turn(h.first as int, h.off + 1, h.n as int);
    }
}

// ---------------------------------------------------------------------------
// Slots
// ---------------------------------------------------------------------------

/// Things on their way, by the number of their slot. Slots are used again.
pub struct SendSlab<T> {
    slots: Vec<Option<T>>,
    free: Vec<usize>,
}

impl<T> View for SendSlab<T> {
    type V = Map<int, T>;

    closed spec fn view(&self) -> Map<int, T> {
        Map::new(
            |i: int| 0 <= i < self.slots@.len() && self.slots@[i] is Some,
            |i: int| self.slots@[i]->0,
        )
    }
}

impl<T> SendSlab<T> {
    /// The slots that hold nothing, the one that was freed last at the end.
    pub closed spec fn free_slots(&self) -> Seq<usize> {
        self.free@
    }

    /// How many slots there are.
    pub closed spec fn slot_count(&self) -> nat {
        self.slots@.len()
    }

    /// The free slots are those that are empty, and none is listed twice.
    pub closed spec fn wf(&self) -> bool {
        &&& forall|j: int|
            0 <= j < self.free@.len() ==> (#[trigger] self.free@[j]) < self.slots@.len()
                && self.slots@[self.free@[j] as int] is None
        &&& forall|i: int|
            0 <= i < self.slots@.len() && (#[trigger] self.slots@[i]) is None
                ==> self.free@.contains(i as usize)
        &&& self.free@.no_duplicates()
    }

    pub fn new() -> (r: SendSlab<T>)
        ensures
            r.wf(),
            r@ == Map::<int, T>::empty(),
            r.free_slots() == Seq::<usize>::empty(),
            r.slot_count() == 0,
    {
        let r = SendSlab { slots: Vec::new(), free: Vec::new() };
        assert(r@ =~= Map::<int, T>::empty());
        r
    }

    /// Puts `s` into the slot that was freed last, or into a new one if none is
    /// free.
    pub fn put(&mut self, s: T) -> (i: usize)
        requires
            old(self).wf(),
        ensures
            final(self).wf(),
            !old(self)@.contains_key(i as int),
            final(self)@ == old(self)@.insert(i as int, s),
            old(self).free_slots().len() > 0 ==> {
                &&& i == old(self).free_slots().last()
                &&& final(self).free_slots() == old(self).free_slots().drop_last()
                &&& final(self).slot_count() == old(self).slot_count()
            },
            old(self).free_slots().len() == 0 ==> {
                &&& i == old(self).slot_count()
                &&& final(self).free_slots() == old(self).free_slots()
                &&& final(self).slot_count() == old(self).slot_count() + 1
            },
    {
        let ghost before = *self;
        match self.free.pop() {
            Some(i) => {
                assert(before.free@[before.free@.len() - 1] == i);
                self.slots.set(i, Some(s));
                assert forall|j: int| 0 <= j < self.free@.len() implies (#[trigger] self.free@[j])
                    < self.slots@.len() && self.slots@[self.free@[j] as int] is None by {
                    assert(self.free@[j] == before.free@[j]);
                }
                assert forall|m: int|
                    0 <= m < self.slots@.len() && (#[trigger] self.slots@[m]) is None implies self.free@.contains(
                    m as usize,
                ) by {
                    assert(m != i);
                    assert(before.slots@[m] is None);
                    assert(before.free@.contains(m as usize));
                    let j = choose|j: int|
                        0 <= j < before.free@.len() && before.free@[j] == m as usize;
                    assert(self.slots.len() == self.slots@.len());
                    assert(j != before.free@.len() - 1);
                    assert(self.free@[j] == m as usize);
                }
                assert(self@ =~= before@.insert(i as int, s));
                i
            },
            None => {
                let i = self.slots.len();
                self.slots.push(Some(s));
                assert forall|m: int|
                    0 <= m < self.slots@.len() && (#[trigger] self.slots@[m]) is None implies self.free@.contains(
                    m as usize,
                ) by {
                    assert(before.slots@[m] is None);
                }
                assert(self@ =~= before@.insert(i as int, s));
                i
            },
        }
    }

    /// Takes what slot `i` holds, if it holds anything, and frees the slot.
    pub fn take(&mut self, i: usize) -> (r: Option<T>)
        requires
            old(self).wf(),
        ensures
            final(self).wf(),
            r == (if old(self)@.contains_key(i as int) {
                Some(old(self)@[i as int])
            } else {
                None
            }),
            final(self)@ == old(self)@.remove(i as int),
            final(self).free_slots() == (if old(self)@.contains_key(i as int) {
                old(self).free_slots().push(i)
            } else {
                old(self).free_slots()
            }),
            final(self).slot_count() == old(self).slot_count(),
    {
        let ghost before = *self;
        if i >= self.slots.len() {
            assert(self@ =~= before@.remove(i as int));
            return None;
        }
        let r = self.slots[i].take();
        if r.is_some() {
            self.free.push(i);
            assert forall|j: int| 0 <= j < self.free@.len() implies (#[trigger] self.free@[j])
                < self.slots@.len() && self.slots@[self.free@[j] as int] is None by {
                if j < before.free@.len() {
                    assert(self.free@[j] == before.free@[j]);
                }
            }
            assert forall|a: int, b: int|
                0 <= a < self.free@.len() && 0 <= b < self.free@.len() && a != b implies self.free@[a]
                != self.free@[b] by {
                if a < before.free@.len() {
                    assert(before.slots@[before.free@[a] as int] is None);
                }
                if b < before.free@.len() {
                    assert(before.slots@[before.free@[b] as int] is None);
                }
            }
            assert(self.free@[before.free@.len() as int] == i);
        }
        assert forall|m: int|
            0 <= m < self.slots@.len() && (#[trigger] self.slots@[m]) is None implies self.free@.contains(
            m as usize,
        ) by {
            if m != i {
                assert(before.slots@[m] is None);
                let j = choose|j: int| 0 <= j < before.free@.len() && before.free@[j] == m as usize;
                assert(self.free@[j] == m as usize);
            }
        }
        assert(self@ =~= before@.remove(i as int));
        r
    }
}

/// Every slot holds something or is free, and no slot does both.
pub proof fn law_slots_are_held_or_free<T>(slab: SendSlab<T>, i: usize)
    requires
        slab.wf(),
    ensures
        slab@.contains_key(i as int) ==> i < slab.slot_count() && !slab.free_slots().contains(i),
        slab.free_slots().contains(i) ==> i < slab.slot_count(),
        i < slab.slot_count() ==> slab@.contains_key(i as int) || slab.free_slots().contains(i),
        slab.free_slots().no_duplicates(),
{
    if slab.free@.contains(i) {
        let j = choose|j: int| 0 <= j < slab.free@.len() && slab.free@[j] == i;
        assert(slab.slots@[slab.free@[j] as int] is None);
    }
    if i < slab.slots@.len() && slab.slots@[i as int] is None {
        assert(slab.free@.contains(i));
    }
}

/// What was put into a slot that held nothing comes out again, and leaves the
/// others as they were.
pub proof fn law_slot_round_trip<T>(slab: Map<int, T>, i: int, s: T)
    requires
        !slab.contains_key(i),
    ensures
        slab.insert(i, s)[i] == s,
        slab.insert(i, s).remove(i) == slab,
{
    assert(slab.insert(i, s).remove(i) =~= slab);
}

// ---------------------------------------------------------------------------
// Lists of workers
// ---------------------------------------------------------------------------

/// The parts of `text` between commas, from `at` on.
pub open spec fn parts(text: Seq<u8>, at: int) -> Seq<Seq<u8>>
    decreases text.len() - at,
{
    let q = comma(text, at);
    if at < 0 || q >= text.len() {
        seq![text.subrange(at, text.len() as int)]
    } else {
        proof {
            lemma_comma(text, at);
        }
        seq![text.subrange(at, q)] + parts(text, q + 1)
    }
}

/// The first comma from `at` on, or the end.
pub open spec fn comma(text: Seq<u8>, at: int) -> int
    decreases text.len() - at,
{
    if at >= text.len() || text[at] == COMMA {
        at
    } else {
        comma(text, at + 1)
    }
}

pub proof fn lemma_comma(text: Seq<u8>, at: int)
    requires
        0 <= at <= text.len(),
    ensures
        at <= comma(text, at) <= text.len(),
    decreases text.len() - at,
{
    if at < text.len() && text[at] != COMMA {
        lemma_comma(text, at + 1);
    }
}

/// The parts, with a comma between any two.
pub open spec fn joined(ps: Seq<Seq<u8>>) -> Seq<u8>
    decreases ps.len(),
{
    if ps.len() == 0 {
        Seq::empty()
    } else if ps.len() == 1 {
        ps[0]
    } else {
        ps[0].push(COMMA) + joined(ps.drop_first())
    }
}

/// Nothing is lost between the parts of a list but the commas.
pub proof fn law_parts_join(text: Seq<u8>, at: int)
    requires
        0 <= at <= text.len(),
    ensures
        parts(text, at).len() > 0,
        joined(parts(text, at)) == text.subrange(at, text.len() as int),
    decreases text.len() - at,
{
    lemma_comma(text, at);
    let q = comma(text, at);
    if q < text.len() {
        law_parts_join(text, q + 1);
        lemma_comma_is(text, at);
        let rest = parts(text, q + 1);
        let ps = parts(text, at);
        assert(ps.drop_first() =~= rest);
        assert(text.subrange(at, q).push(COMMA) + text.subrange(q + 1, text.len() as int)
            =~= text.subrange(at, text.len() as int));
    }
}

proof fn lemma_comma_is(text: Seq<u8>, at: int)
    requires
        0 <= at,
        comma(text, at) < text.len(),
    ensures
        text[comma(text, at)] == COMMA,
    decreases text.len() - at,
{
    if text[at] != COMMA {
        lemma_comma_is(text, at + 1);
    }
}

/// Where the parts of a list begin and end.
pub fn split_list(text: &[u8]) -> (r: Vec<(usize, usize)>)
    ensures
        forall|i: int| 0 <= i < r@.len() ==> (#[trigger] r@[i]).0 <= r@[i].1 <= text@.len(),
        Seq::new(
            r@.len(),
            |i: int| text@.subrange(r@[i].0 as int, r@[i].1 as int),
        ) == parts(text@, 0),
{
    let mut r: Vec<(usize, usize)> = Vec::new();
    let mut at: usize = 0;
    let mut p: usize = 0;
    let ghost cut = |s: Seq<(usize, usize)>|
        Seq::new(s.len(), |i: int| text@.subrange(s[i].0 as int, s[i].1 as int));
    while p < text.len()
        invariant
            at <= p <= text@.len(),
            comma(text@, p as int) == comma(text@, at as int),
            forall|i: int| 0 <= i < r@.len() ==> (#[trigger] r@[i]).0 <= r@[i].1 <= text@.len(),
            cut == (|s: Seq<(usize, usize)>|
                Seq::new(s.len(), |i: int| text@.subrange(s[i].0 as int, s[i].1 as int))),
            cut(r@) + parts(text@, at as int) == parts(text@, 0),
        decreases text@.len() - p,
    {
        if text[p] == COMMA {
            let ghost before = r@;
            let ghost rest = parts(text@, p + 1);
            let ghost part = text@.subrange(at as int, p as int);
            r.push((at, p));
            assert(cut(r@) =~= cut(before).push(part));
            assert(cut(before) + (seq![part] + rest) =~= cut(r@) + rest);
            at = p + 1;
        }
        p = p + 1;
    }
    let ghost before = r@;
    let ghost part = text@.subrange(at as int, text@.len() as int);
    r.push((at, p));
    assert(cut(r@) =~= cut(before) + seq![part]);
    r
}

/// No part of a list has a comma in it.
pub proof fn law_parts_have_no_comma(text: Seq<u8>, at: int, i: int, j: int)
    requires
        0 <= at <= text.len(),
        0 <= i < parts(text, at).len(),
        0 <= j < parts(text, at)[i].len(),
    ensures
        parts(text, at)[i][j] != COMMA,
    decreases text.len() - at,
{
    lemma_comma(text, at);
    let q = comma(text, at);
    lemma_before_comma(text, at);
    if q < text.len() && i > 0 {
        assert(parts(text, at)[i] == parts(text, q + 1)[i - 1]);
        law_parts_have_no_comma(text, q + 1, i - 1, j);
    } else {
        assert(parts(text, at)[i][j] == text[at + j]);
    }
}

proof fn lemma_before_comma(text: Seq<u8>, at: int)
    requires
        0 <= at,
    ensures
        forall|j: int| at <= j < comma(text, at) && j < text.len() ==> #[trigger] text[j] != COMMA,
    decreases text.len() - at,
{
    if at < text.len() && text[at] != COMMA {
        lemma_before_comma(text, at + 1);
    }
}

proof fn lemma_comma_at(text: Seq<u8>, at: int, q: int)
    requires
        0 <= at <= q <= text.len(),
        forall|j: int| at <= j < q ==> #[trigger] text[j] != COMMA,
        q == text.len() || text[q] == COMMA,
    ensures
        comma(text, at) == q,
    decreases q - at,
{
    if at < q {
        lemma_comma_at(text, at + 1, q);
    }
}

proof fn lemma_parts_at(text: Seq<u8>, at: int, ps: Seq<Seq<u8>>)
    requires
        0 <= at <= text.len(),
        ps.len() > 0,
        forall|i: int, j: int|
            0 <= i < ps.len() && 0 <= j < ps[i].len() ==> #[trigger] ps[i][j] != COMMA,
        text.subrange(at, text.len() as int) == joined(ps),
    ensures
        parts(text, at) == ps,
    decreases ps.len(),
{
    let rest = text.subrange(at, text.len() as int);
    let p = ps[0];
    let q = at + p.len();
    let others = ps.drop_first();
    assert(rest == joined(ps));
    assert(rest.len() == text.len() - at && p.len() <= rest.len());
    assert(p =~= rest.take(p.len() as int));
    assert forall|j: int| at <= j < q implies #[trigger] text[j] != COMMA by {
        assert(text[j] == rest[j - at]);
        assert(rest.take(p.len() as int)[j - at] == p[j - at]);
        assert(ps[0][j - at] != COMMA);
    }
    if ps.len() == 1 {
        lemma_comma_at(text, at, q);
        assert(parts(text, at) =~= ps);
    } else {
        assert(rest[p.len() as int] == COMMA);
        assert(text[q] == COMMA);
        lemma_comma_at(text, at, q);
        assert(text.subrange(q + 1, text.len() as int) =~= joined(others)) by {
            assert(rest.skip(q + 1 - at) =~= joined(others));
            assert(text.subrange(q + 1, text.len() as int) =~= rest.skip(q + 1 - at));
        }
        assert forall|i: int, j: int|
            0 <= i < others.len() && 0 <= j < others[i].len() implies #[trigger] others[i][j]
            != COMMA by {
            assert(others[i] == ps[i + 1]);
            assert(ps[i + 1][j] != COMMA);
        }
        lemma_parts_at(text, q + 1, others);
        assert(text.subrange(at, q) =~= p);
        assert(parts(text, at) =~= ps);
    }
}

/// Texts without a comma that were joined by commas are the parts of the list.
pub proof fn law_joined_parts(ps: Seq<Seq<u8>>)
    requires
        ps.len() > 0,
        forall|i: int, j: int|
            0 <= i < ps.len() && 0 <= j < ps[i].len() ==> #[trigger] ps[i][j] != COMMA,
    ensures
        parts(joined(ps), 0) == ps,
{
    let text = joined(ps);
    assert(text.subrange(0, text.len() as int) =~= text);
    lemma_parts_at(text, 0, ps);
}

} // verus!
