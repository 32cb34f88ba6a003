//! A multi-reader log with lazy trimming.
//!
//! An [`ObservableQueue`] buffers pushed values for any number of
//! [`Observer`]s. Each observer owns a cursor slot inside the queue and
//! reads at its own pace; a value is buffered only while some live observer
//! has not read past it, and is dropped at the next push or synchronize
//! once every live observer has consumed it. A queue with no live observers
//! buffers nothing at all.
//!
//! An observer handle is a plain token naming its cursor slot: dropping the
//! handle without [`ObservableQueue::unsubscribe`] leaves the slot live, so
//! unsubscribing is how a reader releases its hold on the buffer.

use vstd::prelude::*;

verus! {

/// A read handle into an [`ObservableQueue`]: names one cursor slot, and,
/// when handed out by the scheduler, the event kind it watches.
///
/// The handle is a plain token, not a reference: reads present it to the
/// queue (or scheduler) it came from, and presenting it to a different one
/// reads whatever cursor slot carries the same number there. Keep each
/// handle with the queue that issued it.
pub struct Observer {
    pub(crate) slot: usize,
    pub(crate) kind: u64,
}

impl Observer {
    /// The cursor slot this handle names.
    pub closed spec fn id(&self) -> int {
        self.slot as int
    }

    /// The event kind this handle watches, when it came from a scheduler.
    pub closed spec fn kind_of(&self) -> u64 {
        self.kind
    }

    /// The event kind this handle watches, when it came from a scheduler.
    pub fn kind(&self) -> (r: u64)
        ensures
            r == self.kind_of(),
    {
        self.kind
    }

    /// Re-tags the handle with the event kind it watches.
    pub(crate) fn with_kind(self, kind: u64) -> (r: Observer)
        ensures
            r.id() == self.id(),
            r.kind_of() == kind,
    {
        Observer { slot: self.slot, kind }
    }
}

/// How one publication changes an observable queue: the cursor slots,
/// their liveness and the dead cursors are untouched; with live observers,
/// each of their unread windows is extended by the published value; with
/// no live observer the value is dropped and the whole buffer reclaimed,
/// so nothing stays buffered for a queue nobody watches.
pub open spec fn push_effect<T>(q0: ObservableQueue<T>, q1: ObservableQueue<T>, value: T) -> bool {
    &&& q1.wf()
    &&& q1.num_slots() == q0.num_slots()
    &&& (forall|s: int| 0 <= s < q0.num_slots() ==> q1.slot_live(s) == q0.slot_live(s))
    &&& (!q0.has_live() ==> q1.buffered().len() == 0 && (forall|s: int|
        0 <= s < q0.num_slots() ==> q1.front_of(s) == q0.front_of(s)))
    &&& (forall|s: int|
        0 <= s < q0.num_slots() && q0.slot_live(s) ==> q1.unread(s) =~= q0.unread(s).push(value))
}

/// An append-only buffer shared by independent readers, trimmed to the
/// slowest live reader.
pub struct ObservableQueue<T> {
    items: Vec<T>,
    fronts: Vec<usize>,
    live: Vec<bool>,
}

impl<T> ObservableQueue<T> {
    /// The values currently buffered, oldest first.
    pub closed spec fn buffered(&self) -> Seq<T> {
        self.items@
    }

    /// Number of cursor slots ever subscribed.
    pub closed spec fn num_slots(&self) -> int {
        self.fronts@.len() as int
    }

    /// Whether slot `s` still belongs to a subscribed observer.
    pub closed spec fn slot_live(&self, s: int) -> bool {
        self.live@[s]
    }

    /// Cursor of slot `s`, as an offset into the buffer.
    pub closed spec fn front_of(&self, s: int) -> int {
        self.fronts@[s] as int
    }

    /// The values slot `s` has not read yet, oldest first.
    pub open spec fn unread(&self, s: int) -> Seq<T> {
        self.buffered().subrange(self.front_of(s), self.buffered().len() as int)
    }

    /// `obs` names a live cursor slot of this queue.
    pub open spec fn observes(&self, obs: Observer) -> bool {
        0 <= obs.id() < self.num_slots() && self.slot_live(obs.id())
    }

    /// Some live observer is subscribed.
    pub open spec fn has_live(&self) -> bool {
        exists|s: int| 0 <= s < self.num_slots() && self.slot_live(s)
    }

    pub closed spec fn wf(&self) -> bool {
        &&& self.live@.len() == self.fronts@.len()
        &&& forall|s: int|
            0 <= s < self.fronts@.len() && self.live@[s] ==> (#[trigger] self.fronts@[s])
                <= self.items@.len()
    }

    /// How much of the buffer every live observer has already consumed:
    /// the least live cursor among the first `k` slots, bounded by the
    /// buffer length.
    pub closed spec fn trim_upto(&self, k: int) -> int
        decreases k,
    {
        if k <= 0 {
            self.buffered().len() as int
        } else {
            let rest = self.trim_upto(k - 1);
            if self.slot_live(k - 1) && self.front_of(k - 1) < rest {
                self.front_of(k - 1)
            } else {
                rest
            }
        }
    }

    /// The prefix that the next synchronize drops.
    pub open spec fn trim_amount(&self) -> int {
        self.trim_upto(self.num_slots())
    }

    /// The trim amount never outruns a live cursor or the buffer, and
    /// with no live cursor among the first `k` slots it reclaims the
    /// whole buffer.
    proof fn lemma_trim_bounds(&self, k: int)
        requires
            0 <= k <= self.num_slots(),
        ensures
            0 <= self.trim_upto(k) <= self.buffered().len(),
            forall|s: int|
                0 <= s < k && self.slot_live(s) ==> self.trim_upto(k) <= #[trigger] self.front_of(
                    s,
                ),
            (forall|s: int| 0 <= s < k ==> !self.slot_live(s)) ==> self.trim_upto(k)
                == self.buffered().len(),
        decreases k,
    {
        if k > 0 {
            self.lemma_trim_bounds(k - 1);
        }
    }

    /// Law: how far a synchronize reclaims. The dropped prefix never
    /// reaches past the buffer or past any live cursor — no live observer
    /// loses an unread value — and with no live observer at all it is the
    /// whole buffer: nothing stays buffered for a queue nobody watches.
    pub proof fn lemma_trim_amount_bounds(&self)
        requires
            self.wf(),
        ensures
            0 <= self.trim_amount() <= self.buffered().len(),
            forall|s: int|
                0 <= s < self.num_slots() && self.slot_live(s) ==> self.trim_amount()
                    <= #[trigger] self.front_of(s),
            !self.has_live() ==> self.trim_amount() == self.buffered().len(),
            self.has_live() ==> (exists|s: int|
                0 <= s < self.num_slots() && self.slot_live(s) && self.trim_amount()
                    == #[trigger] self.front_of(s)),
    {
        self.lemma_trim_bounds(self.num_slots());
        if !self.has_live() {
            assert forall|s: int| 0 <= s < self.num_slots() implies !self.slot_live(s) by {
                if self.slot_live(s) {
                    assert(self.has_live());
                }
            }
        } else {
            self.lemma_trim_hits_a_cursor(self.num_slots());
        }
    }

    /// With a live cursor among the first `k` slots, the trim amount is
    /// one of those cursors: the least one, by the bounds above.
    proof fn lemma_trim_hits_a_cursor(&self, k: int)
        requires
            self.wf(),
            0 <= k <= self.num_slots(),
            exists|s: int| 0 <= s < k && self.slot_live(s),
        ensures
            exists|s: int|
                0 <= s < k && self.slot_live(s) && self.trim_upto(k) == #[trigger] self.front_of(
                    s,
                ),
        decreases k,
    {
        let w = choose|s: int| 0 <= s < k && self.slot_live(s);
        if self.slot_live(k - 1) && self.front_of(k - 1) < self.trim_upto(k - 1) {
            assert(self.trim_upto(k) == self.front_of(k - 1));
        } else if exists|s: int| 0 <= s < k - 1 && self.slot_live(s) {
            self.lemma_trim_hits_a_cursor(k - 1);
            let s0 = choose|s: int|
                0 <= s < k - 1 && self.slot_live(s) && self.trim_upto(k - 1)
                    == #[trigger] self.front_of(s);
            assert(self.trim_upto(k) == self.front_of(s0));
        } else {
            // the one live slot is `k - 1`, and its cursor is not below
            // the rest, which with no live slot before it is the whole
            // buffer length; well-formedness caps the cursor there too
            assert(w == k - 1);
            self.lemma_trim_bounds(k - 1);
            assert(self.trim_upto(k - 1) == self.buffered().len());
            assert(self.front_of(k - 1) <= self.buffered().len());
            assert(self.trim_upto(k) == self.front_of(k - 1));
        }
    }

    pub fn new() -> (r: ObservableQueue<T>)
        ensures
            r.wf(),
            r.buffered() =~= Seq::<T>::empty(),
            r.num_slots() == 0,
            !r.has_live(),
    {
        ObservableQueue { items: Vec::new(), fronts: Vec::new(), live: Vec::new() }
    }

    /// Number of values currently buffered.
    pub fn len(&self) -> (r: usize)
        ensures
            r == self.buffered().len(),
    {
        self.items.len()
    }

    /// Whether any live observer is subscribed.
    pub fn has_observers(&self) -> (r: bool)
        requires
            self.wf(),
        ensures
            r == self.has_live(),
    {
        let mut i: usize = 0;
        while i < self.live.len()
            invariant
                self.wf(),
                0 <= i <= self.num_slots(),
                forall|s: int| 0 <= s < i ==> !self.slot_live(s),
            decreases self.num_slots() - i,
        {
            if self.live[i] {
                proof {
                    assert(0 <= (i as int) < self.num_slots() && self.slot_live(i as int));
                }
                return true;
            }
            i = i + 1;
        }
        false
    }

    /// Subscribes a fresh observer. Its cursor starts at the end of the
    /// buffer, so it sees only values pushed after this call.
    pub fn subscribe(&mut self) -> (obs: Observer)
        requires
            old(self).wf(),
        ensures
            final(self).wf(),
            obs.id() == old(self).num_slots(),
            obs.kind_of() == 0,
            final(self).num_slots() == old(self).num_slots() + 1,
            final(self).observes(obs),
            final(self).unread(obs.id()) =~= Seq::<T>::empty(),
            final(self).buffered() == old(self).buffered(),
            forall|s: int|
                0 <= s < old(self).num_slots() ==> final(self).slot_live(s) == old(self).slot_live(s) && final(self).front_of(s) == old(self).front_of(s),
            final(self).has_live(),
    {
        let slot = self.fronts.len();
        self.fronts.push(self.items.len());
        self.live.push(true);
        Observer { slot, kind: 0 }
    }

    /// Releases an observer's cursor slot. The values it held in the buffer
    /// are reclaimed lazily, at the next push or synchronize.
    pub fn unsubscribe(&mut self, obs: Observer)
        requires
            old(self).wf(),
        ensures
            final(self).wf(),
            final(self).buffered() == old(self).buffered(),
            final(self).num_slots() == old(self).num_slots(),
            0 <= obs.id() < old(self).num_slots() ==> !final(self).slot_live(obs.id()),
            forall|s: int|
                0 <= s < old(self).num_slots() && s != obs.id() ==> final(self).slot_live(s)
                    == old(self).slot_live(s) && final(self).front_of(s) == old(self).front_of(s),
    {
        if obs.slot < self.live.len() {
            self.live[obs.slot] = false;
        }
    }

    /// Drops the buffer prefix that every live observer has consumed and
    /// shifts the live cursors accordingly. Dead cursor slots are left
    /// behind; they no longer hold anything in the buffer.
    pub fn synchronize(&mut self)
        requires
            old(self).wf(),
        ensures
            final(self).wf(),
            final(self).num_slots() == old(self).num_slots(),
            forall|s: int|
                0 <= s < old(self).num_slots() ==> final(self).slot_live(s) == old(self).slot_live(s),
            final(self).buffered() == old(self).buffered().subrange(
                old(self).trim_amount(),
                old(self).buffered().len() as int,
            ),
            forall|s: int|
                0 <= s < old(self).num_slots() && old(self).slot_live(s) ==> final(self).unread(s)
                    == old(self).unread(s) && final(self).front_of(s) == old(self).front_of(s)
                    - old(self).trim_amount(),
    {
        // least live cursor, bounded by the buffer length
        let mut m = self.items.len();
        let mut i: usize = 0;
        while i < self.fronts.len()
            invariant
                self.wf(),
                0 <= i <= self.num_slots(),
                m == self.trim_upto(i as int),
            decreases self.num_slots() - i,
        {
            if self.live[i] && self.fronts[i] < m {
                m = self.fronts[i];
            }
            i = i + 1;
        }
        proof {
            self.lemma_trim_bounds(self.num_slots());
        }

        // shift live cursors back by the dropped prefix
        let mut s: usize = 0;
        while s < self.fronts.len()
            invariant
                old(self).wf(),
                0 <= s <= self.num_slots(),
                m == old(self).trim_amount(),
                0 <= m <= old(self).buffered().len(),
                self.items@ == old(self).items@,
                self.live@ == old(self).live@,
                self.fronts@.len() == old(self).fronts@.len(),
                forall|s2: int|
                    0 <= s2 < s && old(self).slot_live(s2) ==> #[trigger] self.fronts@[s2] == old(self).fronts@[s2] - m,
                forall|s2: int|
                    (s <= s2 < self.num_slots() || !old(self).slot_live(s2)) && 0 <= s2
                        < self.num_slots() ==> #[trigger] self.fronts@[s2] == old(self).fronts@[s2],
                forall|s2: int|
                    0 <= s2 < self.num_slots() && old(self).slot_live(s2) ==> m <= #[trigger] old(self).front_of(s2),
            decreases self.num_slots() - s,
        {
            if self.live[s] {
                proof {
                    assert(m <= old(self).front_of(s as int));
                    assert(self.fronts@[s as int] == old(self).fronts@[s as int]);
                }
                let shifted = self.fronts[s] - m;
                self.fronts[s] = shifted;
            }
            s = s + 1;
        }

        // drop the consumed prefix
        let ghost shifted_fronts = self.fronts@;
        let mut dropped: usize = 0;
        while dropped < m
            invariant
                0 <= dropped <= m <= old(self).buffered().len(),
                self.fronts@ == shifted_fronts,
                self.live@ == old(self).live@,
                self.items@ == old(self).items@.subrange(
                    dropped as int,
                    old(self).items@.len() as int,
                ),
            decreases m - dropped,
        {
            let _ = self.items.remove(0);
            proof {
                assert(self.items@ =~= old(self).items@.subrange(
                    dropped + 1 as int,
                    old(self).items@.len() as int,
                ));
            }
            dropped = dropped + 1;
        }
        proof {
            assert forall|s2: int|
                0 <= s2 < old(self).num_slots() && old(self).slot_live(s2) implies final(self).unread(s2) == old(self).unread(s2) by {
                assert(final(self).unread(s2) =~= old(self).unread(s2));
            }
        }
    }

    /// Appends a value for the live observers, then reclaims whatever all
    /// of them have consumed. With no live observer the value is dropped
    /// and the buffer reclaimed outright: nothing stays buffered for a
    /// queue nobody watches.
    pub fn push(&mut self, value: T)
        requires
            old(self).wf(),
        ensures
            final(self).wf(),
            push_effect(*old(self), *final(self), value),
            !old(self).has_live() ==> final(self).buffered().len() == 0 && (forall|s: int|
                0 <= s < old(self).num_slots() ==> final(self).front_of(s) == old(self).front_of(
                    s,
                )),
            final(self).num_slots() == old(self).num_slots(),
            forall|s: int|
                0 <= s < old(self).num_slots() ==> final(self).slot_live(s) == old(self).slot_live(s),
            old(self).has_live() ==> forall|s: int|
                0 <= s < old(self).num_slots() && old(self).slot_live(s) ==> final(self).unread(s)
                    =~= old(self).unread(s).push(value),
    {
        // with no receivers, drop the value and reclaim whatever dead
        // cursors were still holding in the buffer
        if !self.has_observers() {
            self.items.clear();
            proof {
                assert forall|s: int| 0 <= s < self.fronts@.len() implies !self.live@[s] by {
                    if self.live@[s] {
                        assert(0 <= s < old(self).num_slots() && old(self).slot_live(s));
                        assert(old(self).has_live());
                    }
                }
            }
            return ;
        }
        self.items.push(value);
        proof {
            assert forall|s: int|
                0 <= s < self.num_slots() && self.slot_live(s) implies self.unread(s) =~= old(self).unread(s).push(value) by {}
        }
        let ghost mid = *self;
        self.synchronize();
        proof {
            assert forall|s: int|
                0 <= s < old(self).num_slots() && old(self).slot_live(s) implies final(self).unread(s) =~= old(self).unread(s).push(value) by {
                assert(final(self).unread(s) == mid.unread(s));
            }
        }
    }
}

/// A run of publications: `qs` is the trace of queue states and `vs` the
/// values published, with each state obtained from the previous one by
/// one [`push_effect`] publication.
pub open spec fn push_run<T>(qs: Seq<ObservableQueue<T>>, vs: Seq<T>) -> bool {
    &&& qs.len() == vs.len() + 1
    &&& forall|i: int| 0 <= i < vs.len() ==> push_effect(#[trigger] qs[i], qs[i + 1], vs[i])
}

/// Law, first half of the round trip: an observer that subscribes before
/// a run of publications and stays live through it ends with exactly the
/// published values as its unread window, in publication order. Reading
/// then drains that window front to back ([`ObservableQueue::next`]), so
/// the reads return the published values in order and nothing afterwards.
pub proof fn lemma_round_trip<T>(qs: Seq<ObservableQueue<T>>, vs: Seq<T>, s: int)
    requires
        push_run(qs, vs),
        0 <= s < qs[0].num_slots(),
        qs[0].slot_live(s),
        qs[0].unread(s).len() == 0,
    ensures
        qs.last().num_slots() == qs[0].num_slots(),
        qs.last().slot_live(s),
        qs.last().unread(s) =~= vs,
    decreases vs.len(),
{
    if vs.len() == 0 {
        assert(qs.last() == qs[0]);
    } else {
        let qs0 = qs.drop_last();
        let vs0 = vs.drop_last();
        assert(push_run(qs0, vs0)) by {
            assert forall|i: int| 0 <= i < vs0.len() implies push_effect(
                #[trigger] qs0[i],
                qs0[i + 1],
                vs0[i],
            ) by {
                assert(qs0[i] == qs[i] && qs0[i + 1] == qs[i + 1] && vs0[i] == vs[i]);
            }
        }
        lemma_round_trip(qs0, vs0, s);
        assert(push_effect(qs[vs.len() - 1], qs[vs.len() as int], vs[vs.len() - 1]));
        assert(qs0.last() == qs[vs.len() - 1]);
        assert(qs.last() == qs[vs.len() as int]);
        assert(qs.last().unread(s) =~= qs0.last().unread(s).push(vs.last()));
        assert(qs.last().unread(s) =~= vs0.push(vs.last()));
        assert(vs0.push(vs.last()) =~= vs);
    }
}

/// Law, second half of the round trip: draining reads return an unread
/// window front to back. After `j` reads of a window `w` the window is
/// `w` with its first `j` values dropped, so the next read returns
/// `w[j]`; and once everything is read the window is empty, so a further
/// read returns nothing.
pub proof fn lemma_reads_drain<T>(w: Seq<T>, j: int)
    requires
        0 <= j < w.len(),
    ensures
        w.skip(j)[0] == w[j],
        w.skip(j).drop_first() =~= w.skip(j + 1),
        w.skip(w.len() as int).len() == 0,
{
}

impl<T: Clone> ObservableQueue<T> {
    /// Reads the next unread value for `obs`, if there is one, advancing
    /// the observer's cursor past it. Returns nothing, without advancing,
    /// when the observer has read everything, is not live here, or names
    /// no slot of this queue.
    pub fn next(&mut self, obs: &Observer) -> (r: Option<T>)
        requires
            old(self).wf(),
        ensures
            final(self).wf(),
            if old(self).observes(*obs) && old(self).unread(obs.id()).len() > 0 {
                &&& (r matches Some(v) && vstd::pervasive::cloned(
                    old(self).unread(obs.id())[0],
                    v,
                ))
                &&& final(self).unread(obs.id()) == old(self).unread(obs.id()).drop_first()
                &&& final(self).buffered() == old(self).buffered()
                &&& final(self).num_slots() == old(self).num_slots()
                &&& (forall|s: int|
                    0 <= s < old(self).num_slots() ==> final(self).slot_live(s) == old(self).slot_live(s))
                &&& (forall|s: int|
                    0 <= s < old(self).num_slots() && s != obs.id() ==> final(self).front_of(s)
                        == old(self).front_of(s))
            } else {
                r is None && *final(self) == *old(self)
            },
    {
        if obs.slot >= self.fronts.len() {
            return None;
        }
        if !self.live[obs.slot] {
            return None;
        }
        let f = self.fronts[obs.slot];
        if f >= self.items.len() {
            return None;
        }
        let value = self.items[f].clone();
        self.fronts[obs.slot] = f + 1;
        proof {
            assert(final(self).unread(obs.id()) =~= old(self).unread(obs.id()).drop_first());
        }
        Some(value)
    }
}

impl<T> ObservableQueue<T> {
    /// Like [`Self::next`], but hands the value to `transform` under the
    /// buffer's borrow instead of cloning it out.
    pub fn map_next<U, F: Fn(&T) -> U>(&mut self, obs: &Observer, transform: F) -> (r: Option<U>)
        requires
            old(self).wf(),
            forall|t: &T| #[trigger] transform.requires((t,)),
        ensures
            final(self).wf(),
            if old(self).observes(*obs) && old(self).unread(obs.id()).len() > 0 {
                &&& (r matches Some(u) && call_ensures(
                    transform,
                    (&old(self).unread(obs.id())[0],),
                    u,
                ))
                &&& final(self).unread(obs.id()) == old(self).unread(obs.id()).drop_first()
                &&& final(self).buffered() == old(self).buffered()
                &&& final(self).num_slots() == old(self).num_slots()
                &&& (forall|s: int|
                    0 <= s < old(self).num_slots() ==> final(self).slot_live(s) == old(self).slot_live(s))
                &&& (forall|s: int|
                    0 <= s < old(self).num_slots() && s != obs.id() ==> final(self).front_of(s)
                        == old(self).front_of(s))
            } else {
                r is None && *final(self) == *old(self)
            },
    {
        if obs.slot >= self.fronts.len() {
            return None;
        }
        if !self.live[obs.slot] {
            return None;
        }
        let f = self.fronts[obs.slot];
        if f >= self.items.len() {
            return None;
        }
        let mapped = transform(&self.items[f]);
        self.fronts[obs.slot] = f + 1;
        proof {
            assert(final(self).unread(obs.id()) =~= old(self).unread(obs.id()).drop_first());
        }
        Some(mapped)
    }
}

impl<T> Default for ObservableQueue<T> {
    /// An empty queue with no observers.
    fn default() -> (r: Self)
        ensures
            r.wf(),
            r.buffered() =~= Seq::<T>::empty(),
            r.num_slots() == 0,
            !r.has_live(),
    {
        ObservableQueue::new()
    }
}

} // verus!
