//! A turn-based event scheduler.
//!
//! The scheduler owns a queue of epochs: batches of events that are
//! dispatched together in one [`Scheduler::step`]. Each event carries a
//! caller-chosen kind tag, and a registry keyed by those tags holds one
//! priority-ordered handler chain and one [`ObservableQueue`] per kind.
//! Handlers may stage follow-up events through a [`SchedulerContext`]:
//! immediate ones together form the very next epoch, delayed ones are
//! appended at the tail, one epoch each. An event that runs its whole
//! chain without a [`EventError::Break`] is published to its kind's
//! observable queue; a broken one is dropped and never observed.

use crate::observer::ObservableQueue;
use crate::observer::Observer;
use vstd::prelude::*;

verus! {

/// Control signal a handler returns to stop or soft-skip its chain.
/// `Break` aborts the rest of the chain and suppresses publication;
/// `Continue` declines to act and lets the chain proceed, exactly like
/// a plain success.
#[derive(Clone, Copy, Debug, PartialEq, Eq, Structural)]
pub enum EventError {
    Break,
    Continue,
}

/// What a handler returns.
pub type EventResult = Result<(), EventError>;

/// Older name of [`EventError`], kept for hosts that still use it.
pub type CommandError = EventError;

/// One queued or staged event, with the kind tag captured when it was
/// sent. The tag is fixed at send time, so an event is only ever routed
/// to the chain and the observers of the kind it was sent under.
pub struct ScheduledEvent<E> {
    pub kind: u64,
    pub event: E,
}

/// Tags each event of `events` with `kind`, in order.
pub open spec fn tag_events<E>(kind: u64, events: Seq<E>) -> Seq<ScheduledEvent<E>> {
    events.map_values(|e: E| ScheduledEvent { kind, event: e })
}

/// The staging buffers that handlers use to emit follow-up events during
/// dispatch. Everything staged as immediate during one epoch becomes the
/// very next epoch; everything staged as delayed becomes one new epoch
/// per event at the tail of the queue.
pub struct SchedulerContext<E> {
    immediate: Vec<ScheduledEvent<E>>,
    delayed: Vec<ScheduledEvent<E>>,
}

/// Older name of [`SchedulerContext`], kept for hosts that still use it.
pub type Sender<E> = SchedulerContext<E>;

impl<E> SchedulerContext<E> {
    /// The events staged for the next epoch, in staging order.
    pub closed spec fn staged_immediate(&self) -> Seq<ScheduledEvent<E>> {
        self.immediate@
    }

    /// The events staged as their own later epochs, in staging order.
    pub closed spec fn staged_delayed(&self) -> Seq<ScheduledEvent<E>> {
        self.delayed@
    }

    fn new() -> (r: SchedulerContext<E>)
        ensures
            r.staged_immediate() =~= Seq::<ScheduledEvent<E>>::empty(),
            r.staged_delayed() =~= Seq::<ScheduledEvent<E>>::empty(),
    {
        SchedulerContext { immediate: Vec::new(), delayed: Vec::new() }
    }

    /// Schedule an event for immediate execution. All events staged so
    /// during the same epoch are executed together in the next epoch,
    /// regardless of their kind.
    pub fn send_immediate(&mut self, kind: u64, event: E)
        ensures
            final(self).staged_immediate() == old(self).staged_immediate().push(
                ScheduledEvent { kind, event },
            ),
            final(self).staged_delayed() == old(self).staged_delayed(),
    {
        self.immediate.push(ScheduledEvent { kind, event });
    }

    /// Schedule an event for delayed execution: it will form its own epoch
    /// at the tail of the queue.
    pub fn send_delayed(&mut self, kind: u64, event: E)
        ensures
            final(self).staged_delayed() == old(self).staged_delayed().push(
                ScheduledEvent { kind, event },
            ),
            final(self).staged_immediate() == old(self).staged_immediate(),
    {
        self.delayed.push(ScheduledEvent { kind, event });
    }

    /// Hands back everything staged so far, leaving the buffers empty.
    fn take_staged(&mut self) -> (r: (Vec<ScheduledEvent<E>>, Vec<ScheduledEvent<E>>))
        ensures
            r.0@ == old(self).staged_immediate(),
            r.1@ == old(self).staged_delayed(),
            final(self).staged_immediate() =~= Seq::<ScheduledEvent<E>>::empty(),
            final(self).staged_delayed() =~= Seq::<ScheduledEvent<E>>::empty(),
    {
        let mut imm: Vec<ScheduledEvent<E>> = Vec::new();
        let mut del: Vec<ScheduledEvent<E>> = Vec::new();
        core::mem::swap(&mut imm, &mut self.immediate);
        core::mem::swap(&mut del, &mut self.delayed);
        (imm, del)
    }

    /// Older name of [`Self::send_immediate`].
    pub fn send(&mut self, kind: u64, event: E)
        ensures
            final(self).staged_immediate() == old(self).staged_immediate().push(
                ScheduledEvent { kind, event },
            ),
            final(self).staged_delayed() == old(self).staged_delayed(),
    {
        self.send_immediate(kind, event);
    }
}

/// The event, world and staging buffers at one point of a dispatch: what
/// a handler is invoked on, and what it leaves behind for the next one.
pub struct DispatchState<E, W> {
    pub event: E,
    pub world: W,
    pub immediate: Seq<ScheduledEvent<E>>,
    pub delayed: Seq<ScheduledEvent<E>>,
}

/// A handler for events of one kind, in canonical three-argument form:
/// it receives the event, the world, and a staging context. Host handler
/// types implement this; an enum of handlers dispatches on itself to play
/// several roles in one scheduler.
///
/// Two obligations bind every implementation: it only appends to the
/// staging buffers — the scheduler's epoch bookkeeping relies on staged
/// events never being reordered or withdrawn — and each call is admitted
/// by the implementation's own [`Self::handle_rel`], which is how the
/// scheduler's dispatch contract hands a host back the behavior of its
/// handlers.
pub trait EventHandler<E, W> {
    /// What one invocation of this handler may do: relates the state
    /// handed to the handler to the state it leaves and the signal it
    /// returns. An implementation chooses how precisely to describe
    /// itself here; the scheduler's dispatch trace is stated over this
    /// relation, so whatever it pins down carries through to
    /// [`Scheduler::step`]'s contract.
    spec fn handle_rel(&self, pre: DispatchState<E, W>, post: DispatchState<E, W>, r: EventResult) -> bool;

    /// Handle one event. `Ok` and `Err(Continue)` let the chain proceed;
    /// `Err(Break)` aborts the rest of the chain and keeps the event out
    /// of the observable queue.
    fn handle(&self, event: &mut E, world: &mut W, context: &mut SchedulerContext<E>) -> (r:
        EventResult)
        ensures
            old(context).staged_immediate().is_prefix_of(final(context).staged_immediate()),
            old(context).staged_delayed().is_prefix_of(final(context).staged_delayed()),
            self.handle_rel(
                (DispatchState {
                    event: *old(event),
                    world: *old(world),
                    immediate: old(context).staged_immediate(),
                    delayed: old(context).staged_delayed(),
                }),
                (DispatchState {
                    event: *final(event),
                    world: *final(world),
                    immediate: final(context).staged_immediate(),
                    delayed: final(context).staged_delayed(),
                }),
                r,
            ),
    ;
}

/// One handler chain entry: the handler and the priority it registered
/// under. Lower priorities run earlier.
pub struct HandlerEntry<H> {
    pub priority: i32,
    pub handler: H,
}

/// A chain is kept ordered by priority, ascending.
pub open spec fn chain_sorted<H>(chain: Seq<HandlerEntry<H>>) -> bool {
    forall|i: int, j: int|
        0 <= i <= j < chain.len() ==> #[trigger] chain[i].priority <= #[trigger] chain[j].priority
}

/// The chain stopped early on a `Break`: the last signal of the run.
pub open spec fn chain_broke(results: Seq<EventResult>) -> bool {
    results.len() > 0 && results.last() == Err::<(), EventError>(EventError::Break)
}

/// One run of a handler chain over one event. `trace[0]` is the state
/// handed to the first handler; each later state is what one handler
/// left, admitted by that entry's [`EventHandler::handle_rel`] and
/// append-only in its staging; `results[k]` is entry `k`'s signal. Only
/// the last signal may be a `Break`, and only a `Break` cuts the run
/// short of the whole chain: handlers run once each, in chain order, on
/// the event as the previous one left it.
pub open spec fn chain_run<E, W, H: EventHandler<E, W>>(
    chain: Seq<HandlerEntry<H>>,
    trace: Seq<DispatchState<E, W>>,
    results: Seq<EventResult>,
) -> bool {
    &&& trace.len() == results.len() + 1
    &&& results.len() <= chain.len()
    &&& (forall|k: int|
        0 <= k < results.len() ==> (#[trigger] chain[k].handler).handle_rel(
            trace[k],
            trace[k + 1],
            results[k],
        ))
    &&& (forall|k: int|
        0 <= k < results.len() ==> (#[trigger] trace[k]).immediate.is_prefix_of(
            trace[k + 1].immediate,
        ) && trace[k].delayed.is_prefix_of(trace[k + 1].delayed))
    &&& (forall|k: int|
        0 <= k < results.len() - 1 ==> (#[trigger] results[k]) != Err::<(), EventError>(
            EventError::Break,
        ))
    &&& (results.len() < chain.len() ==> chain_broke(results))
}

/// The registry entry for one event kind: its handler chain and the
/// observable queue its processed events are published to.
struct HandlerSet<E, H> {
    kind: u64,
    handlers: Vec<HandlerEntry<H>>,
    observable: ObservableQueue<E>,
}

/// Routes events, grouped into epochs, through per-kind handler chains.
pub struct Scheduler<E, H> {
    registry: Vec<HandlerSet<E, H>>,
    queue: Vec<Vec<ScheduledEvent<E>>>,
    sender: SchedulerContext<E>,
}

impl<E, H> Scheduler<E, H> {
    /// The pending epochs, front first. Each epoch is a batch of tagged
    /// events dispatched together by one step.
    pub closed spec fn epochs(&self) -> Seq<Seq<ScheduledEvent<E>>> {
        Seq::new(self.queue@.len(), |i: int| self.queue@[i]@)
    }

    /// A registry entry for `kind` exists.
    pub closed spec fn registered(&self, kind: u64) -> bool {
        exists|i: int| 0 <= i < self.registry@.len() && (#[trigger] self.registry@[i]).kind == kind
    }

    spec fn kind_index(&self, kind: u64) -> int {
        choose|i: int| 0 <= i < self.registry@.len() && (#[trigger] self.registry@[i]).kind == kind
    }

    /// The handler chain registered for `kind`, in execution order.
    pub closed spec fn chain(&self, kind: u64) -> Seq<HandlerEntry<H>> {
        self.registry@[self.kind_index(kind)].handlers@
    }

    /// The observable queue that processed events of `kind` are published
    /// to.
    pub closed spec fn log(&self, kind: u64) -> ObservableQueue<E> {
        self.registry@[self.kind_index(kind)].observable
    }

    /// After one registry entry's observable queue is operated on in
    /// place, every registry observation is as before, except possibly
    /// that entry's log.
    proof fn lemma_entry_log_update(&self, pre: Scheduler<E, H>, i: int)
        requires
            pre.kinds_unique(),
            self.registry@.len() == pre.registry@.len(),
            0 <= i < pre.registry@.len(),
            forall|j: int|
                0 <= j < pre.registry@.len() && j != i ==> #[trigger] self.registry@[j]
                    == pre.registry@[j],
            self.registry@[i].kind == pre.registry@[i].kind,
            self.registry@[i].handlers == pre.registry@[i].handlers,
        ensures
            self.kinds_unique(),
            forall|k: u64| self.registered(k) == pre.registered(k),
            forall|k: u64|
                #[trigger] pre.registered(k) ==> self.kind_index(k) == pre.kind_index(k)
                    && self.chain(k) == pre.chain(k),
            forall|k: u64|
                pre.registered(k) && k != pre.registry@[i].kind ==> self.log(k) == pre.log(k),
            self.registered(pre.registry@[i].kind),
            self.kind_index(pre.registry@[i].kind) == i,
            self.log(pre.registry@[i].kind) == self.registry@[i].observable,
    {
        assert forall|j1: int, j2: int|
            0 <= j1 < j2 < self.registry@.len() implies (#[trigger] self.registry@[j1]).kind != (
        #[trigger] self.registry@[j2]).kind by {
            assert(self.registry@[j1].kind == pre.registry@[j1].kind);
            assert(self.registry@[j2].kind == pre.registry@[j2].kind);
        }
        self.lemma_kind_index_unique(pre.registry@[i].kind, i);
        assert forall|k: u64| #[trigger] pre.registered(k) implies self.registered(k)
            && self.kind_index(k) == pre.kind_index(k) && self.chain(k) == pre.chain(k) && (k
            != pre.registry@[i].kind ==> self.log(k) == pre.log(k)) by {
            let j = pre.kind_index(k);
            pre.lemma_kind_index_unique(k, j);
            assert(self.registry@[j].kind == k);
            self.lemma_kind_index_unique(k, j);
        }
        assert forall|k: u64| #[trigger] self.registered(k) implies pre.registered(k) by {
            let j = self.kind_index(k);
            assert(pre.registry@[j].kind == k);
            pre.lemma_kind_index_unique(k, j);
        }
    }

    /// Registry kinds name their entries uniquely.
    spec fn kinds_unique(&self) -> bool {
        forall|i: int, j: int|
            0 <= i < j < self.registry@.len() ==> (#[trigger] self.registry@[i]).kind != (
            #[trigger] self.registry@[j]).kind
    }

    /// Nothing is staged between steps, registry kinds are unique, every
    /// chain is priority-ordered and every observable queue is well formed.
    pub closed spec fn wf(&self) -> bool {
        &&& self.kinds_unique()
        &&& forall|i: int|
            0 <= i < self.registry@.len() ==> chain_sorted(
                (#[trigger] self.registry@[i]).handlers@,
            )
        &&& forall|i: int|
            0 <= i < self.registry@.len() ==> (#[trigger] self.registry@[i]).observable.wf()
        &&& self.sender.staged_immediate().len() == 0
        &&& self.sender.staged_delayed().len() == 0
    }

    pub fn new() -> (r: Scheduler<E, H>)
        ensures
            r.wf(),
            r.epochs() =~= Seq::<Seq<ScheduledEvent<E>>>::empty(),
            forall|k: u64| !r.registered(k),
    {
        Scheduler { registry: Vec::new(), queue: Vec::new(), sender: SchedulerContext::new() }
    }

    /// True iff the pending queue has no epochs.
    pub fn is_empty(&self) -> (r: bool)
        ensures
            r == (self.epochs().len() == 0),
    {
        self.queue.is_empty()
    }

    /// Send an event into its own epoch at the tail of the queue, under
    /// the given kind tag.
    pub fn send(&mut self, kind: u64, event: E)
        requires
            old(self).wf(),
        ensures
            final(self).wf(),
            final(self).epochs() =~= old(self).epochs().push(
                seq![ScheduledEvent { kind, event }],
            ),
            forall|k: u64| final(self).registered(k) == old(self).registered(k),
            forall|k: u64|
                old(self).registered(k) ==> final(self).chain(k) == old(self).chain(k) && final(self).log(k) == old(self).log(k),
    {
        let mut epoch: Vec<ScheduledEvent<E>> = Vec::new();
        epoch.push(ScheduledEvent { kind, event });
        self.queue.push(epoch);
        proof {
            self.lemma_registry_identical(*old(self));
        }
    }

    /// Send a group of events as a single epoch, processed together in the
    /// given order, all under the given kind tag.
    pub fn send_many(&mut self, kind: u64, events: Vec<E>)
        requires
            old(self).wf(),
        ensures
            final(self).wf(),
            final(self).epochs() =~= old(self).epochs().push(tag_events(kind, events@)),
            forall|k: u64| final(self).registered(k) == old(self).registered(k),
            forall|k: u64|
                old(self).registered(k) ==> final(self).chain(k) == old(self).chain(k) && final(self).log(k) == old(self).log(k),
    {
        let ghost all = events@;
        let mut events = events;
        let mut epoch: Vec<ScheduledEvent<E>> = Vec::new();
        while events.len() > 0
            invariant
                all.len() == epoch@.len() + events@.len(),
                events@ == all.subrange(epoch@.len() as int, all.len() as int),
                epoch@ =~= tag_events(kind, all.subrange(0, epoch@.len() as int)),
            decreases events@.len(),
        {
            let ghost done = epoch@.len() as int;
            let event = events.remove(0);
            epoch.push(ScheduledEvent { kind, event });
            proof {
                assert(events@ =~= all.subrange(done + 1, all.len() as int));
                assert(epoch@ =~= tag_events(kind, all.subrange(0, done + 1)));
            }
        }
        proof {
            assert(all.subrange(0, all.len() as int) =~= all);
        }
        self.queue.push(epoch);
        proof {
            self.lemma_registry_identical(*old(self));
        }
    }

    /// Two schedulers with the same registry agree on every registry
    /// observation.
    proof fn lemma_registry_identical(&self, other: Scheduler<E, H>)
        requires
            self.registry@ == other.registry@,
        ensures
            forall|k: u64| self.registered(k) == other.registered(k),
            forall|k: u64|
                other.registered(k) ==> self.chain(k) == other.chain(k) && self.log(k)
                    == other.log(k),
    {
    }

    /// With unique kinds, the registry position of `kind` is the one its
    /// entry sits at.
    proof fn lemma_kind_index_unique(&self, kind: u64, i: int)
        requires
            self.kinds_unique(),
            0 <= i < self.registry@.len(),
            self.registry@[i].kind == kind,
        ensures
            self.registered(kind),
            self.kind_index(kind) == i,
    {
        assert(self.registered(kind));
        let j = self.kind_index(kind);
        if j < i {
            assert(self.registry@[j].kind != self.registry@[i].kind);
        } else if j > i {
            assert(self.registry@[i].kind != self.registry@[j].kind);
        }
    }

    /// Registry position of `kind`'s entry, if one exists.
    fn find_entry(&self, kind: u64) -> (r: Option<usize>)
        requires
            self.kinds_unique(),
        ensures
            match r {
                Some(i) => self.registered(kind) && i == self.kind_index(kind) && i
                    < self.registry@.len() && self.registry@[i as int].kind == kind,
                None => !self.registered(kind),
            },
    {
        let mut i: usize = 0;
        while i < self.registry.len()
            invariant
                self.kinds_unique(),
                0 <= i <= self.registry@.len(),
                forall|j: int| 0 <= j < i ==> (#[trigger] self.registry@[j]).kind != kind,
            decreases self.registry@.len() - i,
        {
            if self.registry[i].kind == kind {
                proof {
                    self.lemma_kind_index_unique(kind, i as int);
                }
                return Some(i);
            }
            i = i + 1;
        }
        None
    }

    /// Position of `kind`'s entry, created empty if it was missing.
    fn find_or_create_entry(&mut self, kind: u64) -> (r: usize)
        requires
            old(self).wf(),
        ensures
            final(self).wf(),
            r < final(self).registry@.len(),
            final(self).registered(kind),
            r == final(self).kind_index(kind),
            final(self).registry@[r as int].kind == kind,
            final(self).epochs() == old(self).epochs(),
            final(self).sender == old(self).sender,
            forall|k: u64| final(self).registered(k) == (old(self).registered(k) || k == kind),
            forall|k: u64|
                old(self).registered(k) ==> final(self).chain(k) == old(self).chain(k) && final(self).log(k) == old(self).log(k),
            old(self).registered(kind) ==> *final(self) == *old(self),
            !old(self).registered(kind) ==> {
                &&& final(self).chain(kind) =~= Seq::<HandlerEntry<H>>::empty()
                &&& final(self).log(kind).buffered() =~= Seq::<E>::empty()
                &&& final(self).log(kind).num_slots() == 0
                &&& !final(self).log(kind).has_live()
            },
    {
        match self.find_entry(kind) {
            Some(i) => i,
            None => {
                let set = HandlerSet { kind, handlers: Vec::new(), observable: ObservableQueue::new() };
                self.registry.push(set);
                let i = self.registry.len() - 1;
                proof {
                    assert forall|i2: int, j2: int|
                        0 <= i2 < j2 < self.registry@.len() implies (
                    #[trigger] self.registry@[i2]).kind != (#[trigger] self.registry@[j2]).kind by {
                        if j2 < self.registry@.len() - 1 {
                            assert(old(self).registry@[i2].kind != old(self).registry@[j2].kind);
                        } else {
                            old(self).lemma_kind_index_unique(self.registry@[i2].kind, i2);
                        }
                    }
                    self.lemma_kind_index_unique(kind, i as int);
                    assert forall|k: u64| old(self).registered(k) implies final(self).registered(k)
                        && final(self).chain(k) == old(self).chain(k) && final(self).log(k) == old(self).log(k) by {
                        let j = old(self).kind_index(k);
                        old(self).lemma_kind_index_unique(k, j);
                        self.lemma_kind_index_unique(k, j);
                    }
                    assert forall|k: u64| final(self).registered(k) implies old(self).registered(k)
                        || k == kind by {
                        let j = self.kind_index(k);
                        if j < self.registry@.len() - 1 {
                            assert(old(self).registry@[j].kind == k);
                        }
                    }
                }
                i
            },
        }
    }

    /// Registers a handler for events of `kind` at the default priority 0,
    /// creating the registry entry if missing.
    pub fn add_system(&mut self, kind: u64, handler: H)
        requires
            old(self).wf(),
        ensures
            final(self).wf(),
            final(self).epochs() == old(self).epochs(),
            forall|k: u64| final(self).registered(k) == (old(self).registered(k) || k == kind),
            forall|k: u64|
                old(self).registered(k) && k != kind ==> final(self).chain(k) == old(self).chain(k)
                    && final(self).log(k) == old(self).log(k),
            final(self).log(kind) == (if old(self).registered(kind) {
                old(self).log(kind)
            } else {
                final(self).log(kind)
            }),
            !old(self).registered(kind) ==> {
                &&& final(self).log(kind).buffered() =~= Seq::<E>::empty()
                &&& final(self).log(kind).num_slots() == 0
                &&& !final(self).log(kind).has_live()
            },
            stable_insert(
                (if old(self).registered(kind) {
                    old(self).chain(kind)
                } else {
                    Seq::<HandlerEntry<H>>::empty()
                }),
                final(self).chain(kind),
                0,
                handler,
            ),
    {
        self.add_system_with_priority(kind, handler, 0);
    }

    /// Registers a handler for events of `kind`, creating the registry
    /// entry if missing. The chain stays ordered by priority, ascending,
    /// and among handlers of equal priority the earlier registration runs
    /// first.
    pub fn add_system_with_priority(&mut self, kind: u64, handler: H, priority: i32)
        requires
            old(self).wf(),
        ensures
            final(self).wf(),
            final(self).epochs() == old(self).epochs(),
            forall|k: u64| final(self).registered(k) == (old(self).registered(k) || k == kind),
            forall|k: u64|
                old(self).registered(k) && k != kind ==> final(self).chain(k) == old(self).chain(k)
                    && final(self).log(k) == old(self).log(k),
            final(self).log(kind) == (if old(self).registered(kind) {
                old(self).log(kind)
            } else {
                final(self).log(kind)
            }),
            !old(self).registered(kind) ==> {
                &&& final(self).log(kind).buffered() =~= Seq::<E>::empty()
                &&& final(self).log(kind).num_slots() == 0
                &&& !final(self).log(kind).has_live()
            },
            stable_insert(
                (if old(self).registered(kind) {
                    old(self).chain(kind)
                } else {
                    Seq::<HandlerEntry<H>>::empty()
                }),
                final(self).chain(kind),
                priority,
                handler,
            ),
    {
        let i = self.find_or_create_entry(kind);
        let ghost mid = *self;
        let ghost c0 = self.registry@[i as int].handlers@;
        let mut pos: usize = 0;
        while pos < self.registry[i].handlers.len() && self.registry[i].handlers[pos].priority
            <= priority
            invariant
                0 <= pos <= c0.len(),
                *self == mid,
                i < self.registry@.len(),
                c0 == self.registry@[i as int].handlers@,
                chain_sorted(c0),
                forall|j: int| 0 <= j < pos ==> (#[trigger] c0[j]).priority <= priority,
            decreases c0.len() - pos,
        {
            pos = pos + 1;
        }
        proof {
            assert forall|j: int| pos <= j < c0.len() implies (#[trigger] c0[j]).priority
                > priority by {
                if (pos as int) < c0.len() {
                    assert(c0[pos as int].priority <= c0[j].priority);
                }
            }
        }
        self.registry[i].handlers.insert(pos, HandlerEntry { priority, handler });
        proof {
            let c1 = self.registry@[i as int].handlers@;
            assert(c1 == c0.insert(pos as int, HandlerEntry { priority, handler }));
            assert forall|a: int, b: int| 0 <= a <= b < c1.len() implies #[trigger] c1[a].priority
                <= #[trigger] c1[b].priority by {
                let p = pos as int;
                if a < p && b < p {
                } else if a > p && b > p {
                    assert(c1[a] == c0[a - 1] && c1[b] == c0[b - 1]);
                } else if a == p && b > p {
                    assert(c1[b] == c0[b - 1]);
                } else if a < p && b == p {
                    assert(c1[a] == c0[a]);
                }
            }
            assert forall|i2: int|
                0 <= i2 < self.registry@.len() implies chain_sorted(
                (#[trigger] self.registry@[i2]).handlers@) by {
                if i2 != i as int {
                    assert(self.registry@[i2] == mid.registry@[i2]);
                }
            }
            mid.lemma_kind_index_unique(kind, i as int);
            self.lemma_kind_index_unique(kind, i as int);
            assert forall|k: u64| mid.registered(k) implies final(self).registered(k) && (k != kind
                ==> final(self).chain(k) == mid.chain(k) && final(self).log(k) == mid.log(k)) by {
                let j = mid.kind_index(k);
                mid.lemma_kind_index_unique(k, j);
                self.lemma_kind_index_unique(k, j);
            }
            assert forall|k: u64| final(self).registered(k) implies mid.registered(k) by {
                let j = self.kind_index(k);
                assert(mid.registry@[j].kind == k);
                mid.lemma_kind_index_unique(k, j);
            }
        }
    }
}

impl<E, H> Scheduler<E, H> {
    /// Subscribes a fresh observer to events of `kind`, creating the
    /// registry entry if missing. No handler needs to be registered: a
    /// kind with an empty chain still publishes every event it receives,
    /// so the scheduler degrades to a broadcast bus for kinds nobody
    /// handles.
    pub fn observe(&mut self, kind: u64) -> (obs: Observer)
        requires
            old(self).wf(),
        ensures
            final(self).wf(),
            final(self).epochs() == old(self).epochs(),
            obs.kind_of() == kind,
            forall|k: u64| final(self).registered(k) == (old(self).registered(k) || k == kind),
            forall|k: u64|
                old(self).registered(k) && k != kind ==> final(self).chain(k) == old(self).chain(k)
                    && final(self).log(k) == old(self).log(k),
            final(self).chain(kind) == (if old(self).registered(kind) {
                old(self).chain(kind)
            } else {
                Seq::<HandlerEntry<H>>::empty()
            }),
            final(self).log(kind).observes(obs),
            final(self).log(kind).unread(obs.id()) =~= Seq::<E>::empty(),
            final(self).log(kind).has_live(),
            old(self).registered(kind) ==> {
                &&& obs.id() == old(self).log(kind).num_slots()
                &&& final(self).log(kind).num_slots() == old(self).log(kind).num_slots() + 1
                &&& final(self).log(kind).buffered() == old(self).log(kind).buffered()
                &&& forall|s: int|
                    0 <= s < old(self).log(kind).num_slots() ==> final(self).log(kind).slot_live(s)
                        == old(self).log(kind).slot_live(s) && final(self).log(kind).front_of(s)
                        == old(self).log(kind).front_of(s)
            },
            !old(self).registered(kind) ==> obs.id() == 0 && final(self).log(kind).num_slots()
                == 1 && final(self).log(kind).buffered() =~= Seq::<E>::empty(),
    {
        let i = self.find_or_create_entry(kind);
        let ghost mid = *self;
        let o = self.registry[i].observable.subscribe();
        proof {
            assert(self.registry@ =~= mid.registry@.update(
                i as int,
                self.registry@[i as int],
            ));
            assert forall|i2: int|
                0 <= i2 < self.registry@.len() && i2 != i as int implies self.registry@[i2]
                == mid.registry@[i2] by {}
            mid.lemma_kind_index_unique(kind, i as int);
            self.lemma_entry_log_update(mid, i as int);
        }
        o.with_kind(kind)
    }

    /// Releases the cursor slot that `obs` holds in its kind's observable
    /// queue: the handle is consumed and the values it was still holding
    /// in that buffer are reclaimed lazily, at the next publication of the
    /// kind. A handle whose kind was never registered names nothing and is
    /// dropped without effect.
    pub fn unsubscribe(&mut self, obs: Observer)
        requires
            old(self).wf(),
        ensures
            final(self).wf(),
            final(self).epochs() == old(self).epochs(),
            forall|k: u64| final(self).registered(k) == old(self).registered(k),
            forall|k: u64|
                old(self).registered(k) ==> final(self).chain(k) == old(self).chain(k),
            forall|k: u64|
                old(self).registered(k) && k != obs.kind_of() ==> final(self).log(k) == old(self).log(k),
            !old(self).registered(obs.kind_of()) ==> *final(self) == *old(self),
            old(self).registered(obs.kind_of()) ==> {
                let lg = old(self).log(obs.kind_of());
                &&& final(self).log(obs.kind_of()).buffered() == lg.buffered()
                &&& final(self).log(obs.kind_of()).num_slots() == lg.num_slots()
                &&& (0 <= obs.id() < lg.num_slots() ==> !final(self).log(
                    obs.kind_of(),
                ).slot_live(obs.id()))
                &&& (forall|s: int|
                    0 <= s < lg.num_slots() && s != obs.id() ==> final(self).log(
                        obs.kind_of(),
                    ).slot_live(s) == lg.slot_live(s) && final(self).log(obs.kind_of()).front_of(
                        s,
                    ) == lg.front_of(s))
            },
    {
        let i = match self.find_entry(obs.kind()) {
            Some(i) => i,
            None => {
                return ;
            },
        };
        let ghost mid = *self;
        self.registry[i].observable.unsubscribe(obs);
        proof {
            assert forall|i2: int|
                0 <= i2 < self.registry@.len() && i2 != i as int implies self.registry@[i2]
                == mid.registry@[i2] by {}
            mid.lemma_kind_index_unique(obs.kind_of(), i as int);
            self.lemma_entry_log_update(mid, i as int);
        }
    }

    /// The event at `index` within the pending epoch at `epoch`, if both
    /// are in range. Front epoch first, events in dispatch order.
    pub fn event_at(&self, epoch: usize, index: usize) -> (r: Option<&E>)
        ensures
            match r {
                Some(v) => epoch < self.epochs().len() && index < self.epochs()[epoch as int].len()
                    && *v == self.epochs()[epoch as int][index as int].event,
                None => epoch >= self.epochs().len() || index
                    >= self.epochs()[epoch as int].len(),
            },
    {
        if epoch >= self.queue.len() {
            return None;
        }
        let batch = &self.queue[epoch];
        if index >= batch.len() {
            return None;
        }
        Some(&batch[index].event)
    }

    /// Like [`ObservableQueue::map_next`], on the observable queue of the
    /// kind that `obs` watches: hands the next unread event of that kind
    /// to `transform` and advances the observer. Returns nothing when the
    /// kind is unregistered or the observer has read everything.
    pub fn map_next<U, F: Fn(&E) -> U>(&mut self, obs: &Observer, transform: F) -> (r: Option<U>)
        requires
            old(self).wf(),
            forall|t: &E| #[trigger] transform.requires((t,)),
        ensures
            final(self).wf(),
            final(self).epochs() == old(self).epochs(),
            forall|k: u64| final(self).registered(k) == old(self).registered(k),
            forall|k: u64|
                old(self).registered(k) ==> final(self).chain(k) == old(self).chain(k),
            forall|k: u64|
                old(self).registered(k) && k != obs.kind_of() ==> final(self).log(k) == old(self).log(k),
            !old(self).registered(obs.kind_of()) ==> r is None && *final(self) == *old(self),
            old(self).registered(obs.kind_of()) ==> {
                let lg = old(self).log(obs.kind_of());
                if lg.observes(*obs) && lg.unread(obs.id()).len() > 0 {
                    &&& (r matches Some(u) && call_ensures(
                        transform,
                        (&lg.unread(obs.id())[0],),
                        u,
                    ))
                    &&& final(self).log(obs.kind_of()).unread(obs.id()) == lg.unread(
                        obs.id(),
                    ).drop_first()
                    &&& final(self).log(obs.kind_of()).buffered() == lg.buffered()
                    &&& final(self).log(obs.kind_of()).num_slots() == lg.num_slots()
                    &&& (forall|s: int|
                        0 <= s < lg.num_slots() ==> final(self).log(obs.kind_of()).slot_live(s)
                            == lg.slot_live(s))
                } else {
                    r is None && final(self).log(obs.kind_of()) == lg
                }
            },
    {
        let i = match self.find_entry(obs.kind()) {
            Some(i) => i,
            None => {
                return None;
            },
        };
        let ghost mid = *self;
        let r = self.registry[i].observable.map_next(obs, transform);
        proof {
            assert forall|i2: int|
                0 <= i2 < self.registry@.len() && i2 != i as int implies self.registry@[i2]
                == mid.registry@[i2] by {}
            mid.lemma_kind_index_unique(obs.kind_of(), i as int);
            self.lemma_entry_log_update(mid, i as int);
            if !(mid.log(obs.kind_of()).observes(*obs) && mid.log(obs.kind_of()).unread(
                obs.id(),
            ).len() > 0) {
                assert(self.registry@ =~= mid.registry@);
            }
        }
        r
    }
}

impl<E: Clone, H> Scheduler<E, H> {
    /// Reads the next unread event of the kind that `obs` watches, if any,
    /// advancing the observer past it.
    pub fn next(&mut self, obs: &Observer) -> (r: Option<E>)
        requires
            old(self).wf(),
        ensures
            final(self).wf(),
            final(self).epochs() == old(self).epochs(),
            forall|k: u64| final(self).registered(k) == old(self).registered(k),
            forall|k: u64|
                old(self).registered(k) ==> final(self).chain(k) == old(self).chain(k),
            forall|k: u64|
                old(self).registered(k) && k != obs.kind_of() ==> final(self).log(k) == old(self).log(k),
            !old(self).registered(obs.kind_of()) ==> r is None && *final(self) == *old(self),
            old(self).registered(obs.kind_of()) ==> {
                let lg = old(self).log(obs.kind_of());
                if lg.observes(*obs) && lg.unread(obs.id()).len() > 0 {
                    &&& (r matches Some(v) && vstd::pervasive::cloned(lg.unread(obs.id())[0], v))
                    &&& final(self).log(obs.kind_of()).unread(obs.id()) == lg.unread(
                        obs.id(),
                    ).drop_first()
                    &&& final(self).log(obs.kind_of()).buffered() == lg.buffered()
                    &&& final(self).log(obs.kind_of()).num_slots() == lg.num_slots()
                    &&& (forall|s: int|
                        0 <= s < lg.num_slots() ==> final(self).log(obs.kind_of()).slot_live(s)
                            == lg.slot_live(s))
                } else {
                    r is None && final(self).log(obs.kind_of()) == lg
                }
            },
    {
        let i = match self.find_entry(obs.kind()) {
            Some(i) => i,
            None => {
                return None;
            },
        };
        let ghost mid = *self;
        let r = self.registry[i].observable.next(obs);
        proof {
            assert forall|i2: int|
                0 <= i2 < self.registry@.len() && i2 != i as int implies self.registry@[i2]
                == mid.registry@[i2] by {}
            mid.lemma_kind_index_unique(obs.kind_of(), i as int);
            self.lemma_entry_log_update(mid, i as int);
            if !(mid.log(obs.kind_of()).observes(*obs) && mid.log(obs.kind_of()).unread(
                obs.id(),
            ).len() > 0) {
                assert(self.registry@ =~= mid.registry@);
            }
        }
        r
    }
}

impl<E, H> Default for Scheduler<E, H> {
    /// An empty scheduler: no registry entries, no pending epochs.
    fn default() -> (r: Self)
        ensures
            r.wf(),
            r.epochs() =~= Seq::<Seq<ScheduledEvent<E>>>::empty(),
            forall|k: u64| !r.registered(k),
    {
        Scheduler::new()
    }
}

/// Runs one event through a registry entry's chain, in chain order. The
/// first handler returning `Break` aborts the rest and suppresses
/// publication; otherwise the event, as the chain left it, is published
/// to the entry's observable queue. The contract carries the run as a
/// [`chain_run`] witness from the actual inputs to the actual outputs,
/// with publication equal to the absence of a `Break`.
fn dispatch_event<E, W, H: EventHandler<E, W>>(
    set: &mut HandlerSet<E, H>,
    event: E,
    world: &mut W,
    cx: &mut SchedulerContext<E>,
) -> (published: bool)
    requires
        old(set).observable.wf(),
    ensures
        final(set).kind == old(set).kind,
        final(set).handlers == old(set).handlers,
        final(set).observable.wf(),
        final(set).observable.num_slots() == old(set).observable.num_slots(),
        forall|s: int|
            0 <= s < old(set).observable.num_slots() ==> final(set).observable.slot_live(s) == old(
                set,
            ).observable.slot_live(s),
        old(cx).staged_immediate().is_prefix_of(final(cx).staged_immediate()),
        old(cx).staged_delayed().is_prefix_of(final(cx).staged_delayed()),
        !published ==> final(set).observable == old(set).observable,
        published ==> (exists|ev2: E|
            crate::observer::push_effect(old(set).observable, final(set).observable, ev2)),
        forall|s: int|
            0 <= s < old(set).observable.num_slots() && old(set).observable.slot_live(s)
                ==> #[trigger] old(set).observable.unread(s).is_prefix_of(
                final(set).observable.unread(s),
            ),
        old(set).handlers@.len() == 0 ==> published && *final(cx) == *old(cx) && *final(world)
            == *old(world) && crate::observer::push_effect(
            old(set).observable,
            final(set).observable,
            event,
        ),
        exists|trace: Seq<DispatchState<E, W>>, results: Seq<EventResult>|
            {
                &&& chain_run(old(set).handlers@, trace, results)
                &&& trace[0] == (DispatchState {
                    event,
                    world: *old(world),
                    immediate: old(cx).staged_immediate(),
                    delayed: old(cx).staged_delayed(),
                })
                &&& trace.last().world == *final(world)
                &&& trace.last().immediate == final(cx).staged_immediate()
                &&& trace.last().delayed == final(cx).staged_delayed()
                &&& published == !chain_broke(results)
                &&& (published ==> crate::observer::push_effect(
                    old(set).observable,
                    final(set).observable,
                    trace.last().event,
                ))
                &&& (!published ==> final(set).observable == old(set).observable)
            },
{
    let mut ev = event;
    let mut i: usize = 0;
    let ghost mut trace: Seq<DispatchState<E, W>> = seq![
        DispatchState {
            event,
            world: *world,
            immediate: cx.staged_immediate(),
            delayed: cx.staged_delayed(),
        },
    ];
    let ghost mut results: Seq<EventResult> = Seq::empty();
    while i < set.handlers.len()
        invariant
            *set == *old(set),
            old(set).observable.wf(),
            0 <= i <= set.handlers@.len(),
            old(cx).staged_immediate().is_prefix_of(cx.staged_immediate()),
            old(cx).staged_delayed().is_prefix_of(cx.staged_delayed()),
            i == 0 ==> *cx == *old(cx) && ev == event && *world == *old(world),
            results.len() == i,
            trace.len() == i + 1,
            trace[0] == (DispatchState {
                event,
                world: *old(world),
                immediate: old(cx).staged_immediate(),
                delayed: old(cx).staged_delayed(),
            }),
            trace.last() == (DispatchState {
                event: ev,
                world: *world,
                immediate: cx.staged_immediate(),
                delayed: cx.staged_delayed(),
            }),
            forall|k: int|
                0 <= k < results.len() ==> (#[trigger] old(set).handlers@[k].handler).handle_rel(
                    trace[k],
                    trace[k + 1],
                    results[k],
                ),
            forall|k: int|
                0 <= k < results.len() ==> (#[trigger] trace[k]).immediate.is_prefix_of(
                    trace[k + 1].immediate,
                ) && trace[k].delayed.is_prefix_of(trace[k + 1].delayed),
            forall|k: int|
                0 <= k < results.len() ==> (#[trigger] results[k]) != Err::<(), EventError>(
                    EventError::Break,
                ),
        decreases set.handlers@.len() - i,
    {
        let ghost prev = *cx;
        let ghost ev0 = ev;
        let ghost w0 = *world;
        let outcome = set.handlers[i].handler.handle(&mut ev, world, cx);
        proof {
            lemma_prefix_chain(old(cx).staged_immediate(), prev.staged_immediate(), cx.staged_immediate());
            lemma_prefix_chain(old(cx).staged_delayed(), prev.staged_delayed(), cx.staged_delayed());
            results = results.push(outcome);
            trace = trace.push(
                DispatchState {
                    event: ev,
                    world: *world,
                    immediate: cx.staged_immediate(),
                    delayed: cx.staged_delayed(),
                },
            );
        }
        match outcome {
            Ok(()) => {},
            Err(EventError::Continue) => {},
            Err(EventError::Break) => {
                proof {
                    assert forall|s: int|
                        0 <= s < old(set).observable.num_slots() && old(
                            set,
                        ).observable.slot_live(s) implies #[trigger] old(
                        set,
                    ).observable.unread(s).is_prefix_of(set.observable.unread(s)) by {
                        assert(old(set).observable.unread(s) =~= set.observable.unread(
                            s,
                        ).subrange(0, old(set).observable.unread(s).len() as int));
                    }
                    assert(chain_run(old(set).handlers@, trace, results));
                    assert(chain_broke(results));
                }
                return false;
            },
        }
        i = i + 1;
    }
    proof {
        assert(chain_run(old(set).handlers@, trace, results));
        assert(!chain_broke(results));
    }
    set.observable.push(ev);
    proof {
        assert forall|s: int|
            0 <= s < old(set).observable.num_slots() && old(set).observable.slot_live(
                s,
            ) implies #[trigger] old(set).observable.unread(s).is_prefix_of(
            set.observable.unread(s),
        ) by {
            assert(set.observable.unread(s) =~= old(set).observable.unread(s).push(ev));
            assert(old(set).observable.unread(s) =~= set.observable.unread(s).subrange(
                0,
                old(set).observable.unread(s).len() as int,
            ));
        }
    }
    true
}

/// The payloads of kind `kind` within one epoch, in dispatch order.
pub open spec fn events_of_kind<E>(epoch: Seq<ScheduledEvent<E>>, kind: u64) -> Seq<E> {
    epoch.filter(|se: ScheduledEvent<E>| se.kind == kind).map_values(
        |se: ScheduledEvent<E>| se.event,
    )
}

/// The world and staging buffers between two events of one epoch's
/// dispatch.
pub struct StepState<E, W> {
    pub world: W,
    pub immediate: Seq<ScheduledEvent<E>>,
    pub delayed: Seq<ScheduledEvent<E>>,
}

/// What one step does with one event of its front epoch: an unregistered
/// kind is discarded without any effect; a registered kind's event runs
/// its chain, starting from the world and staging buffers the previous
/// event left and leaving its own behind.
pub open spec fn event_step<E, W, H: EventHandler<E, W>>(
    pre: Scheduler<E, H>,
    se: ScheduledEvent<E>,
    s0: StepState<E, W>,
    s1: StepState<E, W>,
    trace: Seq<DispatchState<E, W>>,
    results: Seq<EventResult>,
) -> bool {
    if pre.registered(se.kind) {
        &&& chain_run(pre.chain(se.kind), trace, results)
        &&& trace[0] == (DispatchState {
            event: se.event,
            world: s0.world,
            immediate: s0.immediate,
            delayed: s0.delayed,
        })
        &&& trace.last().world == s1.world
        &&& trace.last().immediate == s1.immediate
        &&& trace.last().delayed == s1.delayed
    } else {
        s1 == s0 && trace.len() == 0 && results.len() == 0
    }
}

/// One step's dispatch of a whole epoch: event by event, in epoch order,
/// each a chain run over the scheduler's registered chains, threading
/// the world and the staging buffers through.
pub open spec fn step_run<E, W, H: EventHandler<E, W>>(
    pre: Scheduler<E, H>,
    epoch: Seq<ScheduledEvent<E>>,
    states: Seq<StepState<E, W>>,
    traces: Seq<Seq<DispatchState<E, W>>>,
    outcomes: Seq<Seq<EventResult>>,
) -> bool {
    &&& states.len() == epoch.len() + 1
    &&& traces.len() == epoch.len()
    &&& outcomes.len() == epoch.len()
    &&& (forall|j: int|
        0 <= j < epoch.len() ==> event_step(
            pre,
            #[trigger] epoch[j],
            states[j],
            states[j + 1],
            traces[j],
            outcomes[j],
        ))
}

/// The values that the first `j` events of the epoch published under
/// `kind`: for each event of that kind whose run was not cut by a
/// `Break`, the event as its chain left it, in epoch order.
pub open spec fn published_upto<E, W>(
    epoch: Seq<ScheduledEvent<E>>,
    traces: Seq<Seq<DispatchState<E, W>>>,
    outcomes: Seq<Seq<EventResult>>,
    kind: u64,
    j: int,
) -> Seq<E>
    decreases j,
{
    if j <= 0 {
        Seq::empty()
    } else {
        published_upto(epoch, traces, outcomes, kind, j - 1) + (if epoch[j - 1].kind == kind
            && traces[j - 1].len() > 0 && !chain_broke(outcomes[j - 1]) {
            seq![traces[j - 1].last().event]
        } else {
            Seq::empty()
        })
    }
}

/// The values a whole epoch published under `kind`, in epoch order.
pub open spec fn published_events<E, W>(
    epoch: Seq<ScheduledEvent<E>>,
    traces: Seq<Seq<DispatchState<E, W>>>,
    outcomes: Seq<Seq<EventResult>>,
    kind: u64,
) -> Seq<E> {
    published_upto(epoch, traces, outcomes, kind, epoch.len() as int)
}

/// What the first `j` events published does not depend on the runs
/// recorded after them.
proof fn lemma_published_upto_push<E, W>(
    epoch: Seq<ScheduledEvent<E>>,
    traces: Seq<Seq<DispatchState<E, W>>>,
    outcomes: Seq<Seq<EventResult>>,
    tr: Seq<DispatchState<E, W>>,
    res: Seq<EventResult>,
    kind: u64,
    j: int,
)
    requires
        0 <= j <= traces.len(),
        j <= outcomes.len(),
    ensures
        published_upto(epoch, traces.push(tr), outcomes.push(res), kind, j) == published_upto(
            epoch,
            traces,
            outcomes,
            kind,
            j,
        ),
    decreases j,
{
    if j > 0 {
        lemma_published_upto_push(epoch, traces, outcomes, tr, res, kind, j - 1);
    }
}

/// Each event as its own single-event epoch, in order.
pub open spec fn singleton_epochs<E>(events: Seq<ScheduledEvent<E>>) -> Seq<
    Seq<ScheduledEvent<E>>,
> {
    Seq::new(events.len(), |i: int| seq![events[i]])
}

/// Extending an epoch by one event extends its per-kind payloads by that
/// event exactly when the kinds match.
proof fn lemma_events_of_kind_step<E>(epoch: Seq<ScheduledEvent<E>>, done: int, kind: u64)
    requires
        0 <= done < epoch.len(),
    ensures
        events_of_kind(epoch.subrange(0, done + 1), kind) == (if epoch[done].kind == kind {
            events_of_kind(epoch.subrange(0, done), kind).push(epoch[done].event)
        } else {
            events_of_kind(epoch.subrange(0, done), kind)
        }),
{
    let shorter = epoch.subrange(0, done);
    let longer = epoch.subrange(0, done + 1);
    let pred = |se: ScheduledEvent<E>| se.kind == kind;
    let payload = |se: ScheduledEvent<E>| se.event;
    assert(longer.drop_last() =~= shorter);
    reveal_with_fuel(Seq::<_>::filter, 2);
    if epoch[done].kind == kind {
        assert(longer.filter(pred) == shorter.filter(pred).push(epoch[done]));
        assert(longer.filter(pred).map_values(payload) =~= shorter.filter(pred).map_values(
            payload,
        ).push(epoch[done].event));
    } else {
        assert(longer.filter(pred) == shorter.filter(pred));
    }
}

impl<E, H> Scheduler<E, H> {
    /// An event of this kind would pass through the front epoch without
    /// any observable effect: no entry is registered for it, or its entry
    /// has no handlers and no live observer.
    pub open spec fn kind_inert(&self, kind: u64) -> bool {
        ||| !self.registered(kind)
        ||| (self.chain(kind).len() == 0 && !self.log(kind).has_live())
    }

    /// Pops the front epoch and dispatches each of its events, in order,
    /// through the handler chain registered for its kind; events of
    /// unregistered kinds are silently discarded. Everything the handlers
    /// staged as immediate then forms one epoch at the front of the queue;
    /// everything staged as delayed is appended at the tail, one epoch per
    /// event, in staging order. Returns false, changing nothing, when the
    /// queue is empty.
    ///
    /// The contract carries a [`step_run`] witness: a trace of the whole
    /// dispatch, event by event and handler by handler, each call admitted
    /// by that handler's [`EventHandler::handle_rel`], threading the world
    /// and the staging buffers through and pinning the queue the step
    /// leaves behind and the values each kind's observers receive. However
    /// precisely a host's relations describe its handlers, that much of
    /// the step's outcome follows from this contract.
    #[verifier::loop_isolation(false)]
    pub fn step<W>(&mut self, world: &mut W) -> (r: bool) where H: EventHandler<E, W>
        requires
            old(self).wf(),
        ensures
            final(self).wf(),
            r == (old(self).epochs().len() > 0),
            !r ==> *final(self) == *old(self) && *final(world) == *old(world),
            r ==> {
                let epoch = old(self).epochs()[0];
                &&& (forall|k: u64| final(self).registered(k) == old(self).registered(k))
                &&& (forall|k: u64|
                    old(self).registered(k) ==> final(self).chain(k) == old(self).chain(k))
                &&& (forall|k: u64|
                    old(self).registered(k) ==> final(self).log(k).wf() && final(self).log(
                        k,
                    ).num_slots() == old(self).log(k).num_slots())
                &&& (forall|k: u64, s: int|
                    old(self).registered(k) && 0 <= s < old(self).log(k).num_slots() ==> final(self).log(k).slot_live(s) == old(self).log(k).slot_live(s))
                &&& (forall|k: u64|
                    old(self).registered(k) && (forall|j: int|
                        0 <= j < epoch.len() ==> (#[trigger] epoch[j]).kind != k) ==> final(self).log(k) == old(self).log(k))
                &&& (forall|k: u64, s: int|
                    old(self).registered(k) && old(self).chain(k).len() == 0 && 0 <= s < old(self).log(k).num_slots() && old(self).log(k).slot_live(s) ==> final(self).log(
                        k,
                    ).unread(s) == old(self).log(k).unread(s) + events_of_kind(epoch, k))
                &&& (forall|k: u64, s: int|
                    old(self).registered(k) && 0 <= s < old(self).log(k).num_slots() && old(self).log(k).slot_live(s) ==> old(self).log(k).unread(s).is_prefix_of(
                        final(self).log(k).unread(s),
                    ))
                &&& (forall|k: u64, s: int|
                    old(self).registered(k) && 0 <= s < old(self).log(k).num_slots() && old(self).log(k).slot_live(s) ==> final(self).log(k).unread(s).len() <= old(self).log(
                        k,
                    ).unread(s).len() + events_of_kind(epoch, k).len())
                &&& (exists|
                    states: Seq<StepState<E, W>>,
                    traces: Seq<Seq<DispatchState<E, W>>>,
                    outcomes: Seq<Seq<EventResult>>,
                |
                    {
                        &&& step_run(*old(self), epoch, states, traces, outcomes)
                        &&& states[0] == (StepState {
                            world: *old(world),
                            immediate: Seq::<ScheduledEvent<E>>::empty(),
                            delayed: Seq::<ScheduledEvent<E>>::empty(),
                        })
                        &&& states.last().world == *final(world)
                        &&& final(self).epochs() == (if states.last().immediate.len() > 0 {
                            seq![states.last().immediate]
                        } else {
                            Seq::<Seq<ScheduledEvent<E>>>::empty()
                        }) + old(self).epochs().drop_first() + singleton_epochs(
                            states.last().delayed,
                        )
                        &&& (forall|k: u64, s: int|
                            old(self).registered(k) && 0 <= s < old(self).log(k).num_slots()
                                && old(self).log(k).slot_live(s) ==> final(self).log(k).unread(s)
                                == old(self).log(k).unread(s) + published_events(
                                epoch,
                                traces,
                                outcomes,
                                k,
                            ))
                    })
                &&& ((forall|j: int|
                    0 <= j < epoch.len() ==> old(self).kind_inert(
                        (#[trigger] epoch[j]).kind,
                    )) ==> final(self).epochs() == old(self).epochs().drop_first() && *final(world)
                    == *old(world) && (forall|k: u64|
                    old(self).registered(k) ==> (final(self).log(k) == old(self).log(k) || (final(self).log(k).buffered().len() == 0 && (forall|s: int|
                        0 <= s < old(self).log(k).num_slots() ==> final(self).log(k).front_of(s)
                            == old(self).log(k).front_of(s))))))
            },
    {
        if self.queue.len() == 0 {
            return false;
        }
        let mut epoch = self.queue.remove(0);
        let ghost epoch0 = epoch@;
        let ghost reg0 = old(self).registry@;
        let ghost q1 = self.queue@;
        let ghost mut done: int = 0;
        proof {
            assert(old(self).epochs()[0] == epoch0);
            assert(self.sender.staged_immediate() =~= Seq::<ScheduledEvent<E>>::empty());
            assert(self.sender.staged_delayed() =~= Seq::<ScheduledEvent<E>>::empty());
        }
        let ghost mut states: Seq<StepState<E, W>> = seq![
            StepState {
                world: *world,
                immediate: self.sender.staged_immediate(),
                delayed: self.sender.staged_delayed(),
            },
        ];
        let ghost mut traces: Seq<Seq<DispatchState<E, W>>> = Seq::empty();
        let ghost mut outcomes: Seq<Seq<EventResult>> = Seq::empty();
        while epoch.len() > 0
            invariant
                0 <= done <= epoch0.len(),
                epoch@ =~= epoch0.subrange(done, epoch0.len() as int),
                self.queue@ == q1,
                self.registry@.len() == reg0.len(),
                forall|i: int|
                    0 <= i < reg0.len() ==> (#[trigger] self.registry@[i]).kind == reg0[i].kind
                        && self.registry@[i].handlers == reg0[i].handlers,
                forall|i: int|
                    0 <= i < reg0.len() ==> (#[trigger] self.registry@[i]).observable.wf()
                        && self.registry@[i].observable.num_slots()
                        == reg0[i].observable.num_slots(),
                forall|i: int, s: int|
                    0 <= i < reg0.len() && 0 <= s < reg0[i].observable.num_slots()
                        ==> #[trigger] self.registry@[i].observable.slot_live(s)
                        == reg0[i].observable.slot_live(s),
                forall|i: int|
                    0 <= i < reg0.len() && (forall|j: int|
                        0 <= j < done ==> (#[trigger] epoch0[j]).kind != reg0[i].kind) ==> (
                    #[trigger] self.registry@[i]).observable == reg0[i].observable,
                forall|i: int, s: int|
                    0 <= i < reg0.len() && reg0[i].handlers@.len() == 0 && 0 <= s
                        < reg0[i].observable.num_slots() && reg0[i].observable.slot_live(s)
                        ==> #[trigger] self.registry@[i].observable.unread(s)
                        == reg0[i].observable.unread(s) + events_of_kind(
                        epoch0.subrange(0, done),
                        reg0[i].kind,
                    ),
                forall|i: int, s: int|
                    0 <= i < reg0.len() && 0 <= s < reg0[i].observable.num_slots()
                        && reg0[i].observable.slot_live(s)
                        ==> reg0[i].observable.unread(s).is_prefix_of(
                        #[trigger] self.registry@[i].observable.unread(s),
                    ),
                forall|i: int, s: int|
                    0 <= i < reg0.len() && 0 <= s < reg0[i].observable.num_slots()
                        && reg0[i].observable.slot_live(s)
                        ==> #[trigger] self.registry@[i].observable.unread(s).len()
                        <= reg0[i].observable.unread(s).len() + events_of_kind(
                        epoch0.subrange(0, done),
                        reg0[i].kind,
                    ).len(),
                (forall|j: int|
                    0 <= j < done ==> old(self).kind_inert((#[trigger] epoch0[j]).kind)) ==> (
                self.sender.staged_immediate().len() == 0 && self.sender.staged_delayed().len()
                    == 0 && *world == *old(world) && (forall|i: int|
                    0 <= i < reg0.len() ==> ((#[trigger] self.registry@[i]).observable
                        == reg0[i].observable || (self.registry@[i].observable.buffered().len()
                        == 0 && (forall|s: int|
                        0 <= s < reg0[i].observable.num_slots()
                            ==> self.registry@[i].observable.front_of(s)
                            == reg0[i].observable.front_of(s)))))),
                old(self).wf(),
                self.kinds_unique(),
                states.len() == done + 1,
                traces.len() == done,
                outcomes.len() == done,
                step_run(*old(self), epoch0.subrange(0, done), states, traces, outcomes),
                states[0] == (StepState {
                    world: *old(world),
                    immediate: Seq::<ScheduledEvent<E>>::empty(),
                    delayed: Seq::<ScheduledEvent<E>>::empty(),
                }),
                states.last() == (StepState {
                    world: *world,
                    immediate: self.sender.staged_immediate(),
                    delayed: self.sender.staged_delayed(),
                }),
                forall|i: int, s: int|
                    0 <= i < reg0.len() && 0 <= s < reg0[i].observable.num_slots()
                        && reg0[i].observable.slot_live(s)
                        ==> #[trigger] self.registry@[i].observable.unread(s)
                        == reg0[i].observable.unread(s) + published_upto(
                        epoch0,
                        traces,
                        outcomes,
                        reg0[i].kind,
                        done,
                    ),
            decreases epoch@.len(),
        {
            let se = epoch.remove(0);
            proof {
                assert(se == epoch0[done]);
                assert(epoch@ =~= epoch0.subrange(done + 1, epoch0.len() as int));
            }
            let found = self.find_entry(se.kind);
            let ghost snap = self.registry@;
            let ghost sender_snap = self.sender;
            match found {
                None => {
                    proof {
                        assert forall|j: int|
                            0 <= j < reg0.len() implies (#[trigger] old(self).registry@[j]).kind
                            != se.kind by {
                            if old(self).registry@[j].kind == se.kind {
                                assert(self.registry@[j].kind == reg0[j].kind);
                                assert(self.registered(se.kind));
                            }
                        }
                        assert(!old(self).registered(se.kind));
                        assert forall|i: int, s: int|
                            0 <= i < reg0.len() && reg0[i].handlers@.len() == 0 && 0 <= s
                                < reg0[i].observable.num_slots() && reg0[i].observable.slot_live(s)
                            implies #[trigger] self.registry@[i].observable.unread(s)
                            == reg0[i].observable.unread(s) + events_of_kind(
                            epoch0.subrange(0, done + 1),
                            reg0[i].kind,
                        ) by {
                            lemma_events_of_kind_step(epoch0, done, reg0[i].kind);
                            assert(reg0[i].kind != se.kind) by {
                                if reg0[i].kind == se.kind {
                                    assert(self.registry@[i].kind == se.kind);
                                }
                            }
                        }
                        assert forall|i: int, s: int|
                            0 <= i < reg0.len() && 0 <= s < reg0[i].observable.num_slots()
                                && reg0[i].observable.slot_live(s)
                            implies #[trigger] self.registry@[i].observable.unread(s).len()
                            <= reg0[i].observable.unread(s).len() + events_of_kind(
                            epoch0.subrange(0, done + 1),
                            reg0[i].kind,
                        ).len() by {
                            lemma_events_of_kind_step(epoch0, done, reg0[i].kind);
                            assert(reg0[i].kind != se.kind) by {
                                if reg0[i].kind == se.kind {
                                    assert(self.registry@[i].kind == se.kind);
                                }
                            }
                        }
                        let ghost traces0 = traces;
                        let ghost outcomes0 = outcomes;
                        states = states.push(states.last());
                        traces = traces.push(Seq::empty());
                        outcomes = outcomes.push(Seq::empty());
                        assert(step_run(
                            *old(self),
                            epoch0.subrange(0, done + 1),
                            states,
                            traces,
                            outcomes,
                        )) by {
                            assert forall|j: int|
                                0 <= j < done + 1 implies event_step(
                                *old(self),
                                #[trigger] epoch0.subrange(0, done + 1)[j],
                                states[j],
                                states[j + 1],
                                traces[j],
                                outcomes[j],
                            ) by {
                                assert(epoch0.subrange(0, done + 1)[j] == epoch0[j]);
                                if j < done {
                                    assert(epoch0.subrange(0, done)[j] == epoch0[j]);
                                    assert(event_step(
                                        *old(self),
                                        epoch0.subrange(0, done)[j],
                                        states[j],
                                        states[j + 1],
                                        traces0[j],
                                        outcomes0[j],
                                    ));
                                }
                            }
                        }
                        assert forall|i: int, s: int|
                            0 <= i < reg0.len() && 0 <= s < reg0[i].observable.num_slots()
                                && reg0[i].observable.slot_live(s)
                            implies #[trigger] self.registry@[i].observable.unread(s)
                            == reg0[i].observable.unread(s) + published_upto(
                            epoch0,
                            traces,
                            outcomes,
                            reg0[i].kind,
                            done + 1,
                        ) by {
                            lemma_published_upto_push(
                                epoch0,
                                traces0,
                                outcomes0,
                                Seq::empty(),
                                Seq::empty(),
                                reg0[i].kind,
                                done,
                            );
                            assert(published_upto(
                                epoch0,
                                traces,
                                outcomes,
                                reg0[i].kind,
                                done + 1,
                            ) =~= published_upto(epoch0, traces, outcomes, reg0[i].kind, done));
                        }
                    }
                },
                Some(i) => {
                    let mut set = self.registry.remove(i);
                    let ghost set0 = set;
                    let ghost w_before = *world;
                    let ghost imm_before = self.sender.staged_immediate();
                    let ghost del_before = self.sender.staged_delayed();
                    let published = dispatch_event(&mut set, se.event, world, &mut self.sender);
                    self.registry.insert(i, set);
                    proof {
                        assert(self.registry@ =~= snap.update(i as int, set));
                        assert(snap[i as int] == set0);
                        assert(set0.kind == se.kind);
                        let ik = i as int;
                        let (tr, res): (Seq<DispatchState<E, W>>, Seq<EventResult>) = choose|
                            tr: Seq<DispatchState<E, W>>,
                            res: Seq<EventResult>,
                        |
                            {
                                &&& chain_run(set0.handlers@, tr, res)
                                &&& tr[0] == (DispatchState {
                                    event: se.event,
                                    world: w_before,
                                    immediate: imm_before,
                                    delayed: del_before,
                                })
                                &&& tr.last().world == *world
                                &&& tr.last().immediate == self.sender.staged_immediate()
                                &&& tr.last().delayed == self.sender.staged_delayed()
                                &&& published == !chain_broke(res)
                                &&& (published ==> crate::observer::push_effect(
                                    set0.observable,
                                    set.observable,
                                    tr.last().event,
                                ))
                                &&& (!published ==> set.observable == set0.observable)
                            };
                        let ghost traces0 = traces;
                        let ghost outcomes0 = outcomes;
                        states = states.push(
                            StepState {
                                world: *world,
                                immediate: self.sender.staged_immediate(),
                                delayed: self.sender.staged_delayed(),
                            },
                        );
                        traces = traces.push(tr);
                        outcomes = outcomes.push(res);
                        assert(old(self).registered(se.kind) && old(self).kind_index(se.kind)
                            == ik) by {
                            assert(snap[ik].kind == reg0[ik].kind);
                            old(self).lemma_kind_index_unique(se.kind, ik);
                        }
                        assert(old(self).chain(se.kind) == reg0[ik].handlers@);
                        assert(reg0[ik].handlers == snap[ik].handlers);
                        assert(set0.handlers@ == reg0[ik].handlers@);
                        assert(step_run(
                            *old(self),
                            epoch0.subrange(0, done + 1),
                            states,
                            traces,
                            outcomes,
                        )) by {
                            assert forall|j: int|
                                0 <= j < done + 1 implies event_step(
                                *old(self),
                                #[trigger] epoch0.subrange(0, done + 1)[j],
                                states[j],
                                states[j + 1],
                                traces[j],
                                outcomes[j],
                            ) by {
                                assert(epoch0.subrange(0, done + 1)[j] == epoch0[j]);
                                if j < done {
                                    assert(epoch0.subrange(0, done)[j] == epoch0[j]);
                                    assert(event_step(
                                        *old(self),
                                        epoch0.subrange(0, done)[j],
                                        states[j],
                                        states[j + 1],
                                        traces0[j],
                                        outcomes0[j],
                                    ));
                                } else {
                                    assert(chain_run(old(self).chain(se.kind), tr, res));
                                    assert(states[done] == (StepState {
                                        world: w_before,
                                        immediate: imm_before,
                                        delayed: del_before,
                                    }));
                                }
                            }
                        }
                        assert forall|i2: int, s: int|
                            0 <= i2 < reg0.len() && 0 <= s < reg0[i2].observable.num_slots()
                                && reg0[i2].observable.slot_live(s)
                            implies #[trigger] self.registry@[i2].observable.unread(s)
                            == reg0[i2].observable.unread(s) + published_upto(
                            epoch0,
                            traces,
                            outcomes,
                            reg0[i2].kind,
                            done + 1,
                        ) by {
                            lemma_published_upto_push(
                                epoch0,
                                traces0,
                                outcomes0,
                                tr,
                                res,
                                reg0[i2].kind,
                                done,
                            );
                            if i2 == ik {
                                assert(set0.observable.slot_live(s)
                                    == reg0[i2].observable.slot_live(s));
                                assert(set0.observable.unread(s) == reg0[i2].observable.unread(s)
                                    + published_upto(
                                    epoch0,
                                    traces0,
                                    outcomes0,
                                    reg0[i2].kind,
                                    done,
                                ));
                                if published {
                                    assert(set.observable.unread(s) =~= set0.observable.unread(
                                        s,
                                    ).push(tr.last().event));
                                    assert(self.registry@[i2].observable.unread(s) =~= reg0[
                                        i2
                                    ].observable.unread(s) + published_upto(
                                        epoch0,
                                        traces,
                                        outcomes,
                                        reg0[i2].kind,
                                        done + 1,
                                    ));
                                } else {
                                    assert(set.observable == set0.observable);
                                    assert(self.registry@[i2].observable.unread(s) =~= reg0[
                                        i2
                                    ].observable.unread(s) + published_upto(
                                        epoch0,
                                        traces,
                                        outcomes,
                                        reg0[i2].kind,
                                        done + 1,
                                    ));
                                }
                            } else {
                                assert(reg0[i2].kind != se.kind) by {
                                    if reg0[i2].kind == se.kind {
                                        assert(snap[i2].kind == se.kind);
                                        assert(snap[ik].kind == se.kind);
                                    }
                                }
                                assert(self.registry@[i2].observable.unread(s) =~= reg0[
                                    i2
                                ].observable.unread(s) + published_upto(
                                    epoch0,
                                    traces,
                                    outcomes,
                                    reg0[i2].kind,
                                    done + 1,
                                ));
                            }
                        }
                        assert forall|i2: int|
                            0 <= i2 < reg0.len() && i2 != ik implies self.registry@[i2] == snap[
                        i2] by {}
                        assert forall|i2: int|
                            0 <= i2 < reg0.len() && (forall|j: int|
                                0 <= j < done + 1 ==> (#[trigger] epoch0[j]).kind
                                    != reg0[i2].kind) implies (
                        #[trigger] self.registry@[i2]).observable == reg0[i2].observable by {
                            assert(reg0[i2].kind != se.kind);
                            assert(i2 != ik);
                        }
                        assert forall|i2: int, s: int|
                            0 <= i2 < reg0.len() && 0 <= s < reg0[i2].observable.num_slots()
                                && reg0[i2].observable.slot_live(s) implies reg0[
                        i2].observable.unread(s).is_prefix_of(
                            #[trigger] self.registry@[i2].observable.unread(s),
                        ) by {
                            if i2 == ik {
                                lemma_prefix_chain(
                                    reg0[i2].observable.unread(s),
                                    set0.observable.unread(s),
                                    set.observable.unread(s),
                                );
                            }
                        }
                        assert forall|i2: int, s: int|
                            0 <= i2 < reg0.len() && 0 <= s < reg0[i2].observable.num_slots()
                                && reg0[i2].observable.slot_live(s)
                            implies #[trigger] self.registry@[i2].observable.unread(s).len()
                            <= reg0[i2].observable.unread(s).len() + events_of_kind(
                            epoch0.subrange(0, done + 1),
                            reg0[i2].kind,
                        ).len() by {
                            lemma_events_of_kind_step(epoch0, done, reg0[i2].kind);
                            if i2 == ik {
                                assert(set0.observable.slot_live(s)
                                    == reg0[i2].observable.slot_live(s));
                                if published {
                                    let ev2 = choose|ev2: E|
                                        crate::observer::push_effect(
                                            set0.observable,
                                            set.observable,
                                            ev2,
                                        );
                                    assert(set.observable.unread(s) =~= set0.observable.unread(
                                        s,
                                    ).push(ev2));
                                } else {
                                    assert(set.observable == set0.observable);
                                }
                            } else {
                                assert(reg0[i2].kind != se.kind) by {
                                    if reg0[i2].kind == se.kind {
                                        assert(snap[i2].kind == se.kind);
                                        assert(snap[ik].kind == se.kind);
                                    }
                                }
                            }
                        }
                        assert forall|i2: int, s: int|
                            0 <= i2 < reg0.len() && reg0[i2].handlers@.len() == 0 && 0 <= s
                                < reg0[i2].observable.num_slots()
                                && reg0[i2].observable.slot_live(s)
                            implies #[trigger] self.registry@[i2].observable.unread(s)
                            == reg0[i2].observable.unread(s) + events_of_kind(
                            epoch0.subrange(0, done + 1),
                            reg0[i2].kind,
                        ) by {
                            lemma_events_of_kind_step(epoch0, done, reg0[i2].kind);
                            if i2 == ik {
                                assert(set0.handlers == reg0[i2].handlers);
                                assert(set0.handlers@.len() == 0);
                                assert(crate::observer::push_effect(
                                    set0.observable,
                                    set.observable,
                                    se.event,
                                ));
                                assert(set0.observable.slot_live(s)
                                    == reg0[i2].observable.slot_live(s));
                                assert(set.observable.unread(s) =~= set0.observable.unread(
                                    s,
                                ).push(se.event));
                                assert(set0.observable.unread(s) == reg0[i2].observable.unread(s)
                                    + events_of_kind(epoch0.subrange(0, done), reg0[i2].kind));
                                assert(self.registry@[i2].observable.unread(s) =~= reg0[
                                    i2
                                ].observable.unread(s) + events_of_kind(
                                    epoch0.subrange(0, done + 1),
                                    reg0[i2].kind,
                                ));
                            } else {
                                assert(reg0[i2].kind != se.kind) by {
                                    if reg0[i2].kind == se.kind {
                                        assert(snap[i2].kind == se.kind);
                                        assert(snap[ik].kind == se.kind);
                                    }
                                }
                            }
                        }
                        if forall|j: int|
                            0 <= j < done + 1 ==> old(self).kind_inert(
                                (#[trigger] epoch0[j]).kind,
                            ) {
                            assert(old(self).kind_inert(epoch0[done].kind));
                            assert(0 <= ik < reg0.len());
                            assert(snap[ik].kind == reg0[ik].kind);
                            assert(old(self).registry@[ik].kind == se.kind);
                            assert(old(self).registered(se.kind));
                            old(self).lemma_kind_index_unique(se.kind, ik);
                            assert(old(self).chain(se.kind) == reg0[ik].handlers@);
                            assert(old(self).log(se.kind) == reg0[ik].observable);
                            assert(set0.handlers@.len() == 0);
                            assert(!reg0[ik].observable.has_live());
                            assert(!set0.observable.has_live()) by {
                                if set0.observable.has_live() {
                                    let sl = choose|sl: int|
                                        0 <= sl < set0.observable.num_slots()
                                            && set0.observable.slot_live(sl);
                                    assert(snap[ik].observable.slot_live(sl)
                                        == reg0[ik].observable.slot_live(sl));
                                    assert(reg0[ik].observable.has_live());
                                }
                            }
                            assert(crate::observer::push_effect(
                                set0.observable,
                                set.observable,
                                se.event,
                            ));
                            assert(set.observable.buffered().len() == 0);
                            assert(self.sender == sender_snap);
                            assert forall|i2: int|
                                0 <= i2 < reg0.len() implies ((
                            #[trigger] self.registry@[i2]).observable == reg0[i2].observable || (
                            self.registry@[i2].observable.buffered().len() == 0 && (forall|s: int|
                                0 <= s < reg0[i2].observable.num_slots()
                                    ==> self.registry@[i2].observable.front_of(s)
                                    == reg0[i2].observable.front_of(s)))) by {
                                if i2 == ik {
                                    assert forall|s: int|
                                        0 <= s < reg0[i2].observable.num_slots() implies
                                    self.registry@[i2].observable.front_of(s)
                                        == reg0[i2].observable.front_of(s) by {
                                        assert(set.observable.front_of(s)
                                            == set0.observable.front_of(s));
                                        assert(snap[ik].observable == set0.observable);
                                    }
                                } else {
                                    assert(self.registry@[i2].observable
                                        == snap[i2].observable);
                                }
                            }
                        }
                    }
                },
            }
            proof {
                done = done + 1;
            }
        }
        proof {
            assert(done == epoch0.len());
            assert(epoch0.subrange(0, done) =~= epoch0);
        }
        let staged = self.sender.take_staged();
        let imm = staged.0;
        let mut del = staged.1;
        let ghost imm0 = imm@;
        let ghost del0 = del@;
        let ghost inert_epoch = forall|j: int|
            0 <= j < epoch0.len() ==> old(self).kind_inert((#[trigger] epoch0[j]).kind);
        proof {
            if inert_epoch {
                assert(imm0.len() == 0 && del0.len() == 0);
            }
        }
        if imm.len() > 0 {
            self.queue.insert(0, imm);
        }
        let ghost q2 = self.queue@;
        let ghost reg_after = self.registry@;
        let ghost sender_after = self.sender;
        let ghost mut dd: int = 0;
        while del.len() > 0
            invariant
                0 <= dd <= del0.len(),
                del@ =~= del0.subrange(dd, del0.len() as int),
                self.queue@.len() == q2.len() + dd,
                forall|idx: int| 0 <= idx < q2.len() ==> self.queue@[idx] == q2[idx],
                forall|j: int|
                    0 <= j < dd ==> (#[trigger] self.queue@[q2.len() + j])@ =~= seq![del0[j]],
                self.registry@ == reg_after,
                self.sender == sender_after,
            decreases del@.len(),
        {
            let d = del.remove(0);
            proof {
                assert(d == del0[dd]);
                assert(del@ =~= del0.subrange(dd + 1, del0.len() as int));
            }
            let mut ep: Vec<ScheduledEvent<E>> = Vec::new();
            ep.push(d);
            self.queue.push(ep);
            proof {
                dd = dd + 1;
            }
        }
        proof {
            let target = (if imm0.len() > 0 {
                seq![imm0]
            } else {
                Seq::<Seq<ScheduledEvent<E>>>::empty()
            }) + old(self).epochs().drop_first() + singleton_epochs(del0);
            let head: int = if imm0.len() > 0 {
                1
            } else {
                0
            };
            assert(q1.len() == old(self).epochs().drop_first().len());
            assert forall|idx: int|
                0 <= idx < q1.len() implies q1[idx]@ == old(self).epochs().drop_first()[idx] by {
                assert(old(self).epochs().drop_first()[idx] == old(self).epochs()[idx + 1]);
                assert(old(self).epochs()[idx + 1] == old(self).queue@[idx + 1]@);
                assert(q1[idx] == old(self).queue@[idx + 1]);
            }
            assert(q2.len() == head + q1.len());
            assert(final(self).epochs().len() == target.len());
            assert forall|idx: int|
                0 <= idx < target.len() implies final(self).epochs()[idx] =~~= target[idx] by {
                assert(final(self).epochs()[idx] == self.queue@[idx]@);
                if idx < head {
                    assert(self.queue@[0] == q2[0]);
                    assert(q2[0]@ == imm0);
                    assert(target[0] == imm0);
                } else if idx < head + q1.len() {
                    assert(self.queue@[idx] == q2[idx]);
                    assert(q2[idx] == q1[idx - head]);
                    assert(target[idx] == old(self).epochs().drop_first()[idx - head]);
                } else {
                    let j = idx - head - q1.len();
                    assert(self.queue@[q2.len() + j]@ =~= seq![del0[j]]);
                    assert(target[idx] == singleton_epochs(del0)[j]);
                    assert(singleton_epochs(del0)[j] == seq![del0[j]]);
                }
            }
            assert(final(self).epochs() =~~= target);
            assert(final(self).epochs() == target);
            if inert_epoch {
                assert(final(self).epochs() =~~= old(self).epochs().drop_first());
            }
            // the dispatch run assembled through the loop is the witness
            // for the step's trace clause
            assert(epoch0.subrange(0, done) =~= epoch0);
            assert(step_run(*old(self), epoch0, states, traces, outcomes));
            assert(states.last().immediate == imm0);
            assert(states.last().delayed == del0);
            assert(final(self).epochs() == (if states.last().immediate.len() > 0 {
                seq![states.last().immediate]
            } else {
                Seq::<Seq<ScheduledEvent<E>>>::empty()
            }) + old(self).epochs().drop_first() + singleton_epochs(states.last().delayed));
            assert forall|k: u64, s: int|
                old(self).registered(k) && 0 <= s < old(self).log(k).num_slots() && old(
                    self,
                ).log(k).slot_live(s) implies final(self).log(k).unread(s) == old(self).log(
                k,
            ).unread(s) + published_events(epoch0, traces, outcomes, k) by {
                let jx = old(self).kind_index(k);
                old(self).lemma_kind_index_unique(k, jx);
                assert(reg0[jx].observable == old(self).log(k));
                self.lemma_kind_index_unique(k, jx);
                assert(final(self).log(k) == self.registry@[jx].observable);
            }
            // per-kind facts carry from the registry to the spec views
            assert forall|k: u64| old(self).registered(k) implies final(self).registered(k)
                && final(self).kind_index(k) == old(self).kind_index(k) by {
                let j = old(self).kind_index(k);
                old(self).lemma_kind_index_unique(k, j);
                assert(self.registry@[j].kind == k);
                self.lemma_kind_index_unique(k, j);
            }
            assert forall|k: u64| final(self).registered(k) implies old(self).registered(k) by {
                let j = self.kind_index(k);
                assert(reg0[j].kind == k);
                old(self).lemma_kind_index_unique(k, j);
            }
        }
        true
    }
}

/// Law: lower priority dispatches earlier. In a well-formed scheduler the
/// chain of every registered kind is dispatched front to back, and an
/// entry with a strictly lower priority always stands in front of one
/// with a higher priority, on every dispatch.
pub proof fn lemma_priority_order<E, H>(s: &Scheduler<E, H>, kind: u64, i: int, j: int)
    requires
        s.wf(),
        s.registered(kind),
        0 <= i < s.chain(kind).len(),
        0 <= j < s.chain(kind).len(),
        s.chain(kind)[i].priority < s.chain(kind)[j].priority,
    ensures
        i < j,
{
    if i >= j {
        assert(s.chain(kind)[j].priority <= s.chain(kind)[i].priority);
    }
}

/// Law: registration order is kept among handlers of equal priority.
/// Registering `h1` and later `h2` at the same priority leaves `h1`
/// standing somewhere in front of `h2` in the final chain, so `h1` is
/// dispatched first.
pub proof fn lemma_equal_priority_stable<H>(
    c0: Seq<HandlerEntry<H>>,
    c1: Seq<HandlerEntry<H>>,
    c2: Seq<HandlerEntry<H>>,
    priority: i32,
    h1: H,
    h2: H,
)
    requires
        stable_insert(c0, c1, priority, h1),
        stable_insert(c1, c2, priority, h2),
    ensures
        exists|i1: int, i2: int|
            {
                &&& 0 <= i1 < i2 < c2.len()
                &&& #[trigger] c2[i1] == HandlerEntry { priority, handler: h1 }
                &&& #[trigger] c2[i2] == HandlerEntry { priority, handler: h2 }
            },
{
    let idx1 = choose|idx: int|
        {
            &&& 0 <= idx <= c0.len()
            &&& (forall|j: int| 0 <= j < idx ==> (#[trigger] c0[j]).priority <= priority)
            &&& (forall|j: int| idx <= j < c0.len() ==> (#[trigger] c0[j]).priority > priority)
            &&& c1 == c0.insert(idx, HandlerEntry { priority, handler: h1 })
        };
    let idx2 = choose|idx: int|
        {
            &&& 0 <= idx <= c1.len()
            &&& (forall|j: int| 0 <= j < idx ==> (#[trigger] c1[j]).priority <= priority)
            &&& (forall|j: int| idx <= j < c1.len() ==> (#[trigger] c1[j]).priority > priority)
            &&& c2 == c1.insert(idx, HandlerEntry { priority, handler: h2 })
        };
    assert(c1[idx1] == HandlerEntry { priority, handler: h1 });
    assert(idx1 < idx2) by {
        if idx2 <= idx1 {
            assert(c1[idx1].priority > priority);
        }
    }
    assert(c2[idx1] == c1[idx1]);
    assert(c2[idx2] == HandlerEntry { priority, handler: h2 });
    assert(0 <= idx1 < idx2 < c2.len());
}

/// Prefix-of composes.
proof fn lemma_prefix_chain<A>(a: Seq<A>, b: Seq<A>, c: Seq<A>)
    requires
        a.is_prefix_of(b),
        b.is_prefix_of(c),
    ensures
        a.is_prefix_of(c),
{
    assert(a =~= c.subrange(0, a.len() as int));
}

/// `after` is `before` with `(priority, handler)` placed after every entry
/// of priority at most `priority` and before every strictly greater one:
/// the position a stable, ascending insertion assigns.
pub open spec fn stable_insert<H>(
    before: Seq<HandlerEntry<H>>,
    after: Seq<HandlerEntry<H>>,
    priority: i32,
    handler: H,
) -> bool {
    exists|idx: int|
        {
            &&& 0 <= idx <= before.len()
            &&& (forall|j: int| 0 <= j < idx ==> (#[trigger] before[j]).priority <= priority)
            &&& (forall|j: int| idx <= j < before.len() ==> (#[trigger] before[j]).priority > priority)
            &&& after == before.insert(idx, HandlerEntry { priority, handler })
        }
}

} // verus!
