//! The subscriber set of the broadcaster, as a state machine.
//!
//! The manager owns the ids of the live subscribers, in the order in which
//! they connected. It does no input or output itself: the caller performs the
//! [`Action`] it is handed (try to accept a connection, write the record to
//! one subscriber) and reports what happened as the next [`Event`]. A
//! broadcast first drains the pending connections, then writes the record to
//! every subscriber in order; a subscriber whose write fails is removed at
//! once and the next one is written next.

use vstd::prelude::*;

verus! {

/// What the caller reports to the manager.
#[derive(Debug)]
pub enum Event {
    /// A record is ready to be broadcast.
    Begin(String),
    /// The listener handed over a new connection.
    Connected,
    /// The listener has no connection waiting.
    NonePending,
    /// The listener failed for another reason.
    ListenerFailed,
    /// The record was written to the subscriber asked for.
    Delivered,
    /// The write to the subscriber asked for failed.
    WriteFailed,
}

/// What the manager asks of the caller. After everything but `Finished` the
/// caller reports an event.
#[derive(Clone, Copy, Debug, PartialEq, Eq, Structural)]
pub enum Action {
    /// Try to accept a connection, without blocking.
    Accept,
    /// Keep the new connection under this id, then try to accept another.
    Admit(usize),
    /// Close the new connection, then try to accept another.
    Refuse,
    /// Write the record to this subscriber, dropping it if the write fails.
    Write(usize),
    /// Nothing is left to do until the next record.
    Finished,
}

/// Where the manager stands in a broadcast.
#[derive(Clone, Copy, Debug, PartialEq, Eq, Structural)]
pub enum Phase {
    /// Between broadcasts.
    Idle,
    /// Draining the pending connections.
    Accepting,
    /// Waiting for the outcome of the write to the subscriber at this
    /// position.
    Writing(usize),
}

/// The mathematical content of a [`ConnectionManager`].
pub struct ManagerView {
    /// Ids of the live subscribers, in the order in which they connected.
    pub clients: Seq<usize>,
    /// The id that the next subscriber gets.
    pub next_id: usize,
    pub phase: Phase,
    /// The record of the current broadcast.
    pub record: Seq<char>,
}

/// The event that reports the outcome of a write.
pub open spec fn write_event(delivered: bool) -> Event {
    if delivered {
        Event::Delivered
    } else {
        Event::WriteFailed
    }
}

impl ManagerView {
    /// There are no more subscribers than ids given out; their ids ascend,
    /// so none occurs twice, and lie below the next id; and a write is only
    /// awaited from a subscriber that is there.
    pub open spec fn wf(self) -> bool {
        &&& self.clients.len() <= self.next_id
        &&& forall|i: int, j: int|
            0 <= i < j < self.clients.len() ==> self.clients[i] < self.clients[j]
        &&& forall|i: int| 0 <= i < self.clients.len() ==> self.clients[i] < self.next_id
        &&& self.phase matches Phase::Writing(at) ==> at < self.clients.len()
    }

    /// A manager without subscribers, between broadcasts.
    pub open spec fn empty() -> ManagerView {
        ManagerView { clients: Seq::empty(), next_id: 0, phase: Phase::Idle, record: Seq::empty() }
    }

    /// The action that the manager is waiting on.
    pub open spec fn awaited(self) -> Action {
        match self.phase {
            Phase::Idle => Action::Finished,
            Phase::Accepting => Action::Accept,
            Phase::Writing(at) => Action::Write(self.clients[at as int]),
        }
    }

    /// The state in which the subscriber at `at` is written next, or the
    /// broadcast is over when there is none.
    pub open spec fn writing_from(self, at: int) -> ManagerView {
        ManagerView {
            phase: if 0 <= at < self.clients.len() {
                Phase::Writing(at as usize)
            } else {
                Phase::Idle
            },
            ..self
        }
    }

    /// The state after `event`, and the action asked for in reply.
    ///
    /// - `Begin` starts a broadcast of its record, whatever went before, and
    ///   asks for a connection.
    /// - While accepting, `Connected` appends a subscriber under the next id
    ///   (or refuses it when the ids are used up) and asks for another
    ///   connection; `NonePending` and `ListenerFailed` end the accepting and
    ///   turn to the first subscriber.
    /// - While writing, `Delivered` turns to the next subscriber;
    ///   `WriteFailed` removes the subscriber written to and turns to the one
    ///   that followed it.
    /// - Any other event changes nothing and is answered with the action
    ///   still awaited.
    pub open spec fn step(self, event: Event) -> (ManagerView, Action) {
        match (self.phase, event) {
            (_, Event::Begin(record)) => (
                ManagerView { phase: Phase::Accepting, record: record@, ..self },
                Action::Accept,
            ),
            (Phase::Accepting, Event::Connected) => if self.next_id < usize::MAX {
                (
                    ManagerView {
                        clients: self.clients.push(self.next_id),
                        next_id: (self.next_id + 1) as usize,
                        ..self
                    },
                    Action::Admit(self.next_id),
                )
            } else {
                (self, Action::Refuse)
            },
            (Phase::Accepting, Event::NonePending) | (Phase::Accepting, Event::ListenerFailed) => {
                let next = self.writing_from(0);
                (next, next.awaited())
            },
            (Phase::Writing(at), Event::Delivered) => {
                let next = self.writing_from(at + 1);
                (next, next.awaited())
            },
            (Phase::Writing(at), Event::WriteFailed) => {
                let next = ManagerView {
                    clients: self.clients.remove(at as int),
                    ..self
                }.writing_from(at as int);
                (next, next.awaited())
            },
            _ => (self, self.awaited()),
        }
    }

    /// The state after `events`, handled in order.
    pub open spec fn run(self, events: Seq<Event>) -> ManagerView
        decreases events.len(),
    {
        if events.len() == 0 {
            self
        } else {
            self.step(events[0]).0.run(events.drop_first())
        }
    }

    /// The actions asked for in reply to `events`, one for each.
    pub open spec fn replies(self, events: Seq<Event>) -> Seq<Action>
        decreases events.len(),
    {
        if events.len() == 0 {
            Seq::empty()
        } else {
            seq![self.step(events[0]).1] + self.step(events[0]).0.replies(events.drop_first())
        }
    }
}

/// The subscribers among `clients` whose write was delivered, in order:
/// `delivered[k]` tells the outcome of the write to `clients[k]`.
pub open spec fn survivors(clients: Seq<usize>, delivered: Seq<bool>) -> Seq<usize>
    decreases clients.len(),
{
    if clients.len() == 0 {
        Seq::empty()
    } else if delivered[0] {
        seq![clients[0]] + survivors(clients.drop_first(), delivered.drop_first())
    } else {
        survivors(clients.drop_first(), delivered.drop_first())
    }
}

/// The events that report the outcomes of successive writes.
pub open spec fn write_events(delivered: Seq<bool>) -> Seq<Event> {
    Seq::new(delivered.len(), |k: int| write_event(delivered[k]))
}

/// The events of a whole broadcast of `record` during which no connection
/// arrives: the start, the end of accepting (`drained`), and the outcome of
/// each write.
pub open spec fn broadcast_events(record: String, drained: Event, delivered: Seq<bool>) -> Seq<
    Event,
> {
    seq![Event::Begin(record), drained] + write_events(delivered)
}

/// From the middle of a broadcast to its end: with the write to the
/// subscriber at `at` awaited and one outcome for it and for each one after
/// it, every one of them is asked for in turn, and those whose write failed
/// are gone at the end.
proof fn lemma_writes(m: ManagerView, pos: usize, delivered: Seq<bool>)
    requires
        m.wf(),
        m.phase == Phase::Writing(pos),
        delivered.len() == m.clients.len() - pos,
    ensures
        m.run(write_events(delivered)) == (ManagerView {
            clients: m.clients.take(pos as int) + survivors(m.clients.skip(pos as int), delivered),
            phase: Phase::Idle,
            ..m
        }),
        m.run(write_events(delivered)).wf(),
        m.replies(write_events(delivered)).len() == delivered.len(),
        forall|k: int|
            0 <= k < delivered.len() - 1 ==> #[trigger] m.replies(write_events(delivered))[k]
                == Action::Write(m.clients[pos + k + 1]),
        m.replies(write_events(delivered))[delivered.len() - 1] == Action::Finished,
    decreases delivered.len(),
{
    let at = pos as int;
    let events = write_events(delivered);
    let rest = delivered.drop_first();
    let next = m.step(events[0]).0;
    assert(events[0] == write_event(delivered[0]));
    assert(events.drop_first() =~= write_events(rest));
    assert(m.clients.skip(at).drop_first() =~= m.clients.skip(at + 1));
    let tail = survivors(m.clients.skip(at + 1), rest);
    if at + 1 < m.clients.len() {
        if delivered[0] {
            lemma_writes(next, (pos + 1) as usize, rest);
            assert(m.clients.take(at + 1) + tail =~= m.clients.take(at) + (seq![m.clients[at]]
                + tail));
        } else {
            assert(next.clients.take(at) =~= m.clients.take(at));
            assert(next.clients.skip(at) =~= m.clients.skip(at + 1));
            lemma_writes(next, pos, rest);
        }
        let later = next.replies(write_events(rest));
        assert forall|k: int| 0 <= k < delivered.len() - 1 implies #[trigger] m.replies(events)[k]
            == Action::Write(m.clients[at + k + 1]) by {
            if k > 0 {
                assert(m.replies(events)[k] == later[k - 1]);
            }
        }
        assert(m.replies(events)[delivered.len() - 1] == later[delivered.len() - 2]);
    } else {
        assert(tail =~= Seq::<usize>::empty());
        assert(rest =~= Seq::<bool>::empty());
        if delivered[0] {
            assert(next.clients =~= m.clients.take(at) + (seq![m.clients[at]] + tail));
        } else {
            assert(next.clients =~= m.clients.take(at) + tail);
        }
        assert(write_events(rest).len() == 0);
        assert(next.run(write_events(rest)) == next);
        assert(next.replies(write_events(rest)) =~= Seq::<Action>::empty());
        assert(m.step(events[0]).1 == Action::Finished);
        assert(m.replies(events) =~= seq![Action::Finished]);
    }
}

/// A broadcast reaches every subscriber exactly once, in the order in which
/// they connected, whatever fails on the way; afterwards exactly those whose
/// write was delivered are left, in their old order, and the manager is idle.
///
/// The replies to the events of the broadcast are `Accept`, then one `Write`
/// for each subscriber that was there at the start, then `Finished`.
pub proof fn lemma_broadcast_reaches_everyone(
    m: ManagerView,
    record: String,
    drained: Event,
    delivered: Seq<bool>,
)
    requires
        m.wf(),
        drained is NonePending || drained is ListenerFailed,
        delivered.len() == m.clients.len(),
    ensures
        m.run(broadcast_events(record, drained, delivered)) == (ManagerView {
            clients: survivors(m.clients, delivered),
            phase: Phase::Idle,
            record: record@,
            ..m
        }),
        m.run(broadcast_events(record, drained, delivered)).wf(),
        m.replies(broadcast_events(record, drained, delivered)).len() == m.clients.len() + 2,
        m.replies(broadcast_events(record, drained, delivered))[0] == Action::Accept,
        forall|k: int|
            0 <= k < m.clients.len() ==> #[trigger] m.replies(
                broadcast_events(record, drained, delivered),
            )[k + 1] == Action::Write(m.clients[k]),
        m.replies(broadcast_events(record, drained, delivered)).last() == Action::Finished,
{
    let events = broadcast_events(record, drained, delivered);
    let accepting = m.step(events[0]).0;
    let writing = accepting.step(events[1]).0;
    assert(events.drop_first().drop_first() =~= write_events(delivered));
    assert(events.drop_first()[0] == drained);
    let later = writing.replies(write_events(delivered));
    assert(m.replies(events) =~= seq![Action::Accept, accepting.step(drained).1] + later) by {
        assert(m.replies(events) == seq![Action::Accept] + accepting.replies(events.drop_first()));
        assert(accepting.replies(events.drop_first()) == seq![accepting.step(drained).1] + later);
    }
    assert(m.run(events) == writing.run(write_events(delivered))) by {
        assert(m.run(events) == accepting.run(events.drop_first()));
        assert(accepting.run(events.drop_first()) == writing.run(write_events(delivered)));
    }
    if m.clients.len() > 0 {
        lemma_writes(writing, 0, delivered);
        assert(m.clients.take(0) + survivors(m.clients.skip(0), delivered) =~= survivors(
            m.clients,
            delivered,
        )) by {
            assert(m.clients.skip(0) =~= m.clients);
        }
        assert forall|k: int| 0 <= k < m.clients.len() implies #[trigger] m.replies(events)[k + 1]
            == Action::Write(m.clients[k]) by {
            if k > 0 {
                assert(m.replies(events)[k + 1] == later[k - 1]);
            }
        }
        assert(m.replies(events).last() == later[m.clients.len() - 1]);
    } else {
        assert(delivered =~= Seq::<bool>::empty());
        assert(survivors(m.clients, delivered) =~= m.clients);
    }
}

/// Where every write but the one to the subscriber at `failed` is delivered,
/// exactly that subscriber is left out afterwards.
pub proof fn lemma_survivors_of_one_failure(clients: Seq<usize>, failed: int)
    requires
        0 <= failed < clients.len(),
    ensures
        survivors(clients, Seq::new(clients.len(), |k: int| k != failed)) == clients.remove(
            failed,
        ),
    decreases clients.len(),
{
    let delivered = Seq::new(clients.len(), |k: int| k != failed);
    let rest = clients.drop_first();
    if failed == 0 {
        assert(delivered.drop_first() =~= Seq::new(rest.len(), |k: int| true));
        lemma_survivors_of_no_failure(rest);
        assert(clients.remove(0) =~= rest);
    } else {
        assert(delivered.drop_first() =~= Seq::new(rest.len(), |k: int| k != failed - 1));
        lemma_survivors_of_one_failure(rest, failed - 1);
        assert(clients.remove(failed) =~= seq![clients[0]] + rest.remove(failed - 1));
    }
}

/// Where every write is delivered, every subscriber is left.
pub proof fn lemma_survivors_of_no_failure(clients: Seq<usize>)
    ensures
        survivors(clients, Seq::new(clients.len(), |k: int| true)) == clients,
    decreases clients.len(),
{
    if clients.len() > 0 {
        let delivered = Seq::new(clients.len(), |k: int| true);
        let rest = clients.drop_first();
        assert(delivered.drop_first() =~= Seq::new(rest.len(), |k: int| true));
        lemma_survivors_of_no_failure(rest);
        assert(clients =~= seq![clients[0]] + rest);
    }
}

/// With `n` subscribers connected, a broadcast during which only the write
/// to the subscriber at `failed` fails removes exactly that subscriber:
/// every subscriber, that one too, is asked to be written once, and
/// afterwards the other `n - 1` are left in their old order.
pub proof fn lemma_one_failure_removes_one(
    m: ManagerView,
    record: String,
    drained: Event,
    failed: int,
)
    requires
        m.wf(),
        drained is NonePending || drained is ListenerFailed,
        0 <= failed < m.clients.len(),
    ensures
        ({
            let delivered = Seq::new(m.clients.len(), |k: int| k != failed);
            let events = broadcast_events(record, drained, delivered);
            &&& m.run(events).clients == m.clients.remove(failed)
            &&& m.run(events).clients.len() == m.clients.len() - 1
            &&& m.run(events).record == record@
            &&& forall|k: int|
                0 <= k < m.clients.len() ==> #[trigger] m.replies(events)[k + 1] == Action::Write(
                    m.clients[k],
                )
        }),
{
    let delivered = Seq::new(m.clients.len(), |k: int| k != failed);
    lemma_broadcast_reaches_everyone(m, record, drained, delivered);
    lemma_survivors_of_one_failure(m.clients, failed);
}

/// While accepting, `n` connections in a row are admitted under the next `n`
/// ids and appended behind the subscribers already there, as long as the ids
/// last.
pub proof fn lemma_connections_admitted_in_order(m: ManagerView, n: nat)
    requires
        m.wf(),
        m.phase == Phase::Accepting,
        m.next_id + n <= usize::MAX,
    ensures
        m.run(Seq::new(n, |k: int| Event::Connected)) == (ManagerView {
            clients: m.clients + Seq::new(n, |k: int| (m.next_id + k) as usize),
            next_id: (m.next_id + n) as usize,
            ..m
        }),
        m.run(Seq::new(n, |k: int| Event::Connected)).wf(),
        m.replies(Seq::new(n, |k: int| Event::Connected)) == Seq::new(
            n,
            |k: int| Action::Admit((m.next_id + k) as usize),
        ),
    decreases n,
{
    let events = Seq::new(n, |k: int| Event::Connected);
    if n == 0 {
        assert(m.clients + Seq::new(n, |k: int| (m.next_id + k) as usize) =~= m.clients);
        assert(m.replies(events) =~= Seq::new(n, |k: int| Action::Admit((m.next_id + k) as usize)));
    } else {
        let next = m.step(Event::Connected).0;
        let fewer = (n - 1) as nat;
        assert(events.drop_first() =~= Seq::new(fewer, |k: int| Event::Connected));
        lemma_connections_admitted_in_order(next, fewer);
        assert(next.clients + Seq::new(fewer, |k: int| (next.next_id + k) as usize) =~= m.clients
            + Seq::new(n, |k: int| (m.next_id + k) as usize));
        assert(m.replies(events) =~= Seq::new(n, |k: int| Action::Admit((m.next_id + k) as usize)));
    }
}

/// Only the start of a broadcast changes the record: it stays what it is
/// over any events among which there is no `Begin`.
pub proof fn lemma_record_kept(m: ManagerView, events: Seq<Event>)
    requires
        forall|k: int| 0 <= k < events.len() ==> !(events[k] is Begin),
    ensures
        m.run(events).record == m.record,
    decreases events.len(),
{
    if events.len() > 0 {
        lemma_record_kept(m.step(events[0]).0, events.drop_first());
    }
}

/// The subscriber set of the broadcaster.
#[derive(Debug)]
pub struct ConnectionManager {
    clients: Vec<usize>,
    next_id: usize,
    phase: Phase,
    record: String,
}

impl View for ConnectionManager {
    type V = ManagerView;

    closed spec fn view(&self) -> ManagerView {
        ManagerView {
            clients: self.clients@,
            next_id: self.next_id,
            phase: self.phase,
            record: self.record@,
        }
    }
}

impl ConnectionManager {
    /// A manager without subscribers.
    pub fn new() -> (manager: ConnectionManager)
        ensures
            manager@ == ManagerView::empty(),
            manager@.wf(),
    {
        ConnectionManager {
            clients: Vec::new(),
            next_id: 0,
            phase: Phase::Idle,
            record: String::new(),
        }
    }

    /// Handles one event of a broadcast and says what to do next.
    ///
    /// A broadcast is driven by calling this with `Event::Begin` and the
    /// record, performing the action returned, and calling it again with
    /// what happened, until it returns `Action::Finished`.
    pub fn broadcast_message(&mut self, event: Event) -> (action: Action)
        requires
            old(self)@.wf(),
        ensures
            (final(self)@, action) == old(self)@.step(event),
            final(self)@.wf(),
    {
        match event {
            Event::Begin(record) => {
                self.record = record;
                self.phase = Phase::Accepting;
                Action::Accept
            },
            other => match self.phase {
                Phase::Idle => Action::Finished,
                Phase::Accepting => self.accept_new_connections(other),
                Phase::Writing(at) => self.write_next(at, other),
            },
        }
    }

    /// One turn of draining the pending connections.
    fn accept_new_connections(&mut self, event: Event) -> (action: Action)
        requires
            old(self)@.wf(),
            old(self)@.phase == Phase::Accepting,
            !(event is Begin),
        ensures
            (final(self)@, action) == old(self)@.step(event),
            final(self)@.wf(),
    {
        match event {
            Event::Connected => {
                if self.next_id < usize::MAX {
                    let id: usize = self.next_id;
                    self.next_id = id + 1;
                    self.clients.push(id);
                    Action::Admit(id)
                } else {
                    Action::Refuse
                }
            },
            Event::NonePending | Event::ListenerFailed => self.write_from(0),
            _ => Action::Accept,
        }
    }

    /// One turn of writing the record to the subscribers: the write to the
    /// subscriber at `at` has ended.
    fn write_next(&mut self, at: usize, event: Event) -> (action: Action)
        requires
            old(self)@.wf(),
            old(self)@.phase == Phase::Writing(at),
            !(event is Begin),
        ensures
            (final(self)@, action) == old(self)@.step(event),
            final(self)@.wf(),
    {
        match event {
            Event::Delivered => {
                assert(at < self.clients.len());
                self.write_from(at + 1)
            },
            Event::WriteFailed => {
                self.clients.remove(at);
                self.write_from(at)
            },
            _ => Action::Write(self.clients[at]),
        }
    }

    /// Turns to the subscriber at `at`, or ends the broadcast when there is
    /// none.
    fn write_from(&mut self, at: usize) -> (action: Action)
        ensures
            final(self)@ == old(self)@.writing_from(at as int),
            action == final(self)@.awaited(),
    {
        if at < self.clients.len() {
            self.phase = Phase::Writing(at);
            Action::Write(self.clients[at])
        } else {
            self.phase = Phase::Idle;
            Action::Finished
        }
    }

    /// Number of live subscribers.
    pub fn client_count(&self) -> (n: usize)
        ensures
            n == self@.clients.len(),
    {
        self.clients.len()
    }

    /// The ids of the live subscribers, in the order in which they connected.
    pub fn clients(&self) -> (ids: &Vec<usize>)
        ensures
            ids@ == self@.clients,
    {
        &self.clients
    }

    /// The record of the current broadcast.
    pub fn record(&self) -> (text: &str)
        ensures
            text@ == self@.record,
    {
        self.record.as_str()
    }

    /// Where the manager stands in a broadcast.
    pub fn phase(&self) -> (phase: Phase)
        ensures
            phase == self@.phase,
    {
        self.phase
    }
}

} // verus!
