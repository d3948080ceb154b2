//! The dispatcher: what the relay does with each thing that happens on a
//! socket. Every function here takes the outcome of an accept or of a read and
//! answers with the action that its caller is to perform.
//!
//! Policy on reads that fail: a failed read is ignored and its connection
//! stays registered; only a read of zero bytes retires a connection.
//! A relayed message goes to every registered connection, its sender included,
//! and a write that fails changes nothing in the registry.

use crate::registry::Registry;
use vstd::prelude::*;

verus! {

/// The size of the buffer that one read fills: a longer message arrives as
/// several reads and is relayed as several messages.
pub const READ_CAPACITY: usize = 1024;

/// What is to be done with a descriptor that a wait reported ready.
#[derive(Clone, Copy, Debug, PartialEq, Eq, Structural)]
pub enum Task {
    /// The listening socket is ready: accept a pending connection.
    Accept,
    /// A peer's socket is ready: read from it once.
    Read(i32),
}

/// What one read on a peer's socket gave.
#[derive(Debug, PartialEq, Eq)]
pub enum ReadOutcome {
    /// The read returned these bytes; none at all when the peer has closed.
    Bytes(Vec<u8>),
    /// The read failed, or would have blocked.
    Failed,
}

/// What the caller is to do after the relay has taken note of an event.
#[derive(Debug, PartialEq, Eq)]
pub enum Action {
    /// Nothing.
    Idle,
    /// The connection with this descriptor was registered: announce it.
    Connected(i32),
    /// The connection with this descriptor was retired and let go of:
    /// announce it.
    Disconnected(i32),
    /// Write `payload` once to each of `targets`; a write that fails is
    /// passed over and the next target is served.
    Relay { payload: Vec<u8>, targets: Vec<i32> },
}

/// A connection being accepted or being found closed.
pub enum Lifecycle {
    /// The connection with this descriptor was accepted.
    Connect(i32),
    /// The connection with this descriptor was found closed.
    Disconnect(i32),
}

/// The registered descriptors after one event.
pub open spec fn step(clients: Set<i32>, event: Lifecycle) -> Set<i32> {
    match event {
        Lifecycle::Connect(fd) => clients.insert(fd),
        Lifecycle::Disconnect(fd) => clients.remove(fd),
    }
}

/// The registered descriptors after a run of events, the earliest first.
pub open spec fn replay(start: Set<i32>, events: Seq<Lifecycle>) -> Set<i32>
    decreases events.len(),
{
    if events.len() == 0 {
        start
    } else {
        step(replay(start, events.drop_last()), events.last())
    }
}

/// `fd` was accepted at some point of `events` and not found closed since.
pub open spec fn open_after(events: Seq<Lifecycle>, fd: i32) -> bool {
    exists|i: int|
        0 <= i < events.len() && #[trigger] events[i] == Lifecycle::Connect(fd) && forall|j: int|
            i < j < events.len() ==> #[trigger] events[j] != Lifecycle::Disconnect(fd)
}

/// `targets` names every registered descriptor, and each exactly once.
pub open spec fn is_fan_out(targets: Seq<i32>, clients: Set<i32>) -> bool {
    targets.no_duplicates() && targets.to_set() == clients
}

/// The watch set of a relay: the listening descriptor first, then every
/// registered descriptor once.
pub open spec fn is_watch_set(watched: Seq<i32>, listener: i32, clients: Set<i32>) -> bool {
    watched.len() > 0 && watched[0] == listener && is_fan_out(watched.drop_first(), clients)
}

/// However connections come and go, the registry of a relay that started
/// without connections holds exactly the descriptors that were accepted and
/// not found closed since.
pub proof fn lemma_registry_tracks_open_connections(events: Seq<Lifecycle>, fd: i32)
    ensures
        replay(Set::empty(), events).contains(fd) <==> open_after(events, fd),
    decreases events.len(),
{
    if events.len() > 0 {
        let before = events.drop_last();
        let n = events.len() - 1;
        lemma_registry_tracks_open_connections(before, fd);
        if events.last() == Lifecycle::Connect(fd) {
            assert(events[n] == Lifecycle::Connect(fd));
        } else if events.last() == Lifecycle::Disconnect(fd) {
            assert(events[n] == Lifecycle::Disconnect(fd));
        } else {
            if open_after(before, fd) {
                let i = choose|i: int|
                    0 <= i < before.len() && #[trigger] before[i] == Lifecycle::Connect(fd)
                        && forall|j: int|
                        i < j < before.len() ==> #[trigger] before[j] != Lifecycle::Disconnect(fd);
                assert(events[i] == Lifecycle::Connect(fd));
                assert forall|j: int| i < j < events.len() implies #[trigger] events[j]
                    != Lifecycle::Disconnect(fd) by {
                    if j < n {
                        assert(before[j] == events[j]);
                    }
                }
            }
            if open_after(events, fd) {
                let i = choose|i: int|
                    0 <= i < events.len() && #[trigger] events[i] == Lifecycle::Connect(fd)
                        && forall|j: int|
                        i < j < events.len() ==> #[trigger] events[j] != Lifecycle::Disconnect(fd);
                assert(before[i] == Lifecycle::Connect(fd));
                assert forall|j: int| i < j < before.len() implies #[trigger] before[j]
                    != Lifecycle::Disconnect(fd) by {
                    assert(before[j] == events[j]);
                }
            }
        }
    }
}

/// A relay among `clients` makes as many writes as there are registered
/// connections, one to each, the sender's own among them.
pub proof fn lemma_relay_reaches_each_once(clients: Set<i32>, sender: i32, targets: Seq<i32>)
    requires
        clients.contains(sender),
        is_fan_out(targets, clients),
    ensures
        clients.finite(),
        targets.len() == clients.len(),
        targets.contains(sender),
        forall|fd: i32| clients.contains(fd) <==> #[trigger] targets.contains(fd),
        forall|i: int, j: int|
            0 <= i < targets.len() && 0 <= j < targets.len() && targets[i] == targets[j] ==> i == j,
{
    vstd::seq_lib::seq_to_set_is_finite(targets);
    targets.unique_seq_to_set();
    assert forall|fd: i32| clients.contains(fd) <==> #[trigger] targets.contains(fd) by {
        assert(targets.to_set().contains(fd) <==> targets.contains(fd));
    }
}

/// Once a connection is found closed, no relay writes to it, whatever else
/// happens, until its descriptor is accepted anew.
pub proof fn lemma_closed_peer_is_never_served(
    clients: Set<i32>,
    closed: i32,
    later: Seq<Lifecycle>,
    targets: Seq<i32>,
)
    requires
        forall|i: int| 0 <= i < later.len() ==> #[trigger] later[i] != Lifecycle::Connect(closed),
        is_fan_out(targets, replay(step(clients, Lifecycle::Disconnect(closed)), later)),
    ensures
        !targets.contains(closed),
{
    lemma_absent_stays_absent(step(clients, Lifecycle::Disconnect(closed)), closed, later);
    assert(targets.to_set().contains(closed) <==> targets.contains(closed));
}

/// A descriptor that is not registered stays so while it is not accepted.
proof fn lemma_absent_stays_absent(start: Set<i32>, fd: i32, events: Seq<Lifecycle>)
    requires
        !start.contains(fd),
        forall|i: int| 0 <= i < events.len() ==> #[trigger] events[i] != Lifecycle::Connect(fd),
    ensures
        !replay(start, events).contains(fd),
    decreases events.len(),
{
    if events.len() > 0 {
        let before = events.drop_last();
        assert forall|i: int| 0 <= i < before.len() implies #[trigger] before[i]
            != Lifecycle::Connect(fd) by {
            assert(before[i] == events[i]);
        }
        lemma_absent_stays_absent(start, fd, before);
        assert(events[events.len() - 1] != Lifecycle::Connect(fd));
    }
}

/// The relay's state: the descriptor it listens on and the registry of its
/// connections. `C` is whatever a caller keeps of a connection (its socket).
pub struct Server<C> {
    listener: i32,
    clients: Registry<C>,
}

impl<C> Server<C> {
    /// The descriptor of the listening socket.
    pub closed spec fn listener(&self) -> i32 {
        self.listener
    }

    /// The registered connections, each under its descriptor.
    pub closed spec fn connections(&self) -> Map<i32, C> {
        self.clients@
    }

    /// The descriptors of the registered connections.
    pub open spec fn clients(&self) -> Set<i32> {
        self.connections().dom()
    }

    /// A relay that listens on `listener` and has no connections yet.
    pub fn new(listener: i32) -> (made: Server<C>)
        ensures
            made.listener() == listener,
            made.connections() == Map::<i32, C>::empty(),
            made.clients() == Set::<i32>::empty(),
    {
        Server { listener, clients: Registry::new() }
    }

    /// The registry always holds finitely many connections.
    pub proof fn lemma_clients_finite(&self)
        ensures
            self.clients().finite(),
    {
        self.clients.lemma_finite();
    }

    /// The descriptor of the listening socket.
    pub fn listener_descriptor(&self) -> (fd: i32)
        ensures
            fd == self.listener(),
    {
        self.listener
    }

    /// Whether a connection with this descriptor is registered.
    pub fn is_registered(&self, fd: i32) -> (known: bool)
        ensures
            known == self.clients().contains(fd),
    {
        self.clients.contains(fd)
    }

    /// The connection that is registered under `fd`, if there is one.
    pub fn connection(&self, fd: i32) -> (found: Option<&C>)
        ensures
            found == if self.clients().contains(fd) {
                Some(&self.connections()[fd])
            } else {
                None
            },
    {
        self.clients.get(fd)
    }

    /// The number of registered connections.
    pub fn client_count(&self) -> (count: usize)
        ensures
            count == self.clients().len(),
    {
        self.clients.len()
    }

    /// The descriptors to wait on in the next pass: the listening descriptor
    /// first, then every registered descriptor once.
    pub fn watch_set(&self) -> (watched: Vec<i32>)
        ensures
            is_watch_set(watched@, self.listener(), self.clients()),
            watched@.len() == self.clients().len() + 1,
    {
        let mut watched = self.clients.descriptors();
        let ghost peers = watched@;
        watched.insert(0, self.listener);
        proof {
            assert(watched@.drop_first() =~= peers);
        }
        watched
    }

    /// What to do with a descriptor that a wait reported: accept on the
    /// listening descriptor, read on any other.
    pub fn task_for(&self, fd: i32) -> (task: Task)
        ensures
            task == if fd == self.listener() {
                Task::Accept
            } else {
                Task::Read(fd)
            },
    {
        if fd == self.listener {
            Task::Accept
        } else {
            Task::Read(fd)
        }
    }

    /// Takes the outcome of one accept on the listening socket: the new
    /// connection with its descriptor, or `None` when nothing was pending or
    /// the accept failed. A new connection is registered, in the place of any
    /// that was registered under its descriptor; the rest is passed over.
    pub fn client_connect(&mut self, accepted: Option<(i32, C)>) -> (action: Action)
        ensures
            final(self).listener() == old(self).listener(),
            accepted matches Some((fd, connection)) ==> {
                &&& action == Action::Connected(fd)
                &&& final(self).connections() == old(self).connections().insert(fd, connection)
                &&& final(self).clients() == step(old(self).clients(), Lifecycle::Connect(fd))
            },
            accepted is None ==> action == Action::Idle && final(self).connections() == old(
                self,
            ).connections(),
    {
        match accepted {
            Some((fd, connection)) => {
                self.clients.insert(fd, connection);
                Action::Connected(fd)
            },
            None => Action::Idle,
        }
    }

    /// Retires the connection with descriptor `fd` and lets go of it.
    pub fn client_disconnect(&mut self, fd: i32) -> (action: Action)
        ensures
            final(self).listener() == old(self).listener(),
            final(self).connections() == old(self).connections().remove(fd),
            final(self).clients() == step(old(self).clients(), Lifecycle::Disconnect(fd)),
            action == Action::Disconnected(fd),
    {
        self.clients.remove(fd);
        Action::Disconnected(fd)
    }

    /// Addresses `message` to every registered connection.
    pub fn broadcast(&self, message: Vec<u8>) -> (action: Action)
        ensures
            action matches Action::Relay { payload, targets } && payload@ == message@ && is_fan_out(
                targets@,
                self.clients(),
            ) && targets@.len() == self.clients().len(),
    {
        let targets = self.clients.descriptors();
        Action::Relay { payload: message, targets }
    }

    /// Takes the outcome of one read on the connection with descriptor `fd`.
    /// No bytes: the peer has closed, and the connection is retired. Some
    /// bytes: they are one message, relayed as they are to every registered
    /// connection, `fd` included. A failed read changes nothing.
    pub fn recieve(&mut self, fd: i32, outcome: ReadOutcome) -> (action: Action)
        requires
            old(self).clients().contains(fd),
        ensures
            final(self).listener() == old(self).listener(),
            match outcome {
                ReadOutcome::Bytes(bytes) => if bytes@.len() == 0 {
                    &&& action == Action::Disconnected(fd)
                    &&& final(self).connections() == old(self).connections().remove(fd)
                    &&& final(self).clients() == step(
                        old(self).clients(),
                        Lifecycle::Disconnect(fd),
                    )
                } else {
                    &&& action matches Action::Relay { payload, targets } && payload@ == bytes@
                        && is_fan_out(targets@, old(self).clients()) && targets@.len() == old(
                        self,
                    ).clients().len() && targets@.contains(fd)
                    &&& final(self).connections() == old(self).connections()
                },
                ReadOutcome::Failed => action == Action::Idle && final(self).connections() == old(
                    self,
                ).connections(),
            },
    {
        match outcome {
            ReadOutcome::Bytes(bytes) => {
                if bytes.len() == 0 {
                    self.client_disconnect(fd)
                } else {
                    let action = self.broadcast(bytes);
                    proof {
                        lemma_relay_reaches_each_once(self.clients(), fd, action->targets@);
                    }
                    action
                }
            },
            ReadOutcome::Failed => Action::Idle,
        }
    }
}

} // verus!
