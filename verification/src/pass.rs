//! One pass of the relay's loop, as a model: the ready descriptors of one wait
//! are served in the order in which they are yielded, against a registry that
//! changes while they are served. The laws here say that a peer's descriptor
//! is still registered when its turn comes.

use crate::select::{is_readable, ready_descriptors};
use crate::server::{is_watch_set, step, Lifecycle};
use vstd::prelude::*;

verus! {

/// Every descriptor of `ready` other than the listener is registered, and
/// occurs in `ready` once.
pub open spec fn servable(ready: Seq<i32>, listener: i32, clients: Set<i32>) -> bool {
    &&& forall|i: int|
        0 <= i < ready.len() && #[trigger] ready[i] != listener ==> clients.contains(ready[i])
    &&& forall|i: int, j: int|
        0 <= i < j < ready.len() && #[trigger] ready[i] == #[trigger] ready[j] ==> ready[i]
            == listener
}

/// What serving the ready descriptor `fd` may make of the registry: an accept
/// on the listener leaves it as it is or adds a descriptor; a read on a peer
/// leaves it as it is or retires that peer.
pub open spec fn may_follow(clients: Set<i32>, listener: i32, fd: i32, after: Set<i32>) -> bool {
    if fd == listener {
        after == clients || exists|accepted: i32|
            after == #[trigger] step(clients, Lifecycle::Connect(accepted))
    } else {
        after == clients || after == step(clients, Lifecycle::Disconnect(fd))
    }
}

/// What an accept makes of the registry is among what may follow the
/// serving of the listener.
pub proof fn lemma_accept_may_follow(clients: Set<i32>, listener: i32, accepted: Option<i32>)
    ensures
        may_follow(
            clients,
            listener,
            listener,
            match accepted {
                Some(fd) => step(clients, Lifecycle::Connect(fd)),
                None => clients,
            },
        ),
{
}

/// What a read makes of the registry, whether it finds the peer closed or
/// not, is among what may follow the serving of that peer.
pub proof fn lemma_read_may_follow(clients: Set<i32>, listener: i32, fd: i32, closed: bool)
    requires
        fd != listener,
    ensures
        may_follow(
            clients,
            listener,
            fd,
            if closed {
                step(clients, Lifecycle::Disconnect(fd))
            } else {
                clients
            },
        ),
{
}

/// `fd` occurs in `s` at most once.
pub open spec fn at_most_once(s: Seq<i32>, fd: i32) -> bool {
    forall|i: int, j: int|
        0 <= i < j < s.len() && #[trigger] s[i] == fd ==> #[trigger] s[j] != fd
}

/// Picking the readable descriptors out of a watch list repeats none that
/// the list holds once.
pub proof fn lemma_ready_repeats_nothing(watched: Seq<i32>, readable: Set<i32>, fd: i32)
    requires
        at_most_once(watched, fd),
    ensures
        at_most_once(ready_descriptors(watched, readable), fd),
    decreases watched.len(),
{
    reveal(Seq::filter);
    let pred = is_readable(readable);
    if watched.len() > 0 {
        let front = watched.drop_last();
        let picked = front.filter(pred);
        assert forall|i: int, j: int|
            0 <= i < j < front.len() && #[trigger] front[i] == fd implies #[trigger] front[j]
            != fd by {
            assert(watched[i] == fd);
            assert(watched[j] == front[j]);
        }
        lemma_ready_repeats_nothing(front, readable, fd);
        if pred(watched.last()) && watched.last() == fd {
            if picked.contains(fd) {
                front.lemma_filter_contains_rev(pred, fd);
                let i = choose|i: int| 0 <= i < front.len() && front[i] == fd;
                assert(watched[i] == fd);
                assert(watched[watched.len() - 1] == fd);
            }
            assert(ready_descriptors(watched, readable) == picked.push(fd));
        }
    }
}

/// When a pass begins, the ready descriptors of a wait on the relay's watch
/// set can be served: each one that is not the listener is a registered
/// peer, and none of those comes twice.
pub proof fn lemma_ready_descriptors_are_servable(
    watched: Seq<i32>,
    listener: i32,
    clients: Set<i32>,
    readable: Set<i32>,
)
    requires
        is_watch_set(watched, listener, clients),
    ensures
        servable(ready_descriptors(watched, readable), listener, clients),
{
    let ready = ready_descriptors(watched, readable);
    let peers = watched.drop_first();
    assert forall|i: int|
        0 <= i < ready.len() && #[trigger] ready[i] != listener implies clients.contains(
        ready[i],
    ) by {
        let fd = ready[i];
        assert(ready.contains(fd));
        watched.lemma_filter_contains_rev(is_readable(readable), fd);
        let k = choose|k: int| 0 <= k < watched.len() && watched[k] == fd;
        assert(peers[k - 1] == fd);
        assert(peers.to_set().contains(fd));
    }
    assert forall|i: int, j: int|
        0 <= i < j < ready.len() && #[trigger] ready[i] == #[trigger] ready[j] implies ready[i]
        == listener by {
        let fd = ready[i];
        if fd != listener {
            assert forall|a: int, b: int|
                0 <= a < b < watched.len() && #[trigger] watched[a] == fd implies
                #[trigger] watched[b] != fd by {
                assert(peers[a - 1] == watched[a]);
                assert(peers[b - 1] == watched[b]);
            }
            lemma_ready_repeats_nothing(watched, readable, fd);
        }
    }
}

/// Serving the first ready descriptor leaves the others servable, whatever
/// the accept or the read gave.
pub proof fn lemma_serving_keeps_the_rest_servable(
    ready: Seq<i32>,
    listener: i32,
    clients: Set<i32>,
    after: Set<i32>,
)
    requires
        ready.len() > 0,
        servable(ready, listener, clients),
        may_follow(clients, listener, ready[0], after),
    ensures
        ready[0] != listener ==> clients.contains(ready[0]),
        servable(ready.drop_first(), listener, after),
{
    let rest = ready.drop_first();
    assert forall|i: int|
        0 <= i < rest.len() && #[trigger] rest[i] != listener implies after.contains(
        rest[i],
    ) by {
        assert(rest[i] == ready[i + 1]);
        if ready[0] != listener && ready[0] == ready[i + 1] {
            assert(ready[0] == listener);
        }
    }
    assert forall|i: int, j: int|
        0 <= i < j < rest.len() && #[trigger] rest[i] == #[trigger] rest[j] implies rest[i]
        == listener by {
        assert(rest[i] == ready[i + 1]);
        assert(rest[j] == ready[j + 1]);
    }
}

/// Through a whole pass, every peer whose turn comes is still registered:
/// `registries[k]` is the registry when `ready[k]` is served, and each
/// serving makes of it one of the things that serving may.
pub proof fn lemma_every_served_peer_is_registered(
    ready: Seq<i32>,
    listener: i32,
    registries: Seq<Set<i32>>,
    k: int,
)
    requires
        registries.len() == ready.len() + 1,
        servable(ready, listener, registries[0]),
        forall|i: int|
            0 <= i < ready.len() ==> may_follow(
                #[trigger] registries[i],
                listener,
                ready[i],
                registries[i + 1],
            ),
        0 <= k < ready.len(),
        ready[k] != listener,
    ensures
        registries[k].contains(ready[k]),
    decreases k,
{
    if k > 0 {
        let rest = ready.drop_first();
        let later = registries.drop_first();
        assert(may_follow(registries[0], listener, ready[0], registries[1]));
        lemma_serving_keeps_the_rest_servable(ready, listener, registries[0], registries[1]);
        assert forall|i: int| 0 <= i < rest.len() implies may_follow(
            #[trigger] later[i],
            listener,
            rest[i],
            later[i + 1],
        ) by {
            assert(later[i] == registries[i + 1]);
            assert(later[i + 1] == registries[i + 2]);
            assert(rest[i] == ready[i + 1]);
        }
        lemma_every_served_peer_is_registered(rest, listener, later, k - 1);
    }
}

} // verus!
