//! The readiness multiplexer's bookkeeping: the bound handed to a readiness
//! wait, and the walk over the watched descriptors that yields the ready ones.

use vstd::prelude::*;

verus! {

/// Whole seconds that one wait may block before it gives up.
pub const WAIT_SECONDS: i64 = 1;

/// Microseconds added to [`WAIT_SECONDS`].
pub const WAIT_MICROSECONDS: i64 = 0;

/// Number of descriptors that a readiness bitmask has room for; a descriptor
/// fits when it lies in `0..DESCRIPTOR_CAPACITY`.
pub const DESCRIPTOR_CAPACITY: i32 = 1024;

/// The greatest of the watched descriptors, and -1 when nothing is watched.
pub open spec fn highest(watched: Seq<i32>) -> int
    decreases watched.len(),
{
    if watched.len() == 0 {
        -1
    } else {
        let front = watched.drop_last();
        if front.len() == 0 || watched.last() > highest(front) {
            watched.last() as int
        } else {
            highest(front)
        }
    }
}

/// Every watched descriptor has a place in a readiness bitmask.
pub open spec fn all_fit(watched: Seq<i32>) -> bool {
    forall|i: int| 0 <= i < watched.len() ==> 0 <= #[trigger] watched[i] < DESCRIPTOR_CAPACITY
}

/// The test that picks the readable descriptors.
pub open spec fn is_readable(readable: Set<i32>) -> spec_fn(i32) -> bool {
    |fd: i32| readable.contains(fd)
}

/// The watched descriptors that are readable, in the order in which they are
/// watched. A descriptor watched twice and readable is yielded twice.
pub open spec fn ready_descriptors(watched: Seq<i32>, readable: Set<i32>) -> Seq<i32> {
    watched.filter(is_readable(readable))
}

/// `highest` is an upper bound of the watched descriptors, and is one of them
/// unless nothing is watched.
pub proof fn lemma_highest_is_maximum(watched: Seq<i32>)
    ensures
        watched.len() == 0 ==> highest(watched) == -1,
        watched.len() > 0 ==> exists|i: int|
            0 <= i < watched.len() && #[trigger] watched[i] == highest(watched),
        forall|i: int| 0 <= i < watched.len() ==> #[trigger] watched[i] <= highest(watched),
        i32::MIN <= highest(watched) <= i32::MAX,
    decreases watched.len(),
{
    if watched.len() > 0 {
        let front = watched.drop_last();
        lemma_highest_is_maximum(front);
        if front.len() == 0 || watched.last() > highest(front) {
            assert(watched[watched.len() - 1] == highest(watched));
        } else {
            let i = choose|i: int| 0 <= i < front.len() && #[trigger] front[i] == highest(front);
            assert(watched[i] == highest(watched));
        }
        assert forall|i: int| 0 <= i < watched.len() implies #[trigger] watched[i] <= highest(
            watched,
        ) by {
            if i < front.len() {
                assert(front[i] == watched[i]);
            }
        }
    }
}

/// Descriptors that fit a readiness bitmask stay below its capacity.
pub proof fn lemma_fitting_descriptors_bound(watched: Seq<i32>)
    requires
        all_fit(watched),
    ensures
        -1 <= highest(watched) < DESCRIPTOR_CAPACITY,
{
    lemma_highest_is_maximum(watched);
}

/// The first watched descriptor is the first ready one if it is readable, and
/// is passed over if not; the ready descriptors of the rest follow.
pub proof fn lemma_ready_unfold(watched: Seq<i32>, readable: Set<i32>)
    requires
        watched.len() > 0,
    ensures
        ready_descriptors(watched, readable) == if readable.contains(watched[0]) {
            seq![watched[0]] + ready_descriptors(watched.drop_first(), readable)
        } else {
            ready_descriptors(watched.drop_first(), readable)
        },
{
    let pred = is_readable(readable);
    let head = seq![watched[0]];
    let tail = watched.drop_first();
    assert(watched =~= head + tail);
    Seq::filter_distributes_over_add(head, tail, pred);
    reveal_with_fuel(Seq::filter, 2);
    assert(head.drop_last() =~= Seq::<i32>::empty());
    assert(head.last() == watched[0]);
    if readable.contains(watched[0]) {
        assert(head.filter(pred) =~= head);
    } else {
        assert(head.filter(pred) =~= Seq::<i32>::empty());
        assert(Seq::<i32>::empty() + tail.filter(pred) =~= tail.filter(pred));
    }
}

/// With nothing watched, nothing is ready, whatever is readable, and the
/// bound that the wait takes is 0.
pub proof fn lemma_nothing_watched_nothing_ready(readable: Set<i32>)
    ensures
        ready_descriptors(Seq::<i32>::empty(), readable) == Seq::<i32>::empty(),
        highest(Seq::<i32>::empty()) + 1 == 0,
{
    reveal_with_fuel(Seq::filter, 1);
}

/// Every ready descriptor is watched and readable, and every watched and
/// readable descriptor is ready.
pub proof fn lemma_ready_exactly_watched_and_readable(watched: Seq<i32>, readable: Set<i32>)
    ensures
        forall|fd: i32| #[trigger]
            ready_descriptors(watched, readable).contains(fd) <==> watched.contains(fd)
                && readable.contains(fd),
        ready_descriptors(watched, readable).len() <= watched.len(),
{
    let pred = is_readable(readable);
    let ready = ready_descriptors(watched, readable);
    watched.lemma_filter_len(pred);
    assert forall|fd: i32| #[trigger] ready.contains(fd) <==> watched.contains(fd)
        && readable.contains(fd) by {
        if ready.contains(fd) {
            watched.lemma_filter_contains_rev(pred, fd);
            let i = choose|i: int| 0 <= i < ready.len() && ready[i] == fd;
            watched.lemma_filter_pred(pred, i);
        }
        if watched.contains(fd) && readable.contains(fd) {
            let j = choose|j: int| 0 <= j < watched.len() && watched[j] == fd;
            watched.lemma_filter_contains(pred, j);
        }
    }
}

/// The greatest watched descriptor, and -1 when nothing is watched.
pub fn highest_descriptor(fds: &Vec<i32>) -> (top: i32)
    ensures
        top == highest(fds@),
{
    let mut top: i32 = -1;
    let mut i: usize = 0;
    while i < fds.len()
        invariant
            i <= fds.len(),
            top == highest(fds@.subrange(0, i as int)),
        decreases fds.len() - i,
    {
        proof {
            assert(fds@.subrange(0, i + 1).drop_last() =~= fds@.subrange(0, i as int));
        }
        if i == 0 || fds[i] > top {
            top = fds[i];
        }
        i += 1;
    }
    proof {
        assert(fds@.subrange(0, i as int) =~= fds@);
    }
    top
}

/// The bound that a readiness wait takes beside its bitmask: one more than
/// the greatest watched descriptor, and 0 when nothing is watched.
pub fn descriptor_limit(fds: &Vec<i32>) -> (limit: i32)
    requires
        highest(fds@) < i32::MAX,
    ensures
        limit == highest(fds@) + 1,
{
    let top = highest_descriptor(fds);
    top + 1
}

/// Whether every watched descriptor has a place in a readiness bitmask.
pub fn fits_bitmask(fds: &Vec<i32>) -> (fits: bool)
    ensures
        fits == all_fit(fds@),
{
    let mut i: usize = 0;
    while i < fds.len()
        invariant
            i <= fds.len(),
            forall|j: int| 0 <= j < i ==> 0 <= #[trigger] fds@[j] < DESCRIPTOR_CAPACITY,
        decreases fds.len() - i,
    {
        if fds[i] < 0 || fds[i] >= DESCRIPTOR_CAPACITY {
            return false;
        }
        i += 1;
    }
    true
}

/// Whether `fd` occurs in `fds`.
fn holds(fds: &Vec<i32>, fd: i32) -> (found: bool)
    ensures
        found == fds@.contains(fd),
{
    let mut i: usize = 0;
    while i < fds.len()
        invariant
            i <= fds.len(),
            forall|j: int| 0 <= j < i ==> fds@[j] != fd,
        decreases fds.len() - i,
    {
        if fds[i] == fd {
            return true;
        }
        i += 1;
    }
    false
}

/// Why a readiness wait failed.
#[derive(Clone, Copy, Debug, PartialEq, Eq, Structural)]
pub struct WaitError {
    /// The operating system's error number for the failed wait.
    pub code: i32,
}

/// The outcome of one readiness wait: the watched descriptors, and a cursor
/// that walks them once and stops at each one that the wait found readable.
pub struct Select {
    fds: Vec<i32>,
    readable: Vec<i32>,
    index: usize,
}

impl Select {
    #[verifier::type_invariant]
    spec fn cursor_in_range(&self) -> bool {
        self.index <= self.fds.len()
    }

    /// The descriptors still to be yielded, in order.
    pub closed spec fn remaining(&self) -> Seq<i32> {
        ready_descriptors(
            self.fds@.subrange(self.index as int, self.fds@.len() as int),
            self.readable@.to_set(),
        )
    }

    /// The descriptors that were watched.
    pub closed spec fn watched(&self) -> Seq<i32> {
        self.fds@
    }

    /// Takes the outcome of a readiness wait on `fds`: `status` is what the
    /// wait returned, `errno` the error number read right after it, and
    /// `readable` the members of the bitmask that the wait left behind.
    ///
    /// A status of -1 is the wait's failure and is handed on as the error.
    /// Any other status (0 after a timeout included) gives a walk over the
    /// watched descriptors that are readable.
    pub fn new(fds: Vec<i32>, status: i32, errno: i32, readable: Vec<i32>) -> (made: Result<
        Select,
        WaitError,
    >)
        ensures
            status == -1 <==> made is Err,
            made is Err ==> made->Err_0.code == errno,
            made is Ok ==> made->Ok_0.watched() == fds@ && made->Ok_0.remaining()
                == ready_descriptors(fds@, readable@.to_set()),
    {
        if status == -1 {
            return Err(WaitError { code: errno });
        }
        proof {
            assert(fds@.subrange(0, fds@.len() as int) =~= fds@);
        }
        Ok(Select { fds, readable, index: 0 })
    }

    /// Yields the next ready descriptor, or `None` once the walk is over.
    pub fn next(&mut self) -> (fd: Option<i32>)
        ensures
            final(self).watched() == old(self).watched(),
            old(self).remaining().len() == 0 ==> fd is None && final(self).remaining().len() == 0,
            old(self).remaining().len() > 0 ==> fd == Some(old(self).remaining()[0])
                && final(self).remaining() == old(self).remaining().drop_first(),
    {
        proof {
            use_type_invariant(&*self);
        }
        while self.index < self.fds.len()
            invariant
                self.index <= self.fds.len(),
                self.fds == old(self).fds,
                self.readable == old(self).readable,
                self.remaining() == old(self).remaining(),
            decreases self.fds.len() - self.index,
        {
            let fd = self.fds[self.index];
            proof {
                let rest = self.fds@.subrange(self.index as int, self.fds@.len() as int);
                lemma_ready_unfold(rest, self.readable@.to_set());
                assert(rest.drop_first() =~= self.fds@.subrange(
                    self.index + 1,
                    self.fds@.len() as int,
                ));
            }
            self.index += 1;
            if holds(&self.readable, fd) {
                proof {
                    let ready = old(self).remaining();
                    assert(ready.drop_first() =~= self.remaining());
                }
                return Some(fd);
            }
        }
        proof {
            lemma_nothing_watched_nothing_ready(self.readable@.to_set());
            assert(self.fds@.subrange(self.index as int, self.fds@.len() as int) =~= Seq::<
                i32,
            >::empty());
        }
        None
    }
}

} // verus!
