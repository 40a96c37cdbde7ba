//! Group commit.

use std::time::{Duration, Instant};

use vstd::prelude::*;

use crate::clock;
use crate::clock::{duration_nanos, instant_now, instant_since};
use crate::wal::writer::PendingWrite;

verus! {

/// Group commit batcher: accumulates pending writes and asks for a flush when
/// the batch is full or its oldest write has waited long enough.
pub struct GroupCommitBatcher {
    pending: Vec<PendingWrite>,
    max_batch_size: usize,
    first_pending_at: Option<Instant>,
}

impl View for GroupCommitBatcher {
    type V = Seq<PendingWrite>;

    closed spec fn view(&self) -> Seq<PendingWrite> {
        self.pending@
    }
}

/// Whether a batch is to be flushed when its oldest write has waited `elapsed`
/// nanoseconds.
pub open spec fn due(
    pending: Seq<PendingWrite>,
    max_batch_size: usize,
    elapsed: u128,
    max_delay: Duration,
) -> bool {
    pending.len() >= max_batch_size || (pending.len() > 0 && elapsed >= clock::nanos_of(max_delay))
}

/// Whether a batch is to be flushed at `now`: it is full, or its timer has run
/// for `max_delay`.
pub open spec fn due_at(b: GroupCommitBatcher, now: Instant, max_delay: Duration) -> bool {
    match b.started() {
        Some(started) => due(b@, b.capacity(), clock::nanos_between(started, now), max_delay),
        None => b@.len() >= b.capacity(),
    }
}

/// Whether a batch came from another one by adding a write: the first one starts
/// the timer, and later ones leave it as it is.
pub open spec fn is_push(
    before: GroupCommitBatcher,
    after: GroupCommitBatcher,
    pw: PendingWrite,
) -> bool {
    &&& after@ == before@.push(pw)
    &&& after.capacity() == before.capacity()
    &&& after.started() is Some
    &&& before@.len() > 0 ==> after.started() == before.started()
}

/// However many writes are added to an empty batch, its timer is the one that the
/// first of them started, and the batch holds them in order.
pub proof fn law_first_write_starts_the_timer(
    batches: Seq<GroupCommitBatcher>,
    writes: Seq<PendingWrite>,
)
    requires
        writes.len() > 0,
        batches.len() == writes.len() + 1,
        batches[0]@ == Seq::<PendingWrite>::empty(),
        forall|i: int|
            0 <= i < writes.len() ==> is_push(
                batches[i],
                #[trigger] batches[i + 1],
                #[trigger] writes[i],
            ),
    ensures
        batches.last()@ == writes,
        batches.last().started() is Some,
        batches.last().started() == batches[1].started(),
        batches.last().capacity() == batches[0].capacity(),
    decreases writes.len(),
{
    let last = writes.len() - 1;
    assert(is_push(batches[last], batches[last + 1], writes[last]));
    if last > 0 {
        let (b, w) = (batches.drop_last(), writes.drop_last());
        assert forall|i: int| 0 <= i < w.len() implies is_push(
            b[i],
            #[trigger] b[i + 1],
            #[trigger] w[i],
        ) by {
            assert(is_push(batches[i], batches[i + 1], writes[i]));
        }
        law_first_write_starts_the_timer(b, w);
    }
    assert(batches.last()@ =~= writes);
}

impl GroupCommitBatcher {
    /// The number of writes that fills a batch.
    pub closed spec fn capacity(&self) -> usize {
        self.max_batch_size
    }

    /// When the oldest pending write was added.
    pub closed spec fn started(&self) -> Option<Instant> {
        self.first_pending_at
    }

    /// The time of the oldest write is known if and only if there is one.
    pub open spec fn wf(&self) -> bool {
        self.started() is Some <==> self@.len() > 0
    }

    /// An empty batch.
    pub fn new(max_batch_size: usize) -> (b: Self)
        ensures
            b.wf(),
            b@ == Seq::<PendingWrite>::empty(),
            b.capacity() == max_batch_size,
            b.started() is None,
    {
        Self { pending: Vec::new(), max_batch_size, first_pending_at: None }
    }

    /// Adds a pending write. The first one starts the timer, with whatever the
    /// clock shows; later ones leave it as it is.
    pub fn push(&mut self, pw: PendingWrite)
        requires
            old(self).wf(),
        ensures
            final(self).wf(),
            is_push(*old(self), *final(self), pw),
    {
        if self.pending.len() == 0 {
            self.first_pending_at = Some(instant_now());
        }
        self.pending.push(pw);
    }

    /// Whether the batch is full.
    pub fn is_batch_full(&self) -> (r: bool)
        ensures
            r == (self@.len() >= self.capacity()),
    {
        self.pending.len() >= self.max_batch_size
    }

    /// Whether there are pending writes.
    pub fn has_pending(&self) -> (r: bool)
        ensures
            r == (self@.len() > 0),
    {
        self.pending.len() > 0
    }

    /// Takes all pending writes and starts a new batch.
    pub fn drain(&mut self) -> (all: Vec<PendingWrite>)
        ensures
            final(self).wf(),
            all@ == old(self)@,
            final(self)@ == Seq::<PendingWrite>::empty(),
            final(self).capacity() == old(self).capacity(),
            final(self).started() is None,
    {
        self.first_pending_at = None;
        let mut all: Vec<PendingWrite> = Vec::new();
        std::mem::swap(&mut all, &mut self.pending);
        all
    }

    /// When the oldest pending write was added.
    pub fn pending_since(&self) -> (r: Option<Instant>)
        ensures
            r == self.started(),
    {
        self.first_pending_at
    }

    /// Whether the batch is to be flushed when its oldest write, if there is
    /// one, has waited `elapsed`.
    pub fn is_due(&self, elapsed: Duration, max_delay: Duration) -> (r: bool)
        ensures
            r == due(self@, self.capacity(), clock::nanos_of(elapsed), max_delay),
    {
        self.is_batch_full() || (self.has_pending() && duration_nanos(elapsed) >= duration_nanos(
            max_delay,
        ))
    }

    /// Whether the batch is to be flushed at `now`.
    pub fn is_due_at(&self, now: Instant, max_delay: Duration) -> (r: bool)
        requires
            self.wf(),
        ensures
            r == due_at(*self, now, max_delay),
    {
        match self.pending_since() {
            Some(started) => self.is_due(instant_since(now, started), max_delay),
            None => self.is_batch_full(),
        }
    }

    /// Whether the batch is to be flushed now. The point `now` that the clock
    /// showed is not determined.
    pub fn should_flush(&self, max_delay: Duration) -> (r: bool)
        requires
            self.wf(),
        ensures
            exists|now: Instant| r == #[trigger] due_at(*self, now, max_delay),
            self@.len() == 0 || self@.len() >= self.capacity() ==> r == (self@.len()
                >= self.capacity()),
    {
        let now: Instant = instant_now();
        let r: bool = self.is_due_at(now, max_delay);
        assert(r == due_at(*self, now, max_delay));
        r
    }
}

/// A batch is to be flushed if it is full, however short it has waited, and if it
/// holds anything and has waited as long as a write may. One that is neither full nor
/// has waited so long is not, and one that holds nothing has nothing to wait for.
pub proof fn law_flush_is_due_when_full_or_late(
    pending: Seq<PendingWrite>,
    max_batch_size: usize,
    elapsed: u128,
    max_delay: Duration,
)
    ensures
        pending.len() >= max_batch_size ==> due(pending, max_batch_size, elapsed, max_delay),
        pending.len() > 0 && elapsed >= clock::nanos_of(max_delay) ==> due(
            pending,
            max_batch_size,
            elapsed,
            max_delay,
        ),
        pending.len() < max_batch_size && elapsed < clock::nanos_of(max_delay) ==> !due(
            pending,
            max_batch_size,
            elapsed,
            max_delay,
        ),
        pending.len() == 0 && max_batch_size > 0 ==> !due(
            pending,
            max_batch_size,
            elapsed,
            max_delay,
        ),
{
}

/// The time that a batch has waited is counted from when its timer started.
pub proof fn law_flush_waits_for_the_timer(
    b: GroupCommitBatcher,
    started: Instant,
    now: Instant,
    max_delay: Duration,
)
    requires
        b.wf(),
    ensures
        b@.len() >= b.capacity() ==> due_at(b, now, max_delay),
        b@.len() == 0 && b.capacity() > 0 ==> !due_at(b, now, max_delay),
        b.started() == Some(started) && b@.len() < b.capacity() ==> (due_at(b, now, max_delay)
            <==> clock::nanos_between(started, now) >= clock::nanos_of(max_delay)),
{
}

/// Adding a write puts it behind the others, and leaves the size of a batch as it is.
/// It starts the timer if it is the first, and does not touch it otherwise.
pub proof fn law_write_goes_behind_the_others(
    before: GroupCommitBatcher,
    after: GroupCommitBatcher,
    pw: PendingWrite,
)
    requires
        is_push(before, after, pw),
    ensures
        after@.len() == before@.len() + 1,
        after@.last() == pw,
        after@.drop_last() == before@,
        after.capacity() == before.capacity(),
        after.started() is Some,
        before@.len() > 0 ==> after.started() == before.started(),
{
    assert(after@.drop_last() =~= before@);
}

} // verus!
