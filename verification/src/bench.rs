//! What the clients of the cluster benchmark do with the answers they get.

use vstd::prelude::*;

use crate::protocol::types::Status;

verus! {

/// What came back for a request: the status and the offset of the response, or
/// nothing if the connection failed.
pub type Answer = Option<(Status, u64)>;

/// What a client does next.
#[derive(Debug, Clone, Copy, PartialEq, Eq, Structural)]
pub enum Step {
    /// Everything below this LSN is done.
    Done { below: u64 },
    /// Ask again after a pause; nothing is wrong.
    Wait { pause_ms: u64 },
    /// Connect again to the same replica after a pause, and count an error.
    Reconnect { pause_ms: u64 },
    /// Look for the leader, pause, and count an error if one happened.
    FindLeader { pause_ms: u64, is_error: bool },
}

/// What a writer does with an answer.
pub open spec fn write_step(answer: Answer) -> Step {
    match answer {
        Some((Status::Success, offset)) => Step::Done { below: (offset + 1) as u64 },
        Some((Status::ErrNotLeader, _)) => Step::FindLeader { pause_ms: 5, is_error: false },
        _ => Step::FindLeader { pause_ms: 20, is_error: true },
    }
}

/// What a reader that asked for `next_lsn` does with an answer, when all below
/// `visible` was written.
pub open spec fn read_step(answer: Answer, next_lsn: u64, visible: u64) -> Step {
    match answer {
        Some((Status::Success, offset)) => Step::Done { below: (offset + 1) as u64 },
        Some((Status::ErrNotLeader, _)) => Step::FindLeader { pause_ms: 5, is_error: false },
        Some((Status::ErrNotFound, _)) => if next_lsn >= visible {
            Step::Wait { pause_ms: 2 }
        } else {
            Step::Reconnect { pause_ms: 5 }
        },
        _ => Step::FindLeader { pause_ms: 20, is_error: true },
    }
}

/// Decides what a writer does with an answer.
pub fn after_write(answer: Answer) -> (s: Step)
    requires
        answer matches Some((Status::Success, offset)) ==> offset < u64::MAX,
    ensures
        s == write_step(answer),
{
    match answer {
        Some((Status::Success, offset)) => Step::Done { below: offset + 1 },
        Some((Status::ErrNotLeader, _)) => Step::FindLeader { pause_ms: 5, is_error: false },
        _ => Step::FindLeader { pause_ms: 20, is_error: true },
    }
}

/// Decides what a reader does with an answer.
pub fn after_read(answer: Answer, next_lsn: u64, visible: u64) -> (s: Step)
    requires
        answer matches Some((Status::Success, offset)) ==> offset < u64::MAX,
    ensures
        s == read_step(answer, next_lsn, visible),
{
    match answer {
        Some((Status::Success, offset)) => Step::Done { below: offset + 1 },
        Some((Status::ErrNotLeader, _)) => Step::FindLeader { pause_ms: 5, is_error: false },
        Some((Status::ErrNotFound, _)) => if next_lsn >= visible {
            Step::Wait { pause_ms: 2 }
        } else {
            Step::Reconnect { pause_ms: 5 }
        },
        _ => Step::FindLeader { pause_ms: 20, is_error: true },
    }
}

/// What a reader does before it asks.
#[derive(Debug, Clone, Copy, PartialEq, Eq, Structural)]
pub enum ReaderTurn {
    /// Everything was written and read.
    Stop,
    /// There is nothing to read yet.
    Pause,
    /// Ask for the next record.
    Ask,
}

/// Decides whether a reader that wants `next_lsn` asks for it, when all below
/// `available` was written.
pub fn reader_turn(next_lsn: u64, available: u64, writer_done: bool) -> (t: ReaderTurn)
    ensures
        t == ReaderTurn::Ask <==> next_lsn < available,
        t == ReaderTurn::Stop <==> next_lsn >= available && writer_done,
{
    if next_lsn < available {
        ReaderTurn::Ask
    } else if writer_done {
        ReaderTurn::Stop
    } else {
        ReaderTurn::Pause
    }
}

/// Whether a writer stops: at its deadline if it has one, else when it has
/// written as often as it was told to.
pub fn writer_stops(deadline_passed: Option<bool>, issued: u64, writes: u64) -> (r: bool)
    ensures
        r == (match deadline_passed {
            Some(passed) => passed,
            None => issued >= writes,
        }),
{
    match deadline_passed {
        Some(passed) => passed,
        None => issued >= writes,
    }
}

/// Whether an answer to a read can only come from the leader.
pub fn is_leader_answer(status: Status) -> (r: bool)
    ensures
        r == (status != Status::ErrNotLeader),
{
    status != Status::ErrNotLeader
}

/// Which replica to try next: the leader if it was found, else the one behind the
/// last one tried.
pub fn next_hint(found: Option<usize>, hint: usize) -> (next: usize)
    requires
        found is None ==> hint < usize::MAX,
    ensures
        next == (match found {
            Some(leader) => leader as int,
            None => hint + 1,
        }),
{
    match found {
        Some(leader) => leader,
        None => hint + 1,
    }
}

/// Whether `least` is the smallest of some numbers, zero if there are none.
pub open spec fn is_least(reads: Seq<u64>, least: u64) -> bool {
    if reads.len() == 0 {
        least == 0
    } else {
        &&& reads.contains(least)
        &&& forall|i: int| 0 <= i < reads.len() ==> least <= #[trigger] reads[i]
    }
}

/// How far the slowest reader got.
pub fn least_read(reads: &Vec<u64>) -> (least: u64)
    ensures
        is_least(reads@, least),
{
    if reads.len() == 0 {
        return 0;
    }
    let mut least: u64 = reads[0];
    let mut i: usize = 1;
    assert(reads@[0] == least);
    while i < reads.len()
        invariant
            1 <= i <= reads@.len(),
            reads@.contains(least),
            forall|j: int| 0 <= j < i ==> least <= #[trigger] reads@[j],
        decreases reads@.len() - i,
    {
        if reads[i] < least {
            least = reads[i];
            assert(reads@[i as int] == least);
        }
        i = i + 1;
    }
    least
}

/// How far the slowest reader is behind the writer.
pub fn lag(written: u64, least: u64) -> (n: u64)
    ensures
        n == (if written > least {
            written - least
        } else {
            0
        }),
{
    if written > least {
        written - least
    } else {
        0
    }
}

/// A writer goes on behind the record that was written, looks for the leader when it
/// asked another replica, without counting an error, and counts one for anything else.
pub proof fn law_writer_goes_on_behind_its_record(answer: Answer)
    requires
        answer matches Some((Status::Success, offset)) ==> offset < u64::MAX,
    ensures
        match write_step(answer) {
            Step::Done { below } => answer matches Some((status, offset)) && status
                == Status::Success && below == offset + 1,
            Step::FindLeader { pause_ms, is_error } => {
                &&& !(answer matches Some((status, _)) && status == Status::Success)
                &&& is_error <==> !(answer matches Some((status, _)) && status
                    == Status::ErrNotLeader)
                &&& pause_ms == (if is_error {
                    20u64
                } else {
                    5
                })
            },
            _ => false,
        },
{
}

/// A reader goes on behind the record that it read. A record that is not found is
/// waited for if it may not be written yet, and is an error of the connection if it
/// was. Asking another replica than the leader is no error; anything else is.
pub proof fn law_reader_waits_for_what_is_not_written(
    answer: Answer,
    next_lsn: u64,
    visible: u64,
)
    requires
        answer matches Some((Status::Success, offset)) ==> offset < u64::MAX,
    ensures
        match read_step(answer, next_lsn, visible) {
            Step::Done { below } => answer matches Some((status, offset)) && status
                == Status::Success && below == offset + 1,
            Step::Wait { pause_ms } => pause_ms == 2 && next_lsn >= visible && (answer matches Some(
                (status, _),
            ) && status == Status::ErrNotFound),
            Step::Reconnect { pause_ms } => pause_ms == 5 && next_lsn < visible && (
            answer matches Some((status, _)) && status == Status::ErrNotFound),
            Step::FindLeader { pause_ms, is_error } => {
                &&& !(answer matches Some((status, _)) && (status == Status::Success || status
                    == Status::ErrNotFound))
                &&& is_error <==> !(answer matches Some((status, _)) && status
                    == Status::ErrNotLeader)
                &&& pause_ms == (if is_error {
                    20u64
                } else {
                    5
                })
            },
        },
{
}

/// The least of some numbers is one of them, and none is below it; of none it is zero.
pub proof fn law_least_is_unique(reads: Seq<u64>, a: u64, b: u64, i: int)
    requires
        is_least(reads, a),
    ensures
        reads.len() == 0 ==> a == 0,
        reads.len() > 0 ==> exists|j: int| 0 <= j < reads.len() && #[trigger] reads[j] == a,
        0 <= i < reads.len() ==> a <= reads[i],
        is_least(reads, b) ==> a == b,
{
    if reads.len() > 0 {
        let j = choose|j: int| 0 <= j < reads.len() && reads[j] == a;
        if is_least(reads, b) {
            let k = choose|k: int| 0 <= k < reads.len() && reads[k] == b;
        }
    }
}

} // verus!
