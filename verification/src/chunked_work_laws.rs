//! Which work a [`ChunkedTmpFileCryptoWriter`] asks for, and in which order, whatever the work
//! comes to.

use crate::chunked::{ChunkedGoal, ChunkedOp, ChunkedReply, ChunkedTask, ChunkedTmpFileCryptoWriter};
use crate::outcome::{Failure, SeekFrom, Step};
use vstd::prelude::*;

verus! {

/// What has become of the work so far.
pub struct ChunkLog {
    /// Whether the lock of the whole file is shared.
    pub locked: bool,
    /// Whether the inner writer was flushed since it was opened, written to or moved.
    pub flushed: bool,
    /// Whether the passing writer was flushed since it was opened or moved.
    pub gap_flushed: bool,
    /// Whether the inner writer was to be flushed for the last time, with or without success.
    pub flush_tried: bool,
    /// Whether the inner writer was to be finished after that, with or without success.
    pub finish_tried: bool,
    /// Whether the last piece of work opened the first chunk.
    pub opened: bool,
    /// Whether some work failed that matters.
    pub broke: bool,
}

/// The log after the work `task` came out as `answer`.
pub open spec fn recorded<E>(
    task: ChunkedTask,
    answer: Result<ChunkedReply, E>,
    h: ChunkLog,
) -> ChunkLog {
    let h = ChunkLog {
        opened: false,
        flush_tried: h.flush_tried || task is FlushEnd,
        finish_tried: h.finish_tried || task is FinishEnd && h.flush_tried,
        ..h
    };
    match answer {
        Err(_) => ChunkLog {
            broke: h.broke || !(task is FlushEnd || task is FinishEnd),
            ..h
        },
        Ok(_) => match task {
            ChunkedTask::LockFile => ChunkLog { locked: true, ..h },
            ChunkedTask::OpenWriter { .. }
            | ChunkedTask::SwitchWriter { .. }
            | ChunkedTask::RestartWriter
            | ChunkedTask::WriteInner { .. }
            | ChunkedTask::FillChunk { .. }
            | ChunkedTask::SeekInner { .. } => ChunkLog { flushed: false, ..h },
            ChunkedTask::FlushFull
            | ChunkedTask::FlushOld
            | ChunkedTask::FlushEnd
            | ChunkedTask::FlushWriter => ChunkLog { flushed: true, ..h },
            ChunkedTask::CreateGap { .. } | ChunkedTask::FillGap { .. } => ChunkLog {
                gap_flushed: false,
                ..h
            },
            ChunkedTask::FlushGap { .. } => ChunkLog { gap_flushed: true, ..h },
            ChunkedTask::OpenFirst => ChunkLog { opened: true, ..h },
            _ => h,
        },
    }
}

/// Whether the work `task` may come out as `answer` and take the log from `h` to `h2`. Any reply of
/// the right sort may come, and any work may fail.
pub open spec fn works<E>(
    task: ChunkedTask,
    answer: Result<ChunkedReply, E>,
    h: ChunkLog,
    h2: ChunkLog,
) -> bool {
    &&& h2 == recorded(task, answer, h)
    &&& answer matches Ok(reply) ==> task.expects(reply)
}

/// Whether an operation that stands at `step` can stand at `step2` after `n` pieces of work.
pub open spec fn proceeds<E>(
    s: ChunkedTmpFileCryptoWriter,
    h: ChunkLog,
    step: Step<ChunkedOp, E>,
    n: nat,
    s2: ChunkedTmpFileCryptoWriter,
    h2: ChunkLog,
    step2: Step<ChunkedOp, E>,
) -> bool
    decreases n,
{
    if n == 0 {
        s == s2 && h == h2 && step == step2
    } else {
        step matches Step::Perform(op) && exists|
            answer: Result<ChunkedReply, E>,
            h1: ChunkLog,
        | #[trigger]
            works(op.task, answer, h, h1) && proceeds(
                s.resumed(op, answer).0,
                h1,
                s.resumed(op, answer).1,
                (n - 1) as nat,
                s2,
                h2,
                step2,
            )
    }
}

/// Whether the operation with `goal` can stand at `step2` after `n` pieces of work.
pub open spec fn takes_course<E>(
    s: ChunkedTmpFileCryptoWriter,
    h: ChunkLog,
    goal: ChunkedGoal,
    n: nat,
    s2: ChunkedTmpFileCryptoWriter,
    h2: ChunkLog,
    step2: Step<ChunkedOp, E>,
) -> bool {
    proceeds(s.started::<E>(goal).0, h, s.started::<E>(goal).1, n, s2, h2, step2)
}

/// The log at the start of an operation.
pub open spec fn fresh(h: ChunkLog) -> bool {
    !h.locked && !h.flush_tried && !h.finish_tried && !h.opened && !h.broke
}

/// Whether the work changes a chunk or what is written to one, and is part of a write or a seek.
pub open spec fn touches(task: ChunkedTask) -> bool {
    match task {
        ChunkedTask::WriteInner { .. }
        | ChunkedTask::FlushFull
        | ChunkedTask::FinishFull
        | ChunkedTask::FillChunk { .. }
        | ChunkedTask::CheckChunk { .. }
        | ChunkedTask::CreateGap { .. }
        | ChunkedTask::FillGap { .. }
        | ChunkedTask::FlushGap { .. }
        | ChunkedTask::FinishGap { .. }
        | ChunkedTask::FlushOld
        | ChunkedTask::FinishOld
        | ChunkedTask::RestartWriter
        | ChunkedTask::SwitchWriter { .. }
        | ChunkedTask::SeekInner { .. } => true,
        _ => false,
    }
}

/// Whether an inner writer is open while `task` is worked on.
pub open spec fn works_on_open_writer(task: ChunkedTask) -> bool {
    match task {
        ChunkedTask::Position
        | ChunkedTask::WriteInner { .. }
        | ChunkedTask::PositionAfter
        | ChunkedTask::FlushFull
        | ChunkedTask::FinishFull
        | ChunkedTask::FillChunk { .. }
        | ChunkedTask::CheckChunk { .. }
        | ChunkedTask::CreateGap { .. }
        | ChunkedTask::FillGap { .. }
        | ChunkedTask::FlushGap { .. }
        | ChunkedTask::FinishGap { .. }
        | ChunkedTask::SeekInner { .. }
        | ChunkedTask::FlushWriter => true,
        _ => false,
    }
}

/// What holds at every step of an operation with `goal` that started with the writer `s0`.
spec fn orderly<E>(
    goal: ChunkedGoal,
    s0: ChunkedTmpFileCryptoWriter,
    s: ChunkedTmpFileCryptoWriter,
    h: ChunkLog,
    step: Step<ChunkedOp, E>,
) -> bool {
    let writes = goal is Write;
    let seeks = goal is Seek || goal is SeekBy;
    let refused = goal is SeekBy && step == Step::<ChunkedOp, E>::Failed(Failure::SeekBeforeStart);
    step is Failed && (h.broke || refused) || {
        &&& !(step is Failed)
        &&& !h.broke
        &&& s.chunk_size == s0.chunk_size
        &&& match step {
            Step::Perform(op) => (op.task is LockFile || s.writer == works_on_open_writer(op.task))
                && (op.task matches ChunkedTask::OpenWriter { chunk } ==> chunk == s.chunk_index)
                && match op.goal {
                ChunkedGoal::Write { .. } => {
                    &&& writes
                    &&& match op.task {
                        ChunkedTask::LockFile => !h.locked,
                        ChunkedTask::OpenWriter { .. }
                        | ChunkedTask::Position
                        | ChunkedTask::WriteInner { .. }
                        | ChunkedTask::PositionAfter
                        | ChunkedTask::FlushFull => h.locked,
                        ChunkedTask::FinishFull => h.locked && h.flushed,
                        _ => false,
                    }
                },
                ChunkedGoal::Pos => goal is Pos && (op.task is OpenWriter || op.task is Position),
                ChunkedGoal::SeekBy { .. } => {
                    &&& op.goal == goal
                    &&& op.task is OpenWriter || op.task is Position && s.writer
                    &&& !h.locked
                    &&& s.chunk_index == s0.chunk_index
                },
                ChunkedGoal::Seek { target } => {
                    let last = (target / s0.chunk_size) as int;
                    &&& seeks
                    &&& goal is Seek ==> op.goal == goal
                    &&& s.chunk_index == s0.chunk_index
                    &&& match op.task {
                        ChunkedTask::OpenWriter { .. } => !h.locked,
                        ChunkedTask::Position | ChunkedTask::LockFile => !h.locked && s.writer,
                        ChunkedTask::FillChunk { .. }
                        | ChunkedTask::CheckChunk { .. }
                        | ChunkedTask::CreateGap { .. }
                        | ChunkedTask::FillGap { .. }
                        | ChunkedTask::FlushGap { .. } => h.locked && s0.chunk_index < last
                            && s.writer,
                        ChunkedTask::FinishGap { .. } => h.locked && s0.chunk_index < last
                            && s.writer && h.gap_flushed,
                        ChunkedTask::FlushOld => {
                            &&& h.locked
                            &&& s0.chunk_index != last || target == 0
                        },
                        ChunkedTask::FinishOld => {
                            &&& h.locked && h.flushed
                            &&& s0.chunk_index != last || target == 0
                        },
                        ChunkedTask::RestartWriter => h.locked && target == 0,
                        ChunkedTask::SwitchWriter { .. } => {
                            &&& h.locked
                            &&& s0.chunk_index != last || target == 0
                        },
                        ChunkedTask::SeekInner { .. } => h.locked,
                        _ => false,
                    }
                },
                ChunkedGoal::Report => {
                    &&& seeks
                    &&& op.task is OpenWriter || op.task is Position
                },
                ChunkedGoal::Flush => {
                    &&& goal is Flush
                    &&& op.task is FlushWriter
                    &&& s == s0
                },
                ChunkedGoal::Finish => {
                    &&& goal is Finish
                    &&& s == (ChunkedTmpFileCryptoWriter { writer: false, ..s0 })
                    &&& match op.task {
                        ChunkedTask::FlushEnd => s0.writer,
                        ChunkedTask::FinishEnd => s0.writer && h.flush_tried,
                        ChunkedTask::CheckFirst
                        | ChunkedTask::CreateFirst
                        | ChunkedTask::OpenFirst => s0.writer ==> h.finish_tried,
                        _ => false,
                    }
                },
            },
            Step::Done(v) => {
                &&& goal is Finish ==> {
                    &&& h.opened
                    &&& s0.writer ==> h.finish_tried
                    &&& s == (ChunkedTmpFileCryptoWriter { writer: false, ..s0 })
                    &&& v == 0
                }
                &&& goal is Flush ==> s == s0 && (s0.writer ==> h.flushed) && v == 0
            },
            Step::Failed(_) => true,
        }
    }
}

proof fn lemma_step<E>(
    goal: ChunkedGoal,
    s0: ChunkedTmpFileCryptoWriter,
    s: ChunkedTmpFileCryptoWriter,
    h: ChunkLog,
    op: ChunkedOp,
    answer: Result<ChunkedReply, E>,
    h1: ChunkLog,
)
    requires
        orderly(goal, s0, s, h, Step::<ChunkedOp, E>::Perform(op)),
        works(op.task, answer, h, h1),
    ensures
        orderly(goal, s0, s.resumed(op, answer).0, h1, s.resumed(op, answer).1),
{
}

proof fn lemma_proceeds<E>(
    goal: ChunkedGoal,
    s0: ChunkedTmpFileCryptoWriter,
    s: ChunkedTmpFileCryptoWriter,
    h: ChunkLog,
    step: Step<ChunkedOp, E>,
    n: nat,
    s2: ChunkedTmpFileCryptoWriter,
    h2: ChunkLog,
    step2: Step<ChunkedOp, E>,
)
    requires
        orderly(goal, s0, s, h, step),
        proceeds(s, h, step, n, s2, h2, step2),
    ensures
        orderly(goal, s0, s2, h2, step2),
    decreases n,
{
    if n > 0 {
        let op = step->Perform_0;
        let (answer, h1) = choose|answer: Result<ChunkedReply, E>, h1: ChunkLog| #[trigger]
            works(op.task, answer, h, h1) && proceeds(
                s.resumed(op, answer).0,
                h1,
                s.resumed(op, answer).1,
                (n - 1) as nat,
                s2,
                h2,
                step2,
            );
        lemma_step(goal, s0, s, h, op, answer, h1);
        lemma_proceeds(
            goal,
            s0,
            s.resumed(op, answer).0,
            h1,
            s.resumed(op, answer).1,
            (n - 1) as nat,
            s2,
            h2,
            step2,
        );
    }
}

proof fn lemma_course<E>(
    s: ChunkedTmpFileCryptoWriter,
    h: ChunkLog,
    goal: ChunkedGoal,
    n: nat,
    s2: ChunkedTmpFileCryptoWriter,
    h2: ChunkLog,
    step2: Step<ChunkedOp, E>,
)
    requires
        fresh(h),
        !(goal is Report),
        takes_course(s, h, goal, n, s2, h2, step2),
    ensures
        orderly(goal, s, s2, h2, step2),
{
    let (s1, step1) = s.started::<E>(goal);
    assert(orderly(goal, s, s1, h, step1));
    lemma_proceeds(goal, s, s1, h, step1, n, s2, h2, step2);
}

/// Failed work that closes a writer for good does not end the operation; any other failed work ends
/// it at once, with the error of the work and the writer as it is.
pub proof fn law_failed_work_ends_the_operation<E>(
    s: ChunkedTmpFileCryptoWriter,
    op: ChunkedOp,
    e: E,
)
    ensures
        op.task is FlushEnd || op.task is FinishEnd ==> !(s.resumed::<E>(op, Err(e)).1 is Failed)
            && !(s.resumed::<E>(op, Err(e)).1 is Done),
        !(op.task is FlushEnd || op.task is FinishEnd) ==> s.resumed::<E>(op, Err(e)) == (
            s,
            Step::<ChunkedOp, E>::Failed(Failure::Outside(e)),
        ),
{
}

/// No operation fails by itself, with one exception: a seek by an offset to a negative position
/// fails as a seek before the start, as soon as the position is known, and changes nothing. `pos`
/// is that position; one beyond the largest signed number counts as the negative number with the
/// same bits.
pub proof fn law_only_a_negative_seek_fails_by_itself<E>(
    s: ChunkedTmpFileCryptoWriter,
    goal: ChunkedGoal,
    op: ChunkedOp,
    reply: ChunkedReply,
    pos: int,
)
    requires
        reply matches ChunkedReply::At(at) ==> pos == s.chunk_index * s.chunk_size + at,
        op.task is Position && op.goal is SeekBy ==> reply is At && pos <= u64::MAX,
    ensures
        !(s.started::<E>(goal).1 is Failed),
        s.resumed::<E>(op, Ok(reply)).1 is Failed <==> {
            &&& op.task is Position
            &&& op.goal matches ChunkedGoal::SeekBy { offset } && if pos <= i64::MAX {
                pos + offset < 0
            } else {
                pos + offset < 0x1_0000_0000_0000_0000
            }
        },
        s.resumed::<E>(op, Ok(reply)).1 is Failed ==> s.resumed::<E>(op, Ok(reply)) == (
            s,
            Step::<ChunkedOp, E>::Failed(Failure::SeekBeforeStart),
        ),
{
}

/// As long as all work succeeds that matters, an operation does not fail, unless it is a seek by an
/// offset, which may be refused as a seek before the start.
pub proof fn law_success_of_work_is_success<E>(
    s: ChunkedTmpFileCryptoWriter,
    h: ChunkLog,
    goal: ChunkedGoal,
    n: nat,
    s2: ChunkedTmpFileCryptoWriter,
    h2: ChunkLog,
    step2: Step<ChunkedOp, E>,
)
    requires
        fresh(h),
        !(goal is Report),
        takes_course(s, h, goal, n, s2, h2, step2),
        !h2.broke,
    ensures
        !(goal is SeekBy) ==> !(step2 is Failed),
        step2 matches Step::Failed(f) ==> f is SeekBeforeStart,
{
    lemma_course(s, h, goal, n, s2, h2, step2);
}

/// A write or a seek changes nothing before it shares the lock of the whole file, and takes that
/// lock once. Only a writer that was flushed last is finished.
pub proof fn law_work_is_done_under_the_lock<E>(
    s: ChunkedTmpFileCryptoWriter,
    h: ChunkLog,
    goal: ChunkedGoal,
    n: nat,
    s2: ChunkedTmpFileCryptoWriter,
    h2: ChunkLog,
    op: ChunkedOp,
)
    requires
        fresh(h),
        !(goal is Report),
        takes_course(s, h, goal, n, s2, h2, Step::<ChunkedOp, E>::Perform(op)),
    ensures
        touches(op.task) ==> h2.locked,
        goal is Write && !(op.task is LockFile) ==> h2.locked,
        op.task is LockFile ==> !h2.locked,
        op.task is FinishFull || op.task is FinishOld ==> h2.flushed,
        op.task is FinishGap ==> h2.gap_flushed,
        op.task is FinishEnd ==> h2.flush_tried,
{
    lemma_course(s, h, goal, n, s2, h2, Step::<ChunkedOp, E>::Perform(op));
}

/// A finish that is done has opened the first chunk as its last piece of work; before, it tried to
/// flush and then to finish the inner writer, if one was open.
pub proof fn law_finish_opens_the_first_chunk_last<E>(
    s: ChunkedTmpFileCryptoWriter,
    h: ChunkLog,
    n: nat,
    s2: ChunkedTmpFileCryptoWriter,
    h2: ChunkLog,
    v: u64,
)
    requires
        fresh(h),
        takes_course(s, h, ChunkedGoal::Finish, n, s2, h2, Step::<ChunkedOp, E>::Done(v)),
    ensures
        h2.opened,
        s.writer ==> h2.flush_tried && h2.finish_tried,
        s2 == (ChunkedTmpFileCryptoWriter { writer: false, ..s }),
        v == 0,
{
    lemma_course(s, h, ChunkedGoal::Finish, n, s2, h2, Step::<ChunkedOp, E>::Done(v));
    lemma_tried::<E>(
        s.started::<E>(ChunkedGoal::Finish).0,
        h,
        s.started::<E>(ChunkedGoal::Finish).1,
        n,
        s2,
        h2,
        Step::Done(v),
    );
}

/// Nothing is finished for good without an attempt to flush it.
proof fn lemma_tried<E>(
    s: ChunkedTmpFileCryptoWriter,
    h: ChunkLog,
    step: Step<ChunkedOp, E>,
    n: nat,
    s2: ChunkedTmpFileCryptoWriter,
    h2: ChunkLog,
    step2: Step<ChunkedOp, E>,
)
    requires
        h.finish_tried ==> h.flush_tried,
        proceeds(s, h, step, n, s2, h2, step2),
    ensures
        h2.finish_tried ==> h2.flush_tried,
    decreases n,
{
    if n > 0 {
        let op = step->Perform_0;
        let (answer, h1) = choose|answer: Result<ChunkedReply, E>, h1: ChunkLog| #[trigger]
            works(op.task, answer, h, h1) && proceeds(
                s.resumed(op, answer).0,
                h1,
                s.resumed(op, answer).1,
                (n - 1) as nat,
                s2,
                h2,
                step2,
            );
        lemma_tried(
            s.resumed(op, answer).0,
            h1,
            s.resumed(op, answer).1,
            (n - 1) as nat,
            s2,
            h2,
            step2,
        );
    }
}

/// A flush that is done has flushed the inner writer, by a single piece of work; without an inner
/// writer it asks for nothing.
pub proof fn law_flush_flushes<E>(
    s: ChunkedTmpFileCryptoWriter,
    h: ChunkLog,
    n: nat,
    s2: ChunkedTmpFileCryptoWriter,
    h2: ChunkLog,
    v: u64,
)
    requires
        fresh(h),
        takes_course(s, h, ChunkedGoal::Flush, n, s2, h2, Step::<ChunkedOp, E>::Done(v)),
    ensures
        s2 == s,
        v == 0,
        s.writer ==> n == 1 && h2.flushed,
        !s.writer ==> n == 0 && h2 == h,
{
    reveal_with_fuel(proceeds, 3);
    lemma_course(s, h, ChunkedGoal::Flush, n, s2, h2, Step::<ChunkedOp, E>::Done(v));
}

/// A writer gives its inner writer up before that is closed, unless its chunk is full, and opens
/// one only where it has none. It opens the current chunk to find out where it stands.
pub proof fn law_what_is_closed_is_given_up<E>(
    s: ChunkedTmpFileCryptoWriter,
    h: ChunkLog,
    goal: ChunkedGoal,
    n: nat,
    s2: ChunkedTmpFileCryptoWriter,
    h2: ChunkLog,
    op: ChunkedOp,
)
    requires
        fresh(h),
        !(goal is Report),
        takes_course(s, h, goal, n, s2, h2, Step::<ChunkedOp, E>::Perform(op)),
    ensures
        !(op.task is LockFile) ==> s2.writer == works_on_open_writer(op.task),
        op.task matches ChunkedTask::OpenWriter { chunk } ==> chunk == s2.chunk_index,
{
    lemma_course(s, h, goal, n, s2, h2, Step::<ChunkedOp, E>::Perform(op));
}

/// A seek gives up the inner writer only to go to another chunk or to the start, and looks at other
/// chunks only to go to a later one.
pub proof fn law_seek_leaves_no_chunk_without_need<E>(
    s: ChunkedTmpFileCryptoWriter,
    h: ChunkLog,
    target: u64,
    n: nat,
    s2: ChunkedTmpFileCryptoWriter,
    h2: ChunkLog,
    op: ChunkedOp,
)
    requires
        fresh(h),
        takes_course(
            s,
            h,
            ChunkedGoal::Seek { target },
            n,
            s2,
            h2,
            Step::<ChunkedOp, E>::Perform(op),
        ),
    ensures
        op.task is FlushOld || op.task is FinishOld || op.task is SwitchWriter ==> target == 0
            || target / s.chunk_size != s.chunk_index,
        op.task is RestartWriter ==> target == 0,
        op.task is FillChunk || op.task is CheckChunk || op.task is CreateGap || op.task is FillGap
            || op.task is FlushGap || op.task is FinishGap ==> s.chunk_index < target
            / s.chunk_size,
{
    lemma_course(
        s,
        h,
        ChunkedGoal::Seek { target },
        n,
        s2,
        h2,
        Step::<ChunkedOp, E>::Perform(op),
    );
}

/// A seek stays in its chunk until it is in the right place of the target's. The size of the chunks
/// never changes.
pub proof fn law_seek_stays_until_it_arrives<E>(
    s: ChunkedTmpFileCryptoWriter,
    h: ChunkLog,
    goal: ChunkedGoal,
    n: nat,
    s2: ChunkedTmpFileCryptoWriter,
    h2: ChunkLog,
    op: ChunkedOp,
)
    requires
        fresh(h),
        !(goal is Report),
        takes_course(s, h, goal, n, s2, h2, Step::<ChunkedOp, E>::Perform(op)),
    ensures
        s2.chunk_size == s.chunk_size,
        op.goal is Seek || op.goal is SeekBy ==> s2.chunk_index == s.chunk_index,
{
    lemma_course(s, h, goal, n, s2, h2, Step::<ChunkedOp, E>::Perform(op));
}

/// A write hands on as many of the bytes that are left as the chunk has room for.
pub proof fn law_write_fills_the_chunk<E>(
    s: ChunkedTmpFileCryptoWriter,
    len: usize,
    start: usize,
    written: u64,
    at: u64,
)
    requires
        s.chunk_size <= usize::MAX,
        at <= s.chunk_size,
        start <= len,
    ensures
        s.resumed::<E>(
            ChunkedOp {
                goal: ChunkedGoal::Write { len, start, written },
                task: ChunkedTask::Position,
            },
            Ok(ChunkedReply::At(at)),
        ).1 matches Step::Perform(next) && {
            &&& next.goal == (ChunkedGoal::Write { len, start, written })
            &&& next.task matches ChunkedTask::WriteInner { start: from, end } && {
                &&& from == start <= end <= len
                &&& end - start <= s.chunk_size - at
                &&& end == len || end - start == s.chunk_size - at
            }
        },
{
}

/// An inner write that takes too few bytes ends the operation where bytes are left for another
/// chunk, with what was taken so far; else the write goes on behind the bytes that it handed on.
pub proof fn law_short_write_ends_the_operation<E>(
    s: ChunkedTmpFileCryptoWriter,
    len: usize,
    from: usize,
    written: u64,
    start: usize,
    end: usize,
    n: usize,
    step: Step<ChunkedOp, E>,
)
    requires
        written + n <= u64::MAX,
        start <= end <= len,
        step == s.resumed::<E>(
            ChunkedOp {
                goal: ChunkedGoal::Write { len, start: from, written },
                task: ChunkedTask::WriteInner { start, end },
            },
            Ok(ChunkedReply::Wrote(n)),
        ).1,
    ensures
        n < end - start && end < len ==> step == Step::<ChunkedOp, E>::Done((written + n) as u64),
        n >= end - start || end == len ==> step == Step::<ChunkedOp, E>::Perform(
            ChunkedOp {
                goal: ChunkedGoal::Write { len, start: end, written: (written + n) as u64 },
                task: ChunkedTask::PositionAfter,
            },
        ),
{
}

/// A seek refuses a place that counts from the end and a position that is no signed number, and
/// sets out for any other place.
pub proof fn law_only_wrong_places_are_refused<E>(
    s: ChunkedTmpFileCryptoWriter,
    place: SeekFrom,
    step: Step<ChunkedOp, E>,
)
    requires
        call_ensures(ChunkedTmpFileCryptoWriter::seek::<E>, (&s, place), step),
    ensures
        place is End ==> step == Step::<ChunkedOp, E>::Failed(Failure::SeekFromEnd),
        place matches SeekFrom::Start(target) ==> if target > i64::MAX {
            step == Step::<ChunkedOp, E>::Failed(Failure::SeekBeforeStart)
        } else {
            step is Perform && step->Perform_0.goal == (ChunkedGoal::Seek { target })
        },
        place matches SeekFrom::Current(offset) ==> step is Perform && step->Perform_0.goal == (
        ChunkedGoal::SeekBy { offset }),
{
}

/// A write of nothing is done without any work.
pub proof fn law_empty_write_asks_for_nothing<E>(s: ChunkedTmpFileCryptoWriter)
    ensures
        s.started::<E>(ChunkedGoal::Write { len: 0, start: 0, written: 0 }) == (
            s,
            Step::<ChunkedOp, E>::Done(0),
        ),
{
}

/// Every reply of the right sort can be handed in, whatever it holds.
pub proof fn law_replies_are_expected(
    task: ChunkedTask,
    at: u64,
    n: usize,
    start: usize,
    end: usize,
    chunk: u64,
    there: bool,
)
    ensures
        ChunkedTask::Position.expects(ChunkedReply::At(at)),
        ChunkedTask::PositionAfter.expects(ChunkedReply::At(at)),
        (ChunkedTask::WriteInner { start, end }).expects(ChunkedReply::Wrote(n)),
        (ChunkedTask::CheckChunk { chunk }).expects(ChunkedReply::Exists(there)),
        ChunkedTask::CheckFirst.expects(ChunkedReply::Exists(there)),
        !(task is Position) && !(task is PositionAfter) && !(task is WriteInner) && !(
        task is CheckChunk) && !(task is CheckFirst) ==> task.expects(ChunkedReply::Completed),
{
}

} // verus!
