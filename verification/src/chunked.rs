//! A writer that spreads a file over chunks of equal size.
//!
//! Every chunk is a file of its own, written by an inner writer that can seek. The type here
//! decides which chunk is written when; it touches no file. Every operation returns a [`Step`]: as
//! long as that is `Perform`, the caller does the work that the operation's [`ChunkedTask`]
//! describes and hands what came of it to [`ChunkedTmpFileCryptoWriter::resume`].

use crate::outcome::{as_signed, moved, relative_position, Failure, SeekFrom, Step};
use vstd::arithmetic::div_mod::{lemma_fundamental_div_mod, lemma_mod_bound};
use vstd::prelude::*;

verus! {

/// The size of a chunk.
pub const CHUNK_SIZE: u64 = 524288;

/// What the writer knows between two operations.
#[derive(Clone, Copy, Debug, PartialEq, Eq, Structural)]
pub struct ChunkedTmpFileCryptoWriter {
    pub chunk_size: u64,
    /// The chunk that holds the position.
    pub chunk_index: u64,
    /// Whether an inner writer is open.
    pub writer: bool,
}

/// What an operation is to achieve.
#[derive(Clone, Copy, Debug, PartialEq, Eq, Structural)]
pub enum ChunkedGoal {
    /// Tell the position.
    Pos,
    /// Write the caller's `len` bytes; those from `start` on are left, and `written` were taken.
    Write { len: usize, start: usize, written: u64 },
    /// Flush the inner writer.
    Flush,
    /// Be `offset` bytes from the position.
    SeekBy { offset: i64 },
    /// Be at `target`.
    Seek { target: u64 },
    /// Tell the position that a seek came to.
    Report,
    /// Close what is open and open the first chunk.
    Finish,
}

/// The outside work that an operation waits for.
#[derive(Clone, Copy, Debug, PartialEq, Eq, Structural)]
pub enum ChunkedTask {
    /// Share the lock of the whole file until the operation ends.
    LockFile,
    /// Open an inner writer for `chunk`, which holds the position.
    OpenWriter { chunk: u64 },
    /// Ask the inner writer for its position.
    Position,
    /// Hand the caller's bytes from `start` to before `end` to the inner writer.
    WriteInner { start: usize, end: usize },
    /// Ask the inner writer for its position after it was written to.
    PositionAfter,
    /// Flush the inner writer, whose chunk is full.
    FlushFull,
    /// Finish the inner writer, whose chunk is full.
    FinishFull,
    /// Move the inner writer to `to`, the end of its chunk.
    FillChunk { to: u64 },
    /// See whether there is a file for `chunk`.
    CheckChunk { chunk: u64 },
    /// Open a passing writer for `chunk`, which has no file yet.
    CreateGap { chunk: u64 },
    /// Move the passing writer to `to`, the end of its chunk.
    FillGap { chunk: u64, to: u64 },
    /// Flush the passing writer.
    FlushGap { chunk: u64 },
    /// Finish the passing writer.
    FinishGap { chunk: u64 },
    /// Flush the inner writer, which the writer has given up.
    FlushOld,
    /// Finish the given-up inner writer.
    FinishOld,
    /// Open an inner writer for the first chunk.
    RestartWriter,
    /// Open an inner writer for `chunk`, where the position is to go.
    SwitchWriter { chunk: u64 },
    /// Move the inner writer to `to`.
    SeekInner { to: u64 },
    /// Flush the inner writer.
    FlushWriter,
    /// Flush the given-up inner writer; a failure does not matter.
    FlushEnd,
    /// Finish the given-up inner writer; a failure does not matter.
    FinishEnd,
    /// See whether there is a file for the first chunk.
    CheckFirst,
    /// Create an empty file for the first chunk.
    CreateFirst,
    /// Open the file of the first chunk for reading.
    OpenFirst,
}

/// What successful work gave.
#[derive(Clone, Copy, Debug, PartialEq, Eq, Structural)]
pub enum ChunkedReply {
    /// The work is done.
    Completed,
    /// Whether the file that was looked for exists.
    Exists(bool),
    /// How many bytes the inner writer took.
    Wrote(usize),
    /// Where the inner writer stands in its chunk.
    At(u64),
}

/// An operation that waits for outside work.
#[derive(Clone, Copy, Debug, PartialEq, Eq, Structural)]
pub struct ChunkedOp {
    pub goal: ChunkedGoal,
    pub task: ChunkedTask,
}

impl ChunkedGoal {
    /// The position that the goal asks for.
    pub open spec fn target(self) -> u64 {
        match self {
            ChunkedGoal::Seek { target } => target,
            _ => 0,
        }
    }
}

impl ChunkedTask {
    /// Whether `reply` is the kind of reply that the work gives.
    pub open spec fn expects(self, reply: ChunkedReply) -> bool {
        match self {
            ChunkedTask::Position | ChunkedTask::PositionAfter => reply is At,
            ChunkedTask::WriteInner { .. } => reply is Wrote,
            ChunkedTask::CheckChunk { .. } | ChunkedTask::CheckFirst => reply is Exists,
            _ => reply is Completed,
        }
    }
}

/// The next step of an operation, and the writer as it is meanwhile.
pub type ChunkedNext<E> = (ChunkedTmpFileCryptoWriter, Step<ChunkedOp, E>);

pub open spec fn perform<E>(
    s: ChunkedTmpFileCryptoWriter,
    goal: ChunkedGoal,
    task: ChunkedTask,
) -> ChunkedNext<E> {
    (s, Step::Perform(ChunkedOp { goal, task }))
}

impl ChunkedTmpFileCryptoWriter {
    /// The position at which the current chunk begins.
    pub open spec fn base(self) -> int {
        self.chunk_index * self.chunk_size
    }

    /// A chunk holds some bytes, and the current one begins at a position.
    pub open spec fn wf(self) -> bool {
        &&& 0 < self.chunk_size <= usize::MAX
        &&& self.base() <= u64::MAX
    }

    /// The position is needed: the inner writer is asked, and opened first if none is open.
    pub open spec fn located<E>(self, goal: ChunkedGoal) -> ChunkedNext<E> {
        if self.writer {
            perform(self, goal, ChunkedTask::Position)
        } else {
            perform(self, goal, ChunkedTask::OpenWriter { chunk: self.chunk_index })
        }
    }

    /// The inner writer stands at `at` in its chunk.
    pub open spec fn placed<E>(self, goal: ChunkedGoal, at: u64) -> ChunkedNext<E> {
        let pos = (self.base() + at) as u64;
        match goal {
            ChunkedGoal::Write { len, start, .. } => {
                let room = self.chunk_size - at;
                perform(
                    self,
                    goal,
                    ChunkedTask::WriteInner {
                        start,
                        end: if len - start > room {
                            (start + room) as usize
                        } else {
                            len
                        },
                    },
                )
            },
            ChunkedGoal::SeekBy { offset } => match moved(pos, offset) {
                Some(target) => self.located(ChunkedGoal::Seek { target }),
                None => (self, Step::Failed(Failure::SeekBeforeStart)),
            },
            ChunkedGoal::Seek { target } => if target == pos {
                self.located(ChunkedGoal::Report)
            } else {
                perform(self, goal, ChunkedTask::LockFile)
            },
            _ => (self, Step::Done(pos)),
        }
    }

    /// The inner writer took `n` of the bytes from `start` to before `end`. A short write ends the
    /// operation at once if bytes behind `end` are left.
    pub open spec fn took<E>(
        self,
        len: usize,
        start: usize,
        end: usize,
        written: u64,
        n: usize,
    ) -> ChunkedNext<E> {
        if n < end - start && end < len {
            (self, Step::Done((written + n) as u64))
        } else {
            perform(
                self,
                ChunkedGoal::Write { len, start: end, written: (written + n) as u64 },
                ChunkedTask::PositionAfter,
            )
        }
    }

    /// The chunk at hand is done with: a write goes on with the bytes that are left.
    pub open spec fn rested<E>(self, goal: ChunkedGoal) -> ChunkedNext<E> {
        match goal {
            ChunkedGoal::Write { len, start, written } => if start == len {
                (self, Step::Done(written))
            } else {
                self.located(goal)
            },
            _ => (self, Step::Done(0)),
        }
    }

    /// A seek to another place than the current one sets out. The start is reached by opening the
    /// first chunk anew; a later chunk by filling up the current one and those in between.
    pub open spec fn departed<E>(self, target: u64) -> ChunkedNext<E> {
        let goal = ChunkedGoal::Seek { target };
        let chunk = target / self.chunk_size;
        if target == 0 || chunk < self.chunk_index {
            self.switched(target)
        } else if self.chunk_index < chunk {
            perform(self, goal, ChunkedTask::FillChunk { to: self.chunk_size })
        } else if self.writer {
            perform(self, goal, ChunkedTask::SeekInner { to: target % self.chunk_size })
        } else {
            perform(self, goal, ChunkedTask::SwitchWriter { chunk })
        }
    }

    /// The chunks before `chunk` are there; the next missing one before the target's is made.
    pub open spec fn bridged<E>(self, target: u64, chunk: int) -> ChunkedNext<E> {
        if chunk < target / self.chunk_size {
            perform(
                self,
                ChunkedGoal::Seek { target },
                ChunkedTask::CheckChunk { chunk: chunk as u64 },
            )
        } else {
            self.switched(target)
        }
    }

    /// The inner writer is given up for one of the target's chunk.
    pub open spec fn switched<E>(self, target: u64) -> ChunkedNext<E> {
        if self.writer {
            perform(
                ChunkedTmpFileCryptoWriter { writer: false, ..self },
                ChunkedGoal::Seek { target },
                ChunkedTask::FlushOld,
            )
        } else {
            self.reopened(target)
        }
    }

    /// No inner writer is open, and one of the target's chunk is wanted.
    pub open spec fn reopened<E>(self, target: u64) -> ChunkedNext<E> {
        perform(
            self,
            ChunkedGoal::Seek { target },
            if target == 0 {
                ChunkedTask::RestartWriter
            } else {
                ChunkedTask::SwitchWriter { chunk: target / self.chunk_size }
            },
        )
    }

    /// What follows when the work of `op` succeeded with `reply`.
    pub open spec fn after<E>(self, op: ChunkedOp, reply: ChunkedReply) -> ChunkedNext<E> {
        let goal = op.goal;
        let target = goal.target();
        match op.task {
            ChunkedTask::LockFile => if goal is Seek {
                self.departed(target)
            } else {
                self.located(goal)
            },
            ChunkedTask::OpenWriter { .. } => perform(
                ChunkedTmpFileCryptoWriter { writer: true, ..self },
                goal,
                ChunkedTask::Position,
            ),
            ChunkedTask::Position => self.placed(goal, reply->At_0),
            ChunkedTask::WriteInner { start, end } => match goal {
                ChunkedGoal::Write { len, written, .. } => self.took(
                    len,
                    start,
                    end,
                    written,
                    reply->Wrote_0,
                ),
                _ => (self, Step::Done(0)),
            },
            ChunkedTask::PositionAfter => if reply->At_0 == self.chunk_size {
                perform(self, goal, ChunkedTask::FlushFull)
            } else {
                self.rested(goal)
            },
            ChunkedTask::FlushFull => perform(self, goal, ChunkedTask::FinishFull),
            ChunkedTask::FinishFull => (ChunkedTmpFileCryptoWriter {
                writer: false,
                chunk_index: (self.chunk_index + 1) as u64,
                ..self
            }).rested(goal),
            ChunkedTask::FillChunk { .. } => self.bridged(target, self.chunk_index + 1),
            ChunkedTask::CheckChunk { chunk } => if reply == ChunkedReply::Exists(true) {
                self.bridged(target, chunk + 1)
            } else {
                perform(self, goal, ChunkedTask::CreateGap { chunk })
            },
            ChunkedTask::CreateGap { chunk } => perform(
                self,
                goal,
                ChunkedTask::FillGap { chunk, to: self.chunk_size },
            ),
            ChunkedTask::FillGap { chunk, .. } => perform(
                self,
                goal,
                ChunkedTask::FlushGap { chunk },
            ),
            ChunkedTask::FlushGap { chunk } => perform(
                self,
                goal,
                ChunkedTask::FinishGap { chunk },
            ),
            ChunkedTask::FinishGap { chunk } => self.bridged(target, chunk + 1),
            ChunkedTask::FlushOld => perform(self, goal, ChunkedTask::FinishOld),
            ChunkedTask::FinishOld => self.reopened(target),
            ChunkedTask::RestartWriter => (ChunkedTmpFileCryptoWriter {
                writer: true,
                chunk_index: 0,
                ..self
            }).located(ChunkedGoal::Report),
            ChunkedTask::SwitchWriter { .. } => perform(
                ChunkedTmpFileCryptoWriter { writer: true, ..self },
                goal,
                ChunkedTask::SeekInner { to: target % self.chunk_size },
            ),
            ChunkedTask::SeekInner { .. } => (ChunkedTmpFileCryptoWriter {
                chunk_index: target / self.chunk_size,
                ..self
            }).located(ChunkedGoal::Report),
            ChunkedTask::FlushWriter => (self, Step::Done(0)),
            ChunkedTask::FlushEnd => perform(self, goal, ChunkedTask::FinishEnd),
            ChunkedTask::FinishEnd => perform(self, goal, ChunkedTask::CheckFirst),
            ChunkedTask::CheckFirst => perform(
                self,
                goal,
                if reply == ChunkedReply::Exists(true) {
                    ChunkedTask::OpenFirst
                } else {
                    ChunkedTask::CreateFirst
                },
            ),
            ChunkedTask::CreateFirst => perform(self, goal, ChunkedTask::OpenFirst),
            ChunkedTask::OpenFirst => (self, Step::Done(0)),
        }
    }

    /// What follows when the work of `op` came out as `answer`. A failure ends the operation,
    /// except where a writer is closed for good; the writer stays as it was when the work was asked
    /// for.
    pub open spec fn resumed<E>(
        self,
        op: ChunkedOp,
        answer: Result<ChunkedReply, E>,
    ) -> ChunkedNext<E> {
        match answer {
            Ok(reply) => self.after(op, reply),
            Err(e) => if op.task is FlushEnd || op.task is FinishEnd {
                self.after(op, ChunkedReply::Completed)
            } else {
                (self, Step::Failed(Failure::Outside(e)))
            },
        }
    }

    /// How an operation with `goal` begins.
    pub open spec fn started<E>(self, goal: ChunkedGoal) -> ChunkedNext<E> {
        match goal {
            ChunkedGoal::Write { len, .. } => if len == 0 {
                (self, Step::Done(0))
            } else {
                perform(self, goal, ChunkedTask::LockFile)
            },
            ChunkedGoal::Flush => if self.writer {
                perform(self, goal, ChunkedTask::FlushWriter)
            } else {
                (self, Step::Done(0))
            },
            ChunkedGoal::Finish => if self.writer {
                perform(
                    ChunkedTmpFileCryptoWriter { writer: false, ..self },
                    goal,
                    ChunkedTask::FlushEnd,
                )
            } else {
                perform(self, goal, ChunkedTask::CheckFirst)
            },
            _ => self.located(goal),
        }
    }

    /// Whether the numbers that the operation meets fit: a writer takes no more than counts can
    /// hold, and no position lies beyond the largest number.
    pub open spec fn fits(self, op: ChunkedOp, reply: ChunkedReply) -> bool {
        match (op.task, reply) {
            (ChunkedTask::Position, ChunkedReply::At(at)) => {
                &&& self.base() + at <= u64::MAX
                &&& op.goal matches ChunkedGoal::Write { len, start, .. } ==> {
                    &&& at <= self.chunk_size
                    &&& start <= len
                }
                &&& op.goal matches ChunkedGoal::SeekBy { offset } ==> i64::MIN <= as_signed(
                    (self.base() + at) as u64,
                ) + offset <= i64::MAX
            },
            (ChunkedTask::PositionAfter, ChunkedReply::At(at)) => {
                &&& self.base() + at <= u64::MAX
                &&& at <= self.chunk_size
            },
            (ChunkedTask::WriteInner { start, end }, ChunkedReply::Wrote(n)) => {
                &&& start <= end
                &&& op.goal matches ChunkedGoal::Write { written, .. } ==> written + n <= u64::MAX
            },
            (ChunkedTask::FinishFull, _) => self.base() + self.chunk_size <= u64::MAX,
            (ChunkedTask::FillChunk { .. }, _) => self.chunk_index < u64::MAX,
            (ChunkedTask::CheckChunk { chunk }, _) => chunk < u64::MAX,
            (ChunkedTask::FinishGap { chunk }, _) => chunk < u64::MAX,
            _ => true,
        }
    }
}

proof fn lemma_next_base(s: ChunkedTmpFileCryptoWriter)
    ensures
        (s.chunk_index + 1) * s.chunk_size == s.base() + s.chunk_size,
        s.base() + s.chunk_size <= u64::MAX && s.chunk_size > 0 ==> s.chunk_index < u64::MAX,
{
    assert((s.chunk_index + 1) * s.chunk_size == s.chunk_index * s.chunk_size + s.chunk_size)
        by (nonlinear_arith);
    assert(s.chunk_size > 0 ==> s.chunk_index <= s.chunk_index * s.chunk_size)
        by (nonlinear_arith)
        requires
            s.chunk_index >= 0,
    ;
}

proof fn lemma_base_of(target: u64, chunk_size: u64)
    requires
        chunk_size > 0,
    ensures
        (target / chunk_size) * chunk_size <= target,
        target % chunk_size < chunk_size,
{
    lemma_fundamental_div_mod(target as int, chunk_size as int);
    lemma_mod_bound(target as int, chunk_size as int);
    assert((target / chunk_size) * chunk_size == chunk_size * (target / chunk_size))
        by (nonlinear_arith);
}

impl ChunkedTmpFileCryptoWriter {
    /// A writer for a directory of chunks. The second part of the result says whether the
    /// directory is to be created first.
    pub fn new(dir_exists: bool) -> (r: (Self, bool))
        ensures
            r.0 == (ChunkedTmpFileCryptoWriter {
                chunk_size: CHUNK_SIZE,
                chunk_index: 0,
                writer: false,
            }),
            r.0.wf(),
            r.1 == !dir_exists,
    {
        (
            ChunkedTmpFileCryptoWriter { chunk_size: CHUNK_SIZE, chunk_index: 0, writer: false },
            !dir_exists,
        )
    }

    fn locate<E>(&self, goal: ChunkedGoal) -> (step: Step<ChunkedOp, E>)
        ensures
            (*self, step) == self.located::<E>(goal),
    {
        let task = if self.writer {
            ChunkedTask::Position
        } else {
            ChunkedTask::OpenWriter { chunk: self.chunk_index }
        };
        Step::Perform(ChunkedOp { goal, task })
    }

    fn place<E>(&self, goal: ChunkedGoal, at: u64) -> (step: Step<ChunkedOp, E>)
        requires
            self.wf(),
            self.fits(ChunkedOp { goal, task: ChunkedTask::Position }, ChunkedReply::At(at)),
        ensures
            (*self, step) == self.placed::<E>(goal, at),
    {
        let pos: u64 = self.chunk_index * self.chunk_size + at;
        match goal {
            ChunkedGoal::Write { len, start, .. } => {
                let room: usize = (self.chunk_size - at) as usize;
                let end: usize = if len - start > room {
                    start + room
                } else {
                    len
                };
                Step::Perform(ChunkedOp { goal, task: ChunkedTask::WriteInner { start, end } })
            },
            ChunkedGoal::SeekBy { offset } => match relative_position(pos, offset) {
                Some(target) => self.locate(ChunkedGoal::Seek { target }),
                None => Step::Failed(Failure::SeekBeforeStart),
            },
            ChunkedGoal::Seek { target } => {
                if target == pos {
                    self.locate(ChunkedGoal::Report)
                } else {
                    Step::Perform(ChunkedOp { goal, task: ChunkedTask::LockFile })
                }
            },
            _ => Step::Done(pos),
        }
    }

    fn rest<E>(&self, goal: ChunkedGoal) -> (step: Step<ChunkedOp, E>)
        ensures
            (*self, step) == self.rested::<E>(goal),
    {
        match goal {
            ChunkedGoal::Write { len, start, written } => {
                if start == len {
                    Step::Done(written)
                } else {
                    self.locate(goal)
                }
            },
            _ => Step::Done(0),
        }
    }

    fn reopen<E>(&self, target: u64) -> (step: Step<ChunkedOp, E>)
        requires
            self.wf(),
        ensures
            (*self, step) == self.reopened::<E>(target),
    {
        let task = if target == 0 {
            ChunkedTask::RestartWriter
        } else {
            ChunkedTask::SwitchWriter { chunk: target / self.chunk_size }
        };
        Step::Perform(ChunkedOp { goal: ChunkedGoal::Seek { target }, task })
    }

    fn switch<E>(&mut self, target: u64) -> (step: Step<ChunkedOp, E>)
        requires
            old(self).wf(),
        ensures
            (*final(self), step) == old(self).switched::<E>(target),
    {
        if self.writer {
            self.writer = false;
            let goal = ChunkedGoal::Seek { target };
            Step::Perform(ChunkedOp { goal, task: ChunkedTask::FlushOld })
        } else {
            self.reopen(target)
        }
    }

    fn bridge<E>(&mut self, target: u64, chunk: u64) -> (step: Step<ChunkedOp, E>)
        requires
            old(self).wf(),
        ensures
            (*final(self), step) == old(self).bridged::<E>(target, chunk as int),
    {
        if chunk < target / self.chunk_size {
            let goal = ChunkedGoal::Seek { target };
            Step::Perform(ChunkedOp { goal, task: ChunkedTask::CheckChunk { chunk } })
        } else {
            self.switch(target)
        }
    }

    fn depart<E>(&mut self, target: u64) -> (step: Step<ChunkedOp, E>)
        requires
            old(self).wf(),
        ensures
            (*final(self), step) == old(self).departed::<E>(target),
    {
        let goal = ChunkedGoal::Seek { target };
        let chunk: u64 = target / self.chunk_size;
        if target == 0 || chunk < self.chunk_index {
            return self.switch(target);
        }
        let task = if self.chunk_index < chunk {
            ChunkedTask::FillChunk { to: self.chunk_size }
        } else if self.writer {
            ChunkedTask::SeekInner { to: target % self.chunk_size }
        } else {
            ChunkedTask::SwitchWriter { chunk }
        };
        Step::Perform(ChunkedOp { goal, task })
    }

    fn go_on<E>(&mut self, op: ChunkedOp, reply: ChunkedReply) -> (step: Step<ChunkedOp, E>)
        requires
            old(self).wf(),
            op.task.expects(reply),
            old(self).fits(op, reply),
        ensures
            (*final(self), step) == old(self).after::<E>(op, reply),
            final(self).wf(),
    {
        let goal = op.goal;
        let target: u64 = match goal {
            ChunkedGoal::Seek { target } => target,
            _ => 0,
        };
        proof {
            lemma_next_base(*self);
            lemma_base_of(target, self.chunk_size);
        }
        let next = match op.task {
            ChunkedTask::LockFile => {
                return match goal {
                    ChunkedGoal::Seek { .. } => self.depart(target),
                    _ => self.locate(goal),
                };
            },
            ChunkedTask::OpenWriter { .. } => {
                self.writer = true;
                ChunkedTask::Position
            },
            ChunkedTask::Position => {
                let at: u64 = match reply {
                    ChunkedReply::At(at) => at,
                    _ => 0,
                };
                return self.place(goal, at);
            },
            ChunkedTask::WriteInner { start, end } => {
                let n: usize = match reply {
                    ChunkedReply::Wrote(n) => n,
                    _ => 0,
                };
                return match goal {
                    ChunkedGoal::Write { len, written, .. } => {
                        let total: u64 = written + n as u64;
                        if n < end - start && end < len {
                            Step::Done(total)
                        } else {
                            let goal = ChunkedGoal::Write { len, start: end, written: total };
                            Step::Perform(ChunkedOp { goal, task: ChunkedTask::PositionAfter })
                        }
                    },
                    _ => Step::Done(0),
                };
            },
            ChunkedTask::PositionAfter => {
                let at: u64 = match reply {
                    ChunkedReply::At(at) => at,
                    _ => 0,
                };
                if self.chunk_size - at != 0 {
                    return self.rest(goal);
                }
                ChunkedTask::FlushFull
            },
            ChunkedTask::FlushFull => ChunkedTask::FinishFull,
            ChunkedTask::FinishFull => {
                self.writer = false;
                self.chunk_index = self.chunk_index + 1;
                return self.rest(goal);
            },
            ChunkedTask::FillChunk { .. } => {
                let chunk: u64 = self.chunk_index + 1;
                return self.bridge(target, chunk);
            },
            ChunkedTask::CheckChunk { chunk } => {
                match reply {
                    ChunkedReply::Exists(true) => {
                        return self.bridge(target, chunk + 1);
                    },
                    _ => {},
                }
                ChunkedTask::CreateGap { chunk }
            },
            ChunkedTask::CreateGap { chunk } => ChunkedTask::FillGap { chunk, to: self.chunk_size },
            ChunkedTask::FillGap { chunk, .. } => ChunkedTask::FlushGap { chunk },
            ChunkedTask::FlushGap { chunk } => ChunkedTask::FinishGap { chunk },
            ChunkedTask::FinishGap { chunk } => {
                return self.bridge(target, chunk + 1);
            },
            ChunkedTask::FlushOld => ChunkedTask::FinishOld,
            ChunkedTask::FinishOld => {
                return self.reopen(target);
            },
            ChunkedTask::RestartWriter => {
                self.writer = true;
                self.chunk_index = 0;
                return self.locate(ChunkedGoal::Report);
            },
            ChunkedTask::SwitchWriter { .. } => {
                self.writer = true;
                ChunkedTask::SeekInner { to: target % self.chunk_size }
            },
            ChunkedTask::SeekInner { .. } => {
                self.chunk_index = target / self.chunk_size;
                return self.locate(ChunkedGoal::Report);
            },
            ChunkedTask::FlushWriter | ChunkedTask::OpenFirst => {
                return Step::Done(0);
            },
            ChunkedTask::FlushEnd => ChunkedTask::FinishEnd,
            ChunkedTask::FinishEnd => ChunkedTask::CheckFirst,
            ChunkedTask::CheckFirst => match reply {
                ChunkedReply::Exists(true) => ChunkedTask::OpenFirst,
                _ => ChunkedTask::CreateFirst,
            },
            ChunkedTask::CreateFirst => ChunkedTask::OpenFirst,
        };
        Step::Perform(ChunkedOp { goal, task: next })
    }

    /// Goes on with `op` after its work came out as `answer`.
    pub fn resume<E>(&mut self, op: ChunkedOp, answer: Result<ChunkedReply, E>) -> (step: Step<
        ChunkedOp,
        E,
    >)
        requires
            old(self).wf(),
            answer matches Ok(reply) ==> op.task.expects(reply) && old(self).fits(op, reply),
        ensures
            (*final(self), step) == old(self).resumed(op, answer),
            final(self).wf(),
    {
        match answer {
            Ok(reply) => self.go_on(op, reply),
            Err(e) => match op.task {
                ChunkedTask::FlushEnd | ChunkedTask::FinishEnd => self.go_on(
                    op,
                    ChunkedReply::Completed,
                ),
                _ => Step::Failed(Failure::Outside(e)),
            },
        }
    }

    /// Starts finding out the position.
    pub fn pos<E>(&self) -> (step: Step<ChunkedOp, E>)
        ensures
            (*self, step) == self.started::<E>(ChunkedGoal::Pos),
    {
        self.locate(ChunkedGoal::Pos)
    }

    /// Starts writing `len` bytes of the caller's at the current position. The operation ends with
    /// how many of them were taken.
    pub fn write<E>(&self, len: usize) -> (step: Step<ChunkedOp, E>)
        ensures
            (*self, step) == self.started::<E>(ChunkedGoal::Write { len, start: 0, written: 0 }),
    {
        if len == 0 {
            Step::Done(0)
        } else {
            let goal = ChunkedGoal::Write { len, start: 0, written: 0 };
            Step::Perform(ChunkedOp { goal, task: ChunkedTask::LockFile })
        }
    }

    /// Starts flushing the inner writer; nothing is to be done where none is open.
    pub fn flush<E>(&self) -> (step: Step<ChunkedOp, E>)
        ensures
            (*self, step) == self.started::<E>(ChunkedGoal::Flush),
    {
        if self.writer {
            let goal = ChunkedGoal::Flush;
            Step::Perform(ChunkedOp { goal, task: ChunkedTask::FlushWriter })
        } else {
            Step::Done(0)
        }
    }

    /// Starts closing what is open; the first chunk is opened last.
    pub fn finish<E>(&mut self) -> (step: Step<ChunkedOp, E>)
        ensures
            (*final(self), step) == old(self).started::<E>(ChunkedGoal::Finish),
    {
        let task = if self.writer {
            self.writer = false;
            ChunkedTask::FlushEnd
        } else {
            ChunkedTask::CheckFirst
        };
        Step::Perform(ChunkedOp { goal: ChunkedGoal::Finish, task })
    }

    /// Starts moving to the position `pos`.
    pub fn seek_from_start<E>(&self, pos: u64) -> (step: Step<ChunkedOp, E>)
        ensures
            (*self, step) == self.started::<E>(ChunkedGoal::Seek { target: pos }),
    {
        self.locate(ChunkedGoal::Seek { target: pos })
    }

    /// Starts moving to `place`.
    pub fn seek<E>(&self, place: SeekFrom) -> (step: Step<ChunkedOp, E>)
        ensures
            (*self, step) == (match place {
                SeekFrom::Start(target) => if target <= i64::MAX {
                    self.started::<E>(ChunkedGoal::Seek { target })
                } else {
                    (*self, Step::Failed(Failure::SeekBeforeStart))
                },
                SeekFrom::End(_) => (*self, Step::Failed(Failure::SeekFromEnd)),
                SeekFrom::Current(offset) => self.started::<E>(ChunkedGoal::SeekBy { offset }),
            }),
    {
        match place {
            SeekFrom::Start(target) => {
                if target <= i64::MAX as u64 {
                    self.seek_from_start(target)
                } else {
                    Step::Failed(Failure::SeekBeforeStart)
                }
            },
            SeekFrom::End(_) => Step::Failed(Failure::SeekFromEnd),
            SeekFrom::Current(offset) => self.locate(ChunkedGoal::SeekBy { offset }),
        }
    }
}

} // verus!
