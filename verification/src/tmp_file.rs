//! A writer that changes a file by way of a temporary one.
//!
//! What is written goes to a temporary file, from its start on. To move on, the bytes in between
//! are copied from the file; to move back, or to finish, the rest of the file is copied behind
//! what was written and the temporary file is renamed to the file.
//!
//! The type here decides; it touches no file. Every operation returns a [`Step`]: as long as that
//! is `Perform`, the caller does the work that the operation's [`TmpTask`] describes and hands
//! what came of it to [`TmpFileCryptoWriter::resume`].

use crate::outcome::{as_signed, moved, relative_position, Failure, SeekFrom, Step};
use vstd::prelude::*;

verus! {

/// What the writer knows between two operations.
#[derive(Clone, Copy, Debug, PartialEq, Eq, Structural)]
pub struct TmpFileCryptoWriter {
    /// Whether an inner writer is open on the temporary file.
    pub writer: bool,
    /// Whether the path of a temporary file is remembered.
    pub tmp_file: bool,
    /// Whether somebody is to be told when the file was replaced.
    pub callback: bool,
    /// Whether the size of the file can be asked for.
    pub metadata_provider: bool,
    /// How many bytes the open inner writer took.
    pub pos: u64,
}

/// What an operation is to achieve.
#[derive(Clone, Copy, Debug, PartialEq, Eq, Structural)]
pub enum TmpGoal {
    /// Write the caller's bytes at the current position.
    Write,
    /// Flush the inner writer.
    Flush,
    /// Be at `target`.
    Seek { target: u64 },
    /// Bring everything that was written into the file, then open the file.
    Finish,
    /// Remove what is left of the temporary file.
    Release,
}

/// The outside work that an operation waits for.
#[derive(Clone, Copy, Debug, PartialEq, Eq, Structural)]
pub enum TmpTask {
    /// See whether the remembered temporary file exists. Its path is forgotten by the writer.
    CheckTmp,
    /// Remove that temporary file.
    RemoveTmp,
    /// Find a path for a new temporary file and remember it.
    CreateTmp,
    /// Create the file at the remembered path and open an inner writer on it.
    OpenTmp,
    /// Hand the caller's bytes to the inner writer.
    WriteInner,
    /// Write to this writer `len` bytes of the file from `from` on, fewer if the file ends before.
    CopyForward { from: u64, len: u64 },
    /// Write `len` zero bytes to this writer.
    FillZeros { len: u64 },
    /// Flush the inner writer, before going back.
    FlushDirty,
    /// Ask for the size of the file.
    AskSize,
    /// Write to this writer `len` bytes of the file from `from` on, fewer if the file ends before.
    CopyRest { from: u64, len: u64 },
    /// Flush the inner writer, which the writer has given up after `last` bytes.
    FlushLast { last: u64 },
    /// Finish the given-up inner writer.
    FinishLast { last: u64 },
    /// Rename the temporary file to the file, under the file's lock if there is one.
    Rename { last: u64 },
    /// Say that the file changed from `changed_from` on and that `last` bytes were written.
    Notify { changed_from: i64, last: u64 },
    /// Write to this writer exactly `len` bytes of the file from `from` on.
    CopyBack { from: u64, len: u64 },
    /// Flush the inner writer.
    FlushWriter,
    /// Finish the inner writer, which the writer has given up.
    FinishWriter,
    /// Open the file for reading.
    OpenFile,
}

/// What successful work gave.
#[derive(Clone, Copy, Debug, PartialEq, Eq, Structural)]
pub enum TmpReply {
    /// The work is done.
    Completed,
    /// Whether the file that was looked for exists.
    Exists(bool),
    /// How many bytes the inner writer took.
    Wrote(usize),
    /// The size that was asked for.
    Size(u64),
}

/// An operation that waits for outside work.
#[derive(Clone, Copy, Debug, PartialEq, Eq, Structural)]
pub struct TmpOp {
    pub goal: TmpGoal,
    pub task: TmpTask,
}

impl TmpGoal {
    /// The position that the goal asks for; a finished writer is at the start.
    pub open spec fn target(self) -> u64 {
        match self {
            TmpGoal::Seek { target } => target,
            _ => 0,
        }
    }
}

impl TmpTask {
    /// Whether `reply` is the kind of reply that the work gives.
    pub open spec fn expects(self, reply: TmpReply) -> bool {
        match self {
            TmpTask::CheckTmp => reply is Exists,
            TmpTask::WriteInner => reply is Wrote,
            TmpTask::AskSize => reply is Size,
            _ => reply is Completed,
        }
    }
}

/// The next step of an operation, and the writer as it is meanwhile.
pub type TmpNext<E> = (TmpFileCryptoWriter, Step<TmpOp, E>);

pub open spec fn perform<E>(s: TmpFileCryptoWriter, goal: TmpGoal, task: TmpTask) -> TmpNext<E> {
    (s, Step::Perform(TmpOp { goal, task }))
}

impl TmpFileCryptoWriter {
    /// Where the next byte goes.
    pub open spec fn position(self) -> u64 {
        if self.writer {
            self.pos
        } else {
            0
        }
    }

    /// The target is reached: a seek ends there, and a finishing writer closes what is open and
    /// opens the file.
    pub open spec fn arrive<E>(self, goal: TmpGoal) -> TmpNext<E> {
        if goal is Finish {
            if self.writer {
                perform(
                    TmpFileCryptoWriter { writer: false, ..self },
                    goal,
                    TmpTask::FinishWriter,
                )
            } else {
                perform(self, goal, TmpTask::OpenFile)
            }
        } else {
            (self, Step::Done(self.position()))
        }
    }

    /// An inner writer is open: bytes are written, and a seek goes forward by copying or back by
    /// replacing the file.
    pub open spec fn proceed<E>(self, goal: TmpGoal) -> TmpNext<E> {
        if goal is Write {
            perform(self, goal, TmpTask::WriteInner)
        } else if self.position() < goal.target() {
            perform(
                self,
                goal,
                TmpTask::CopyForward {
                    from: self.position(),
                    len: (goal.target() - self.position()) as u64,
                },
            )
        } else {
            perform(self, goal, TmpTask::FlushDirty)
        }
    }

    /// An inner writer is needed: if none is open, one is opened on a new temporary file, and an
    /// older temporary file is looked for first.
    pub open spec fn ensured<E>(self, goal: TmpGoal) -> TmpNext<E> {
        if self.writer {
            self.proceed(goal)
        } else if self.tmp_file {
            perform(
                TmpFileCryptoWriter { tmp_file: false, ..self },
                goal,
                TmpTask::CheckTmp,
            )
        } else {
            perform(self, goal, TmpTask::CreateTmp)
        }
    }

    /// Nothing is left to do for a writer that is at the target.
    pub open spec fn sought<E>(self, goal: TmpGoal) -> TmpNext<E> {
        if goal.target() == self.position() {
            self.arrive(goal)
        } else {
            self.ensured(goal)
        }
    }

    /// How an operation with `goal` begins.
    pub open spec fn started<E>(self, goal: TmpGoal) -> TmpNext<E> {
        match goal {
            TmpGoal::Write => self.ensured(goal),
            TmpGoal::Seek { .. } => self.sought(goal),
            TmpGoal::Flush => if self.writer {
                perform(self, goal, TmpTask::FlushWriter)
            } else {
                (self, Step::Done(0))
            },
            TmpGoal::Finish => if self.writer {
                perform(self, goal, TmpTask::FlushWriter)
            } else {
                self.sought(goal)
            },
            TmpGoal::Release => if self.tmp_file {
                perform(
                    TmpFileCryptoWriter { tmp_file: false, ..self },
                    goal,
                    TmpTask::CheckTmp,
                )
            } else {
                (self, Step::Done(0))
            },
        }
    }

    /// The file is taken to hold `size` bytes: what of it lies behind the position is copied
    /// before the inner writer is closed.
    pub open spec fn sized<E>(self, goal: TmpGoal, size: u64) -> TmpNext<E> {
        if self.position() < size {
            perform(
                self,
                goal,
                TmpTask::CopyRest { from: self.position(), len: u64::MAX },
            )
        } else {
            self.closed(goal)
        }
    }

    /// The inner writer is given up; it is flushed and finished next.
    pub open spec fn closed<E>(self, goal: TmpGoal) -> TmpNext<E> {
        perform(
            TmpFileCryptoWriter { writer: false, ..self },
            goal,
            TmpTask::FlushLast { last: self.position() },
        )
    }

    /// The file was replaced: the bytes before the target are copied from it.
    pub open spec fn replaced<E>(self, goal: TmpGoal) -> TmpNext<E> {
        if goal.target() != 0 {
            perform(
                self,
                goal,
                TmpTask::CopyBack { from: self.position(), len: goal.target() },
            )
        } else {
            self.arrive(goal)
        }
    }

    /// What follows when the work of `op` succeeded with `reply`.
    pub open spec fn after<E>(self, op: TmpOp, reply: TmpReply) -> TmpNext<E> {
        let goal = op.goal;
        match op.task {
            TmpTask::CheckTmp => if reply == TmpReply::Exists(true) {
                perform(self, goal, TmpTask::RemoveTmp)
            } else if goal is Release {
                (self, Step::Done(0))
            } else {
                perform(self, goal, TmpTask::CreateTmp)
            },
            TmpTask::RemoveTmp => if goal is Release {
                (self, Step::Done(0))
            } else {
                perform(self, goal, TmpTask::CreateTmp)
            },
            TmpTask::CreateTmp => perform(
                TmpFileCryptoWriter { tmp_file: true, ..self },
                goal,
                TmpTask::OpenTmp,
            ),
            TmpTask::OpenTmp => (TmpFileCryptoWriter { writer: true, pos: 0, ..self }).proceed(
                goal,
            ),
            TmpTask::WriteInner => (
                TmpFileCryptoWriter { pos: (self.pos + reply->Wrote_0) as u64, ..self },
                Step::Done(reply->Wrote_0 as u64),
            ),
            TmpTask::CopyForward { .. } => if self.position() < goal.target() {
                perform(
                    self,
                    goal,
                    TmpTask::FillZeros { len: (goal.target() - self.position()) as u64 },
                )
            } else {
                self.arrive(goal)
            },
            TmpTask::FillZeros { .. } => self.arrive(goal),
            TmpTask::FlushDirty => if self.metadata_provider {
                perform(self, goal, TmpTask::AskSize)
            } else {
                self.sized(goal, u64::MAX)
            },
            TmpTask::AskSize => self.sized(goal, reply->Size_0),
            TmpTask::CopyRest { .. } => self.closed(goal),
            TmpTask::FlushLast { last } => perform(self, goal, TmpTask::FinishLast { last }),
            TmpTask::FinishLast { last } => perform(
                TmpFileCryptoWriter { pos: 0, ..self },
                goal,
                TmpTask::Rename { last },
            ),
            TmpTask::Rename { last } => if self.callback {
                perform(self, goal, TmpTask::Notify { changed_from: -1i64, last })
            } else {
                self.replaced(goal)
            },
            TmpTask::Notify { .. } => self.replaced(goal),
            TmpTask::CopyBack { .. } => self.arrive(goal),
            TmpTask::FlushWriter => if goal is Finish {
                self.sought(goal)
            } else {
                (self, Step::Done(0))
            },
            TmpTask::FinishWriter => perform(self, goal, TmpTask::OpenFile),
            TmpTask::OpenFile => (self, Step::Done(0)),
        }
    }

    /// What follows when the work of `op` came out as `answer`. A failure ends the operation; the
    /// writer stays as it was when the work was asked for.
    pub open spec fn resumed<E>(self, op: TmpOp, answer: Result<TmpReply, E>) -> TmpNext<E> {
        match answer {
            Ok(reply) => self.after(op, reply),
            Err(e) => (self, Step::Failed(Failure::Outside(e))),
        }
    }
}

impl TmpFileCryptoWriter {
    /// A writer for a file. The second part of the result says whether the file is to be created
    /// first.
    pub fn new(file_exists: bool, callback: bool, metadata_provider: bool) -> (r: (Self, bool))
        ensures
            r.0 == (TmpFileCryptoWriter {
                writer: false,
                tmp_file: false,
                callback,
                metadata_provider,
                pos: 0,
            }),
            r.1 == !file_exists,
    {
        let writer = TmpFileCryptoWriter {
            writer: false,
            tmp_file: false,
            callback,
            metadata_provider,
            pos: 0,
        };
        (writer, !file_exists)
    }

    /// Where the next byte goes.
    pub fn pos(&self) -> (pos: u64)
        ensures
            pos == self.position(),
    {
        if self.writer {
            self.pos
        } else {
            0
        }
    }

    fn reach<E>(&mut self, goal: TmpGoal) -> (step: Step<TmpOp, E>)
        ensures
            (*final(self), step) == old(self).arrive::<E>(goal),
    {
        match goal {
            TmpGoal::Finish => {
                if self.writer {
                    self.writer = false;
                    Step::Perform(TmpOp { goal, task: TmpTask::FinishWriter })
                } else {
                    Step::Perform(TmpOp { goal, task: TmpTask::OpenFile })
                }
            },
            _ => Step::Done(self.pos()),
        }
    }

    fn go_on<E>(&self, goal: TmpGoal) -> (step: Step<TmpOp, E>)
        ensures
            (*self, step) == self.proceed::<E>(goal),
    {
        let target: u64 = match goal {
            TmpGoal::Write => {
                return Step::Perform(TmpOp { goal, task: TmpTask::WriteInner });
            },
            TmpGoal::Seek { target } => target,
            _ => 0,
        };
        let pos: u64 = self.pos();
        if pos < target {
            let task = TmpTask::CopyForward { from: pos, len: target - pos };
            Step::Perform(TmpOp { goal, task })
        } else {
            Step::Perform(TmpOp { goal, task: TmpTask::FlushDirty })
        }
    }

    /// Sees to it that an inner writer is open, then goes on with `goal`.
    pub fn ensure_writer_created<E>(&mut self, goal: TmpGoal) -> (step: Step<TmpOp, E>)
        ensures
            (*final(self), step) == old(self).ensured::<E>(goal),
    {
        if self.writer {
            self.go_on(goal)
        } else if self.tmp_file {
            self.tmp_file = false;
            Step::Perform(TmpOp { goal, task: TmpTask::CheckTmp })
        } else {
            Step::Perform(TmpOp { goal, task: TmpTask::CreateTmp })
        }
    }

    fn seek_goal<E>(&mut self, goal: TmpGoal) -> (step: Step<TmpOp, E>)
        ensures
            (*final(self), step) == old(self).sought::<E>(goal),
    {
        let target: u64 = match goal {
            TmpGoal::Seek { target } => target,
            _ => 0,
        };
        if target == self.pos() {
            self.reach(goal)
        } else {
            self.ensure_writer_created(goal)
        }
    }

    /// Starts moving to the position `pos`.
    pub fn seek_from_start<E>(&mut self, pos: u64) -> (step: Step<TmpOp, E>)
        ensures
            (*final(self), step) == old(self).started::<E>(TmpGoal::Seek { target: pos }),
    {
        self.seek_goal(TmpGoal::Seek { target: pos })
    }

    fn copy_rest<E>(&mut self, goal: TmpGoal, size: u64) -> (step: Step<TmpOp, E>)
        ensures
            (*final(self), step) == old(self).sized::<E>(goal, size),
    {
        let pos: u64 = self.pos();
        if pos < size {
            let task = TmpTask::CopyRest { from: pos, len: u64::MAX };
            Step::Perform(TmpOp { goal, task })
        } else {
            self.close(goal)
        }
    }

    fn close<E>(&mut self, goal: TmpGoal) -> (step: Step<TmpOp, E>)
        ensures
            (*final(self), step) == old(self).closed::<E>(goal),
    {
        let last: u64 = self.pos();
        self.writer = false;
        Step::Perform(TmpOp { goal, task: TmpTask::FlushLast { last } })
    }

    fn copy_back<E>(&mut self, goal: TmpGoal) -> (step: Step<TmpOp, E>)
        ensures
            (*final(self), step) == old(self).replaced::<E>(goal),
    {
        match goal {
            TmpGoal::Seek { target } => {
                if target != 0 {
                    let task = TmpTask::CopyBack { from: self.pos(), len: target };
                    return Step::Perform(TmpOp { goal, task });
                }
            },
            _ => {},
        }
        self.reach(goal)
    }

    /// Goes on with `op` after its work came out as `answer`.
    pub fn resume<E>(&mut self, op: TmpOp, answer: Result<TmpReply, E>) -> (step: Step<TmpOp, E>)
        requires
            answer matches Ok(reply) ==> op.task.expects(reply),
            answer matches Ok(TmpReply::Wrote(n)) ==> old(self).pos + n <= u64::MAX,
        ensures
            (*final(self), step) == old(self).resumed(op, answer),
    {
        let goal = op.goal;
        let reply = match answer {
            Ok(reply) => reply,
            Err(e) => {
                return Step::Failed(Failure::Outside(e));
            },
        };
        let next = match op.task {
            TmpTask::CheckTmp => match (reply, goal) {
                (TmpReply::Exists(true), _) => TmpTask::RemoveTmp,
                (_, TmpGoal::Release) => {
                    return Step::Done(0);
                },
                _ => TmpTask::CreateTmp,
            },
            TmpTask::RemoveTmp => match goal {
                TmpGoal::Release => {
                    return Step::Done(0);
                },
                _ => TmpTask::CreateTmp,
            },
            TmpTask::CreateTmp => {
                self.tmp_file = true;
                TmpTask::OpenTmp
            },
            TmpTask::OpenTmp => {
                self.writer = true;
                self.pos = 0;
                return self.go_on(goal);
            },
            TmpTask::WriteInner => {
                let n: u64 = match reply {
                    TmpReply::Wrote(n) => n as u64,
                    _ => 0,
                };
                self.pos = self.pos + n;
                return Step::Done(n);
            },
            TmpTask::CopyForward { .. } => {
                let pos: u64 = self.pos();
                match goal {
                    TmpGoal::Seek { target } => {
                        if pos < target {
                            let task = TmpTask::FillZeros { len: target - pos };
                            return Step::Perform(TmpOp { goal, task });
                        }
                    },
                    _ => {},
                }
                return self.reach(goal);
            },
            TmpTask::FillZeros { .. } | TmpTask::CopyBack { .. } => {
                return self.reach(goal);
            },
            TmpTask::FlushDirty => {
                if !self.metadata_provider {
                    return self.copy_rest(goal, u64::MAX);
                }
                TmpTask::AskSize
            },
            TmpTask::AskSize => {
                let size: u64 = match reply {
                    TmpReply::Size(size) => size,
                    _ => 0,
                };
                return self.copy_rest(goal, size);
            },
            TmpTask::CopyRest { .. } => {
                return self.close(goal);
            },
            TmpTask::FlushLast { last } => TmpTask::FinishLast { last },
            TmpTask::FinishLast { last } => {
                self.pos = 0;
                TmpTask::Rename { last }
            },
            TmpTask::Rename { last } => {
                if !self.callback {
                    return self.copy_back(goal);
                }
                TmpTask::Notify { changed_from: -1i64, last }
            },
            TmpTask::Notify { .. } => {
                return self.copy_back(goal);
            },
            TmpTask::FlushWriter => match goal {
                TmpGoal::Finish => {
                    return self.seek_goal(goal);
                },
                _ => {
                    return Step::Done(0);
                },
            },
            TmpTask::FinishWriter => TmpTask::OpenFile,
            TmpTask::OpenFile => {
                return Step::Done(0);
            },
        };
        Step::Perform(TmpOp { goal, task: next })
    }

    /// Starts writing the caller's bytes at the current position. The operation ends with how
    /// many of them were taken.
    pub fn write<E>(&mut self) -> (step: Step<TmpOp, E>)
        ensures
            (*final(self), step) == old(self).started::<E>(TmpGoal::Write),
    {
        self.ensure_writer_created(TmpGoal::Write)
    }

    /// Starts flushing what was written to the temporary file; nothing is to be done where none is
    /// open.
    pub fn flush<E>(&self) -> (step: Step<TmpOp, E>)
        ensures
            (*self, step) == self.started::<E>(TmpGoal::Flush),
    {
        if self.writer {
            Step::Perform(TmpOp { goal: TmpGoal::Flush, task: TmpTask::FlushWriter })
        } else {
            Step::Done(0)
        }
    }

    /// Starts bringing everything that was written into the file, which is opened last.
    pub fn finish<E>(&mut self) -> (step: Step<TmpOp, E>)
        ensures
            (*final(self), step) == old(self).started::<E>(TmpGoal::Finish),
    {
        if self.writer {
            Step::Perform(TmpOp { goal: TmpGoal::Finish, task: TmpTask::FlushWriter })
        } else {
            self.seek_goal(TmpGoal::Finish)
        }
    }

    /// Starts moving to `place`.
    pub fn seek<E>(&mut self, place: SeekFrom) -> (step: Step<TmpOp, E>)
        requires
            place matches SeekFrom::Current(offset) ==> i64::MIN <= as_signed(
                old(self).position(),
            ) + offset <= i64::MAX,
        ensures
            (*final(self), step) == (match place {
                SeekFrom::Start(pos) => old(self).started::<E>(TmpGoal::Seek { target: pos }),
                SeekFrom::End(_) => (*old(self), Step::Failed(Failure::SeekFromEnd)),
                SeekFrom::Current(offset) => match moved(old(self).position(), offset) {
                    Some(pos) => old(self).started::<E>(TmpGoal::Seek { target: pos }),
                    None => (*old(self), Step::Failed(Failure::SeekBeforeStart)),
                },
            }),
    {
        match place {
            SeekFrom::Start(pos) => self.seek_from_start(pos),
            SeekFrom::End(_) => Step::Failed(Failure::SeekFromEnd),
            SeekFrom::Current(offset) => match relative_position(self.pos(), offset) {
                Some(pos) => self.seek_from_start(pos),
                None => Step::Failed(Failure::SeekBeforeStart),
            },
        }
    }

    /// Starts removing what is left of the temporary file, for a writer that is given up.
    pub fn release<E>(&mut self) -> (step: Step<TmpOp, E>)
        ensures
            (*final(self), step) == old(self).started::<E>(TmpGoal::Release),
    {
        if self.tmp_file {
            self.tmp_file = false;
            Step::Perform(TmpOp { goal: TmpGoal::Release, task: TmpTask::CheckTmp })
        } else {
            Step::Done(0)
        }
    }
}

} // verus!
