//! What the operations of a [`TmpFileCryptoWriter`] do to the bytes, whoever carries out the work:
//! the writer behaves like one that edits the file in place, and the file itself is only ever
//! replaced as a whole.

use crate::outcome::Step;
use crate::tmp_file::{TmpFileCryptoWriter, TmpGoal, TmpOp, TmpReply, TmpTask};
use vstd::prelude::*;

verus! {

/// The plain bytes that the file and the temporary file stand for.
#[verifier::ext_equal]
pub struct TmpFiles {
    pub file: Seq<u8>,
    pub tmp: Seq<u8>,
    /// How long the temporary file gets before an inner write may be short.
    pub capacity: nat,
}

/// `n` zero bytes.
pub open spec fn zeros(n: nat) -> Seq<u8> {
    Seq::new(n, |i: int| 0u8)
}

/// The bytes of `file` from `from` on.
pub open spec fn behind(file: Seq<u8>, from: nat) -> Seq<u8> {
    if from <= file.len() {
        file.subrange(from as int, file.len() as int)
    } else {
        Seq::empty()
    }
}

/// The first `len` of the bytes of `file` from `from` on, fewer if there are fewer.
pub open spec fn part(file: Seq<u8>, from: nat, len: nat) -> Seq<u8> {
    if behind(file, from).len() <= len {
        behind(file, from)
    } else {
        behind(file, from).subrange(0, len as int)
    }
}

/// `content`, with zero bytes behind it up to `len` bytes.
pub open spec fn padded(content: Seq<u8>, len: nat) -> Seq<u8> {
    if content.len() < len {
        content + zeros((len - content.len()) as nat)
    } else {
        content
    }
}

/// `content` with `data` in place of what stood at `at`.
pub open spec fn overwritten(content: Seq<u8>, at: nat, data: Seq<u8>) -> Seq<u8> {
    content.subrange(0, at as int) + data + behind(content, at + data.len())
}

/// What the file holds from a user's point of view: what was written, and behind it what stands
/// in the file.
pub open spec fn content(s: TmpFileCryptoWriter, f: TmpFiles) -> Seq<u8> {
    if s.writer {
        f.tmp + behind(f.file, f.tmp.len())
    } else {
        f.file
    }
}

/// The writer's position says how long the temporary file is.
pub open spec fn consistent(s: TmpFileCryptoWriter, f: TmpFiles) -> bool {
    &&& s.writer ==> s.pos == f.tmp.len()
    &&& f.file.len() <= u64::MAX
    &&& f.capacity > 0
}

/// Whether `answer` is what the work `task` may come to, with `data` as the caller's bytes, when
/// it takes the writer from `s` to `s2` and the files from `f` to `f2`. Work that fails leaves the
/// file alone. An inner write takes at least one byte if there is one, and all of them as long as
/// the temporary file keeps within its capacity. A size that is asked for is not too small.
pub open spec fn does<E>(
    task: TmpTask,
    data: Seq<u8>,
    s: TmpFileCryptoWriter,
    f: TmpFiles,
    answer: Result<TmpReply, E>,
    s2: TmpFileCryptoWriter,
    f2: TmpFiles,
) -> bool {
    match answer {
        Err(_) => f2.file == f.file,
        Ok(reply) => {
            &&& task.expects(reply)
            &&& f2.capacity == f.capacity
            &&& match task {
                TmpTask::CheckTmp | TmpTask::RemoveTmp | TmpTask::CreateTmp => {
                    &&& s2 == s
                    &&& f2.file == f.file
                },
                TmpTask::OpenTmp => {
                    &&& s2 == s
                    &&& f2 == (TmpFiles { tmp: Seq::empty(), ..f })
                },
                TmpTask::WriteInner => {
                    &&& s2 == s
                    &&& reply->Wrote_0 <= data.len()
                    &&& data.len() > 0 ==> reply->Wrote_0 > 0
                    &&& f.tmp.len() + data.len() <= f.capacity ==> reply->Wrote_0 == data.len()
                    &&& s.pos + reply->Wrote_0 <= u64::MAX
                    &&& f2 == (TmpFiles {
                        tmp: f.tmp + data.subrange(0, reply->Wrote_0 as int),
                        ..f
                    })
                },
                TmpTask::CopyForward { from, len } | TmpTask::CopyRest { from, len } => takes(
                    s,
                    f,
                    part(f.file, from as nat, len as nat),
                    s2,
                    f2,
                ),
                TmpTask::FillZeros { len } => takes(s, f, zeros(len as nat), s2, f2),
                TmpTask::AskSize => {
                    &&& s2 == s
                    &&& f2 == f
                    &&& f.file.len() <= reply->Size_0
                },
                TmpTask::Rename { .. } => {
                    &&& s2 == s
                    &&& f2.file == f.tmp
                },
                TmpTask::CopyBack { from, len } => {
                    &&& from + len <= f.file.len()
                    &&& s2 == (TmpFileCryptoWriter { writer: true, tmp_file: true, pos: len, ..s })
                    &&& f2 == (TmpFiles { tmp: part(f.file, from as nat, len as nat), ..f })
                },
                _ => {
                    &&& s2 == s
                    &&& f2 == f
                },
            }
        },
    }
}

/// The open inner writer takes `more`.
pub open spec fn takes(
    s: TmpFileCryptoWriter,
    f: TmpFiles,
    more: Seq<u8>,
    s2: TmpFileCryptoWriter,
    f2: TmpFiles,
) -> bool {
    &&& f.tmp.len() + more.len() <= u64::MAX
    &&& s2 == (TmpFileCryptoWriter { pos: (f.tmp.len() + more.len()) as u64, ..s })
    &&& f2 == (TmpFiles { tmp: f.tmp + more, ..f })
}

/// Whether an operation that stands at `step` can stand at `step2` after `n` pieces of work, each
/// done as [`does`] says.
pub open spec fn drives<E>(
    data: Seq<u8>,
    s: TmpFileCryptoWriter,
    f: TmpFiles,
    step: Step<TmpOp, E>,
    n: nat,
    s2: TmpFileCryptoWriter,
    f2: TmpFiles,
    step2: Step<TmpOp, E>,
) -> bool
    decreases n,
{
    if n == 0 {
        s == s2 && f == f2 && step == step2
    } else {
        step matches Step::Perform(op) && exists|
            answer: Result<TmpReply, E>,
            s1: TmpFileCryptoWriter,
            f1: TmpFiles,
        | #[trigger]
            does(op.task, data, s, f, answer, s1, f1) && drives(
                data,
                s1.resumed(op, answer).0,
                f1,
                s1.resumed(op, answer).1,
                (n - 1) as nat,
                s2,
                f2,
                step2,
            )
    }
}

/// What an operation started from.
struct Start {
    goal: TmpGoal,
    data: Seq<u8>,
    pos: nat,
    content: Seq<u8>,
    file: Seq<u8>,
    capacity: nat,
}

/// What holds at every step of an operation that started from `b`.
spec fn holds<E>(b: Start, s: TmpFileCryptoWriter, f: TmpFiles, step: Step<TmpOp, E>) -> bool {
    let t = b.goal.target();
    let untouched = f.file == b.file && content(s, f) == b.content && consistent(s, f);
    let seeks = b.goal is Seek || b.goal is Finish;
    match step {
        Step::Perform(op) => {
            &&& op.goal == b.goal
            &&& b.goal is Release || f.capacity == b.capacity > 0
            &&& match op.task {
                TmpTask::CheckTmp | TmpTask::RemoveTmp | TmpTask::CreateTmp | TmpTask::OpenTmp => {
                    ||| {
                        &&& untouched
                        &&& !s.writer
                        &&& b.pos == 0
                        &&& b.goal is Write || b.goal is Seek && t > 0
                    }
                    ||| {
                        &&& f.file == b.file
                        &&& b.goal is Release
                        &&& op.task is CheckTmp || op.task is RemoveTmp
                    }
                },
                TmpTask::WriteInner => {
                    &&& untouched
                    &&& s.writer
                    &&& b.goal is Write
                    &&& s.pos == b.pos
                },
                TmpTask::CopyForward { from, len } => {
                    &&& untouched
                    &&& s.writer
                    &&& b.goal is Seek
                    &&& from == s.pos == b.pos
                    &&& from + len == t
                },
                TmpTask::FillZeros { len } => {
                    &&& untouched
                    &&& s.writer
                    &&& b.goal is Seek
                    &&& b.pos <= s.pos
                    &&& s.pos + len == t
                    &&& f.file.len() <= s.pos
                },
                TmpTask::FlushDirty | TmpTask::AskSize => {
                    &&& untouched
                    &&& s.writer
                    &&& seeks
                    &&& t < s.pos == b.pos
                },
                TmpTask::CopyRest { from, len } => {
                    &&& untouched
                    &&& s.writer
                    &&& seeks
                    &&& t < s.pos == b.pos
                    &&& from == s.pos
                    &&& len == u64::MAX
                },
                TmpTask::FlushLast { last }
                | TmpTask::FinishLast { last }
                | TmpTask::Rename { last } => {
                    &&& f.file == b.file
                    &&& !s.writer
                    &&& seeks
                    &&& f.tmp == b.content
                    &&& last == b.content.len()
                    &&& t < b.pos <= last
                },
                TmpTask::Notify { changed_from, last } => {
                    &&& f.file == b.content
                    &&& !s.writer
                    &&& seeks
                    &&& changed_from == -1
                    &&& last == b.content.len()
                    &&& t < b.pos <= last
                },
                TmpTask::CopyBack { from, len } => {
                    &&& f.file == b.content
                    &&& !s.writer
                    &&& b.goal is Seek
                    &&& from == 0
                    &&& len == t
                    &&& t < b.pos <= b.content.len() <= u64::MAX
                },
                TmpTask::FlushWriter => {
                    &&& untouched
                    &&& s.writer
                    &&& b.goal is Flush || b.goal is Finish
                    &&& s.pos == b.pos
                },
                TmpTask::FinishWriter | TmpTask::OpenFile => {
                    &&& f.file == b.content
                    &&& !s.writer
                    &&& b.goal is Finish
                },
            }
        },
        Step::Done(v) => match b.goal {
            TmpGoal::Write => {
                &&& v <= b.data.len()
                &&& b.data.len() > 0 ==> v > 0
                &&& b.pos + b.data.len() <= b.capacity ==> v == b.data.len()
                &&& f.capacity == b.capacity
                &&& s.writer
                &&& s.pos == b.pos + v
                &&& f.file == b.file
                &&& content(s, f) == overwritten(
                    b.content,
                    b.pos,
                    b.data.subrange(0, v as int),
                )
                &&& consistent(s, f)
            },
            TmpGoal::Seek { target } => {
                &&& v == target
                &&& s.position() == target
                &&& content(s, f) == padded(b.content, target as nat)
                &&& consistent(s, f)
                &&& f.capacity == b.capacity
                &&& f.file == (if target < b.pos {
                    b.content
                } else {
                    b.file
                })
            },
            TmpGoal::Finish => {
                &&& !s.writer
                &&& f.file == b.content
            },
            TmpGoal::Flush => {
                &&& untouched
                &&& s.position() == b.pos
                &&& f.capacity == b.capacity
            },
            TmpGoal::Release => f.file == b.file,
        },
        Step::Failed(_) => f.file == b.file || seeks && f.file == b.content,
    }
}

proof fn lemma_arrive<E>(b: Start, s: TmpFileCryptoWriter, f: TmpFiles)
    requires
        b.goal is Seek || b.goal is Finish,
        s.position() == b.goal.target(),
        consistent(s, f),
        b.goal is Seek ==> content(s, f) == padded(b.content, b.goal.target() as nat),
        b.goal is Finish ==> content(s, f) == b.content,
        f.capacity == b.capacity,
        b.goal is Seek ==> f.file == (if b.goal.target() < b.pos {
            b.content
        } else {
            b.file
        }),
    ensures
        holds(b, s.arrive::<E>(b.goal).0, f, s.arrive::<E>(b.goal).1),
{
    if b.goal is Finish && s.writer {
        assert(f.tmp =~= Seq::empty());
        assert(content(s, f) =~= f.file);
    }
}

proof fn lemma_ready<E>(b: Start, s: TmpFileCryptoWriter, f: TmpFiles)
    requires
        b.goal is Write || b.goal is Seek || b.goal is Finish,
        b.goal is Write || s.pos != b.goal.target(),
        s.pos == b.pos,
        s.writer,
        f.capacity == b.capacity,
        consistent(s, f),
        content(s, f) == b.content,
        f.file == b.file,
    ensures
        holds(b, s.proceed::<E>(b.goal).0, f, s.proceed::<E>(b.goal).1),
{
}

proof fn lemma_sized<E>(b: Start, s: TmpFileCryptoWriter, f: TmpFiles, size: u64)
    requires
        b.goal is Seek || b.goal is Finish,
        s.writer,
        b.goal.target() < s.pos == b.pos,
        f.capacity == b.capacity,
        consistent(s, f),
        content(s, f) == b.content,
        f.file == b.file,
        f.file.len() <= size,
    ensures
        holds(b, s.sized::<E>(b.goal, size).0, f, s.sized::<E>(b.goal, size).1),
{
    if s.pos >= size {
        assert(content(s, f) =~= f.tmp);
    }
}

proof fn lemma_replaced<E>(b: Start, s: TmpFileCryptoWriter, f: TmpFiles)
    requires
        b.goal is Seek || b.goal is Finish,
        !s.writer,
        f.file == b.content,
        f.capacity == b.capacity > 0,
        b.goal.target() < b.pos <= b.content.len() <= u64::MAX,
    ensures
        holds(b, s.replaced::<E>(b.goal).0, f, s.replaced::<E>(b.goal).1),
{
    if b.goal.target() == 0 {
        lemma_arrive::<E>(b, s, f);
    }
}

/// One piece of work keeps what holds.
proof fn lemma_step<E>(
    b: Start,
    s: TmpFileCryptoWriter,
    f: TmpFiles,
    op: TmpOp,
    answer: Result<TmpReply, E>,
    s1: TmpFileCryptoWriter,
    f1: TmpFiles,
)
    requires
        holds(b, s, f, Step::<TmpOp, E>::Perform(op)),
        does(op.task, b.data, s, f, answer, s1, f1),
    ensures
        holds(b, s1.resumed(op, answer).0, f1, s1.resumed(op, answer).1),
{
    let t = b.goal.target();
    if answer is Ok {
        match op.task {
            TmpTask::OpenTmp => {
                let s2 = TmpFileCryptoWriter { writer: true, pos: 0, ..s1 };
                assert(content(s2, f1) =~= f.file);
                lemma_ready::<E>(b, s2, f1);
            },
            TmpTask::WriteInner => {
                let n = answer->Ok_0->Wrote_0 as nat;
                let s2 = s1.resumed(op, answer).0;
                assert(content(s2, f1) =~= overwritten(
                    b.content,
                    b.pos,
                    b.data.subrange(0, n as int),
                ));
            },
            TmpTask::CopyForward { from, len } => {
                assert(content(s1, f1) =~= b.content);
                if s1.position() >= t {
                    assert(padded(b.content, t as nat) =~= b.content);
                    lemma_arrive::<E>(b, s1, f1);
                }
            },
            TmpTask::FillZeros { len } => {
                assert(b.content =~= f.tmp);
                assert(content(s1, f1) =~= padded(b.content, t as nat));
                lemma_arrive::<E>(b, s1, f1);
            },
            TmpTask::FlushDirty => {
                if !s1.metadata_provider {
                    lemma_sized::<E>(b, s1, f1, u64::MAX);
                }
            },
            TmpTask::AskSize => {
                lemma_sized::<E>(b, s1, f1, answer->Ok_0->Size_0);
            },
            TmpTask::CopyRest { .. } => {
                assert(f1.tmp =~= b.content);
            },
            TmpTask::Rename { .. } => {
                if !s1.callback {
                    lemma_replaced::<E>(b, s1, f1);
                }
            },
            TmpTask::Notify { .. } => {
                lemma_replaced::<E>(b, s1, f1);
            },
            TmpTask::CopyBack { .. } => {
                assert(content(s1, f1) =~= b.content);
                lemma_arrive::<E>(b, s1, f1);
            },
            TmpTask::FlushWriter => {
                if b.goal is Finish {
                    if s1.position() == 0 {
                        lemma_arrive::<E>(b, s1, f1);
                    } else {
                        lemma_ready::<E>(b, s1, f1);
                    }
                }
            },
            _ => {},
        }
    }
}

/// What holds at a step holds at every step that follows.
proof fn lemma_drives<E>(
    b: Start,
    s: TmpFileCryptoWriter,
    f: TmpFiles,
    step: Step<TmpOp, E>,
    n: nat,
    s2: TmpFileCryptoWriter,
    f2: TmpFiles,
    step2: Step<TmpOp, E>,
)
    requires
        holds(b, s, f, step),
        drives(b.data, s, f, step, n, s2, f2, step2),
    ensures
        holds(b, s2, f2, step2),
    decreases n,
{
    if n > 0 {
        let op = step->Perform_0;
        let (answer, s1, f1) = choose|
            answer: Result<TmpReply, E>,
            s1: TmpFileCryptoWriter,
            f1: TmpFiles,
        | #[trigger]
            does(op.task, b.data, s, f, answer, s1, f1) && drives(
                b.data,
                s1.resumed(op, answer).0,
                f1,
                s1.resumed(op, answer).1,
                (n - 1) as nat,
                s2,
                f2,
                step2,
            );
        lemma_step(b, s, f, op, answer, s1, f1);
        lemma_drives(
            b,
            s1.resumed(op, answer).0,
            f1,
            s1.resumed(op, answer).1,
            (n - 1) as nat,
            s2,
            f2,
            step2,
        );
    }
}

/// What an operation with `goal` starts from.
spec fn start(
    s: TmpFileCryptoWriter,
    f: TmpFiles,
    goal: TmpGoal,
    data: Seq<u8>,
) -> Start {
    Start {
        goal,
        data,
        pos: s.position() as nat,
        content: content(s, f),
        file: f.file,
        capacity: f.capacity,
    }
}

proof fn lemma_started<E>(s: TmpFileCryptoWriter, f: TmpFiles, goal: TmpGoal, data: Seq<u8>)
    requires
        consistent(s, f),
    ensures
        holds(start(s, f, goal, data), s.started::<E>(goal).0, f, s.started::<E>(goal).1),
{
    let b = start(s, f, goal, data);
    if goal is Seek && s.position() == goal.target() {
        assert(padded(b.content, goal.target() as nat) =~= b.content);
        lemma_arrive::<E>(b, s, f);
    } else if goal is Finish && !s.writer {
        lemma_arrive::<E>(b, s, f);
    } else if s.writer && (goal is Seek || goal is Write) {
        lemma_ready::<E>(b, s, f);
    }
}

/// A write puts the bytes that it reports where the writer stood, over what stood there, and
/// leaves the writer behind them. It takes at least one byte if there is one, and all of them as
/// long as the temporary file keeps within its capacity. The file itself stays as it is.
pub proof fn law_write_overwrites<E>(
    s: TmpFileCryptoWriter,
    f: TmpFiles,
    data: Seq<u8>,
    n: nat,
    s2: TmpFileCryptoWriter,
    f2: TmpFiles,
    written: u64,
)
    requires
        consistent(s, f),
        drives(
            data,
            s.started::<E>(TmpGoal::Write).0,
            f,
            s.started::<E>(TmpGoal::Write).1,
            n,
            s2,
            f2,
            Step::Done(written),
        ),
    ensures
        written <= data.len(),
        data.len() > 0 ==> written > 0,
        s.position() + data.len() <= f.capacity ==> written == data.len(),
        content(s2, f2) == overwritten(
            content(s, f),
            s.position() as nat,
            data.subrange(0, written as int),
        ),
        s2.position() == s.position() + written,
        f2.file == f.file,
        f2.capacity == f.capacity,
        consistent(s2, f2),
{
    lemma_started::<E>(s, f, TmpGoal::Write, data);
    lemma_drives::<E>(
        start(s, f, TmpGoal::Write, data),
        s.started::<E>(TmpGoal::Write).0,
        f,
        s.started::<E>(TmpGoal::Write).1,
        n,
        s2,
        f2,
        Step::Done(written),
    );
}

/// A seek ends at its target and keeps every byte; past the end, it fills up with zero bytes. A
/// seek back leaves all that was written in the file; any other leaves the file as it was.
pub proof fn law_seek_keeps_content<E>(
    s: TmpFileCryptoWriter,
    f: TmpFiles,
    target: u64,
    n: nat,
    s2: TmpFileCryptoWriter,
    f2: TmpFiles,
    reached: u64,
)
    requires
        consistent(s, f),
        drives(
            Seq::empty(),
            s.started::<E>(TmpGoal::Seek { target }).0,
            f,
            s.started::<E>(TmpGoal::Seek { target }).1,
            n,
            s2,
            f2,
            Step::Done(reached),
        ),
    ensures
        reached == target,
        s2.position() == target,
        content(s2, f2) == padded(content(s, f), target as nat),
        f2.file == (if target < s.position() {
            content(s, f)
        } else {
            f.file
        }),
        f2.capacity == f.capacity,
        consistent(s2, f2),
{
    let goal = TmpGoal::Seek { target };
    lemma_started::<E>(s, f, goal, Seq::empty());
    lemma_drives::<E>(
        start(s, f, goal, Seq::empty()),
        s.started::<E>(goal).0,
        f,
        s.started::<E>(goal).1,
        n,
        s2,
        f2,
        Step::Done(reached),
    );
}

/// A flush changes no byte and no position.
pub proof fn law_flush_changes_nothing<E>(
    s: TmpFileCryptoWriter,
    f: TmpFiles,
    n: nat,
    s2: TmpFileCryptoWriter,
    f2: TmpFiles,
    v: u64,
)
    requires
        consistent(s, f),
        drives(
            Seq::empty(),
            s.started::<E>(TmpGoal::Flush).0,
            f,
            s.started::<E>(TmpGoal::Flush).1,
            n,
            s2,
            f2,
            Step::Done(v),
        ),
    ensures
        content(s2, f2) == content(s, f),
        s2.position() == s.position(),
        f2.file == f.file,
        f2.capacity == f.capacity,
        consistent(s2, f2),
{
    lemma_started::<E>(s, f, TmpGoal::Flush, Seq::empty());
    lemma_drives::<E>(
        start(s, f, TmpGoal::Flush, Seq::empty()),
        s.started::<E>(TmpGoal::Flush).0,
        f,
        s.started::<E>(TmpGoal::Flush).1,
        n,
        s2,
        f2,
        Step::Done(v),
    );
}

/// Once a writer is finished, the file holds what was written, and no inner writer is open.
pub proof fn law_finish_stores_content<E>(
    s: TmpFileCryptoWriter,
    f: TmpFiles,
    n: nat,
    s2: TmpFileCryptoWriter,
    f2: TmpFiles,
    v: u64,
)
    requires
        consistent(s, f),
        drives(
            Seq::empty(),
            s.started::<E>(TmpGoal::Finish).0,
            f,
            s.started::<E>(TmpGoal::Finish).1,
            n,
            s2,
            f2,
            Step::Done(v),
        ),
    ensures
        f2.file == content(s, f),
        !s2.writer,
{
    lemma_started::<E>(s, f, TmpGoal::Finish, Seq::empty());
    lemma_drives::<E>(
        start(s, f, TmpGoal::Finish, Seq::empty()),
        s.started::<E>(TmpGoal::Finish).0,
        f,
        s.started::<E>(TmpGoal::Finish).1,
        n,
        s2,
        f2,
        Step::Done(v),
    );
}

/// At every moment of every operation, whether its work succeeds or fails, the file holds either
/// what it held when the operation began or all that had been written by then.
pub proof fn law_file_is_replaced_as_a_whole<E>(
    s: TmpFileCryptoWriter,
    f: TmpFiles,
    goal: TmpGoal,
    data: Seq<u8>,
    n: nat,
    s2: TmpFileCryptoWriter,
    f2: TmpFiles,
    step2: Step<TmpOp, E>,
)
    requires
        consistent(s, f),
        drives(data, s.started::<E>(goal).0, f, s.started::<E>(goal).1, n, s2, f2, step2),
    ensures
        f2.file == f.file || f2.file == content(s, f),
        goal is Write || goal is Flush || goal is Release ==> f2.file == f.file,
{
    lemma_started::<E>(s, f, goal, data);
    lemma_drives::<E>(
        start(s, f, goal, data),
        s.started::<E>(goal).0,
        f,
        s.started::<E>(goal).1,
        n,
        s2,
        f2,
        step2,
    );
}

/// Whoever is to be told hears of a change only after the file was replaced, and hears that all
/// of it changed and how many bytes it now holds.
pub proof fn law_notified_after_replacement<E>(
    s: TmpFileCryptoWriter,
    f: TmpFiles,
    goal: TmpGoal,
    data: Seq<u8>,
    n: nat,
    s2: TmpFileCryptoWriter,
    f2: TmpFiles,
    op: TmpOp,
)
    requires
        consistent(s, f),
        drives(
            data,
            s.started::<E>(goal).0,
            f,
            s.started::<E>(goal).1,
            n,
            s2,
            f2,
            Step::Perform(op),
        ),
        op.task is Notify,
    ensures
        op.task == (TmpTask::Notify { changed_from: -1i64, last: f2.file.len() as u64 }),
        f2.file == content(s, f),
{
    lemma_started::<E>(s, f, goal, data);
    lemma_drives::<E>(
        start(s, f, goal, data),
        s.started::<E>(goal).0,
        f,
        s.started::<E>(goal).1,
        n,
        s2,
        f2,
        Step::Perform(op),
    );
}

/// A write to an open inner writer is what the copying of bytes to this writer is made of: the
/// inner writer takes the bytes that the write reports, and nothing else changes.
pub proof fn law_write_takes<E>(
    s: TmpFileCryptoWriter,
    f: TmpFiles,
    data: Seq<u8>,
    n: nat,
    s2: TmpFileCryptoWriter,
    f2: TmpFiles,
    written: u64,
)
    requires
        s.writer,
        consistent(s, f),
        drives(
            data,
            s.started::<E>(TmpGoal::Write).0,
            f,
            s.started::<E>(TmpGoal::Write).1,
            n,
            s2,
            f2,
            Step::Done(written),
        ),
    ensures
        takes(s, f, data.subrange(0, written as int), s2, f2),
{
    reveal_with_fuel(drives, 3);
    law_write_overwrites::<E>(s, f, data, n, s2, f2, written);
}

/// Bytes that an inner writer takes in two parts are taken as one.
pub proof fn law_takes_add_up(
    s: TmpFileCryptoWriter,
    f: TmpFiles,
    a: Seq<u8>,
    s1: TmpFileCryptoWriter,
    f1: TmpFiles,
    b: Seq<u8>,
    s2: TmpFileCryptoWriter,
    f2: TmpFiles,
)
    requires
        takes(s, f, a, s1, f1),
        takes(s1, f1, b, s2, f2),
    ensures
        takes(s, f, a + b, s2, f2),
{
    assert(f.tmp + a + b =~= f.tmp + (a + b));
}

/// What holds at every step of a write to a writer without an inner one.
spec fn opening<E>(
    s0: TmpFileCryptoWriter,
    f0: TmpFiles,
    data: Seq<u8>,
    s: TmpFileCryptoWriter,
    f: TmpFiles,
    step: Step<TmpOp, E>,
) -> bool {
    match step {
        Step::Perform(op) => {
            &&& op.goal is Write
            &&& f.file == f0.file
            &&& f.capacity == f0.capacity
            &&& match op.task {
                TmpTask::CheckTmp | TmpTask::RemoveTmp | TmpTask::CreateTmp => s == (
                TmpFileCryptoWriter { tmp_file: s.tmp_file, ..s0 }),
                TmpTask::OpenTmp => s == (TmpFileCryptoWriter { tmp_file: true, ..s0 }),
                TmpTask::WriteInner => {
                    &&& s == (TmpFileCryptoWriter { writer: true, tmp_file: true, pos: 0, ..s0 })
                    &&& f.tmp == Seq::<u8>::empty()
                },
                _ => false,
            }
        },
        Step::Done(v) => {
            &&& v <= data.len()
            &&& s == (TmpFileCryptoWriter { writer: true, tmp_file: true, pos: v, ..s0 })
            &&& f == (TmpFiles { tmp: data.subrange(0, v as int), ..f0 })
        },
        Step::Failed(_) => true,
    }
}

proof fn lemma_opening<E>(
    s0: TmpFileCryptoWriter,
    f0: TmpFiles,
    data: Seq<u8>,
    s: TmpFileCryptoWriter,
    f: TmpFiles,
    step: Step<TmpOp, E>,
    n: nat,
    s2: TmpFileCryptoWriter,
    f2: TmpFiles,
    step2: Step<TmpOp, E>,
)
    requires
        !s0.writer,
        opening(s0, f0, data, s, f, step),
        drives(data, s, f, step, n, s2, f2, step2),
    ensures
        opening(s0, f0, data, s2, f2, step2),
    decreases n,
{
    if n > 0 {
        let op = step->Perform_0;
        let (answer, s1, f1) = choose|
            answer: Result<TmpReply, E>,
            s1: TmpFileCryptoWriter,
            f1: TmpFiles,
        | #[trigger]
            does(op.task, data, s, f, answer, s1, f1) && drives(
                data,
                s1.resumed(op, answer).0,
                f1,
                s1.resumed(op, answer).1,
                (n - 1) as nat,
                s2,
                f2,
                step2,
            );
        let (s3, step3) = s1.resumed(op, answer);
        assert(opening(s0, f0, data, s3, f1, step3)) by {
            if op.task is WriteInner && answer is Ok {
                assert(f1.tmp =~= data.subrange(0, answer->Ok_0->Wrote_0 as int));
            }
        }
        lemma_opening(s0, f0, data, s3, f1, step3, (n - 1) as nat, s2, f2, step2);
    }
}

/// A write to a writer without an inner one opens one on a temporary file that holds what the
/// write reports, and nothing else changes: so begins the copying of bytes back.
pub proof fn law_first_write_takes<E>(
    s: TmpFileCryptoWriter,
    f: TmpFiles,
    data: Seq<u8>,
    n: nat,
    s2: TmpFileCryptoWriter,
    f2: TmpFiles,
    written: u64,
)
    requires
        !s.writer,
        drives(
            data,
            s.started::<E>(TmpGoal::Write).0,
            f,
            s.started::<E>(TmpGoal::Write).1,
            n,
            s2,
            f2,
            Step::Done(written),
        ),
    ensures
        written <= data.len(),
        s2 == (TmpFileCryptoWriter { writer: true, tmp_file: true, pos: written, ..s }),
        f2 == (TmpFiles { tmp: data.subrange(0, written as int), ..f }),
{
    let (s1, step1) = s.started::<E>(TmpGoal::Write);
    lemma_opening(s, f, data, s1, f, step1, n, s2, f2, Step::Done(written));
}

/// How much work an operation can still ask for at `step`.
spec fn work_left<E>(step: Step<TmpOp, E>) -> nat {
    match step {
        Step::Perform(op) => match op.task {
            TmpTask::FlushWriter => 15,
            TmpTask::CheckTmp => 14,
            TmpTask::RemoveTmp => 13,
            TmpTask::CreateTmp => 12,
            TmpTask::OpenTmp => 11,
            TmpTask::FlushDirty => 10,
            TmpTask::AskSize => 9,
            TmpTask::CopyRest { .. } => 8,
            TmpTask::FlushLast { .. } => 7,
            TmpTask::FinishLast { .. } => 6,
            TmpTask::Rename { .. } => 5,
            TmpTask::Notify { .. } | TmpTask::CopyForward { .. } => 4,
            TmpTask::CopyBack { .. } | TmpTask::FillZeros { .. } => 3,
            TmpTask::FinishWriter => 2,
            TmpTask::WriteInner | TmpTask::OpenFile => 1,
        },
        _ => 0,
    }
}

/// Every operation ends, whatever its work comes to: it asks for at most fifteen pieces of work.
pub proof fn law_operation_ends<E>(
    data: Seq<u8>,
    s: TmpFileCryptoWriter,
    f: TmpFiles,
    step: Step<TmpOp, E>,
    n: nat,
    s2: TmpFileCryptoWriter,
    f2: TmpFiles,
    step2: Step<TmpOp, E>,
)
    requires
        drives(data, s, f, step, n, s2, f2, step2),
    ensures
        n <= 15,
{
    lemma_ends(data, s, f, step, n, s2, f2, step2);
}

proof fn lemma_less_work<E>(s: TmpFileCryptoWriter, op: TmpOp, answer: Result<TmpReply, E>)
    ensures
        work_left(s.resumed(op, answer).1) < work_left(Step::<TmpOp, E>::Perform(op)),
{
}

proof fn lemma_ends<E>(
    data: Seq<u8>,
    s: TmpFileCryptoWriter,
    f: TmpFiles,
    step: Step<TmpOp, E>,
    n: nat,
    s2: TmpFileCryptoWriter,
    f2: TmpFiles,
    step2: Step<TmpOp, E>,
)
    requires
        drives(data, s, f, step, n, s2, f2, step2),
    ensures
        n <= work_left(step),
    decreases n,
{
    if n > 0 {
        let op = step->Perform_0;
        let (answer, s1, f1) = choose|
            answer: Result<TmpReply, E>,
            s1: TmpFileCryptoWriter,
            f1: TmpFiles,
        | #[trigger]
            does(op.task, data, s, f, answer, s1, f1) && drives(
                data,
                s1.resumed(op, answer).0,
                f1,
                s1.resumed(op, answer).1,
                (n - 1) as nat,
                s2,
                f2,
                step2,
            );
        lemma_less_work(s1, op, answer);
        lemma_ends(
            data,
            s1.resumed(op, answer).0,
            f1,
            s1.resumed(op, answer).1,
            (n - 1) as nat,
            s2,
            f2,
            step2,
        );
    }
}

/// Whoever is to be told is told of every replacement: the renaming of the temporary file is
/// followed by the notice, and by nothing else.
pub proof fn law_replacement_is_told<E>(s: TmpFileCryptoWriter, op: TmpOp, last: u64)
    requires
        s.callback,
        op.task == (TmpTask::Rename { last }),
    ensures
        s.resumed::<E>(op, Ok(TmpReply::Completed)) == (
            s,
            Step::<TmpOp, E>::Perform(
                TmpOp { goal: op.goal, task: TmpTask::Notify { changed_from: -1i64, last } },
            ),
        ),
{
}

/// Whenever an operation waits for work, nothing of what the file holds from a user's point of view
/// is lost: it is what the writer shows, or it is all in the temporary file, whose writer is being
/// closed, or it is already in the file.
pub proof fn law_interrupted_operation_keeps_content<E>(
    s: TmpFileCryptoWriter,
    f: TmpFiles,
    goal: TmpGoal,
    data: Seq<u8>,
    n: nat,
    s2: TmpFileCryptoWriter,
    f2: TmpFiles,
    op: TmpOp,
)
    requires
        consistent(s, f),
        !(goal is Release),
        drives(
            data,
            s.started::<E>(goal).0,
            f,
            s.started::<E>(goal).1,
            n,
            s2,
            f2,
            Step::Perform(op),
        ),
    ensures
        op.task is FlushLast || op.task is FinishLast || op.task is Rename ==> f2.tmp == content(
            s,
            f,
        ),
        !(op.task is FlushLast || op.task is FinishLast || op.task is Rename) ==> content(s2, f2)
            == content(s, f),
        goal is Write || goal is Flush ==> s2.position() == s.position(),
        op.task is Notify || op.task is CopyBack ==> f2.file == content(s, f),
{
    lemma_started::<E>(s, f, goal, data);
    lemma_drives::<E>(
        start(s, f, goal, data),
        s.started::<E>(goal).0,
        f,
        s.started::<E>(goal).1,
        n,
        s2,
        f2,
        Step::Perform(op),
    );
}

} // verus!
