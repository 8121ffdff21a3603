//! Which work a [`TmpFileCryptoWriter`] asks for, and in which order, whatever the work comes to.

use crate::outcome::{moved, Failure, Step};
use crate::tmp_file::{TmpFileCryptoWriter, TmpGoal, TmpOp, TmpReply, TmpTask};
use crate::tmp_file_laws::{
    consistent, content, drives, law_seek_keeps_content, padded, TmpFiles,
};
use vstd::prelude::*;

verus! {

/// What has become of the work so far.
pub struct TmpLog {
    /// Whether an inner writer was opened and not finished yet.
    pub unfinished: bool,
    /// Whether the inner writer was flushed since it last took something.
    pub flushed: bool,
    /// Whether the inner writer of the temporary file was finished, so that all of it is sealed.
    pub sealed: bool,
    /// Whether there is a file at the path of the last temporary file.
    pub leftover: bool,
    /// The size that was told, if it was asked for.
    pub size: Option<u64>,
    /// Whether the file was replaced and nobody was told yet.
    pub untold: bool,
    /// Whether the last piece of work opened the file.
    pub opened: bool,
    /// Whether some work failed.
    pub broke: bool,
}

/// The log after the work `task` came out as `answer`.
pub open spec fn recorded<E>(task: TmpTask, answer: Result<TmpReply, E>, h: TmpLog) -> TmpLog {
    let h = TmpLog { opened: false, ..h };
    match answer {
        Err(_) => TmpLog { broke: true, ..h },
        Ok(reply) => match task {
            TmpTask::RemoveTmp => TmpLog { leftover: false, ..h },
            TmpTask::OpenTmp | TmpTask::CopyBack { .. } => TmpLog {
                unfinished: true,
                flushed: false,
                sealed: false,
                leftover: true,
                ..h
            },
            TmpTask::WriteInner
            | TmpTask::CopyForward { .. }
            | TmpTask::FillZeros { .. }
            | TmpTask::CopyRest { .. } => TmpLog { flushed: false, sealed: false, ..h },
            TmpTask::FlushDirty | TmpTask::FlushLast { .. } | TmpTask::FlushWriter => TmpLog {
                flushed: true,
                ..h
            },
            TmpTask::AskSize => match reply {
                TmpReply::Size(size) => TmpLog { size: Some(size), ..h },
                _ => h,
            },
            TmpTask::FinishLast { .. } | TmpTask::FinishWriter => TmpLog {
                unfinished: false,
                sealed: true,
                ..h
            },
            TmpTask::Rename { .. } => TmpLog { leftover: false, untold: true, ..h },
            TmpTask::Notify { .. } => TmpLog { untold: false, ..h },
            TmpTask::OpenFile => TmpLog { opened: true, ..h },
            _ => h,
        },
    }
}

/// Whether the work `task` may come out as `answer`, when it takes the writer from `s` to `s2` and
/// the log from `h` to `h2`. Bytes that are copied to the writer are written to it.
pub open spec fn works<E>(
    task: TmpTask,
    s: TmpFileCryptoWriter,
    h: TmpLog,
    answer: Result<TmpReply, E>,
    s2: TmpFileCryptoWriter,
    h2: TmpLog,
) -> bool {
    &&& h2 == recorded(task, answer, h)
    &&& answer matches Ok(reply) ==> {
        &&& task.expects(reply)
        &&& task is CheckTmp ==> reply == TmpReply::Exists(h.leftover)
        &&& s2 == (match task {
            TmpTask::CopyForward { .. }
            | TmpTask::FillZeros { .. }
            | TmpTask::CopyRest { .. } => TmpFileCryptoWriter { pos: s2.pos, ..s },
            TmpTask::CopyBack { .. } => TmpFileCryptoWriter {
                writer: true,
                tmp_file: true,
                pos: s2.pos,
                ..s
            },
            _ => s,
        })
    }
}

/// Whether an operation that stands at `step` can stand at `step2` after `n` pieces of work.
pub open spec fn proceeds<E>(
    s: TmpFileCryptoWriter,
    h: TmpLog,
    step: Step<TmpOp, E>,
    n: nat,
    s2: TmpFileCryptoWriter,
    h2: TmpLog,
    step2: Step<TmpOp, E>,
) -> bool
    decreases n,
{
    if n == 0 {
        s == s2 && h == h2 && step == step2
    } else {
        step matches Step::Perform(op) && exists|
            answer: Result<TmpReply, E>,
            s1: TmpFileCryptoWriter,
            h1: TmpLog,
        | #[trigger]
            works(op.task, s, h, answer, s1, h1) && proceeds(
                s1.resumed(op, answer).0,
                h1,
                s1.resumed(op, answer).1,
                (n - 1) as nat,
                s2,
                h2,
                step2,
            )
    }
}

/// Whether the operation with `goal` can stand at `step2` after `n` pieces of work.
pub open spec fn takes_course<E>(
    s: TmpFileCryptoWriter,
    h: TmpLog,
    goal: TmpGoal,
    n: nat,
    s2: TmpFileCryptoWriter,
    h2: TmpLog,
    step2: Step<TmpOp, E>,
) -> bool {
    proceeds(s.started::<E>(goal).0, h, s.started::<E>(goal).1, n, s2, h2, step2)
}

/// How writer and log stand at the start of an operation.
pub open spec fn settled(s: TmpFileCryptoWriter, h: TmpLog) -> bool {
    &&& s.writer == h.unfinished
    &&& s.writer ==> h.leftover
    &&& !s.tmp_file ==> !h.leftover
    &&& s.callback ==> !h.untold
    &&& !h.broke
    &&& !h.opened
    &&& h.size is None
}

/// What holds at every step of an operation with `goal` that started with the writer `s0`.
spec fn orderly<E>(
    goal: TmpGoal,
    s0: TmpFileCryptoWriter,
    s: TmpFileCryptoWriter,
    h: TmpLog,
    step: Step<TmpOp, E>,
) -> bool {
    let told = s.callback ==> !h.untold;
    let linked = !s.tmp_file ==> !h.leftover;
    let seeks = goal is Seek || goal is Finish;
    let goals_open = goal is Write || goal is Seek;
    step is Failed && h.broke || {
        &&& !(step is Failed)
        &&& s.callback == s0.callback
        &&& s.metadata_provider == s0.metadata_provider
        &&& !h.broke
        &&& match step {
            Step::Perform(op) => {
                &&& op.goal == goal
                &&& match op.task {
                    TmpTask::CheckTmp => {
                        &&& !s.tmp_file && told
                        &&& goal is Release || goals_open && !s.writer && !h.unfinished
                    },
                    TmpTask::RemoveTmp => {
                        &&& !s.tmp_file && told && h.leftover
                        &&& goal is Release || goals_open && !s.writer && !h.unfinished
                    },
                    TmpTask::CreateTmp => {
                        &&& !s.writer && !s.tmp_file && !h.unfinished && told && !h.leftover
                        &&& goals_open
                    },
                    TmpTask::OpenTmp => {
                        &&& !s.writer && s.tmp_file && !h.unfinished && told && !h.leftover
                        &&& goals_open
                    },
                    TmpTask::WriteInner => {
                        &&& s.writer && h.unfinished && h.leftover && told && linked
                        &&& goal is Write
                    },
                    TmpTask::CopyForward { from, len } => {
                        &&& s.writer && h.unfinished && h.leftover && told && linked
                        &&& goal is Seek
                        &&& from == s.pos && from + len == goal->target && len > 0
                    },
                    TmpTask::FillZeros { len } => {
                        &&& s.writer && h.unfinished && h.leftover && told && linked
                        &&& goal is Seek
                        &&& s.pos + len == goal->target && len > 0
                    },
                    TmpTask::FlushDirty => {
                        &&& s.writer && h.unfinished && h.leftover && told && linked
                        &&& seeks
                    },
                    TmpTask::AskSize => {
                        &&& s.writer && h.unfinished && h.leftover && told && linked && h.flushed
                        &&& seeks
                        &&& s.metadata_provider
                    },
                    TmpTask::CopyRest { from, len } => {
                        &&& len == u64::MAX
                        &&& s.writer && h.unfinished && h.leftover && told && linked && h.flushed
                        &&& seeks
                        &&& from == s.pos
                        &&& s.metadata_provider ==> h.size is Some && from < h.size->0
                    },
                    TmpTask::FlushLast { .. } => {
                        &&& !s.writer && h.unfinished && h.leftover && told && linked
                        &&& seeks
                    },
                    TmpTask::FinishLast { .. } => {
                        &&& !s.writer && h.unfinished && h.leftover && told && linked && h.flushed
                        &&& seeks
                    },
                    TmpTask::Rename { .. } => {
                        &&& !s.writer && !h.unfinished && h.leftover && told && linked && h.sealed
                        &&& seeks
                    },
                    TmpTask::Notify { .. } => {
                        &&& !s.writer && !h.unfinished && !h.leftover && h.untold && s.tmp_file
                        &&& seeks
                        &&& s.callback
                    },
                    TmpTask::CopyBack { from, len } => {
                        &&& !s.writer && !h.unfinished && !h.leftover && told && s.tmp_file
                        &&& goal is Seek
                        &&& from == 0 && len == goal->target && len > 0
                    },
                    TmpTask::FlushWriter => {
                        &&& s.writer && h.unfinished && h.leftover && told && linked
                        &&& goal is Flush || goal is Finish
                        &&& s == s0
                    },
                    TmpTask::FinishWriter => {
                        &&& !s.writer && h.unfinished && h.leftover && told && linked && h.flushed
                        &&& goal is Finish
                    },
                    TmpTask::OpenFile => {
                        &&& !s.writer && !h.unfinished && told && linked
                        &&& goal is Finish
                        &&& s0.tmp_file ==> s.tmp_file
                    },
                }
            },
            Step::Done(v) => {
                &&& told
                &&& linked
                &&& goal is Flush || goal is Finish || goal is Release ==> v == 0
                &&& goal is Release ==> !h.leftover && !s.tmp_file
                &&& !(goal is Release) ==> {
                    &&& s.writer == h.unfinished
                    &&& s.writer ==> h.leftover
                    &&& s0.tmp_file ==> s.tmp_file
                }
                &&& goal is Finish ==> h.opened && !s.writer
                &&& goal is Flush && s0.writer ==> h.flushed
            },
            Step::Failed(_) => true,
        }
    }
}

proof fn lemma_step<E>(
    goal: TmpGoal,
    s0: TmpFileCryptoWriter,
    s: TmpFileCryptoWriter,
    h: TmpLog,
    op: TmpOp,
    answer: Result<TmpReply, E>,
    s1: TmpFileCryptoWriter,
    h1: TmpLog,
)
    requires
        orderly(goal, s0, s, h, Step::<TmpOp, E>::Perform(op)),
        works(op.task, s, h, answer, s1, h1),
    ensures
        orderly(goal, s0, s1.resumed(op, answer).0, h1, s1.resumed(op, answer).1),
{
}

proof fn lemma_proceeds<E>(
    goal: TmpGoal,
    s0: TmpFileCryptoWriter,
    s: TmpFileCryptoWriter,
    h: TmpLog,
    step: Step<TmpOp, E>,
    n: nat,
    s2: TmpFileCryptoWriter,
    h2: TmpLog,
    step2: Step<TmpOp, E>,
)
    requires
        orderly(goal, s0, s, h, step),
        proceeds(s, h, step, n, s2, h2, step2),
    ensures
        orderly(goal, s0, s2, h2, step2),
    decreases n,
{
    if n > 0 {
        let op = step->Perform_0;
        let (answer, s1, h1) = choose|
            answer: Result<TmpReply, E>,
            s1: TmpFileCryptoWriter,
            h1: TmpLog,
        | #[trigger]
            works(op.task, s, h, answer, s1, h1) && proceeds(
                s1.resumed(op, answer).0,
                h1,
                s1.resumed(op, answer).1,
                (n - 1) as nat,
                s2,
                h2,
                step2,
            );
        lemma_step(goal, s0, s, h, op, answer, s1, h1);
        lemma_proceeds(
            goal,
            s0,
            s1.resumed(op, answer).0,
            h1,
            s1.resumed(op, answer).1,
            (n - 1) as nat,
            s2,
            h2,
            step2,
        );
    }
}

proof fn lemma_course<E>(
    s: TmpFileCryptoWriter,
    h: TmpLog,
    goal: TmpGoal,
    n: nat,
    s2: TmpFileCryptoWriter,
    h2: TmpLog,
    step2: Step<TmpOp, E>,
)
    requires
        settled(s, h),
        takes_course(s, h, goal, n, s2, h2, step2),
    ensures
        orderly(goal, s, s2, h2, step2),
{
    let (s1, step1) = s.started::<E>(goal);
    assert(orderly(goal, s, s1, h, step1));
    lemma_proceeds(goal, s, s1, h, step1, n, s2, h2, step2);
}

/// An operation fails only when its work fails, and then at once, with the error of the work and
/// the writer as it is. No operation fails by itself.
pub proof fn law_only_failed_work_fails<E>(
    s: TmpFileCryptoWriter,
    goal: TmpGoal,
    op: TmpOp,
    reply: TmpReply,
    e: E,
)
    ensures
        !(s.started::<E>(goal).1 is Failed),
        !(s.resumed::<E>(op, Ok(reply)).1 is Failed),
        s.resumed::<E>(op, Err(e)) == (s, Step::<TmpOp, E>::Failed(Failure::Outside(e))),
{
}

/// As long as all work succeeds, an operation does not fail.
pub proof fn law_success_of_work_is_success<E>(
    s: TmpFileCryptoWriter,
    h: TmpLog,
    goal: TmpGoal,
    n: nat,
    s2: TmpFileCryptoWriter,
    h2: TmpLog,
    step2: Step<TmpOp, E>,
)
    requires
        settled(s, h),
        takes_course(s, h, goal, n, s2, h2, step2),
        !h2.broke,
    ensures
        !(step2 is Failed),
{
    lemma_course(s, h, goal, n, s2, h2, step2);
}

/// Only a temporary file that exists and is sealed to its last byte takes the place of the file:
/// its inner writer was flushed, then finished, and took nothing afterwards.
pub proof fn law_only_sealed_files_are_renamed<E>(
    s: TmpFileCryptoWriter,
    h: TmpLog,
    goal: TmpGoal,
    n: nat,
    s2: TmpFileCryptoWriter,
    h2: TmpLog,
    op: TmpOp,
)
    requires
        settled(s, h),
        takes_course(s, h, goal, n, s2, h2, Step::<TmpOp, E>::Perform(op)),
    ensures
        op.task is Rename ==> h2.sealed && !h2.unfinished && h2.leftover,
        op.task is FinishLast || op.task is FinishWriter ==> h2.flushed && h2.unfinished,
        op.task is AskSize || op.task is CopyRest ==> h2.flushed,
{
    lemma_course(s, h, goal, n, s2, h2, Step::<TmpOp, E>::Perform(op));
}

/// A finish that is done has opened the file as its last piece of work, and has left no inner
/// writer unfinished.
pub proof fn law_finish_opens_the_file_last<E>(
    s: TmpFileCryptoWriter,
    h: TmpLog,
    n: nat,
    s2: TmpFileCryptoWriter,
    h2: TmpLog,
    v: u64,
)
    requires
        settled(s, h),
        takes_course(s, h, TmpGoal::Finish, n, s2, h2, Step::<TmpOp, E>::Done(v)),
    ensures
        h2.opened,
        !h2.unfinished,
        !s2.writer,
        v == 0,
{
    lemma_course(s, h, TmpGoal::Finish, n, s2, h2, Step::<TmpOp, E>::Done(v));
}

/// A flush that is done has flushed the inner writer, by a single piece of work; without an inner
/// writer it asks for nothing.
pub proof fn law_flush_flushes<E>(
    s: TmpFileCryptoWriter,
    h: TmpLog,
    n: nat,
    s2: TmpFileCryptoWriter,
    h2: TmpLog,
    v: u64,
)
    requires
        settled(s, h),
        takes_course(s, h, TmpGoal::Flush, n, s2, h2, Step::<TmpOp, E>::Done(v)),
    ensures
        s2 == s,
        v == 0,
        s.writer ==> n == 1 && h2.flushed,
        !s.writer ==> n == 0 && h2 == h,
{
    reveal_with_fuel(proceeds, 3);
    lemma_course(s, h, TmpGoal::Flush, n, s2, h2, Step::<TmpOp, E>::Done(v));
}

/// Whoever is to be told hears of every replacement, once, before the operation is done; nobody
/// else hears of any.
pub proof fn law_every_replacement_is_told_once<E>(
    s: TmpFileCryptoWriter,
    h: TmpLog,
    goal: TmpGoal,
    n: nat,
    s2: TmpFileCryptoWriter,
    h2: TmpLog,
    step2: Step<TmpOp, E>,
)
    requires
        settled(s, h),
        takes_course(s, h, goal, n, s2, h2, step2),
    ensures
        step2 is Done && s.callback ==> !h2.untold,
        step2 matches Step::Perform(op) ==> {
            &&& op.task is Notify ==> s.callback && h2.untold
            &&& op.task is Rename && s.callback ==> !h2.untold
        },
{
    lemma_course(s, h, goal, n, s2, h2, step2);
}

/// A size is asked for only where there is someone to ask, and if it shows that nothing lies behind
/// the writer, nothing is copied.
pub proof fn law_known_size_saves_copying<E>(
    s: TmpFileCryptoWriter,
    h: TmpLog,
    goal: TmpGoal,
    n: nat,
    s2: TmpFileCryptoWriter,
    h2: TmpLog,
    op: TmpOp,
)
    requires
        settled(s, h),
        takes_course(s, h, goal, n, s2, h2, Step::<TmpOp, E>::Perform(op)),
    ensures
        op.task is AskSize ==> s.metadata_provider,
        op.task matches TmpTask::CopyRest { from, .. } ==> {
            &&& from == s2.pos
            &&& s.metadata_provider ==> h2.size is Some && from < h2.size->0
        },
{
    lemma_course(s, h, goal, n, s2, h2, Step::<TmpOp, E>::Perform(op));
}

/// Bytes are copied, and zero bytes written, just as far as a seek's target: on the way forward
/// from where the writer stands, on the way back from the start. Behind what was written, all that
/// is left is copied.
pub proof fn law_copies_end_at_the_target<E>(
    s: TmpFileCryptoWriter,
    h: TmpLog,
    goal: TmpGoal,
    n: nat,
    s2: TmpFileCryptoWriter,
    h2: TmpLog,
    op: TmpOp,
)
    requires
        settled(s, h),
        takes_course(s, h, goal, n, s2, h2, Step::<TmpOp, E>::Perform(op)),
    ensures
        op.task matches TmpTask::CopyForward { from, len } ==> {
            &&& goal matches TmpGoal::Seek { target } && from + len == target
            &&& from == s2.pos
            &&& len > 0
        },
        op.task matches TmpTask::FillZeros { len } ==> {
            &&& goal matches TmpGoal::Seek { target } && s2.pos + len == target
            &&& len > 0
        },
        op.task matches TmpTask::CopyBack { from, len } ==> {
            &&& goal matches TmpGoal::Seek { target } && len == target
            &&& from == 0
            &&& len > 0
        },
        op.task matches TmpTask::CopyRest { from, len } ==> from == s2.pos && len == u64::MAX,
{
    lemma_course(s, h, goal, n, s2, h2, Step::<TmpOp, E>::Perform(op));
}

/// Whether an inner writer is open while `task` is worked on.
pub open spec fn works_on_open_writer(task: TmpTask) -> bool {
    match task {
        TmpTask::WriteInner
        | TmpTask::CopyForward { .. }
        | TmpTask::FillZeros { .. }
        | TmpTask::FlushDirty
        | TmpTask::AskSize
        | TmpTask::CopyRest { .. }
        | TmpTask::FlushWriter => true,
        _ => false,
    }
}

/// A writer gives its inner writer up before that is closed, and forgets a temporary file's path
/// before that is looked for, so that a failure leaves neither behind. It never forgets whom to
/// tell and whom to ask.
pub proof fn law_what_is_closed_is_given_up<E>(
    s: TmpFileCryptoWriter,
    h: TmpLog,
    goal: TmpGoal,
    n: nat,
    s2: TmpFileCryptoWriter,
    h2: TmpLog,
    op: TmpOp,
)
    requires
        settled(s, h),
        takes_course(s, h, goal, n, s2, h2, Step::<TmpOp, E>::Perform(op)),
    ensures
        !(goal is Release) ==> s2.writer == works_on_open_writer(op.task),
        op.task is CheckTmp || op.task is RemoveTmp || op.task is CreateTmp ==> !s2.tmp_file,
        op.task is OpenTmp ==> s2.tmp_file,
        s2.callback == s.callback,
        s2.metadata_provider == s.metadata_provider,
{
    lemma_course(s, h, goal, n, s2, h2, Step::<TmpOp, E>::Perform(op));
}

/// A temporary file that was left is removed before the next one is made, and when the writer is
/// given up. Until then its path is remembered.
pub proof fn law_no_temporary_file_is_left<E>(
    s: TmpFileCryptoWriter,
    h: TmpLog,
    goal: TmpGoal,
    n: nat,
    s2: TmpFileCryptoWriter,
    h2: TmpLog,
    step2: Step<TmpOp, E>,
)
    requires
        settled(s, h),
        takes_course(s, h, goal, n, s2, h2, step2),
    ensures
        step2 matches Step::Perform(op) ==> {
            &&& op.task is CreateTmp ==> !h2.leftover
            &&& op.task is RemoveTmp ==> h2.leftover
        },
        goal is Release && step2 is Done ==> !h2.leftover && !s2.tmp_file,
        !(goal is Release) && step2 is Done && s.tmp_file ==> s2.tmp_file,
{
    lemma_course(s, h, goal, n, s2, h2, step2);
}

/// Operations can follow each other: what is known of writer and log at the start of one is known
/// again at its end, but for what the next one starts anew.
pub proof fn law_operations_follow_each_other<E>(
    s: TmpFileCryptoWriter,
    h: TmpLog,
    goal: TmpGoal,
    n: nat,
    s2: TmpFileCryptoWriter,
    h2: TmpLog,
    v: u64,
)
    requires
        settled(s, h),
        !(goal is Release),
        takes_course(s, h, goal, n, s2, h2, Step::<TmpOp, E>::Done(v)),
    ensures
        settled(s2, TmpLog { opened: false, size: None, ..h2 }),
        s2.callback == s.callback,
        s2.metadata_provider == s.metadata_provider,
{
    lemma_course(s, h, goal, n, s2, h2, Step::<TmpOp, E>::Done(v));
}

/// A seek to where the writer stands is done without any work, and changes nothing.
pub proof fn law_standing_seek_asks_for_nothing<E>(s: TmpFileCryptoWriter, target: u64)
    requires
        target == s.position(),
    ensures
        s.started::<E>(TmpGoal::Seek { target }) == (s, Step::<TmpOp, E>::Done(target)),
{
}

/// A seek by an offset ends at the sum of position and offset, and reports it.
pub proof fn law_relative_seek_adds_the_offset<E>(
    s: TmpFileCryptoWriter,
    f: TmpFiles,
    offset: i64,
    target: u64,
    n: nat,
    s2: TmpFileCryptoWriter,
    f2: TmpFiles,
    reached: u64,
)
    requires
        consistent(s, f),
        s.position() <= i64::MAX,
        s.position() + offset <= i64::MAX,
        moved(s.position(), offset) == Some(target),
        drives(
            Seq::empty(),
            s.started::<E>(TmpGoal::Seek { target }).0,
            f,
            s.started::<E>(TmpGoal::Seek { target }).1,
            n,
            s2,
            f2,
            Step::Done(reached),
        ),
    ensures
        reached == s.position() + offset,
        s2.position() == s.position() + offset,
        content(s2, f2) == padded(content(s, f), (s.position() + offset) as nat),
{
    law_seek_keeps_content::<E>(s, f, target, n, s2, f2, reached);
}

/// Every reply of the right sort can be handed in, whatever it holds.
pub proof fn law_replies_are_expected(task: TmpTask, n: usize, size: u64, there: bool)
    ensures
        TmpTask::CheckTmp.expects(TmpReply::Exists(there)),
        TmpTask::WriteInner.expects(TmpReply::Wrote(n)),
        TmpTask::AskSize.expects(TmpReply::Size(size)),
        task is CheckTmp || task is WriteInner || task is AskSize || task.expects(
            TmpReply::Completed,
        ),
{
}

} // verus!
