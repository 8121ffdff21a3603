//! What a [`RingCryptoWriter`](crate::ring_writer::RingCryptoWriter) sends out, whoever carries out
//! the work: a stream that holds the bytes that the writer was given, in their order.

use crate::outcome::{Call, Failure, Step};
use crate::ring_writer::{RingGoal, RingNext, RingOp, RingTask, RingView};
use crate::stream::{lemma_push, plain, reads, stream, well_cut, Block};
use vstd::prelude::*;

verus! {

/// Whether `answer` is what the work `task` may come to when it takes what was sent out from `out`
/// to `out2`.
pub open spec fn does<E>(
    task: RingTask,
    v: RingView,
    out: Seq<u8>,
    answer: Result<(), E>,
    out2: Seq<u8>,
) -> bool {
    answer is Ok ==> out2 == (match task {
        RingTask::WriteNonce => match v.nonce {
            Some(nonce) => out + nonce,
            None => out,
        },
        RingTask::WriteData => out + v.pending,
        RingTask::WriteTag => out + v.tag,
        _ => out,
    })
}

/// Whether an operation that stands at `next` can stand at `next2` after `n` pieces of work, each
/// done as [`does`] says.
pub open spec fn drives<E>(
    data: Seq<u8>,
    next: RingNext<E>,
    out: Seq<u8>,
    n: nat,
    next2: RingNext<E>,
    out2: Seq<u8>,
) -> bool
    decreases n,
{
    if n == 0 {
        next == next2 && out == out2
    } else {
        next.1 matches Step::Perform(op) && exists|answer: Result<(), E>, out1: Seq<u8>| #[trigger]
            does(op.task, next.0, out, answer, out1) && drives(
                data,
                next.0.resumed(op, answer, data),
                out1,
                (n - 1) as nat,
                next2,
                out2,
            )
    }
}

/// Whether an operation with `goal` can begin with `first` and, after `n` pieces of work, stand at
/// `next`.
pub open spec fn runs<E>(
    v: RingView,
    goal: RingGoal,
    data: Seq<u8>,
    first: RingNext<E>,
    out: Seq<u8>,
    n: nat,
    next: RingNext<E>,
    out2: Seq<u8>,
) -> bool {
    v.starts(goal, data, first) && drives(data, first, out, n, next, out2)
}

/// What was sent out are full blocks, and with the waiting bytes they hold `given`.
pub open spec fn stands_for(v: RingView, out: Seq<u8>, given: Seq<u8>) -> bool {
    &&& v.wf()
    &&& v.capacity > 0
    &&& exists|blocks: Seq<Block>| #[trigger]
        all_full(v, blocks) && out == stream(v.cipher, v.key, blocks) && given == plain(blocks)
            + v.pending
}

/// Every block is sound and full.
pub open spec fn all_full(v: RingView, blocks: Seq<Block>) -> bool {
    forall|i: int|
        #![trigger blocks[i]]
        0 <= i < blocks.len() ==> blocks[i].sound(v.cipher, v.key, v.capacity)
            && blocks[i].plain.len() == v.capacity
}

/// What an operation started from. `block` is the one that goes out, if one does.
struct Start {
    v: RingView,
    goal: RingGoal,
    data: Seq<u8>,
    out: Seq<u8>,
    block: Block,
}

impl Start {
    spec fn sealed(self) -> (Seq<u8>, Seq<u8>) {
        crate::aead::aead_seal(self.v.cipher, self.v.key, self.block.nonce, self.block.plain)
    }

    /// The writer while the block goes out.
    spec fn sealing(self) -> RingView {
        RingView {
            pending: self.sealed().0,
            nonce: Some(self.block.nonce),
            tag: self.sealed().1,
            ..self.v
        }
    }

    /// The writer when the block is out, or at the start if none goes out.
    spec fn emptied(self) -> RingView {
        if self.v.emits(self.goal) {
            RingView { pending: Seq::empty(), ..self.sealing() }
        } else {
            self.v
        }
    }

    /// What is sent out in the end.
    spec fn sent(self) -> Seq<u8> {
        if self.v.emits(self.goal) {
            self.out + self.block.bytes(self.v.cipher, self.v.key)
        } else {
            self.out
        }
    }
}

/// What holds at every step of an operation that started from `b`.
spec fn holds<E>(b: Start, next: RingNext<E>, out: Seq<u8>) -> bool {
    match next.1 {
        Step::Perform(op) => {
            &&& op.goal == b.goal
            &&& match op.task {
                RingTask::WriteNonce => {
                    &&& b.v.emits(b.goal)
                    &&& next.0 == b.sealing()
                    &&& out == b.out
                },
                RingTask::WriteData => {
                    &&& b.v.emits(b.goal)
                    &&& next.0 == b.sealing()
                    &&& out == b.out + b.block.nonce
                },
                RingTask::WriteTag => {
                    &&& b.v.emits(b.goal)
                    &&& next.0 == b.emptied()
                    &&& out == b.out + b.block.nonce + b.sealed().0
                },
                RingTask::FlushOut | RingTask::TakeOut => {
                    &&& b.goal is Finish
                    &&& next.0 == (RingView { open: false, ..b.emptied() })
                    &&& out == b.sent()
                },
            }
        },
        Step::Done(n) => {
            &&& out == b.sent()
            &&& b.goal is Finish ==> n == 0 && next.0 == (RingView { open: false, ..b.emptied() })
            &&& !(b.goal is Finish) ==> next == b.emptied().rested::<E>(b.goal, b.data)
        },
        Step::Failed(_) => true,
    }
}

proof fn lemma_step<E>(
    b: Start,
    next: RingNext<E>,
    out: Seq<u8>,
    answer: Result<(), E>,
    out1: Seq<u8>,
)
    requires
        holds(b, next, out),
        next.1 is Perform,
        does(next.1->Perform_0.task, next.0, out, answer, out1),
    ensures
        holds(b, next.0.resumed(next.1->Perform_0, answer, b.data), out1),
{
    if answer is Ok && next.1->Perform_0.task is WriteTag {
        assert(out1 =~= b.sent());
    }
}

proof fn lemma_drives<E>(
    b: Start,
    next: RingNext<E>,
    out: Seq<u8>,
    n: nat,
    next2: RingNext<E>,
    out2: Seq<u8>,
)
    requires
        holds(b, next, out),
        drives(b.data, next, out, n, next2, out2),
    ensures
        holds(b, next2, out2),
    decreases n,
{
    if n > 0 {
        let op = next.1->Perform_0;
        let (answer, out1) = choose|answer: Result<(), E>, out1: Seq<u8>| #[trigger]
            does(op.task, next.0, out, answer, out1) && drives(
                b.data,
                next.0.resumed(op, answer, b.data),
                out1,
                (n - 1) as nat,
                next2,
                out2,
            );
        lemma_step(b, next, out, answer, out1);
        lemma_drives(b, next.0.resumed(op, answer, b.data), out1, (n - 1) as nat, next2, out2);
    }
}

/// An operation that is done went as [`holds`] says, with some block that is sound if it went out.
proof fn lemma_run<E>(
    v: RingView,
    goal: RingGoal,
    data: Seq<u8>,
    first: RingNext<E>,
    out: Seq<u8>,
    n: nat,
    next: RingNext<E>,
    out2: Seq<u8>,
) -> (b: Start)
    requires
        v.wf(),
        v.open,
        runs(v, goal, data, first, out, n, next, out2),
    ensures
        b.v == v && b.goal == goal && b.data == data && b.out == out,
        b.block.plain == v.pending,
        v.emits(goal) ==> b.block.sound(v.cipher, v.key, v.capacity),
        holds(b, next, out2),
{
    let nonce = if v.emits(goal) {
        choose|nonce: Seq<u8>| v.emits_under(goal, nonce, first)
    } else {
        Seq::empty()
    };
    let b = Start { v, goal, data, out, block: Block { nonce, plain: v.pending } };
    lemma_drives(b, first, out, n, next, out2);
    b
}

/// A full block that goes out keeps what the writer stands for.
proof fn lemma_sent(b: Start, given: Seq<u8>)
    requires
        stands_for(b.v, b.out, given),
        b.block.plain == b.v.pending,
        b.v.emits(b.goal) ==> b.block.sound(b.v.cipher, b.v.key, b.v.capacity) && b.v.full(),
    ensures
        stands_for(b.emptied(), b.sent(), given),
{
    if b.v.emits(b.goal) {
        let blocks = choose|blocks: Seq<Block>| #[trigger]
            all_full(b.v, blocks) && b.out == stream(b.v.cipher, b.v.key, blocks) && given == plain(
                blocks,
            ) + b.v.pending;
        let more = blocks.push(b.block);
        lemma_push(b.v.cipher, b.v.key, blocks, b.block);
        assert(plain(more) + Seq::<u8>::empty() =~= given);
        assert(all_full(b.emptied(), more));
    }
}

/// A new writer stands for nothing.
pub proof fn law_new_stands_for_nothing(v: RingView)
    requires
        v.wf(),
        v.capacity > 0,
        v.pending == Seq::<u8>::empty(),
    ensures
        stands_for(v, Seq::empty(), Seq::empty()),
{
    let blocks = Seq::<Block>::empty();
    assert(all_full(v, blocks));
    assert(plain(blocks) + v.pending =~= Seq::<u8>::empty());
}

/// A write adds the bytes that it reports, the first ones of those it was given, to what the writer
/// stands for. It takes at least one if there is one, and all of them as long as everything fits
/// into one block. It takes fewer than all only where that leaves a full block waiting.
pub proof fn law_write_appends<E>(
    v: RingView,
    data: Seq<u8>,
    given: Seq<u8>,
    first: RingNext<E>,
    out: Seq<u8>,
    n: nat,
    v2: RingView,
    out2: Seq<u8>,
    taken: u64,
)
    requires
        v.open,
        stands_for(v, out, given),
        v.capacity <= u64::MAX,
        runs(v, RingGoal::Write, data, first, out, n, (v2, Step::Done(taken)), out2),
    ensures
        taken <= data.len(),
        data.len() > 0 ==> taken > 0,
        given.len() + data.len() <= v.capacity ==> taken == data.len(),
        taken < data.len() ==> v2.pending.len() == v.capacity,
        stands_for(v2, out2, given + data.subrange(0, taken as int)),
        v2.open,
        v2.cipher == v.cipher && v2.key == v.key && v2.capacity == v.capacity,
{
    let b = lemma_run(
        v,
        RingGoal::Write,
        data,
        first,
        out,
        n,
        (v2, Step::Done(taken)),
        out2,
    );
    lemma_sent(b, given);
    let r = b.emptied();
    let blocks = choose|blocks: Seq<Block>| #[trigger]
        all_full(r, blocks) && out2 == stream(r.cipher, r.key, blocks) && given == plain(blocks)
            + r.pending;
    assert(given.len() == plain(blocks).len() + r.pending.len());
    assert(all_full(v2, blocks));
    assert(given + data.subrange(0, taken as int) =~= plain(blocks) + v2.pending);
}

/// A flush adds and removes nothing. Afterwards no full block waits.
pub proof fn law_flush_keeps<E>(
    v: RingView,
    given: Seq<u8>,
    first: RingNext<E>,
    out: Seq<u8>,
    n: nat,
    v2: RingView,
    out2: Seq<u8>,
    r: u64,
)
    requires
        v.open,
        stands_for(v, out, given),
        runs(v, RingGoal::Flush, Seq::empty(), first, out, n, (v2, Step::Done(r)), out2),
    ensures
        stands_for(v2, out2, given),
        r == 0,
        v2.pending.len() < v2.capacity,
        v2.open,
        v2.cipher == v.cipher && v2.key == v.key && v2.capacity == v.capacity,
{
    let b = lemma_run(
        v,
        RingGoal::Flush,
        Seq::empty(),
        first,
        out,
        n,
        (v2, Step::Done(r)),
        out2,
    );
    lemma_sent(b, given);
}

/// What a finished writer sent out is a stream that holds everything that the writer was given.
pub proof fn law_finish_sends_everything<E>(
    v: RingView,
    given: Seq<u8>,
    first: RingNext<E>,
    out: Seq<u8>,
    n: nat,
    v2: RingView,
    out2: Seq<u8>,
    r: u64,
)
    requires
        v.open,
        stands_for(v, out, given),
        runs(v, RingGoal::Finish, Seq::empty(), first, out, n, (v2, Step::Done(r)), out2),
    ensures
        reads(v.cipher, v.key, v.capacity, out2, given),
        r == 0,
        v2.pending.len() == 0,
        !v2.open,
        v2.cipher == v.cipher && v2.key == v.key && v2.capacity == v.capacity,
{
    let b = lemma_run(
        v,
        RingGoal::Finish,
        Seq::empty(),
        first,
        out,
        n,
        (v2, Step::Done(r)),
        out2,
    );
    lemma_everything(b, given);
}

/// What is sent out in the end holds everything that the writer was given.
proof fn lemma_everything(b: Start, given: Seq<u8>)
    requires
        b.v.open,
        b.goal is Finish,
        stands_for(b.v, b.out, given),
        b.block.plain == b.v.pending,
        b.v.emits(b.goal) ==> b.block.sound(b.v.cipher, b.v.key, b.v.capacity),
    ensures
        reads(b.v.cipher, b.v.key, b.v.capacity, b.sent(), given),
{
    let v = b.v;
    let blocks = choose|blocks: Seq<Block>| #[trigger]
        all_full(v, blocks) && b.out == stream(v.cipher, v.key, blocks) && given == plain(blocks)
            + v.pending;
    if v.emits(RingGoal::Finish) {
        lemma_push(v.cipher, v.key, blocks, b.block);
        assert(well_cut(v.cipher, v.key, v.capacity, blocks.push(b.block)));
    } else {
        assert(given =~= plain(blocks));
        assert(well_cut(v.cipher, v.key, v.capacity, blocks));
    }
}

/// What is behind a writer is flushed, and handed back, only when the writer is closed and
/// everything that it was given is sent out. Where a tag goes out, no byte waits any more.
pub proof fn law_everything_is_sent_before_the_end<E>(
    v: RingView,
    goal: RingGoal,
    data: Seq<u8>,
    given: Seq<u8>,
    first: RingNext<E>,
    out: Seq<u8>,
    n: nat,
    v2: RingView,
    op: RingOp,
    out2: Seq<u8>,
)
    requires
        v.open,
        stands_for(v, out, given),
        runs(v, goal, data, first, out, n, (v2, Step::Perform(op)), out2),
    ensures
        op.task is FlushOut || op.task is TakeOut ==> {
            &&& goal is Finish
            &&& reads(v.cipher, v.key, v.capacity, out2, given)
            &&& !v2.open
            &&& v2.pending.len() == 0
        },
        op.task is WriteTag ==> v2.pending.len() == 0,
        !(op.task is FlushOut || op.task is TakeOut) ==> v2.open,
{
    let b = lemma_run(v, goal, data, first, out, n, (v2, Step::Perform(op)), out2);
    if op.task is FlushOut || op.task is TakeOut {
        lemma_everything(b, given);
    }
}

/// A finish that is done has flushed what is behind the writer, and has handed it back as its last
/// piece of work.
pub proof fn law_finish_flushes_and_hands_back<E>(
    v: RingView,
    data: Seq<u8>,
    first: RingNext<E>,
    op: RingOp,
    next: RingOp,
)
    requires
        v.open,
        v.starts(RingGoal::Finish, data, first),
        op.goal is Finish,
    ensures
        !(first.1 is Done),
        first.1 matches Step::Perform(op1) ==> !(op1.task is TakeOut),
        v.resumed::<E>(op, Ok(()), data).1 is Done ==> op.task is TakeOut,
        v.resumed::<E>(op, Ok(()), data).1 == Step::<RingOp, E>::Perform(next) ==> (
        next.task is TakeOut ==> op.task is FlushOut),
{
}

/// Before its buffer is full, a writer sends nothing out when it is written to or flushed.
pub proof fn law_only_full_blocks_go_out_early<E>(
    v: RingView,
    goal: RingGoal,
    data: Seq<u8>,
    first: RingNext<E>,
)
    requires
        v.wf(),
        v.open,
        !(goal is Finish),
        v.pending.len() < v.capacity,
        v.starts(goal, data, first),
    ensures
        first.1 is Done,
        goal is Flush ==> first.0 == v,
{
}

/// Failed work ends the operation at once, with the error of the work and the writer as it is.
/// Nothing else ends an operation of an open writer with an error.
pub proof fn law_only_failed_work_fails<E>(
    v: RingView,
    goal: RingGoal,
    data: Seq<u8>,
    first: RingNext<E>,
    op: RingOp,
    e: E,
)
    requires
        v.wf(),
        v.open,
        v.starts(goal, data, first),
    ensures
        !(first.1 is Failed),
        !(v.resumed::<E>(op, Ok(()), data).1 is Failed),
        v.resumed::<E>(op, Err(e), data) == (v, Step::<RingOp, E>::Failed(Failure::Outside(e))),
{
}

/// How much work an operation can still ask for at `step`.
spec fn work_left<E>(step: Step<RingOp, E>) -> nat {
    match step {
        Step::Perform(op) => {
            let end: nat = if op.goal is Finish {
                2
            } else {
                0
            };
            match op.task {
                RingTask::WriteNonce => end + 3,
                RingTask::WriteData => end + 2,
                RingTask::WriteTag => end + 1,
                RingTask::FlushOut => 2,
                RingTask::TakeOut => 1,
            }
        },
        _ => 0,
    }
}

proof fn lemma_ends<E>(
    data: Seq<u8>,
    next: RingNext<E>,
    out: Seq<u8>,
    n: nat,
    next2: RingNext<E>,
    out2: Seq<u8>,
)
    requires
        drives(data, next, out, n, next2, out2),
    ensures
        n <= work_left(next.1),
    decreases n,
{
    if n > 0 {
        let op = next.1->Perform_0;
        let (answer, out1) = choose|answer: Result<(), E>, out1: Seq<u8>| #[trigger]
            does(op.task, next.0, out, answer, out1) && drives(
                data,
                next.0.resumed(op, answer, data),
                out1,
                (n - 1) as nat,
                next2,
                out2,
            );
        lemma_ends(data, next.0.resumed(op, answer, data), out1, (n - 1) as nat, next2, out2);
    }
}

/// A write and a flush end after at most three pieces of work, closing the writer after at most
/// five.
pub proof fn law_operations_end<E>(
    v: RingView,
    goal: RingGoal,
    data: Seq<u8>,
    first: RingNext<E>,
    out: Seq<u8>,
    n: nat,
    next: RingNext<E>,
    out2: Seq<u8>,
)
    requires
        runs(v, goal, data, first, out, n, next, out2),
    ensures
        n <= 5,
        !(goal is Finish) ==> n <= 3,
{
    lemma_ends(data, first, out, n, next, out2);
}

/// A finished writer refuses every call and does not change.
pub proof fn law_finished_writer_refuses<E>(
    v: RingView,
    goal: RingGoal,
    data: Seq<u8>,
    next: RingNext<E>,
)
    requires
        !v.open,
        v.starts(goal, data, next),
    ensures
        next == (v, Step::<RingOp, E>::Failed(Failure::AlreadyFinished(goal.call()))),
        goal is Write ==> next.1 == Step::<RingOp, E>::Failed(
            Failure::AlreadyFinished(Call::Write),
        ),
        goal is Flush ==> next.1 == Step::<RingOp, E>::Failed(
            Failure::AlreadyFinished(Call::Flush),
        ),
        goal is Finish ==> next.1 == Step::<RingOp, E>::Failed(
            Failure::AlreadyFinished(Call::Finish),
        ),
{
}

/// A writer with a key of the right length never fails to seal.
pub proof fn law_sealing_succeeds<E>(
    v: RingView,
    goal: RingGoal,
    data: Seq<u8>,
    next: RingNext<E>,
)
    requires
        v.wf(),
        v.starts(goal, data, next),
    ensures
        !(next.1 matches Step::Failed(Failure::Sealing)),
        next.0.wf(),
{
}

} // verus!
