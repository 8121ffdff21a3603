//! A writer that seals what it is given, block by block.
//!
//! Bytes are collected in a buffer. A full buffer, and at the end whatever is left in it, is sealed
//! under a new random nonce and goes out as the nonce, the sealed bytes and the tag.
//!
//! The type here decides and seals; it writes to nothing. Every operation returns a [`Step`]: as
//! long as that is `Perform`, the caller does the work that the operation's [`RingTask`] describes
//! and hands what came of it to [`RingCryptoWriter::resume`].

use crate::aead::{
    aead_seal, expose, seal, sealable, secret_bytes, Cipher, SecretKey, NONCE_LEN, TAG_LEN,
};
use crate::buf_mut::BufMut;
use crate::nonce::RandomNonceSequence;
use crate::outcome::{Call, Failure, Step};
use ring::error::Unspecified;
use vstd::prelude::*;

verus! {

/// How many bytes make a full block.
pub const BUF_SIZE: usize = 1048576;

/// What an operation is to achieve.
#[derive(Clone, Copy, Debug, PartialEq, Eq, Structural)]
pub enum RingGoal {
    /// Take the caller's bytes.
    Write,
    /// Send out a full block.
    Flush,
    /// Send out what is left and close the writer.
    Finish,
}

/// The outside work that an operation waits for.
#[derive(Clone, Copy, Debug, PartialEq, Eq, Structural)]
pub enum RingTask {
    /// Write [`RingCryptoWriter::nonce`] out, all of it.
    WriteNonce,
    /// Write [`RingCryptoWriter::data`] out, all of it.
    WriteData,
    /// Write [`RingCryptoWriter::tag`] out, all of it.
    WriteTag,
    /// Flush what is behind this writer, which the writer has given up.
    FlushOut,
    /// Hand what is behind this writer back.
    TakeOut,
}

/// An operation that waits for outside work.
#[derive(Clone, Copy, Debug, PartialEq, Eq, Structural)]
pub struct RingOp {
    pub goal: RingGoal,
    pub task: RingTask,
}

/// What a writer holds.
#[verifier::ext_equal]
pub struct RingView {
    pub open: bool,
    pub cipher: Cipher,
    pub key: Seq<u8>,
    pub capacity: nat,
    /// The bytes in the buffer; sealed ones while a block goes out.
    pub pending: Seq<u8>,
    /// The nonce and the tag of the last block.
    pub nonce: Option<Seq<u8>>,
    pub tag: Seq<u8>,
}

/// The next step of an operation, and the writer as it is meanwhile.
pub type RingNext<E> = (RingView, Step<RingOp, E>);

pub open spec fn perform<E>(v: RingView, goal: RingGoal, task: RingTask) -> RingNext<E> {
    (v, Step::Perform(RingOp { goal, task }))
}

impl RingGoal {
    /// The call that has the goal.
    pub open spec fn call(self) -> Call {
        match self {
            RingGoal::Write => Call::Write,
            RingGoal::Flush => Call::Flush,
            RingGoal::Finish => Call::Finish,
        }
    }
}

impl RingView {
    /// The buffer holds no more than it can, and what it holds can be sealed.
    pub open spec fn wf(self) -> bool {
        &&& self.pending.len() <= self.capacity <= self.cipher.max_len()
        &&& self.key.len() == self.cipher.spec_key_len()
    }

    /// Whether a full block waits.
    pub open spec fn full(self) -> bool {
        0 < self.pending.len() == self.capacity
    }

    /// The waiting bytes are sealed under `nonce` and start to go out.
    pub open spec fn emitted<E>(self, goal: RingGoal, nonce: Seq<u8>) -> RingNext<E> {
        let sealed = aead_seal(self.cipher, self.key, nonce, self.pending);
        if sealable(self.cipher, self.key, nonce, self.pending) {
            (RingView { nonce: Some(nonce), pending: sealed.0, ..self }).tagged(
                goal,
                Some(sealed.1),
            )
        } else {
            (RingView { nonce: Some(nonce), ..self }).tagged(goal, None)
        }
    }

    /// The bytes in the buffer were sealed with `tag`, or the cipher refused to.
    pub open spec fn tagged<E>(self, goal: RingGoal, tag: Option<Seq<u8>>) -> RingNext<E> {
        match tag {
            Some(tag) => perform(RingView { tag, ..self }, goal, RingTask::WriteNonce),
            None => (self, Step::Failed(Failure::Sealing)),
        }
    }

    /// As many of the bytes of `data` as there is room for join the waiting ones.
    pub open spec fn buffered<E>(self, data: Seq<u8>) -> RingNext<E> {
        let room = self.capacity - self.pending.len();
        let n = if data.len() <= room {
            data.len() as int
        } else {
            room
        };
        (
            RingView { pending: self.pending + data.subrange(0, n), ..self },
            Step::Done(n as u64),
        )
    }

    /// The writer is closed.
    pub open spec fn closed<E>(self) -> RingNext<E> {
        perform(RingView { open: false, ..self }, RingGoal::Finish, RingTask::FlushOut)
    }

    /// Whether an operation with `goal` sends out a block first.
    pub open spec fn emits(self, goal: RingGoal) -> bool {
        self.open && (self.full() || goal is Finish && self.pending.len() > 0)
    }

    /// Whether `next` is how an operation that sends out a block begins if the nonce is `nonce`.
    pub open spec fn emits_under<E>(
        self,
        goal: RingGoal,
        nonce: Seq<u8>,
        next: RingNext<E>,
    ) -> bool {
        let sealed = aead_seal(self.cipher, self.key, nonce, self.pending);
        &&& nonce.len() == NONCE_LEN
        &&& sealed.0.len() == self.pending.len()
        &&& sealed.1.len() == TAG_LEN
        &&& next == self.emitted::<E>(goal, nonce)
    }

    /// Whether `next` is how an operation with `goal` may begin: a block that has to go out is
    /// sealed under any nonce. A closed writer refuses.
    pub open spec fn starts<E>(self, goal: RingGoal, data: Seq<u8>, next: RingNext<E>) -> bool {
        if self.emits(goal) {
            exists|nonce: Seq<u8>| self.emits_under(goal, nonce, next)
        } else if self.open {
            next == self.rested::<E>(goal, data)
        } else {
            next == (self, Step::<RingOp, E>::Failed(Failure::AlreadyFinished(goal.call())))
        }
    }

    /// No block is on its way out.
    pub open spec fn rested<E>(self, goal: RingGoal, data: Seq<u8>) -> RingNext<E> {
        match goal {
            RingGoal::Write => self.buffered(data),
            RingGoal::Flush => (self, Step::Done(0)),
            RingGoal::Finish => self.closed(),
        }
    }

    /// What follows when the work of `op` came out as `answer`. A failure ends the operation; the
    /// writer stays as it was when the work was asked for. The buffer is emptied once its bytes are
    /// out, before the tag.
    pub open spec fn resumed<E>(
        self,
        op: RingOp,
        answer: Result<(), E>,
        data: Seq<u8>,
    ) -> RingNext<E> {
        match answer {
            Err(e) => (self, Step::Failed(Failure::Outside(e))),
            Ok(_) => match op.task {
                RingTask::WriteNonce => perform(self, op.goal, RingTask::WriteData),
                RingTask::WriteData => perform(
                    RingView { pending: Seq::empty(), ..self },
                    op.goal,
                    RingTask::WriteTag,
                ),
                RingTask::WriteTag => self.rested(op.goal, data),
                RingTask::FlushOut => perform(self, op.goal, RingTask::TakeOut),
                RingTask::TakeOut => (self, Step::Done(0)),
            },
        }
    }
}

/// What the writer knows between two operations.
pub struct RingCryptoWriter {
    open: bool,
    cipher: Cipher,
    key: SecretKey,
    buf: BufMut,
    nonce_sequence: RandomNonceSequence,
    tag: Vec<u8>,
}

impl View for RingCryptoWriter {
    type V = RingView;

    closed spec fn view(&self) -> RingView {
        RingView {
            open: self.open,
            cipher: self.cipher,
            key: secret_bytes(self.key),
            capacity: self.buf.capacity as nat,
            pending: self.buf@,
            nonce: self.nonce_sequence.last(),
            tag: self.tag@,
        }
    }
}

impl RingCryptoWriter {
    /// A writer that seals with `cipher` under `key`.
    pub fn new(cipher: Cipher, key: SecretKey) -> (writer: Self)
        requires
            secret_bytes(key).len() == cipher.spec_key_len(),
        ensures
            writer@ == (RingView {
                open: true,
                cipher,
                key: secret_bytes(key),
                capacity: BUF_SIZE as nat,
                pending: Seq::empty(),
                nonce: None,
                tag: Seq::empty(),
            }),
            writer@.wf(),
    {
        RingCryptoWriter {
            open: true,
            cipher,
            key,
            buf: BufMut::new(BUF_SIZE),
            nonce_sequence: RandomNonceSequence::default(),
            tag: Vec::new(),
        }
    }

    /// The nonce of the last block, if there was one.
    pub fn nonce(&self) -> (nonce: Option<&Vec<u8>>)
        ensures
            match nonce {
                Some(nonce) => self@.nonce == Some(nonce@),
                None => self@.nonce is None,
            },
    {
        self.nonce_sequence.last_nonce()
    }

    /// The bytes in the buffer.
    pub fn data(&self) -> (data: &Vec<u8>)
        ensures
            data@ == self@.pending,
    {
        &self.buf.bytes
    }

    /// The tag of the last block.
    pub fn tag(&self) -> (tag: &Vec<u8>)
        ensures
            tag@ == self@.tag,
    {
        &self.tag
    }

    /// Goes on after the bytes in the buffer were sealed with a tag, or could not be.
    pub fn settle<E>(&mut self, goal: RingGoal, sealed: Result<Vec<u8>, Unspecified>) -> (step:
        Step<RingOp, E>)
        ensures
            (final(self)@, step) == old(self)@.tagged::<E>(
                goal,
                match sealed {
                    Ok(tag) => Some(tag@),
                    Err(_) => None,
                },
            ),
    {
        match sealed {
            Ok(tag) => {
                self.tag = tag;
                Step::Perform(RingOp { goal, task: RingTask::WriteNonce })
            },
            Err(_) => Step::Failed(Failure::Sealing),
        }
    }

    /// Seals the bytes in the buffer under `nonce`, and starts to send them out.
    pub fn seal_with<E>(&mut self, goal: RingGoal, nonce: &Vec<u8>) -> (step: Step<RingOp, E>)
        ensures
            (final(self)@, step) == old(self)@.emitted::<E>(goal, nonce@),
            final(self)@.pending.len() == old(self)@.pending.len(),
            step is Perform ==> final(self)@.tag.len() == TAG_LEN,
    {
        self.nonce_sequence.remember(nonce);
        let sealed = seal(self.cipher, expose(&self.key), nonce, &mut self.buf.bytes);
        self.settle(goal, sealed)
    }

    /// Draws a nonce, seals the bytes in the buffer under it, and starts to send them out.
    fn encrypt_and_write<E>(&mut self, goal: RingGoal) -> (step: Step<RingOp, E>)
        requires
            old(self)@.wf(),
        ensures
            exists|nonce: Seq<u8>|
                old(self)@.emits_under::<E>(goal, nonce, (final(self)@, step)),
            final(self)@.wf(),
    {
        let nonce = self.nonce_sequence.advance();
        let step = self.seal_with(goal, &nonce);
        assert(old(self)@.emits_under::<E>(goal, nonce@, (self@, step)));
        step
    }

    fn rest<E>(&mut self, goal: RingGoal, data: &[u8]) -> (step: Step<RingOp, E>)
        requires
            old(self)@.wf(),
        ensures
            (final(self)@, step) == old(self)@.rested::<E>(goal, data@),
            final(self)@.wf(),
    {
        match goal {
            RingGoal::Write => {
                let n: usize = self.buf.write(data);
                Step::Done(n as u64)
            },
            RingGoal::Flush => Step::Done(0),
            RingGoal::Finish => {
                self.open = false;
                Step::Perform(RingOp { goal, task: RingTask::FlushOut })
            },
        }
    }

    /// Goes on with `op` after its work came out as `answer`. `data` are the caller's bytes if the
    /// operation is a write.
    pub fn resume<E>(&mut self, op: RingOp, answer: Result<(), E>, data: &[u8]) -> (step: Step<
        RingOp,
        E,
    >)
        requires
            old(self)@.wf(),
        ensures
            (final(self)@, step) == old(self)@.resumed(op, answer, data@),
            final(self)@.wf(),
    {
        let goal = op.goal;
        match answer {
            Err(e) => {
                return Step::Failed(Failure::Outside(e));
            },
            Ok(_) => {},
        }
        let task = match op.task {
            RingTask::WriteNonce => RingTask::WriteData,
            RingTask::WriteData => {
                self.buf.clear();
                RingTask::WriteTag
            },
            RingTask::WriteTag => {
                return self.rest(goal, data);
            },
            RingTask::FlushOut => RingTask::TakeOut,
            RingTask::TakeOut => {
                return Step::Done(0);
            },
        };
        Step::Perform(RingOp { goal, task })
    }

    /// Starts taking bytes of `data`. The operation ends with how many of them were taken.
    pub fn write<E>(&mut self, data: &[u8]) -> (step: Step<RingOp, E>)
        requires
            old(self)@.wf(),
        ensures
            old(self)@.starts::<E>(RingGoal::Write, data@, (final(self)@, step)),
            final(self)@.wf(),
    {
        if !self.open {
            return Step::Failed(Failure::AlreadyFinished(Call::Write));
        }
        if self.buf.remaining() == 0 && self.buf.available() != 0 {
            self.encrypt_and_write(RingGoal::Write)
        } else {
            self.rest(RingGoal::Write, data)
        }
    }

    /// Starts sending out the buffer if it is full.
    pub fn flush<E>(&mut self) -> (step: Step<RingOp, E>)
        requires
            old(self)@.wf(),
        ensures
            old(self)@.starts::<E>(RingGoal::Flush, Seq::empty(), (final(self)@, step)),
            final(self)@.wf(),
    {
        if !self.open {
            return Step::Failed(Failure::AlreadyFinished(Call::Flush));
        }
        if self.buf.available() == 0 {
            return Step::Done(0);
        }
        if self.buf.remaining() == 0 {
            self.encrypt_and_write(RingGoal::Flush)
        } else {
            Step::Done(0)
        }
    }

    /// Starts sending out what is left in the buffer, and closes the writer.
    pub fn finish<E>(&mut self) -> (step: Step<RingOp, E>)
        requires
            old(self)@.wf(),
        ensures
            old(self)@.starts::<E>(RingGoal::Finish, Seq::empty(), (final(self)@, step)),
            final(self)@.wf(),
    {
        if !self.open {
            return Step::Failed(Failure::AlreadyFinished(Call::Finish));
        }
        if self.buf.available() > 0 {
            self.encrypt_and_write(RingGoal::Finish)
        } else {
            self.rest(RingGoal::Finish, &[])
        }
    }
}

} // verus!
