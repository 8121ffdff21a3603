//! What an operation of a writer can come to: the next piece of outside work, a result, or a
//! failure.

use vstd::prelude::*;

verus! {

/// The place a seek is asked to go to.
#[derive(Clone, Copy, Debug, PartialEq, Eq, Structural)]
pub enum SeekFrom {
    /// That many bytes from the start.
    Start(u64),
    /// That many bytes from the end. No writer of this library supports it.
    End(i64),
    /// That many bytes from the current position.
    Current(i64),
}

/// The calls that a finished writer refuses.
#[derive(Clone, Copy, Debug, PartialEq, Eq, Structural)]
pub enum Call {
    Write,
    Flush,
    Finish,
}

/// The two sorts of failure that the writers report themselves.
#[derive(Clone, Copy, Debug, PartialEq, Eq, Structural)]
pub enum FailureKind {
    Other,
    InvalidInput,
}

/// Why an operation failed. `E` is the error type of the outside work.
#[derive(Debug)]
pub enum Failure<E> {
    /// The outside work failed; its error is passed on as it came.
    Outside(E),
    /// The seek was relative to the end.
    SeekFromEnd,
    /// The seek would go to a negative position.
    SeekBeforeStart,
    /// The writer was finished before the call.
    AlreadyFinished(Call),
    /// The cipher refused to seal the block.
    Sealing,
}

/// How an operation stands: `Perform` asks for the outside work `O`, after which the operation
/// is resumed with what came of it.
#[derive(Debug)]
pub enum Step<O, E> {
    Perform(O),
    Done(u64),
    Failed(Failure<E>),
}

impl<E> Failure<E> {
    /// The sort of a failure that is the writer's own.
    pub open spec fn spec_kind(self) -> Option<FailureKind> {
        match self {
            Failure::Outside(_) => None,
            Failure::SeekBeforeStart => Some(FailureKind::InvalidInput),
            _ => Some(FailureKind::Other),
        }
    }

    /// The text of a failure that is the writer's own and has one.
    pub open spec fn spec_message(self) -> Option<Seq<char>> {
        match self {
            Failure::Outside(_) => None,
            Failure::SeekFromEnd => Some("seek from end not supported"@),
            Failure::SeekBeforeStart => Some("can't seek before start"@),
            Failure::AlreadyFinished(Call::Write) => Some(
                "write called on already finished writer"@,
            ),
            Failure::AlreadyFinished(Call::Flush) => Some(
                "flush called on already finished writer"@,
            ),
            Failure::AlreadyFinished(Call::Finish) => Some(
                "finish called on already finished writer"@,
            ),
            Failure::Sealing => None,
        }
    }

    pub fn kind(&self) -> (kind: Option<FailureKind>)
        ensures
            kind == self.spec_kind(),
    {
        match self {
            Failure::Outside(_) => None,
            Failure::SeekBeforeStart => Some(FailureKind::InvalidInput),
            Failure::SeekFromEnd | Failure::AlreadyFinished(_) | Failure::Sealing => Some(
                FailureKind::Other,
            ),
        }
    }

    pub fn message(&self) -> (message: Option<&'static str>)
        ensures
            match message {
                Some(text) => self.spec_message() == Some(text@),
                None => self.spec_message() is None,
            },
    {
        match self {
            Failure::Outside(_) => None,
            Failure::SeekFromEnd => Some("seek from end not supported"),
            Failure::SeekBeforeStart => Some("can't seek before start"),
            Failure::AlreadyFinished(Call::Write) => Some(
                "write called on already finished writer",
            ),
            Failure::AlreadyFinished(Call::Flush) => Some(
                "flush called on already finished writer",
            ),
            Failure::AlreadyFinished(Call::Finish) => Some(
                "finish called on already finished writer",
            ),
            Failure::Sealing => None,
        }
    }
}

/// The value of `v` read as a two's complement number.
pub open spec fn as_signed(v: u64) -> int {
    if v <= i64::MAX {
        v as int
    } else {
        v - 0x1_0000_0000_0000_0000
    }
}

/// The position that lies `offset` bytes from `pos`, if it is not negative. Positions count as
/// two's complement numbers here.
pub open spec fn moved(pos: u64, offset: i64) -> Option<u64> {
    let n = as_signed(pos) + offset;
    if n < 0 {
        None
    } else {
        Some(n as u64)
    }
}

/// Moves `pos` by `offset`; `None` where that goes before the start.
pub fn relative_position(pos: u64, offset: i64) -> (r: Option<u64>)
    requires
        i64::MIN <= as_signed(pos) + offset <= i64::MAX,
    ensures
        r == moved(pos, offset),
{
    #[verifier::truncate]
    let signed: i64 = pos as i64;
    assert(pos <= 0x7fff_ffff_ffff_ffff ==> (pos as i64) == pos) by (bit_vector);
    assert(pos > 0x7fff_ffff_ffff_ffff ==> (pos as i64) == pos - 0x1_0000_0000_0000_0000)
        by (bit_vector);
    let n: i64 = signed + offset;
    if n < 0 {
        None
    } else {
        Some(n as u64)
    }
}

/// A relative position is the sum of position and offset: there is one just when the sum is not
/// negative.
pub proof fn law_relative_position_is_the_sum(pos: u64, offset: i64)
    requires
        pos <= i64::MAX,
        pos + offset <= i64::MAX,
    ensures
        i64::MIN <= as_signed(pos) + offset <= i64::MAX,
        pos + offset >= 0 ==> moved(pos, offset) == Some((pos + offset) as u64),
        pos + offset < 0 ==> moved(pos, offset) is None,
{
}

/// A position beyond the largest signed number counts as the negative number with the same bits:
/// the two lie a whole number range apart.
pub proof fn law_large_positions_are_negative(pos: u64, offset: i64)
    requires
        pos > i64::MAX,
        pos + offset > i64::MAX,
    ensures
        i64::MIN <= as_signed(pos) + offset <= i64::MAX,
        match moved(pos, offset) {
            Some(target) => target + 0x1_0000_0000_0000_0000 == pos + offset,
            None => pos + offset < 0x1_0000_0000_0000_0000,
        },
{
}

/// What each failure is called: only a seek before the start is a wrong input, an error of outside
/// work keeps its own text, and the other failures have the texts that users know.
pub proof fn law_failures_have_their_texts<E>(e: E)
    ensures
        Failure::Outside(e).spec_kind() is None,
        Failure::Outside(e).spec_message() is None,
        Failure::<E>::SeekBeforeStart.spec_kind() == Some(FailureKind::InvalidInput),
        Failure::<E>::SeekBeforeStart.spec_message() == Some("can't seek before start"@),
        Failure::<E>::SeekFromEnd.spec_kind() == Some(FailureKind::Other),
        Failure::<E>::SeekFromEnd.spec_message() == Some("seek from end not supported"@),
        Failure::<E>::Sealing.spec_kind() == Some(FailureKind::Other),
        forall|call: Call|
            (#[trigger] Failure::<E>::AlreadyFinished(call).spec_kind()) == Some(
                FailureKind::Other,
            ),
        Failure::<E>::AlreadyFinished(Call::Write).spec_message() == Some(
            "write called on already finished writer"@,
        ),
        Failure::<E>::AlreadyFinished(Call::Flush).spec_message() == Some(
            "flush called on already finished writer"@,
        ),
        Failure::<E>::AlreadyFinished(Call::Finish).spec_message() == Some(
            "finish called on already finished writer"@,
        ),
{
}

} // verus!
