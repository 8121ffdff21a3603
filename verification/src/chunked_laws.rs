//! What the operations of a [`ChunkedTmpFileCryptoWriter`] do to the bytes, whoever carries out the
//! work: the writer behaves like one that edits a single file in place, wherever the chunks begin
//! and end.

use crate::chunked::{ChunkedGoal, ChunkedOp, ChunkedReply, ChunkedTask, ChunkedTmpFileCryptoWriter};
use crate::outcome::{law_relative_position_is_the_sum, moved, Step};
use crate::tmp_file_laws::{overwritten, padded, zeros};
use vstd::arithmetic::div_mod::{
    lemma_div_pos_is_pos, lemma_fundamental_div_mod, lemma_mod_bound,
};
use vstd::prelude::*;

verus! {

/// A chunk that a writer is open on: the plain bytes that it holds with what was written, and
/// where the writer stands.
#[verifier::ext_equal]
pub struct OpenChunk {
    pub chunk: int,
    pub content: Seq<u8>,
    pub at: nat,
}

/// The plain bytes that the files of the chunks stand for, the writers that are open on them, and
/// what the work has come to so far.
#[verifier::ext_equal]
pub struct ChunkFiles {
    pub files: Map<int, Seq<u8>>,
    /// The inner writer, open or just given up.
    pub open: OpenChunk,
    /// The passing writer of a chunk that is filled with zero bytes.
    pub gap: OpenChunk,
    /// How far into its chunk an inner writer gets before an inner write may be short.
    pub capacity: nat,
    /// Whether closing an inner writer for good failed.
    pub lost: bool,
}

/// What the chunks hold from a user's point of view: what is in the files, and in the chunk that
/// is being written what was written.
pub open spec fn view(s: ChunkedTmpFileCryptoWriter, w: ChunkFiles) -> Map<int, Seq<u8>> {
    if s.writer {
        stored(w)
    } else {
        w.files
    }
}

/// The files once the inner writer is finished.
pub open spec fn stored(w: ChunkFiles) -> Map<int, Seq<u8>> {
    w.files.insert(w.open.chunk, w.open.content)
}

/// The byte at `i` of `chunk`, if there is one.
pub open spec fn cell(m: Map<int, Seq<u8>>, chunk: int, i: int) -> Option<u8> {
    if m.dom().contains(chunk) && i < m[chunk].len() {
        Some(m[chunk][i])
    } else {
        None
    }
}

/// The byte at position `x` of chunks of `chunk_size` bytes, if there is one.
pub open spec fn byte(m: Map<int, Seq<u8>>, chunk_size: u64, x: int) -> Option<u8> {
    cell(m, x / chunk_size as int, x % chunk_size as int)
}

/// Where the next byte goes.
pub open spec fn position(s: ChunkedTmpFileCryptoWriter, w: ChunkFiles) -> int {
    if s.writer {
        s.base() + w.open.at
    } else {
        s.base()
    }
}

/// The chunks are counted from zero, and no file holds more than a chunk.
pub open spec fn bounded(m: Map<int, Seq<u8>>, chunk_size: u64) -> bool {
    forall|k: int|
        #![trigger m[k]]
        #![trigger m.dom().contains(k)]
        m.dom().contains(k) ==> 0 <= k && m[k].len() <= chunk_size
}

/// The writer stands in what the chunk holds, and that is not more than a chunk.
pub open spec fn inside(open: OpenChunk, chunk_size: u64) -> bool {
    open.at <= open.content.len() <= chunk_size
}

/// Whether some of the `n` bytes from position `from` on lie in `chunk`.
pub open spec fn covers(chunk_size: u64, from: int, n: int, chunk: int) -> bool {
    &&& 0 < n
    &&& chunk * chunk_size < from + n
    &&& from < chunk * chunk_size + chunk_size
}

/// The open inner writer is the one of the current chunk.
pub open spec fn consistent(s: ChunkedTmpFileCryptoWriter, w: ChunkFiles) -> bool {
    &&& s.wf()
    &&& w.capacity > 0
    &&& bounded(w.files, s.chunk_size)
    &&& s.writer ==> w.open.chunk == s.chunk_index && inside(w.open, s.chunk_size)
}

/// The files with an empty one for `chunk` if there was none.
pub open spec fn with_file(files: Map<int, Seq<u8>>, chunk: int) -> Map<int, Seq<u8>> {
    if files.dom().contains(chunk) {
        files
    } else {
        files.insert(chunk, Seq::empty())
    }
}

/// A writer that was just opened on `chunk`.
pub open spec fn opened(files: Map<int, Seq<u8>>, chunk: int) -> OpenChunk {
    OpenChunk { chunk, content: with_file(files, chunk)[chunk], at: 0 }
}

/// Whether the files may be `files2` after the inner writer moved: its chunk's file is replaced
/// as a whole or not at all.
pub open spec fn moved_files(w: ChunkFiles, files2: Map<int, Seq<u8>>) -> bool {
    files2 == w.files || files2 == stored(w)
}

/// Whether `answer` is what the work `task` may come to, with `data` as the caller's bytes, when
/// it takes the chunks from `w` to `w2`. An inner write takes at least one byte if there is one,
/// and all of them as long as it keeps within the capacity.
pub open spec fn does<E>(
    task: ChunkedTask,
    data: Seq<u8>,
    w: ChunkFiles,
    answer: Result<ChunkedReply, E>,
    w2: ChunkFiles,
) -> bool {
    match answer {
        Err(_) => task is FlushEnd || task is FinishEnd ==> {
            &&& moved_files(w, w2.files)
            &&& w2 == (ChunkFiles { files: w2.files, lost: true, ..w })
        },
        Ok(reply) => {
            &&& task.expects(reply)
            &&& match task {
                ChunkedTask::OpenWriter { chunk } | ChunkedTask::SwitchWriter { chunk } => w2 == (
                ChunkFiles {
                    files: with_file(w.files, chunk as int),
                    open: opened(w.files, chunk as int),
                    ..w
                }),
                ChunkedTask::RestartWriter => w2 == (ChunkFiles {
                    files: with_file(w.files, 0),
                    open: opened(w.files, 0),
                    ..w
                }),
                ChunkedTask::Position | ChunkedTask::PositionAfter => {
                    &&& reply->At_0 == w.open.at
                    &&& w2 == w
                },
                ChunkedTask::WriteInner { start, end } => {
                    let n = reply->Wrote_0;
                    &&& start + n <= end <= data.len()
                    &&& start < end ==> n > 0
                    &&& w.open.at + (end - start) <= w.capacity ==> start + n == end
                    &&& w2 == (ChunkFiles {
                        open: OpenChunk {
                            content: overwritten(
                                w.open.content,
                                w.open.at,
                                data.subrange(start as int, start + n),
                            ),
                            at: (w.open.at + n) as nat,
                            ..w.open
                        },
                        ..w
                    })
                },
                ChunkedTask::FillChunk { to } | ChunkedTask::SeekInner { to } => {
                    &&& moved_files(w, w2.files)
                    &&& w2 == (ChunkFiles {
                        files: w2.files,
                        open: OpenChunk {
                            content: padded(w.open.content, to as nat),
                            at: to as nat,
                            ..w.open
                        },
                        ..w
                    })
                },
                ChunkedTask::CheckChunk { chunk } => {
                    &&& reply->Exists_0 == w.files.dom().contains(chunk as int)
                    &&& w2 == w
                },
                ChunkedTask::CreateGap { chunk } => w2 == (ChunkFiles {
                    files: with_file(w.files, chunk as int),
                    gap: opened(w.files, chunk as int),
                    ..w
                }),
                ChunkedTask::FillGap { to, .. } => w2 == (ChunkFiles {
                    gap: OpenChunk {
                        content: padded(w.gap.content, to as nat),
                        at: to as nat,
                        ..w.gap
                    },
                    ..w
                }),
                ChunkedTask::FinishGap { .. } => w2 == (ChunkFiles {
                    files: w.files.insert(w.gap.chunk, w.gap.content),
                    ..w
                }),
                ChunkedTask::FinishFull | ChunkedTask::FinishOld | ChunkedTask::FinishEnd => w2
                    == (ChunkFiles { files: stored(w), ..w }),
                ChunkedTask::CheckFirst => {
                    &&& reply->Exists_0 == w.files.dom().contains(0)
                    &&& w2 == w
                },
                ChunkedTask::CreateFirst => w2 == (ChunkFiles {
                    files: w.files.insert(0, Seq::empty()),
                    ..w
                }),
                _ => w2 == w,
            }
        },
    }
}

/// Whether an operation that stands at `step` can stand at `step2` after `n` pieces of work, each
/// done as [`does`] says, with numbers that fit.
pub open spec fn drives<E>(
    data: Seq<u8>,
    s: ChunkedTmpFileCryptoWriter,
    w: ChunkFiles,
    step: Step<ChunkedOp, E>,
    n: nat,
    s2: ChunkedTmpFileCryptoWriter,
    w2: ChunkFiles,
    step2: Step<ChunkedOp, E>,
) -> bool
    decreases n,
{
    if n == 0 {
        s == s2 && w == w2 && step == step2
    } else {
        step matches Step::Perform(op) && exists|
            answer: Result<ChunkedReply, E>,
            w1: ChunkFiles,
        | #[trigger]
            does(op.task, data, w, answer, w1) && (answer matches Ok(reply) ==> s.fits(op, reply))
                && drives(
                data,
                s.resumed(op, answer).0,
                w1,
                s.resumed(op, answer).1,
                (n - 1) as nat,
                s2,
                w2,
                step2,
            )
    }
}

/// What an operation started from.
struct Start {
    goal: ChunkedGoal,
    data: Seq<u8>,
    s: ChunkedTmpFileCryptoWriter,
    w: ChunkFiles,
    /// Where a seek is to go.
    target: u64,
}

impl Start {
    spec fn cells(self) -> Map<int, Seq<u8>> {
        view(self.s, self.w)
    }

    spec fn pos(self) -> int {
        position(self.s, self.w)
    }

    spec fn first(self) -> int {
        self.s.chunk_index as int
    }

    spec fn last(self) -> int {
        (self.target / self.s.chunk_size) as int
    }

    /// The chunks before `upto` that a seek to a later chunk fills up.
    spec fn fills(self, chunk: int, upto: int) -> bool {
        &&& self.first() <= chunk < upto
        &&& chunk == self.first() || !self.w.files.dom().contains(chunk)
    }
}

/// `m` holds what was there at the start, and zero bytes in place of the missing ones of the
/// chunks that are filled up before `upto`.
spec fn filled(b: Start, m: Map<int, Seq<u8>>, upto: int) -> bool {
    forall|k: int, i: int|
        0 <= i < b.s.chunk_size ==> #[trigger] cell(m, k, i) == (if cell(b.cells(), k, i) is None
            && b.fills(k, upto) {
            Some(0u8)
        } else {
            cell(b.cells(), k, i)
        })
}

/// `m` holds what was there at the start.
spec fn kept(b: Start, m: Map<int, Seq<u8>>) -> bool {
    filled(b, m, b.first())
}

/// `m` holds what a seek from the start's chunk to its target leaves.
spec fn sought(b: Start, m: Map<int, Seq<u8>>) -> bool {
    forall|k: int, i: int|
        0 <= i < b.s.chunk_size ==> #[trigger] cell(m, k, i) == (if cell(b.cells(), k, i) is None
            && (b.fills(k, b.last()) || k == b.last() && i < b.target % b.s.chunk_size) {
            Some(0u8)
        } else {
            cell(b.cells(), k, i)
        })
}

/// `m` holds the first `t` of the caller's bytes at the position of the start, and else what was
/// there.
spec fn put(b: Start, m: Map<int, Seq<u8>>, t: int) -> bool {
    forall|k: int, i: int|
        0 <= i < b.s.chunk_size ==> #[trigger] cell(m, k, i) == (if b.pos() <= k * b.s.chunk_size
            + i < b.pos() + t {
            Some(b.data[k * b.s.chunk_size + i - b.pos()])
        } else {
            cell(b.cells(), k, i)
        })
}

/// From `from` on, chunks other than the start's have files if they had at the start.
spec fn same_later(b: Start, w: ChunkFiles, from: int) -> bool {
    forall|k: int|
        from <= k && k != b.first() ==> #[trigger] w.files.dom().contains(k)
            == b.w.files.dom().contains(k)
}

/// The chunks with files in `m` are those at the start, those that the first `t` of the caller's
/// bytes lie in, and the one that is open.
spec fn grown(b: Start, s: ChunkedTmpFileCryptoWriter, m: Map<int, Seq<u8>>, t: int) -> bool {
    forall|k: int| #[trigger]
        m.dom().contains(k) <==> b.cells().dom().contains(k) || covers(
            b.s.chunk_size,
            b.pos(),
            t,
            k,
        ) || s.writer && k == s.chunk_index
}

/// The open chunk had a file at the start, or some of the caller's bytes lie in it.
spec fn grounded(b: Start, s: ChunkedTmpFileCryptoWriter, t: int) -> bool {
    s.writer ==> b.cells().dom().contains(s.chunk_index as int) || covers(
        b.s.chunk_size,
        b.pos(),
        t,
        s.chunk_index as int,
    )
}

/// What holds at every step of a write that started from `b`.
spec fn writing<E>(
    b: Start,
    s: ChunkedTmpFileCryptoWriter,
    w: ChunkFiles,
    step: Step<ChunkedOp, E>,
) -> bool {
    let t = position(s, w) - b.pos();
    &&& consistent(s, w)
    &&& s.chunk_size == b.s.chunk_size
    &&& w.capacity == b.w.capacity
    &&& w.lost == b.w.lost
    &&& 0 <= t <= b.data.len()
    &&& put(b, view(s, w), t)
    &&& grown(b, s, view(s, w), t)
    &&& match step {
        Step::Perform(op) => op.goal matches ChunkedGoal::Write { len, start, written } && {
            &&& 0 < len == b.data.len()
            &&& written == t
            &&& match op.task {
                ChunkedTask::LockFile => start == t < len && grounded(b, s, t),
                ChunkedTask::OpenWriter { chunk } => {
                    &&& start == t < len
                    &&& !s.writer
                    &&& chunk == s.chunk_index
                },
                ChunkedTask::Position => {
                    &&& start == t < len
                    &&& s.writer
                    &&& w.open.at > 0 ==> grounded(b, s, t)
                },
                ChunkedTask::WriteInner { start: from, end } => {
                    &&& from == start == t < len
                    &&& s.writer
                    &&& w.open.at > 0 ==> grounded(b, s, t)
                    &&& start <= end <= len
                    &&& end - start <= s.chunk_size - w.open.at
                    &&& w.open.at < s.chunk_size ==> start < end
                },
                ChunkedTask::PositionAfter => {
                    &&& s.writer
                    &&& 0 < w.open.at
                    &&& grounded(b, s, t)
                    &&& start == t || start == len && 0 < t && w.capacity < s.chunk_size
                },
                ChunkedTask::FlushFull | ChunkedTask::FinishFull => {
                    &&& s.writer
                    &&& grounded(b, s, t)
                    &&& w.open.at == s.chunk_size
                    &&& start == t || start == len && 0 < t && w.capacity < s.chunk_size
                },
                _ => false,
            }
        },
        Step::Done(v) => {
            &&& v == t
            &&& grounded(b, s, t)
            &&& 0 < b.data.len() ==> 0 < t && (s.writer ==> 0 < w.open.at < s.chunk_size)
            &&& b.data.len() == 0 ==> s == b.s && w == b.w
            &&& s.chunk_size <= w.capacity ==> t == b.data.len()
        },
        Step::Failed(_) => true,
    }
}

/// The bytes of earlier chunks come before those of `chunk`, and those of later ones behind.
pub(crate) proof fn lemma_places(chunk_size: int, chunk: int, k: int, i: int)
    requires
        0 <= i < chunk_size,
    ensures
        k < chunk ==> k * chunk_size + i < chunk * chunk_size,
        k > chunk ==> k * chunk_size + i >= chunk * chunk_size + chunk_size,
{
    if k < chunk {
        assert(k * chunk_size + chunk_size <= chunk * chunk_size) by (nonlinear_arith)
            requires
                k + 1 <= chunk,
                0 < chunk_size,
        ;
    } else if k > chunk {
        assert(k * chunk_size >= chunk * chunk_size + chunk_size) by (nonlinear_arith)
            requires
                k >= chunk + 1,
                0 < chunk_size,
        ;
    }
}

/// Opening a writer shows no byte and hides none.
proof fn lemma_opened(files: Map<int, Seq<u8>>, chunk: int, chunk_size: u64)
    requires
        bounded(files, chunk_size),
        0 <= chunk,
    ensures
        bounded(with_file(files, chunk), chunk_size),
        inside(opened(files, chunk), chunk_size),
        with_file(files, chunk).insert(chunk, opened(files, chunk).content) == with_file(
            files,
            chunk,
        ),
        forall|k: int, i: int|
            0 <= i ==> #[trigger] cell(with_file(files, chunk), k, i) == cell(files, k, i),
{
    let files2 = with_file(files, chunk);
    assert(files2.insert(chunk, files2[chunk]) =~= files2);
    assert(files2[chunk].len() <= chunk_size);
}

proof fn lemma_inner_write(
    b: Start,
    s: ChunkedTmpFileCryptoWriter,
    w: ChunkFiles,
    w1: ChunkFiles,
    t: int,
    n: int,
)
    requires
        consistent(s, w),
        s.writer,
        s.chunk_size == b.s.chunk_size,
        t == position(s, w) - b.pos(),
        0 <= t <= t + n <= b.data.len(),
        0 <= n <= s.chunk_size - w.open.at,
        put(b, view(s, w), t),
        grown(b, s, view(s, w), t),
        w1.files == w.files,
        w1.capacity == w.capacity,
        w1.open == (OpenChunk {
            content: overwritten(w.open.content, w.open.at, b.data.subrange(t, t + n)),
            at: (w.open.at + n) as nat,
            ..w.open
        }),
    ensures
        consistent(s, w1),
        put(b, view(s, w1), t + n),
        grown(b, s, view(s, w1), t + n),
        0 < n ==> grounded(b, s, t + n),
{
    let part = b.data.subrange(t, t + n);
    let m = view(s, w);
    let m1 = view(s, w1);
    let cs = s.chunk_size as int;
    assert forall|k: int, i: int| 0 <= i < cs implies #[trigger] cell(m1, k, i) == (if b.pos() <= k
        * b.s.chunk_size + i < b.pos() + t + n {
        Some(b.data[k * b.s.chunk_size + i - b.pos()])
    } else {
        cell(b.cells(), k, i)
    }) by {
        lemma_places(cs, s.chunk_index as int, k, i);
        assert(cell(m, k, i) == cell(m, k, i));
    }
    assert forall|k: int| #[trigger] m1.dom().contains(k) <==> b.cells().dom().contains(k)
        || covers(b.s.chunk_size, b.pos(), t + n, k) || s.writer && k == s.chunk_index by {
        lemma_places(cs, s.chunk_index as int, k, 0);
        lemma_places(cs, s.chunk_index as int, k, cs - 1);
        assert(m.dom().contains(k) == m1.dom().contains(k));
    }
}

proof fn lemma_writing_step<E>(
    b: Start,
    s: ChunkedTmpFileCryptoWriter,
    w: ChunkFiles,
    op: ChunkedOp,
    answer: Result<ChunkedReply, E>,
    w1: ChunkFiles,
)
    requires
        writing(b, s, w, Step::<ChunkedOp, E>::Perform(op)),
        does(op.task, b.data, w, answer, w1),
        answer is Ok,
        s.fits(op, answer->Ok_0),
    ensures
        writing(b, s.resumed(op, answer).0, w1, s.resumed(op, answer).1),
{
    let t = position(s, w) - b.pos();
    let (s2, step2) = s.resumed(op, answer);
    match op.task {
        ChunkedTask::OpenWriter { chunk } => {
            lemma_opened(w.files, chunk as int, s.chunk_size);
        },
        ChunkedTask::WriteInner { start, end } => {
            lemma_inner_write(b, s, w, w1, t, answer->Ok_0->Wrote_0 as int);
        },
        ChunkedTask::FinishFull => {
            assert((s.chunk_index + 1) * s.chunk_size == s.base() + s.chunk_size)
                by (nonlinear_arith);
            assert(s.chunk_index <= s.base()) by (nonlinear_arith)
                requires
                    s.base() == s.chunk_index * s.chunk_size,
                    s.chunk_size > 0,
                    s.chunk_index >= 0,
            ;
            assert(view(s2, w1) == view(s, w));
        },
        _ => {},
    }
}

/// The chunks with files in `m` are those at the start, the start's own, and those before `upto`.
spec fn files_to(b: Start, m: Map<int, Seq<u8>>, upto: int) -> bool {
    forall|k: int| #[trigger]
        m.dom().contains(k) <==> b.cells().dom().contains(k) || k == b.first() || b.first() < k
            < upto
}

/// The chunks with files in `m` are those that a seek to the target leaves.
spec fn files_after(b: Start, m: Map<int, Seq<u8>>) -> bool {
    forall|k: int| #[trigger]
        m.dom().contains(k) <==> b.cells().dom().contains(k) || k == b.first() || k == b.last()
            || b.first() < k < b.last()
}

/// The writer and the chunks are as at the start, as far as anyone can see.
spec fn resting(b: Start, s: ChunkedTmpFileCryptoWriter, w: ChunkFiles) -> bool {
    &&& consistent(s, w)
    &&& s.chunk_index == b.s.chunk_index
    &&& position(s, w) == b.pos()
    &&& kept(b, view(s, w))
    &&& same_later(b, w, b.first() + 1)
    &&& if s.writer {
        files_to(b, view(s, w), b.first())
    } else {
        view(s, w) == b.cells()
    }
}

/// The start's chunk and the missing ones before `chunk` are filled up.
spec fn bridging(b: Start, s: ChunkedTmpFileCryptoWriter, w: ChunkFiles, chunk: int) -> bool {
    &&& consistent(s, w)
    &&& s.chunk_index == b.s.chunk_index
    &&& s.writer
    &&& filled(b, view(s, w), chunk)
    &&& b.first() < chunk < b.last()
    &&& b.target != b.pos()
}

/// What holds at every step of a seek that started from `b`, on its way to the target.
spec fn under_way(
    b: Start,
    s: ChunkedTmpFileCryptoWriter,
    w: ChunkFiles,
    task: ChunkedTask,
) -> bool {
    let between = b.first() != b.last() || b.target == 0;
    match task {
        ChunkedTask::OpenWriter { chunk } => {
            &&& resting(b, s, w)
            &&& !s.writer
            &&& chunk == s.chunk_index
        },
        ChunkedTask::Position => resting(b, s, w) && s.writer,
        ChunkedTask::LockFile => resting(b, s, w) && s.writer && b.target != b.pos(),
        ChunkedTask::FillChunk { to } => {
            &&& resting(b, s, w)
            &&& s.writer
            &&& to == s.chunk_size
            &&& b.first() < b.last()
            &&& b.target != 0
            &&& b.target != b.pos()
        },
        ChunkedTask::CheckChunk { chunk } => {
            &&& bridging(b, s, w, chunk as int)
            &&& same_later(b, w, chunk as int)
            &&& files_to(b, view(s, w), chunk as int)
        },
        ChunkedTask::CreateGap { chunk } => {
            &&& bridging(b, s, w, chunk as int)
            &&& same_later(b, w, chunk as int)
            &&& files_to(b, view(s, w), chunk as int)
            &&& !w.files.dom().contains(chunk as int)
        },
        ChunkedTask::FillGap { chunk, to } => {
            &&& bridging(b, s, w, chunk as int)
            &&& same_later(b, w, chunk + 1)
            &&& files_to(b, view(s, w), chunk + 1)
            &&& !b.w.files.dom().contains(chunk as int)
            &&& to == s.chunk_size
            &&& w.gap == (OpenChunk { chunk: chunk as int, content: Seq::empty(), at: 0 })
        },
        ChunkedTask::FlushGap { chunk } | ChunkedTask::FinishGap { chunk } => {
            &&& bridging(b, s, w, chunk as int)
            &&& same_later(b, w, chunk + 1)
            &&& files_to(b, view(s, w), chunk + 1)
            &&& !b.w.files.dom().contains(chunk as int)
            &&& w.gap.chunk == chunk
            &&& w.gap.content == zeros(s.chunk_size as nat)
        },
        ChunkedTask::FlushOld | ChunkedTask::FinishOld => {
            &&& s.chunk_index == b.s.chunk_index
            &&& !s.writer
            &&& inside(w.open, s.chunk_size)
            &&& filled(b, stored(w), b.last())
            &&& files_to(b, stored(w), b.last())
            &&& between
            &&& b.target != b.pos()
        },
        ChunkedTask::RestartWriter => {
            &&& !s.writer
            &&& filled(b, w.files, b.last())
            &&& files_to(b, w.files, b.last())
            &&& b.target == 0
            &&& b.target != b.pos()
        },
        ChunkedTask::SwitchWriter { chunk } => {
            &&& !s.writer
            &&& chunk == b.last()
            &&& filled(b, w.files, b.last())
            &&& files_to(b, w.files, b.last())
            &&& b.target != 0
            &&& b.target != b.pos()
        },
        ChunkedTask::SeekInner { to } => {
            &&& s.writer
            &&& w.open.chunk == b.last()
            &&& inside(w.open, s.chunk_size)
            &&& filled(b, stored(w), b.last())
            &&& files_after(b, stored(w))
            &&& to == b.target % b.s.chunk_size
            &&& b.target != b.pos()
        },
        _ => false,
    }
}

/// The target is reached.
spec fn arrived(b: Start, s: ChunkedTmpFileCryptoWriter, w: ChunkFiles) -> bool {
    &&& consistent(s, w)
    &&& position(s, w) == b.target
    &&& sought(b, view(s, w))
    &&& s.writer
    &&& if b.target == b.pos() {
        s.chunk_index == b.first() && files_to(b, view(s, w), b.first())
    } else {
        s.chunk_index == b.last() && files_after(b, view(s, w))
    }
}

/// What holds at every step of a seek, or of a question for the position, that started from `b`.
spec fn seeking<E>(
    b: Start,
    s: ChunkedTmpFileCryptoWriter,
    w: ChunkFiles,
    step: Step<ChunkedOp, E>,
) -> bool {
    &&& s.wf()
    &&& bounded(w.files, s.chunk_size)
    &&& s.chunk_size == b.s.chunk_size
    &&& w.capacity == b.w.capacity > 0
    &&& w.lost == b.w.lost
    &&& match step {
        Step::Perform(op) => match op.goal {
            ChunkedGoal::Pos => {
                &&& b.goal is Pos
                &&& op.task is OpenWriter || op.task is Position
                &&& under_way(b, s, w, op.task)
            },
            ChunkedGoal::SeekBy { offset } => {
                &&& b.goal is SeekBy
                &&& moved(b.pos() as u64, offset) == Some(b.target)
                &&& op.task is OpenWriter || op.task is Position
                &&& under_way(b, s, w, op.task)
            },
            ChunkedGoal::Seek { target } => {
                &&& b.goal is Seek || b.goal is SeekBy
                &&& target == b.target
                &&& under_way(b, s, w, op.task)
            },
            ChunkedGoal::Report => {
                &&& b.goal is Seek || b.goal is SeekBy
                &&& op.task is Position
                &&& s.writer
                &&& arrived(b, s, w)
            },
            _ => false,
        },
        Step::Done(v) => match b.goal {
            ChunkedGoal::Pos => v == b.pos() && resting(b, s, w) && s.writer,
            _ => v == b.target && arrived(b, s, w),
        },
        Step::Failed(_) => true,
    }
}

/// The position `target` as a chunk and a place in it.
proof fn lemma_target(b: Start)
    requires
        b.s.chunk_size > 0,
    ensures
        b.target == b.last() * b.s.chunk_size + b.target % b.s.chunk_size,
        0 <= b.target % b.s.chunk_size < b.s.chunk_size,
        0 <= b.last() * b.s.chunk_size <= b.target,
        b.target == 0 ==> b.last() == 0,
        b.last() >= 0,
{
    let cs = b.s.chunk_size as int;
    lemma_fundamental_div_mod(b.target as int, cs);
    lemma_mod_bound(b.target as int, cs);
    lemma_div_pos_is_pos(b.target as int, cs);
    assert(cs * b.last() == b.last() * cs) by (nonlinear_arith);
    assert(b.last() * cs >= 0) by (nonlinear_arith)
        requires
            b.last() >= 0,
            cs > 0,
    ;
    if b.target == 0 {
        assert(b.last() == 0) by (nonlinear_arith)
            requires
                b.last() * cs <= 0,
                b.last() >= 0,
                cs > 0,
        ;
    }
}

/// A seek that is where it wants to be has nothing to fill up.
proof fn lemma_at_target(b: Start, s: ChunkedTmpFileCryptoWriter, w: ChunkFiles)
    requires
        resting(b, s, w),
        s.writer,
        s.chunk_size == b.s.chunk_size,
        b.pos() == b.target,
    ensures
        arrived(b, s, w),
{
    let cs = s.chunk_size as int;
    let m = view(s, w);
    lemma_target(b);
    assert forall|k: int, i: int| 0 <= i < cs implies #[trigger] cell(m, k, i) == (if cell(
        b.cells(),
        k,
        i,
    ) is None && (b.fills(k, b.last()) || k == b.last() && i < b.target % b.s.chunk_size) {
        Some(0u8)
    } else {
        cell(b.cells(), k, i)
    }) by {
        lemma_places(cs, b.first(), k, i);
        lemma_places(cs, b.last(), k, i);
        lemma_places(cs, b.first(), b.last(), b.target as int % cs);
        lemma_places(cs, b.first(), b.last(), 0);
    }
}

/// How a seek sets out once the file is locked.
proof fn lemma_departed<E>(b: Start, s: ChunkedTmpFileCryptoWriter, w: ChunkFiles)
    requires
        b.goal is Seek || b.goal is SeekBy,
        resting(b, s, w),
        s.writer,
        s.chunk_size == b.s.chunk_size,
        w.capacity == b.w.capacity,
        w.lost == b.w.lost,
        b.target != b.pos(),
    ensures
        seeking(b, s.departed::<E>(b.target).0, w, s.departed::<E>(b.target).1),
{
    lemma_target(b);
    assert(view(s, w) == stored(w));
    if b.last() <= b.first() {
        assert(filled(b, stored(w), b.last()));
    }
}

/// How a seek goes on when the missing chunks before `chunk` are filled up.
proof fn lemma_bridged<E>(b: Start, s: ChunkedTmpFileCryptoWriter, w: ChunkFiles, chunk: int)
    requires
        b.goal is Seek || b.goal is SeekBy,
        consistent(s, w),
        s.chunk_index == b.s.chunk_index,
        s.chunk_size == b.s.chunk_size,
        s.writer,
        w.capacity == b.w.capacity,
        w.lost == b.w.lost,
        b.target != b.pos(),
        filled(b, view(s, w), chunk),
        b.first() < chunk <= b.last(),
        same_later(b, w, chunk),
        files_to(b, view(s, w), chunk),
    ensures
        seeking(b, s.bridged::<E>(b.target, chunk).0, w, s.bridged::<E>(b.target, chunk).1),
{
    lemma_target(b);
}

proof fn lemma_filled_chunk(
    b: Start,
    s: ChunkedTmpFileCryptoWriter,
    w: ChunkFiles,
    w1: ChunkFiles,
)
    requires
        resting(b, s, w),
        s.writer,
        s.chunk_size == b.s.chunk_size,
        moved_files(w, w1.files),
        w1.open == (OpenChunk {
            content: padded(w.open.content, s.chunk_size as nat),
            at: s.chunk_size as nat,
            ..w.open
        }),
        w1.capacity == w.capacity,
    ensures
        consistent(s, w1),
        filled(b, view(s, w1), b.first() + 1),
        files_to(b, view(s, w1), b.first() + 1),
        same_later(b, w1, b.first() + 1),
{
    let m = view(s, w);
    let m1 = view(s, w1);
    assert forall|k: int, i: int| 0 <= i < b.s.chunk_size implies #[trigger] cell(m1, k, i) == (
    if cell(b.cells(), k, i) is None && b.fills(k, b.first() + 1) {
        Some(0u8)
    } else {
        cell(b.cells(), k, i)
    }) by {
        assert(cell(m, k, i) == cell(m, k, i));
    }
    assert(m1.dom() =~= m.dom());
}

proof fn lemma_filled_gap(
    b: Start,
    s: ChunkedTmpFileCryptoWriter,
    w: ChunkFiles,
    w1: ChunkFiles,
    chunk: int,
)
    requires
        consistent(b.s, b.w),
        bridging(b, s, w, chunk),
        s.chunk_size == b.s.chunk_size,
        same_later(b, w, chunk + 1),
        files_to(b, view(s, w), chunk + 1),
        !b.w.files.dom().contains(chunk),
        w1.files == w.files.insert(chunk, zeros(s.chunk_size as nat)),
        w1.open == w.open,
        w1.capacity == w.capacity,
    ensures
        consistent(s, w1),
        filled(b, view(s, w1), chunk + 1),
        files_to(b, view(s, w1), chunk + 1),
        same_later(b, w1, chunk + 1),
{
    let m = view(s, w);
    let m1 = view(s, w1);
    assert forall|k: int, i: int| 0 <= i < b.s.chunk_size implies #[trigger] cell(m1, k, i) == (
    if cell(b.cells(), k, i) is None && b.fills(k, chunk + 1) {
        Some(0u8)
    } else {
        cell(b.cells(), k, i)
    }) by {
        assert(cell(m, k, i) == cell(m, k, i));
    }
    assert(m.dom().contains(chunk));
    assert(m1.dom() =~= m.dom());
}

proof fn lemma_inner_seek(
    b: Start,
    s: ChunkedTmpFileCryptoWriter,
    w: ChunkFiles,
    w1: ChunkFiles,
)
    requires
        under_way(b, s, w, ChunkedTask::SeekInner { to: b.target % b.s.chunk_size }),
        bounded(w.files, s.chunk_size),
        s.chunk_size == b.s.chunk_size,
        s.wf(),
        moved_files(w, w1.files),
        w1.open == (OpenChunk {
            content: padded(w.open.content, (b.target % b.s.chunk_size) as nat),
            at: (b.target % b.s.chunk_size) as nat,
            ..w.open
        }),
        w1.capacity == w.capacity > 0,
    ensures
        arrived(
            b,
            ChunkedTmpFileCryptoWriter { chunk_index: b.target / b.s.chunk_size, ..s },
            w1,
        ),
{
    let s1 = ChunkedTmpFileCryptoWriter { chunk_index: b.target / b.s.chunk_size, ..s };
    lemma_target(b);
    let m = stored(w);
    let m1 = view(s1, w1);
    assert forall|k: int, i: int| 0 <= i < b.s.chunk_size implies #[trigger] cell(m1, k, i) == (
    if cell(b.cells(), k, i) is None && (b.fills(k, b.last()) || k == b.last() && i < b.target
        % b.s.chunk_size) {
        Some(0u8)
    } else {
        cell(b.cells(), k, i)
    }) by {
        assert(cell(m, k, i) == cell(m, k, i));
    }
    assert(m1.dom() =~= m.dom());
}

proof fn lemma_seeking_step<E>(
    b: Start,
    s: ChunkedTmpFileCryptoWriter,
    w: ChunkFiles,
    op: ChunkedOp,
    answer: Result<ChunkedReply, E>,
    w1: ChunkFiles,
)
    requires
        consistent(b.s, b.w),
        seeking(b, s, w, Step::<ChunkedOp, E>::Perform(op)),
        does(op.task, b.data, w, answer, w1),
        answer is Ok,
        s.fits(op, answer->Ok_0),
    ensures
        seeking(b, s.resumed(op, answer).0, w1, s.resumed(op, answer).1),
{
    let (s2, step2) = s.resumed(op, answer);
    lemma_target(b);
    match op.task {
        ChunkedTask::OpenWriter { chunk } => {
            lemma_opened(w.files, chunk as int, s.chunk_size);
        },
        ChunkedTask::Position => {
            if op.goal is Seek && b.target == b.pos() {
                lemma_at_target(b, s, w);
            }
        },
        ChunkedTask::LockFile => {
            lemma_departed::<E>(b, s, w);
        },
        ChunkedTask::FillChunk { .. } => {
            lemma_filled_chunk(b, s, w, w1);
            lemma_bridged::<E>(b, s, w1, b.first() + 1);
        },
        ChunkedTask::CheckChunk { chunk } => {
            if answer->Ok_0->Exists_0 {
                assert(b.w.files.dom().contains(chunk as int));
                assert(filled(b, view(s, w), chunk + 1));
                assert(view(s, w).dom().contains(chunk as int));
                lemma_bridged::<E>(b, s, w1, chunk + 1);
            }
        },
        ChunkedTask::CreateGap { chunk } => {
            lemma_opened(w.files, chunk as int, s.chunk_size);
            assert(with_file(w.files, chunk as int)[chunk as int] =~= Seq::empty());
            let m = view(s, w);
            let m1 = view(s, w1);
            assert forall|k: int, i: int| 0 <= i < b.s.chunk_size implies #[trigger] cell(
                m1,
                k,
                i,
            ) == cell(m, k, i) by {}
            assert(m1.dom() =~= m.dom().insert(chunk as int));
        },
        ChunkedTask::FillGap { .. } => {
            assert(w1.gap.content =~= zeros(s.chunk_size as nat));
        },
        ChunkedTask::FinishGap { chunk } => {
            lemma_filled_gap(b, s, w, w1, chunk as int);
            lemma_bridged::<E>(b, s, w1, chunk + 1);
        },
        ChunkedTask::RestartWriter => {
            lemma_opened(w.files, 0, s.chunk_size);
        },
        ChunkedTask::SwitchWriter { chunk } => {
            lemma_opened(w.files, chunk as int, s.chunk_size);
        },
        ChunkedTask::SeekInner { .. } => {
            lemma_inner_seek(b, s, w, w1);
        },
        _ => {},
    }
}

/// Outside the start's chunk, `m` holds what was there at the start.
spec fn others_kept(b: Start, m: Map<int, Seq<u8>>) -> bool {
    forall|k: int, i: int|
        0 <= i < b.s.chunk_size && k != b.first() ==> #[trigger] cell(m, k, i) == cell(
            b.cells(),
            k,
            i,
        )
}

/// What holds at every step of closing a writer for good that started from `b`.
spec fn finishing<E>(
    b: Start,
    s: ChunkedTmpFileCryptoWriter,
    w: ChunkFiles,
    step: Step<ChunkedOp, E>,
) -> bool {
    &&& !s.writer
    &&& others_kept(b, w.files)
    &&& match step {
        Step::Perform(op) => op.goal is Finish && match op.task {
            ChunkedTask::FlushEnd | ChunkedTask::FinishEnd => {
                &&& w.open.chunk == b.first()
                &&& stored(w) == b.cells()
            },
            ChunkedTask::CheckFirst => !w.lost ==> w.files == b.cells(),
            ChunkedTask::CreateFirst => {
                &&& !w.lost ==> w.files == b.cells()
                &&& !w.files.dom().contains(0)
            },
            ChunkedTask::OpenFirst => {
                &&& !w.lost ==> w.files == with_file(b.cells(), 0)
                &&& w.files.dom().contains(0)
            },
            _ => false,
        },
        Step::Done(_) => {
            &&& !w.lost ==> w.files == with_file(b.cells(), 0)
            &&& w.files.dom().contains(0)
        },
        Step::Failed(_) => true,
    }
}

proof fn lemma_finishing_step<E>(
    b: Start,
    s: ChunkedTmpFileCryptoWriter,
    w: ChunkFiles,
    op: ChunkedOp,
    answer: Result<ChunkedReply, E>,
    w1: ChunkFiles,
)
    requires
        finishing(b, s, w, Step::<ChunkedOp, E>::Perform(op)),
        does(op.task, b.data, w, answer, w1),
        answer is Ok || op.task is FlushEnd || op.task is FinishEnd,
    ensures
        finishing(b, s.resumed(op, answer).0, w1, s.resumed(op, answer).1),
{
    if op.task is FlushEnd || op.task is FinishEnd {
        assert(stored(w1) =~= stored(w));
        assert(others_kept(b, stored(w)));
    } else {
        assert(forall|k: int, i: int|
            0 <= i ==> #[trigger] cell(w1.files, k, i) == cell(w.files, k, i));
    }
}

/// What holds at every step of an operation that started from `b`.
spec fn holds<E>(
    b: Start,
    s: ChunkedTmpFileCryptoWriter,
    w: ChunkFiles,
    step: Step<ChunkedOp, E>,
) -> bool {
    step is Failed || match b.goal {
        ChunkedGoal::Write { .. } => writing(b, s, w, step),
        ChunkedGoal::Flush => {
            &&& s == b.s
            &&& w == b.w
            &&& step matches Step::Perform(op) ==> op.goal is Flush && op.task is FlushWriter
        },
        ChunkedGoal::Finish => finishing(b, s, w, step),
        _ => {
            &&& seeking(b, s, w, step)
            &&& consistent(b.s, b.w)
        },
    }
}

/// One piece of work keeps what holds.
proof fn lemma_step<E>(
    b: Start,
    s: ChunkedTmpFileCryptoWriter,
    w: ChunkFiles,
    op: ChunkedOp,
    answer: Result<ChunkedReply, E>,
    w1: ChunkFiles,
)
    requires
        holds(b, s, w, Step::<ChunkedOp, E>::Perform(op)),
        does(op.task, b.data, w, answer, w1),
        answer matches Ok(reply) ==> s.fits(op, reply),
    ensures
        holds(b, s.resumed(op, answer).0, w1, s.resumed(op, answer).1),
{
    match b.goal {
        ChunkedGoal::Write { .. } => {
            if answer is Ok {
                lemma_writing_step(b, s, w, op, answer, w1);
            }
        },
        ChunkedGoal::Flush => {},
        ChunkedGoal::Finish => {
            if answer is Ok || op.task is FlushEnd || op.task is FinishEnd {
                lemma_finishing_step(b, s, w, op, answer, w1);
            }
        },
        _ => {
            if answer is Ok {
                lemma_seeking_step(b, s, w, op, answer, w1);
            }
        },
    }
}

/// What holds at a step holds at every step that follows.
proof fn lemma_drives<E>(
    b: Start,
    s: ChunkedTmpFileCryptoWriter,
    w: ChunkFiles,
    step: Step<ChunkedOp, E>,
    n: nat,
    s2: ChunkedTmpFileCryptoWriter,
    w2: ChunkFiles,
    step2: Step<ChunkedOp, E>,
)
    requires
        holds(b, s, w, step),
        drives(b.data, s, w, step, n, s2, w2, step2),
    ensures
        holds(b, s2, w2, step2),
    decreases n,
{
    if n > 0 {
        let op = step->Perform_0;
        let (answer, w1) = choose|answer: Result<ChunkedReply, E>, w1: ChunkFiles| #[trigger]
            does(op.task, b.data, w, answer, w1) && (answer matches Ok(reply) ==> s.fits(op, reply))
                && drives(
                b.data,
                s.resumed(op, answer).0,
                w1,
                s.resumed(op, answer).1,
                (n - 1) as nat,
                s2,
                w2,
                step2,
            );
        lemma_step(b, s, w, op, answer, w1);
        lemma_drives(
            b,
            s.resumed(op, answer).0,
            w1,
            s.resumed(op, answer).1,
            (n - 1) as nat,
            s2,
            w2,
            step2,
        );
    }
}

/// The operation with `goal`, from its start to the step `step2`.
pub open spec fn runs<E>(
    data: Seq<u8>,
    s: ChunkedTmpFileCryptoWriter,
    w: ChunkFiles,
    goal: ChunkedGoal,
    n: nat,
    s2: ChunkedTmpFileCryptoWriter,
    w2: ChunkFiles,
    step2: Step<ChunkedOp, E>,
) -> bool {
    drives(data, s.started::<E>(goal).0, w, s.started::<E>(goal).1, n, s2, w2, step2)
}

/// Whether an operation can start from `b`, so that the laws apply to it.
spec fn starts(b: Start) -> bool {
    &&& consistent(b.s, b.w)
    &&& match b.goal {
        ChunkedGoal::Write { len, start, written } => {
            &&& len == b.data.len()
            &&& start == 0
            &&& written == 0
        },
        ChunkedGoal::Flush | ChunkedGoal::Pos => true,
        ChunkedGoal::Finish => !b.w.lost,
        ChunkedGoal::Seek { target } => target == b.target,
        ChunkedGoal::SeekBy { offset } => moved(b.pos() as u64, offset) == Some(b.target),
        ChunkedGoal::Report => false,
    }
}

proof fn lemma_start<E>(b: Start)
    requires
        starts(b),
    ensures
        holds(b, b.s.started::<E>(b.goal).0, b.w, b.s.started::<E>(b.goal).1),
{
}

proof fn lemma_run<E>(
    b: Start,
    n: nat,
    s2: ChunkedTmpFileCryptoWriter,
    w2: ChunkFiles,
    step2: Step<ChunkedOp, E>,
)
    requires
        starts(b),
        runs(b.data, b.s, b.w, b.goal, n, s2, w2, step2),
    ensures
        holds(b, s2, w2, step2),
{
    let (s, step) = b.s.started::<E>(b.goal);
    lemma_start::<E>(b);
    lemma_drives(b, s, b.w, step, n, s2, w2, step2);
}

/// How much work an operation can still ask for at `step`.
spec fn work_left<E>(
    b: Start,
    s: ChunkedTmpFileCryptoWriter,
    w: ChunkFiles,
    step: Step<ChunkedOp, E>,
) -> int {
    let chunks = if b.first() < b.last() {
        b.last() - b.first()
    } else {
        0
    };
    match step {
        Step::Perform(op) => match op.goal {
            ChunkedGoal::Write { len, start, .. } => 20 * (len - start) + match op.task {
                ChunkedTask::LockFile => 13int,
                ChunkedTask::OpenWriter { .. } => 7,
                ChunkedTask::Position => if w.open.at == s.chunk_size {
                    12
                } else {
                    6
                },
                ChunkedTask::WriteInner { .. } => if w.open.at == s.chunk_size {
                    11
                } else {
                    5
                },
                ChunkedTask::PositionAfter => 10,
                ChunkedTask::FlushFull => 9,
                _ => 8,
            },
            ChunkedGoal::Pos | ChunkedGoal::SeekBy { .. } => 5 * chunks + if op.task is OpenWriter {
                12int
            } else {
                11
            },
            ChunkedGoal::Seek { .. } => match op.task {
                ChunkedTask::OpenWriter { .. } => 5 * chunks + 10,
                ChunkedTask::Position => 5 * chunks + 9,
                ChunkedTask::LockFile => 5 * chunks + 8,
                ChunkedTask::FillChunk { .. } => 5 * chunks + 7,
                ChunkedTask::CheckChunk { chunk } => 5 * (b.last() - chunk) + 6,
                ChunkedTask::CreateGap { chunk } => 5 * (b.last() - chunk) + 5,
                ChunkedTask::FillGap { chunk, .. } => 5 * (b.last() - chunk) + 4,
                ChunkedTask::FlushGap { chunk } => 5 * (b.last() - chunk) + 3,
                ChunkedTask::FinishGap { chunk } => 5 * (b.last() - chunk) + 2,
                ChunkedTask::FlushOld => 5,
                ChunkedTask::FinishOld => 4,
                ChunkedTask::SeekInner { .. } => 2,
                _ => 3,
            },
            _ => match op.task {
                ChunkedTask::FlushEnd => 5,
                ChunkedTask::FinishEnd => 4,
                ChunkedTask::CheckFirst => 3,
                ChunkedTask::CreateFirst => 2,
                _ => 1,
            },
        },
        _ => 0,
    }
}

proof fn lemma_work_of_write<E>(
    b: Start,
    s: ChunkedTmpFileCryptoWriter,
    w: ChunkFiles,
    op: ChunkedOp,
    answer: Result<ChunkedReply, E>,
    w1: ChunkFiles,
)
    requires
        b.goal is Write,
        holds(b, s, w, Step::<ChunkedOp, E>::Perform(op)),
        does(op.task, b.data, w, answer, w1),
        answer matches Ok(reply) ==> s.fits(op, reply),
    ensures
        0 <= work_left(b, s.resumed(op, answer).0, w1, s.resumed(op, answer).1) < work_left(
            b,
            s,
            w,
            Step::<ChunkedOp, E>::Perform(op),
        ),
{
    lemma_step(b, s, w, op, answer, w1);
}

proof fn lemma_work_of_seek<E>(
    b: Start,
    s: ChunkedTmpFileCryptoWriter,
    w: ChunkFiles,
    op: ChunkedOp,
    answer: Result<ChunkedReply, E>,
    w1: ChunkFiles,
)
    requires
        !(b.goal is Write),
        holds(b, s, w, Step::<ChunkedOp, E>::Perform(op)),
        does(op.task, b.data, w, answer, w1),
        answer matches Ok(reply) ==> s.fits(op, reply),
    ensures
        0 <= work_left(b, s.resumed(op, answer).0, w1, s.resumed(op, answer).1) < work_left(
            b,
            s,
            w,
            Step::<ChunkedOp, E>::Perform(op),
        ),
{
    if b.s.wf() {
        lemma_target(b);
    }
}

proof fn lemma_work_left<E>(
    b: Start,
    s: ChunkedTmpFileCryptoWriter,
    w: ChunkFiles,
    op: ChunkedOp,
    answer: Result<ChunkedReply, E>,
    w1: ChunkFiles,
)
    requires
        holds(b, s, w, Step::<ChunkedOp, E>::Perform(op)),
        does(op.task, b.data, w, answer, w1),
        answer matches Ok(reply) ==> s.fits(op, reply),
    ensures
        0 <= work_left(b, s.resumed(op, answer).0, w1, s.resumed(op, answer).1) < work_left(
            b,
            s,
            w,
            Step::<ChunkedOp, E>::Perform(op),
        ),
{
    if b.goal is Write {
        lemma_work_of_write(b, s, w, op, answer, w1);
    } else {
        lemma_work_of_seek(b, s, w, op, answer, w1);
    }
}

proof fn lemma_ends<E>(
    b: Start,
    s: ChunkedTmpFileCryptoWriter,
    w: ChunkFiles,
    step: Step<ChunkedOp, E>,
    n: nat,
    s2: ChunkedTmpFileCryptoWriter,
    w2: ChunkFiles,
    step2: Step<ChunkedOp, E>,
)
    requires
        holds(b, s, w, step),
        work_left(b, s, w, step) >= 0,
        drives(b.data, s, w, step, n, s2, w2, step2),
    ensures
        n <= work_left(b, s, w, step),
    decreases n,
{
    if n > 0 {
        let op = step->Perform_0;
        let (answer, w1) = choose|answer: Result<ChunkedReply, E>, w1: ChunkFiles| #[trigger]
            does(op.task, b.data, w, answer, w1) && (answer matches Ok(reply) ==> s.fits(op, reply))
                && drives(
                b.data,
                s.resumed(op, answer).0,
                w1,
                s.resumed(op, answer).1,
                (n - 1) as nat,
                s2,
                w2,
                step2,
            );
        lemma_work_left(b, s, w, op, answer, w1);
        lemma_step(b, s, w, op, answer, w1);
        lemma_ends(
            b,
            s.resumed(op, answer).0,
            w1,
            s.resumed(op, answer).1,
            (n - 1) as nat,
            s2,
            w2,
            step2,
        );
    }
}

/// Chunks with the same files and the same bytes are the same.
pub(crate) proof fn lemma_same_cells(m1: Map<int, Seq<u8>>, m2: Map<int, Seq<u8>>, chunk_size: u64)
    requires
        bounded(m1, chunk_size),
        bounded(m2, chunk_size),
        forall|k: int| #[trigger] m1.dom().contains(k) <==> m2.dom().contains(k),
        forall|k: int, i: int|
            0 <= i < chunk_size ==> #[trigger] cell(m1, k, i) == cell(m2, k, i),
    ensures
        m1 == m2,
{
    assert forall|k: int| m1.dom().contains(k) implies #[trigger] m1[k] == m2[k] by {
        let a = m1[k];
        let b = m2[k];
        if a.len() < b.len() {
            assert(cell(m1, k, a.len() as int) == cell(m2, k, a.len() as int));
        } else if b.len() < a.len() {
            assert(cell(m1, k, b.len() as int) == cell(m2, k, b.len() as int));
        }
        assert forall|i: int| 0 <= i < a.len() implies a[i] == b[i] by {
            assert(cell(m1, k, i) == cell(m2, k, i));
        }
        assert(a =~= b);
    }
    assert(m1.dom() =~= m2.dom());
    assert(m1 =~= m2);
}

/// The chunk and the place in it that position `x` stands for.
pub(crate) proof fn lemma_place_of(x: int, chunk_size: u64)
    requires
        0 <= x,
        0 < chunk_size,
    ensures
        x == (x / chunk_size as int) * chunk_size + x % chunk_size as int,
        0 <= x % (chunk_size as int) < chunk_size,
{
    let cs = chunk_size as int;
    lemma_fundamental_div_mod(x, cs);
    lemma_mod_bound(x, cs);
    assert(cs * (x / cs) == (x / cs) * cs) by (nonlinear_arith);
}

/// Whether the bytes of `data` were written where the writer stood: over what stood there, however
/// many chunks they span, with the writer behind them. The chunks that have files are those that
/// had and those that the bytes lie in. If a chunk is open behind them, it is the one that the last
/// of them lies in, and it has room left. Without bytes nothing changes.
pub open spec fn has_written(
    s: ChunkedTmpFileCryptoWriter,
    w: ChunkFiles,
    data: Seq<u8>,
    s2: ChunkedTmpFileCryptoWriter,
    w2: ChunkFiles,
) -> bool {
    &&& consistent(s2, w2)
    &&& s2.chunk_size == s.chunk_size
    &&& w2.capacity == w.capacity
    &&& w2.lost == w.lost
    &&& position(s2, w2) == position(s, w) + data.len()
    &&& data.len() > 0 && s2.writer ==> 0 < w2.open.at < s.chunk_size
    &&& data.len() == 0 ==> s2 == s && w2 == w
    &&& forall|x: int|
        0 <= x ==> #[trigger] byte(view(s2, w2), s.chunk_size, x) == (if position(s, w) <= x
            < position(s, w) + data.len() {
            Some(data[x - position(s, w)])
        } else {
            byte(view(s, w), s.chunk_size, x)
        })
    &&& forall|k: int| #[trigger]
        view(s2, w2).dom().contains(k) <==> view(s, w).dom().contains(k) || covers(
            s.chunk_size,
            position(s, w),
            data.len() as int,
            k,
        )
}

/// The goal of writing `data`.
pub open spec fn write_goal(data: Seq<u8>) -> ChunkedGoal {
    ChunkedGoal::Write { len: data.len() as usize, start: 0, written: 0 }
}

/// A write writes the bytes that it reports, the first ones of those it was given. It takes at
/// least one if there is one, and all of them if no inner write in a chunk is short.
pub proof fn law_write_overwrites<E>(
    s: ChunkedTmpFileCryptoWriter,
    w: ChunkFiles,
    data: Seq<u8>,
    n: nat,
    s2: ChunkedTmpFileCryptoWriter,
    w2: ChunkFiles,
    reported: u64,
)
    requires
        consistent(s, w),
        data.len() <= usize::MAX,
        runs::<E>(data, s, w, write_goal(data), n, s2, w2, Step::Done(reported)),
    ensures
        reported == position(s2, w2) - position(s, w),
        reported <= data.len(),
        data.len() > 0 ==> reported > 0,
        s.chunk_size <= w.capacity ==> reported == data.len(),
        has_written(s, w, data.subrange(0, reported as int), s2, w2),
{
    let b = Start { goal: write_goal(data), data, s, w, target: 0 };
    lemma_run::<E>(b, n, s2, w2, Step::Done(reported));
    let part = data.subrange(0, reported as int);
    assert forall|x: int| 0 <= x implies #[trigger] byte(view(s2, w2), s.chunk_size, x) == (
    if position(s, w) <= x < position(s, w) + part.len() {
        Some(part[x - position(s, w)])
    } else {
        byte(view(s, w), s.chunk_size, x)
    }) by {
        lemma_place_of(x, s.chunk_size);
    }
}

/// Whether an operation with `goal` is a seek to `target`.
pub open spec fn aims(
    s: ChunkedTmpFileCryptoWriter,
    w: ChunkFiles,
    goal: ChunkedGoal,
    target: u64,
) -> bool {
    match goal {
        ChunkedGoal::Seek { target: t } => t == target,
        ChunkedGoal::SeekBy { offset } => moved(position(s, w) as u64, offset) == Some(target),
        _ => false,
    }
}

/// Whether a seek to `target` writes a zero byte at position `x` if there is none: between the
/// current chunk, or the target's if that comes first, and the target. Chunks in between that
/// already have a file keep its length.
pub open spec fn zeroed(
    s: ChunkedTmpFileCryptoWriter,
    w: ChunkFiles,
    target: u64,
    x: int,
) -> bool {
    let chunk = x / s.chunk_size as int;
    let last = (target / s.chunk_size) as int;
    &&& x < target
    &&& s.chunk_index <= chunk || last <= chunk
    &&& chunk == s.chunk_index || chunk == last || !w.files.dom().contains(chunk)
}

/// Whether the writer was moved to `target`: every byte is kept, and what was missing before the
/// target is zero. The target's chunk is open, or the current one if the writer was there already.
/// The chunks that have files are those that had, the current one, and, if the writer was not there
/// already, the target's and those in between.
pub open spec fn has_sought(
    s: ChunkedTmpFileCryptoWriter,
    w: ChunkFiles,
    target: u64,
    s2: ChunkedTmpFileCryptoWriter,
    w2: ChunkFiles,
) -> bool {
    let last = (target / s.chunk_size) as int;
    &&& consistent(s2, w2)
    &&& s2.chunk_size == s.chunk_size
    &&& w2.capacity == w.capacity
    &&& w2.lost == w.lost
    &&& position(s2, w2) == target
    &&& s2.writer
    &&& s2.chunk_index == (if target == position(s, w) {
        s.chunk_index as int
    } else {
        last
    })
    &&& forall|x: int|
        0 <= x ==> #[trigger] byte(view(s2, w2), s.chunk_size, x) == (if byte(
            view(s, w),
            s.chunk_size,
            x,
        ) is None && zeroed(s, w, target, x) {
            Some(0u8)
        } else {
            byte(view(s, w), s.chunk_size, x)
        })
    &&& forall|k: int| #[trigger]
        view(s2, w2).dom().contains(k) <==> view(s, w).dom().contains(k) || k == s.chunk_index
            || target != position(s, w) && (k == last || s.chunk_index < k < last)
}

/// A seek moves the writer to its target and reports it.
pub proof fn law_seek_keeps_bytes<E>(
    s: ChunkedTmpFileCryptoWriter,
    w: ChunkFiles,
    goal: ChunkedGoal,
    target: u64,
    n: nat,
    s2: ChunkedTmpFileCryptoWriter,
    w2: ChunkFiles,
    reported: u64,
)
    requires
        consistent(s, w),
        aims(s, w, goal, target),
        runs::<E>(Seq::empty(), s, w, goal, n, s2, w2, Step::Done(reported)),
    ensures
        reported == target,
        has_sought(s, w, target, s2, w2),
{
    let b = Start { goal, data: Seq::empty(), s, w, target };
    lemma_run::<E>(b, n, s2, w2, Step::Done(reported));
    lemma_target(b);
    let cs = s.chunk_size as int;
    assert forall|x: int| 0 <= x implies #[trigger] byte(view(s2, w2), s.chunk_size, x) == (if byte(
        view(s, w),
        s.chunk_size,
        x,
    ) is None && zeroed(s, w, target, x) {
        Some(0u8)
    } else {
        byte(view(s, w), s.chunk_size, x)
    }) by {
        lemma_place_of(x, s.chunk_size);
        lemma_places(cs, b.last(), x / cs, x % cs);
    }
}

/// Asking for the position gives where the next byte goes and changes no byte. At most an empty
/// file for the current chunk is created.
pub proof fn law_pos_is_position<E>(
    s: ChunkedTmpFileCryptoWriter,
    w: ChunkFiles,
    n: nat,
    s2: ChunkedTmpFileCryptoWriter,
    w2: ChunkFiles,
    reported: u64,
)
    requires
        consistent(s, w),
        runs::<E>(Seq::empty(), s, w, ChunkedGoal::Pos, n, s2, w2, Step::Done(reported)),
    ensures
        reported == position(s, w),
        consistent(s2, w2),
        w2.capacity == w.capacity && w2.lost == w.lost,
        s2 == (ChunkedTmpFileCryptoWriter { writer: true, ..s }),
        position(s2, w2) == position(s, w),
        view(s2, w2) == with_file(view(s, w), s.chunk_index as int),
        forall|x: int|
            0 <= x ==> #[trigger] byte(view(s2, w2), s.chunk_size, x) == byte(
                view(s, w),
                s.chunk_size,
                x,
            ),
{
    let b = Start { goal: ChunkedGoal::Pos, data: Seq::empty(), s, w, target: 0 };
    lemma_run::<E>(b, n, s2, w2, Step::Done(reported));
    let m = with_file(view(s, w), s.chunk_index as int);
    assert forall|k: int, i: int| 0 <= i < s.chunk_size implies #[trigger] cell(
        view(s2, w2),
        k,
        i,
    ) == cell(m, k, i) by {}
    lemma_same_cells(view(s2, w2), m, s.chunk_size);
    assert forall|x: int| 0 <= x implies #[trigger] byte(view(s2, w2), s.chunk_size, x) == byte(
        view(s, w),
        s.chunk_size,
        x,
    ) by {
        lemma_place_of(x, s.chunk_size);
    }
}

/// A flush changes neither the chunks nor the writer.
pub proof fn law_flush_changes_nothing<E>(
    s: ChunkedTmpFileCryptoWriter,
    w: ChunkFiles,
    n: nat,
    s2: ChunkedTmpFileCryptoWriter,
    w2: ChunkFiles,
    v: u64,
)
    requires
        consistent(s, w),
        runs::<E>(Seq::empty(), s, w, ChunkedGoal::Flush, n, s2, w2, Step::Done(v)),
    ensures
        s2 == s,
        w2 == w,
{
    let b = Start { goal: ChunkedGoal::Flush, data: Seq::empty(), s, w, target: 0 };
    lemma_run::<E>(b, n, s2, w2, Step::Done(v));
}

/// Once a writer is finished, no inner writer is open, and the files are the chunks that were
/// written, with an empty first one if there was none. If closing the inner writer failed, that is
/// true of every byte outside the current chunk.
pub proof fn law_finish_stores_bytes<E>(
    s: ChunkedTmpFileCryptoWriter,
    w: ChunkFiles,
    n: nat,
    s2: ChunkedTmpFileCryptoWriter,
    w2: ChunkFiles,
    v: u64,
)
    requires
        consistent(s, w),
        !w.lost,
        runs::<E>(Seq::empty(), s, w, ChunkedGoal::Finish, n, s2, w2, Step::Done(v)),
    ensures
        !s2.writer,
        w2.files.dom().contains(0),
        !w2.lost ==> w2.files == with_file(view(s, w), 0),
        forall|x: int|
            0 <= x && (!w2.lost || x / s.chunk_size as int != s.chunk_index) ==> #[trigger] byte(
                w2.files,
                s.chunk_size,
                x,
            ) == byte(view(s, w), s.chunk_size, x),
{
    let b = Start { goal: ChunkedGoal::Finish, data: Seq::empty(), s, w, target: 0 };
    lemma_run::<E>(b, n, s2, w2, Step::Done(v));
    assert forall|x: int|
        0 <= x && (!w2.lost || x / s.chunk_size as int != s.chunk_index) implies #[trigger] byte(
        w2.files,
        s.chunk_size,
        x,
    ) == byte(view(s, w), s.chunk_size, x) by {
        lemma_place_of(x, s.chunk_size);
    }
}

/// A write ends: it asks for no more work than grows with the number of its bytes.
pub proof fn law_write_ends<E>(
    s: ChunkedTmpFileCryptoWriter,
    w: ChunkFiles,
    data: Seq<u8>,
    n: nat,
    s2: ChunkedTmpFileCryptoWriter,
    w2: ChunkFiles,
    step2: Step<ChunkedOp, E>,
)
    requires
        consistent(s, w),
        data.len() <= usize::MAX,
        runs(data, s, w, write_goal(data), n, s2, w2, step2),
    ensures
        n <= 20 * data.len() + 13,
{
    let goal = write_goal(data);
    let b = Start { goal, data, s, w, target: 0 };
    let (s1, step1) = s.started::<E>(goal);
    lemma_start::<E>(b);
    lemma_ends(b, s1, w, step1, n, s2, w2, step2);
}

/// A seek ends: it asks for no more work than grows with the number of chunks that it passes.
pub proof fn law_seek_ends<E>(
    s: ChunkedTmpFileCryptoWriter,
    w: ChunkFiles,
    goal: ChunkedGoal,
    target: u64,
    n: nat,
    s2: ChunkedTmpFileCryptoWriter,
    w2: ChunkFiles,
    step2: Step<ChunkedOp, E>,
)
    requires
        consistent(s, w),
        aims(s, w, goal, target),
        runs(Seq::empty(), s, w, goal, n, s2, w2, step2),
    ensures
        s.chunk_index <= target / s.chunk_size ==> n <= 5 * (target / s.chunk_size - s.chunk_index)
            + 12,
        s.chunk_index > target / s.chunk_size ==> n <= 12,
{
    let b = Start { goal, data: Seq::empty(), s, w, target };
    let (s1, step1) = s.started::<E>(goal);
    lemma_start::<E>(b);
    lemma_ends(b, s1, w, step1, n, s2, w2, step2);
}

/// Every chunk that a seek opens a writer for begins at a position, before or at the target or
/// where the writer stood.
pub proof fn law_seek_opens_reachable_chunks<E>(
    s: ChunkedTmpFileCryptoWriter,
    w: ChunkFiles,
    goal: ChunkedGoal,
    target: u64,
    n: nat,
    s2: ChunkedTmpFileCryptoWriter,
    w2: ChunkFiles,
    op: ChunkedOp,
)
    requires
        consistent(s, w),
        aims(s, w, goal, target),
        runs::<E>(Seq::empty(), s, w, goal, n, s2, w2, Step::Perform(op)),
    ensures
        op.task matches ChunkedTask::OpenWriter { chunk } ==> chunk * s.chunk_size == s.base(),
        op.task matches ChunkedTask::SwitchWriter { chunk } ==> chunk * s.chunk_size <= target,
        op.task matches ChunkedTask::CreateGap { chunk } ==> chunk * s.chunk_size <= target,
{
    let b = Start { goal, data: Seq::empty(), s, w, target };
    lemma_run::<E>(b, n, s2, w2, Step::Perform(op));
    lemma_target(b);
    match op.task {
        ChunkedTask::CreateGap { chunk } => {
            lemma_places(s.chunk_size as int, b.last(), chunk as int, 0);
        },
        _ => {},
    }
}

/// What was written to a chunk is in its file as soon as the writer has gone on to another one.
pub proof fn law_other_chunks_are_stored(s: ChunkedTmpFileCryptoWriter, w: ChunkFiles, x: int)
    requires
        consistent(s, w),
        x / s.chunk_size as int != s.chunk_index,
    ensures
        byte(w.files, s.chunk_size, x) == byte(view(s, w), s.chunk_size, x),
{
}

/// The numbers that a write meets fit, if the position behind its bytes does.
pub proof fn law_numbers_of_a_write_fit<E>(
    s: ChunkedTmpFileCryptoWriter,
    w: ChunkFiles,
    data: Seq<u8>,
    n: nat,
    s2: ChunkedTmpFileCryptoWriter,
    w2: ChunkFiles,
    op: ChunkedOp,
    reply: ChunkedReply,
    w3: ChunkFiles,
)
    requires
        consistent(s, w),
        data.len() <= usize::MAX,
        position(s, w) + data.len() <= u64::MAX,
        runs::<E>(data, s, w, write_goal(data), n, s2, w2, Step::Perform(op)),
        does::<E>(op.task, data, w2, Ok(reply), w3),
    ensures
        s2.fits(op, reply),
{
    let b = Start { goal: write_goal(data), data, s, w, target: 0 };
    lemma_run::<E>(b, n, s2, w2, Step::Perform(op));
}

/// The numbers that a seek meets fit, if the position that it starts from does.
pub proof fn law_numbers_of_a_seek_fit<E>(
    s: ChunkedTmpFileCryptoWriter,
    w: ChunkFiles,
    target: u64,
    n: nat,
    s2: ChunkedTmpFileCryptoWriter,
    w2: ChunkFiles,
    op: ChunkedOp,
    reply: ChunkedReply,
    w3: ChunkFiles,
)
    requires
        consistent(s, w),
        position(s, w) <= u64::MAX,
        runs::<E>(
            Seq::empty(),
            s,
            w,
            ChunkedGoal::Seek { target },
            n,
            s2,
            w2,
            Step::Perform(op),
        ),
        does::<E>(op.task, Seq::empty(), w2, Ok(reply), w3),
    ensures
        s2.fits(op, reply),
{
    let b = Start { goal: ChunkedGoal::Seek { target }, data: Seq::empty(), s, w, target };
    lemma_run::<E>(b, n, s2, w2, Step::Perform(op));
}

/// A seek by an offset moves the writer by that offset and reports where it then is; the numbers
/// that it meets fit.
pub proof fn law_relative_seek_adds_the_offset<E>(
    s: ChunkedTmpFileCryptoWriter,
    w: ChunkFiles,
    offset: i64,
    n: nat,
    s2: ChunkedTmpFileCryptoWriter,
    w2: ChunkFiles,
    step2: Step<ChunkedOp, E>,
)
    requires
        consistent(s, w),
        position(s, w) <= i64::MAX,
        0 <= position(s, w) + offset <= i64::MAX,
        runs(Seq::empty(), s, w, ChunkedGoal::SeekBy { offset }, n, s2, w2, step2),
    ensures
        step2 matches Step::Done(reported) ==> {
            &&& reported == position(s, w) + offset
            &&& position(s2, w2) == position(s, w) + offset
            &&& has_sought(s, w, reported, s2, w2)
        },
        step2 matches Step::Perform(op) ==> forall|reply: ChunkedReply, w3: ChunkFiles| #[trigger]
            does::<E>(op.task, Seq::empty(), w2, Ok(reply), w3) ==> s2.fits(op, reply),
{
    let goal = ChunkedGoal::SeekBy { offset };
    let target = (position(s, w) + offset) as u64;
    law_relative_position_is_the_sum(position(s, w) as u64, offset);
    let b = Start { goal, data: Seq::empty(), s, w, target };
    match step2 {
        Step::Done(reported) => {
            law_seek_keeps_bytes::<E>(s, w, goal, target, n, s2, w2, reported);
        },
        _ => {
            lemma_run(b, n, s2, w2, step2);
        },
    }
}

/// A seek by an offset to a negative position is refused as soon as the position is known. At most
/// the current chunk is opened for that.
pub proof fn law_negative_seek_is_refused<E>(
    s: ChunkedTmpFileCryptoWriter,
    w: ChunkFiles,
    offset: i64,
    n: nat,
    s2: ChunkedTmpFileCryptoWriter,
    w2: ChunkFiles,
    step2: Step<ChunkedOp, E>,
)
    requires
        consistent(s, w),
        position(s, w) <= i64::MAX,
        position(s, w) + offset < 0,
        runs(Seq::empty(), s, w, ChunkedGoal::SeekBy { offset }, n, s2, w2, step2),
    ensures
        n <= 2,
        !(step2 is Done),
        step2 matches Step::Perform(op) ==> op.task is OpenWriter || op.task is Position,
        step2 matches Step::Failed(f) ==> f is Outside || f is SeekBeforeStart,
        s2 == s || s2 == (ChunkedTmpFileCryptoWriter { writer: true, ..s }),
{
    reveal_with_fuel(drives, 4);
    law_relative_position_is_the_sum(position(s, w) as u64, offset);
}

/// Whenever a write waits for work, the bytes up to the position are written and every other byte
/// is as it was; so they are if the write fails then.
pub proof fn law_interrupted_write_keeps_the_rest<E>(
    s: ChunkedTmpFileCryptoWriter,
    w: ChunkFiles,
    data: Seq<u8>,
    n: nat,
    s2: ChunkedTmpFileCryptoWriter,
    w2: ChunkFiles,
    op: ChunkedOp,
)
    requires
        consistent(s, w),
        data.len() <= usize::MAX,
        runs::<E>(data, s, w, write_goal(data), n, s2, w2, Step::Perform(op)),
    ensures
        consistent(s2, w2),
        position(s, w) <= position(s2, w2) <= position(s, w) + data.len(),
        forall|x: int|
            0 <= x ==> #[trigger] byte(view(s2, w2), s.chunk_size, x) == (if position(s, w) <= x
                < position(s2, w2) {
                Some(data[x - position(s, w)])
            } else {
                byte(view(s, w), s.chunk_size, x)
            }),
{
    let b = Start { goal: write_goal(data), data, s, w, target: 0 };
    lemma_run::<E>(b, n, s2, w2, Step::Perform(op));
    assert forall|x: int| 0 <= x implies #[trigger] byte(view(s2, w2), s.chunk_size, x) == (
    if position(s, w) <= x < position(s2, w2) {
        Some(data[x - position(s, w)])
    } else {
        byte(view(s, w), s.chunk_size, x)
    }) by {
        lemma_place_of(x, s.chunk_size);
    }
}

/// Whenever a seek waits for work, every byte that was there still is, in the files or in the
/// writer that is open or being given up.
pub proof fn law_interrupted_seek_keeps_bytes<E>(
    s: ChunkedTmpFileCryptoWriter,
    w: ChunkFiles,
    goal: ChunkedGoal,
    target: u64,
    n: nat,
    s2: ChunkedTmpFileCryptoWriter,
    w2: ChunkFiles,
    op: ChunkedOp,
    x: int,
)
    requires
        consistent(s, w),
        aims(s, w, goal, target),
        runs::<E>(Seq::empty(), s, w, goal, n, s2, w2, Step::Perform(op)),
        0 <= x,
        byte(view(s, w), s.chunk_size, x) is Some,
    ensures
        byte(
            if op.task is FlushOld || op.task is FinishOld {
                stored(w2)
            } else {
                view(s2, w2)
            },
            s.chunk_size,
            x,
        ) == byte(view(s, w), s.chunk_size, x),
{
    let b = Start { goal, data: Seq::empty(), s, w, target };
    lemma_run::<E>(b, n, s2, w2, Step::Perform(op));
    lemma_place_of(x, s.chunk_size);
}

/// A question for the position ends after at most two pieces of work, and closing a writer for good
/// after at most five.
pub proof fn law_other_operations_end<E>(
    s: ChunkedTmpFileCryptoWriter,
    w: ChunkFiles,
    goal: ChunkedGoal,
    n: nat,
    s2: ChunkedTmpFileCryptoWriter,
    w2: ChunkFiles,
    step2: Step<ChunkedOp, E>,
)
    requires
        consistent(s, w),
        !w.lost,
        goal is Pos || goal is Finish,
        runs(Seq::empty(), s, w, goal, n, s2, w2, step2),
    ensures
        goal is Pos ==> n <= 2,
        goal is Finish ==> n <= 5,
{
    let b = Start { goal, data: Seq::empty(), s, w, target: 0 };
    if goal is Pos {
        reveal_with_fuel(drives, 4);
    } else {
        let (s1, step1) = s.started::<E>(goal);
        lemma_start::<E>(b);
        lemma_ends(b, s1, w, step1, n, s2, w2, step2);
    }
}

/// A seek to where the writer stands asks for nothing but where that is, and for the chunk at hand
/// to be open.
pub proof fn law_standing_seek_asks_for_the_position<E>(
    s: ChunkedTmpFileCryptoWriter,
    w: ChunkFiles,
    goal: ChunkedGoal,
    target: u64,
    n: nat,
    s2: ChunkedTmpFileCryptoWriter,
    w2: ChunkFiles,
    op: ChunkedOp,
)
    requires
        consistent(s, w),
        aims(s, w, goal, target),
        target == position(s, w),
        runs::<E>(Seq::empty(), s, w, goal, n, s2, w2, Step::Perform(op)),
    ensures
        op.task is Position || op.task == (ChunkedTask::OpenWriter { chunk: s.chunk_index }),
        s2.chunk_index == s.chunk_index,
{
    let b = Start { goal, data: Seq::empty(), s, w, target };
    lemma_run::<E>(b, n, s2, w2, Step::Perform(op));
}

} // verus!
