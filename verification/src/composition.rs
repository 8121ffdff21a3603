//! How the writers serve each other.
//!
//! The writer of a chunk is a [`TmpFileCryptoWriter`]: what its operations come to is what a
//! [`ChunkedTmpFileCryptoWriter`] counts on. The writer of a temporary file is a
//! [`RingCryptoWriter`](crate::ring_writer::RingCryptoWriter): the plain bytes that the temporary
//! file stands for are those that the writer was given.

use crate::chunk_writer::{chunk_len, law_chunk_len_covers_chunk};
use crate::chunked::{ChunkedReply, ChunkedTask, ChunkedTmpFileCryptoWriter, CHUNK_SIZE};
use crate::chunked_laws::{
    self, does, moved_files, opened, stored, with_file, write_goal, ChunkFiles, OpenChunk,
};
use crate::outcome::{Failure, Step};
use crate::ring_laws::{
    law_finish_sends_everything, law_write_appends, runs as ring_runs, stands_for,
};
use crate::ring_writer::{RingGoal, RingNext, RingView, BUF_SIZE};
use crate::stream::reads;
use crate::tmp_file::{TmpFileCryptoWriter, TmpGoal, TmpOp, TmpReply, TmpTask};
use crate::tmp_file_laws::{
    self, consistent, content, drives, law_file_is_replaced_as_a_whole, law_finish_stores_content,
    law_flush_changes_nothing, law_seek_keeps_content, law_write_overwrites, TmpFiles,
};
use vstd::prelude::*;

verus! {

/// Whether the inner writer of `w` is `s`, with `f` as its files.
pub open spec fn shows(w: ChunkFiles, s: TmpFileCryptoWriter, f: TmpFiles) -> bool {
    &&& consistent(s, f)
    &&& w.capacity == f.capacity
    &&& w.open.content == content(s, f)
    &&& w.open.at == s.position()
    &&& w.files.dom().contains(w.open.chunk)
    &&& w.files[w.open.chunk] == f.file
}

/// The chunks when their inner writer has become `s` with the files `f`.
pub open spec fn updated(w: ChunkFiles, s: TmpFileCryptoWriter, f: TmpFiles) -> ChunkFiles {
    ChunkFiles {
        files: w.files.insert(w.open.chunk, f.file),
        open: OpenChunk { content: content(s, f), at: s.position() as nat, ..w.open },
        ..w
    }
}

/// The operation of an inner writer with `goal`, from its start to its end with `v`.
pub open spec fn completes<E>(
    data: Seq<u8>,
    s: TmpFileCryptoWriter,
    f: TmpFiles,
    goal: TmpGoal,
    n: nat,
    s2: TmpFileCryptoWriter,
    f2: TmpFiles,
    v: u64,
) -> bool {
    drives(
        data,
        s.started::<E>(goal).0,
        f,
        s.started::<E>(goal).1,
        n,
        s2,
        f2,
        Step::<TmpOp, E>::Done(v),
    )
}

/// A new inner writer on the file of a chunk is what opening a writer for the chunk is to give.
pub proof fn law_new_inner_writer_serves<E>(
    w: ChunkFiles,
    data: Seq<u8>,
    chunk: u64,
    s: TmpFileCryptoWriter,
    f: TmpFiles,
    w2: ChunkFiles,
)
    requires
        !s.writer,
        consistent(s, f),
        w.capacity == f.capacity,
        f.file == with_file(w.files, chunk as int)[chunk as int],
        w2 == (ChunkFiles {
            files: with_file(w.files, chunk as int),
            open: OpenChunk { chunk: chunk as int, content: content(s, f), at: 0 },
            ..w
        }),
    ensures
        does::<E>(
            ChunkedTask::OpenWriter { chunk },
            data,
            w,
            Ok(ChunkedReply::Completed),
            w2,
        ),
        does::<E>(
            ChunkedTask::SwitchWriter { chunk },
            data,
            w,
            Ok(ChunkedReply::Completed),
            w2,
        ),
        chunk == 0 ==> does::<E>(
            ChunkedTask::RestartWriter,
            data,
            w,
            Ok(ChunkedReply::Completed),
            w2,
        ),
        shows(w2, s, f),
{
    assert(w2.open =~= opened(w.files, chunk as int));
}

/// A write of an inner writer does what writing to the current chunk is to do.
pub proof fn law_inner_write_serves<E, F>(
    w: ChunkFiles,
    s: TmpFileCryptoWriter,
    f: TmpFiles,
    data: Seq<u8>,
    start: usize,
    end: usize,
    n: nat,
    s2: TmpFileCryptoWriter,
    f2: TmpFiles,
    v: u64,
)
    requires
        shows(w, s, f),
        start <= end <= data.len(),
        completes::<F>(
            data.subrange(start as int, end as int),
            s,
            f,
            TmpGoal::Write,
            n,
            s2,
            f2,
            v,
        ),
    ensures
        v <= end - start,
        exists|w2: ChunkFiles| #[trigger]
            shows(w2, s2, f2) && does::<E>(
                ChunkedTask::WriteInner { start, end },
                data,
                w,
                Ok(ChunkedReply::Wrote(v as usize)),
                w2,
            ),
{
    let part = data.subrange(start as int, end as int);
    law_write_overwrites::<F>(s, f, part, n, s2, f2, v);
    let w2 = updated(w, s2, f2);
    assert(part.subrange(0, v as int) =~= data.subrange(start as int, start + v));
    assert(w2.files =~= w.files);
    assert(shows(w2, s2, f2));
}

/// A seek of an inner writer does what moving in the current chunk is to do.
pub proof fn law_inner_seek_serves<E, F>(
    w: ChunkFiles,
    s: TmpFileCryptoWriter,
    f: TmpFiles,
    data: Seq<u8>,
    to: u64,
    n: nat,
    s2: TmpFileCryptoWriter,
    f2: TmpFiles,
    v: u64,
)
    requires
        shows(w, s, f),
        completes::<F>(Seq::empty(), s, f, TmpGoal::Seek { target: to }, n, s2, f2, v),
    ensures
        does::<E>(
            ChunkedTask::SeekInner { to },
            data,
            w,
            Ok(ChunkedReply::Completed),
            updated(w, s2, f2),
        ),
        does::<E>(
            ChunkedTask::FillChunk { to },
            data,
            w,
            Ok(ChunkedReply::Completed),
            updated(w, s2, f2),
        ),
        shows(updated(w, s2, f2), s2, f2),
{
    law_seek_keeps_content::<F>(s, f, to, n, s2, f2, v);
    let w2 = updated(w, s2, f2);
    if f2.file == f.file {
        assert(w2.files =~= w.files);
    } else {
        assert(w2.files =~= stored(w));
    }
    assert(moved_files(w, w2.files));
}

/// Finishing an inner writer brings what was written to the chunk into its file.
pub proof fn law_inner_finish_serves<E, F>(
    w: ChunkFiles,
    s: TmpFileCryptoWriter,
    f: TmpFiles,
    data: Seq<u8>,
    task: ChunkedTask,
    n: nat,
    s2: TmpFileCryptoWriter,
    f2: TmpFiles,
    v: u64,
)
    requires
        shows(w, s, f),
        task is FinishFull || task is FinishOld || task is FinishEnd,
        completes::<F>(Seq::empty(), s, f, TmpGoal::Finish, n, s2, f2, v),
    ensures
        does::<E>(
            task,
            data,
            w,
            Ok(ChunkedReply::Completed),
            ChunkFiles { files: w.files.insert(w.open.chunk, f2.file), ..w },
        ),
{
    law_finish_stores_content::<F>(s, f, n, s2, f2, v);
}

/// If finishing an inner writer fails, the file of its chunk is still replaced as a whole or not at
/// all.
pub proof fn law_failed_inner_finish_serves<E, F>(
    w: ChunkFiles,
    s: TmpFileCryptoWriter,
    f: TmpFiles,
    data: Seq<u8>,
    n: nat,
    s2: TmpFileCryptoWriter,
    f2: TmpFiles,
    failure: Failure<F>,
    e: E,
)
    requires
        shows(w, s, f),
        drives(
            Seq::empty(),
            s.started::<F>(TmpGoal::Finish).0,
            f,
            s.started::<F>(TmpGoal::Finish).1,
            n,
            s2,
            f2,
            Step::<TmpOp, F>::Failed(failure),
        ),
    ensures
        does::<E>(
            ChunkedTask::FinishEnd,
            data,
            w,
            Err(e),
            ChunkFiles { files: w.files.insert(w.open.chunk, f2.file), lost: true, ..w },
        ),
{
    law_file_is_replaced_as_a_whole::<F>(
        s,
        f,
        TmpGoal::Finish,
        Seq::empty(),
        n,
        s2,
        f2,
        Step::Failed(failure),
    );
    if f2.file == f.file {
        assert(w.files.insert(w.open.chunk, f2.file) =~= w.files);
    } else {
        assert(w.files.insert(w.open.chunk, f2.file) =~= stored(w));
    }
}

/// A flush of an inner writer changes nothing about its chunk.
pub proof fn law_inner_flush_serves<E, F>(
    w: ChunkFiles,
    s: TmpFileCryptoWriter,
    f: TmpFiles,
    data: Seq<u8>,
    task: ChunkedTask,
    n: nat,
    s2: TmpFileCryptoWriter,
    f2: TmpFiles,
    v: u64,
)
    requires
        shows(w, s, f),
        task is FlushFull || task is FlushOld || task is FlushEnd || task is FlushWriter,
        completes::<F>(Seq::empty(), s, f, TmpGoal::Flush, n, s2, f2, v),
    ensures
        does::<E>(task, data, w, Ok(ChunkedReply::Completed), w),
        shows(w, s2, f2),
{
    law_flush_changes_nothing::<F>(s, f, n, s2, f2, v);
}

/// An inner writer that is asked to move where it is says where that is.
pub proof fn law_inner_position_serves<E, F>(
    w: ChunkFiles,
    s: TmpFileCryptoWriter,
    f: TmpFiles,
    data: Seq<u8>,
    task: ChunkedTask,
)
    requires
        shows(w, s, f),
        task is Position || task is PositionAfter,
    ensures
        s.started::<F>(TmpGoal::Seek { target: s.position() }) == (
            s,
            Step::<TmpOp, F>::Done(s.position()),
        ),
        does::<E>(task, data, w, Ok(ChunkedReply::At(s.position())), w),
{
}

/// Whether the passing writer of `w` is `s`, with `f` as its files.
pub open spec fn shows_gap(w: ChunkFiles, s: TmpFileCryptoWriter, f: TmpFiles) -> bool {
    &&& consistent(s, f)
    &&& w.gap.content == content(s, f)
    &&& w.gap.at == s.position()
    &&& w.files.dom().contains(w.gap.chunk)
    &&& w.files[w.gap.chunk] == f.file
}

/// A new writer on the file of a chunk is what opening a passing writer is to give.
pub proof fn law_new_passing_writer_serves<E>(
    w: ChunkFiles,
    data: Seq<u8>,
    chunk: u64,
    s: TmpFileCryptoWriter,
    f: TmpFiles,
    w2: ChunkFiles,
)
    requires
        !s.writer,
        consistent(s, f),
        f.file == with_file(w.files, chunk as int)[chunk as int],
        w2 == (ChunkFiles {
            files: with_file(w.files, chunk as int),
            gap: OpenChunk { chunk: chunk as int, content: content(s, f), at: 0 },
            ..w
        }),
    ensures
        does::<E>(ChunkedTask::CreateGap { chunk }, data, w, Ok(ChunkedReply::Completed), w2),
        shows_gap(w2, s, f),
{
    assert(w2.gap =~= opened(w.files, chunk as int));
}

/// A seek of a passing writer that stands at the start fills its chunk, and leaves the file alone
/// until the writer is finished.
pub proof fn law_passing_seek_serves<E, F>(
    w: ChunkFiles,
    s: TmpFileCryptoWriter,
    f: TmpFiles,
    data: Seq<u8>,
    chunk: u64,
    to: u64,
    n: nat,
    s2: TmpFileCryptoWriter,
    f2: TmpFiles,
    v: u64,
    w2: ChunkFiles,
)
    requires
        shows_gap(w, s, f),
        s.position() == 0,
        completes::<F>(Seq::empty(), s, f, TmpGoal::Seek { target: to }, n, s2, f2, v),
        w2 == (ChunkFiles {
            gap: OpenChunk { content: content(s2, f2), at: s2.position() as nat, ..w.gap },
            ..w
        }),
    ensures
        does::<E>(ChunkedTask::FillGap { chunk, to }, data, w, Ok(ChunkedReply::Completed), w2),
        shows_gap(w2, s2, f2),
{
    law_seek_keeps_content::<F>(s, f, to, n, s2, f2, v);
}

/// A flush of a passing writer changes nothing about its chunk.
pub proof fn law_passing_flush_serves<E, F>(
    w: ChunkFiles,
    s: TmpFileCryptoWriter,
    f: TmpFiles,
    data: Seq<u8>,
    chunk: u64,
    n: nat,
    s2: TmpFileCryptoWriter,
    f2: TmpFiles,
    v: u64,
)
    requires
        shows_gap(w, s, f),
        completes::<F>(Seq::empty(), s, f, TmpGoal::Flush, n, s2, f2, v),
    ensures
        does::<E>(ChunkedTask::FlushGap { chunk }, data, w, Ok(ChunkedReply::Completed), w),
        shows_gap(w, s2, f2),
{
    law_flush_changes_nothing::<F>(s, f, n, s2, f2, v);
}

/// Finishing a passing writer brings what fills its chunk into the file.
pub proof fn law_passing_finish_serves<E, F>(
    w: ChunkFiles,
    s: TmpFileCryptoWriter,
    f: TmpFiles,
    data: Seq<u8>,
    chunk: u64,
    n: nat,
    s2: TmpFileCryptoWriter,
    f2: TmpFiles,
    v: u64,
)
    requires
        shows_gap(w, s, f),
        completes::<F>(Seq::empty(), s, f, TmpGoal::Finish, n, s2, f2, v),
    ensures
        does::<E>(
            ChunkedTask::FinishGap { chunk },
            data,
            w,
            Ok(ChunkedReply::Completed),
            ChunkFiles { files: w.files.insert(w.gap.chunk, f2.file), ..w },
        ),
{
    law_finish_stores_content::<F>(s, f, n, s2, f2, v);
}

/// A write of a sealing writer does what writing to the temporary file is to do.
pub proof fn law_sealing_write_serves<E, F>(
    s: TmpFileCryptoWriter,
    f: TmpFiles,
    data: Seq<u8>,
    v: RingView,
    first: RingNext<F>,
    out: Seq<u8>,
    n: nat,
    v2: RingView,
    out2: Seq<u8>,
    taken: u64,
)
    requires
        v.open,
        v.capacity == f.capacity,
        stands_for(v, out, f.tmp),
        v.capacity <= u64::MAX,
        data.len() <= usize::MAX,
        s.pos + data.len() <= u64::MAX,
        ring_runs(v, RingGoal::Write, data, first, out, n, (v2, Step::Done(taken)), out2),
    ensures
        taken <= data.len(),
        stands_for(v2, out2, f.tmp + data.subrange(0, taken as int)),
        tmp_file_laws::does::<E>(
            TmpTask::WriteInner,
            data,
            s,
            f,
            Ok(TmpReply::Wrote(taken as usize)),
            s,
            TmpFiles { tmp: f.tmp + data.subrange(0, taken as int), ..f },
        ),
{
    law_write_appends(v, data, f.tmp, first, out, n, v2, out2, taken);
}

/// What a finished sealing writer leaves in the temporary file reads as the plain bytes that the
/// file stands for, and so does the file that it is renamed to.
pub proof fn law_sealing_finish_serves<E, F>(
    s: TmpFileCryptoWriter,
    f: TmpFiles,
    last: u64,
    data: Seq<u8>,
    v: RingView,
    first: RingNext<F>,
    out: Seq<u8>,
    n: nat,
    v2: RingView,
    out2: Seq<u8>,
    r: u64,
)
    requires
        v.open,
        stands_for(v, out, f.tmp),
        ring_runs(v, RingGoal::Finish, Seq::empty(), first, out, n, (v2, Step::Done(r)), out2),
    ensures
        reads(v.cipher, v.key, v.capacity, out2, f.tmp),
        forall|f2: TmpFiles| #[trigger]
            tmp_file_laws::does::<E>(
                TmpTask::Rename { last },
                data,
                s,
                f,
                Ok(TmpReply::Completed),
                s,
                f2,
            ) ==> reads(v.cipher, v.key, v.capacity, out2, f2.file),
{
    law_finish_sends_everything(v, f.tmp, first, out, n, v2, out2, r);
}

/// The size that a chunk is taken to have is what asking for the size of its file is to give: it is
/// not too small. If no other chunk follows, this one ends where the file ends.
pub proof fn law_chunk_len_serves<E>(
    s: TmpFileCryptoWriter,
    f: TmpFiles,
    data: Seq<u8>,
    chunk_index: u64,
    chunk_size: u64,
    size: u64,
    next_exists: bool,
)
    requires
        0 < chunk_size,
        f.file.len() <= chunk_size,
        !next_exists ==> size == chunk_index * chunk_size + f.file.len(),
    ensures
        tmp_file_laws::does::<E>(
            TmpTask::AskSize,
            data,
            s,
            f,
            Ok(TmpReply::Size(chunk_len(chunk_index, chunk_size, size, next_exists))),
            s,
            f,
        ),
{
    law_chunk_len_covers_chunk(
        chunk_index,
        chunk_size,
        f.file.len() as u64,
        size,
        next_exists,
    );
}

/// A block of a sealing writer holds a mebibyte. A chunk is half as large and so fits into one
/// block: no inner write in a chunk is short.
pub proof fn law_chunk_fits_into_a_block()
    ensures
        CHUNK_SIZE <= BUF_SIZE,
        BUF_SIZE == 1024 * 1024,
        2 * CHUNK_SIZE == BUF_SIZE,
{
}

/// A write to chunks of the usual size, sealed in blocks of the usual size, takes everything.
pub proof fn law_usual_write_takes_everything<E>(
    s: ChunkedTmpFileCryptoWriter,
    w: ChunkFiles,
    data: Seq<u8>,
    n: nat,
    s2: ChunkedTmpFileCryptoWriter,
    w2: ChunkFiles,
    reported: u64,
)
    requires
        chunked_laws::consistent(s, w),
        s.chunk_size == CHUNK_SIZE,
        w.capacity == BUF_SIZE,
        data.len() <= usize::MAX,
        chunked_laws::runs::<E>(data, s, w, write_goal(data), n, s2, w2, Step::Done(reported)),
    ensures
        reported == data.len(),
        chunked_laws::has_written(s, w, data, s2, w2),
{
    chunked_laws::law_write_overwrites::<E>(s, w, data, n, s2, w2, reported);
    assert(data.subrange(0, data.len() as int) =~= data);
}

} // verus!
