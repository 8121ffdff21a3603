use crypto_writer::chunked::{
    ChunkedOp, ChunkedReply, ChunkedTask, ChunkedTmpFileCryptoWriter, CHUNK_SIZE,
};
use crypto_writer::outcome::{Failure, SeekFrom, Step};
use std::collections::BTreeMap;

type ChunkedStep = Step<ChunkedOp, &'static str>;

/// A chunk that is being written.
struct Inner {
    chunk: u64,
    content: Vec<u8>,
    at: usize,
}

impl Inner {
    fn write(&mut self, data: &[u8]) {
        let end = self.at + data.len();
        if self.content.len() < end {
            self.content.resize(end, 0);
        }
        self.content[self.at..end].copy_from_slice(data);
        self.at = end;
    }

    fn seek(&mut self, to: u64) {
        if self.content.len() < to as usize {
            self.content.resize(to as usize, 0);
        }
        self.at = to as usize;
    }
}

/// Does the writer's work on chunks in memory.
struct Chunks {
    files: BTreeMap<u64, Vec<u8>>,
    inner: Option<Inner>,
    gap: Option<Inner>,
    log: Vec<ChunkedTask>,
    fail: Option<ChunkedTask>,
    /// The most bytes that one inner write takes.
    most: usize,
}

impl Chunks {
    fn new(files: &[(u64, &[u8])]) -> Chunks {
        Chunks {
            files: files.iter().map(|(k, v)| (*k, v.to_vec())).collect(),
            inner: None,
            gap: None,
            log: Vec::new(),
            fail: None,
            most: usize::MAX,
        }
    }

    fn open(&mut self, chunk: u64) -> Inner {
        let content = self.files.entry(chunk).or_default().clone();
        Inner { chunk, content, at: 0 }
    }

    fn work(&mut self, task: ChunkedTask, data: &[u8]) -> Result<ChunkedReply, &'static str> {
        self.log.push(task);
        if self.fail == Some(task) {
            return Err("failed");
        }
        match task {
            ChunkedTask::OpenWriter { chunk } | ChunkedTask::SwitchWriter { chunk } => {
                self.inner = Some(self.open(chunk))
            }
            ChunkedTask::RestartWriter => self.inner = Some(self.open(0)),
            ChunkedTask::Position | ChunkedTask::PositionAfter => {
                return Ok(ChunkedReply::At(self.inner.as_ref().unwrap().at as u64))
            }
            ChunkedTask::WriteInner { start, end } => {
                let n = (end - start).min(self.most);
                self.inner.as_mut().unwrap().write(&data[start..start + n]);
                return Ok(ChunkedReply::Wrote(n));
            }
            ChunkedTask::FillChunk { to } | ChunkedTask::SeekInner { to } => {
                self.inner.as_mut().unwrap().seek(to)
            }
            ChunkedTask::CheckChunk { chunk } => {
                return Ok(ChunkedReply::Exists(self.files.contains_key(&chunk)))
            }
            ChunkedTask::CreateGap { chunk } => self.gap = Some(self.open(chunk)),
            ChunkedTask::FillGap { to, .. } => self.gap.as_mut().unwrap().seek(to),
            ChunkedTask::FinishGap { .. } => {
                let gap = self.gap.take().unwrap();
                self.files.insert(gap.chunk, gap.content);
            }
            ChunkedTask::FinishFull | ChunkedTask::FinishOld | ChunkedTask::FinishEnd => {
                let inner = self.inner.take().unwrap();
                self.files.insert(inner.chunk, inner.content);
            }
            ChunkedTask::CheckFirst => {
                return Ok(ChunkedReply::Exists(self.files.contains_key(&0)))
            }
            ChunkedTask::CreateFirst => {
                self.files.insert(0, Vec::new());
            }
            _ => {}
        }
        Ok(ChunkedReply::Completed)
    }

    fn run(
        &mut self,
        writer: &mut ChunkedTmpFileCryptoWriter,
        step: ChunkedStep,
        data: &[u8],
    ) -> ChunkedStep {
        let mut step = step;
        while let Step::Perform(op) = step {
            let answer = self.work(op.task, data);
            step = writer.resume(op, answer);
        }
        step
    }

    fn write(&mut self, writer: &mut ChunkedTmpFileCryptoWriter, data: &[u8]) -> ChunkedStep {
        let step = writer.write(data.len());
        self.run(writer, step, data)
    }

    fn seek(&mut self, writer: &mut ChunkedTmpFileCryptoWriter, place: SeekFrom) -> ChunkedStep {
        let step = writer.seek(place);
        self.run(writer, step, &[])
    }

    fn pos(&mut self, writer: &mut ChunkedTmpFileCryptoWriter) -> u64 {
        let step = writer.pos();
        done(self.run(writer, step, &[]))
    }

    fn finish(&mut self, writer: &mut ChunkedTmpFileCryptoWriter) -> ChunkedStep {
        let step = writer.finish();
        self.run(writer, step, &[])
    }

    fn file(&self, chunk: u64) -> &[u8] {
        &self.files[&chunk]
    }
}

fn done(step: ChunkedStep) -> u64 {
    match step {
        Step::Done(n) => n,
        other => panic!("{:?}", other),
    }
}

fn small() -> ChunkedTmpFileCryptoWriter {
    ChunkedTmpFileCryptoWriter { chunk_size: 4, chunk_index: 0, writer: false }
}

#[test]
fn new_writer_wants_a_missing_directory_created() {
    let (writer, create) = ChunkedTmpFileCryptoWriter::new(false);
    assert!(create);
    assert_eq!(writer.chunk_size, 524288);
    assert_eq!(writer.chunk_size, CHUNK_SIZE);
    assert_eq!(writer.chunk_index, 0);
    assert!(!writer.writer);
    assert!(!ChunkedTmpFileCryptoWriter::new(true).1);
}

#[test]
fn write_spans_chunks() {
    let mut chunks = Chunks::new(&[]);
    let mut writer = small();
    assert_eq!(done(chunks.write(&mut writer, b"0123456789")), 10);
    assert_eq!(writer.chunk_index, 2);
    assert_eq!(chunks.file(0), b"0123");
    assert_eq!(chunks.file(1), b"4567");
    assert_eq!(chunks.file(2), b"");
    assert_eq!(chunks.pos(&mut writer), 10);
    assert_eq!(done(chunks.finish(&mut writer)), 0);
    assert_eq!(chunks.file(2), b"89");
}

#[test]
fn write_asks_for_its_work_in_order() {
    let mut chunks = Chunks::new(&[]);
    let mut writer = small();
    assert_eq!(done(chunks.write(&mut writer, b"01234")), 5);
    assert_eq!(
        chunks.log,
        vec![
            ChunkedTask::LockFile,
            ChunkedTask::OpenWriter { chunk: 0 },
            ChunkedTask::Position,
            ChunkedTask::WriteInner { start: 0, end: 4 },
            ChunkedTask::PositionAfter,
            ChunkedTask::FlushFull,
            ChunkedTask::FinishFull,
            ChunkedTask::OpenWriter { chunk: 1 },
            ChunkedTask::Position,
            ChunkedTask::WriteInner { start: 4, end: 5 },
            ChunkedTask::PositionAfter,
        ]
    );
}

#[test]
fn write_that_ends_with_a_chunk_closes_it() {
    let mut chunks = Chunks::new(&[]);
    let mut writer = small();
    assert_eq!(done(chunks.write(&mut writer, b"0123")), 4);
    assert!(!writer.writer);
    assert_eq!(writer.chunk_index, 1);
    assert_eq!(chunks.file(0), b"0123");
    assert!(!chunks.files.contains_key(&1));
    assert_eq!(chunks.pos(&mut writer), 4);
}

#[test]
fn write_of_nothing_does_nothing() {
    let mut chunks = Chunks::new(&[]);
    let mut writer = small();
    assert_eq!(done(chunks.write(&mut writer, b"")), 0);
    assert!(chunks.log.is_empty());
}

#[test]
fn write_keeps_what_it_does_not_reach() {
    let mut chunks = Chunks::new(&[(0, b"abcd"), (1, b"efgh"), (2, b"ij")]);
    let mut writer = small();
    assert_eq!(done(chunks.seek(&mut writer, SeekFrom::Start(3))), 3);
    assert_eq!(done(chunks.write(&mut writer, b"XYZ")), 3);
    assert_eq!(chunks.pos(&mut writer), 6);
    assert_eq!(done(chunks.finish(&mut writer)), 0);
    assert_eq!(chunks.file(0), b"abcX");
    assert_eq!(chunks.file(1), b"YZgh");
    assert_eq!(chunks.file(2), b"ij");
}

#[test]
fn short_write_at_the_end_is_reported() {
    let mut chunks = Chunks::new(&[]);
    chunks.most = 2;
    let mut writer = small();
    assert_eq!(done(chunks.write(&mut writer, b"012")), 2);
    assert_eq!(chunks.pos(&mut writer), 2);
}

#[test]
fn short_write_before_the_next_chunk_ends_the_write() {
    let mut chunks = Chunks::new(&[]);
    chunks.most = 3;
    let mut writer = small();
    assert_eq!(done(chunks.write(&mut writer, b"01234")), 3);
    assert_eq!(chunks.pos(&mut writer), 3);
    assert_eq!(done(chunks.finish(&mut writer)), 0);
    assert_eq!(chunks.file(0), b"012");
    assert_eq!(chunks.files.len(), 1);
}

#[test]
fn short_write_in_a_later_chunk_counts_what_was_taken() {
    let mut chunks = Chunks::new(&[]);
    chunks.most = 3;
    let mut writer = small();
    assert_eq!(done(chunks.write(&mut writer, b"0")), 1);
    assert_eq!(done(chunks.write(&mut writer, b"123456789")), 3 + 3);
    assert_eq!(chunks.pos(&mut writer), 7);
}

#[test]
fn seek_forward_fills_chunks_with_zeros() {
    let mut chunks = Chunks::new(&[]);
    let mut writer = small();
    assert_eq!(done(chunks.write(&mut writer, b"ab")), 2);
    assert_eq!(done(chunks.seek(&mut writer, SeekFrom::Start(14))), 14);
    assert_eq!(writer.chunk_index, 3);
    assert_eq!(done(chunks.write(&mut writer, b"z")), 1);
    assert_eq!(done(chunks.finish(&mut writer)), 0);
    assert_eq!(chunks.file(0), b"ab\0\0");
    assert_eq!(chunks.file(1), b"\0\0\0\0");
    assert_eq!(chunks.file(2), b"\0\0\0\0");
    assert_eq!(chunks.file(3), b"\0\0z");
}

#[test]
fn seek_forward_keeps_chunks_in_between() {
    let mut chunks = Chunks::new(&[(0, b"ab"), (1, b"cd"), (3, b"ef")]);
    let mut writer = small();
    assert_eq!(done(chunks.seek(&mut writer, SeekFrom::Start(13))), 13);
    assert_eq!(done(chunks.finish(&mut writer)), 0);
    assert_eq!(chunks.file(0), b"ab\0\0");
    assert_eq!(chunks.file(1), b"cd");
    assert_eq!(chunks.file(2), b"\0\0\0\0");
    assert_eq!(chunks.file(3), b"ef");
}

#[test]
fn seek_asks_for_its_work_in_order() {
    let mut chunks = Chunks::new(&[(1, b"abcd")]);
    let mut writer = small();
    assert_eq!(done(chunks.seek(&mut writer, SeekFrom::Start(13))), 13);
    assert_eq!(
        chunks.log,
        vec![
            ChunkedTask::OpenWriter { chunk: 0 },
            ChunkedTask::Position,
            ChunkedTask::LockFile,
            ChunkedTask::FillChunk { to: 4 },
            ChunkedTask::CheckChunk { chunk: 1 },
            ChunkedTask::CheckChunk { chunk: 2 },
            ChunkedTask::CreateGap { chunk: 2 },
            ChunkedTask::FillGap { chunk: 2, to: 4 },
            ChunkedTask::FlushGap { chunk: 2 },
            ChunkedTask::FinishGap { chunk: 2 },
            ChunkedTask::FlushOld,
            ChunkedTask::FinishOld,
            ChunkedTask::SwitchWriter { chunk: 3 },
            ChunkedTask::SeekInner { to: 1 },
            ChunkedTask::Position,
        ]
    );
}

#[test]
fn seek_back_to_an_earlier_chunk() {
    let mut chunks = Chunks::new(&[]);
    let mut writer = small();
    assert_eq!(done(chunks.write(&mut writer, b"0123456789")), 10);
    assert_eq!(done(chunks.seek(&mut writer, SeekFrom::Current(-8))), 2);
    assert_eq!(writer.chunk_index, 0);
    assert_eq!(chunks.file(2), b"89");
    assert_eq!(done(chunks.write(&mut writer, b"xyz")), 3);
    assert_eq!(done(chunks.finish(&mut writer)), 0);
    assert_eq!(chunks.file(0), b"01xy");
    assert_eq!(chunks.file(1), b"z567");
}

#[test]
fn seek_within_a_chunk() {
    let mut chunks = Chunks::new(&[(0, b"abcd")]);
    let mut writer = small();
    assert_eq!(done(chunks.seek(&mut writer, SeekFrom::Start(2))), 2);
    chunks.log.clear();
    assert_eq!(done(chunks.seek(&mut writer, SeekFrom::Start(1))), 1);
    assert_eq!(
        chunks.log,
        vec![
            ChunkedTask::Position,
            ChunkedTask::LockFile,
            ChunkedTask::SeekInner { to: 1 },
            ChunkedTask::Position,
        ]
    );
}

#[test]
fn seek_where_the_writer_is() {
    let mut chunks = Chunks::new(&[]);
    let mut writer = small();
    assert_eq!(done(chunks.write(&mut writer, b"01")), 2);
    chunks.log.clear();
    assert_eq!(done(chunks.seek(&mut writer, SeekFrom::Current(0))), 2);
    assert_eq!(chunks.log, vec![ChunkedTask::Position; 3]);
}

#[test]
fn seek_to_the_start_in_the_first_chunk_opens_it_anew() {
    let mut chunks = Chunks::new(&[]);
    let mut writer = small();
    assert_eq!(done(chunks.write(&mut writer, b"01")), 2);
    assert_eq!(done(chunks.seek(&mut writer, SeekFrom::Start(0))), 0);
    assert_eq!(chunks.file(0), b"01");
    assert!(chunks.log.contains(&ChunkedTask::RestartWriter));
    assert_eq!(chunks.pos(&mut writer), 0);
}

#[test]
fn seek_to_the_start_from_a_later_chunk_arrives_there() {
    let mut chunks = Chunks::new(&[]);
    let mut writer = small();
    assert_eq!(done(chunks.write(&mut writer, b"012345")), 6);
    assert_eq!(done(chunks.seek(&mut writer, SeekFrom::Start(0))), 0);
    assert_eq!(writer.chunk_index, 0);
    assert_eq!(chunks.pos(&mut writer), 0);
    assert_eq!(chunks.file(1), b"45");
    assert_eq!(done(chunks.write(&mut writer, b"xy")), 2);
    assert_eq!(chunks.pos(&mut writer), 2);
    assert_eq!(done(chunks.finish(&mut writer)), 0);
    assert_eq!(chunks.file(0), b"xy23");
    assert_eq!(chunks.file(1), b"45");
}

#[test]
fn seek_from_start_reports_the_start() {
    let mut chunks = Chunks::new(&[]);
    let mut writer = small();
    assert_eq!(done(chunks.write(&mut writer, b"012345678")), 9);
    let step = writer.seek_from_start(0);
    assert_eq!(done(chunks.run(&mut writer, step, &[])), 0);
    let step = writer.seek_from_start(5);
    assert_eq!(done(chunks.run(&mut writer, step, &[])), 5);
}

#[test]
fn position_counts_the_written_bytes() {
    let mut chunks = Chunks::new(&[]);
    let mut writer = small();
    let mut total = 0;
    for part in [&b"012"[..], b"3", b"4567", b"", b"89abcdef"] {
        assert_eq!(done(chunks.write(&mut writer, part)), part.len() as u64);
        total += part.len() as u64;
        assert_eq!(chunks.pos(&mut writer), total);
        assert_eq!(chunks.pos(&mut writer), total);
    }
    assert_eq!(chunks.file(4), b"");
}

#[test]
fn two_writes_make_one() {
    for split in 0..=11 {
        let data = b"0123456789a";
        let files: [(u64, &[u8]); 2] = [(0, b"wxyz"), (1, b"uv")];
        let (mut one, mut two) = (Chunks::new(&files), Chunks::new(&files));
        let (mut whole, mut parts) = (small(), small());
        assert_eq!(done(one.seek(&mut whole, SeekFrom::Start(1))), 1);
        assert_eq!(done(two.seek(&mut parts, SeekFrom::Start(1))), 1);
        let all = done(one.write(&mut whole, data));
        let first = done(two.write(&mut parts, &data[..split]));
        assert_eq!(first + done(two.write(&mut parts, &data[split..])), all);
        assert_eq!(whole, parts);
        assert_eq!(done(one.finish(&mut whole)), 0);
        assert_eq!(done(two.finish(&mut parts)), 0);
        assert_eq!(one.files, two.files);
    }
}

#[test]
fn the_open_chunk_is_the_one_of_the_position() {
    let mut chunks = Chunks::new(&[]);
    let mut writer = small();
    for len in [1, 3, 4, 5, 8, 2, 1] {
        assert_eq!(done(chunks.write(&mut writer, &vec![1; len])), len as u64);
        let pos = chunks.inner.as_ref().map_or(0, |inner| inner.at as u64);
        assert_eq!(writer.writer, chunks.inner.is_some());
        assert!(!writer.writer || 0 < pos && pos < 4);
    }
    for target in [24, 3, 4, 0, 11, 12] {
        assert_eq!(done(chunks.seek(&mut writer, SeekFrom::Start(target))), target);
        assert!(writer.writer);
        assert_eq!(writer.chunk_index, target / 4);
        assert_eq!(chunks.inner.as_ref().unwrap().chunk, target / 4);
    }
}

#[test]
fn files_are_created_only_where_they_are_needed() {
    let mut chunks = Chunks::new(&[]);
    let mut writer = small();
    assert_eq!(done(chunks.seek(&mut writer, SeekFrom::Start(9))), 9);
    assert_eq!(chunks.files.keys().copied().collect::<Vec<u64>>(), vec![0, 1, 2]);
    assert_eq!(done(chunks.write(&mut writer, b"abcdefg")), 7);
    assert_eq!(chunks.files.keys().copied().collect::<Vec<u64>>(), vec![0, 1, 2, 3]);
    assert_eq!(done(chunks.seek(&mut writer, SeekFrom::Start(2))), 2);
    assert_eq!(chunks.files.keys().copied().collect::<Vec<u64>>(), vec![0, 1, 2, 3, 4]);
}

#[test]
fn chunked_seeks_that_are_refused() {
    let mut chunks = Chunks::new(&[]);
    let mut writer = small();
    let step = chunks.seek(&mut writer, SeekFrom::End(0));
    assert!(matches!(step, Step::Failed(Failure::SeekFromEnd)));
    let step = chunks.seek(&mut writer, SeekFrom::Start(1 << 63));
    assert!(matches!(step, Step::Failed(Failure::SeekBeforeStart)));
    assert!(chunks.log.is_empty());
    let step = chunks.seek(&mut writer, SeekFrom::Current(-1));
    assert!(matches!(step, Step::Failed(Failure::SeekBeforeStart)));
}

#[test]
fn failed_work_ends_the_operation() {
    let mut chunks = Chunks::new(&[]);
    chunks.fail = Some(ChunkedTask::FinishFull);
    let mut writer = small();
    let step = chunks.write(&mut writer, b"012345");
    assert!(matches!(step, Step::Failed(Failure::Outside("failed"))));
    assert!(writer.writer);
    assert_eq!(writer.chunk_index, 0);
    chunks.fail = None;
    assert_eq!(done(chunks.write(&mut writer, b"45")), 2);
    assert_eq!(chunks.file(0), b"0123");
    assert_eq!(chunks.pos(&mut writer), 6);
}

#[test]
fn failed_move_in_a_new_chunk_keeps_the_old_index() {
    let mut chunks = Chunks::new(&[]);
    chunks.fail = Some(ChunkedTask::SeekInner { to: 2 });
    let mut writer = small();
    let step = chunks.seek(&mut writer, SeekFrom::Start(6));
    assert!(matches!(step, Step::Failed(Failure::Outside("failed"))));
    assert_eq!(writer, ChunkedTmpFileCryptoWriter { chunk_size: 4, chunk_index: 0, writer: true });
    assert_eq!(chunks.inner.as_ref().unwrap().chunk, 1);
}

#[test]
fn flush_needs_an_inner_writer() {
    let mut chunks = Chunks::new(&[]);
    let mut writer = small();
    let step: ChunkedStep = writer.flush();
    assert!(matches!(step, Step::Done(0)));
    assert_eq!(done(chunks.write(&mut writer, b"0")), 1);
    chunks.log.clear();
    let step = writer.flush();
    assert_eq!(done(chunks.run(&mut writer, step, &[])), 0);
    assert_eq!(chunks.log, vec![ChunkedTask::FlushWriter]);
    assert_eq!(chunks.pos(&mut writer), 1);
}

#[test]
fn finish_opens_the_first_chunk() {
    let mut chunks = Chunks::new(&[]);
    let mut writer = small();
    assert_eq!(done(chunks.finish(&mut writer)), 0);
    assert_eq!(
        chunks.log,
        vec![ChunkedTask::CheckFirst, ChunkedTask::CreateFirst, ChunkedTask::OpenFirst]
    );
    assert_eq!(chunks.file(0), b"");
}

#[test]
fn finish_does_not_mind_a_failure_to_close() {
    for fail in [ChunkedTask::FlushEnd, ChunkedTask::FinishEnd] {
        let mut chunks = Chunks::new(&[(0, b"abcd")]);
        chunks.fail = Some(fail);
        let mut writer = small();
        assert_eq!(done(chunks.write(&mut writer, b"0")), 1);
        assert_eq!(done(chunks.finish(&mut writer)), 0);
        assert!(!writer.writer);
        assert_eq!(chunks.log.last(), Some(&ChunkedTask::OpenFirst));
    }
}

#[test]
fn a_seek_asks_for_five_pieces_of_work_per_missing_chunk() {
    let mut chunks = Chunks::new(&[]);
    let mut writer = small();
    assert_eq!(done(chunks.seek(&mut writer, SeekFrom::Start(41))), 41);
    assert_eq!(chunks.log.len(), 9 + 5 * 9);
    assert!(chunks.log.len() <= 5 * 10 + 12);
}
