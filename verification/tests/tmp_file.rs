use crypto_writer::outcome::{Failure, SeekFrom, Step};
use crypto_writer::tmp_file::{TmpFileCryptoWriter, TmpOp, TmpReply, TmpTask};

type TmpStep = Step<TmpOp, &'static str>;

/// Does the writer's work on two files in memory.
struct Files {
    file: Vec<u8>,
    tmp: Option<Vec<u8>>,
    size: u64,
    log: Vec<TmpTask>,
    fail: Option<TmpTask>,
    opened: usize,
    notices: Vec<(i64, u64)>,
    /// The most bytes that one inner write takes.
    most: usize,
}

impl Files {
    fn new(file: &[u8]) -> Files {
        Files {
            file: file.to_vec(),
            tmp: None,
            size: file.len() as u64,
            log: Vec::new(),
            fail: None,
            opened: 0,
            notices: Vec::new(),
            most: usize::MAX,
        }
    }

    fn put(&mut self, writer: &mut TmpFileCryptoWriter, bytes: &[u8]) -> Result<(), &'static str> {
        let mut rest = bytes;
        while !rest.is_empty() {
            let step = writer.write();
            match self.run(writer, step, rest) {
                Step::Done(n) => rest = &rest[n as usize..],
                Step::Failed(Failure::Outside(e)) => return Err(e),
                other => panic!("{:?}", other),
            }
        }
        Ok(())
    }

    fn part(&self, from: u64, len: u64) -> Vec<u8> {
        let from = (from as usize).min(self.file.len());
        let len = (len.min(self.file.len() as u64) as usize).min(self.file.len() - from);
        self.file[from..from + len].to_vec()
    }

    fn work(
        &mut self,
        writer: &mut TmpFileCryptoWriter,
        task: TmpTask,
        data: &[u8],
    ) -> Result<TmpReply, &'static str> {
        self.log.push(task);
        if self.fail == Some(task) {
            return Err("failed");
        }
        match task {
            TmpTask::CheckTmp => return Ok(TmpReply::Exists(self.tmp.is_some())),
            TmpTask::RemoveTmp => self.tmp = None,
            TmpTask::OpenTmp => self.tmp = Some(Vec::new()),
            TmpTask::WriteInner => {
                let n = data.len().min(self.most);
                self.tmp.as_mut().unwrap().extend_from_slice(&data[..n]);
                return Ok(TmpReply::Wrote(n));
            }
            TmpTask::CopyForward { from, len } | TmpTask::CopyRest { from, len } => {
                let bytes = self.part(from, len);
                self.put(writer, &bytes)?;
            }
            TmpTask::CopyBack { from, len } => {
                let bytes = self.part(from, len);
                assert_eq!(bytes.len() as u64, len);
                self.put(writer, &bytes)?;
            }
            TmpTask::FillZeros { len } => self.put(writer, &vec![0; len as usize])?,
            TmpTask::AskSize => return Ok(TmpReply::Size(self.size)),
            TmpTask::Rename { .. } => self.file = self.tmp.take().unwrap(),
            TmpTask::Notify { changed_from, last } => self.notices.push((changed_from, last)),
            TmpTask::OpenFile => self.opened += 1,
            _ => {}
        }
        Ok(TmpReply::Completed)
    }

    fn run(&mut self, writer: &mut TmpFileCryptoWriter, step: TmpStep, data: &[u8]) -> TmpStep {
        let mut step = step;
        while let Step::Perform(op) = step {
            let answer = self.work(writer, op.task, data);
            step = writer.resume(op, answer);
        }
        step
    }

    fn write(&mut self, writer: &mut TmpFileCryptoWriter, data: &[u8]) -> TmpStep {
        let step = writer.write();
        self.run(writer, step, data)
    }

    fn seek(&mut self, writer: &mut TmpFileCryptoWriter, place: SeekFrom) -> TmpStep {
        let step = writer.seek(place);
        self.run(writer, step, &[])
    }

    fn flush(&mut self, writer: &mut TmpFileCryptoWriter) -> TmpStep {
        let step = writer.flush();
        self.run(writer, step, &[])
    }

    fn finish(&mut self, writer: &mut TmpFileCryptoWriter) -> TmpStep {
        let step = writer.finish();
        self.run(writer, step, &[])
    }
}

fn done(step: TmpStep) -> u64 {
    match step {
        Step::Done(n) => n,
        other => panic!("{:?}", other),
    }
}

#[test]
fn new_writer_wants_a_missing_file_created() {
    let (writer, create) = TmpFileCryptoWriter::new(false, true, false);
    assert!(create);
    assert!(writer.callback && !writer.metadata_provider && !writer.writer && !writer.tmp_file);
    assert_eq!(writer.pos(), 0);
    assert!(!TmpFileCryptoWriter::new(true, false, false).1);
}

#[test]
fn write_then_finish_overwrites_the_start() {
    let mut files = Files::new(b"0123456789");
    let mut writer = TmpFileCryptoWriter::new(true, false, false).0;
    assert_eq!(done(files.write(&mut writer, b"abc")), 3);
    assert_eq!(writer.pos(), 3);
    assert_eq!(files.file, b"0123456789");
    assert_eq!(done(files.finish(&mut writer)), 0);
    assert_eq!(files.file, b"abc3456789");
    assert_eq!(files.opened, 1);
    assert!(!writer.writer);
    assert_eq!(
        files.log,
        vec![
            TmpTask::CreateTmp,
            TmpTask::OpenTmp,
            TmpTask::WriteInner,
            TmpTask::FlushWriter,
            TmpTask::FlushDirty,
            TmpTask::CopyRest { from: 3, len: u64::MAX },
            TmpTask::WriteInner,
            TmpTask::FlushLast { last: 10 },
            TmpTask::FinishLast { last: 10 },
            TmpTask::Rename { last: 10 },
            TmpTask::OpenFile,
        ]
    );
}

#[test]
fn seek_forward_copies_and_fills_with_zeros() {
    let mut files = Files::new(b"0123456789");
    let mut writer = TmpFileCryptoWriter::new(true, false, false).0;
    assert_eq!(done(files.seek(&mut writer, SeekFrom::Start(4))), 4);
    assert_eq!(files.tmp, Some(b"0123".to_vec()));
    assert_eq!(done(files.seek(&mut writer, SeekFrom::Current(8))), 12);
    assert_eq!(files.tmp, Some(b"0123456789\0\0".to_vec()));
    assert!(files.log.contains(&TmpTask::FillZeros { len: 2 }));
    assert_eq!(done(files.write(&mut writer, b"x")), 1);
    assert_eq!(done(files.finish(&mut writer)), 0);
    assert_eq!(files.file, b"0123456789\0\0x");
}

#[test]
fn seek_back_replaces_the_file_and_tells_of_it() {
    let mut files = Files::new(b"0123456789");
    let mut writer = TmpFileCryptoWriter::new(true, true, true).0;
    assert_eq!(done(files.write(&mut writer, b"abcde")), 5);
    assert_eq!(done(files.seek(&mut writer, SeekFrom::Current(-3))), 2);
    assert_eq!(files.file, b"abcde56789");
    assert_eq!(files.notices, vec![(-1, 10)]);
    assert_eq!(files.tmp, Some(b"ab".to_vec()));
    assert_eq!(done(files.write(&mut writer, b"Z")), 1);
    assert_eq!(done(files.finish(&mut writer)), 0);
    assert_eq!(files.file, b"abZde56789");
    assert_eq!(files.notices, vec![(-1, 10), (-1, 10)]);
}

#[test]
fn seek_to_the_start_needs_no_copy() {
    let mut files = Files::new(b"0123");
    let mut writer = TmpFileCryptoWriter::new(true, false, false).0;
    assert_eq!(done(files.write(&mut writer, b"ab")), 2);
    assert_eq!(done(files.seek(&mut writer, SeekFrom::Start(0))), 0);
    assert_eq!(files.file, b"ab23");
    assert!(!writer.writer);
    assert!(!files.log.iter().any(|t| matches!(t, TmpTask::CopyBack { .. })));
}

#[test]
fn a_known_size_saves_the_copy_of_the_rest() {
    let mut files = Files::new(b"0123");
    let mut writer = TmpFileCryptoWriter::new(true, false, true).0;
    assert_eq!(done(files.write(&mut writer, b"abcdef")), 6);
    assert_eq!(done(files.finish(&mut writer)), 0);
    assert_eq!(files.file, b"abcdef");
    assert!(files.log.contains(&TmpTask::AskSize));
    assert!(!files.log.iter().any(|t| matches!(t, TmpTask::CopyRest { .. })));
}

#[test]
fn seeking_where_the_writer_is_does_nothing() {
    let mut files = Files::new(b"0123");
    let mut writer = TmpFileCryptoWriter::new(true, false, false).0;
    assert_eq!(done(files.seek(&mut writer, SeekFrom::Start(0))), 0);
    assert_eq!(done(files.seek(&mut writer, SeekFrom::Current(0))), 0);
    assert!(files.log.is_empty());
}

#[test]
fn flush_changes_nothing() {
    let mut files = Files::new(b"0123");
    let mut writer = TmpFileCryptoWriter::new(true, false, false).0;
    assert_eq!(done(files.flush(&mut writer)), 0);
    assert!(files.log.is_empty());
    assert_eq!(done(files.write(&mut writer, b"ab")), 2);
    assert_eq!(done(files.flush(&mut writer)), 0);
    assert_eq!(files.log.last(), Some(&TmpTask::FlushWriter));
    assert_eq!(files.file, b"0123");
    assert_eq!(files.tmp, Some(b"ab".to_vec()));
    assert_eq!(writer.pos(), 2);
}

#[test]
fn finish_without_a_write_keeps_the_file() {
    let mut files = Files::new(b"0123");
    let mut writer = TmpFileCryptoWriter::new(true, true, true).0;
    assert_eq!(done(files.finish(&mut writer)), 0);
    assert_eq!(files.log, vec![TmpTask::OpenFile]);
    assert_eq!(files.file, b"0123");
}

#[test]
fn short_inner_writes_are_reported() {
    let mut files = Files::new(b"0123456789");
    files.most = 2;
    let mut writer = TmpFileCryptoWriter::new(true, false, false).0;
    assert_eq!(done(files.write(&mut writer, b"abc")), 2);
    assert_eq!(writer.pos(), 2);
    assert_eq!(done(files.finish(&mut writer)), 0);
    assert_eq!(files.file, b"ab23456789");
}

#[test]
fn seeks_that_are_refused() {
    let mut writer = TmpFileCryptoWriter::new(true, false, false).0;
    let before = writer;
    let step: TmpStep = writer.seek(SeekFrom::End(0));
    assert!(matches!(step, Step::Failed(Failure::SeekFromEnd)));
    let step: TmpStep = writer.seek(SeekFrom::Current(-1));
    assert!(matches!(step, Step::Failed(Failure::SeekBeforeStart)));
    assert_eq!(writer, before);
}

#[test]
fn a_failure_before_the_renaming_leaves_the_file() {
    for fail in [
        TmpTask::FlushDirty,
        TmpTask::CopyRest { from: 2, len: u64::MAX },
        TmpTask::FlushLast { last: 4 },
        TmpTask::FinishLast { last: 4 },
        TmpTask::Rename { last: 4 },
    ] {
        let mut files = Files::new(b"0123");
        files.fail = Some(fail);
        let mut writer = TmpFileCryptoWriter::new(true, false, false).0;
        assert_eq!(done(files.write(&mut writer, b"ab")), 2);
        let step = files.finish(&mut writer);
        assert!(matches!(step, Step::Failed(Failure::Outside("failed"))));
        assert_eq!(files.file, b"0123");
    }
}

#[test]
fn a_failure_after_the_renaming_leaves_what_was_written() {
    for fail in [
        TmpTask::Notify { changed_from: -1, last: 4 },
        TmpTask::CopyBack { from: 0, len: 1 },
    ] {
        let mut files = Files::new(b"0123");
        files.fail = Some(fail);
        let mut writer = TmpFileCryptoWriter::new(true, true, false).0;
        assert_eq!(done(files.write(&mut writer, b"ab")), 2);
        let step = files.seek(&mut writer, SeekFrom::Start(1));
        assert!(matches!(step, Step::Failed(Failure::Outside("failed"))));
        assert_eq!(files.file, b"ab23");
    }
}

#[test]
fn an_older_temporary_file_is_removed_first() {
    let mut files = Files::new(b"0123");
    files.fail = Some(TmpTask::OpenTmp);
    let mut writer = TmpFileCryptoWriter::new(true, false, false).0;
    assert!(matches!(files.write(&mut writer, b"ab"), Step::Failed(Failure::Outside("failed"))));
    assert!(writer.tmp_file && !writer.writer);
    files.fail = None;
    files.tmp = Some(b"junk".to_vec());
    files.log.clear();
    assert_eq!(done(files.write(&mut writer, b"ab")), 2);
    assert_eq!(
        files.log,
        vec![
            TmpTask::CheckTmp,
            TmpTask::RemoveTmp,
            TmpTask::CreateTmp,
            TmpTask::OpenTmp,
            TmpTask::WriteInner,
        ]
    );
}

#[test]
fn release_removes_the_temporary_file() {
    let mut files = Files::new(b"0123");
    let mut writer = TmpFileCryptoWriter::new(true, false, false).0;
    let step: TmpStep = writer.release();
    assert!(matches!(step, Step::Done(0)));
    assert_eq!(done(files.write(&mut writer, b"ab")), 2);
    let step = writer.release();
    assert_eq!(done(files.run(&mut writer, step, &[])), 0);
    assert_eq!(files.tmp, None);
    assert_eq!(files.file, b"0123");
    let step: TmpStep = writer.release();
    assert!(matches!(step, Step::Done(0)));
}

#[test]
fn no_operation_asks_for_more_than_fifteen_pieces_of_work() {
    let mut files = Files::new(b"0123456789");
    let mut writer = TmpFileCryptoWriter::new(true, true, true).0;
    let place = SeekFrom::Start(12);
    assert_eq!(done(files.seek(&mut writer, place)), 12);
    files.log.clear();
    let step = writer.seek(SeekFrom::Start(5));
    let mut step: TmpStep = step;
    let mut pieces = 0;
    while let Step::Perform(op) = step {
        pieces += 1;
        let answer = files.work(&mut writer, op.task, &[]);
        step = writer.resume(op, answer);
    }
    assert_eq!(done(step), 5);
    assert_eq!(pieces, 7);
}

#[test]
fn edits_are_in_place() {
    let mut next: u64 = 99;
    let mut random = move |below: u64| {
        next = next.wrapping_mul(6364136223846793005).wrapping_add(1442695040888963407);
        (next >> 33) % below
    };
    for round in 0..30 {
        let mut content: Vec<u8> = (0..random(20)).map(|i| i as u8).collect();
        let mut pos = 0;
        let mut files = Files::new(&content);
        files.most = 1 + round % 5;
        let mut writer = TmpFileCryptoWriter::new(true, round % 2 == 0, false).0;
        for _ in 0..20 {
            match random(3) {
                0 => {
                    let data: Vec<u8> = (0..random(8)).map(|_| random(256) as u8).collect();
                    let n = done(files.write(&mut writer, &data)) as usize;
                    assert_eq!(n, data.len().min(files.most));
                    if content.len() < pos + n {
                        content.resize(pos + n, 0);
                    }
                    content[pos..pos + n].copy_from_slice(&data[..n]);
                    pos += n;
                }
                1 => {
                    let target = random(25);
                    assert_eq!(done(files.seek(&mut writer, SeekFrom::Start(target))), target);
                    pos = target as usize;
                    if content.len() < pos {
                        content.resize(pos, 0);
                    }
                }
                _ => assert_eq!(done(files.flush(&mut writer)), 0),
            }
            assert_eq!(writer.pos(), pos as u64);
        }
        assert_eq!(done(files.finish(&mut writer)), 0);
        assert_eq!(files.file, content);
    }
}
