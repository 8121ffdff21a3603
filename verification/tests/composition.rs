use crypto_writer::aead::{Cipher, SecretKey};
use crypto_writer::chunk_name::chunk_file_name;
use crypto_writer::chunk_writer::{CallbackWrapper, FileCryptoWriterMetadataProviderImpl};
use crypto_writer::chunked::{
    ChunkedOp, ChunkedReply, ChunkedTask, ChunkedTmpFileCryptoWriter, CHUNK_SIZE,
};
use crypto_writer::outcome::{SeekFrom, Step};
use crypto_writer::ring_writer::{RingCryptoWriter, RingOp, RingTask};
use crypto_writer::stream::open_stream;
use crypto_writer::tmp_file::{TmpFileCryptoWriter, TmpOp, TmpReply, TmpTask};
use std::cell::RefCell;
use std::collections::BTreeMap;
use std::rc::Rc;

const CIPHER: Cipher = Cipher::ChaCha20Poly1305;

fn key() -> SecretKey {
    SecretKey::new(vec![9; CIPHER.key_len()])
}

/// Sealed files by name.
type Disk = Rc<RefCell<BTreeMap<String, Vec<u8>>>>;

/// What was told of changes.
type Notices = Rc<RefCell<Vec<(i64, u64)>>>;

fn plain(disk: &Disk, name: &str) -> Vec<u8> {
    open_stream(CIPHER, &key(), &disk.borrow()[name]).unwrap()
}

/// A sealing writer on a file in memory.
struct Sealing {
    writer: RingCryptoWriter,
    out: Vec<u8>,
}

impl Sealing {
    fn new() -> Sealing {
        Sealing { writer: RingCryptoWriter::new(CIPHER, key()), out: Vec::new() }
    }

    fn run(&mut self, step: Step<RingOp, ()>, data: &[u8]) -> usize {
        let mut step = step;
        loop {
            match step {
                Step::Perform(op) => {
                    match op.task {
                        RingTask::WriteNonce => {
                            self.out.extend_from_slice(self.writer.nonce().unwrap())
                        }
                        RingTask::WriteData => self.out.extend_from_slice(self.writer.data()),
                        RingTask::WriteTag => self.out.extend_from_slice(self.writer.tag()),
                        _ => {}
                    }
                    step = self.writer.resume(op, Ok(()), data);
                }
                Step::Done(n) => return n as usize,
                Step::Failed(failure) => panic!("{:?}", failure),
            }
        }
    }

    fn write(&mut self, data: &[u8]) -> usize {
        let step = self.writer.write(data);
        self.run(step, data)
    }

    fn flush(&mut self) {
        let step = self.writer.flush();
        self.run(step, &[]);
    }

    fn finish(mut self) -> Vec<u8> {
        let step = self.writer.finish();
        self.run(step, &[]);
        self.out
    }
}

/// A writer of one file in memory.
struct OneFile {
    plan: TmpFileCryptoWriter,
    disk: Disk,
    file: String,
    tmp: Option<String>,
    old_tmp: Option<String>,
    sealing: Option<Sealing>,
    given_up: Option<Sealing>,
    shift: u64,
    notices: Notices,
    /// What tells the size of the file, and the size of the file that it is a chunk of.
    provider: Option<(FileCryptoWriterMetadataProviderImpl<()>, u64)>,
}

impl OneFile {
    fn new(
        disk: &Disk,
        file: &str,
        shift: u64,
        notices: &Notices,
        provider: Option<(FileCryptoWriterMetadataProviderImpl<()>, u64)>,
    ) -> OneFile {
        let there = disk.borrow().contains_key(file);
        let (plan, create) = TmpFileCryptoWriter::new(there, true, provider.is_some());
        if create {
            disk.borrow_mut().insert(file.to_string(), Vec::new());
        }
        OneFile {
            plan,
            disk: disk.clone(),
            file: file.to_string(),
            tmp: None,
            old_tmp: None,
            sealing: None,
            given_up: None,
            shift,
            notices: notices.clone(),
            provider,
        }
    }

    fn put(&mut self, bytes: &[u8]) {
        let mut rest = bytes;
        while !rest.is_empty() {
            let n = self.write(rest);
            rest = &rest[n..];
        }
    }

    fn copy(&mut self, from: u64, len: u64) {
        let content = plain(&self.disk, &self.file);
        let from = (from as usize).min(content.len());
        let len = (len.min(content.len() as u64) as usize).min(content.len() - from);
        self.put(&content[from..from + len]);
    }

    fn work(&mut self, task: TmpTask, data: &[u8]) -> TmpReply {
        match task {
            TmpTask::CheckTmp => {
                self.old_tmp = self.tmp.take();
                let exists = self.disk.borrow().contains_key(self.old_tmp.as_ref().unwrap());
                return TmpReply::Exists(exists);
            }
            TmpTask::RemoveTmp => {
                self.disk.borrow_mut().remove(&self.old_tmp.take().unwrap());
            }
            TmpTask::CreateTmp => self.tmp = Some(format!("{}.tmp", self.file)),
            TmpTask::OpenTmp => {
                self.disk.borrow_mut().insert(self.tmp.clone().unwrap(), Vec::new());
                self.sealing = Some(Sealing::new());
            }
            TmpTask::WriteInner => {
                return TmpReply::Wrote(self.sealing.as_mut().unwrap().write(data))
            }
            TmpTask::CopyForward { from, len }
            | TmpTask::CopyRest { from, len }
            | TmpTask::CopyBack { from, len } => self.copy(from, len),
            TmpTask::FillZeros { len } => self.put(&vec![0; len as usize]),
            TmpTask::FlushDirty | TmpTask::FlushWriter => self.sealing.as_mut().unwrap().flush(),
            TmpTask::FlushLast { .. } => {
                self.given_up = self.sealing.take();
                self.given_up.as_mut().unwrap().flush();
            }
            TmpTask::FinishLast { .. } => {
                let out = self.given_up.take().unwrap().finish();
                self.disk.borrow_mut().insert(self.tmp.clone().unwrap(), out);
            }
            TmpTask::Rename { .. } => {
                let out = self.disk.borrow_mut().remove(self.tmp.as_ref().unwrap()).unwrap();
                self.disk.borrow_mut().insert(self.file.clone(), out);
            }
            TmpTask::AskSize => {
                let (provider, size) = self.provider.as_ref().unwrap();
                let next_exists = self.disk.borrow().contains_key(&provider.next_file_name());
                return TmpReply::Size(provider.size_in(*size, next_exists));
            }
            TmpTask::Notify { changed_from, last } => {
                let wrapper = CallbackWrapper((), self.shift);
                self.notices.borrow_mut().push(wrapper.shifted(changed_from, last));
            }
            TmpTask::FinishWriter => {
                let out = self.sealing.take().unwrap().finish();
                self.disk.borrow_mut().insert(self.tmp.clone().unwrap(), out);
            }
            _ => {}
        }
        TmpReply::Completed
    }

    fn run(&mut self, step: Step<TmpOp, ()>, data: &[u8]) -> u64 {
        let mut step = step;
        loop {
            match step {
                Step::Perform(op) => {
                    let reply = self.work(op.task, data);
                    step = self.plan.resume(op, Ok(reply));
                }
                Step::Done(n) => return n,
                Step::Failed(failure) => panic!("{:?}", failure),
            }
        }
    }

    fn write(&mut self, data: &[u8]) -> usize {
        let step = self.plan.write();
        self.run(step, data) as usize
    }

    fn seek(&mut self, place: SeekFrom) -> u64 {
        let step = self.plan.seek(place);
        self.run(step, &[])
    }

    fn flush(&mut self) {
        let step = self.plan.flush();
        self.run(step, &[]);
    }

    fn finish(&mut self) {
        let step = self.plan.finish();
        self.run(step, &[]);
        let step = self.plan.release();
        self.run(step, &[]);
    }
}

/// A writer of chunks in memory.
struct ManyFiles {
    plan: ChunkedTmpFileCryptoWriter,
    disk: Disk,
    writer: Option<OneFile>,
    gap: Option<OneFile>,
    notices: Notices,
    /// The size of the file, if it is known.
    size: Option<u64>,
}

impl ManyFiles {
    fn new(chunk_size: u64) -> ManyFiles {
        ManyFiles {
            plan: ChunkedTmpFileCryptoWriter { chunk_size, chunk_index: 0, writer: false },
            disk: Rc::new(RefCell::new(BTreeMap::new())),
            writer: None,
            gap: None,
            notices: Notices::default(),
            size: None,
        }
    }

    fn open(&self, chunk: u64) -> OneFile {
        let plan = self.plan.create_new_writer(chunk);
        let provider = self.size.map(|size| {
            let provider = FileCryptoWriterMetadataProviderImpl {
                chunk_index: plan.chunk_index,
                chunk_size: self.plan.chunk_size,
                provider: (),
            };
            (provider, size)
        });
        OneFile::new(&self.disk, &plan.file_name, plan.shift, &self.notices, provider)
    }

    fn is_there(&self, chunk: u64) -> ChunkedReply {
        ChunkedReply::Exists(self.disk.borrow().contains_key(&chunk_file_name(chunk)))
    }

    fn work(&mut self, task: ChunkedTask, data: &[u8]) -> ChunkedReply {
        match task {
            ChunkedTask::OpenWriter { chunk } | ChunkedTask::SwitchWriter { chunk } => {
                self.writer = Some(self.open(chunk))
            }
            ChunkedTask::RestartWriter => self.writer = Some(self.open(0)),
            ChunkedTask::Position | ChunkedTask::PositionAfter => {
                return ChunkedReply::At(self.writer.as_mut().unwrap().seek(SeekFrom::Current(0)))
            }
            ChunkedTask::WriteInner { start, end } => {
                return ChunkedReply::Wrote(self.writer.as_mut().unwrap().write(&data[start..end]))
            }
            ChunkedTask::FlushFull
            | ChunkedTask::FlushOld
            | ChunkedTask::FlushEnd
            | ChunkedTask::FlushWriter => self.writer.as_mut().unwrap().flush(),
            ChunkedTask::FinishFull | ChunkedTask::FinishOld | ChunkedTask::FinishEnd => {
                self.writer.take().unwrap().finish()
            }
            ChunkedTask::FillChunk { to } | ChunkedTask::SeekInner { to } => {
                self.writer.as_mut().unwrap().seek(SeekFrom::Start(to));
            }
            ChunkedTask::CheckChunk { chunk } => return self.is_there(chunk),
            ChunkedTask::CreateGap { chunk } => self.gap = Some(self.open(chunk)),
            ChunkedTask::FillGap { to, .. } => {
                self.gap.as_mut().unwrap().seek(SeekFrom::Start(to));
            }
            ChunkedTask::FlushGap { .. } => self.gap.as_mut().unwrap().flush(),
            ChunkedTask::FinishGap { .. } => self.gap.take().unwrap().finish(),
            ChunkedTask::CheckFirst => return self.is_there(0),
            ChunkedTask::CreateFirst => {
                self.disk.borrow_mut().insert(chunk_file_name(0), Vec::new());
            }
            _ => {}
        }
        ChunkedReply::Completed
    }

    fn run(&mut self, step: Step<ChunkedOp, ()>, data: &[u8]) -> u64 {
        let mut step = step;
        loop {
            match step {
                Step::Perform(op) => {
                    let reply = self.work(op.task, data);
                    step = self.plan.resume(op, Ok(reply));
                }
                Step::Done(n) => return n,
                Step::Failed(failure) => panic!("{:?}", failure),
            }
        }
    }

    fn write(&mut self, data: &[u8]) -> u64 {
        let step = self.plan.write(data.len());
        self.run(step, data)
    }

    fn seek(&mut self, place: SeekFrom) -> u64 {
        let step = self.plan.seek(place);
        self.run(step, &[])
    }

    fn finish(&mut self) {
        let step = self.plan.finish();
        self.run(step, &[]);
    }

    /// What all chunks hold.
    fn content(&self) -> Vec<u8> {
        let mut content = Vec::new();
        let mut chunk = 0;
        while self.disk.borrow().contains_key(&chunk_file_name(chunk)) {
            content.extend(plain(&self.disk, &chunk_file_name(chunk)));
            chunk += 1;
        }
        assert_eq!(self.disk.borrow().len() as u64, chunk);
        content
    }
}

#[test]
fn one_file_over_a_sealing_writer() {
    let disk: Disk = Rc::new(RefCell::new(BTreeMap::new()));
    let mut writer = OneFile::new(&disk, "file", 0, &Notices::default(), None);
    assert_eq!(writer.write(b"hello world"), 11);
    assert_eq!(writer.seek(SeekFrom::Start(6)), 6);
    assert_eq!(plain(&disk, "file"), b"hello world");
    assert_eq!(writer.write(b"there"), 5);
    assert_eq!(writer.seek(SeekFrom::Current(2)), 13);
    assert_eq!(writer.write(b"!"), 1);
    writer.finish();
    assert_eq!(plain(&disk, "file"), b"hello there\0\0!");
    assert_eq!(disk.borrow().len(), 1);
    assert!(!disk.borrow()["file"].windows(5).any(|part| part == b"hello"));
}

#[test]
fn many_files_behave_like_one() {
    let mut next: u64 = 12345;
    let mut random = move |below: u64| {
        next = next.wrapping_mul(6364136223846793005).wrapping_add(1442695040888963407);
        (next >> 33) % below
    };
    for round in 0..20 {
        let mut writer = ManyFiles::new(1 + round % 7);
        let mut content: Vec<u8> = Vec::new();
        let mut pos: usize = 0;
        for _ in 0..30 {
            if random(2) == 0 {
                let data: Vec<u8> = (0..random(20)).map(|_| random(256) as u8).collect();
                assert_eq!(writer.write(&data), data.len() as u64);
                let end = pos + data.len();
                if content.len() < end {
                    content.resize(end, 0);
                }
                content[pos..end].copy_from_slice(&data);
                pos = end;
            } else {
                let to = random(30);
                let reached = if random(2) == 0 {
                    writer.seek(SeekFrom::Start(to))
                } else {
                    writer.seek(SeekFrom::Current(to as i64 - pos as i64))
                };
                assert_eq!(reached, to);
                pos = to as usize;
                if content.len() < pos {
                    content.resize(pos, 0);
                }
            }
        }
        writer.finish();
        assert_eq!(writer.content(), content);
    }
}

#[test]
fn changes_of_chunks_are_told_by_their_positions() {
    let mut writer = ManyFiles::new(CHUNK_SIZE);
    let len = CHUNK_SIZE as usize;
    assert_eq!(writer.write(&vec![7; len]), CHUNK_SIZE);
    assert_eq!(*writer.notices.borrow(), vec![(-1, CHUNK_SIZE)]);
    assert_eq!(writer.write(&vec![8; len]), CHUNK_SIZE);
    assert_eq!(writer.notices.borrow()[1..], [(CHUNK_SIZE as i64 - 1, 2 * CHUNK_SIZE)]);
}

#[test]
fn a_known_size_keeps_a_full_last_chunk() {
    let mut writer = ManyFiles::new(CHUNK_SIZE);
    let len = CHUNK_SIZE as usize;
    assert_eq!(writer.write(&vec![7; len]), CHUNK_SIZE);
    writer.finish();
    writer.plan = ChunkedTmpFileCryptoWriter::new(true).0;
    writer.size = Some(CHUNK_SIZE);
    assert_eq!(writer.write(b"ab"), 2);
    writer.finish();
    let mut expected = vec![7; len];
    expected[..2].copy_from_slice(b"ab");
    assert!(writer.content() == expected);
}

#[test]
fn a_known_size_changes_no_content() {
    for len in 1..13 {
        let data: Vec<u8> = (0..len).collect();
        let mut writer = ManyFiles::new(4);
        assert_eq!(writer.write(&data), len as u64);
        writer.finish();
        for at in 0..len as u64 {
            writer.plan.chunk_index = 0;
            writer.size = Some(len as u64);
            assert_eq!(writer.seek(SeekFrom::Start(at)), at);
            assert_eq!(writer.write(&[data[at as usize]]), 1);
            assert_eq!(writer.seek(SeekFrom::Start(0)), 0);
            writer.finish();
            let content = writer.content();
            assert_eq!(content, data);
        }
    }
}

#[test]
fn chunks_of_the_usual_size_take_everything() {
    let mut writer = ManyFiles::new(CHUNK_SIZE);
    let data: Vec<u8> = (0..2 * CHUNK_SIZE + 3).map(|i| (i % 253) as u8).collect();
    assert_eq!(writer.write(&data), data.len() as u64);
    assert_eq!(writer.seek(SeekFrom::Start(0)), 0);
    assert_eq!(writer.seek(SeekFrom::Current(0)), 0);
    writer.finish();
    assert!(writer.content() == data);
}
