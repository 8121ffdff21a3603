use crypto_writer::chunk_name::chunk_file_name;
use crypto_writer::chunk_writer::{
    CallbackWrapper, FileCryptoWriterMetadataProviderImpl, WHOLE_FILE_CHUNK_INDEX,
};
use crypto_writer::chunked::{ChunkedTmpFileCryptoWriter, CHUNK_SIZE};
use crypto_writer::traits::{FileCryptoWriterCallback, FileCryptoWriterMetadataProvider};
use std::io;
use std::sync::Mutex;

#[test]
fn names_are_decimal() {
    assert_eq!(chunk_file_name(0), "0");
    assert_eq!(chunk_file_name(9), "9");
    assert_eq!(chunk_file_name(10), "10");
    assert_eq!(chunk_file_name(1234567890), "1234567890");
    assert_eq!(chunk_file_name(u64::MAX), "18446744073709551615");
}

#[test]
fn plan_for_a_position() {
    let plan = ChunkedTmpFileCryptoWriter::create_writer(2 * CHUNK_SIZE + 5, CHUNK_SIZE);
    assert_eq!(plan.chunk_index, 2);
    assert_eq!(plan.file_name, "2");
    assert_eq!(plan.own_lock, 2);
    assert_eq!(plan.file_lock, WHOLE_FILE_CHUNK_INDEX);
    assert_eq!(plan.shift, 2 * CHUNK_SIZE);
    let first = ChunkedTmpFileCryptoWriter::create_writer(CHUNK_SIZE - 1, CHUNK_SIZE);
    assert_eq!((first.chunk_index, first.shift), (0, 0));
    let second = ChunkedTmpFileCryptoWriter::create_writer(CHUNK_SIZE, CHUNK_SIZE);
    assert_eq!((second.chunk_index, second.shift), (1, CHUNK_SIZE));
}

#[test]
fn plan_for_a_chunk() {
    let writer = ChunkedTmpFileCryptoWriter::new(true).0;
    let plan = writer.create_new_writer(37);
    assert_eq!(plan.chunk_index, 37);
    assert_eq!(plan.file_name, "37");
    assert_eq!(plan.own_lock, 37);
    assert_eq!(plan.shift, 37 * CHUNK_SIZE);
}

#[test]
fn lock_of_the_whole_file() {
    assert_eq!(WHOLE_FILE_CHUNK_INDEX, 18446744073709551573);
    let last = ChunkedTmpFileCryptoWriter::create_writer(u64::MAX, 2);
    assert!(last.own_lock < WHOLE_FILE_CHUNK_INDEX);
}

#[test]
fn plans_of_two_chunks_share_no_lock_and_no_file() {
    let a = ChunkedTmpFileCryptoWriter::create_writer(11, 10);
    let b = ChunkedTmpFileCryptoWriter::create_writer(110, 10);
    assert_ne!(a.own_lock, b.own_lock);
    assert_ne!(a.file_name, b.file_name);
}

struct Told(Mutex<Vec<(i64, u64)>>);

impl FileCryptoWriterCallback for Told {
    fn on_file_content_changed(
        &self,
        changed_from_pos: i64,
        last_write_pos: u64,
    ) -> io::Result<()> {
        if last_write_pos == 100 {
            return Err(io::Error::new(io::ErrorKind::Other, "not told"));
        }
        self.0.lock().unwrap().push((changed_from_pos, last_write_pos));
        Ok(())
    }
}

#[test]
fn changes_are_told_shifted() {
    let wrapper = CallbackWrapper(Told(Mutex::new(Vec::new())), 7);
    assert!(wrapper.on_file_content_changed(-1, 20).is_ok());
    assert!(wrapper.on_file_content_changed(0, 0).is_ok());
    assert_eq!(*wrapper.0 .0.lock().unwrap(), vec![(6, 27), (7, 7)]);
    let err = wrapper.on_file_content_changed(-1, 93).unwrap_err();
    assert_eq!(err.to_string(), "not told");
}

#[test]
fn changes_in_a_chunk_are_told_by_their_positions() {
    let plan = ChunkedTmpFileCryptoWriter::create_writer(CHUNK_SIZE, CHUNK_SIZE);
    let wrapper = CallbackWrapper((), plan.shift);
    let from = CHUNK_SIZE as i64 - 1;
    assert_eq!(wrapper.shifted(-1, CHUNK_SIZE), (from, 2 * CHUNK_SIZE));
}

#[test]
fn shift_wraps_like_a_signed_number() {
    let wrapper = CallbackWrapper((), u64::MAX);
    assert_eq!(wrapper.shifted(5, 0), (4, u64::MAX));
}

struct Size(Option<u64>);

impl FileCryptoWriterMetadataProvider for Size {
    fn size(&self) -> io::Result<u64> {
        match self.0 {
            Some(size) => Ok(size),
            None => Err(io::Error::new(io::ErrorKind::Other, "no size")),
        }
    }
}

#[test]
fn size_of_a_chunk() {
    let provider = FileCryptoWriterMetadataProviderImpl {
        chunk_index: 3,
        chunk_size: 10,
        provider: Size(Some(34)),
    };
    assert_eq!(provider.next_file_name(), "4");
    assert_eq!(provider.size(false).unwrap(), 4);
    assert_eq!(provider.size(true).unwrap(), 10);
    assert_eq!(provider.size_in(40, false), 10);
    assert_eq!(provider.size_in(39, false), 9);
    assert_eq!(provider.size_in(0, false), 0);
    assert_eq!(provider.size_in(0, true), 10);
}

#[test]
fn size_of_a_chunk_that_begins_where_the_file_ends() {
    let provider = FileCryptoWriterMetadataProviderImpl {
        chunk_index: 3,
        chunk_size: 10,
        provider: Size(Some(30)),
    };
    assert_eq!(provider.size(false).unwrap(), 0);
    assert_eq!(provider.size(true).unwrap(), 10);
    assert_eq!(provider.size_in(50, false), 0);
    assert_eq!(provider.size_in(20, false), 0);
    let first = FileCryptoWriterMetadataProviderImpl {
        chunk_index: 0,
        chunk_size: 10,
        provider: (),
    };
    assert_eq!(first.size_in(0, false), 0);
    assert_eq!(first.size_in(10, false), 10);
    let last = FileCryptoWriterMetadataProviderImpl {
        chunk_index: u64::MAX,
        chunk_size: 1,
        provider: (),
    };
    assert_eq!(last.size_in(u64::MAX, false), 0);
}

#[test]
fn size_of_the_file_may_be_unknown() {
    let provider = FileCryptoWriterMetadataProviderImpl {
        chunk_index: 0,
        chunk_size: 10,
        provider: Size(None),
    };
    assert_eq!(provider.size(true).unwrap_err().to_string(), "no size");
}
