//! What the writers offer to their users, and what users offer to the writers.

use crate::outcome::SeekFrom;
use std::io;
use vstd::prelude::*;

verus! {

/// The error type of `std::io`. The library only carries its values through.
#[verifier::external_type_specification]
#[verifier::external_body]
pub struct ExIoError(std::io::Error);

/// A writer that hands back what it wrote to once it is finished.
pub trait CryptoWriter<W>: Send + Sync {
    /// Takes some of the bytes of `buf`, and says how many.
    fn write(&mut self, buf: &[u8]) -> io::Result<usize>;

    fn flush(&mut self) -> io::Result<()>;

    fn finish(&mut self) -> io::Result<W>;
}

/// A [`CryptoWriter`] that can move.
pub trait CryptoWriterSeek<W>: CryptoWriter<W> {
    /// Moves to `place`, and says which position that is.
    fn seek(&mut self, place: SeekFrom) -> io::Result<u64>;
}

/// Somebody who is to be told when the content of a file changes.
pub trait FileCryptoWriterCallback: Send + Sync {
    /// Told the position from which on the content changed and the last position that was written.
    fn on_file_content_changed(&self, changed_from_pos: i64, last_write_pos: u64) -> io::Result<
        (),
    >;
}

/// Somebody who knows how large a file is.
pub trait FileCryptoWriterMetadataProvider: Send + Sync {
    fn size(&self) -> io::Result<u64>;
}

} // verus!
