//! Writers for encrypted files.
//!
//! * [`ring_writer`] seals bytes block by block; [`stream`] reads such blocks back.
//! * [`tmp_file`] changes a file by way of a temporary one that replaces it as a whole.
//! * [`chunked`] spreads a file over chunks, each of them a file of its own.
//!
//! The writers decide and compute, and leave all input and output to their caller: an operation
//! returns a [`outcome::Step`] that names the next piece of outside work, and is resumed with what
//! came of it. What follows from that for the bytes in the files, as long as the outside work is
//! done as it was asked for, stands in [`ring_laws`], [`tmp_file_laws`] and [`chunked_laws`], for
//! several operations in [`tmp_file_sequence_laws`] and [`chunked_sequence_laws`];
//! [`composition`] shows that the writers do the work for each other. Which work is asked for, in
//! which order, and when an operation fails, whatever the work comes to, stands in
//! [`tmp_file_work_laws`], [`chunked_work_laws`] and [`ring_laws`].

pub mod aead;
pub mod buf_mut;
pub mod chunk_name;
pub mod chunk_writer;
pub mod chunked;
pub mod chunked_laws;
pub mod chunked_sequence_laws;
pub mod chunked_work_laws;
pub mod composition;
pub mod nonce;
pub mod outcome;
pub mod ring_laws;
pub mod ring_writer;
pub mod stream;
pub mod tmp_file;
pub mod tmp_file_laws;
pub mod tmp_file_sequence_laws;
pub mod tmp_file_work_laws;
pub mod traits;
