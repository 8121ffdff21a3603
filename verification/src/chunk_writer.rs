//! How the writer of a single chunk fits into the whole file: which file, which locks, and what it
//! tells and is told.

use crate::chunk_name::{chunk_file_name, decimal, law_name_reads_as_the_index, number};
use crate::chunked::ChunkedTmpFileCryptoWriter;
use crate::outcome::as_signed;
use crate::traits::{FileCryptoWriterCallback, FileCryptoWriterMetadataProvider};
use std::io;
use vstd::arithmetic::div_mod::{
    lemma_div_is_ordered_by_denominator, lemma_div_multiples_vanish, lemma_div_pos_is_pos,
    lemma_fundamental_div_mod, lemma_fundamental_div_mod_converse, lemma_mod_bound,
};
use vstd::prelude::*;

verus! {

/// The index that stands for the whole file among the locks of its chunks.
pub const WHOLE_FILE_CHUNK_INDEX: u64 = u64::MAX - 42;

/// What it takes to open the writer of a chunk. The file of that name is created if it is missing,
/// while `own_lock` is held alone and `file_lock` is shared; the writer holds `own_lock` alone
/// whenever it replaces the file.
#[derive(Debug)]
pub struct ChunkPlan {
    pub chunk_index: u64,
    pub file_name: String,
    pub own_lock: u64,
    pub file_lock: u64,
    /// Where the chunk begins in the file: what is added to the positions of every change that the
    /// writer tells of.
    pub shift: u64,
}

/// Whether `plan` is the plan for the writer of `chunk`. Changes in it are told by their positions
/// in the whole file.
pub open spec fn planned(chunk: u64, chunk_size: u64, plan: ChunkPlan) -> bool {
    &&& plan.chunk_index == chunk
    &&& plan.file_name@ == decimal(chunk as nat)
    &&& plan.own_lock == chunk
    &&& plan.file_lock == WHOLE_FILE_CHUNK_INDEX
    &&& plan.shift == chunk * chunk_size
}

impl ChunkedTmpFileCryptoWriter {
    /// The plan for the writer of the chunk that holds the position `pos`.
    pub fn create_writer(pos: u64, chunk_size: u64) -> (plan: ChunkPlan)
        requires
            chunk_size > 0,
        ensures
            planned(pos / chunk_size, chunk_size, plan),
    {
        let chunk_index: u64 = pos / chunk_size;
        proof {
            lemma_fundamental_div_mod(pos as int, chunk_size as int);
            lemma_mod_bound(pos as int, chunk_size as int);
            assert(chunk_index * chunk_size == chunk_size * chunk_index) by (nonlinear_arith);
        }
        ChunkPlan {
            chunk_index,
            file_name: chunk_file_name(chunk_index),
            own_lock: chunk_index,
            file_lock: WHOLE_FILE_CHUNK_INDEX,
            shift: chunk_index * chunk_size,
        }
    }

    /// The plan for the writer of `chunk`.
    pub fn create_new_writer(&self, chunk: u64) -> (plan: ChunkPlan)
        requires
            self.chunk_size > 0,
            chunk * self.chunk_size <= u64::MAX,
        ensures
            planned(chunk, self.chunk_size, plan),
    {
        proof {
            lemma_div_multiples_vanish(chunk as int, self.chunk_size as int);
            assert(chunk * self.chunk_size == self.chunk_size * chunk) by (nonlinear_arith);
        }
        Self::create_writer(chunk * self.chunk_size, self.chunk_size)
    }
}

/// The lock of the whole file is the lock of no chunk that a position lies in.
pub proof fn law_whole_file_lock_is_no_chunks(pos: u64, chunk_size: u64, plan: ChunkPlan)
    requires
        chunk_size >= 2,
        planned(pos / chunk_size, chunk_size, plan),
    ensures
        plan.own_lock != plan.file_lock,
{
    lemma_div_is_ordered_by_denominator(pos as int, 2, chunk_size as int);
}

/// Two writers share a chunk's lock just when they write the same file.
pub proof fn law_own_lock_guards_the_file(
    a: ChunkPlan,
    b: ChunkPlan,
    i: u64,
    j: u64,
    chunk_size: u64,
)
    requires
        planned(i, chunk_size, a),
        planned(j, chunk_size, b),
    ensures
        a.own_lock == b.own_lock <==> a.file_name@ == b.file_name@,
{
    if i != j {
        crate::chunk_name::law_names_differ(i, j);
    }
}

/// Passes changes in a chunk on, shifted by the number beside it.
pub struct CallbackWrapper<C>(pub C, pub u64);

impl<C> CallbackWrapper<C> {
    /// Whether the shifted numbers can be told.
    pub open spec fn fits(self, changed_from_pos: i64, last_write_pos: u64) -> bool {
        &&& i64::MIN <= as_signed(self.1) + changed_from_pos <= i64::MAX
        &&& self.1 + last_write_pos <= u64::MAX
    }

    pub open spec fn spec_shifted(self, changed_from_pos: i64, last_write_pos: u64) -> (i64, u64) {
        ((as_signed(self.1) + changed_from_pos) as i64, (self.1 + last_write_pos) as u64)
    }

    /// The two numbers that are passed on.
    pub fn shifted(&self, changed_from_pos: i64, last_write_pos: u64) -> (r: (i64, u64))
        requires
            self.fits(changed_from_pos, last_write_pos),
        ensures
            r == self.spec_shifted(changed_from_pos, last_write_pos),
    {
        let shift: u64 = self.1;
        #[verifier::truncate]
        let signed: i64 = shift as i64;
        assert(shift <= 0x7fff_ffff_ffff_ffff ==> (shift as i64) == shift) by (bit_vector);
        assert(shift > 0x7fff_ffff_ffff_ffff ==> (shift as i64) == shift - 0x1_0000_0000_0000_0000)
            by (bit_vector);
        (signed + changed_from_pos, shift + last_write_pos)
    }
}

impl<C: FileCryptoWriterCallback> CallbackWrapper<C> {
    /// Tells of a change in the chunk.
    pub fn on_file_content_changed(&self, changed_from_pos: i64, last_write_pos: u64) -> (r:
        io::Result<()>)
        requires
            self.fits(changed_from_pos, last_write_pos),
        ensures
            call_ensures(
                C::on_file_content_changed,
                (
                    &self.0,
                    self.spec_shifted(changed_from_pos, last_write_pos).0,
                    self.spec_shifted(changed_from_pos, last_write_pos).1,
                ),
                r,
            ),
    {
        let (from, last) = self.shifted(changed_from_pos, last_write_pos);
        self.0.on_file_content_changed(from, last)
    }
}

/// Whoever listens hears positions in the whole file: when the file of `chunk` was replaced by one
/// of `last` bytes, that everything from just before the chunk on changed, and where the last of
/// those bytes ends.
pub proof fn law_changes_are_told_by_their_positions<C>(
    chunk: u64,
    chunk_size: u64,
    plan: ChunkPlan,
    wrapper: CallbackWrapper<C>,
    last: u64,
)
    requires
        planned(chunk, chunk_size, plan),
        wrapper.1 == plan.shift,
        chunk * chunk_size + last <= i64::MAX,
    ensures
        wrapper.fits(-1i64, last),
        wrapper.spec_shifted(-1i64, last).0 == chunk * chunk_size - 1,
        wrapper.spec_shifted(-1i64, last).1 == chunk * chunk_size + last,
{
}

/// Knows the size of a chunk from the size of the file.
pub struct FileCryptoWriterMetadataProviderImpl<P> {
    pub chunk_index: u64,
    pub chunk_size: u64,
    pub provider: P,
}

/// The size that a chunk of a file of `size` bytes is taken to have: a whole chunk if another one
/// follows or if the file ends with this one, else what is left behind the last multiple of the
/// chunk size.
pub open spec fn chunk_len(
    chunk_index: u64,
    chunk_size: u64,
    size: u64,
    next_exists: bool,
) -> u64 {
    if next_exists || size % chunk_size == 0 && size / chunk_size == chunk_index + 1 {
        chunk_size
    } else {
        size % chunk_size
    }
}

impl<P> FileCryptoWriterMetadataProviderImpl<P> {
    /// The name of the file of the chunk that follows.
    pub fn next_file_name(&self) -> (name: String)
        requires
            self.chunk_index < u64::MAX,
        ensures
            name@ == decimal((self.chunk_index + 1) as nat),
    {
        chunk_file_name(self.chunk_index + 1)
    }

    /// The size of the chunk in a file of `size` bytes.
    pub fn size_in(&self, size: u64, next_exists: bool) -> (r: u64)
        requires
            self.chunk_size > 0,
        ensures
            r == chunk_len(self.chunk_index, self.chunk_size, size, next_exists),
    {
        let chunks: u64 = size / self.chunk_size;
        let rest: u64 = size % self.chunk_size;
        if next_exists || rest == 0 && chunks > 0 && chunks - 1 == self.chunk_index {
            self.chunk_size
        } else {
            rest
        }
    }
}

impl<P: FileCryptoWriterMetadataProvider> FileCryptoWriterMetadataProviderImpl<P> {
    /// The size of the chunk, or the failure to learn the size of the file. `next_exists` says
    /// whether there is a file for the chunk that follows.
    pub fn size(&self, next_exists: bool) -> (r: io::Result<u64>)
        requires
            self.chunk_size > 0,
        ensures
            match r {
                Ok(len) => exists|size: u64|
                    #![trigger chunk_len(self.chunk_index, self.chunk_size, size, next_exists)]
                    call_ensures(P::size, (&self.provider,), Ok(size)) && len == chunk_len(
                        self.chunk_index,
                        self.chunk_size,
                        size,
                        next_exists,
                    ),
                Err(e) => call_ensures(P::size, (&self.provider,), Err(e)),
            },
    {
        match self.provider.size() {
            Ok(size) => Ok(self.size_in(size, next_exists)),
            Err(e) => Err(e),
        }
    }
}

/// A chunk is never taken to be smaller than it is, so that nothing of it is left behind, and the
/// last one is taken to be as large as it is. `len` is its true size; if no other chunk follows, it
/// ends where the file ends.
pub proof fn law_chunk_len_covers_chunk(
    chunk_index: u64,
    chunk_size: u64,
    len: u64,
    size: u64,
    next_exists: bool,
)
    requires
        0 < chunk_size,
        len <= chunk_size,
        !next_exists ==> size == chunk_index * chunk_size + len,
    ensures
        len <= chunk_len(chunk_index, chunk_size, size, next_exists) <= chunk_size,
        !next_exists ==> chunk_len(chunk_index, chunk_size, size, next_exists) == len,
{
    let cs = chunk_size as int;
    lemma_mod_bound(size as int, cs);
    if !next_exists {
        assert(chunk_index * cs >= 0) by (nonlinear_arith)
            requires
                cs > 0,
                chunk_index >= 0,
        ;
        if len < chunk_size {
            lemma_fundamental_div_mod_converse(size as int, cs, chunk_index as int, len as int);
        } else {
            assert(size == (chunk_index + 1) * cs) by (nonlinear_arith)
                requires
                    size == chunk_index * cs + cs,
            ;
            lemma_fundamental_div_mod_converse(size as int, cs, chunk_index + 1, 0);
        }
    }
}

/// The plan for a position is that of the one chunk that the position lies in: it begins at a whole
/// number of chunks, not behind the position and less than a chunk before it.
pub proof fn law_plan_is_for_the_position(pos: u64, chunk_size: u64, plan: ChunkPlan)
    requires
        chunk_size > 0,
        planned(pos / chunk_size, chunk_size, plan),
    ensures
        plan.shift <= pos < plan.shift + chunk_size,
        plan.shift == plan.chunk_index * chunk_size,
        plan.own_lock == plan.chunk_index,
        plan.file_lock == u64::MAX - 42,
        number(plan.file_name@) == plan.chunk_index,
{
    lemma_fundamental_div_mod(pos as int, chunk_size as int);
    lemma_mod_bound(pos as int, chunk_size as int);
    assert((pos / chunk_size) * chunk_size == chunk_size * (pos / chunk_size))
        by (nonlinear_arith);
    law_name_reads_as_the_index((pos / chunk_size) as nat);
}

/// A change is passed on by adding the shift to both numbers, whenever the sums can be told.
pub proof fn law_shift_is_added<C>(
    wrapper: CallbackWrapper<C>,
    changed_from_pos: i64,
    last_write_pos: u64,
)
    requires
        wrapper.1 <= i64::MAX,
        wrapper.1 + changed_from_pos <= i64::MAX,
        wrapper.1 + last_write_pos <= u64::MAX,
    ensures
        wrapper.fits(changed_from_pos, last_write_pos),
        wrapper.spec_shifted(changed_from_pos, last_write_pos).0 == wrapper.1 + changed_from_pos,
        wrapper.spec_shifted(changed_from_pos, last_write_pos).1 == wrapper.1 + last_write_pos,
{
}

/// A shift beyond the largest signed number counts as the negative number with the same bits where
/// the first number is told; the second one is the sum even then.
pub proof fn law_large_shifts_are_negative<C>(
    wrapper: CallbackWrapper<C>,
    changed_from_pos: i64,
    last_write_pos: u64,
)
    requires
        wrapper.1 > i64::MAX,
        wrapper.1 + changed_from_pos > i64::MAX,
        wrapper.1 + last_write_pos <= u64::MAX,
    ensures
        wrapper.fits(changed_from_pos, last_write_pos),
        wrapper.spec_shifted(changed_from_pos, last_write_pos).0 + 0x1_0000_0000_0000_0000
            == wrapper.1 + changed_from_pos,
        wrapper.spec_shifted(changed_from_pos, last_write_pos).1 == wrapper.1 + last_write_pos,
{
}

/// The size of a chunk is determined by the size of the file: a whole chunk if another one follows.
/// Else the file holds a whole number of chunks before it, and it is full just when the file ends
/// with it.
pub proof fn law_chunk_len_is_what_is_left(
    chunk_index: u64,
    chunk_size: u64,
    size: u64,
    next_exists: bool,
)
    requires
        0 < chunk_size,
    ensures
        ({
            let len = chunk_len(chunk_index, chunk_size, size, next_exists);
            &&& len <= chunk_size
            &&& next_exists ==> len == chunk_size
            &&& !next_exists ==> {
                &&& len <= size
                &&& (size - len) % (chunk_size as int) == 0
                &&& len == chunk_size <==> size == (chunk_index + 1) * chunk_size
            }
        }),
{
    let cs = chunk_size as int;
    let len = chunk_len(chunk_index, chunk_size, size, next_exists);
    let q = size as int / cs;
    lemma_fundamental_div_mod(size as int, cs);
    lemma_mod_bound(size as int, cs);
    assert(cs * q == q * cs) by (nonlinear_arith);
    assert((q - 1) * cs == q * cs - cs) by (nonlinear_arith);
    assert((chunk_index + 1) * cs == chunk_index * cs + cs) by (nonlinear_arith);
    lemma_div_pos_is_pos(size as int, cs);
    assert(0 <= q * cs) by (nonlinear_arith)
        requires
            0 <= q,
            0 < cs,
    ;
    if !next_exists {
        if size == (chunk_index + 1) * chunk_size {
            lemma_fundamental_div_mod_converse(size as int, cs, chunk_index + 1, 0);
            lemma_fundamental_div_mod_converse(size - len, cs, q - 1, 0);
        } else {
            assert(!(size % chunk_size == 0 && size / chunk_size == chunk_index + 1));
            lemma_fundamental_div_mod_converse(size - len, cs, q, 0);
        }
    }
}

} // verus!
