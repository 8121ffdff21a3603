//! What several operations of a [`ChunkedTmpFileCryptoWriter`] come to, one after the other.

use crate::chunked::{ChunkedGoal, ChunkedTmpFileCryptoWriter};
use crate::chunked_laws::{
    bounded, byte, cell, consistent, covers, has_sought, has_written, law_finish_stores_bytes,
    law_flush_changes_nothing, law_pos_is_position, law_seek_keeps_bytes, law_write_overwrites,
    lemma_place_of, lemma_places, lemma_same_cells, position, runs, view, with_file, write_goal,
    zeroed, ChunkFiles,
};
use crate::outcome::Step;
use crate::tmp_file_laws::{overwritten, padded};
use crate::tmp_file_sequence_laws::{Edit, Editor};
use vstd::arithmetic::div_mod::{lemma_div_pos_is_pos, lemma_fundamental_div_mod_converse};
use vstd::prelude::*;

verus! {

/// Chunks are determined by which of them have files and by the bytes at all positions.
pub proof fn law_chunks_are_their_bytes(
    m1: Map<int, Seq<u8>>,
    m2: Map<int, Seq<u8>>,
    chunk_size: u64,
)
    requires
        0 < chunk_size,
        bounded(m1, chunk_size),
        bounded(m2, chunk_size),
        forall|k: int| #[trigger] m1.dom().contains(k) <==> m2.dom().contains(k),
        forall|x: int| 0 <= x ==> #[trigger] byte(m1, chunk_size, x) == byte(m2, chunk_size, x),
    ensures
        m1 == m2,
{
    assert forall|k: int, i: int| 0 <= i < chunk_size implies #[trigger] cell(m1, k, i) == cell(
        m2,
        k,
        i,
    ) by {
        assert(m1.dom().contains(k) == m2.dom().contains(k));
        if 0 <= k {
            lemma_position_of(k, i, chunk_size);
            let x = k * chunk_size + i;
            assert(byte(m1, chunk_size, x) == byte(m2, chunk_size, x));
        }
    }
    lemma_same_cells(m1, m2, chunk_size);
}

/// The position of the byte at `i` of chunk `k`.
proof fn lemma_position_of(k: int, i: int, chunk_size: u64)
    requires
        0 <= k,
        0 <= i < chunk_size,
    ensures
        0 <= k * chunk_size + i,
        (k * chunk_size + i) / chunk_size as int == k,
        (k * chunk_size + i) % chunk_size as int == i,
{
    let cs = chunk_size as int;
    assert(0 <= k * cs) by (nonlinear_arith)
        requires
            0 <= k,
            0 < cs,
    ;
    lemma_fundamental_div_mod_converse(k * cs + i, cs, k, i);
}

/// The chunks of a writer without contradictions are bounded, whether one is open or not.
proof fn lemma_view_bounded(s: ChunkedTmpFileCryptoWriter, w: ChunkFiles)
    requires
        consistent(s, w),
    ensures
        bounded(view(s, w), s.chunk_size),
{
}

/// Writing some bytes and then more of them is writing them all.
pub proof fn law_writings_add_up(
    s: ChunkedTmpFileCryptoWriter,
    w: ChunkFiles,
    a: Seq<u8>,
    s1: ChunkedTmpFileCryptoWriter,
    w1: ChunkFiles,
    b: Seq<u8>,
    s2: ChunkedTmpFileCryptoWriter,
    w2: ChunkFiles,
)
    requires
        has_written(s, w, a, s1, w1),
        has_written(s1, w1, b, s2, w2),
    ensures
        has_written(s, w, a + b, s2, w2),
{
    let p = position(s, w);
    let data = a + b;
    assert forall|x: int| 0 <= x implies #[trigger] byte(view(s2, w2), s.chunk_size, x) == (if p
        <= x < p + data.len() {
        Some(data[x - p])
    } else {
        byte(view(s, w), s.chunk_size, x)
    }) by {
        assert(byte(view(s1, w1), s.chunk_size, x) == byte(view(s1, w1), s.chunk_size, x));
    }
    assert forall|k: int| #[trigger]
        view(s2, w2).dom().contains(k) <==> view(s, w).dom().contains(k) || covers(
            s.chunk_size,
            p,
            data.len() as int,
            k,
        ) by {
        assert(view(s1, w1).dom().contains(k) == view(s1, w1).dom().contains(k));
    }
}

/// Whether `calls` writes in a row, each of what the one before left, take all of `data`.
pub open spec fn writes_all<E>(
    s: ChunkedTmpFileCryptoWriter,
    w: ChunkFiles,
    data: Seq<u8>,
    calls: nat,
    s2: ChunkedTmpFileCryptoWriter,
    w2: ChunkFiles,
) -> bool
    decreases calls,
{
    if calls == 0 {
        data.len() == 0 && s == s2 && w == w2
    } else {
        data.len() > 0 && exists|
            n: nat,
            s1: ChunkedTmpFileCryptoWriter,
            w1: ChunkFiles,
            reported: u64,
        | #[trigger]
            runs::<E>(data, s, w, write_goal(data), n, s1, w1, Step::Done(reported)) && reported
                <= data.len() && writes_all::<E>(
                s1,
                w1,
                data.subrange(reported as int, data.len() as int),
                (calls - 1) as nat,
                s2,
                w2,
            )
    }
}

/// Writing until everything is taken writes everything. One write does it if no inner write in a
/// chunk is short.
pub proof fn law_write_all_writes_everything<E>(
    s: ChunkedTmpFileCryptoWriter,
    w: ChunkFiles,
    data: Seq<u8>,
    calls: nat,
    s2: ChunkedTmpFileCryptoWriter,
    w2: ChunkFiles,
)
    requires
        consistent(s, w),
        data.len() <= usize::MAX,
        writes_all::<E>(s, w, data, calls, s2, w2),
    ensures
        has_written(s, w, data, s2, w2),
        s.chunk_size <= w.capacity ==> calls <= 1,
    decreases calls,
{
    if calls > 0 {
        let (n, s1, w1, reported) = choose|
            n: nat,
            s1: ChunkedTmpFileCryptoWriter,
            w1: ChunkFiles,
            reported: u64,
        | #[trigger]
            runs::<E>(data, s, w, write_goal(data), n, s1, w1, Step::Done(reported)) && reported
                <= data.len() && writes_all::<E>(
                s1,
                w1,
                data.subrange(reported as int, data.len() as int),
                (calls - 1) as nat,
                s2,
                w2,
            );
        let rest = data.subrange(reported as int, data.len() as int);
        law_write_overwrites::<E>(s, w, data, n, s1, w1, reported);
        law_write_all_writes_everything::<E>(s1, w1, rest, (calls - 1) as nat, s2, w2);
        law_writings_add_up(
            s,
            w,
            data.subrange(0, reported as int),
            s1,
            w1,
            rest,
            s2,
            w2,
        );
        assert(data.subrange(0, reported as int) + rest =~= data);
    }
}

/// Whether the parts are written one after the other, each of them wholly.
pub open spec fn writes_parts<E>(
    s: ChunkedTmpFileCryptoWriter,
    w: ChunkFiles,
    parts: Seq<Seq<u8>>,
    s2: ChunkedTmpFileCryptoWriter,
    w2: ChunkFiles,
) -> bool
    decreases parts.len(),
{
    if parts.len() == 0 {
        s == s2 && w == w2
    } else {
        parts[0].len() <= usize::MAX && exists|
            calls: nat,
            s1: ChunkedTmpFileCryptoWriter,
            w1: ChunkFiles,
        | #[trigger]
            writes_all::<E>(s, w, parts[0], calls, s1, w1) && writes_parts::<E>(
                s1,
                w1,
                parts.drop_first(),
                s2,
                w2,
            )
    }
}

/// However the bytes are dealt out to the calls, they are written in their order.
pub proof fn law_parts_are_written_in_order<E>(
    s: ChunkedTmpFileCryptoWriter,
    w: ChunkFiles,
    parts: Seq<Seq<u8>>,
    s2: ChunkedTmpFileCryptoWriter,
    w2: ChunkFiles,
)
    requires
        consistent(s, w),
        writes_parts::<E>(s, w, parts, s2, w2),
    ensures
        has_written(s, w, parts.flatten(), s2, w2),
    decreases parts.len(),
{
    if parts.len() > 0 {
        let (calls, s1, w1) = choose|
            calls: nat,
            s1: ChunkedTmpFileCryptoWriter,
            w1: ChunkFiles,
        | #[trigger]
            writes_all::<E>(s, w, parts[0], calls, s1, w1) && writes_parts::<E>(
                s1,
                w1,
                parts.drop_first(),
                s2,
                w2,
            );
        law_write_all_writes_everything::<E>(s, w, parts[0], calls, s1, w1);
        law_parts_are_written_in_order::<E>(s1, w1, parts.drop_first(), s2, w2);
        law_writings_add_up(s, w, parts[0], s1, w1, parts.drop_first().flatten(), s2, w2);
    }
}

/// The position of a new writer counts the bytes that were written, also at the end of a chunk.
/// Asking for it a second time gives the same, and changes nothing any more; the first time, at
/// most an empty file for the current chunk is created.
pub proof fn law_pos_counts_written_bytes<E>(
    s: ChunkedTmpFileCryptoWriter,
    w: ChunkFiles,
    parts: Seq<Seq<u8>>,
    s1: ChunkedTmpFileCryptoWriter,
    w1: ChunkFiles,
    n: nat,
    s2: ChunkedTmpFileCryptoWriter,
    w2: ChunkFiles,
    pos: u64,
    n2: nat,
    s3: ChunkedTmpFileCryptoWriter,
    w3: ChunkFiles,
    again: u64,
)
    requires
        consistent(s, w),
        s.chunk_index == 0 && !s.writer,
        writes_parts::<E>(s, w, parts, s1, w1),
        runs::<E>(Seq::empty(), s1, w1, ChunkedGoal::Pos, n, s2, w2, Step::Done(pos)),
        runs::<E>(Seq::empty(), s2, w2, ChunkedGoal::Pos, n2, s3, w3, Step::Done(again)),
    ensures
        pos == parts.flatten().len(),
        again == pos,
        view(s2, w2) == with_file(view(s1, w1), s1.chunk_index as int),
        view(s3, w3) == view(s2, w2),
{
    law_parts_are_written_in_order::<E>(s, w, parts, s1, w1);
    law_pos_is_position::<E>(s1, w1, n, s2, w2, pos);
    law_pos_is_position::<E>(s2, w2, n2, s3, w3, again);
}

/// Two writes make the same as one write of both: their numbers add up, the writer stands at the
/// same position, and the chunks are the same, before and after finishing. No inner write in a
/// chunk is to be short.
pub proof fn law_two_writes_make_one<E>(
    s: ChunkedTmpFileCryptoWriter,
    w: ChunkFiles,
    a: Seq<u8>,
    b: Seq<u8>,
    na: nat,
    s1: ChunkedTmpFileCryptoWriter,
    w1: ChunkFiles,
    ra: u64,
    nb: nat,
    s2: ChunkedTmpFileCryptoWriter,
    w2: ChunkFiles,
    rb: u64,
    nc: nat,
    s3: ChunkedTmpFileCryptoWriter,
    w3: ChunkFiles,
    rc: u64,
)
    requires
        consistent(s, w),
        s.chunk_size <= w.capacity,
        a.len() + b.len() <= usize::MAX,
        runs::<E>(a, s, w, write_goal(a), na, s1, w1, Step::Done(ra)),
        runs::<E>(b, s1, w1, write_goal(b), nb, s2, w2, Step::Done(rb)),
        runs::<E>(a + b, s, w, write_goal(a + b), nc, s3, w3, Step::Done(rc)),
    ensures
        ra + rb == rc,
        position(s2, w2) == position(s3, w3),
        view(s2, w2) == view(s3, w3),
        forall|
            n4: nat,
            s4: ChunkedTmpFileCryptoWriter,
            w4: ChunkFiles,
            v4: u64,
            n5: nat,
            s5: ChunkedTmpFileCryptoWriter,
            w5: ChunkFiles,
            v5: u64,
        |
            !w.lost && !w4.lost && !w5.lost && #[trigger] runs::<E>(
                Seq::empty(),
                s2,
                w2,
                ChunkedGoal::Finish,
                n4,
                s4,
                w4,
                Step::Done(v4),
            ) && #[trigger] runs::<E>(
                Seq::empty(),
                s3,
                w3,
                ChunkedGoal::Finish,
                n5,
                s5,
                w5,
                Step::Done(v5),
            ) ==> w4.files == w5.files,
{
    law_write_overwrites::<E>(s, w, a, na, s1, w1, ra);
    law_write_overwrites::<E>(s1, w1, b, nb, s2, w2, rb);
    law_write_overwrites::<E>(s, w, a + b, nc, s3, w3, rc);
    assert(a.subrange(0, ra as int) =~= a);
    assert(b.subrange(0, rb as int) =~= b);
    assert((a + b).subrange(0, rc as int) =~= a + b);
    law_writings_add_up(s, w, a, s1, w1, b, s2, w2);
    lemma_view_bounded(s2, w2);
    lemma_view_bounded(s3, w3);
    assert forall|x: int| 0 <= x implies #[trigger] byte(view(s2, w2), s.chunk_size, x) == byte(
        view(s3, w3),
        s.chunk_size,
        x,
    ) by {}
    assert forall|k: int| #[trigger] view(s2, w2).dom().contains(k) <==> view(
        s3,
        w3,
    ).dom().contains(k) by {}
    law_chunks_are_their_bytes(view(s2, w2), view(s3, w3), s.chunk_size);
    assert forall|
        n4: nat,
        s4: ChunkedTmpFileCryptoWriter,
        w4: ChunkFiles,
        v4: u64,
        n5: nat,
        s5: ChunkedTmpFileCryptoWriter,
        w5: ChunkFiles,
        v5: u64,
    |
        !w.lost && !w4.lost && !w5.lost && #[trigger] runs::<E>(
            Seq::empty(),
            s2,
            w2,
            ChunkedGoal::Finish,
            n4,
            s4,
            w4,
            Step::Done(v4),
        ) && #[trigger] runs::<E>(
            Seq::empty(),
            s3,
            w3,
            ChunkedGoal::Finish,
            n5,
            s5,
            w5,
            Step::Done(v5),
        ) implies w4.files == w5.files by {
        law_finish_stores_bytes::<E>(s2, w2, n4, s4, w4, v4);
        law_finish_stores_bytes::<E>(s3, w3, n5, s5, w5, v5);
    }
}

/// What the first `n` chunks hold, one behind the other.
pub open spec fn joined(m: Map<int, Seq<u8>>, n: nat) -> Seq<u8>
    decreases n,
{
    if n == 0 {
        Seq::empty()
    } else {
        joined(m, (n - 1) as nat) + m[n - 1]
    }
}

/// Whether `content` is cut into the `n` chunks that have files: all but the last one are full.
pub open spec fn cut(m: Map<int, Seq<u8>>, chunk_size: u64, n: nat, content: Seq<u8>) -> bool {
    &&& forall|k: int| #[trigger] m.dom().contains(k) <==> 0 <= k < n
    &&& forall|k: int| 0 <= k < n - 1 ==> (#[trigger] m[k]).len() == chunk_size
    &&& 0 < n ==> m[n - 1].len() <= chunk_size
    &&& joined(m, n) == content
}

/// The bytes at all positions are those of `content`.
pub open spec fn spells(m: Map<int, Seq<u8>>, chunk_size: u64, content: Seq<u8>) -> bool {
    forall|x: int|
        0 <= x ==> #[trigger] byte(m, chunk_size, x) == (if x < content.len() {
            Some(content[x])
        } else {
            None
        })
}

/// Whether `content` holds the byte at `i` of chunk `k` at its position.
spec fn found(m: Map<int, Seq<u8>>, chunk_size: u64, content: Seq<u8>, k: int, i: int) -> bool {
    &&& 0 <= k * chunk_size + i < content.len()
    &&& content[k * chunk_size + i] == m[k][i]
}

proof fn lemma_joined(m: Map<int, Seq<u8>>, chunk_size: u64, n: nat)
    requires
        0 < n,
        forall|k: int| 0 <= k < n - 1 ==> (#[trigger] m[k]).len() == chunk_size,
        m[n - 1].len() <= chunk_size,
    ensures
        joined(m, n).len() == (n - 1) * chunk_size + m[n - 1].len(),
        forall|k: int, i: int|
            0 <= k < n && 0 <= i < m[k].len() ==> #[trigger] found(
                m,
                chunk_size,
                joined(m, n),
                k,
                i,
            ),
    decreases n,
{
    let before = (n - 1) as nat;
    let cs = chunk_size as int;
    if 0 < before {
        lemma_joined(m, chunk_size, before);
        assert((before - 1) * cs + cs == before * cs) by (nonlinear_arith);
    }
    assert(joined(m, before).len() == before * cs);
    assert forall|k: int, i: int| 0 <= k < n && 0 <= i < m[k].len() implies #[trigger] found(
        m,
        chunk_size,
        joined(m, n),
        k,
        i,
    ) by {
        assert(m[k].len() <= chunk_size);
        assert(0 <= k * cs) by (nonlinear_arith)
            requires
                0 <= k,
                0 <= cs,
        ;
        if k < before {
            assert(found(m, chunk_size, joined(m, before), k, i));
            assert(k * cs + cs <= before * cs) by (nonlinear_arith)
                requires
                    k + 1 <= before,
                    0 <= cs,
            ;
        }
    }
}

/// A content that is cut into chunks is what their bytes spell.
pub proof fn law_cut_content_is_spelled(
    m: Map<int, Seq<u8>>,
    chunk_size: u64,
    n: nat,
    content: Seq<u8>,
)
    requires
        0 < chunk_size,
        cut(m, chunk_size, n, content),
    ensures
        spells(m, chunk_size, content),
        content.len() <= n * chunk_size,
        0 < n ==> (n - 1) * chunk_size <= content.len(),
{
    let cs = chunk_size as int;
    if 0 < n {
        lemma_joined(m, chunk_size, n);
        assert((n - 1) * cs + cs == n * cs) by (nonlinear_arith);
    }
    assert forall|x: int| 0 <= x implies #[trigger] byte(m, chunk_size, x) == (if x
        < content.len() {
        Some(content[x])
    } else {
        None
    }) by {
        lemma_place_of(x, chunk_size);
        let k = x / cs;
        let i = x % cs;
        if 0 < n {
            lemma_places(cs, n - 1, k, i);
        }
        if m.dom().contains(k) && i < m[k].len() {
            assert(found(m, chunk_size, content, k, i));
        }
        lemma_div_pos_is_pos(x, cs);
    }
}

/// Bytes that spell a content are a cut of it, if the right chunks have files.
proof fn lemma_spelled_content_is_cut(
    m: Map<int, Seq<u8>>,
    chunk_size: u64,
    n: nat,
    content: Seq<u8>,
)
    requires
        0 < chunk_size,
        bounded(m, chunk_size),
        spells(m, chunk_size, content),
        forall|k: int| #[trigger] m.dom().contains(k) <==> 0 <= k < n,
        content.len() <= n * chunk_size,
        0 < n ==> (n - 1) * chunk_size <= content.len(),
    ensures
        cut(m, chunk_size, n, content),
{
    let cs = chunk_size as int;
    assert forall|k: int| 0 <= k < n implies (#[trigger] m[k]).len() == (if k < n - 1 {
        cs
    } else {
        content.len() - (n - 1) * chunk_size
    }) by {
        let len = m[k].len() as int;
        assert(m.dom().contains(k));
        lemma_places(cs, n - 1, k, cs - 1);
        assert((n - 1) * cs + cs == n * cs) by (nonlinear_arith);
        if 0 < len {
            lemma_position_of(k, len - 1, chunk_size);
            assert(byte(m, chunk_size, k * chunk_size + (len - 1)) is Some);
        }
        if len < cs {
            lemma_position_of(k, len, chunk_size);
            assert(byte(m, chunk_size, k * chunk_size + len) is None);
        }
        lemma_position_of(k, 0, chunk_size);
    }
    if 0 < n {
        lemma_joined(m, chunk_size, n);
        assert forall|x: int| 0 <= x < content.len() implies joined(m, n)[x] == content[x] by {
            lemma_place_of(x, chunk_size);
            let k = x / cs;
            let i = x % cs;
            assert(byte(m, chunk_size, x) == Some(content[x]));
            assert(found(m, chunk_size, joined(m, n), k, i));
        }
        assert(joined(m, n) =~= content);
    } else {
        assert(joined(m, n) =~= content);
    }
}

/// The bytes that a seek and a write leave.
proof fn lemma_spelled(
    m: Map<int, Seq<u8>>,
    m2: Map<int, Seq<u8>>,
    chunk_size: u64,
    content: Seq<u8>,
    p: int,
    data: Seq<u8>,
)
    requires
        spells(m, chunk_size, content),
        0 <= p <= content.len(),
        forall|x: int|
            0 <= x ==> #[trigger] byte(m2, chunk_size, x) == (if p <= x < p + data.len() {
                Some(data[x - p])
            } else {
                byte(m, chunk_size, x)
            }),
    ensures
        spells(m2, chunk_size, overwritten(content, p as nat, data)),
{
    let after = overwritten(content, p as nat, data);
    assert forall|x: int| 0 <= x implies #[trigger] byte(m2, chunk_size, x) == (if x < after.len() {
        Some(after[x])
    } else {
        None
    }) by {
        assert(byte(m, chunk_size, x) == byte(m, chunk_size, x));
    }
}

/// How many chunks there are when `n` were there and the bytes of a write of `len` at `p` have
/// their places.
spec fn chunks_after(n: nat, chunk_size: u64, p: int, len: int) -> nat {
    let cs = chunk_size as int;
    let there = if n <= p / cs {
        p / cs + 1
    } else {
        n as int
    };
    if 0 < len && there <= (p + len - 1) / cs {
        ((p + len - 1) / cs + 1) as nat
    } else {
        there as nat
    }
}

proof fn lemma_chunks_after(n: nat, chunk_size: u64, content_len: int, p: int, len: int)
    requires
        0 < chunk_size,
        0 <= p <= content_len <= n * chunk_size,
        0 < n ==> (n - 1) * chunk_size <= content_len,
        0 <= len,
    ensures
        ({
            let n2 = chunks_after(n, chunk_size, p, len);
            let end = if content_len < p + len {
                p + len
            } else {
                content_len
            };
            &&& 0 < n2
            &&& (n2 - 1) * chunk_size <= end <= n2 * chunk_size
            &&& forall|k: int|
                0 <= k ==> (k < n2 <==> k < n || k <= p / chunk_size as int || #[trigger] covers(
                    chunk_size,
                    p,
                    len,
                    k,
                ))
        }),
{
    let cs = chunk_size as int;
    let n2 = chunks_after(n, chunk_size, p, len);
    let j = p / cs;
    lemma_place_of(p, chunk_size);
    lemma_places(cs, n as int, j, p % cs);
    lemma_div_pos_is_pos(p, cs);
    assert((j + 1) * cs == j * cs + cs) by (nonlinear_arith);
    assert((n - 1) * cs == n * cs - cs) by (nonlinear_arith);
    assert((n2 - 1) * cs == n2 * cs - cs) by (nonlinear_arith);
    if 0 < len {
        let e = p + len - 1;
        lemma_place_of(e, chunk_size);
        let l = e / cs;
        assert((l + 1) * cs == l * cs + cs) by (nonlinear_arith);
        lemma_places(cs, n as int, l, e % cs);
        lemma_places(cs, j + 1, l, e % cs);
        lemma_places(cs, l, n - 1, cs - 1);
        lemma_places(cs, l, j, cs - 1);
        assert forall|k: int| 0 <= k implies (k < n2 <==> k < n || k <= j || #[trigger] covers(
            chunk_size,
            p,
            len,
            k,
        )) by {
            lemma_places(cs, l, k, 0);
            lemma_places(cs, j, k, cs - 1);
        }
        assert(n * cs <= (l + 1) * cs || l < n) by (nonlinear_arith)
            requires
                n <= l + 1 || l < n,
                0 < cs,
        ;
    }
}

/// Seeking, writing and finishing together edit the content of the chunks in place: of a content
/// that is cut into chunks, the bytes behind the new ones and before them stay, and the outcome is
/// cut into chunks again, all of them full but the last one.
pub proof fn law_chunks_are_edited_in_place<E>(
    s: ChunkedTmpFileCryptoWriter,
    w: ChunkFiles,
    n: nat,
    content: Seq<u8>,
    p: u64,
    n1: nat,
    s1: ChunkedTmpFileCryptoWriter,
    w1: ChunkFiles,
    reported: u64,
    data: Seq<u8>,
    calls: nat,
    s2: ChunkedTmpFileCryptoWriter,
    w2: ChunkFiles,
    n3: nat,
    s3: ChunkedTmpFileCryptoWriter,
    w3: ChunkFiles,
    v: u64,
) -> (after: nat)
    requires
        consistent(s, w),
        s.chunk_index == 0 && !s.writer,
        cut(w.files, s.chunk_size, n, content),
        p <= content.len(),
        data.len() <= usize::MAX,
        runs::<E>(
            Seq::empty(),
            s,
            w,
            ChunkedGoal::Seek { target: p },
            n1,
            s1,
            w1,
            Step::Done(reported),
        ),
        writes_all::<E>(s1, w1, data, calls, s2, w2),
        runs::<E>(Seq::empty(), s2, w2, ChunkedGoal::Finish, n3, s3, w3, Step::Done(v)),
        !w.lost && !w3.lost,
    ensures
        cut(w3.files, s.chunk_size, after, overwritten(content, p as nat, data)),
{
    let cs = s.chunk_size as int;
    let goal = ChunkedGoal::Seek { target: p };
    law_seek_keeps_bytes::<E>(s, w, goal, p, n1, s1, w1, reported);
    law_write_all_writes_everything::<E>(s1, w1, data, calls, s2, w2);
    law_finish_stores_bytes::<E>(s2, w2, n3, s3, w3, v);
    law_cut_content_is_spelled(w.files, s.chunk_size, n, content);
    let m1 = view(s1, w1);
    let m2 = view(s2, w2);
    assert forall|x: int| 0 <= x implies #[trigger] byte(m1, s.chunk_size, x) == byte(
        w.files,
        s.chunk_size,
        x,
    ) by {}
    assert forall|x: int| 0 <= x implies #[trigger] byte(m2, s.chunk_size, x) == (if p <= x < p
        + data.len() {
        Some(data[x - p])
    } else {
        byte(w.files, s.chunk_size, x)
    }) by {
        assert(byte(m1, s.chunk_size, x) == byte(w.files, s.chunk_size, x));
    }
    let edited = overwritten(content, p as nat, data);
    lemma_spelled(w.files, m2, s.chunk_size, content, p as int, data);
    lemma_view_bounded(s2, w2);
    let after = chunks_after(n, s.chunk_size, p as int, data.len() as int);
    lemma_chunks_after(n, s.chunk_size, content.len() as int, p as int, data.len() as int);
    assert forall|k: int| #[trigger] m2.dom().contains(k) <==> 0 <= k < after by {
        assert(m1.dom().contains(k) == m1.dom().contains(k));
        assert(covers(s.chunk_size, p as int, data.len() as int, k) == covers(
            s.chunk_size,
            p as int,
            data.len() as int,
            k,
        ));
    }
    assert(m2.dom().contains(0));
    assert(w3.files == m2);
    lemma_spelled_content_is_cut(m2, s.chunk_size, after, edited);
    after
}

/// Whether a seek to `target` passes a chunk that has a file but is not full. Such a chunk keeps
/// its length, and the bytes that it lacks stay missing.
pub open spec fn passes_short_chunk(
    s: ChunkedTmpFileCryptoWriter,
    w: ChunkFiles,
    target: u64,
) -> bool {
    exists|k: int|
        s.chunk_index < k < (target / s.chunk_size) as int && #[trigger] w.files.dom().contains(k)
            && w.files[k].len() < s.chunk_size
}

/// Whether the operation for `edit` runs from its start to its end in `n` pieces of work.
pub open spec fn does_edit<E>(
    s: ChunkedTmpFileCryptoWriter,
    w: ChunkFiles,
    edit: Edit,
    n: nat,
    s2: ChunkedTmpFileCryptoWriter,
    w2: ChunkFiles,
    v: u64,
) -> bool {
    match edit {
        Edit::Write { data, taken } => {
            &&& data.len() <= usize::MAX
            &&& taken == v
            &&& runs::<E>(data, s, w, write_goal(data), n, s2, w2, Step::Done(v))
        },
        Edit::Seek { target } => {
            &&& !passes_short_chunk(s, w, target)
            &&& runs::<E>(
                Seq::empty(),
                s,
                w,
                ChunkedGoal::Seek { target },
                n,
                s2,
                w2,
                Step::Done(v),
            )
        },
        Edit::Flush => runs::<E>(
            Seq::empty(),
            s,
            w,
            ChunkedGoal::Flush,
            n,
            s2,
            w2,
            Step::Done(v),
        ),
    }
}

/// Whether the operations for the edits run one after the other.
pub open spec fn does_edits<E>(
    s: ChunkedTmpFileCryptoWriter,
    w: ChunkFiles,
    edits: Seq<Edit>,
    s2: ChunkedTmpFileCryptoWriter,
    w2: ChunkFiles,
) -> bool
    decreases edits.len(),
{
    if edits.len() == 0 {
        s == s2 && w == w2
    } else {
        exists|n: nat, s1: ChunkedTmpFileCryptoWriter, w1: ChunkFiles, v: u64| #[trigger]
            does_edit::<E>(s, w, edits[0], n, s1, w1, v) && does_edits::<E>(
                s1,
                w1,
                edits.drop_first(),
                s2,
                w2,
            )
    }
}

/// Whether the writer stands for `e`: its content is cut into the chunks, and the writer is in it
/// with room left in an open chunk.
pub open spec fn stands_for(
    s: ChunkedTmpFileCryptoWriter,
    w: ChunkFiles,
    n: nat,
    e: Editor,
) -> bool {
    &&& consistent(s, w)
    &&& s.writer ==> w.open.at < s.chunk_size
    &&& cut(view(s, w), s.chunk_size, n, e.content)
    &&& position(s, w) == e.pos <= e.content.len()
}

proof fn lemma_write_stands(
    s: ChunkedTmpFileCryptoWriter,
    w: ChunkFiles,
    n: nat,
    e: Editor,
    part: Seq<u8>,
    s2: ChunkedTmpFileCryptoWriter,
    w2: ChunkFiles,
) -> (n2: nat)
    requires
        stands_for(s, w, n, e),
        has_written(s, w, part, s2, w2),
    ensures
        stands_for(
            s2,
            w2,
            n2,
            Editor { content: overwritten(e.content, e.pos, part), pos: e.pos + part.len() },
        ),
{
    let after = overwritten(e.content, e.pos, part);
    if part.len() == 0 {
        assert(after =~= e.content);
        n
    } else {
        let p = e.pos as int;
        let len = part.len() as int;
        let cs = s.chunk_size as int;
        let m2 = view(s2, w2);
        law_cut_content_is_spelled(view(s, w), s.chunk_size, n, e.content);
        lemma_spelled(view(s, w), m2, s.chunk_size, e.content, p, part);
        lemma_view_bounded(s2, w2);
        let n2 = chunks_after(n, s.chunk_size, p, len);
        lemma_chunks_after(n, s.chunk_size, e.content.len() as int, p, len);
        lemma_place_of(p, s.chunk_size);
        lemma_places(cs, n as int, p / cs, p % cs);
        assert(covers(s.chunk_size, p, len, p / cs));
        assert forall|k: int| #[trigger] m2.dom().contains(k) <==> 0 <= k < n2 by {
            assert(view(s, w).dom().contains(k) == view(s, w).dom().contains(k));
            assert(covers(s.chunk_size, p, len, k) == covers(s.chunk_size, p, len, k));
        }
        lemma_spelled_content_is_cut(m2, s.chunk_size, n2, after);
        n2
    }
}

proof fn lemma_seek_stands(
    s: ChunkedTmpFileCryptoWriter,
    w: ChunkFiles,
    n: nat,
    e: Editor,
    target: u64,
    s2: ChunkedTmpFileCryptoWriter,
    w2: ChunkFiles,
) -> (n2: nat)
    requires
        stands_for(s, w, n, e),
        !passes_short_chunk(s, w, target),
        has_sought(s, w, target, s2, w2),
    ensures
        stands_for(
            s2,
            w2,
            n2,
            Editor { content: padded(e.content, target as nat), pos: target as nat },
        ),
{
    let cs = s.chunk_size as int;
    let m = view(s, w);
    let m2 = view(s2, w2);
    let after = padded(e.content, target as nat);
    let first = s.chunk_index as int;
    let last = (target / s.chunk_size) as int;
    let there = if n <= first {
        first + 1
    } else {
        n as int
    };
    let n2 = (if target != e.pos && there <= last {
        last + 1
    } else {
        there
    }) as nat;
    law_cut_content_is_spelled(m, s.chunk_size, n, e.content);
    lemma_view_bounded(s2, w2);
    lemma_place_of(target as int, s.chunk_size);
    lemma_div_pos_is_pos(target as int, cs);
    lemma_places(cs, n as int, first, 0);
    lemma_places(cs, n as int, last, target as int % cs);
    lemma_places(cs, first, last, target as int % cs);
    assert((n - 1) * cs == n * cs - cs) by (nonlinear_arith);
    assert((n2 - 1) * cs == n2 * cs - cs) by (nonlinear_arith);
    assert(there * cs >= n * cs) by (nonlinear_arith)
        requires
            there >= n,
            cs > 0,
    ;
    assert(n2 * cs >= there * cs) by (nonlinear_arith)
        requires
            n2 >= there,
            cs > 0,
    ;
    assert forall|x: int| 0 <= x implies #[trigger] byte(m2, s.chunk_size, x) == (if x
        < after.len() {
        Some(after[x])
    } else {
        None
    }) by {
        lemma_place_of(x, s.chunk_size);
        let k = x / cs;
        assert(byte(m, s.chunk_size, x) == byte(m, s.chunk_size, x));
        if e.content.len() <= x < target {
            lemma_places(cs, first, k, x % cs);
            lemma_places(cs, last, k, x % cs);
            if first < k < last && w.files.dom().contains(k) {
                assert(m.dom().contains(k) && m[k] == w.files[k]);
                assert(w.files[k].len() < s.chunk_size);
                assert(false);
            }
            assert(zeroed(s, w, target, x));
        }
    }
    assert forall|k: int| #[trigger] m2.dom().contains(k) <==> 0 <= k < n2 by {
        assert(m.dom().contains(k) == m.dom().contains(k));
    }
    lemma_spelled_content_is_cut(m2, s.chunk_size, n2, after);
    n2
}

/// However writes, seeks and flushes follow each other, the writer stands for what an editor in
/// place would have come to, unless a seek passes a chunk that is short.
pub proof fn law_edits_are_in_place<E>(
    s: ChunkedTmpFileCryptoWriter,
    w: ChunkFiles,
    n: nat,
    e: Editor,
    edits: Seq<Edit>,
    s2: ChunkedTmpFileCryptoWriter,
    w2: ChunkFiles,
) -> (n2: nat)
    requires
        stands_for(s, w, n, e),
        does_edits::<E>(s, w, edits, s2, w2),
    ensures
        stands_for(s2, w2, n2, e.edited_all(edits)),
        s2.chunk_size == s.chunk_size,
        w2.lost == w.lost,
    decreases edits.len(),
{
    if edits.len() == 0 {
        n
    } else {
        let (k, s1, w1, v) = choose|
            k: nat,
            s1: ChunkedTmpFileCryptoWriter,
            w1: ChunkFiles,
            v: u64,
        | #[trigger]
            does_edit::<E>(s, w, edits[0], k, s1, w1, v) && does_edits::<E>(
                s1,
                w1,
                edits.drop_first(),
                s2,
                w2,
            );
        let n1 = match edits[0] {
            Edit::Write { data, .. } => {
                law_write_overwrites::<E>(s, w, data, k, s1, w1, v);
                lemma_write_stands(s, w, n, e, data.subrange(0, v as int), s1, w1)
            },
            Edit::Seek { target } => {
                law_seek_keeps_bytes::<E>(
                    s,
                    w,
                    ChunkedGoal::Seek { target },
                    target,
                    k,
                    s1,
                    w1,
                    v,
                );
                lemma_seek_stands(s, w, n, e, target, s1, w1)
            },
            Edit::Flush => {
                law_flush_changes_nothing::<E>(s, w, k, s1, w1, v);
                n
            },
        };
        law_edits_are_in_place::<E>(
            s1,
            w1,
            n1,
            e.edited(edits[0]),
            edits.drop_first(),
            s2,
            w2,
        )
    }
}

/// A new writer that was edited with and finished leaves the chunks as an editor in place would
/// have left the file, cut so that all of them are full but the last one, unless a seek passes a
/// chunk that is short.
pub proof fn law_chunks_are_edited_as_one_file<E>(
    s: ChunkedTmpFileCryptoWriter,
    w: ChunkFiles,
    n: nat,
    content: Seq<u8>,
    edits: Seq<Edit>,
    s2: ChunkedTmpFileCryptoWriter,
    w2: ChunkFiles,
    n3: nat,
    s3: ChunkedTmpFileCryptoWriter,
    w3: ChunkFiles,
    v: u64,
) -> (after: nat)
    requires
        consistent(s, w),
        s.chunk_index == 0 && !s.writer,
        cut(w.files, s.chunk_size, n, content),
        does_edits::<E>(s, w, edits, s2, w2),
        runs::<E>(Seq::empty(), s2, w2, ChunkedGoal::Finish, n3, s3, w3, Step::Done(v)),
        !w.lost && !w3.lost,
    ensures
        cut(
            w3.files,
            s.chunk_size,
            after,
            (Editor { content, pos: 0 }).edited_all(edits).content,
        ),
{
    let e = Editor { content, pos: 0 };
    let n2 = law_edits_are_in_place::<E>(s, w, n, e, edits, s2, w2);
    law_finish_stores_bytes::<E>(s2, w2, n3, s3, w3, v);
    if n2 == 0 {
        assert(joined(w3.files, 0) == Seq::<u8>::empty());
        assert(joined(w3.files, 1) =~= Seq::<u8>::empty());
        1
    } else {
        assert(view(s2, w2).dom().contains(0));
        n2
    }
}

} // verus!
