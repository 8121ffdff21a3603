//! The stream that a [`RingCryptoWriter`](crate::ring_writer::RingCryptoWriter) sends out, and how
//! it is read back.
//!
//! A stream is a row of blocks: a nonce, the sealed bytes and the tag. All blocks but the last one
//! are full.

use crate::aead::{
    aead_open, aead_seal, expose, open, sealable, seals_to, secret_bytes, Cipher, SecretKey,
    NONCE_LEN, TAG_LEN,
};
use crate::ring_writer::BUF_SIZE;
use vstd::prelude::*;

verus! {

/// Some bytes and the nonce that they are sealed under.
#[verifier::ext_equal]
pub struct Block {
    pub nonce: Seq<u8>,
    pub plain: Seq<u8>,
}

impl Block {
    /// The sealed bytes and the tag.
    pub open spec fn sealed(self, cipher: Cipher, key: Seq<u8>) -> Seq<u8> {
        let sealed = aead_seal(cipher, key, self.nonce, self.plain);
        sealed.0 + sealed.1
    }

    /// The block as it goes out.
    pub open spec fn bytes(self, cipher: Cipher, key: Seq<u8>) -> Seq<u8> {
        self.nonce + self.sealed(cipher, key)
    }

    /// Whether the block can be sealed, holds something and no more than `capacity` bytes.
    pub open spec fn sound(self, cipher: Cipher, key: Seq<u8>, capacity: nat) -> bool {
        &&& sealable(cipher, key, self.nonce, self.plain)
        &&& self.sealed(cipher, key).len() == self.plain.len() + TAG_LEN
        &&& 0 < self.plain.len() <= capacity
    }
}

/// The blocks, one behind the other.
pub open spec fn stream(cipher: Cipher, key: Seq<u8>, blocks: Seq<Block>) -> Seq<u8>
    decreases blocks.len(),
{
    if blocks.len() == 0 {
        Seq::empty()
    } else {
        blocks[0].bytes(cipher, key) + stream(cipher, key, blocks.skip(1))
    }
}

/// What the blocks hold, one behind the other.
pub open spec fn plain(blocks: Seq<Block>) -> Seq<u8>
    decreases blocks.len(),
{
    if blocks.len() == 0 {
        Seq::empty()
    } else {
        blocks[0].plain + plain(blocks.skip(1))
    }
}

/// Whether every block is sound and all but the last one are full.
pub open spec fn well_cut(
    cipher: Cipher,
    key: Seq<u8>,
    capacity: nat,
    blocks: Seq<Block>,
) -> bool {
    forall|i: int|
        #![trigger blocks[i]]
        0 <= i < blocks.len() ==> blocks[i].sound(cipher, key, capacity) && (i + 1 < blocks.len()
            ==> blocks[i].plain.len() == capacity)
}

/// Whether `bytes` is a stream that holds `content`.
pub open spec fn reads(
    cipher: Cipher,
    key: Seq<u8>,
    capacity: nat,
    bytes: Seq<u8>,
    content: Seq<u8>,
) -> bool {
    exists|blocks: Seq<Block>|
        #![trigger well_cut(cipher, key, capacity, blocks)]
        well_cut(cipher, key, capacity, blocks) && stream(cipher, key, blocks) == bytes && plain(
            blocks,
        ) == content
}

/// How long the first block of `bytes` is.
pub open spec fn first_len(capacity: nat, bytes: Seq<u8>) -> nat {
    if bytes.len() <= capacity + NONCE_LEN + TAG_LEN {
        bytes.len()
    } else {
        (capacity + NONCE_LEN + TAG_LEN) as nat
    }
}

/// What the first block of `bytes` opens to.
pub open spec fn first_opened(
    cipher: Cipher,
    key: Seq<u8>,
    capacity: nat,
    bytes: Seq<u8>,
) -> Option<Seq<u8>> {
    let n = first_len(capacity, bytes) as int;
    if n < NONCE_LEN + TAG_LEN {
        None
    } else {
        aead_open(
            cipher,
            key,
            bytes.subrange(0, NONCE_LEN as int),
            bytes.subrange(NONCE_LEN as int, n),
        )
    }
}

/// What `bytes` is opened to, block by block; `None` as soon as a block cannot be opened.
pub open spec fn opened(cipher: Cipher, key: Seq<u8>, capacity: nat, bytes: Seq<u8>) -> Option<
    Seq<u8>,
>
    decreases bytes.len(),
{
    if bytes.len() == 0 {
        Some(Seq::empty())
    } else {
        let n = first_len(capacity, bytes) as int;
        match first_opened(cipher, key, capacity, bytes) {
            None => None,
            Some(first) => match opened(
                cipher,
                key,
                capacity,
                bytes.subrange(n, bytes.len() as int),
            ) {
                None => None,
                Some(rest) => Some(first + rest),
            },
        }
    }
}

/// A stream that holds something begins with a sealed block of its content.
proof fn lemma_first_block(
    cipher: Cipher,
    key: Seq<u8>,
    capacity: nat,
    bytes: Seq<u8>,
    content: Seq<u8>,
) -> (first: Seq<u8>)
    requires
        reads(cipher, key, capacity, bytes, content),
        bytes.len() > 0,
    ensures
        first_len(capacity, bytes) >= NONCE_LEN + TAG_LEN,
        seals_to(
            cipher,
            key,
            bytes.subrange(0, NONCE_LEN as int),
            first,
            bytes.subrange(NONCE_LEN as int, first_len(capacity, bytes) as int),
        ),
        first.len() <= content.len(),
        content.subrange(0, first.len() as int) == first,
        reads(
            cipher,
            key,
            capacity,
            bytes.subrange(first_len(capacity, bytes) as int, bytes.len() as int),
            content.subrange(first.len() as int, content.len() as int),
        ),
{
    let blocks = choose|blocks: Seq<Block>|
        #![trigger well_cut(cipher, key, capacity, blocks)]
        well_cut(cipher, key, capacity, blocks) && stream(cipher, key, blocks) == bytes && plain(
            blocks,
        ) == content;
    let block = blocks[0];
    let rest = blocks.skip(1);
    let n = first_len(capacity, bytes) as int;
    if blocks.len() == 1 {
        assert(stream(cipher, key, rest) =~= Seq::empty());
    }
    assert(n == block.bytes(cipher, key).len());
    assert(bytes.subrange(0, NONCE_LEN as int) =~= block.nonce);
    assert(bytes.subrange(NONCE_LEN as int, n) =~= block.sealed(cipher, key));
    assert(bytes.subrange(n, bytes.len() as int) =~= stream(cipher, key, rest));
    assert(content.subrange(0, block.plain.len() as int) =~= block.plain);
    assert(content.subrange(block.plain.len() as int, content.len() as int) =~= plain(rest));
    assert(well_cut(cipher, key, capacity, rest)) by {
        assert forall|i: int|
            #![trigger rest[i]]
            0 <= i < rest.len() implies rest[i].sound(cipher, key, capacity) && (i + 1 < rest.len()
            ==> rest[i].plain.len() == capacity) by {
            assert(rest[i] == blocks[i + 1]);
        }
    }
    block.plain
}

/// A stream of no bytes holds nothing.
proof fn lemma_no_bytes(cipher: Cipher, key: Seq<u8>, capacity: nat, content: Seq<u8>)
    requires
        reads(cipher, key, capacity, Seq::empty(), content),
    ensures
        content == Seq::<u8>::empty(),
{
    let blocks = choose|blocks: Seq<Block>|
        #![trigger well_cut(cipher, key, capacity, blocks)]
        well_cut(cipher, key, capacity, blocks) && stream(cipher, key, blocks) == Seq::<u8>::empty()
            && plain(blocks) == content;
    if blocks.len() > 0 {
        assert(blocks[0].bytes(cipher, key).len() > 0);
        assert(stream(cipher, key, blocks).len() > 0);
    }
}

/// A block at the end of a stream.
pub(crate) proof fn lemma_push(cipher: Cipher, key: Seq<u8>, blocks: Seq<Block>, block: Block)
    ensures
        stream(cipher, key, blocks.push(block)) == stream(cipher, key, blocks) + block.bytes(
            cipher,
            key,
        ),
        plain(blocks.push(block)) == plain(blocks) + block.plain,
    decreases blocks.len(),
{
    let more = blocks.push(block);
    if blocks.len() == 0 {
        assert(more.skip(1) =~= Seq::empty());
        assert(stream(cipher, key, more.skip(1)) =~= Seq::empty());
        assert(plain(more.skip(1)) =~= Seq::empty());
        assert(stream(cipher, key, more) =~= block.bytes(cipher, key));
        assert(plain(more) =~= block.plain);
    } else {
        lemma_push(cipher, key, blocks.skip(1), block);
        assert(more.skip(1) =~= blocks.skip(1).push(block));
        assert(more[0] == blocks[0]);
    }
}

/// The bytes of `bytes` from `from` to before `to`.
fn copy_range(bytes: &Vec<u8>, from: usize, to: usize) -> (r: Vec<u8>)
    requires
        from <= to <= bytes@.len(),
    ensures
        r@ == bytes@.subrange(from as int, to as int),
{
    let mut r: Vec<u8> = Vec::new();
    let mut i: usize = from;
    while i < to
        invariant
            from <= i <= to <= bytes@.len(),
            r@ == bytes@.subrange(from as int, i as int),
        decreases to - i,
    {
        r.push(bytes[i]);
        i = i + 1;
        assert(r@ =~= bytes@.subrange(from as int, i as int));
    }
    r
}

/// Appends the first `n` bytes of `more`.
fn append_first(bytes: &mut Vec<u8>, more: &Vec<u8>, n: usize)
    requires
        n <= more@.len(),
    ensures
        final(bytes)@ == old(bytes)@ + more@.subrange(0, n as int),
{
    let mut i: usize = 0;
    while i < n
        invariant
            i <= n <= more@.len(),
            bytes@ == old(bytes)@ + more@.subrange(0, i as int),
        decreases n - i,
    {
        bytes.push(more[i]);
        i = i + 1;
        assert(bytes@ =~= old(bytes)@ + more@.subrange(0, i as int));
    }
}

/// Opens a stream. What a finished writer sent out comes back as what the writer was given; a
/// stream with a block that cannot be opened gives `None`.
pub fn open_stream(cipher: Cipher, key: &SecretKey, bytes: &Vec<u8>) -> (r: Option<Vec<u8>>)
    ensures
        match r {
            Some(content) => opened(cipher, secret_bytes(*key), BUF_SIZE as nat, bytes@) == Some(
                content@,
            ),
            None => opened(cipher, secret_bytes(*key), BUF_SIZE as nat, bytes@) is None,
        },
        forall|content: Seq<u8>| #[trigger]
            reads(cipher, secret_bytes(*key), BUF_SIZE as nat, bytes@, content) ==> r is Some
                && r->Some_0@ == content,
{
    let ghost k = secret_bytes(*key);
    let ghost cap = BUF_SIZE as nat;
    let len: usize = bytes.len();
    let mut content: Vec<u8> = Vec::new();
    let mut at: usize = 0;
    proof {
        assert(bytes@.subrange(0, len as int) =~= bytes@);
        assert forall|c: Seq<u8>| #[trigger] reads(cipher, k, cap, bytes@, c) implies {
            &&& c.subrange(0, 0) == content@
            &&& reads(cipher, k, cap, bytes@, c.subrange(0, c.len() as int))
        } by {
            assert(c.subrange(0, c.len() as int) =~= c);
            assert(c.subrange(0, 0) =~= content@);
        }
    }
    while at < len
        invariant
            at <= len == bytes@.len(),
            k == secret_bytes(*key),
            cap == BUF_SIZE,
            opened(cipher, k, cap, bytes@) == (match opened(
                cipher,
                k,
                cap,
                bytes@.subrange(at as int, len as int),
            ) {
                Some(rest) => Some(content@ + rest),
                None => None,
            }),
            forall|c: Seq<u8>| #[trigger]
                reads(cipher, k, cap, bytes@, c) ==> {
                    &&& content@.len() <= c.len()
                    &&& c.subrange(0, content@.len() as int) == content@
                    &&& reads(
                        cipher,
                        k,
                        cap,
                        bytes@.subrange(at as int, len as int),
                        c.subrange(content@.len() as int, c.len() as int),
                    )
                },
        decreases len - at,
    {
        let ghost rest = bytes@.subrange(at as int, len as int);
        let ghost before = content@;
        let end: usize = if len - at <= BUF_SIZE + NONCE_LEN + TAG_LEN {
            len
        } else {
            at + (BUF_SIZE + NONCE_LEN + TAG_LEN)
        };
        let ghost n = first_len(cap, rest) as int;
        assert(n == end - at);
        if end - at < NONCE_LEN + TAG_LEN {
            proof {
                assert forall|c: Seq<u8>| #[trigger]
                    reads(cipher, k, cap, bytes@, c) implies false by {
                    lemma_first_block(
                        cipher,
                        k,
                        cap,
                        rest,
                        c.subrange(content@.len() as int, c.len() as int),
                    );
                }
            }
            return None;
        }
        let nonce = copy_range(bytes, at, at + NONCE_LEN);
        let mut body = copy_range(bytes, at + NONCE_LEN, end);
        let ghost sealed = body@;
        assert(nonce@ =~= rest.subrange(0, NONCE_LEN as int));
        assert(sealed =~= rest.subrange(NONCE_LEN as int, n));
        match open(cipher, expose(key), &nonce, &mut body) {
            Err(_) => {
                proof {
                    assert forall|c: Seq<u8>| #[trigger]
                        reads(cipher, k, cap, bytes@, c) implies false by {
                        let first = lemma_first_block(
                            cipher,
                            k,
                            cap,
                            rest,
                            c.subrange(content@.len() as int, c.len() as int),
                        );
                        assert(seals_to(cipher, k, nonce@, first, sealed));
                    }
                }
                return None;
            },
            Ok(plain_len) => {
                let ghost first_plain = body@.subrange(0, plain_len as int);
                append_first(&mut content, &body, plain_len);
                at = end;
                proof {
                    let rest2 = bytes@.subrange(at as int, len as int);
                    assert(rest2 =~= rest.subrange(n, rest.len() as int));
                    match opened(cipher, k, cap, rest2) {
                        Some(r2) => {
                            assert(before + (first_plain + r2) =~= content@ + r2);
                        },
                        None => {},
                    }
                    assert forall|c: Seq<u8>| #[trigger] reads(cipher, k, cap, bytes@, c) implies {
                        &&& content@.len() <= c.len()
                        &&& c.subrange(0, content@.len() as int) == content@
                        &&& reads(
                            cipher,
                            k,
                            cap,
                            rest2,
                            c.subrange(content@.len() as int, c.len() as int),
                        )
                    } by {
                        let c1 = c.subrange(before.len() as int, c.len() as int);
                        let first = lemma_first_block(cipher, k, cap, rest, c1);
                        assert(seals_to(cipher, k, nonce@, first, sealed));
                        assert(first == first_plain);
                        assert(c1.subrange(first.len() as int, c1.len() as int) =~= c.subrange(
                            content@.len() as int,
                            c.len() as int,
                        ));
                        assert(c.subrange(0, content@.len() as int) =~= c.subrange(
                            0,
                            before.len() as int,
                        ) + c1.subrange(0, first.len() as int));
                    }
                }
            },
        }
    }
    proof {
        assert(bytes@.subrange(at as int, len as int) =~= Seq::empty());
        assert(content@ + Seq::<u8>::empty() =~= content@);
        assert forall|c: Seq<u8>| #[trigger] reads(cipher, k, cap, bytes@, c) implies content@
            == c by {
            let c1 = c.subrange(content@.len() as int, c.len() as int);
            lemma_no_bytes(cipher, k, cap, c1);
            assert(c =~= c.subrange(0, content@.len() as int) + c1);
        }
    }
    Some(content)
}

/// Bytes that are no more than one block are opened as one: a nonce, and the rest under it.
pub proof fn law_one_block_is_opened_at_once(
    cipher: Cipher,
    key: Seq<u8>,
    capacity: nat,
    bytes: Seq<u8>,
)
    requires
        0 < bytes.len() <= capacity + NONCE_LEN + TAG_LEN,
    ensures
        bytes.len() < NONCE_LEN + TAG_LEN ==> opened(cipher, key, capacity, bytes) is None,
        bytes.len() >= NONCE_LEN + TAG_LEN ==> opened(cipher, key, capacity, bytes) == aead_open(
            cipher,
            key,
            bytes.take(NONCE_LEN as int),
            bytes.skip(NONCE_LEN as int),
        ),
{
    let n = bytes.len() as int;
    let rest = bytes.subrange(n, n);
    assert(rest =~= Seq::empty());
    assert(opened(cipher, key, capacity, rest) == Some(Seq::<u8>::empty()));
    assert(bytes.take(NONCE_LEN as int) =~= bytes.subrange(0, NONCE_LEN as int));
    assert(bytes.skip(NONCE_LEN as int) =~= bytes.subrange(NONCE_LEN as int, n));
    match first_opened(cipher, key, capacity, bytes) {
        Some(first) => {
            assert(first + Seq::<u8>::empty() =~= first);
        },
        None => {},
    }
}

/// Full blocks and what follows them are opened one after the other: the whole is opened just when
/// both parts are, to what they hold together.
pub proof fn law_streams_are_opened_in_parts(
    cipher: Cipher,
    key: Seq<u8>,
    capacity: nat,
    head: Seq<u8>,
    tail: Seq<u8>,
)
    requires
        head.len() % ((capacity + NONCE_LEN + TAG_LEN) as nat) == 0,
    ensures
        opened(cipher, key, capacity, head + tail) is Some <==> opened(cipher, key, capacity, head)
            is Some && opened(cipher, key, capacity, tail) is Some,
        opened(cipher, key, capacity, head + tail) is Some ==> opened(
            cipher,
            key,
            capacity,
            head + tail,
        )->Some_0 == opened(cipher, key, capacity, head)->Some_0 + opened(
            cipher,
            key,
            capacity,
            tail,
        )->Some_0,
        opened(cipher, key, capacity, Seq::empty()) == Some(Seq::<u8>::empty()),
    decreases head.len(),
{
    let full = (capacity + NONCE_LEN + TAG_LEN) as nat;
    let all = head + tail;
    if head.len() == 0 {
        assert(all =~= tail);
        assert(head =~= Seq::empty());
        if opened(cipher, key, capacity, tail) is Some {
            let rest = opened(cipher, key, capacity, tail)->Some_0;
            assert(Seq::<u8>::empty() + rest =~= rest);
        }
    } else {
        let n = full as int;
        vstd::arithmetic::div_mod::lemma_mod_is_zero(head.len(), full);
        vstd::arithmetic::div_mod::lemma_mod_sub_multiples_vanish(head.len() as int, n);
        let more = head.subrange(n, head.len() as int);
        law_streams_are_opened_in_parts(cipher, key, capacity, more, tail);
        assert(first_len(capacity, head) == n);
        assert(first_len(capacity, all) == n);
        assert(all.subrange(n, all.len() as int) =~= more + tail);
        assert(all.subrange(0, NONCE_LEN as int) =~= head.subrange(0, NONCE_LEN as int));
        assert(all.subrange(NONCE_LEN as int, n) =~= head.subrange(NONCE_LEN as int, n));
        match first_opened(cipher, key, capacity, head) {
            Some(first) => {
                if opened(cipher, key, capacity, more) is Some && opened(
                    cipher,
                    key,
                    capacity,
                    tail,
                ) is Some {
                    let r1 = opened(cipher, key, capacity, more)->Some_0;
                    let r2 = opened(cipher, key, capacity, tail)->Some_0;
                    assert(first + (r1 + r2) =~= (first + r1) + r2);
                }
            },
            None => {},
        }
    }
}

} // verus!
