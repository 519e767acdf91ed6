//! Fragmenter: splits an outbound message into an ordered sequence of
//! `(seq, tot, payload)` chunks of at most `MAX_CHUNK` bytes each, and the
//! proof that concatenating the chunks in order reproduces the message.

use vstd::prelude::*;

verus! {

/// Largest payload of a single fragment, bounded by the advertising
/// medium's payload ceiling minus the fixed header.
pub const MAX_CHUNK: usize = 20;

/// Largest message that fits in 255 fragments (the fragment count is one
/// byte on the wire).
pub const MAX_MESSAGE_LEN: usize = 5100;

/// Number of fragments a message of `len` bytes splits into:
/// `ceil(len / MAX_CHUNK)`, and at least 1 even for an empty message.
pub open spec fn chunk_count(len: int) -> int {
    if len <= 0 {
        1
    } else {
        (len + (MAX_CHUNK - 1)) / (MAX_CHUNK as int)
    }
}

/// Chunk `i` of a byte sequence: the bytes from `i * MAX_CHUNK` up to the
/// next chunk boundary or the end of the message, whichever comes first.
pub open spec fn spec_chunk(b: Seq<u8>, i: int) -> Seq<u8> {
    b.subrange(
        i * (MAX_CHUNK as int),
        if (i + 1) * (MAX_CHUNK as int) <= b.len() {
            (i + 1) * (MAX_CHUNK as int)
        } else {
            b.len() as int
        },
    )
}

/// The first `n` chunks of `b`, concatenated in order.
pub open spec fn concat_chunks(b: Seq<u8>, n: int) -> Seq<u8>
    decreases n,
{
    if n <= 0 {
        Seq::empty()
    } else {
        concat_chunks(b, n - 1) + spec_chunk(b, n - 1)
    }
}

/// Split a message into fragments: chunk `i` is paired with its index and
/// the total fragment count, so that each fragment is self-describing.
pub fn chunk_message(bytes: &[u8]) -> (r: Vec<(u8, u8, Vec<u8>)>)
    requires
        bytes@.len() <= MAX_MESSAGE_LEN,
    ensures
        r@.len() == chunk_count(bytes@.len() as int),
        forall|i: int|
            0 <= i < r@.len() ==> (#[trigger] r@[i]).0 == i as u8 && r@[i].1 == r@.len() as u8
                && r@[i].2@ == spec_chunk(bytes@, i),
{
    let n = bytes.len();
    let tot_usize: usize = if n == 0 {
        1
    } else {
        (n + (MAX_CHUNK - 1)) / MAX_CHUNK
    };
    proof {
        assert((n as int + 19) / 20 <= 255) by (nonlinear_arith)
            requires
                n <= 5100,
        ;
        assert(tot_usize == chunk_count(n as int));
        assert(tot_usize <= 255);
    }
    let tot: u8 = tot_usize as u8;
    let mut v: Vec<(u8, u8, Vec<u8>)> = Vec::new();
    let mut i: usize = 0;
    while i < tot_usize
        invariant
            i <= tot_usize,
            tot_usize <= 255,
            tot == tot_usize as u8,
            tot_usize == chunk_count(bytes@.len() as int),
            n == bytes@.len(),
            n <= MAX_MESSAGE_LEN,
            v@.len() == i,
            forall|j: int|
                0 <= j < i ==> (#[trigger] v@[j]).0 == j as u8 && v@[j].1 == tot
                    && v@[j].2@ == spec_chunk(bytes@, j),
        decreases tot_usize - i,
    {
        let s = i * MAX_CHUNK;
        proof {
            assert(i < chunk_count(n as int));
            if n > 0 {
                assert((i as int) * 20 < n) by (nonlinear_arith)
                    requires
                        n > 0,
                        i < (n as int + 19) / 20,
                ;
            }
            assert(s == (i as int) * (MAX_CHUNK as int));
            assert(s < n || n == 0);
        }
        let e = if s + MAX_CHUNK <= n {
            s + MAX_CHUNK
        } else {
            n
        };
        let mut chunk: Vec<u8> = Vec::new();
        let mut k: usize = s;
        while k < e
            invariant
                s <= k <= e <= n,
                n == bytes@.len(),
                chunk@ == bytes@.subrange(s as int, k as int),
            decreases e - k,
        {
            chunk.push(bytes[k]);
            proof {
                assert(chunk@ =~= bytes@.subrange(s as int, k + 1 as int));
            }
            k = k + 1;
        }
        proof {
            assert(chunk@ =~= spec_chunk(bytes@, i as int));
        }
        v.push((i as u8, tot, chunk));
        i = i + 1;
    }
    v
}

/// The first `n` chunks of `b` cover exactly the first
/// `min(n * MAX_CHUNK, b.len())` bytes of `b`.
proof fn lemma_concat_chunks_prefix(b: Seq<u8>, n: int)
    requires
        0 <= n,
        n == 0 || (n - 1) * (MAX_CHUNK as int) <= b.len(),
    ensures
        concat_chunks(b, n) == b.take(
            if n * (MAX_CHUNK as int) <= b.len() {
                n * (MAX_CHUNK as int)
            } else {
                b.len() as int
            },
        ),
    decreases n,
{
    if n > 0 {
        assert((n - 2) * (MAX_CHUNK as int) <= (n - 1) * (MAX_CHUNK as int)) by (nonlinear_arith);
        lemma_concat_chunks_prefix(b, n - 1);
        assert((n - 1) * (MAX_CHUNK as int) <= n * (MAX_CHUNK as int)) by (nonlinear_arith);
        assert(concat_chunks(b, n) =~= b.take(
            if n * (MAX_CHUNK as int) <= b.len() {
                n * (MAX_CHUNK as int)
            } else {
                b.len() as int
            },
        ));
    } else {
        assert(concat_chunks(b, 0) =~= b.take(0));
    }
}

/// Fragmentation identity: concatenating all `chunk_count` fragments of a
/// message, in index order, reproduces the message exactly. This holds for
/// every message, the empty one included.
pub proof fn lemma_chunks_reassemble(b: Seq<u8>)
    ensures
        concat_chunks(b, chunk_count(b.len() as int)) == b,
{
    let len = b.len() as int;
    let n = chunk_count(len);
    assert((n - 1) * (MAX_CHUNK as int) <= len && len <= n * (MAX_CHUNK as int)) by (
    nonlinear_arith)
        requires
            n == chunk_count(len),
            0 <= len,
            MAX_CHUNK == 20,
    ;
    lemma_concat_chunks_prefix(b, n);
    assert(b.take(len) =~= b);
}

} // verus!
