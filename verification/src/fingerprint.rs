//! Fingerprinting one file's content: the block loop over a reused buffer.

use vstd::prelude::*;

verus! {

use crate::accumulator::HASH_SIZE;
use crate::accumulator::fold_block;
use crate::accumulator::seed;
use crate::hex::render_state;

/// Number of content bytes folded at a time.
pub const BLOCK_BYTES: usize = 32;

/// The number of blocks folded for a file of the given length: one per
/// started 32-byte chunk.
pub open spec fn num_blocks(len: nat) -> nat {
    (len + 31) / 32
}

/// The byte the read buffer holds at offset j while block k is folded.  The
/// buffer is reused without being cleared, so a short final block keeps the
/// previous block's bytes past the end of the content (stale bytes), or zero
/// where no block preceded it.
pub open spec fn block_byte(bytes: Seq<u8>, k: int, j: int) -> u8 {
    if 32 * k + j < bytes.len() {
        bytes[32 * k + j]
    } else if k >= 1 {
        bytes[32 * (k - 1) + j]
    } else {
        0
    }
}

/// The 32-bit word encoded by four bytes, least significant first.
pub open spec fn le_word(b0: u8, b1: u8, b2: u8, b3: u8) -> u32 {
    (b0 + b1 * 0x100 + b2 * 0x1_0000 + b3 * 0x100_0000) as u32
}

/// The eight words of block k, decoded little-endian from the buffer.
pub open spec fn block_words(bytes: Seq<u8>, k: int) -> Seq<u32> {
    Seq::new(
        HASH_SIZE as nat,
        |i: int|
            le_word(
                block_byte(bytes, k, 4 * i),
                block_byte(bytes, k, 4 * i + 1),
                block_byte(bytes, k, 4 * i + 2),
                block_byte(bytes, k, 4 * i + 3),
            ),
    )
}

/// The accumulator state after the first k blocks of a content are folded.
pub open spec fn state_after(bytes: Seq<u8>, k: int) -> Seq<u32>
    decreases k,
{
    if k <= 0 {
        seed()
    } else {
        fold_block(state_after(bytes, k - 1), block_words(bytes, k - 1))
    }
}

/// The final accumulator state of a file's content.
pub open spec fn final_state(bytes: Seq<u8>) -> Seq<u32> {
    state_after(bytes, num_blocks(bytes.len()) as int)
}

/// The fingerprint of a file's content: its final state rendered as hex.
pub open spec fn fingerprint_spec(bytes: Seq<u8>) -> Seq<char> {
    render_state(final_state(bytes))
}

/// The little-endian 32-bit word of four bytes.
fn le_word_of(b0: u8, b1: u8, b2: u8, b3: u8) -> (w: u32)
    ensures
        w == le_word(b0, b1, b2, b3),
{
    (b0 as u32) + (b1 as u32) * 0x100 + (b2 as u32) * 0x1_0000 + (b3 as u32) * 0x100_0000
}

/// Computes the fingerprint of one file's content: folds it block by block
/// through a single 32-byte buffer that is reused without being cleared, so a
/// short final block is folded together with the previous block's trailing
/// bytes, and renders the final state.
pub fn fingerprint_content(content: &Vec<u8>) -> (r: String)
    ensures
        r@ == fingerprint_spec(content@),
{
    let mut hash = crate::accumulator::Hash::new();
    let mut buffer: Vec<u8> = Vec::new();
    let mut t: usize = 0;
    while t < BLOCK_BYTES
        invariant
            t <= BLOCK_BYTES,
            buffer@.len() == t,
            forall|j: int| 0 <= j < t ==> buffer@[j] == 0u8,
        decreases BLOCK_BYTES - t,
    {
        buffer.push(0);
        t = t + 1;
    }
    let len = content.len();
    let mut pos: usize = 0;
    let ghost mut k: int = 0;
    while pos < len
        invariant
            len == content@.len(),
            buffer@.len() == 32,
            k >= 0,
            pos as int == if 32 * k <= len { 32 * k } else { len as int },
            32 * k < len + 32,
            hash@ == state_after(content@, k),
            forall|j: int|
                0 <= j < 32 ==> buffer@[j] == (if k >= 1 {
                    block_byte(content@, k - 1, j)
                } else {
                    0u8
                }),
        decreases len - pos,
    {
        let m: usize = if len - pos < 32 {
            len - pos
        } else {
            32
        };
        let mut j: usize = 0;
        while j < m
            invariant
                len == content@.len(),
                pos < len,
                m <= 32,
                m <= len - pos,
                j <= m,
                buffer@.len() == 32,
                forall|x: int| 0 <= x < j ==> buffer@[x] == content@[pos + x],
                forall|x: int|
                    j <= x < 32 ==> buffer@[x] == (if k >= 1 {
                        block_byte(content@, k - 1, x)
                    } else {
                        0u8
                    }),
            decreases m - j,
        {
            buffer.set(j, content[pos + j]);
            j = j + 1;
        }
        proof {
            assert forall|x: int| 0 <= x < 32 implies buffer@[x] == block_byte(content@, k, x) by {
                if x < m {
                    assert(32 * k + x < len);
                } else {
                    assert(32 * k + x >= len);
                }
            }
        }
        let w0 = le_word_of(buffer[0], buffer[1], buffer[2], buffer[3]);
        let w1 = le_word_of(buffer[4], buffer[5], buffer[6], buffer[7]);
        let w2 = le_word_of(buffer[8], buffer[9], buffer[10], buffer[11]);
        let w3 = le_word_of(buffer[12], buffer[13], buffer[14], buffer[15]);
        let w4 = le_word_of(buffer[16], buffer[17], buffer[18], buffer[19]);
        let w5 = le_word_of(buffer[20], buffer[21], buffer[22], buffer[23]);
        let w6 = le_word_of(buffer[24], buffer[25], buffer[26], buffer[27]);
        let w7 = le_word_of(buffer[28], buffer[29], buffer[30], buffer[31]);
        let data: [u32; HASH_SIZE] = [w0, w1, w2, w3, w4, w5, w6, w7];
        proof {
            assert(data@ =~= block_words(content@, k));
        }
        hash.transform(data);
        pos = pos + m;
        proof {
            k = k + 1;
            assert(hash@ == state_after(content@, k));
        }
    }
    proof {
        assert(k == num_blocks(content@.len())) by {
            if k >= 1 && 32 * k > len {
                let r = len - 32 * (k - 1);
                vstd::arithmetic::div_mod::lemma_fundamental_div_mod_converse_div(
                    len + 31,
                    32,
                    k,
                    r - 1,
                );
            } else {
                vstd::arithmetic::div_mod::lemma_fundamental_div_mod_converse_div(
                    len + 31,
                    32,
                    k,
                    31,
                );
            }
        }
    }
    hash.to_string()
}

/// The 32-byte chunks of a block-aligned content, in file order.
pub open spec fn chunks_of(bytes: Seq<u8>) -> Seq<Seq<u8>> {
    Seq::new(num_blocks(bytes.len()), |k: int| bytes.subrange(32 * k, 32 * k + 32))
}

/// The eight words of one 32-byte chunk.
pub open spec fn chunk_words(c: Seq<u8>) -> Seq<u32> {
    Seq::new(
        HASH_SIZE as nat,
        |i: int| le_word(c[4 * i], c[4 * i + 1], c[4 * i + 2], c[4 * i + 3]),
    )
}

/// The fold step as a binary operator over states and chunks.
pub open spec fn chunk_step() -> spec_fn(Seq<u32>, Seq<u8>) -> Seq<u32> {
    |st: Seq<u32>, c: Seq<u8>| fold_block(st, chunk_words(c))
}

/// Folding a chunk commutes with folding another: every lane is an
/// independent sum modulo 2^32.
proof fn lemma_chunk_step_commutes()
    ensures
        vstd::seq_lib::commutative_foldl(chunk_step()),
{
    let g = chunk_step();
    assert forall|x: Seq<u8>, y: Seq<u8>, v: Seq<u32>| #[trigger] g(g(v, x), y) == g(
        g(v, y),
        x,
    ) by {
        assert(g(g(v, x), y) =~= g(g(v, y), x));
    }
}

/// On a block-aligned content the accumulator state after k blocks is the
/// left fold of the chunk-fold step over the first k chunks.
proof fn lemma_state_is_chunk_fold(bytes: Seq<u8>, k: int)
    requires
        bytes.len() % 32 == 0,
        0 <= k <= num_blocks(bytes.len()),
    ensures
        state_after(bytes, k) == chunks_of(bytes).take(k).fold_left(seed(), chunk_step()),
    decreases k,
{
    let chunks = chunks_of(bytes);
    if k == 0 {
        assert(chunks.take(0).fold_left(seed(), chunk_step()) == seed());
    } else {
        lemma_state_is_chunk_fold(bytes, k - 1);
        assert(chunks.take(k).drop_last() =~= chunks.take(k - 1));
        assert(32 * k <= bytes.len()) by {
            vstd::arithmetic::div_mod::lemma_fundamental_div_mod(bytes.len() as int, 32);
        }
        assert(block_words(bytes, k - 1) =~= chunk_words(chunks[k - 1]));
        assert(chunks.take(k).last() == chunks[k - 1]);
    }
}

/// Reordering whole 32-byte blocks of a block-aligned content never changes
/// the fingerprint: word-wise wrapping addition is commutative and
/// associative, so the result depends only on the multiset of blocks.
pub proof fn lemma_fingerprint_block_reorder(b1: Seq<u8>, b2: Seq<u8>)
    requires
        b1.len() % 32 == 0,
        b2.len() % 32 == 0,
        chunks_of(b1).to_multiset() == chunks_of(b2).to_multiset(),
    ensures
        fingerprint_spec(b1) == fingerprint_spec(b2),
{
    let n1 = num_blocks(b1.len()) as int;
    let n2 = num_blocks(b2.len()) as int;
    lemma_state_is_chunk_fold(b1, n1);
    lemma_state_is_chunk_fold(b2, n2);
    assert(chunks_of(b1).take(n1) =~= chunks_of(b1));
    assert(chunks_of(b2).take(n2) =~= chunks_of(b2));
    lemma_chunk_step_commutes();
    vstd::seq_lib::lemma_fold_left_permutation(
        chunks_of(b1),
        chunks_of(b2),
        chunk_step(),
        seed(),
    );
}

/// The sum of one lane's words over the first k blocks of a content.
pub open spec fn lane_sum(bytes: Seq<u8>, k: int, lane: int) -> int
    decreases k,
{
    if k <= 0 {
        0
    } else {
        lane_sum(bytes, k - 1, lane) + block_words(bytes, k - 1)[lane]
    }
}

/// Wrapping addition is addition modulo 2^32.
proof fn lemma_wrap_add_is_mod(a: u32, b: u32)
    ensures
        crate::accumulator::wrap_add(a, b) == (a + b) % 0x1_0000_0000,
{
    if a + b > u32::MAX {
        vstd::arithmetic::div_mod::lemma_mod_sub_multiples_vanish(a + b, 0x1_0000_0000);
        vstd::arithmetic::div_mod::lemma_small_mod((a + b - 0x1_0000_0000) as nat, 0x1_0000_0000);
    } else {
        vstd::arithmetic::div_mod::lemma_small_mod((a + b) as nat, 0x1_0000_0000);
    }
}

/// Each lane of the state is an independent running sum: the seed word plus
/// the lane's sum over the folded blocks, modulo 2^32.  The fingerprint of a
/// content depends on nothing but these eight per-lane sums.
pub proof fn lemma_lane_sums(bytes: Seq<u8>, k: int, lane: int)
    requires
        0 <= k,
        0 <= lane < HASH_SIZE,
    ensures
        state_after(bytes, k)[lane] == (seed()[lane] + lane_sum(bytes, k, lane)) % 0x1_0000_0000,
    decreases k,
{
    let m = 0x1_0000_0000int;
    if k == 0 {
        vstd::arithmetic::div_mod::lemma_small_mod(seed()[lane] as nat, m as nat);
    } else {
        lemma_lane_sums(bytes, k - 1, lane);
        let s = seed()[lane] as int;
        let prev = lane_sum(bytes, k - 1, lane);
        let b = block_words(bytes, k - 1)[lane];
        lemma_wrap_add_is_mod(state_after(bytes, k - 1)[lane], b);
        vstd::arithmetic::div_mod::lemma_add_mod_noop(s + prev, b as int, m);
        vstd::arithmetic::div_mod::lemma_small_mod(b as nat, m as nat);
    }
}

/// An empty file folds no block: its fingerprint is the seed constants
/// rendered as hex.
pub proof fn lemma_empty_fingerprint()
    ensures
        num_blocks(0) == 0,
        fingerprint_spec(Seq::<u8>::empty()) == render_state(seed()),
{
}

/// Fingerprinting is deterministic: equal contents give equal fingerprints.
pub proof fn lemma_fingerprint_deterministic(b1: Seq<u8>, b2: Seq<u8>)
    requires
        b1 == b2,
    ensures
        fingerprint_spec(b1) == fingerprint_spec(b2),
{
}

} // verus!
