//! The running checksum state: eight 32-bit lanes folded by wrapping addition.

use vstd::prelude::*;

verus! {

use crate::hex::hex_digit;
use crate::hex::nibble;
use crate::hex::push_hex_digit;
use crate::hex::render_state;

/// Number of 32-bit lanes in the accumulator state.
pub const HASH_SIZE: usize = 8;

/// The constant vector every accumulator starts from.
pub open spec fn seed() -> Seq<u32> {
    seq![
        0xe3b0c442u32,
        0x98fc1c14u32,
        0x9afbf4c8u32,
        0x996fb924u32,
        0x27ae41e4u32,
        0x649b934cu32,
        0xa495991bu32,
        0x7852b855u32,
    ]
}

/// Addition modulo 2^32, the only operation that ever changes a lane.
pub open spec fn wrap_add(a: u32, b: u32) -> u32 {
    if a + b > u32::MAX {
        (a + b - 0x1_0000_0000) as u32
    } else {
        (a + b) as u32
    }
}

/// One fold step: lane-wise wrapping addition of a block into the state.
pub open spec fn fold_block(state: Seq<u32>, block: Seq<u32>) -> Seq<u32> {
    Seq::new(HASH_SIZE as nat, |i: int| wrap_add(state[i], block[i]))
}

/// The accumulator: a fixed-length vector of eight independent running sums.
/// There is no diffusion between lanes; this is a checksum, not a digest.
pub struct Hash {
    hash: Vec<u32>,
}

impl View for Hash {
    type V = Seq<u32>;

    closed spec fn view(&self) -> Seq<u32> {
        self.hash@
    }
}

impl Hash {
    /// A fresh accumulator holding exactly the seed constants.
    pub fn new() -> (r: Hash)
        ensures
            r@ == seed(),
    {
        let mut h: Vec<u32> = Vec::new();
        h.push(0xe3b0c442);
        h.push(0x98fc1c14);
        h.push(0x9afbf4c8);
        h.push(0x996fb924);
        h.push(0x27ae41e4);
        h.push(0x649b934c);
        h.push(0xa495991b);
        h.push(0x7852b855);
        proof {
            assert(h@ =~= seed());
        }
        Hash { hash: h }
    }

    /// Folds one block into the state, index-aligned: lane i receives block
    /// word i, modulo 2^32.
    pub fn transform(&mut self, data: [u32; HASH_SIZE])
        requires
            old(self)@.len() == HASH_SIZE,
        ensures
            final(self)@ == fold_block(old(self)@, data@),
    {
        let mut i: usize = 0;
        while i < HASH_SIZE
            invariant
                i <= HASH_SIZE,
                self@.len() == HASH_SIZE,
                forall|j: int| 0 <= j < i ==> self@[j] == wrap_add(old(self)@[j], data@[j]),
                forall|j: int| i <= j < HASH_SIZE ==> self@[j] == old(self)@[j],
            decreases HASH_SIZE - i,
        {
            let v = self.hash[i].wrapping_add(data[i]);
            self.hash.set(i, v);
            i = i + 1;
        }
        proof {
            assert(self@ =~= fold_block(old(self)@, data@));
        }
    }

    /// Renders the state as 64 lowercase hex characters: 8 zero-padded digits
    /// per lane, most significant nibble first, lanes in index order.
    pub fn to_string(&self) -> (r: String)
        requires
            self@.len() == HASH_SIZE,
        ensures
            r@ == render_state(self@),
    {
        let mut s = String::new();
        let mut i: usize = 0;
        while i < HASH_SIZE
            invariant
                self@.len() == HASH_SIZE,
                i <= HASH_SIZE,
                s@ == render_state(self@).take(8 * i),
            decreases HASH_SIZE - i,
        {
            let w = self.hash[i];
            let mut j: usize = 0;
            while j < 8
                invariant
                    self@.len() == HASH_SIZE,
                    i < HASH_SIZE,
                    j <= 8,
                    w == self@[i as int],
                    s@ == render_state(self@).take(8 * i + j),
                decreases 8 - j,
            {
                let sh: u32 = 28 - 4 * (j as u32);
                let d = (w >> sh) & 0xf;
                assert((w >> sh) & 0xf < 16) by (bit_vector);
                proof {
                    let pos = 8 * i + j;
                    vstd::arithmetic::div_mod::lemma_fundamental_div_mod_converse_div(
                        pos as int,
                        8,
                        i as int,
                        j as int,
                    );
                    vstd::arithmetic::div_mod::lemma_fundamental_div_mod_converse_mod(
                        pos as int,
                        8,
                        i as int,
                        j as int,
                    );
                    assert(d == nibble(w, j as int));
                    assert(render_state(self@)[pos as int] == hex_digit(d));
                }
                push_hex_digit(&mut s, d);
                proof {
                    assert(s@ =~= render_state(self@).take(8 * i + j + 1));
                }
                j = j + 1;
            }
            i = i + 1;
        }
        proof {
            assert(render_state(self@).take(64) =~= render_state(self@));
        }
        s
    }
}

} // verus!
