//! The two hashing steps of the module lattice verify relation: the matrix
//! entry expansion, a SHAKE128 squeeze over the public seed joined with the
//! two cell indices, and the challenge squeeze, a SHAKE256 squeeze over a one
//! block input, each laid out on the sponge. The rejection sampling that turns
//! the streams into coefficients and the multi block challenge input stay
//! outside these traces.
use vstd::prelude::*;
use crate::lattice::{MATRIX_COLS, MATRIX_ROWS};
use crate::sponge::{
    describes_sponge, shake_trace, sponge_row_filled, sponge_start, squeeze_bytes, squeeze_state, SpongeInstance,
    SHAKE128_RATE, SHAKE256_RATE, SPONGE_WIDTH,
};
use crate::util::next_pow2;

verus! {

/// The seed byte length, the public matrix seed.
pub const SEED_BYTES: usize = 32;

/// The message digest byte length.
pub const MU_BYTES: usize = 64;

/// The challenge encoding byte length of the parameter set.
pub const CTILDE_BYTES: usize = 48;

/// The seed of one matrix entry: the public seed, then the column index,
/// then the row index.
pub open spec fn spec_entry_seed(rho: Seq<u8>, row: nat, col: nat) -> Seq<u8> {
    rho + seq![col as u8, row as u8]
}

/// The SHAKE128 seed of one matrix entry.
pub fn matrix_entry_seed(rho: &[u8; SEED_BYTES], row: usize, col: usize) -> (seed: Vec<u8>)
    requires
        row < MATRIX_ROWS,
        col < MATRIX_COLS,
    ensures
        seed@ == spec_entry_seed(rho@, row as nat, col as nat),
{
    let mut seed = crate::crypto::copy_slice(rho.as_slice());
    seed.push(col as u8);
    seed.push(row as u8);
    proof {
        assert(seed@ =~= spec_entry_seed(rho@, row as nat, col as nat));
    }
    seed
}

/// The number of SHAKE128 blocks that cover three candidate bytes for each
/// of two hundred fifty six coefficients, before rejection.
pub fn matrix_entry_blocks() -> (blocks: usize)
    ensures
        blocks as int == (256 * 3 + SHAKE128_RATE - 1) as int / SHAKE128_RATE as int,
{
    let candidate_bytes: usize = 256 * 3;
    (candidate_bytes + SHAKE128_RATE - 1) / SHAKE128_RATE
}

/// The squeeze permutations of one matrix entry trace, the block count
/// rounded up to a power of two.
pub fn matrix_entry_perms() -> (perms: usize)
    ensures
        perms == next_pow2(((256 * 3 + SHAKE128_RATE - 1) as int / SHAKE128_RATE as int) as nat),
        perms == 8,
{
    let blocks = matrix_entry_blocks();
    proof {
        assert(blocks == 5);
        reveal_with_fuel(next_pow2, 4);
    }
    crate::util::next_power_of_two(blocks)
}

/// The sponge trace of one matrix entry expansion, the SHAKE128 stream over
/// the entry seed.
pub fn matrix_entry_hash(rho: &[u8; SEED_BYTES], row: usize, col: usize) -> (instance: SpongeInstance)
    requires
        row < MATRIX_ROWS,
        col < MATRIX_COLS,
    ensures
        instance.output@ == squeeze_bytes(sponge_start(SHAKE128_RATE as nat, spec_entry_seed(rho@, row as nat, col as nat)), 21, 8),
        describes_sponge(instance.air, SHAKE128_RATE as nat, 8, spec_entry_seed(rho@, row as nat, col as nat), instance.output@),
        instance.trace.spec_width() == SPONGE_WIDTH,
        instance.trace.spec_length() == 256,
        forall|j: int, r: int| 0 <= j < 8 && 0 <= r < 32
            ==> sponge_row_filled(#[trigger] instance.trace.spec_row(j * 32 + r),
                squeeze_state(sponge_start(SHAKE128_RATE as nat, spec_entry_seed(rho@, row as nat, col as nat)), j as nat),
                r as nat, (j * 32 + r) as nat),
{
    let seed = matrix_entry_seed(rho, row, col);
    let perms = matrix_entry_perms();
    proof {
        reveal_with_fuel(crate::util::is_pow2, 9);
    }
    shake_trace(SHAKE128_RATE, perms, seed.as_slice())
}

/// The sponge trace of the challenge squeeze over a one block input, one
/// permutation, which covers the challenge encoding.
pub fn challenge_hash(input: &[u8]) -> (instance: SpongeInstance)
    requires
        input@.len() < SHAKE256_RATE,
    ensures
        instance.output@ == squeeze_bytes(sponge_start(SHAKE256_RATE as nat, input@), 17, 1),
        describes_sponge(instance.air, SHAKE256_RATE as nat, 1, input@, instance.output@),
        instance.trace.spec_width() == SPONGE_WIDTH,
        instance.trace.spec_length() == 32,
        forall|r: int| 0 <= r < 32
            ==> sponge_row_filled(#[trigger] instance.trace.spec_row(r), sponge_start(SHAKE256_RATE as nat, input@), r as nat, r as nat),
{
    proof {
        reveal_with_fuel(crate::util::is_pow2, 7);
    }
    let instance = shake_trace(SHAKE256_RATE, 1, input);
    proof {
        assert forall|r: int| 0 <= r < 32
            implies sponge_row_filled(#[trigger] instance.trace.spec_row(r), sponge_start(SHAKE256_RATE as nat, input@), r as nat, r as nat) by {
            assert(instance.trace.spec_row(0 * 32 + r) == instance.trace.spec_row(r));
        }
    }
    instance
}

/// The number of matrix entries the expansion hashes.
pub fn matrix_entries() -> (n: usize)
    ensures
        n == MATRIX_ROWS * MATRIX_COLS,
{
    MATRIX_ROWS * MATRIX_COLS
}

} // verus!
