use vstd::prelude::*;

verus! {

pub const C32_1: u32 = 0x85ebca6b;

pub const C32_2: u32 = 0xc2b2ae35;

pub const C32_3: u32 = 0xe6546b64;

pub const C32_4: u32 = 0x1b873593;

pub const C32_5: u32 = 0x5c4bcea9;

/// Right rotation of a 32-bit word by `n` places, 0 < n < 32.
pub open spec fn spec_rotr(x: u32, n: u32) -> u32
    recommends
        0 < n < 32,
{
    (x >> n) | (x << ((32 - n) as u32))
}

/// Mixing applied to every 32-bit chunk before it enters the hash state.
pub open spec fn spec_mix_chunk(k: u32) -> u32 {
    spec_rotr(k.wrapping_mul(C32_1), 17).wrapping_mul(C32_2)
}

/// One body round: absorb a mixed chunk, then stir the hash state.
pub open spec fn spec_round(h: u32, k: u32) -> u32 {
    spec_rotr(h ^ spec_mix_chunk(k), 19).wrapping_mul(5).wrapping_add(C32_3)
}

/// The 32-bit little-endian chunk starting at byte `4 * i` of `data`.
pub open spec fn spec_chunk(data: Seq<u8>, i: int) -> u32
    recommends
        0 <= i,
        4 * i + 4 <= data.len(),
{
    (data[4 * i] as u32) | ((data[4 * i + 1] as u32) << 8) | ((data[4 * i + 2] as u32) << 16) | (
    (data[4 * i + 3] as u32) << 24)
}

/// Hash state after absorbing the first `n` four-byte chunks of `data`.
pub open spec fn spec_body(data: Seq<u8>, seed: u32, n: int) -> u32
    decreases n,
{
    if n <= 0 {
        seed
    } else {
        spec_round(spec_body(data, seed, n - 1), spec_chunk(data, n - 1))
    }
}

/// The length of `data` reduced to the 32 bits the algorithm works with.
pub open spec fn spec_len32(data: Seq<u8>) -> u32 {
    (data.len() % 0x1_0000_0000) as u32
}

/// Number of full four-byte chunks the body rounds consume.
pub open spec fn spec_n_chunks(data: Seq<u8>) -> int {
    spec_len32(data) as int / 4
}

/// The trailing 0 to 3 bytes assembled little-endian into one word.
pub open spec fn spec_tail_chunk(data: Seq<u8>) -> u32 {
    let rem = data.len() % 4;
    let base = data.len() - rem;
    if rem == 0 {
        0u32
    } else {
        let c2 = if rem >= 3 {
            (data[base + 2] as u32) << 16
        } else {
            0u32
        };
        let c1 = if rem >= 2 {
            c2 | ((data[base + 1] as u32) << 8)
        } else {
            c2
        };
        c1 | (data[base as int] as u32)
    }
}

/// Hash state after the body rounds and the tail bytes.
pub open spec fn spec_after_tail(data: Seq<u8>, seed: u32) -> u32 {
    let h = spec_body(data, seed, spec_n_chunks(data));
    if data.len() % 4 == 0 {
        h
    } else {
        h ^ spec_mix_chunk(spec_tail_chunk(data))
    }
}

/// Final avalanche: fold the length in, then shift-xor and multiply.
pub open spec fn spec_finalize(h0: u32, len32: u32) -> u32 {
    let h1 = h0 ^ len32;
    let h2 = h1 ^ (h1 >> 16);
    let h3 = h2.wrapping_mul(C32_4);
    let h4 = h3 ^ (h3 >> 13);
    let h5 = h4.wrapping_mul(C32_5);
    h5 ^ (h5 >> 16)
}

/// The hash of a byte string under a seed: body rounds over the four-byte
/// chunks, the tail bytes, then the final avalanche. A pure function of
/// `(data, seed)`. Opaque: callers treat the hash as an abstract value.
#[verifier::opaque]
pub open spec fn spec_murmur(data: Seq<u8>, seed: u32) -> u32 {
    spec_finalize(spec_after_tail(data, seed), spec_len32(data))
}

/// Zero is the identity of bitwise or.
proof fn lemma_or_zero()
    by (bit_vector)
    ensures
        forall|x: u32| #[trigger] (0u32 | x) == x,
        forall|x: u32| #[trigger] (x | 0u32) == x,
{
}

/// Right rotation of a 32-bit word.
fn rotr(x: u32, n: u32) -> (r: u32)
    requires
        0 < n < 32,
    ensures
        r == spec_rotr(x, n),
{
    (x >> n) | (x << (32 - n))
}

/// Seedable 32-bit mixing hash over a byte string, bit-exact for equal
/// `(data, seed)` on every platform.
pub fn murmur(data: &Vec<u8>, seed: u32) -> (r: u32)
    ensures
        r == spec_murmur(data@, seed),
{
    let mut hash = seed;
    let n_len = data.len();
    let length: u32 = #[verifier::truncate] (n_len as u32);
    proof {
        assert(length as int == n_len as int % 0x1_0000_0000 && length <= n_len) by (bit_vector)
            requires
                length == n_len as u32,
        ;
        assert(length == spec_len32(data@));
    }
    let tot_four_byte_chunks = length / 4;
    proof {
        assert(4 * (length as int / 4) <= length);
    }

    let mut i: u32 = 0;
    while i < tot_four_byte_chunks
        invariant
            i <= tot_four_byte_chunks,
            tot_four_byte_chunks == spec_n_chunks(data@),
            4 * tot_four_byte_chunks <= data@.len(),
            hash == spec_body(data@, seed, i as int),
        decreases tot_four_byte_chunks - i,
    {
        let start_idx_of_chunk = (i * 4) as usize;

        let b0 = data[start_idx_of_chunk];
        let b1 = data[start_idx_of_chunk + 1];
        let b2 = data[start_idx_of_chunk + 2];
        let b3 = data[start_idx_of_chunk + 3];
        let chunk: u32 = (b0 as u32) | ((b1 as u32) << 8) | ((b2 as u32) << 16) | ((b3 as u32)
            << 24);
        let rotated_chunk = rotr(chunk.wrapping_mul(C32_1), 17).wrapping_mul(C32_2);

        hash = hash ^ rotated_chunk;
        hash = rotr(hash, 19).wrapping_mul(5).wrapping_add(C32_3);
        i = i + 1;
    }

    let rem = n_len % 4;
    let base = n_len - rem;
    let mut chunk = 0u32;

    if rem >= 3 {
        chunk = chunk | ((data[base + 2] as u32) << 16);
    }
    if rem >= 2 {
        chunk = chunk | ((data[base + 1] as u32) << 8);
    }
    if rem >= 1 {
        chunk = chunk | (data[base] as u32);
        proof {
            lemma_or_zero();
            assert(chunk == spec_tail_chunk(data@));
        }
        chunk = rotr(chunk.wrapping_mul(C32_1), 17).wrapping_mul(C32_2);

        hash = hash ^ chunk;
    }

    hash = hash ^ length;
    hash = hash ^ (hash >> 16);
    hash = hash.wrapping_mul(C32_4);
    hash = hash ^ (hash >> 13);
    hash = hash.wrapping_mul(C32_5);
    hash = hash ^ (hash >> 16);

    proof {
        reveal(spec_murmur);
    }
    hash
}

} // verus!
