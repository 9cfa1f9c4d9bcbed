//! The cipher engine: a single-round, fixed-key block cipher over 8-byte
//! blocks, a byte shuffle, and the policy that decides which blocks of an
//! entry's payload get which treatment.
//!
//! Every transform works in place on a byte buffer and touches exactly the
//! eight bytes of the block it is pointed at. Bits of a block are numbered
//! from the most significant bit of its first byte.

use vstd::prelude::*;

verus! {

/// Size of a cipher block in bytes.
pub const BLOCK_SIZE: usize = 8;

/// Number of leading blocks that the unconditional cipher pass may reach.
pub const HEAD_BLOCKS: usize = 20;

/// Single-bit masks of a byte, most significant bit first.
pub const MASK: [u8; 8] = [0x80, 0x40, 0x20, 0x10, 0x08, 0x04, 0x02, 0x01];

/// Source bit (counted from 1) of each bit of the initially permuted block.
pub const INITIAL_PERMUTATION_TABLE: [u8; 64] = [
    58, 50, 42, 34, 26, 18, 10, 2, 60, 52, 44, 36, 28, 20, 12, 4, 62, 54, 46, 38, 30, 22, 14, 6,
    64, 56, 48, 40, 32, 24, 16, 8, 57, 49, 41, 33, 25, 17, 9, 1, 59, 51, 43, 35, 27, 19, 11, 3, 61,
    53, 45, 37, 29, 21, 13, 5, 63, 55, 47, 39, 31, 23, 15, 7,
];

/// Source bit (counted from 1) of each bit of the finally permuted block.
/// The archive format uses the same contents as for the initial permutation.
pub const FINAL_PERMUTATION_TABLE: [u8; 64] = [
    58, 50, 42, 34, 26, 18, 10, 2, 60, 52, 44, 36, 28, 20, 12, 4, 62, 54, 46, 38, 30, 22, 14, 6,
    64, 56, 48, 40, 32, 24, 16, 8, 57, 49, 41, 33, 25, 17, 9, 1, 59, 51, 43, 35, 27, 19, 11, 3, 61,
    53, 45, 37, 29, 21, 13, 5, 63, 55, 47, 39, 31, 23, 15, 7,
];

/// Source bit (counted from 1) of each bit that the transposition places;
/// only the first 32 entries are used.
pub const TRANSPOSITION_TABLE: [u8; 64] = [
    58, 50, 42, 34, 26, 18, 10, 2, 60, 52, 44, 36, 28, 20, 12, 4, 62, 54, 46, 38, 30, 22, 14, 6,
    64, 56, 48, 40, 32, 24, 16, 8, 57, 49, 41, 33, 25, 17, 9, 1, 59, 51, 43, 35, 27, 19, 11, 3, 61,
    53, 45, 37, 29, 21, 13, 5, 63, 55, 47, 39, 31, 23, 15, 7,
];

/// The four substitution boxes, each indexed by a six-bit group.
pub const SUBSTITUTION_BOX_TABLE: [[u8; 64]; 4] = [
    [
        0xef, 0x03, 0x41, 0xfd, 0xd8, 0x74, 0x1e, 0x47, 0x26, 0xef, 0xfb, 0x22, 0xb3, 0xd8, 0x84,
        0x1e, 0x39, 0xac, 0xa7, 0x60, 0x62, 0xc1, 0xcd, 0xba, 0x5c, 0x96, 0x90, 0x59, 0x05, 0x3b,
        0x7a, 0x85, 0x40, 0xfd, 0x1e, 0xc8, 0xe7, 0x8a, 0x8b, 0x21, 0xda, 0x43, 0x64, 0x9f, 0x2d,
        0x14, 0xb1, 0x72, 0xf5, 0x5b, 0xc8, 0xb6, 0x9c, 0x37, 0x76, 0xec, 0x39, 0xa0, 0xa3, 0x05,
        0x52, 0x6e, 0x0f, 0xd9,
    ],
    [
        0xa7, 0xdd, 0x0d, 0x78, 0x9e, 0x0b, 0xe3, 0x95, 0x60, 0x36, 0x36, 0x4f, 0xf9, 0x60, 0x5a,
        0xa3, 0x11, 0x24, 0xd2, 0x87, 0xc8, 0x52, 0x75, 0xec, 0xbb, 0xc1, 0x4c, 0xba, 0x24, 0xfe,
        0x8f, 0x19, 0xda, 0x13, 0x66, 0xaf, 0x49, 0xd0, 0x90, 0x06, 0x8c, 0x6a, 0xfb, 0x91, 0x37,
        0x8d, 0x0d, 0x78, 0xbf, 0x49, 0x11, 0xf4, 0x23, 0xe5, 0xce, 0x3b, 0x55, 0xbc, 0xa2, 0x57,
        0xe8, 0x22, 0x74, 0xce,
    ],
    [
        0x2c, 0xea, 0xc1, 0xbf, 0x4a, 0x24, 0x1f, 0xc2, 0x79, 0x47, 0xa2, 0x7c, 0xb6, 0xd9, 0x68,
        0x15, 0x80, 0x56, 0x5d, 0x01, 0x33, 0xfd, 0xf4, 0xae, 0xde, 0x30, 0x07, 0x9b, 0xe5, 0x83,
        0x9b, 0x68, 0x49, 0xb4, 0x2e, 0x83, 0x1f, 0xc2, 0xb5, 0x7c, 0xa2, 0x19, 0xd8, 0xe5, 0x7c,
        0x2f, 0x83, 0xda, 0xf7, 0x6b, 0x90, 0xfe, 0xc4, 0x01, 0x5a, 0x97, 0x61, 0xa6, 0x3d, 0x40,
        0x0b, 0x58, 0xe6, 0x3d,
    ],
    [
        0x4d, 0xd1, 0xb2, 0x0f, 0x28, 0xbd, 0xe4, 0x78, 0xf6, 0x4a, 0x0f, 0x93, 0x8b, 0x17, 0xd1,
        0xa4, 0x3a, 0xec, 0xc9, 0x35, 0x93, 0x56, 0x7e, 0xcb, 0x55, 0x20, 0xa0, 0xfe, 0x6c, 0x89,
        0x17, 0x62, 0x17, 0x62, 0x4b, 0xb1, 0xb4, 0xde, 0xd1, 0x87, 0xc9, 0x14, 0x3c, 0x4a, 0x7e,
        0xa8, 0xe2, 0x7d, 0xa0, 0x9f, 0xf6, 0x5c, 0x6a, 0x09, 0x8d, 0xf0, 0x0f, 0xe3, 0x53, 0x25,
        0x95, 0x36, 0x28, 0xcb,
    ],
];

/// The eight bytes of `buf` that start at byte offset `index`.
pub open spec fn block_at(buf: Seq<u8>, index: int) -> Seq<u8> {
    buf.subrange(index, index + 8)
}

/// `buf` with the eight bytes that start at byte offset `index` replaced by
/// `block`; every other byte is kept.
pub open spec fn with_block(buf: Seq<u8>, index: int, block: Seq<u8>) -> Seq<u8> {
    Seq::new(
        buf.len(),
        |i: int|
            if index <= i < index + 8 {
                block[i - index]
            } else {
                buf[i]
            },
    )
}

/// Whether bit `j` of `block` is set, counting from the most significant bit
/// of byte 0.
pub open spec fn bit(block: Seq<u8>, j: int) -> bool {
    block[j / 8] & MASK[j % 8] != 0
}

/// `mask` if the bit of `block` at the one-based `position` is set, else 0.
pub open spec fn selected(block: Seq<u8>, position: u8, mask: u8) -> u8 {
    if bit(block, position - 1) {
        mask
    } else {
        0
    }
}

/// The byte whose bits, most significant first, are the bits of `block` at
/// the positions `table[at] .. table[at + 7]`.
pub open spec fn gathered(block: Seq<u8>, table: Seq<u8>, at: int) -> u8 {
    selected(block, table[at], 0x80) | selected(block, table[at + 1], 0x40) | selected(
        block,
        table[at + 2],
        0x20,
    ) | selected(block, table[at + 3], 0x10) | selected(block, table[at + 4], 0x08) | selected(
        block,
        table[at + 5],
        0x04,
    ) | selected(block, table[at + 6], 0x02) | selected(block, table[at + 7], 0x01)
}

/// A table of 64 one-based bit positions of a block.
pub open spec fn is_bit_table(table: Seq<u8>) -> bool {
    &&& table.len() == 64
    &&& forall|i: int| 0 <= i < 64 ==> 1 <= #[trigger] table[i] <= 64
}

/// The block whose bit `i` is bit `table[i] - 1` of `block`, for all 64 bits.
pub open spec fn permuted(block: Seq<u8>, table: Seq<u8>) -> Seq<u8> {
    Seq::new(8, |k: int| gathered(block, table, 8 * k))
}

/// The block after the initial permutation.
pub open spec fn initial_permuted(block: Seq<u8>) -> Seq<u8> {
    permuted(block, INITIAL_PERMUTATION_TABLE@)
}

/// The block after the final permutation.
pub open spec fn final_permuted(block: Seq<u8>) -> Seq<u8> {
    permuted(block, FINAL_PERMUTATION_TABLE@)
}

/// The block after the expansion: the four bytes of the right half repacked
/// into eight six-bit groups.
pub open spec fn expanded(block: Seq<u8>) -> Seq<u8> {
    seq![
        ((block[7] << 5) | (block[4] >> 3)) & 0x3f,
        ((block[4] << 1) | (block[5] >> 7)) & 0x3f,
        ((block[4] << 5) | (block[5] >> 3)) & 0x3f,
        ((block[5] << 1) | (block[6] >> 7)) & 0x3f,
        ((block[5] << 5) | (block[6] >> 3)) & 0x3f,
        ((block[6] << 1) | (block[7] >> 7)) & 0x3f,
        ((block[6] << 5) | (block[7] >> 3)) & 0x3f,
        ((block[7] << 1) | (block[4] >> 7)) & 0x3f,
    ]
}

/// The block holds eight six-bit groups.
pub open spec fn is_six_bit(block: Seq<u8>) -> bool {
    &&& block.len() == 8
    &&& forall|k: int| 0 <= k < 8 ==> #[trigger] block[k] < 64
}

/// Byte `k` of the substitution result: the high nibbles of the lookups of
/// groups `2k` and `2k + 1` in box `k`, packed into one byte.
pub open spec fn substituted_byte(block: Seq<u8>, k: int) -> u8 {
    (SUBSTITUTION_BOX_TABLE[k][block[2 * k] as int] & 0xf0) | (SUBSTITUTION_BOX_TABLE[k][block[2
        * k + 1] as int] & 0xf0)
}

/// The block after the substitution: four packed bytes, then four zero bytes.
pub open spec fn substituted(block: Seq<u8>) -> Seq<u8> {
    Seq::new(
        8,
        |k: int|
            if k < 4 {
                substituted_byte(block, k)
            } else {
                0u8
            },
    )
}

/// The block after the transposition: the low four bytes are cleared and bit
/// `i` of the high four bytes is bit `TRANSPOSITION_TABLE[i] - 1` of `block`,
/// for 32 bits.
pub open spec fn transposed(block: Seq<u8>) -> Seq<u8> {
    Seq::new(
        8,
        |k: int|
            if k < 4 {
                0u8
            } else {
                gathered(block, TRANSPOSITION_TABLE@, 8 * (k - 4))
            },
    )
}

/// The block after the round function: expansion, substitution and
/// transposition in turn, then the low four bytes combined by exclusive or
/// with the right half that the block had before the round.
pub open spec fn round_of(block: Seq<u8>) -> Seq<u8> {
    let mixed = transposed(substituted(expanded(block)));
    Seq::new(
        8,
        |k: int|
            if k < 4 {
                mixed[k] ^ block[k + 4]
            } else {
                mixed[k]
            },
    )
}

/// The block after the whole cipher: initial permutation, one round, final
/// permutation.
#[verifier::opaque]
pub open spec fn decrypted_block(block: Seq<u8>) -> Seq<u8> {
    final_permuted(round_of(initial_permuted(block)))
}

/// Replacing a block twice keeps the second block only, and the block read
/// back is the one that was written.
pub proof fn lemma_with_block(buf: Seq<u8>, index: int, first: Seq<u8>, second: Seq<u8>)
    requires
        0 <= index,
        index + 8 <= buf.len(),
        first.len() == 8,
        second.len() == 8,
    ensures
        with_block(buf, index, first).len() == buf.len(),
        block_at(with_block(buf, index, first), index) == first,
        with_block(with_block(buf, index, first), index, second) == with_block(buf, index, second),
{
    assert(block_at(with_block(buf, index, first), index) =~= first);
    assert(with_block(with_block(buf, index, first), index, second) =~= with_block(
        buf,
        index,
        second,
    ));
}

proof fn lemma_bit_tables()
    ensures
        is_bit_table(INITIAL_PERMUTATION_TABLE@),
        is_bit_table(FINAL_PERMUTATION_TABLE@),
        is_bit_table(TRANSPOSITION_TABLE@),
{
}

fn load_block(buf: &[u8], index: usize) -> (block: [u8; 8])
    requires
        index + 8 <= buf@.len(),
    ensures
        block@ == block_at(buf@, index as int),
{
    let block: [u8; 8] = [
        buf[index],
        buf[index + 1],
        buf[index + 2],
        buf[index + 3],
        buf[index + 4],
        buf[index + 5],
        buf[index + 6],
        buf[index + 7],
    ];
    assert(block@ =~= block_at(buf@, index as int));
    block
}

fn store_block(buf: &mut [u8], index: usize, block: &[u8; 8])
    requires
        index + 8 <= old(buf)@.len(),
    ensures
        final(buf)@ == with_block(old(buf)@, index as int, block@),
{
    let ghost before = buf@;
    let len = buf.len();
    let mut k: usize = 0;
    while k < 8
        invariant
            k <= 8,
            index + 8 <= len,
            len == before.len(),
            buf@.len() == before.len(),
            forall|i: int|
                0 <= i < before.len() ==> buf@[i] == if index <= i < index + k {
                    block@[i - index]
                } else {
                    before[i]
                },
        decreases 8 - k,
    {
        buf[index + k] = block[k];
        k += 1;
    }
    assert(buf@ =~= with_block(before, index as int, block@));
}

fn pick(block: &[u8; 8], position: u8, mask: u8) -> (r: u8)
    requires
        1 <= position <= 64,
    ensures
        r == selected(block@, position, mask),
{
    let j: u8 = position - 1;
    assert((j >> 3u8) == j / 8 && (j & 7) == j % 8) by (bit_vector);
    if block[(j >> 3u8) as usize] & MASK[(j & 7) as usize] != 0 {
        mask
    } else {
        0
    }
}

fn gather(block: &[u8; 8], table: &[u8; 64], at: usize) -> (r: u8)
    requires
        is_bit_table(table@),
        at + 8 <= 64,
    ensures
        r == gathered(block@, table@, at as int),
{
    pick(block, table[at], 0x80) | pick(block, table[at + 1], 0x40) | pick(
        block,
        table[at + 2],
        0x20,
    ) | pick(block, table[at + 3], 0x10) | pick(block, table[at + 4], 0x08) | pick(
        block,
        table[at + 5],
        0x04,
    ) | pick(block, table[at + 6], 0x02) | pick(block, table[at + 7], 0x01)
}

fn permute(block: &[u8; 8], table: &[u8; 64]) -> (r: [u8; 8])
    requires
        is_bit_table(table@),
    ensures
        r@ == permuted(block@, table@),
{
    let r: [u8; 8] = [
        gather(block, table, 0),
        gather(block, table, 8),
        gather(block, table, 16),
        gather(block, table, 24),
        gather(block, table, 32),
        gather(block, table, 40),
        gather(block, table, 48),
        gather(block, table, 56),
    ];
    assert(r@ =~= permuted(block@, table@));
    r
}

/// Rearranges the 64 bits of the block at byte offset `index` by the initial
/// permutation table.
pub fn initial_permutation(buf: &mut [u8], index: usize)
    requires
        index + 8 <= old(buf)@.len(),
    ensures
        final(buf)@ == with_block(
            old(buf)@,
            index as int,
            initial_permuted(block_at(old(buf)@, index as int)),
        ),
{
    proof {
        lemma_bit_tables();
    }
    let block = load_block(buf, index);
    let tmp = permute(&block, &INITIAL_PERMUTATION_TABLE);
    store_block(buf, index, &tmp);
}

/// Rearranges the 64 bits of the block at byte offset `index` by the final
/// permutation table.
pub fn final_permutation(buf: &mut [u8], index: usize)
    requires
        index + 8 <= old(buf)@.len(),
    ensures
        final(buf)@ == with_block(
            old(buf)@,
            index as int,
            final_permuted(block_at(old(buf)@, index as int)),
        ),
{
    proof {
        lemma_bit_tables();
    }
    let block = load_block(buf, index);
    let tmp = permute(&block, &FINAL_PERMUTATION_TABLE);
    store_block(buf, index, &tmp);
}

/// Repacks the right half of the block at byte offset `index` into eight
/// six-bit groups, which replace the block.
pub fn expansion(buf: &mut [u8], index: usize)
    requires
        index + 8 <= old(buf)@.len(),
    ensures
        final(buf)@ == with_block(
            old(buf)@,
            index as int,
            expanded(block_at(old(buf)@, index as int)),
        ),
        is_six_bit(expanded(block_at(old(buf)@, index as int))),
{
    let b = load_block(buf, index);
    let tmp: [u8; 8] = [
        ((b[7] << 5u8) | (b[4] >> 3u8)) & 0x3f,
        ((b[4] << 1u8) | (b[5] >> 7u8)) & 0x3f,
        ((b[4] << 5u8) | (b[5] >> 3u8)) & 0x3f,
        ((b[5] << 1u8) | (b[6] >> 7u8)) & 0x3f,
        ((b[5] << 5u8) | (b[6] >> 3u8)) & 0x3f,
        ((b[6] << 1u8) | (b[7] >> 7u8)) & 0x3f,
        ((b[6] << 5u8) | (b[7] >> 3u8)) & 0x3f,
        ((b[7] << 1u8) | (b[4] >> 7u8)) & 0x3f,
    ];
    proof {
        assert(tmp@ =~= expanded(b@));
        assert(forall|x: u8| #[trigger] (x & 0x3f) < 64) by (bit_vector);
    }
    store_block(buf, index, &tmp);
}

fn substitute(block: &[u8; 8], k: usize) -> (r: u8)
    requires
        is_six_bit(block@),
        k < 4,
    ensures
        r == substituted_byte(block@, k as int),
{
    (SUBSTITUTION_BOX_TABLE[k][block[2 * k] as usize] & 0xf0) | (SUBSTITUTION_BOX_TABLE[k][block[2
        * k + 1] as usize] & 0xf0)
}

/// Looks the eight six-bit groups of the block at byte offset `index` up in
/// the substitution boxes and packs the result into the block's first four
/// bytes; the other four are cleared.
pub fn substitution(buf: &mut [u8], index: usize)
    requires
        index + 8 <= old(buf)@.len(),
        is_six_bit(block_at(old(buf)@, index as int)),
    ensures
        final(buf)@ == with_block(
            old(buf)@,
            index as int,
            substituted(block_at(old(buf)@, index as int)),
        ),
{
    let b = load_block(buf, index);
    let tmp: [u8; 8] = [
        substitute(&b, 0),
        substitute(&b, 1),
        substitute(&b, 2),
        substitute(&b, 3),
        0,
        0,
        0,
        0,
    ];
    assert(tmp@ =~= substituted(b@));
    store_block(buf, index, &tmp);
}

/// Places 32 bits of the block at byte offset `index`, picked by the
/// transposition table, into the block's last four bytes; the first four are
/// cleared.
pub fn transposition(buf: &mut [u8], index: usize)
    requires
        index + 8 <= old(buf)@.len(),
    ensures
        final(buf)@ == with_block(
            old(buf)@,
            index as int,
            transposed(block_at(old(buf)@, index as int)),
        ),
{
    proof {
        lemma_bit_tables();
    }
    let b = load_block(buf, index);
    let tmp: [u8; 8] = [
        0,
        0,
        0,
        0,
        gather(&b, &TRANSPOSITION_TABLE, 0),
        gather(&b, &TRANSPOSITION_TABLE, 8),
        gather(&b, &TRANSPOSITION_TABLE, 16),
        gather(&b, &TRANSPOSITION_TABLE, 24),
    ];
    assert(tmp@ =~= transposed(b@));
    store_block(buf, index, &tmp);
}

/// Applies the round function to the block at byte offset `index`.
pub fn round(buf: &mut [u8], index: usize)
    requires
        index + 8 <= old(buf)@.len(),
    ensures
        final(buf)@ == with_block(
            old(buf)@,
            index as int,
            round_of(block_at(old(buf)@, index as int)),
        ),
{
    let ghost before = buf@;
    let ghost block = block_at(before, index as int);
    let saved = load_block(buf, index);
    expansion(buf, index);
    proof {
        lemma_with_block(before, index as int, expanded(block), expanded(block));
    }
    substitution(buf, index);
    proof {
        lemma_with_block(before, index as int, expanded(block), substituted(expanded(block)));
        lemma_with_block(
            before,
            index as int,
            substituted(expanded(block)),
            substituted(expanded(block)),
        );
    }
    transposition(buf, index);
    let ghost mixed = transposed(substituted(expanded(block)));
    proof {
        lemma_with_block(before, index as int, substituted(expanded(block)), mixed);
        lemma_with_block(before, index as int, mixed, mixed);
        assert(buf@ == with_block(before, index as int, mixed));
    }
    buf[index] = buf[index] ^ saved[4];
    buf[index + 1] = buf[index + 1] ^ saved[5];
    buf[index + 2] = buf[index + 2] ^ saved[6];
    buf[index + 3] = buf[index + 3] ^ saved[7];
    assert(buf@ =~= with_block(before, index as int, round_of(block)));
}

/// Deciphers the block at byte offset `index`: initial permutation, one
/// round, final permutation. No other byte of `buf` changes.
pub fn decrypt_block(buf: &mut [u8], index: usize)
    requires
        index + 8 <= old(buf)@.len(),
    ensures
        final(buf)@ == with_block(
            old(buf)@,
            index as int,
            decrypted_block(block_at(old(buf)@, index as int)),
        ),
{
    let ghost before = buf@;
    let ghost block = block_at(before, index as int);
    initial_permutation(buf, index);
    proof {
        reveal(decrypted_block);
        lemma_with_block(before, index as int, initial_permuted(block), initial_permuted(block));
    }
    round(buf, index);
    proof {
        lemma_with_block(
            before,
            index as int,
            initial_permuted(block),
            round_of(initial_permuted(block)),
        );
        lemma_with_block(
            before,
            index as int,
            round_of(initial_permuted(block)),
            round_of(initial_permuted(block)),
        );
    }
    final_permutation(buf, index);
    proof {
        lemma_with_block(
            before,
            index as int,
            round_of(initial_permuted(block)),
            decrypted_block(block),
        );
    }
}

/// The values that the shuffle swaps, pair by pair: each value at an even
/// place is exchanged with the one after it.
pub const SHUFFLE_PAIRS: [u8; 14] = [
    0x00, 0x2b, 0x6c, 0x80, 0x01, 0x68, 0x48, 0x77, 0x60, 0xff, 0xb9, 0xc0, 0xfe, 0xeb,
];

/// Number of pairs in `SHUFFLE_PAIRS`.
pub const SHUFFLE_PAIR_COUNT: usize = 7;

/// `v` after the first `n` pairs of `SHUFFLE_PAIRS` were installed: its
/// partner under the last of them that names it, or `v` itself.
pub open spec fn swapped_by(v: u8, n: nat) -> u8
    decreases n,
{
    if n == 0 {
        v
    } else if v == SHUFFLE_PAIRS[2 * (n - 1)] {
        SHUFFLE_PAIRS[2 * (n - 1) + 1]
    } else if v == SHUFFLE_PAIRS[2 * (n - 1) + 1] {
        SHUFFLE_PAIRS[2 * (n - 1)]
    } else {
        swapped_by(v, (n - 1) as nat)
    }
}

/// The substitute of the byte value `v`: its partner if a pair of
/// `SHUFFLE_PAIRS` names it, else `v` itself.
pub open spec fn swapped(v: u8) -> u8 {
    swapped_by(v, SHUFFLE_PAIR_COUNT as nat)
}

/// The 256-entry byte substitution table of the shuffle.
pub open spec fn shuffle_table() -> Seq<u8> {
    Seq::new(256, |v: int| swapped(v as u8))
}

/// The block after the shuffle: bytes 3, 4, 6, 0, 1, 2, 5 in that order,
/// then the substitute of byte 7.
pub open spec fn shuffled(block: Seq<u8>) -> Seq<u8> {
    seq![
        block[3],
        block[4],
        block[6],
        block[0],
        block[1],
        block[2],
        block[5],
        swapped(block[7]),
    ]
}

/// Number of whole blocks that a pass may touch: those that the aligned size
/// announces, as far as the buffer holds them.
pub open spec fn block_count(len: nat, aligned_size: int) -> int {
    if aligned_size / 8 <= len as int / 8 {
        aligned_size / 8
    } else {
        len as int / 8
    }
}

/// `buf` with each block of index `from <= b < to` deciphered and every other
/// byte kept.
pub open spec fn blocks_decrypted(buf: Seq<u8>, from: int, to: int) -> Seq<u8> {
    Seq::new(
        buf.len(),
        |i: int|
            if 8 * from <= i < 8 * to {
                decrypted_block(block_at(buf, i / 8 * 8))[i % 8]
            } else {
                buf[i]
            },
    )
}

/// End of the unconditional cipher pass over a buffer of `n` blocks.
pub open spec fn head_end(n: int) -> int {
    if n < HEAD_BLOCKS {
        n
    } else {
        HEAD_BLOCKS as int
    }
}

/// The buffer after the header-only pass: blocks 1 to 19 deciphered, as far
/// as they exist; block 0 and every block from 20 on are kept.
pub open spec fn decoded_header(buf: Seq<u8>, aligned_size: int) -> Seq<u8> {
    blocks_decrypted(buf, 1, head_end(block_count(buf.len(), aligned_size)))
}

/// The stride at which blocks from index 20 on are deciphered.
pub open spec fn cycle_of(packed_size: int) -> int {
    if packed_size < 3 {
        1
    } else if packed_size < 5 {
        packed_size + 1
    } else if packed_size < 7 {
        packed_size + 9
    } else {
        packed_size + 15
    }
}

/// Number of blocks of index 20 to `i` inclusive that the stride `cycle` does
/// not select for the cipher.
pub open spec fn skipped(i: int, cycle: int) -> int
    decreases i,
{
    if i < HEAD_BLOCKS {
        0
    } else {
        skipped(i - 1, cycle) + if i % cycle != 0 {
            1int
        } else {
            0int
        }
    }
}

/// Whether block `i` triggers a shuffle: the stride does not select it, and
/// it is the eighth such block since the last shuffle (or since block 20).
pub open spec fn shuffle_due(i: int, cycle: int) -> bool {
    i % cycle != 0 && skipped(i, cycle) % 8 == 0
}

/// The buffer after the blocks of index 20 to `n - 1` were visited in order.
/// A block that the stride selects is deciphered in place. A block that
/// triggers a shuffle has the eight bytes at byte offset `i + 8` shuffled,
/// where `i` is the block's index.
pub open spec fn tail_decoded(buf: Seq<u8>, n: int, cycle: int) -> Seq<u8>
    decreases n,
{
    if n <= HEAD_BLOCKS {
        buf
    } else {
        let before = tail_decoded(buf, n - 1, cycle);
        let i = n - 1;
        if i % cycle == 0 {
            with_block(before, 8 * i, decrypted_block(block_at(before, 8 * i)))
        } else if shuffle_due(i, cycle) {
            with_block(before, i + 8, shuffled(block_at(before, i + 8)))
        } else {
            before
        }
    }
}

/// The buffer after the full pass: the header-only pass, then the blocks
/// from index 20 on visited in order.
pub open spec fn decoded_entry(buf: Seq<u8>, aligned_size: int, packed_size: int) -> Seq<u8> {
    tail_decoded(
        decoded_header(buf, aligned_size),
        block_count(buf.len(), aligned_size),
        cycle_of(packed_size),
    )
}

/// Builds the byte substitution table of the shuffle: the identity, but for
/// the values of `SHUFFLE_PAIRS`, each of which maps to its partner.
pub fn get_shuffle_dec_table() -> (output: Vec<u8>)
    ensures
        output@ == shuffle_table(),
{
    let mut output: Vec<u8> = Vec::new();
    let mut v: usize = 0;
    while v < 256
        invariant
            v <= 256,
            output@.len() == v,
            forall|i: int| 0 <= i < v ==> output@[i] == i,
        decreases 256 - v,
    {
        output.push(v as u8);
        v += 1;
    }
    let mut p: usize = 0;
    while p < SHUFFLE_PAIR_COUNT
        invariant
            p <= SHUFFLE_PAIR_COUNT,
            output@.len() == 256,
            forall|i: int| 0 <= i < 256 ==> output@[i] == swapped_by(i as u8, p as nat),
        decreases SHUFFLE_PAIR_COUNT - p,
    {
        let a: u8 = SHUFFLE_PAIRS[2 * p];
        let b: u8 = SHUFFLE_PAIRS[2 * p + 1];
        output[a as usize] = b;
        output[b as usize] = a;
        p += 1;
    }
    assert(output@ =~= shuffle_table());
    output
}

/// Shuffles the block at byte offset `index`: reorders its first seven bytes
/// and replaces the last by its substitute. No other byte of `buf` changes.
pub fn shuffle_dec(buf: &mut [u8], index: usize)
    requires
        index + 8 <= old(buf)@.len(),
    ensures
        final(buf)@ == with_block(
            old(buf)@,
            index as int,
            shuffled(block_at(old(buf)@, index as int)),
        ),
{
    let table = get_shuffle_dec_table();
    let b = load_block(buf, index);
    let tmp: [u8; 8] = [b[3], b[4], b[6], b[0], b[1], b[2], b[5], table[b[7] as usize]];
    assert(tmp@ =~= shuffled(b@));
    store_block(buf, index, &tmp);
}

fn count_blocks(len: usize, aligned_size: usize) -> (n: usize)
    ensures
        n == block_count(len as nat, aligned_size as int),
        n * 8 <= len,
{
    assert(aligned_size >> 3usize == aligned_size / 8) by (bit_vector);
    assert(len >> 3usize == len / 8) by (bit_vector);
    let announced = aligned_size >> 3usize;
    let held = len >> 3usize;
    if announced <= held {
        announced
    } else {
        held
    }
}

proof fn lemma_decrypt_next(buf: Seq<u8>, i: int)
    requires
        1 <= i,
        8 * i + 8 <= buf.len(),
    ensures
        block_at(blocks_decrypted(buf, 1, i), 8 * i) == block_at(buf, 8 * i),
        with_block(blocks_decrypted(buf, 1, i), 8 * i, decrypted_block(block_at(buf, 8 * i)))
            == blocks_decrypted(buf, 1, i + 1),
{
    let done = blocks_decrypted(buf, 1, i);
    let next = with_block(done, 8 * i, decrypted_block(block_at(buf, 8 * i)));
    assert(block_at(done, 8 * i) =~= block_at(buf, 8 * i));
    assert forall|p: int| 0 <= p < buf.len() implies next[p] == blocks_decrypted(buf, 1, i + 1)[p] by {
        if 8 * i <= p < 8 * i + 8 {
            assert(p / 8 * 8 == 8 * i);
            assert(p % 8 == p - 8 * i);
        }
    }
    assert(next =~= blocks_decrypted(buf, 1, i + 1));
}

fn decode_head(buf: &mut [u8], num_blocks: usize)
    requires
        num_blocks * 8 <= old(buf)@.len(),
    ensures
        final(buf)@ == blocks_decrypted(old(buf)@, 1, head_end(num_blocks as int)),
{
    let ghost before = buf@;
    let len = buf.len();
    let mut i: usize = 1;
    while i < HEAD_BLOCKS && i < num_blocks
        invariant
            1 <= i <= HEAD_BLOCKS,
            i <= num_blocks || i == 1,
            num_blocks * 8 <= len,
            len == before.len(),
            buf@.len() == len,
            buf@ == blocks_decrypted(before, 1, i as int),
        decreases HEAD_BLOCKS - i,
    {
        proof {
            lemma_decrypt_next(before, i as int);
        }
        decrypt_block(buf, i * 8);
        i += 1;
    }
    assert(buf@ =~= blocks_decrypted(before, 1, head_end(num_blocks as int)));
}

/// Deciphers the header of an entry's payload in place: the block cipher on
/// blocks 1 to 19, as far as `aligned_size` announces them and the buffer
/// holds them. Block 0 and every block from index 20 on stay byte for byte
/// as they were.
pub fn decode_header(buf: &mut [u8], aligned_size: usize)
    ensures
        final(buf)@ == decoded_header(old(buf)@, aligned_size as int),
        final(buf)@.len() == old(buf)@.len(),
        forall|i: int|
            0 <= i < old(buf)@.len() && (i < 8 || i >= 160) ==> final(buf)@[i] == old(buf)@[i],
{
    let num_blocks = count_blocks(buf.len(), aligned_size);
    decode_head(buf, num_blocks);
}

fn cycle_for(packed_size: usize) -> (cycle: usize)
    ensures
        cycle >= 1,
        cycle == cycle_of(packed_size as int) || (cycle == usize::MAX && cycle_of(
            packed_size as int,
        ) > usize::MAX),
{
    if packed_size < 3 {
        1
    } else if packed_size < 5 {
        packed_size + 1
    } else if packed_size < 7 {
        packed_size + 9
    } else if packed_size <= usize::MAX - 15 {
        packed_size + 15
    } else {
        usize::MAX
    }
}

/// Deciphers an entry's payload in place. Blocks 1 to 19 get the block
/// cipher. From block 20 on, each block whose index is a multiple of the
/// stride that `packed_size` gives gets the block cipher; of the others,
/// every eighth triggers one shuffle of the eight bytes at byte offset
/// `i + 8`, where `i` is that block's index. Only blocks that `aligned_size`
/// announces and the buffer holds are visited; block 0 is never deciphered.
pub fn decode_entry(buf: &mut [u8], aligned_size: usize, packed_size: usize)
    ensures
        final(buf)@ == decoded_entry(old(buf)@, aligned_size as int, packed_size as int),
        final(buf)@.len() == old(buf)@.len(),
{
    let ghost before = buf@;
    let ghost stride = cycle_of(packed_size as int);
    let len = buf.len();
    let num_blocks = count_blocks(len, aligned_size);
    let cycle = cycle_for(packed_size);
    decode_head(buf, num_blocks);
    let ghost head = buf@;
    let mut counter: usize = 0;
    let mut i: usize = HEAD_BLOCKS;
    while i < num_blocks
        invariant
            HEAD_BLOCKS <= i,
            i <= num_blocks || i == HEAD_BLOCKS,
            num_blocks * 8 <= len,
            buf@.len() == len,
            head.len() == len,
            cycle >= 1,
            stride == cycle_of(packed_size as int),
            cycle == stride || (cycle == usize::MAX && stride > usize::MAX),
            buf@ == tail_decoded(head, i as int, stride),
            counter == skipped(i - 1, stride) % 8,
        decreases num_blocks - i,
    {
        proof {
            if cycle != stride {
                vstd::arithmetic::div_mod::lemma_small_mod(i as nat, cycle as nat);
                vstd::arithmetic::div_mod::lemma_small_mod(i as nat, stride as nat);
            }
            assert((i % cycle == 0) == (i as int % stride == 0));
        }
        if i % cycle == 0 {
            decrypt_block(buf, i * 8);
        } else if counter == 7 {
            shuffle_dec(buf, i + 8);
            counter = 0;
        } else {
            counter += 1;
        }
        i += 1;
    }
}

/// With a packed size under 3 the stride is 1: every block from index 20 on
/// is selected for the cipher, so no block ever triggers a shuffle, and the
/// full pass deciphers each block from 1 on and does nothing else.
pub proof fn lemma_stride_one_never_shuffles(buf: Seq<u8>, aligned_size: int, packed_size: int)
    requires
        packed_size < 3,
    ensures
        cycle_of(packed_size) == 1,
        forall|i: int| !shuffle_due(i, cycle_of(packed_size)),
        decoded_entry(buf, aligned_size, packed_size) == blocks_decrypted(
            buf,
            1,
            block_count(buf.len(), aligned_size),
        ),
{
    let n = block_count(buf.len(), aligned_size);
    lemma_tail_of_stride_one(buf, n, n);
}

proof fn lemma_tail_of_stride_one(buf: Seq<u8>, total: int, n: int)
    requires
        n <= total,
        8 * total <= buf.len(),
    ensures
        tail_decoded(blocks_decrypted(buf, 1, head_end(total)), n, 1) == blocks_decrypted(
            buf,
            1,
            if n < HEAD_BLOCKS {
                head_end(total)
            } else {
                n
            },
        ),
    decreases n,
{
    let head = blocks_decrypted(buf, 1, head_end(total));
    if n > HEAD_BLOCKS {
        lemma_tail_of_stride_one(buf, total, n - 1);
        let before = tail_decoded(head, n - 1, 1);
        let i = n - 1;
        assert(before == blocks_decrypted(buf, 1, i));
        lemma_decrypt_next(buf, i);
    } else if n == HEAD_BLOCKS {
        assert(head_end(total) == 20);
    } else {
    }
}

proof fn lemma_or_of_masks(m0: u8, m1: u8, m2: u8, m3: u8, m4: u8, m5: u8, m6: u8, m7: u8)
    by (bit_vector)
    requires
        m0 == 0 || m0 == 0x80,
        m1 == 0 || m1 == 0x40,
        m2 == 0 || m2 == 0x20,
        m3 == 0 || m3 == 0x10,
        m4 == 0 || m4 == 0x08,
        m5 == 0 || m5 == 0x04,
        m6 == 0 || m6 == 0x02,
        m7 == 0 || m7 == 0x01,
    ensures
        ((m0 | m1 | m2 | m3 | m4 | m5 | m6 | m7) & 0x80 != 0) == (m0 != 0),
        ((m0 | m1 | m2 | m3 | m4 | m5 | m6 | m7) & 0x40 != 0) == (m1 != 0),
        ((m0 | m1 | m2 | m3 | m4 | m5 | m6 | m7) & 0x20 != 0) == (m2 != 0),
        ((m0 | m1 | m2 | m3 | m4 | m5 | m6 | m7) & 0x10 != 0) == (m3 != 0),
        ((m0 | m1 | m2 | m3 | m4 | m5 | m6 | m7) & 0x08 != 0) == (m4 != 0),
        ((m0 | m1 | m2 | m3 | m4 | m5 | m6 | m7) & 0x04 != 0) == (m5 != 0),
        ((m0 | m1 | m2 | m3 | m4 | m5 | m6 | m7) & 0x02 != 0) == (m6 != 0),
        ((m0 | m1 | m2 | m3 | m4 | m5 | m6 | m7) & 0x01 != 0) == (m7 != 0),
{
}

/// Bit `b` of the byte gathered at `at` is the bit of `block` at the
/// position `table[at + b]`.
pub proof fn lemma_gathered_bit(block: Seq<u8>, table: Seq<u8>, at: int, b: int)
    requires
        0 <= b < 8,
    ensures
        (gathered(block, table, at) & MASK[b] != 0) == bit(block, table[at + b] - 1),
{
    lemma_or_of_masks(
        selected(block, table[at], 0x80),
        selected(block, table[at + 1], 0x40),
        selected(block, table[at + 2], 0x20),
        selected(block, table[at + 3], 0x10),
        selected(block, table[at + 4], 0x08),
        selected(block, table[at + 5], 0x04),
        selected(block, table[at + 6], 0x02),
        selected(block, table[at + 7], 0x01),
    );
}

/// A permutation moves bits and nothing else: bit `i` of the permuted block
/// is bit `table[i] - 1` of the block, for each of the 64 bits.
pub proof fn lemma_permuted_bit(block: Seq<u8>, table: Seq<u8>, i: int)
    requires
        0 <= i < 64,
    ensures
        bit(permuted(block, table), i) == bit(block, table[i] - 1),
{
    lemma_gathered_bit(block, table, 8 * (i / 8), i % 8);
}

/// The transposition fills the high four bytes only: bit `32 + i` of the
/// result is bit `TRANSPOSITION_TABLE[i] - 1` of the block, for each of the
/// 32 bits, and the low four bytes are zero.
pub proof fn lemma_transposed_bit(block: Seq<u8>, i: int)
    requires
        0 <= i < 32,
    ensures
        bit(transposed(block), 32 + i) == bit(block, TRANSPOSITION_TABLE@[i] - 1),
        forall|k: int| 0 <= k < 4 ==> transposed(block)[k] == 0,
{
    lemma_gathered_bit(block, TRANSPOSITION_TABLE@, 8 * (i / 8), i % 8);
}

/// The round leaves the block's former right half in its low four bytes.
pub proof fn lemma_round_keeps_right_half(block: Seq<u8>, k: int)
    requires
        0 <= k < 4,
    ensures
        round_of(block)[k] == block[k + 4],
{
    let x = block[k + 4];
    assert(0u8 ^ x == x) by (bit_vector);
}

/// The header-only pass keeps the length of the buffer, its first block and
/// every block from index 20 on.
pub proof fn lemma_header_pass_keeps_tail(buf: Seq<u8>, aligned_size: int)
    ensures
        decoded_header(buf, aligned_size).len() == buf.len(),
        forall|i: int|
            0 <= i < buf.len() && (i < BLOCK_SIZE || i >= BLOCK_SIZE * HEAD_BLOCKS)
                ==> decoded_header(buf, aligned_size)[i] == buf[i],
{
}

/// The full pass keeps the length of the buffer and its first block.
pub proof fn lemma_full_pass_keeps_first_block(buf: Seq<u8>, aligned_size: int, packed_size: int)
    ensures
        decoded_entry(buf, aligned_size, packed_size).len() == buf.len(),
        forall|i: int|
            0 <= i < BLOCK_SIZE && i < buf.len() ==> decoded_entry(
                buf,
                aligned_size,
                packed_size,
            )[i] == buf[i],
{
    let head = decoded_header(buf, aligned_size);
    lemma_tail_keeps_first_block(head, block_count(buf.len(), aligned_size), cycle_of(packed_size));
    assert forall|i: int| 0 <= i < BLOCK_SIZE && i < buf.len() implies decoded_entry(
        buf,
        aligned_size,
        packed_size,
    )[i] == buf[i] by {
        assert(head[i] == buf[i]);
    }
}

proof fn lemma_tail_keeps_first_block(buf: Seq<u8>, n: int, cycle: int)
    ensures
        tail_decoded(buf, n, cycle).len() == buf.len(),
        forall|i: int|
            0 <= i < BLOCK_SIZE && i < buf.len() ==> tail_decoded(buf, n, cycle)[i] == buf[i],
    decreases n,
{
    if n > HEAD_BLOCKS {
        lemma_tail_keeps_first_block(buf, n - 1, cycle);
    }
}

} // verus!
