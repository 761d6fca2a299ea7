//! Zobrist hashing keys and the hash of a position.
//!
//! Every feature of a position has a fixed 64-bit key: one per (colour,
//! piece type, square), one per castling-rights value, one per en passant
//! file and one for "black to move". The hash of a position is the XOR of
//! the keys of its features. Keys are produced by the SplitMix64 mixer from
//! the feature's index, so they are fixed for every run.
use vstd::prelude::*;
use crate::bitboard::in_bb;

verus! {

/// Index of the (colour, piece, square) key.
pub open spec fn piece_key_index(c: int, p: int, sq: int) -> int {
    (c * 6 + p) * 64 + sq
}

pub open spec fn castling_key_index(cr: int) -> int {
    768 + cr
}

pub open spec fn ep_key_index(file: int) -> int {
    784 + file
}

pub open spec fn side_key_index() -> int {
    792
}

/// SplitMix64 applied to `i + 1`.
pub open spec fn key_of(i: u64) -> u64 {
    let z0 = (i.wrapping_add(1)).wrapping_mul(0x9E37_79B9_7F4A_7C15u64);
    let z1 = (z0 ^ (z0 >> 30u64)).wrapping_mul(0xBF58_476D_1CE4_E5B9u64);
    let z2 = (z1 ^ (z1 >> 27u64)).wrapping_mul(0x94D0_49BB_1331_11EBu64);
    z2 ^ (z2 >> 31u64)
}

/// The key of the feature with the given index.
pub fn key(i: u64) -> (k: u64)
    ensures
        k == key_of(i),
{
    let z0 = (i.wrapping_add(1)).wrapping_mul(0x9E37_79B9_7F4A_7C15u64);
    let z1 = (z0 ^ (z0 >> 30u64)).wrapping_mul(0xBF58_476D_1CE4_E5B9u64);
    let z2 = (z1 ^ (z1 >> 27u64)).wrapping_mul(0x94D0_49BB_1331_11EBu64);
    z2 ^ (z2 >> 31u64)
}

/// Key of a piece of colour index `c` and type index `p` on `sq`.
pub fn piece_square_key(c: usize, p: usize, sq: u8) -> (k: u64)
    requires
        c < 2,
        p < 6,
        sq < 64,
    ensures
        k == key_of(piece_key_index(c as int, p as int, sq as int) as u64),
{
    key(((c * 6 + p) * 64 + sq as usize) as u64)
}

/// Key of a castling-rights value.
pub fn castling_key(cr: u8) -> (k: u64)
    requires
        cr < 16,
    ensures
        k == key_of(castling_key_index(cr as int) as u64),
{
    key(768 + cr as u64)
}

/// Key of an en passant file.
pub fn en_passant_key(file: u8) -> (k: u64)
    requires
        file < 8,
    ensures
        k == key_of(ep_key_index(file as int) as u64),
{
    key(784 + file as u64)
}

/// Key toggled when the side to move changes.
pub fn side_key() -> (k: u64)
    ensures
        k == key_of(side_key_index() as u64),
{
    key(792)
}

/// Colour index, piece index and square of piece-square feature `i`.
pub open spec fn feat_c(i: int) -> int {
    i / 384
}

pub open spec fn feat_p(i: int) -> int {
    (i % 384) / 64
}

pub open spec fn feat_sq(i: int) -> int {
    i % 64
}

/// XOR of the keys of the piece-square features among the first `n` that
/// are present in `pieces`.
pub open spec fn piece_hash_upto(pieces: [[u64; 6]; 2], n: nat) -> u64
    decreases n,
{
    if n == 0 {
        0
    } else {
        let i = n - 1;
        piece_hash_upto(pieces, (n - 1) as nat) ^ if in_bb(
            pieces[feat_c(i)][feat_p(i)],
            feat_sq(i),
        ) {
            key_of(i as u64)
        } else {
            0u64
        }
    }
}

/// XOR of the keys of all pieces on their squares.
pub open spec fn piece_hash(pieces: [[u64; 6]; 2]) -> u64 {
    piece_hash_upto(pieces, 768)
}

pub proof fn lemma_xor_facts(a: u64, b: u64, c: u64)
    ensures
        (a ^ b) ^ c == (a ^ c) ^ b,
        (a ^ b) ^ b == a,
        a ^ 0 == a,
        (a ^ b) ^ c == a ^ (b ^ c),
        a ^ b == b ^ a,
{
    assert((a ^ b) ^ c == (a ^ c) ^ b) by (bit_vector);
    assert((a ^ b) ^ b == a) by (bit_vector);
    assert(a ^ 0 == a) by (bit_vector);
    assert((a ^ b) ^ c == a ^ (b ^ c)) by (bit_vector);
    assert(a ^ b == b ^ a) by (bit_vector);
}

pub proof fn lemma_feat_range(i: int)
    requires
        0 <= i < 768,
    ensures
        0 <= feat_c(i) < 2,
        0 <= feat_p(i) < 6,
        0 <= feat_sq(i) < 64,
        piece_key_index(feat_c(i), feat_p(i), feat_sq(i)) == i,
{
}

/// Toggling a single piece-square feature toggles its key in the hash.
pub proof fn lemma_piece_hash_toggle(a: [[u64; 6]; 2], b: [[u64; 6]; 2], j: int, n: nat)
    requires
        0 <= j < 768,
        n <= 768,
        forall|i: int|
            0 <= i < 768 && i != j ==> (in_bb(a[feat_c(i)][feat_p(i)], feat_sq(i)) == in_bb(
                b[feat_c(i)][feat_p(i)],
                feat_sq(i),
            )),
        in_bb(a[feat_c(j)][feat_p(j)], feat_sq(j)) != in_bb(b[feat_c(j)][feat_p(j)], feat_sq(j)),
    ensures
        piece_hash_upto(b, n) == if j < n {
            piece_hash_upto(a, n) ^ key_of(j as u64)
        } else {
            piece_hash_upto(a, n)
        },
    decreases n,
{
    if n > 0 {
        let i = n - 1;
        lemma_piece_hash_toggle(a, b, j, (n - 1) as nat);
        lemma_feat_range(i);
        let ha = piece_hash_upto(a, (n - 1) as nat);
        let k = key_of(j as u64);
        let ta = if in_bb(a[feat_c(i)][feat_p(i)], feat_sq(i)) {
            key_of(i as u64)
        } else {
            0u64
        };
        lemma_xor_facts(ha, k, ta);
        lemma_xor_facts(ha, ta, k);
        lemma_xor_facts(ha, 0, k);
        lemma_xor_facts(ha ^ k, k, 0);
        lemma_xor_facts(ha, k, 0);
    }
}

/// Features outside `pieces` leave the hash unchanged.
pub proof fn lemma_piece_hash_skip(a: [[u64; 6]; 2], m: nat, n: nat)
    requires
        m <= n <= 768,
        forall|i: int| m <= i < n ==> !#[trigger] in_bb(a[feat_c(i)][feat_p(i)], feat_sq(i)),
    ensures
        piece_hash_upto(a, n) == piece_hash_upto(a, m),
    decreases n,
{
    if n > m {
        lemma_piece_hash_skip(a, m, (n - 1) as nat);
        let h = piece_hash_upto(a, (n - 1) as nat);
        lemma_xor_facts(h, 0, 0);
    }
}

} // verus!
