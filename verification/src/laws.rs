//! What holds of the transform as a whole.
use crate::cipher::{lemma_transform_block_at, transform, transform_block};
use crate::framing::{
    block_at,
    block_count,
    is_whole_blocks,
    lemma_block_position,
    lemma_padded_len_bounds,
    lemma_padded_len_counts_blocks,
    lemma_padded_len_least,
    lemma_position_in_block,
    padded_len,
    zero_pad,
};
use crate::inverse::lemma_block_round_trip;
use crate::round::{round_fn, round_order, run_rounds, xor_bytes};
use crate::{FeistelError, FeistelMode};
use vstd::prelude::*;

verus! {

/// Transforming in one direction and then in the other, with the same key and
/// the same number of rounds, gives the zero-padded input.
pub proof fn lemma_opposite_direction_inverts(
    data: Seq<u8>,
    key: Seq<u8>,
    rounds: u32,
    mode: FeistelMode,
)
    requires
        key.len() > 0,
    ensures
        transform(transform(data, key, rounds, mode), key, rounds, mode.opposite()) == zero_pad(
            data,
            2 * key.len(),
        ),
{
    let b: nat = 2 * key.len();
    let padded = zero_pad(data, b);
    let there = transform(data, key, rounds, mode);
    let back = transform(there, key, rounds, mode.opposite());
    let count: nat = block_count(data.len(), b);
    lemma_padded_len_bounds(data.len(), b);
    lemma_padded_len_counts_blocks(data.len(), b);
    assert forall|i: int| 0 <= i < back.len() implies #[trigger] back[i] == padded[i] by {
        lemma_position_in_block(b, count, i);
        let j: int = i / (b as int);
        lemma_transform_block_at(data, key, rounds, mode, j);
        lemma_block_round_trip(block_at(padded, b, j), key, rounds, mode);
    }
}

/// Decrypting an encrypted input with the same key and the same number of
/// rounds gives the input back, followed by the zero bytes that filled its
/// last block.
pub proof fn lemma_round_trip(data: Seq<u8>, key: Seq<u8>, rounds: u32)
    requires
        key.len() > 0,
    ensures
        transform(
            transform(data, key, rounds, FeistelMode::Encrypt),
            key,
            rounds,
            FeistelMode::Decrypt,
        ) == zero_pad(data, 2 * key.len()),
        transform(
            transform(data, key, rounds, FeistelMode::Encrypt),
            key,
            rounds,
            FeistelMode::Decrypt,
        ).take(data.len() as int) == data,
{
    lemma_opposite_direction_inverts(data, key, rounds, FeistelMode::Encrypt);
}

/// The output is a whole number of blocks, one for every block that the
/// input is cut into, and no whole number of blocks that holds the input is
/// shorter.
pub proof fn lemma_output_is_block_aligned(
    data: Seq<u8>,
    key: Seq<u8>,
    rounds: u32,
    mode: FeistelMode,
)
    requires
        key.len() > 0,
    ensures
        is_whole_blocks(transform(data, key, rounds, mode).len(), 2 * key.len()),
        transform(data, key, rounds, mode).len() == block_count(data.len(), 2 * key.len()) * (2
            * key.len()),
        transform(data, key, rounds, mode).len() >= data.len(),
        forall|m: nat|
            #[trigger] is_whole_blocks(m, 2 * key.len()) && m >= data.len() ==> transform(
                data,
                key,
                rounds,
                mode,
            ).len() <= m,
{
    let b: nat = 2 * key.len();
    lemma_padded_len_bounds(data.len(), b);
    lemma_padded_len_counts_blocks(data.len(), b);
    assert forall|m: nat| #[trigger] is_whole_blocks(m, b) && m >= data.len() implies padded_len(
        data.len(),
        b,
    ) <= m by {
        lemma_padded_len_least(data.len(), b, m);
    }
}

/// An empty input gives an empty output.
pub proof fn lemma_empty_input(data: Seq<u8>, key: Seq<u8>, rounds: u32, mode: FeistelMode)
    requires
        data.len() == 0,
    ensures
        transform(data, key, rounds, mode).len() == 0,
{
}

/// The position whose byte an exchange of the two halves of every block
/// moves to position `i`, for halves of `k` bytes.
pub open spec fn mate(i: int, k: nat) -> int {
    if i % ((2 * k) as int) < k {
        i + k
    } else {
        i - k
    }
}

/// Whether, in a buffer of whole blocks with halves of `k` bytes, the two
/// halves of every block are equal.
pub open spec fn has_equal_halves(padded: Seq<u8>, k: nat) -> bool {
    forall|i: int| 0 <= i < padded.len() ==> #[trigger] padded[i] == padded[mate(i, k)]
}

/// With no rounds at all, the output is the zero-padded input with the two
/// halves of every block exchanged.
pub proof fn lemma_zero_rounds_exchange_halves(data: Seq<u8>, key: Seq<u8>, mode: FeistelMode)
    requires
        key.len() > 0,
    ensures
        transform(data, key, 0, mode).len() == zero_pad(data, 2 * key.len()).len(),
        forall|i: int|
            0 <= i < zero_pad(data, 2 * key.len()).len() ==> 0 <= #[trigger] mate(i, key.len())
                < zero_pad(data, 2 * key.len()).len(),
        forall|i: int|
            0 <= i < zero_pad(data, 2 * key.len()).len() ==> #[trigger] transform(
                data,
                key,
                0,
                mode,
            )[i] == zero_pad(data, 2 * key.len())[mate(i, key.len())],
{
    let k: nat = key.len();
    let b: nat = 2 * k;
    let padded = zero_pad(data, b);
    let out = transform(data, key, 0, mode);
    let count: nat = block_count(data.len(), b);
    lemma_padded_len_counts_blocks(data.len(), b);
    assert forall|i: int| 0 <= i < padded.len() implies 0 <= #[trigger] mate(i, k)
        < padded.len() by {
        lemma_position_in_block(b, count, i);
    }
    assert forall|i: int| 0 <= i < padded.len() implies #[trigger] out[i] == padded[mate(
        i,
        k,
    )] by {
        lemma_position_in_block(b, count, i);
        let block = block_at(padded, b, i / (b as int));
        assert(transform_block(block, key, 0, mode) == block.skip(k as int) + block.take(
            k as int,
        ));
    }
}

/// With no rounds at all, the output is the zero-padded input exactly when
/// the two halves of every block of the padded input are equal.
pub proof fn lemma_zero_rounds_identity(data: Seq<u8>, key: Seq<u8>, mode: FeistelMode)
    requires
        key.len() > 0,
    ensures
        transform(data, key, 0, mode) == zero_pad(data, 2 * key.len()) <==> has_equal_halves(
            zero_pad(data, 2 * key.len()),
            key.len(),
        ),
{
    let padded = zero_pad(data, 2 * key.len());
    let out = transform(data, key, 0, mode);
    lemma_zero_rounds_exchange_halves(data, key, mode);
    if has_equal_halves(padded, key.len()) {
        assert(out =~= padded);
    }
}

/// A call has one result: two results that are as `feistel` promises, for
/// the same arguments, are both a failure of the same kind or both an output
/// of the same bytes.
pub proof fn lemma_result_is_determined(
    data: Seq<u8>,
    key: Seq<u8>,
    rounds: u32,
    mode: FeistelMode,
    first: Result<Vec<u8>, FeistelError>,
    second: Result<Vec<u8>, FeistelError>,
)
    requires
        key.len() == 0 ==> first == Err::<Vec<u8>, FeistelError>(FeistelError::InvalidKey),
        key.len() > 0 ==> first is Ok && first->Ok_0@ == transform(data, key, rounds, mode),
        key.len() == 0 ==> second == Err::<Vec<u8>, FeistelError>(FeistelError::InvalidKey),
        key.len() > 0 ==> second is Ok && second->Ok_0@ == transform(data, key, rounds, mode),
    ensures
        first is Ok <==> second is Ok,
        first is Ok ==> first->Ok_0@ == second->Ok_0@,
        first is Err ==> first->Err_0 == second->Err_0,
{
}

/// One round leaves the right half of a block as it is and xors the round
/// function of the right half into the left half.
pub proof fn lemma_one_round_block(block: Seq<u8>, key: Seq<u8>, mode: FeistelMode)
    ensures
        transform_block(block, key, 1, mode) == xor_bytes(
            block.take(key.len() as int),
            round_fn(block.skip(key.len() as int), key),
        ) + block.skip(key.len() as int),
{
    let k: int = key.len() as int;
    let order = round_order(1, mode);
    assert(run_rounds(block.take(k), block.skip(k), key, order.drop_last()) == (
        block.take(k),
        block.skip(k),
    ));
}

/// One round changes a block unless every key byte is the byte of the right
/// half at its place plus one, modulo 256.
pub proof fn lemma_one_round_changes_block(block: Seq<u8>, key: Seq<u8>, mode: FeistelMode)
    requires
        block.len() == 2 * key.len(),
    ensures
        transform_block(block, key, 1, mode) != block <==> (exists|i: int|
            0 <= i < key.len() && #[trigger] key[i] != (block[key.len() + i] + 1) % 256),
{
    let k: int = key.len() as int;
    let l = block.take(k);
    let r = block.skip(k);
    let out = transform_block(block, key, 1, mode);
    lemma_one_round_block(block, key, mode);
    if exists|i: int| 0 <= i < key.len() && #[trigger] key[i] != (block[key.len() + i] + 1) % 256 {
        let i: int = choose|i: int|
            0 <= i < key.len() && #[trigger] key[i] != (block[key.len() + i] + 1) % 256;
        let x: u8 = l[i];
        let y: u8 = ((r[i] + 1) % 256) as u8;
        let z: u8 = key[i];
        assert(y != z ==> x ^ (y ^ z) != x) by (bit_vector);
        assert(out[i] == x ^ (y ^ z));
        assert(block[i] == x);
    } else {
        assert forall|i: int| 0 <= i < block.len() implies out[i] == block[i] by {
            if i < k {
                let x: u8 = l[i];
                let y: u8 = ((r[i] + 1) % 256) as u8;
                let z: u8 = key[i];
                assert(y == z ==> x ^ (y ^ z) == x) by (bit_vector);
            }
        }
        assert(out =~= block);
    }
}

/// One round changes the zero-padded input unless, in the right half of
/// every block, every byte plus one, modulo 256, is the key byte at its place.
pub proof fn lemma_one_round_changes_output(data: Seq<u8>, key: Seq<u8>, mode: FeistelMode)
    requires
        key.len() > 0,
    ensures
        transform(data, key, 1, mode) != zero_pad(data, 2 * key.len()) <==> (exists|i: int|
            0 <= i < zero_pad(data, 2 * key.len()).len() && i % ((2 * key.len()) as int)
                >= key.len() && (#[trigger] zero_pad(data, 2 * key.len())[i] + 1) % 256
                != key[i % ((2 * key.len()) as int) - key.len()]),
{
    let k: nat = key.len();
    let b: nat = 2 * k;
    let padded = zero_pad(data, b);
    let out = transform(data, key, 1, mode);
    let count: nat = block_count(data.len(), b);
    lemma_padded_len_counts_blocks(data.len(), b);
    if exists|i: int|
        0 <= i < padded.len() && i % (b as int) >= k && (#[trigger] padded[i] + 1) % 256 != key[i
            % (b as int) - k] {
        let i: int = choose|i: int|
            0 <= i < padded.len() && i % (b as int) >= k && (#[trigger] padded[i] + 1) % 256
                != key[i % (b as int) - k];
        lemma_position_in_block(b, count, i);
        let j: int = i / (b as int);
        let t: int = i % (b as int);
        let block = block_at(padded, b, j);
        assert(key[t - k] != (block[t] + 1) % 256);
        lemma_one_round_changes_block(block, key, mode);
        lemma_transform_block_at(data, key, 1, mode, j);
        assert(block_at(out, b, j) != block_at(padded, b, j));
    } else {
        assert forall|i: int| 0 <= i < padded.len() implies out[i] == padded[i] by {
            lemma_position_in_block(b, count, i);
            let j: int = i / (b as int);
            let block = block_at(padded, b, j);
            assert forall|d: int| 0 <= d < k implies #[trigger] key[d] == (block[k + d] + 1)
                % 256 by {
                lemma_block_position(b, j, k + d);
            }
            lemma_one_round_changes_block(block, key, mode);
        }
        assert(out =~= padded);
    }
}

/// The rounds do not look at the round indices: two orders of the same
/// length lead to the same halves.
pub proof fn lemma_round_indices_are_immaterial(
    l: Seq<u8>,
    r: Seq<u8>,
    key: Seq<u8>,
    first: Seq<u32>,
    second: Seq<u32>,
)
    requires
        first.len() == second.len(),
    ensures
        run_rounds(l, r, key, first) == run_rounds(l, r, key, second),
    decreases first.len(),
{
    if first.len() > 0 {
        lemma_round_indices_are_immaterial(l, r, key, first.drop_last(), second.drop_last());
    }
}

/// As every round uses the same key, encrypting and decrypting are the same
/// function.
pub proof fn lemma_directions_coincide(data: Seq<u8>, key: Seq<u8>, rounds: u32)
    ensures
        transform(data, key, rounds, FeistelMode::Encrypt) == transform(
            data,
            key,
            rounds,
            FeistelMode::Decrypt,
        ),
{
    let b: nat = 2 * key.len();
    let k: int = key.len() as int;
    let padded = zero_pad(data, b);
    let enc = transform(data, key, rounds, FeistelMode::Encrypt);
    let dec = transform(data, key, rounds, FeistelMode::Decrypt);
    assert forall|i: int| 0 <= i < padded.len() implies #[trigger] enc[i] == dec[i] by {
        let block = block_at(padded, b, i / (b as int));
        lemma_round_indices_are_immaterial(
            block.take(k),
            block.skip(k),
            key,
            round_order(rounds, FeistelMode::Encrypt),
            round_order(rounds, FeistelMode::Decrypt),
        );
    }
}

} // verus!
