//! The transform itself: framing, the rounds on every block, and the final
//! exchange of the halves.
use crate::framing::{
    block_at,
    lemma_block_position,
    lemma_halves_form_block,
    lemma_next_block_fits,
    lemma_padded_len_unique,
    pad_block,
    pad_to,
    padded_len,
    zero_pad,
};
use crate::round::{apply_rounds, lemma_run_rounds_len, round_order, run_rounds};
use crate::{FeistelError, FeistelMode};
use vstd::arithmetic::div_mod::lemma_mod_multiples_basic;
use vstd::prelude::*;
use vstd::slice::slice_to_vec;

verus! {

/// What the transform makes of one block of `2 * key.len()` bytes: the rounds
/// run on its two halves, the halves change places once more, and the left
/// half is written before the right one.
pub open spec fn transform_block(
    block: Seq<u8>,
    key: Seq<u8>,
    rounds: u32,
    mode: FeistelMode,
) -> Seq<u8> {
    let k: int = key.len() as int;
    let after = run_rounds(block.take(k), block.skip(k), key, round_order(rounds, mode));
    after.1 + after.0
}

/// What the transform makes of `data`: the zero-padded input with every
/// block replaced by its `transform_block`.
pub open spec fn transform(data: Seq<u8>, key: Seq<u8>, rounds: u32, mode: FeistelMode) -> Seq<
    u8,
> {
    let b: nat = 2 * key.len();
    let padded = zero_pad(data, b);
    Seq::new(
        padded.len(),
        |i: int|
            {
                let block = block_at(padded, b, i / (b as int));
                transform_block(block, key, rounds, mode)[i % (b as int)]
            },
    )
}

/// A transformed block is as long as the block.
pub proof fn lemma_transform_block_len(
    block: Seq<u8>,
    key: Seq<u8>,
    rounds: u32,
    mode: FeistelMode,
)
    requires
        block.len() == 2 * key.len(),
    ensures
        transform_block(block, key, rounds, mode).len() == block.len(),
{
    let k: int = key.len() as int;
    lemma_run_rounds_len(block.take(k), block.skip(k), key, round_order(rounds, mode));
}

/// Block `j` of the output is the transform of block `j` of the padded input.
pub proof fn lemma_transform_block_at(
    data: Seq<u8>,
    key: Seq<u8>,
    rounds: u32,
    mode: FeistelMode,
    j: int,
)
    requires
        key.len() > 0,
        0 <= j,
        j * (2 * key.len()) + 2 * key.len() <= padded_len(data.len(), 2 * key.len()),
    ensures
        block_at(transform(data, key, rounds, mode), 2 * key.len(), j) == transform_block(
            block_at(zero_pad(data, 2 * key.len()), 2 * key.len(), j),
            key,
            rounds,
            mode,
        ),
{
    let b: nat = 2 * key.len();
    let padded = zero_pad(data, b);
    let out = transform(data, key, rounds, mode);
    let expected = transform_block(block_at(padded, b, j), key, rounds, mode);
    lemma_transform_block_len(block_at(padded, b, j), key, rounds, mode);
    assert forall|t: int| 0 <= t < b implies #[trigger] block_at(out, b, j)[t] == expected[t] by {
        lemma_block_position(b, j, t);
    }
}

/// Copies `data[from..to]` and fills the copy up with zero bytes to `k` bytes.
fn load_half(data: &[u8], from: usize, to: usize, k: usize) -> (half: Vec<u8>)
    requires
        from <= to <= data@.len(),
    ensures
        half@ == pad_to(data@.subrange(from as int, to as int), k as nat),
{
    let mut half: Vec<u8> = slice_to_vec(&data[from..to]);
    pad_block(&mut half, k);
    half
}

/// Transforms `data` under `key` with `rounds` rounds, in the direction that
/// `mode` gives.
///
/// The key's length `k` fixes the block size `2 * k`. The input is cut into
/// blocks, the last one filled up with zero bytes; every block is split into
/// two halves, the rounds run on them, the halves change places once more and
/// are written out. That last exchange takes place whatever the number of
/// rounds, also when there are none. An empty key is rejected with
/// `InvalidKey`; nothing else is. The output is a whole number of blocks: the
/// fewest that hold the input.
pub fn feistel(data: &[u8], key: &[u8], rounds: u32, mode: FeistelMode) -> (res: Result<
    Vec<u8>,
    FeistelError,
>)
    ensures
        key@.len() == 0 ==> res == Err::<Vec<u8>, FeistelError>(FeistelError::InvalidKey),
        key@.len() > 0 ==> res is Ok && res->Ok_0@ == transform(data@, key@, rounds, mode),
        res matches Ok(out) ==> out@.len() % (2 * key@.len()) == 0 && data@.len() <= out@.len()
            < data@.len() + 2 * key@.len(),
{
    let k: usize = key.len();
    if k == 0 {
        return Err(FeistelError::InvalidKey);
    }
    let n: usize = data.len();
    let ghost b: nat = 2 * key@.len();
    let ghost full = transform(data@, key@, rounds, mode);
    let mut result: Vec<u8> = Vec::new();
    let mut pos: usize = 0;
    let ghost mut j: nat = 0;
    while pos < n
        invariant
            k == key@.len(),
            k > 0,
            n == data@.len(),
            b == 2 * k,
            full == transform(data@, key@, rounds, mode),
            full.len() == padded_len(n as nat, b),
            pos <= n,
            pos == if j * b <= n {
                j * b
            } else {
                n as nat
            },
            j * b < n + b,
            j * b <= full.len(),
            result@ == full.take((j * b) as int),
        decreases n - pos,
    {
        // Each half is read on its own: no position beyond the end of the
        // input is computed, and so none that might not fit a `usize`.
        let l_end: usize = if n - pos >= k {
            pos + k
        } else {
            n
        };
        let r_end: usize = if n - l_end >= k {
            l_end + k
        } else {
            n
        };
        let mut l: Vec<u8> = load_half(data, pos, l_end, k);
        let mut r: Vec<u8> = load_half(data, l_end, r_end, k);
        let ghost block = block_at(zero_pad(data@, b), b, j as int);
        proof {
            lemma_next_block_fits(n as nat, b, j);
            lemma_halves_form_block(data@, k as nat, j, l_end as int, r_end as int);
            assert(block.take(k as int) == l@);
            assert(block.skip(k as int) == r@);
            lemma_transform_block_at(data@, key@, rounds, mode, j as int);
        }
        apply_rounds(&mut l, &mut r, key, rounds, mode);
        core::mem::swap(&mut l, &mut r);
        result.append(&mut l);
        result.append(&mut r);
        pos = r_end;
        proof {
            assert((j + 1) * b == j * b + b) by (nonlinear_arith);
            assert(result@ == full.take((j * b) as int) + block_at(full, b, j as int));
            j = j + 1;
        }
    }
    proof {
        lemma_mod_multiples_basic(j as int, b as int);
        lemma_padded_len_unique(n as nat, b, j * b);
    }
    Ok(result)
}

} // verus!
