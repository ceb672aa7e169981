//! Why the rounds can be undone: running the same rounds in the opposite
//! order on the exchanged halves leads back to the start.
use crate::cipher::transform_block;
use crate::round::{
    lemma_run_rounds_len,
    round_fn,
    round_key_of,
    round_order,
    round_step,
    run_rounds,
    xor_bytes,
};
use crate::FeistelMode;
use vstd::prelude::*;

verus! {

/// Xoring the same bytes in twice changes nothing.
pub proof fn lemma_xor_twice(a: Seq<u8>, b: Seq<u8>)
    ensures
        xor_bytes(xor_bytes(a, b), b) == a,
{
    assert forall|i: int| 0 <= i < a.len() implies #[trigger] xor_bytes(xor_bytes(a, b), b)[i]
        == a[i] by {
        if i < b.len() {
            let x: u8 = a[i];
            let y: u8 = b[i];
            assert((x ^ y) ^ y == x) by (bit_vector);
        }
    }
}

/// A round on the exchanged result of that round gives the exchanged start.
pub proof fn lemma_round_step_undo(l: Seq<u8>, r: Seq<u8>, key: Seq<u8>, idx: u32)
    ensures
        round_step(round_step(l, r, key, idx).1, round_step(l, r, key, idx).0, key, idx) == (r, l),
{
    lemma_xor_twice(l, round_fn(r, round_key_of(key, idx)));
}

/// The rounds for `seq![first] + rest` are the round `first` followed by the
/// rounds for `rest`.
pub proof fn lemma_run_rounds_front(
    l: Seq<u8>,
    r: Seq<u8>,
    key: Seq<u8>,
    first: u32,
    rest: Seq<u32>,
)
    ensures
        run_rounds(l, r, key, seq![first] + rest) == run_rounds(
            round_step(l, r, key, first).0,
            round_step(l, r, key, first).1,
            key,
            rest,
        ),
    decreases rest.len(),
{
    let order = seq![first] + rest;
    if rest.len() == 0 {
        assert(run_rounds(l, r, key, order.drop_last()) == (l, r));
    } else {
        assert(order.drop_last() =~= seq![first] + rest.drop_last());
        lemma_run_rounds_front(l, r, key, first, rest.drop_last());
    }
}

/// Running the rounds in reverse order on the exchanged result of a run
/// gives the exchanged start.
pub proof fn lemma_run_rounds_reverse(l: Seq<u8>, r: Seq<u8>, key: Seq<u8>, order: Seq<u32>)
    ensures
        run_rounds(
            run_rounds(l, r, key, order).1,
            run_rounds(l, r, key, order).0,
            key,
            order.reverse(),
        ) == (r, l),
    decreases order.len(),
{
    if order.len() > 0 {
        let front = order.drop_last();
        let mid = run_rounds(l, r, key, front);
        let end = round_step(mid.0, mid.1, key, order.last());
        assert(order.reverse() =~= seq![order.last()] + front.reverse());
        lemma_run_rounds_front(end.1, end.0, key, order.last(), front.reverse());
        lemma_round_step_undo(mid.0, mid.1, key, order.last());
        lemma_run_rounds_reverse(l, r, key, front);
    }
}

/// The two directions visit the round indices in opposite orders.
pub proof fn lemma_round_order_opposite(rounds: u32, mode: FeistelMode)
    ensures
        round_order(rounds, mode.opposite()) == round_order(rounds, mode).reverse(),
{
}

/// Transforming a block in one direction and the result in the other gives
/// the block back.
pub proof fn lemma_block_round_trip(block: Seq<u8>, key: Seq<u8>, rounds: u32, mode: FeistelMode)
    requires
        block.len() == 2 * key.len(),
    ensures
        transform_block(transform_block(block, key, rounds, mode), key, rounds, mode.opposite())
            == block,
{
    let k: int = key.len() as int;
    let l = block.take(k);
    let r = block.skip(k);
    let order = round_order(rounds, mode);
    let after = run_rounds(l, r, key, order);
    let out = after.1 + after.0;
    lemma_run_rounds_len(l, r, key, order);
    assert(out.take(k) =~= after.1);
    assert(out.skip(k) =~= after.0);
    lemma_round_order_opposite(rounds, mode);
    lemma_run_rounds_reverse(l, r, key, order);
}

} // verus!
