//! The round function, the round-key derivation and the round schedule.
use crate::FeistelMode;
use vstd::prelude::*;

verus! {

/// One byte of the round function: add one modulo 256, then mix in the key byte.
pub open spec fn mix_byte(b: u8, k: u8) -> u8 {
    (((b + 1) % 256) as u8) ^ k
}

/// The round function on byte strings, defined on their common prefix.
pub open spec fn round_fn(half: Seq<u8>, rk: Seq<u8>) -> Seq<u8> {
    Seq::new(
        if half.len() <= rk.len() { half.len() } else { rk.len() },
        |i: int| mix_byte(half[i], rk[i]),
    )
}

/// The key used in round `idx`: the whole key, whatever the index.
pub open spec fn round_key_of(key: Seq<u8>, idx: u32) -> Seq<u8> {
    key
}

/// Computes the round function: byte `i` of the result is
/// `(data[i] + 1) mod 256` xor `round_key[i]`, for every index both inputs have.
pub fn f(data: &[u8], round_key: &[u8]) -> (out: Vec<u8>)
    ensures
        out@ == round_fn(data@, round_key@),
{
    let n: usize = if data.len() <= round_key.len() { data.len() } else { round_key.len() };
    let mut out: Vec<u8> = Vec::with_capacity(n);
    let mut i: usize = 0;
    while i < n
        invariant
            i <= n,
            n <= data@.len(),
            n <= round_key@.len(),
            out@ == round_fn(data@, round_key@).take(i as int),
        decreases n - i,
    {
        out.push(data[i].wrapping_add(1) ^ round_key[i]);
        i += 1;
    }
    out
}

/// Derives the key of round `round_idx`. Every round uses the key unchanged.
pub fn round_key(key: &[u8], round_idx: u32) -> (rk: &[u8])
    ensures
        rk@ == round_key_of(key@, round_idx),
{
    key
}

/// Byte-wise xor of `a` with `b`, over the indices `b` has; the rest of `a`
/// is kept.
pub open spec fn xor_bytes(a: Seq<u8>, b: Seq<u8>) -> Seq<u8> {
    Seq::new(
        a.len(),
        |i: int|
            if i < b.len() {
                a[i] ^ b[i]
            } else {
                a[i]
            },
    )
}

/// One round on the halves `(l, r)`: the left half takes up the round
/// function of the right half, then the halves change places.
pub open spec fn round_step(l: Seq<u8>, r: Seq<u8>, key: Seq<u8>, idx: u32) -> (Seq<u8>, Seq<u8>) {
    (r, xor_bytes(l, round_fn(r, round_key_of(key, idx))))
}

/// The halves after one round for each index of `order`, first to last.
pub open spec fn run_rounds(l: Seq<u8>, r: Seq<u8>, key: Seq<u8>, order: Seq<u32>) -> (
    Seq<u8>,
    Seq<u8>,
)
    decreases order.len(),
{
    if order.len() == 0 {
        (l, r)
    } else {
        let before = run_rounds(l, r, key, order.drop_last());
        round_step(before.0, before.1, key, order.last())
    }
}

/// The order in which the round indices `0 .. rounds` are visited: ascending
/// to encrypt, descending to decrypt.
pub open spec fn round_order(rounds: u32, mode: FeistelMode) -> Seq<u32> {
    match mode {
        FeistelMode::Encrypt => Seq::new(rounds as nat, |i: int| i as u32),
        FeistelMode::Decrypt => Seq::new(rounds as nat, |i: int| (rounds - 1 - i) as u32),
    }
}

/// The rounds keep the length of halves that are as long as the key.
pub proof fn lemma_run_rounds_len(l: Seq<u8>, r: Seq<u8>, key: Seq<u8>, order: Seq<u32>)
    requires
        l.len() == key.len(),
        r.len() == key.len(),
    ensures
        run_rounds(l, r, key, order).0.len() == key.len(),
        run_rounds(l, r, key, order).1.len() == key.len(),
    decreases order.len(),
{
    if order.len() > 0 {
        lemma_run_rounds_len(l, r, key, order.drop_last());
    }
}

/// Xors `other` into `target`, byte by byte, over the indices both have.
pub fn xor_into(target: &mut Vec<u8>, other: &[u8])
    ensures
        final(target)@ == xor_bytes(old(target)@, other@),
{
    let ghost before = target@;
    let n: usize = if target.len() <= other.len() { target.len() } else { other.len() };
    let mut i: usize = 0;
    while i < n
        invariant
            i <= n,
            n <= other@.len(),
            n <= before.len(),
            n == before.len() || n == other@.len(),
            target@.len() == before.len(),
            forall|j: int| 0 <= j < i ==> target@[j] == before[j] ^ other@[j],
            forall|j: int| i <= j < before.len() ==> target@[j] == before[j],
        decreases n - i,
    {
        let mixed: u8 = target[i] ^ other[i];
        target[i] = mixed;
        i += 1;
    }
}

/// Runs `rounds` rounds on the halves `l` and `r`, visiting the round indices
/// in the order that `mode` selects.
pub fn apply_rounds(
    l: &mut Vec<u8>,
    r: &mut Vec<u8>,
    key: &[u8],
    rounds: u32,
    mode: FeistelMode,
)
    ensures
        (final(l)@, final(r)@) == run_rounds(old(l)@, old(r)@, key@, round_order(rounds, mode)),
{
    let ghost l0 = l@;
    let ghost r0 = r@;
    let ghost order = round_order(rounds, mode);
    let mut step: u32 = 0;
    while step < rounds
        invariant
            step <= rounds,
            order == round_order(rounds, mode),
            (l@, r@) == run_rounds(l0, r0, key@, order.take(step as int)),
        decreases rounds - step,
    {
        let round_idx: u32 = match mode {
            FeistelMode::Encrypt => step,
            FeistelMode::Decrypt => rounds - 1 - step,
        };
        let r_dash = f(r.as_slice(), round_key(key, round_idx));
        xor_into(l, r_dash.as_slice());
        core::mem::swap(l, r);
        proof {
            let done = order.take(step + 1);
            assert(done.drop_last() == order.take(step as int));
        }
        step += 1;
    }
    assert(order.take(rounds as int) == order);
}

} // verus!
