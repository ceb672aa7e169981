//! Block framing: the input is cut into blocks of a fixed size and the last
//! block is filled up with zero bytes.
use vstd::arithmetic::div_mod::{
    lemma_fundamental_div_mod,
    lemma_fundamental_div_mod_converse,
    lemma_mod_multiples_basic,
};
use vstd::prelude::*;

verus! {

/// `n` zero bytes.
pub open spec fn zeros(n: nat) -> Seq<u8> {
    Seq::new(n, |i: int| 0u8)
}

/// `s` followed by as many zero bytes as it takes to reach length `n`;
/// `s` itself when it is already that long.
pub open spec fn pad_to(s: Seq<u8>, n: nat) -> Seq<u8> {
    if s.len() >= n {
        s
    } else {
        s + zeros((n - s.len()) as nat)
    }
}

/// The smallest multiple of the block size `b` that is at least `n`.
pub open spec fn padded_len(n: nat, b: nat) -> nat {
    if b == 0 || n % b == 0 {
        n
    } else {
        (n + b - n % b) as nat
    }
}

/// Whether `len` bytes are a whole number of blocks of size `b`.
pub open spec fn is_whole_blocks(len: nat, b: nat) -> bool {
    len % b == 0
}

/// The number of blocks of size `b` that `n` bytes are cut into: `n / b`,
/// rounded up.
pub open spec fn block_count(n: nat, b: nat) -> nat {
    ((n + b - 1) / (b as int)) as nat
}

/// The input extended by zero bytes to a whole number of blocks of size `b`.
pub open spec fn zero_pad(data: Seq<u8>, b: nat) -> Seq<u8> {
    pad_to(data, padded_len(data.len(), b))
}

/// Block number `j` (from zero) of a buffer made of blocks of size `b`.
pub open spec fn block_at(padded: Seq<u8>, b: nat, j: int) -> Seq<u8> {
    padded.subrange(j * b, j * b + b)
}

/// Extends `block` with zero bytes up to `to_len` bytes. A block that is
/// already that long, or longer, is left as it is.
pub fn pad_block(block: &mut Vec<u8>, to_len: usize)
    ensures
        final(block)@ == pad_to(old(block)@, to_len as nat),
{
    let ghost before = block@;
    while block.len() < to_len
        invariant
            before.len() <= block@.len(),
            block@.len() <= to_len || block@.len() == before.len(),
            block@ == before + zeros((block@.len() - before.len()) as nat),
        decreases to_len - block.len(),
    {
        block.push(0u8);
    }
}

/// `padded_len(n, b)` is a multiple of `b`, is at least `n`, and exceeds `n`
/// by less than one block.
pub proof fn lemma_padded_len_bounds(n: nat, b: nat)
    requires
        b > 0,
    ensures
        padded_len(n, b) % b == 0,
        n <= padded_len(n, b) < n + b,
{
    let bi: int = b as int;
    let q: int = n as int / bi;
    let r: int = n as int % bi;
    lemma_fundamental_div_mod(n as int, bi);
    if r != 0 {
        assert(padded_len(n, b) == (q + 1) * bi) by (nonlinear_arith)
            requires
                padded_len(n, b) == n + bi - r,
                n == bi * q + r,
        ;
        lemma_mod_multiples_basic(q + 1, bi);
    }
}

/// The only multiple of `b` in the range `n .. n + b` is `padded_len(n, b)`.
pub proof fn lemma_padded_len_unique(n: nat, b: nat, m: nat)
    requires
        b > 0,
        m % b == 0,
        n <= m < n + b,
    ensures
        m == padded_len(n, b),
{
    lemma_padded_len_bounds(n, b);
    let bi: int = b as int;
    let p: int = padded_len(n, b) as int;
    lemma_fundamental_div_mod(m as int, bi);
    lemma_fundamental_div_mod(p, bi);
    let qm: int = m as int / bi;
    let qp: int = p / bi;
    assert(qm == qp) by (nonlinear_arith)
        requires
            bi > 0,
            m == bi * qm,
            p == bi * qp,
            -bi < m - p < bi,
    ;
}

/// No multiple of `b` that is at least `n` is smaller than `padded_len(n, b)`.
pub proof fn lemma_padded_len_least(n: nat, b: nat, m: nat)
    requires
        b > 0,
        m % b == 0,
        n <= m,
    ensures
        padded_len(n, b) <= m,
{
    lemma_padded_len_bounds(n, b);
    let bi: int = b as int;
    let p: int = padded_len(n, b) as int;
    lemma_fundamental_div_mod(m as int, bi);
    lemma_fundamental_div_mod(p, bi);
    let qm: int = m as int / bi;
    let qp: int = p / bi;
    assert(p <= m) by (nonlinear_arith)
        requires
            bi > 0,
            m == bi * qm,
            p == bi * qp,
            p - bi < m,
    ;
}

/// The padded length is `block_count` blocks.
pub proof fn lemma_padded_len_counts_blocks(n: nat, b: nat)
    requires
        b > 0,
    ensures
        padded_len(n, b) == block_count(n, b) * b,
{
    let bi: int = b as int;
    let q: int = n as int / bi;
    let r: int = n as int % bi;
    lemma_fundamental_div_mod(n as int, bi);
    if r == 0 {
        assert(n + bi - 1 == q * bi + (bi - 1)) by (nonlinear_arith)
            requires
                n == bi * q,
        ;
        lemma_fundamental_div_mod_converse(n + bi - 1, bi, q, bi - 1);
        assert(q * bi == n) by (nonlinear_arith)
            requires
                n == bi * q,
        ;
    } else {
        assert(n + bi - 1 == (q + 1) * bi + (r - 1) && (q + 1) * bi == n + bi - r)
            by (nonlinear_arith)
            requires
                n == bi * q + r,
        ;
        lemma_fundamental_div_mod_converse(n + bi - 1, bi, q + 1, r - 1);
    }
}

/// Where block `j` lies in a buffer of whole blocks: position `j * b + t`
/// has quotient `j` and remainder `t`.
pub proof fn lemma_block_position(b: nat, j: int, t: int)
    requires
        b > 0,
        0 <= t < b,
    ensures
        (j * b + t) / (b as int) == j,
        (j * b + t) % (b as int) == t,
{
    lemma_fundamental_div_mod_converse(j * b + t, b as int, j, t);
}

/// Every position below `count` whole blocks lies in one of those blocks.
pub proof fn lemma_position_in_block(b: nat, count: nat, i: int)
    requires
        b > 0,
        0 <= i < count * b,
    ensures
        0 <= i / (b as int) < count,
        0 <= i % (b as int) < b,
        i == (i / (b as int)) * b + i % (b as int),
        (i / (b as int)) * b + b <= count * b,
{
    let bi: int = b as int;
    let q: int = i / bi;
    let r: int = i % bi;
    lemma_fundamental_div_mod(i, bi);
    assert(0 <= q < count && q * bi + bi <= count * bi && i == q * bi + r) by (nonlinear_arith)
        requires
            bi > 0,
            0 <= r < bi,
            i == bi * q + r,
            0 <= i < count * bi,
    ;
}

/// If block `j` starts inside the input, all of it lies inside the padded
/// input.
pub proof fn lemma_next_block_fits(n: nat, b: nat, j: nat)
    requires
        b > 0,
        j * b < n,
    ensures
        j * b + b <= padded_len(n, b),
{
    lemma_padded_len_bounds(n, b);
    let bi: int = b as int;
    let p: int = padded_len(n, b) as int;
    let q: int = p / bi;
    lemma_fundamental_div_mod(p, bi);
    assert(j * bi + bi <= p) by (nonlinear_arith)
        requires
            bi > 0,
            p == bi * q,
            j * bi < p,
    ;
}

/// The two halves that are read from the input at block `j`, each filled up
/// with zero bytes to `k` bytes, make up block `j` of the padded input. The
/// left half ends at `l_end` and the right half at `r_end`: `k` bytes on, or
/// at the end of the input where that comes first.
pub proof fn lemma_halves_form_block(data: Seq<u8>, k: nat, j: nat, l_end: int, r_end: int)
    requires
        k > 0,
        j * (2 * k) < data.len(),
        l_end == if j * (2 * k) + k <= data.len() {
            (j * (2 * k) + k) as int
        } else {
            data.len() as int
        },
        r_end == if l_end + k <= data.len() {
            l_end + k
        } else {
            data.len() as int
        },
    ensures
        pad_to(data.subrange((j * (2 * k)) as int, l_end), k) + pad_to(
            data.subrange(l_end, r_end),
            k,
        ) == block_at(zero_pad(data, 2 * k), 2 * k, j as int),
{
    let b: nat = 2 * k;
    lemma_next_block_fits(data.len(), b, j);
    let left = pad_to(data.subrange((j * b) as int, l_end), k);
    let right = pad_to(data.subrange(l_end, r_end), k);
    let block = block_at(zero_pad(data, b), b, j as int);
    assert(left + right =~= block);
}

} // verus!
