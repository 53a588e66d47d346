//! Sizes of trees: powers of two, node counts and level positions.

use vstd::prelude::*;
use crate::model::{
    height_from, is_pow2, lemma_pow2_divides, lemma_pow2_half, lemma_tree_len_ge, level_base, log2,
    pow2_of, lemma_pow2_of, tree_len,
};

verus! {

/// The smallest power of two that is at least `n` (for `n >= 1`).
pub open spec fn pow2_ceil(n: nat) -> nat
    decreases n,
{
    if n <= 1 {
        1
    } else {
        2 * pow2_ceil(((n + 1) / 2) as nat)
    }
}

/// `pow2_ceil(n)` is a power of two `p` with `n <= p < 2n`.
pub proof fn lemma_pow2_ceil(n: nat)
    requires
        n >= 1,
    ensures
        is_pow2(pow2_ceil(n)),
        n <= pow2_ceil(n) < 2 * n,
    decreases n,
{
    if n > 1 {
        let m = ((n + 1) / 2) as nat;
        lemma_pow2_ceil(m);
        let q = pow2_ceil(m);
        assert((2 * q) / 2 == q);
        if q >= 2 {
            lemma_pow2_half(q);
        }
    }
}

/// Only one power of two `p` has `n <= p < 2n`.
pub proof fn lemma_pow2_between_unique(n: nat, a: nat, b: nat)
    requires
        is_pow2(a),
        is_pow2(b),
        n <= a < 2 * n,
        n <= b < 2 * n,
    ensures
        a == b,
{
    if a < b {
        lemma_pow2_divides(a, b);
        vstd::arithmetic::div_mod::lemma_fundamental_div_mod(b as int, a as int);
        assert(b >= 2 * a) by (nonlinear_arith)
            requires
                b == a * (b / a) + b % a,
                b % a == 0,
                b > a,
                a >= 1,
        ;
    } else if b < a {
        lemma_pow2_divides(b, a);
        vstd::arithmetic::div_mod::lemma_fundamental_div_mod(a as int, b as int);
        assert(a >= 2 * b) by (nonlinear_arith)
            requires
                a == b * (a / b) + a % b,
                a % b == 0,
                a > b,
                b >= 1,
        ;
    }
}

/// The smallest power of two that is at least `n`.
pub fn next_pow2(n: usize) -> (r: usize)
    requires
        1 <= n <= usize::MAX / 2 + 1,
    ensures
        is_pow2(r as nat),
        n <= r,
        r < 2 * n,
        r == pow2_ceil(n as nat),
{
    let mut p: usize = 1;
    while p < n
        invariant
            1 <= n <= usize::MAX / 2 + 1,
            is_pow2(p as nat),
            1 <= p < 2 * n,
        decreases usize::MAX - p,
    {
        proof {
            assert((2 * p) as nat / 2 == p as nat);
        }
        p = p * 2;
    }
    proof {
        lemma_pow2_ceil(n as nat);
        lemma_pow2_between_unique(n as nat, p as nat, pow2_ceil(n as nat));
    }
    p
}

/// The exponent of the power of two `n`.
pub fn log2_pow2(n: usize) -> (r: usize)
    requires
        is_pow2(n as nat),
    ensures
        r == log2(n as nat),
{
    let mut p: usize = n;
    let mut k: usize = 0;
    while p > 1
        invariant
            is_pow2(p as nat),
            p >= 1,
            k + log2(p as nat) == log2(n as nat),
            k + p <= n,
        decreases p,
    {
        p = p / 2;
        k = k + 1;
    }
    k
}

/// Whether `n` is a power of two.
pub fn is_power_of_two(n: usize) -> (r: bool)
    ensures
        r == is_pow2(n as nat),
{
    if n == 0 {
        return false;
    }
    let mut p: usize = n;
    while p > 1 && p % 2 == 0
        invariant
            p >= 1,
            is_pow2(p as nat) == is_pow2(n as nat),
        decreases p,
    {
        p = p / 2;
    }
    p == 1
}

/// `2^e`, for an `e` that keeps it within `bound`.
pub(crate) fn pow2_upto(e: usize, bound: usize) -> (r: usize)
    requires
        pow2_of(e as nat) <= bound,
    ensures
        r == pow2_of(e as nat),
{
    let mut p: usize = 1;
    let mut k: usize = 0;
    while k < e
        invariant
            k <= e,
            p == pow2_of(k as nat),
            pow2_of(e as nat) <= bound,
        decreases e - k,
    {
        proof {
            lemma_pow2_monotone(k as nat + 1, e as nat);
        }
        p = p * 2;
        k = k + 1;
    }
    p
}

proof fn lemma_pow2_monotone(a: nat, b: nat)
    requires
        a <= b,
    ensures
        pow2_of(a) <= pow2_of(b),
    decreases b,
{
    if a < b {
        lemma_pow2_monotone(a, (b - 1) as nat);
        lemma_pow2_of((b - 1) as nat);
    }
}

/// The number of nodes of a tree over `n` leaves, when that many elements
/// of `width` bytes can be addressed.
pub(crate) fn tree_size(n: usize, width: usize) -> (r: Option<usize>)
    requires
        n >= 1,
        width >= 1,
    ensures
        r is Some ==> r->Some_0 == tree_len(n as nat) && tree_len(n as nat) * width <= usize::MAX,
        r is None ==> tree_len(n as nat) * width > usize::MAX,
{
    let mut acc: usize = 0;
    let mut w: usize = n;
    while w > 1
        invariant
            w >= 1,
            width >= 1,
            acc + tree_len(w as nat) == tree_len(n as nat),
        decreases w,
    {
        if w == usize::MAX {
            proof {
                lemma_tree_len_ge(((w + 1) / 2) as nat);
                assert(tree_len(n as nat) * width >= tree_len(n as nat)) by (nonlinear_arith)
                    requires
                        width >= 1,
                ;
            }
            return None;
        }
        let step = w + w % 2;
        if acc > usize::MAX - step {
            proof {
                lemma_tree_len_ge(w as nat);
                assert(tree_len(n as nat) * width >= tree_len(n as nat)) by (nonlinear_arith)
                    requires
                        width >= 1,
                ;
            }
            return None;
        }
        acc = acc + step;
        w = (w + 1) / 2;
    }
    if acc == usize::MAX {
        proof {
            assert(tree_len(n as nat) * width >= tree_len(n as nat)) by (nonlinear_arith)
                requires
                    width >= 1,
            ;
        }
        return None;
    }
    let total = acc + 1;
    if total > usize::MAX / width {
        proof {
            assert(total * width > usize::MAX) by (nonlinear_arith)
                requires
                    total > usize::MAX / width,
                    width >= 1,
            ;
        }
        return None;
    }
    proof {
        assert(total * width <= usize::MAX) by (nonlinear_arith)
            requires
                total <= usize::MAX / width,
                width >= 1,
        ;
    }
    Some(total)
}

/// Where leaf `i` falls among windows of `q` leaves, `q` dividing `n`.
pub(crate) proof fn lemma_window_position(i: nat, q: nat, n: nat)
    requires
        q >= 1,
        n % q == 0,
        i < n,
    ensures
        (i / q) * q <= i < (i / q) * q + q,
        (i / q) * q + q <= n,
        (i / q + 1) * q == (i / q) * q + q,
        i / q < n / q,
{
    let ii = i as int;
    let qq = q as int;
    let nn = n as int;
    let aa = ii / qq;
    vstd::arithmetic::div_mod::lemma_fundamental_div_mod(ii, qq);
    vstd::arithmetic::div_mod::lemma_fundamental_div_mod(nn, qq);
    vstd::arithmetic::div_mod::lemma_mod_pos_bound(ii, qq);
    assert(aa * qq <= ii < aa * qq + qq) by (nonlinear_arith)
        requires
            ii == qq * aa + ii % qq,
            0 <= ii % qq < qq,
    ;
    assert(aa < nn / qq) by (nonlinear_arith)
        requires
            nn == qq * (nn / qq),
            aa * qq <= ii < nn,
            qq > 0,
    ;
    assert((aa + 1) * qq <= nn) by (nonlinear_arith)
        requires
            nn == qq * (nn / qq),
            aa < nn / qq,
            qq > 0,
    ;
    assert((aa + 1) * qq == aa * qq + qq) by (nonlinear_arith);
}

/// Position of the first node of level `m` in the node array of a tree
/// over `n` leaves.
pub(crate) fn level_start(n: usize, m: usize) -> (r: usize)
    requires
        n >= 1,
        m + 1 <= height_from(n as nat),
        tree_len(n as nat) <= usize::MAX,
    ensures
        r == level_base(n as nat, m as nat),
{
    let mut base: usize = 0;
    let mut w: usize = n;
    let mut t: usize = 0;
    proof {
        lemma_level_base_bound(n as nat, m as nat);
    }
    while t < m
        invariant
            t <= m,
            w >= 1,
            m - t + 1 <= height_from(w as nat),
            base + level_base(w as nat, (m - t) as nat) == level_base(n as nat, m as nat),
            level_base(n as nat, m as nat) <= usize::MAX,
        decreases m - t,
    {
        proof {
            lemma_level_base_bound(w as nat, (m - t) as nat);
        }
        base = base + w + w % 2;
        w = (w + 1) / 2;
        t = t + 1;
    }
    base
}

pub(crate) proof fn lemma_level_base_bound(n: nat, m: nat)
    requires
        n >= 1,
        m + 1 <= height_from(n),
    ensures
        level_base(n, m) <= tree_len(n),
    decreases m,
{
    if m > 0 {
        lemma_level_base_bound(((n + 1) / 2) as nat, (m - 1) as nat);
    }
}

} // verus!
