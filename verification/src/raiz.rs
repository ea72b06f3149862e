//! Integer square roots, rounded down and rounded up.

use vstd::prelude::*;

verus! {

/// `r` is the square root of `n` rounded down: the largest natural whose
/// square does not exceed `n`.
pub open spec fn eh_raiz_inteira(n: nat, r: nat) -> bool {
    r * r <= n < (r + 1) * (r + 1)
}

/// The square root of `n`, rounded down.
pub open spec fn raiz_inteira(n: nat) -> nat {
    choose|r: nat| eh_raiz_inteira(n, r)
}

/// `k` is the square root of `n` rounded up: the least natural whose square
/// reaches `n`.
pub open spec fn eh_teto_da_raiz(n: nat, k: nat) -> bool {
    k * k >= n && (k > 0 ==> (k - 1) * (k - 1) < n)
}

/// Every natural has a rounded-down square root, and `raiz_inteira` is it.
pub proof fn lemma_raiz_inteira_existe(n: nat)
    ensures
        eh_raiz_inteira(n, raiz_inteira(n)),
    decreases n,
{
    if n == 0 {
        assert(0nat * 0nat == 0 && (0nat + 1) * (0nat + 1) == 1) by (nonlinear_arith);
        assert(eh_raiz_inteira(0, 0));
    } else {
        let m = (n - 1) as nat;
        lemma_raiz_inteira_existe(m);
        let r = raiz_inteira(m);
        if (r + 1) * (r + 1) <= n {
            assert(n < (r + 2) * (r + 2)) by (nonlinear_arith)
                requires
                    n - 1 < (r + 1) * (r + 1),
            ;
            assert(eh_raiz_inteira(n, r + 1));
        } else {
            assert(eh_raiz_inteira(n, r));
        }
    }
}

/// The rounded-down square root is unique.
pub proof fn lemma_raiz_inteira_unica(n: nat, r: nat)
    requires
        eh_raiz_inteira(n, r),
    ensures
        r == raiz_inteira(n),
{
    lemma_raiz_inteira_existe(n);
    let s = raiz_inteira(n);
    assert(r == s) by (nonlinear_arith)
        requires
            r * r <= n,
            n < (r + 1) * (r + 1),
            s * s <= n,
            n < (s + 1) * (s + 1),
    ;
}

/// The rounded-up square root is unique.
pub proof fn lemma_teto_da_raiz_unico(n: nat, a: nat, b: nat)
    requires
        eh_teto_da_raiz(n, a),
        eh_teto_da_raiz(n, b),
    ensures
        a == b,
{
    assert(a == b) by (nonlinear_arith)
        requires
            a * a >= n,
            a > 0 ==> (a - 1) * (a - 1) < n,
            b * b >= n,
            b > 0 ==> (b - 1) * (b - 1) < n,
    ;
}

/// The square of a natural below 2^64 fits in 128 bits.
proof fn lemma_quadrado_cabe(m: u128)
    requires
        m <= 0xFFFF_FFFF_FFFF_FFFF,
    ensures
        m * m <= u128::MAX,
{
    assert(m * m <= 0xFFFF_FFFF_FFFF_FFFF * 0xFFFF_FFFF_FFFF_FFFF) by (nonlinear_arith)
        requires
            0 <= m <= 0xFFFF_FFFF_FFFF_FFFF,
    ;
}

/// Computes the square root of `n` rounded down, by bisection.
pub fn raiz_quadrada(n: u128) -> (r: u64)
    ensures
        r as nat == raiz_inteira(n as nat),
{
    let mut lo: u128 = 0;
    let mut hi: u128 = 0x1_0000_0000_0000_0000;
    assert(n < hi * hi) by (nonlinear_arith)
        requires
            hi == 0x1_0000_0000_0000_0000,
            n <= u128::MAX,
    ;
    while hi - lo > 1
        invariant
            lo < hi <= 0x1_0000_0000_0000_0000,
            lo * lo <= n,
            n < hi * hi,
        decreases hi - lo,
    {
        let mid: u128 = lo + (hi - lo) / 2;
        proof {
            lemma_quadrado_cabe(mid);
        }
        if mid * mid <= n {
            lo = mid;
        } else {
            hi = mid;
        }
    }
    proof {
        lemma_raiz_inteira_unica(n as nat, lo as nat);
    }
    lo as u64
}

/// Picks the number of neighbours for a training set of `total_dados` points:
/// the square root of its size, rounded up.
pub fn calcular_k(total_dados: usize) -> (k: usize)
    ensures
        eh_teto_da_raiz(total_dados as nat, k as nat),
{
    let r: u64 = raiz_quadrada(total_dados as u128);
    proof {
        lemma_raiz_inteira_existe(total_dados as nat);
        assert(r <= total_dados) by (nonlinear_arith)
            requires
                r * r <= total_dados,
        ;
    }
    let r: usize = r as usize;
    if r as u128 * r as u128 == total_dados as u128 {
        assert(r > 0 ==> (r - 1) * (r - 1) < r * r) by (nonlinear_arith);
        r
    } else {
        assert(r < total_dados) by (nonlinear_arith)
            requires
                r * r < total_dados,
        ;
        let k: usize = r + 1;
        assert(k * k >= total_dados && (k - 1) * (k - 1) < total_dados) by (nonlinear_arith)
            requires
                k == r + 1,
                r * r < total_dados < (r + 1) * (r + 1),
        ;
        k
    }
}

} // verus!
