//! Labelled points and the Euclidean distance between them.
//!
//! Features are 32-bit signed integers (fixed-point coordinates). The sum of
//! the squared coordinate differences of two such points fits in 128 bits
//! whatever their dimension, so no distance here can overflow. Nearness is
//! decided on that sum: the square root grows with its argument, so ordering
//! by the sum is ordering by the Euclidean distance itself.

use crate::erro::KnnError;
use crate::raiz::{lemma_raiz_inteira_unica, raiz_inteira, raiz_quadrada};
use vstd::prelude::*;

verus! {

/// A point of the feature space, with the class it belongs to.
#[derive(Clone, Debug)]
pub struct Ponto {
    pub caracteristicas: Vec<i32>,
    pub rotulo: String,
}

impl Ponto {
    /// A point with the given features and label.
    pub fn novo(caracteristicas: Vec<i32>, rotulo: String) -> (p: Ponto)
        ensures
            p.caracteristicas == caracteristicas,
            p.rotulo == rotulo,
    {
        Ponto { caracteristicas, rotulo }
    }

    /// The number of features of the point.
    pub open spec fn dimensao(&self) -> nat {
        self.caracteristicas@.len()
    }
}

/// The largest squared difference of two 32-bit signed integers.
pub open spec fn maior_quadrado() -> int {
    0xFFFF_FFFE_0000_0001
}

/// The sum over all coordinates of the squared difference of `a` and `b`:
/// the square of their Euclidean distance. It is meant for vectors of equal
/// length.
pub open spec fn soma_dos_quadrados(a: Seq<i32>, b: Seq<i32>) -> int
    decreases a.len(),
{
    if a.len() == 0 || b.len() == 0 {
        0
    } else {
        soma_dos_quadrados(a.drop_last(), b.drop_last()) + (a.last() - b.last()) * (a.last()
            - b.last())
    }
}

/// The Euclidean distance of `a` and `b`, rounded down to a whole number.
pub open spec fn distancia(a: Seq<i32>, b: Seq<i32>) -> nat {
    raiz_inteira(soma_dos_quadrados(a, b) as nat)
}

/// The squared distance is never negative, and at most `maior_quadrado()` for
/// each coordinate.
pub proof fn lemma_soma_dos_quadrados_limitada(a: Seq<i32>, b: Seq<i32>)
    requires
        a.len() == b.len(),
    ensures
        0 <= soma_dos_quadrados(a, b) <= a.len() * maior_quadrado(),
    decreases a.len(),
{
    if a.len() > 0 {
        lemma_soma_dos_quadrados_limitada(a.drop_last(), b.drop_last());
        let x: int = a.last() - b.last();
        let n: int = a.len() - 1;
        assert(0 <= x * x <= 0xFFFF_FFFE_0000_0001) by (nonlinear_arith)
            requires
                -0xFFFF_FFFF <= x <= 0xFFFF_FFFF,
        ;
        assert((n + 1) * maior_quadrado() == n * maior_quadrado() + maior_quadrado())
            by (nonlinear_arith);
    } else {
        assert(0 * maior_quadrado() == 0);
    }
}

/// A distance is never negative.
pub proof fn lemma_distancia_nao_negativa(a: Seq<i32>, b: Seq<i32>)
    requires
        a.len() == b.len(),
    ensures
        soma_dos_quadrados(a, b) >= 0,
        distancia(a, b) >= 0,
{
    lemma_soma_dos_quadrados_limitada(a, b);
}

/// The distance of a point to itself is zero.
pub proof fn lemma_distancia_a_si_mesmo(a: Seq<i32>)
    ensures
        soma_dos_quadrados(a, a) == 0,
        distancia(a, a) == 0,
    decreases a.len(),
{
    if a.len() > 0 {
        lemma_distancia_a_si_mesmo(a.drop_last());
    }
    assert(0nat * 0nat == 0 && (0nat + 1) * (0nat + 1) == 1) by (nonlinear_arith);
    lemma_raiz_inteira_unica(0, 0);
}

/// The distance from `a` to `b` is the distance from `b` to `a`.
pub proof fn lemma_distancia_simetrica(a: Seq<i32>, b: Seq<i32>)
    ensures
        soma_dos_quadrados(a, b) == soma_dos_quadrados(b, a),
        distancia(a, b) == distancia(b, a),
    decreases a.len(),
{
    if a.len() > 0 && b.len() > 0 {
        lemma_distancia_simetrica(a.drop_last(), b.drop_last());
        let x: int = a.last() - b.last();
        assert(x * x == (-x) * (-x)) by (nonlinear_arith);
    }
}

/// The squared difference of two coordinates.
fn quadrado_da_diferenca(x: i32, y: i32) -> (q: u128)
    ensures
        q == (x - y) * (x - y),
        q <= maior_quadrado(),
{
    let maior: i64 = if x >= y { x as i64 } else { y as i64 };
    let menor: i64 = if x >= y { y as i64 } else { x as i64 };
    let d: u128 = (maior - menor) as u128;
    assert(d * d == (x - y) * (x - y) && d * d <= 0xFFFF_FFFE_0000_0001) by (nonlinear_arith)
        requires
            d == x - y || d == y - x,
            0 <= d <= 0xFFFF_FFFF,
    ;
    d * d
}

/// Computes the square of the Euclidean distance of two points.
///
/// Fails with `DimensionMismatch` exactly when the points differ in dimension.
pub fn distancia_quadrada(ponto1: &Ponto, ponto2: &Ponto) -> (r: Result<u128, KnnError>)
    ensures
        match r {
            Ok(d) => ponto1.dimensao() == ponto2.dimensao() && d == soma_dos_quadrados(
                ponto1.caracteristicas@,
                ponto2.caracteristicas@,
            ),
            Err(e) => ponto1.dimensao() != ponto2.dimensao() && e == KnnError::DimensionMismatch,
        },
{
    let n: usize = ponto1.caracteristicas.len();
    if ponto2.caracteristicas.len() != n {
        return Err(KnnError::DimensionMismatch);
    }
    let ghost a = ponto1.caracteristicas@;
    let ghost b = ponto2.caracteristicas@;
    let mut soma: u128 = 0;
    let mut i: usize = 0;
    while i < n
        invariant
            i <= n,
            n == a.len(),
            n == b.len(),
            a == ponto1.caracteristicas@,
            b == ponto2.caracteristicas@,
            soma == soma_dos_quadrados(a.take(i as int), b.take(i as int)),
        decreases n - i,
    {
        let q: u128 = quadrado_da_diferenca(ponto1.caracteristicas[i], ponto2.caracteristicas[i]);
        proof {
            let a1 = a.take(i + 1);
            let b1 = b.take(i + 1);
            assert(a1.drop_last() == a.take(i as int));
            assert(b1.drop_last() == b.take(i as int));
            lemma_soma_dos_quadrados_limitada(a1, b1);
            assert(a1.len() * maior_quadrado() <= u128::MAX) by (nonlinear_arith)
                requires
                    a1.len() <= 0xFFFF_FFFF_FFFF_FFFF,
                    maior_quadrado() == 0xFFFF_FFFE_0000_0001,
            ;
        }
        soma = soma + q;
        i = i + 1;
    }
    proof {
        assert(a.take(n as int) == a);
        assert(b.take(n as int) == b);
    }
    Ok(soma)
}

/// Computes the Euclidean distance of two points, rounded down to a whole
/// number.
///
/// Fails with `DimensionMismatch` exactly when the points differ in dimension.
pub fn distancia_euclidiana(ponto1: &Ponto, ponto2: &Ponto) -> (r: Result<u64, KnnError>)
    ensures
        match r {
            Ok(d) => ponto1.dimensao() == ponto2.dimensao() && d == distancia(
                ponto1.caracteristicas@,
                ponto2.caracteristicas@,
            ),
            Err(e) => ponto1.dimensao() != ponto2.dimensao() && e == KnnError::DimensionMismatch,
        },
{
    match distancia_quadrada(ponto1, ponto2) {
        Ok(soma) => Ok(raiz_quadrada(soma)),
        Err(e) => Err(e),
    }
}

} // verus!
