//! Classification by the vote of the nearest neighbours.

use crate::erro::KnnError;
use crate::ponto::{
    distancia_quadrada, lemma_soma_dos_quadrados_limitada, maior_quadrado, soma_dos_quadrados,
    Ponto,
};
use crate::selecao::{
    eh_selecao, lemma_mais_proximos, lemma_por_proximidade, mais_perto, mais_proximos,
    por_proximidade, posicoes, selecionar,
};
use crate::vizinho::{distancias_de, rotulos_dos_vizinhos, Vizinho};
use crate::votacao::{
    eh_vencedor, lemma_maioria_vence, lemma_vencedor, ocorrencias, rotulo_majoritario,
    rotulos_de, vencedor,
};
use vstd::prelude::*;

verus! {

/// The votes that are cast when `k` neighbours are asked for: the labels of
/// the `k` nearest points, nearest first.
pub open spec fn votos_dos_mais_proximos(d: Seq<u128>, rotulos: Seq<Seq<char>>, k: nat) -> Seq<
    Seq<char>,
> {
    mais_proximos(d, k).map_values(|i: int| rotulos[i])
}

/// The outcome of classifying by the `k` nearest of the points with
/// distances `d` and labels `rotulos`.
///
/// Without points there is nothing to vote, and `k` must be at least one.
/// Otherwise the label with the most votes among the `k` nearest points wins
/// (all points, where there are fewer than `k`), and of labels with equally
/// many votes the one with the nearest point.
pub open spec fn classificacao(d: Seq<u128>, rotulos: Seq<Seq<char>>, k: nat) -> Result<
    Seq<char>,
    KnnError,
> {
    if d.len() == 0 {
        Err(KnnError::EmptyTrainingSet)
    } else if k == 0 {
        Err(KnnError::InvalidK)
    } else {
        Ok(vencedor(votos_dos_mais_proximos(d, rotulos, k)))
    }
}

/// A result as the contracts see it: a label by its characters.
pub open spec fn vista(r: Result<String, KnnError>) -> Result<Seq<char>, KnnError> {
    match r {
        Ok(l) => Ok(l@),
        Err(e) => Err(e),
    }
}

/// The feature vectors of a list of points.
pub open spec fn caracteristicas_de(pontos: Seq<Ponto>) -> Seq<Seq<i32>> {
    pontos.map_values(|p: Ponto| p.caracteristicas@)
}

/// The labels of a list of points.
pub open spec fn rotulos_dos_pontos(pontos: Seq<Ponto>) -> Seq<Seq<char>> {
    pontos.map_values(|p: Ponto| p.rotulo@)
}

/// The squared distances from the query `teste` to each training point.
pub open spec fn distancias_ao_ponto(treinamento: Seq<Seq<i32>>, teste: Seq<i32>) -> Seq<u128> {
    treinamento.map_values(|c: Seq<i32>| soma_dos_quadrados(teste, c) as u128)
}

/// Some training point differs from the query in dimension.
pub open spec fn ha_dimensao_diferente(treinamento: Seq<Seq<i32>>, teste: Seq<i32>) -> bool {
    exists|i: int| 0 <= i < treinamento.len() && (#[trigger] treinamento[i]).len() != teste.len()
}

/// The outcome of classifying the query `teste` by its `k` nearest training
/// points.
pub open spec fn resultado_knn(
    treinamento: Seq<Seq<i32>>,
    rotulos: Seq<Seq<char>>,
    teste: Seq<i32>,
    k: nat,
) -> Result<Seq<char>, KnnError> {
    if treinamento.len() == 0 {
        Err(KnnError::EmptyTrainingSet)
    } else if k == 0 {
        Err(KnnError::InvalidK)
    } else if ha_dimensao_diferente(treinamento, teste) {
        Err(KnnError::DimensionMismatch)
    } else {
        classificacao(distancias_ao_ponto(treinamento, teste), rotulos, k)
    }
}

/// Classifies by the vote of the `k` nearest of the given neighbours.
///
/// Fails with `EmptyTrainingSet` when there is no neighbour, and with
/// `InvalidK` when there is one and `k` is zero.
pub fn classificar(vizinhos: &[Vizinho], k: usize) -> (r: Result<String, KnnError>)
    ensures
        vista(r) == classificacao(
            distancias_de(vizinhos@),
            rotulos_dos_vizinhos(vizinhos@),
            k as nat,
        ),
{
    let n: usize = vizinhos.len();
    if n == 0 {
        return Err(KnnError::EmptyTrainingSet);
    }
    if k == 0 {
        return Err(KnnError::InvalidK);
    }
    let ghost d = distancias_de(vizinhos@);
    let ghost rotulos = rotulos_dos_vizinhos(vizinhos@);
    let mut distancias: Vec<u128> = Vec::new();
    let mut i: usize = 0;
    while i < n
        invariant
            i <= n,
            n == vizinhos@.len(),
            d == distancias_de(vizinhos@),
            distancias@ == d.take(i as int),
        decreases n - i,
    {
        distancias.push(vizinhos[i].distancia);
        proof {
            assert(distancias@ =~= d.take(i + 1));
        }
        i = i + 1;
    }
    proof {
        assert(d.take(n as int) == d);
    }
    let escolhidos: Vec<usize> = selecionar(distancias.as_slice(), k);
    let ghost s = mais_proximos(d, k as nat);
    let ghost esperados = votos_dos_mais_proximos(d, rotulos, k as nat);
    proof {
        lemma_mais_proximos(d, k as nat);
    }
    let mut votos: Vec<String> = Vec::new();
    let mut a: usize = 0;
    while a < escolhidos.len()
        invariant
            a <= escolhidos@.len(),
            n == vizinhos@.len(),
            n == d.len(),
            rotulos == rotulos_dos_vizinhos(vizinhos@),
            posicoes(escolhidos@) == s,
            eh_selecao(d, s),
            esperados == s.map_values(|i: int| rotulos[i]),
            rotulos_de(votos@) == esperados.take(a as int),
        decreases escolhidos@.len() - a,
    {
        let p: usize = escolhidos[a];
        proof {
            assert(s[a as int] == p);
        }
        let ghost antes = votos@;
        votos.push(vizinhos[p].rotulo.clone());
        proof {
            assert(rotulos_de(votos@) =~= rotulos_de(antes).push(rotulos[p as int]));
            assert(rotulos_de(votos@) =~= esperados.take(a + 1));
        }
        a = a + 1;
    }
    proof {
        assert(esperados.take(escolhidos@.len() as int) == esperados);
    }
    match rotulo_majoritario(&votos) {
        Some(l) => Ok(l),
        // At least one neighbour was selected, so there is a vote.
        None => Err(KnnError::EmptyTrainingSet),
    }
}

/// Classifies the query `ponto_teste` by the vote of its `k` nearest points
/// of `treinamento`, and returns the winning label.
///
/// Fails with `EmptyTrainingSet` when there is no training point; else with
/// `InvalidK` when `k` is zero; else with `DimensionMismatch` when some
/// training point differs from the query in dimension.
pub fn knn(treinamento: &[Ponto], ponto_teste: &Ponto, k: usize) -> (r: Result<String, KnnError>)
    ensures
        vista(r) == resultado_knn(
            caracteristicas_de(treinamento@),
            rotulos_dos_pontos(treinamento@),
            ponto_teste.caracteristicas@,
            k as nat,
        ),
{
    let n: usize = treinamento.len();
    if n == 0 {
        return Err(KnnError::EmptyTrainingSet);
    }
    if k == 0 {
        return Err(KnnError::InvalidK);
    }
    let ghost cs = caracteristicas_de(treinamento@);
    let ghost q = ponto_teste.caracteristicas@;
    let mut vizinhos: Vec<Vizinho> = Vec::new();
    let mut i: usize = 0;
    while i < n
        invariant
            i <= n,
            0 < k,
            n == treinamento@.len(),
            cs == caracteristicas_de(treinamento@),
            q == ponto_teste.caracteristicas@,
            vizinhos@.len() == i,
            forall|j: int| 0 <= j < i ==> (#[trigger] cs[j]).len() == q.len(),
            distancias_de(vizinhos@) == distancias_ao_ponto(cs, q).take(i as int),
            rotulos_dos_vizinhos(vizinhos@) == rotulos_dos_pontos(treinamento@).take(i as int),
        decreases n - i,
    {
        let ghost antes = vizinhos@;
        match distancia_quadrada(ponto_teste, &treinamento[i]) {
            Ok(d) => {
                vizinhos.push(Vizinho::novo(d, treinamento[i].rotulo.clone()));
            },
            Err(e) => {
                proof {
                    assert(cs[i as int] == treinamento@[i as int].caracteristicas@);
                    assert(cs[i as int].len() != q.len());
                    assert(ha_dimensao_diferente(cs, q));
                }
                return Err(e);
            },
        }
        proof {
            assert(cs[i as int] == treinamento@[i as int].caracteristicas@);
            lemma_soma_dos_quadrados_limitada(q, cs[i as int]);
            assert(q.len() == ponto_teste.caracteristicas.len());
            assert(q.len() * maior_quadrado() <= u128::MAX) by (nonlinear_arith)
                requires
                    q.len() <= 0xFFFF_FFFF_FFFF_FFFF,
                    maior_quadrado() == 0xFFFF_FFFE_0000_0001,
            ;
            assert(distancias_de(vizinhos@) =~= distancias_ao_ponto(cs, q).take(i + 1));
            assert(rotulos_dos_vizinhos(vizinhos@) =~= rotulos_dos_pontos(treinamento@).take(
                i + 1,
            ));
        }
        i = i + 1;
    }
    proof {
        assert(distancias_ao_ponto(cs, q).take(n as int) == distancias_ao_ponto(cs, q));
        assert(rotulos_dos_pontos(treinamento@).take(n as int) == rotulos_dos_pontos(
            treinamento@,
        ));
        assert(!ha_dimensao_diferente(cs, q));
    }
    classificar(vizinhos.as_slice(), k)
}

/// With one neighbour asked for, the label of the nearest point is returned,
/// where one point is nearer than all others.
pub proof fn lemma_um_vizinho(d: Seq<u128>, rotulos: Seq<Seq<char>>, i: int)
    requires
        0 <= i < d.len(),
        forall|j: int| 0 <= j < d.len() && j != i ==> d[i] < #[trigger] d[j],
    ensures
        mais_proximos(d, 1) == seq![i],
        classificacao(d, rotulos, 1) == Ok::<Seq<char>, KnnError>(rotulos[i]),
{
    let s = mais_proximos(d, 1);
    lemma_mais_proximos(d, 1);
    if s[0] != i {
        assert(!s.contains(i));
        assert(mais_perto(d, s[0], i));
        assert(d[i] < d[s[0]]);
    }
    assert(s =~= seq![i]);
    let v = votos_dos_mais_proximos(d, rotulos, 1);
    assert(v =~= seq![rotulos[i]]);
    assert(eh_vencedor(v, 0));
    lemma_vencedor(v, 0);
}

/// Asking for more neighbours than there are points is asking for all of
/// them: every point votes, and the outcome is that of `k` equal to the number
/// of points.
pub proof fn lemma_k_excedente(d: Seq<u128>, rotulos: Seq<Seq<char>>, k: nat)
    requires
        k >= d.len(),
    ensures
        mais_proximos(d, k) == mais_proximos(d, d.len()),
        mais_proximos(d, k).len() == d.len(),
        forall|i: int| 0 <= i < d.len() ==> mais_proximos(d, k).contains(i),
        classificacao(d, rotulos, k) == classificacao(d, rotulos, d.len()),
{
    lemma_por_proximidade(d, d.len());
    let p = por_proximidade(d, d.len());
    assert(p.take(p.len() as int) == p);
}

/// A label with more votes among the `k` nearest points than every other
/// label is the outcome.
pub proof fn lemma_maioria_clara(d: Seq<u128>, rotulos: Seq<Seq<char>>, k: nat, l: Seq<char>)
    requires
        d.len() > 0,
        k > 0,
        votos_dos_mais_proximos(d, rotulos, k).contains(l),
        forall|j: int|
            0 <= j < votos_dos_mais_proximos(d, rotulos, k).len() && votos_dos_mais_proximos(
                d,
                rotulos,
                k,
            )[j] != l ==> ocorrencias(
                votos_dos_mais_proximos(d, rotulos, k),
                #[trigger] votos_dos_mais_proximos(d, rotulos, k)[j],
            ) < ocorrencias(votos_dos_mais_proximos(d, rotulos, k), l),
    ensures
        classificacao(d, rotulos, k) == Ok::<Seq<char>, KnnError>(l),
{
    lemma_maioria_vence(votos_dos_mais_proximos(d, rotulos, k), l);
}

/// Where the points have the dimension of the query, the distances that the
/// selection sees are the squared distances themselves.
pub proof fn lemma_distancias_ao_ponto(treinamento: Seq<Seq<i32>>, teste: Seq<i32>, i: int)
    requires
        teste.len() <= usize::MAX,
        0 <= i < treinamento.len(),
        treinamento[i].len() == teste.len(),
    ensures
        distancias_ao_ponto(treinamento, teste)[i] == soma_dos_quadrados(teste, treinamento[i]),
{
    lemma_soma_dos_quadrados_limitada(teste, treinamento[i]);
    assert(teste.len() * maior_quadrado() <= u128::MAX) by (nonlinear_arith)
        requires
            teste.len() <= 0xFFFF_FFFF_FFFF_FFFF,
            maior_quadrado() == 0xFFFF_FFFE_0000_0001,
    ;
}

/// With `k` equal to one, `knn` returns the label of the training point that
/// is nearer to the query than all others, where there is one.
pub proof fn lemma_knn_um_vizinho(
    treinamento: Seq<Seq<i32>>,
    rotulos: Seq<Seq<char>>,
    teste: Seq<i32>,
    i: int,
)
    requires
        teste.len() <= usize::MAX,
        0 <= i < treinamento.len(),
        !ha_dimensao_diferente(treinamento, teste),
        forall|j: int|
            0 <= j < treinamento.len() && j != i ==> soma_dos_quadrados(teste, treinamento[i])
                < soma_dos_quadrados(teste, #[trigger] treinamento[j]),
    ensures
        resultado_knn(treinamento, rotulos, teste, 1) == Ok::<Seq<char>, KnnError>(rotulos[i]),
{
    let d = distancias_ao_ponto(treinamento, teste);
    assert forall|j: int| 0 <= j < d.len() && j != i implies d[i] < #[trigger] d[j] by {
        assert(treinamento[j].len() == teste.len());
        assert(treinamento[i].len() == teste.len());
        lemma_distancias_ao_ponto(treinamento, teste, i);
        lemma_distancias_ao_ponto(treinamento, teste, j);
    }
    lemma_um_vizinho(d, rotulos, i);
}

/// With `k` at least the number of training points, `knn` does what it does
/// with `k` equal to that number.
pub proof fn lemma_knn_k_excedente(
    treinamento: Seq<Seq<i32>>,
    rotulos: Seq<Seq<char>>,
    teste: Seq<i32>,
    k: nat,
)
    requires
        k >= treinamento.len(),
    ensures
        resultado_knn(treinamento, rotulos, teste, k) == resultado_knn(
            treinamento,
            rotulos,
            teste,
            treinamento.len(),
        ),
{
    lemma_k_excedente(distancias_ao_ponto(treinamento, teste), rotulos, k);
}

/// Whatever `knn` returns on two calls with equal training points, query and
/// `k` is the same: the same error, or labels of the same characters.
pub proof fn lemma_knn_deterministico(
    treinamento: Seq<Seq<i32>>,
    rotulos: Seq<Seq<char>>,
    teste: Seq<i32>,
    k: nat,
    r1: Result<String, KnnError>,
    r2: Result<String, KnnError>,
)
    requires
        vista(r1) == resultado_knn(treinamento, rotulos, teste, k),
        vista(r2) == resultado_knn(treinamento, rotulos, teste, k),
    ensures
        vista(r1) == vista(r2),
        r1 is Ok <==> r2 is Ok,
        r1 is Ok ==> r1->Ok_0@ == r2->Ok_0@,
        r1 is Err ==> r1->Err_0 == r2->Err_0,
{
}

} // verus!
