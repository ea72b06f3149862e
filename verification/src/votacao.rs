//! The majority vote among the labels of the selected neighbours.
//!
//! Votes are counted per distinct label. The label with the most votes wins;
//! among labels with equally many votes, the one that was cast first wins.
//! With the votes in order of nearness, a tie therefore goes to the label of
//! the nearest neighbour among those tied.

use vstd::prelude::*;

verus! {

/// How often `l` occurs among `votos`.
pub open spec fn ocorrencias<L>(votos: Seq<L>, l: L) -> nat
    decreases votos.len(),
{
    if votos.len() == 0 {
        0
    } else {
        ocorrencias(votos.drop_last(), l) + if votos.last() == l {
            1nat
        } else {
            0nat
        }
    }
}

/// The vote at position `w` wins: no label has more votes than its label, and
/// every label cast before it has fewer.
pub open spec fn eh_vencedor<L>(votos: Seq<L>, w: int) -> bool {
    &&& 0 <= w < votos.len()
    &&& forall|j: int|
        0 <= j < votos.len() ==> ocorrencias(votos, #[trigger] votos[j]) <= ocorrencias(
            votos,
            votos[w],
        )
    &&& forall|j: int|
        0 <= j < w ==> ocorrencias(votos, #[trigger] votos[j]) < ocorrencias(votos, votos[w])
}

/// The position of the winning vote.
pub open spec fn indice_vencedor<L>(votos: Seq<L>) -> int {
    choose|w: int| eh_vencedor(votos, w)
}

/// The label that wins the vote. It is meant for a vote that is not empty.
pub open spec fn vencedor<L>(votos: Seq<L>) -> L {
    votos[indice_vencedor(votos)]
}

/// The labels of a list of votes.
pub open spec fn rotulos_de(votos: Seq<String>) -> Seq<Seq<char>> {
    votos.map_values(|s: String| s@)
}

/// One line of the tally: a label, named by the position of its first vote,
/// and the number of votes it has.
#[derive(Clone, Copy, Debug, PartialEq, Eq, Structural)]
pub struct Contagem {
    pub primeiro: usize,
    pub votos: usize,
}

/// No vote before position `p` has the label of the vote at `p`.
pub open spec fn eh_primeira_ocorrencia<L>(votos: Seq<L>, p: int) -> bool {
    forall|i: int| 0 <= i < p ==> #[trigger] votos[i] != votos[p]
}

/// Some line of `t` stands for the label of the vote at position `i`.
pub open spec fn tem_linha<L>(votos: Seq<L>, t: Seq<Contagem>, i: int) -> bool {
    exists|e: int| 0 <= e < t.len() && votos[(#[trigger] t[e]).primeiro as int] == votos[i]
}

/// `t` is the tally of the first `n` votes: one line for each distinct label
/// among them, in the order in which the labels first occur, each with the
/// number of its votes.
pub open spec fn eh_apuracao<L>(votos: Seq<L>, n: int, t: Seq<Contagem>) -> bool {
    &&& 0 <= n <= votos.len()
    &&& forall|e: int|
        0 <= e < t.len() ==> {
            &&& (#[trigger] t[e]).primeiro < n
            &&& t[e].votos == ocorrencias(votos.take(n), votos[t[e].primeiro as int])
            &&& eh_primeira_ocorrencia(votos, t[e].primeiro as int)
        }
    &&& forall|e1: int, e2: int|
        0 <= e1 < e2 < t.len() ==> (#[trigger] t[e1]).primeiro < (#[trigger] t[e2]).primeiro
    &&& forall|i: int| 0 <= i < n ==> #[trigger] tem_linha(votos, t, i)
}

/// A label occurs at most as often as there are votes.
pub proof fn lemma_ocorrencias_limitadas<L>(votos: Seq<L>, l: L)
    ensures
        ocorrencias(votos, l) <= votos.len(),
    decreases votos.len(),
{
    if votos.len() > 0 {
        lemma_ocorrencias_limitadas(votos.drop_last(), l);
    }
}

/// A label that no vote has occurs zero times.
pub proof fn lemma_ocorrencias_de_ausente<L>(votos: Seq<L>, l: L)
    requires
        forall|i: int| 0 <= i < votos.len() ==> votos[i] != l,
    ensures
        ocorrencias(votos, l) == 0,
    decreases votos.len(),
{
    if votos.len() > 0 {
        lemma_ocorrencias_de_ausente(votos.drop_last(), l);
    }
}

/// Only one vote can win.
pub proof fn lemma_vencedor_unico<L>(votos: Seq<L>, w1: int, w2: int)
    requires
        eh_vencedor(votos, w1),
        eh_vencedor(votos, w2),
    ensures
        w1 == w2,
{
    if w1 < w2 {
        assert(ocorrencias(votos, votos[w1]) < ocorrencias(votos, votos[w2]));
        assert(ocorrencias(votos, votos[w2]) <= ocorrencias(votos, votos[w1]));
    } else if w2 < w1 {
        assert(ocorrencias(votos, votos[w2]) < ocorrencias(votos, votos[w1]));
        assert(ocorrencias(votos, votos[w1]) <= ocorrencias(votos, votos[w2]));
    }
}

/// A vote that wins is the one that `vencedor` names.
pub proof fn lemma_vencedor<L>(votos: Seq<L>, w: int)
    requires
        eh_vencedor(votos, w),
    ensures
        indice_vencedor(votos) == w,
        vencedor(votos) == votos[w],
{
    lemma_vencedor_unico(votos, w, indice_vencedor(votos));
}

/// A label with more votes than every other label wins.
pub proof fn lemma_maioria_vence<L>(votos: Seq<L>, l: L)
    requires
        votos.contains(l),
        forall|j: int|
            0 <= j < votos.len() && votos[j] != l ==> ocorrencias(votos, #[trigger] votos[j])
                < ocorrencias(votos, l),
    ensures
        vencedor(votos) == l,
{
    let w = choose|w: int| 0 <= w < votos.len() && votos[w] == l;
    lemma_vencedor_existe(votos);
    let v = indice_vencedor(votos);
    if votos[v] != l {
        assert(ocorrencias(votos, votos[v]) < ocorrencias(votos, l));
        assert(ocorrencias(votos, votos[w]) <= ocorrencias(votos, votos[v]));
    }
}

/// A vote that is not empty has a winner, and the winner is among the votes.
pub proof fn lemma_vencedor_existe<L>(votos: Seq<L>)
    requires
        votos.len() > 0,
    ensures
        eh_vencedor(votos, indice_vencedor(votos)),
        votos.contains(vencedor(votos)),
{
    let w = melhor_ate(votos, votos.len() as int);
    lemma_melhor_ate(votos, votos.len() as int);
    assert(eh_vencedor(votos, w));
}

/// The earliest position among the first `n` votes whose label has the most
/// votes of all labels cast there.
spec fn melhor_ate<L>(votos: Seq<L>, n: int) -> int
    decreases n,
{
    if n <= 1 {
        0
    } else {
        let m = melhor_ate(votos, n - 1);
        if ocorrencias(votos, votos[n - 1]) > ocorrencias(votos, votos[m]) {
            n - 1
        } else {
            m
        }
    }
}

/// `melhor_ate` wins among the first `n` votes.
proof fn lemma_melhor_ate<L>(votos: Seq<L>, n: int)
    requires
        1 <= n <= votos.len(),
    ensures
        0 <= melhor_ate(votos, n) < n,
        forall|j: int|
            0 <= j < n ==> ocorrencias(votos, #[trigger] votos[j]) <= ocorrencias(
                votos,
                votos[melhor_ate(votos, n)],
            ),
        forall|j: int|
            0 <= j < melhor_ate(votos, n) ==> ocorrencias(votos, #[trigger] votos[j])
                < ocorrencias(votos, votos[melhor_ate(votos, n)]),
    decreases n,
{
    if n > 1 {
        lemma_melhor_ate(votos, n - 1);
    }
}

/// Looks in the tally for the line of the label of the vote at position `j`.
fn procurar(votos: &Vec<String>, t: &Vec<Contagem>, j: usize) -> (r: Option<usize>)
    requires
        j < votos@.len(),
        forall|e: int| 0 <= e < t@.len() ==> (#[trigger] t@[e]).primeiro < votos@.len(),
    ensures
        match r {
            Some(e) => e < t@.len() && rotulos_de(votos@)[t@[e as int].primeiro as int]
                == rotulos_de(votos@)[j as int],
            None => forall|e: int|
                0 <= e < t@.len() ==> rotulos_de(votos@)[(#[trigger] t@[e]).primeiro as int]
                    != rotulos_de(votos@)[j as int],
        },
{
    let mut e: usize = 0;
    while e < t.len()
        invariant
            e <= t@.len(),
            j < votos@.len(),
            forall|x: int| 0 <= x < t@.len() ==> (#[trigger] t@[x]).primeiro < votos@.len(),
            forall|x: int|
                0 <= x < e ==> rotulos_de(votos@)[(#[trigger] t@[x]).primeiro as int] != rotulos_de(
                    votos@,
                )[j as int],
        decreases t@.len() - e,
    {
        let p: usize = t[e].primeiro;
        if votos[p] == votos[j] {
            return Some(e);
        }
        e = e + 1;
    }
    None
}

/// Counts the votes of each distinct label.
///
/// The tally has one line for each distinct label, in the order in which the
/// labels first occur among the votes.
pub fn apurar(votos: &Vec<String>) -> (t: Vec<Contagem>)
    ensures
        eh_apuracao(rotulos_de(votos@), votos@.len() as int, t@),
{
    let ghost r = rotulos_de(votos@);
    let n: usize = votos.len();
    let mut t: Vec<Contagem> = Vec::new();
    let mut j: usize = 0;
    while j < n
        invariant
            j <= n,
            n == votos@.len(),
            r == rotulos_de(votos@),
            eh_apuracao(r, j as int, t@),
        decreases n - j,
    {
        let ghost antes = t@;
        proof {
            assert(r.take(j + 1).drop_last() == r.take(j as int));
            assert(r.take(j + 1).last() == r[j as int]);
        }
        match procurar(votos, &t, j) {
            Some(e) => {
                let linha: Contagem = t[e];
                proof {
                    lemma_ocorrencias_limitadas(r.take(j as int), r[j as int]);
                }
                t[e] = Contagem { primeiro: linha.primeiro, votos: linha.votos + 1 };
                proof {
                    let depois = t@;
                    assert forall|x: int| 0 <= x < depois.len() implies {
                        &&& (#[trigger] depois[x]).primeiro < j + 1
                        &&& depois[x].votos == ocorrencias(
                            r.take(j + 1),
                            r[depois[x].primeiro as int],
                        )
                        &&& eh_primeira_ocorrencia(r, depois[x].primeiro as int)
                    } by {
                        assert(antes[x].primeiro < j);
                        if x != e {
                            if x < e {
                                assert(antes[x].primeiro < antes[e as int].primeiro);
                            } else {
                                assert(antes[e as int].primeiro < antes[x].primeiro);
                            }
                        }
                    }
                    assert forall|i: int| 0 <= i < j + 1 implies #[trigger] tem_linha(
                        r,
                        depois,
                        i,
                    ) by {
                        if i < j {
                            assert(tem_linha(r, antes, i));
                            let x = choose|x: int|
                                0 <= x < antes.len() && r[(#[trigger] antes[x]).primeiro as int]
                                    == r[i];
                            assert(depois[x].primeiro == antes[x].primeiro);
                        } else {
                            assert(depois[e as int].primeiro == antes[e as int].primeiro);
                        }
                    }
                    assert forall|e1: int, e2: int| 0 <= e1 < e2 < depois.len() implies (
                    #[trigger] depois[e1]).primeiro < (#[trigger] depois[e2]).primeiro by {
                        assert(antes[e1].primeiro < antes[e2].primeiro);
                    }
                }
            },
            None => {
                proof {
                    assert forall|i: int| 0 <= i < j implies #[trigger] r[i] != r[j as int] by {
                        assert(tem_linha(r, antes, i));
                    }
                    assert(eh_primeira_ocorrencia(r, j as int));
                    assert forall|i: int| 0 <= i < j implies r.take(j as int)[i] != r[j as int] by {
                        assert(r.take(j as int)[i] == r[i]);
                    }
                    lemma_ocorrencias_de_ausente(r.take(j as int), r[j as int]);
                }
                t.push(Contagem { primeiro: j, votos: 1 });
                proof {
                    let depois = t@;
                    assert forall|x: int| 0 <= x < depois.len() implies {
                        &&& (#[trigger] depois[x]).primeiro < j + 1
                        &&& depois[x].votos == ocorrencias(
                            r.take(j + 1),
                            r[depois[x].primeiro as int],
                        )
                        &&& eh_primeira_ocorrencia(r, depois[x].primeiro as int)
                    } by {
                        if x < antes.len() {
                            assert(antes[x].primeiro < j);
                        }
                    }
                    assert forall|i: int| 0 <= i < j + 1 implies #[trigger] tem_linha(
                        r,
                        depois,
                        i,
                    ) by {
                        if i < j {
                            assert(tem_linha(r, antes, i));
                            let x = choose|x: int|
                                0 <= x < antes.len() && r[(#[trigger] antes[x]).primeiro as int]
                                    == r[i];
                            assert(depois[x].primeiro == antes[x].primeiro);
                        } else {
                            assert(depois[antes.len() as int].primeiro == j);
                        }
                    }
                    assert forall|e1: int, e2: int| 0 <= e1 < e2 < depois.len() implies (
                    #[trigger] depois[e1]).primeiro < (#[trigger] depois[e2]).primeiro by {
                        assert(antes[e1].primeiro < j);
                    }
                }
            },
        }
        j = j + 1;
    }
    proof {
        assert(r.take(n as int) == r);
    }
    t
}

/// Picks the label that wins the vote: the one with the most votes, and among
/// labels with equally many the one that was cast first.
///
/// Returns `None` exactly when there is no vote.
pub fn rotulo_majoritario(votos: &Vec<String>) -> (r: Option<String>)
    ensures
        match r {
            Some(l) => votos@.len() > 0 && l@ == vencedor(rotulos_de(votos@)),
            None => votos@.len() == 0,
        },
{
    if votos.len() == 0 {
        return None;
    }
    let ghost r = rotulos_de(votos@);
    let t: Vec<Contagem> = apurar(votos);
    proof {
        assert(tem_linha(r, t@, 0));
        assert(r.take(r.len() as int) == r);
    }
    let mut melhor: usize = 0;
    let mut e: usize = 1;
    while e < t.len()
        invariant
            melhor < e <= t@.len(),
            forall|x: int| 0 <= x < e ==> (#[trigger] t@[x]).votos <= t@[melhor as int].votos,
            forall|x: int| 0 <= x < melhor ==> (#[trigger] t@[x]).votos < t@[melhor as int].votos,
        decreases t@.len() - e,
    {
        if t[e].votos > t[melhor].votos {
            melhor = e;
        }
        e = e + 1;
    }
    let w: usize = t[melhor].primeiro;
    proof {
        assert forall|j: int| 0 <= j < r.len() implies ocorrencias(r, #[trigger] r[j])
            <= ocorrencias(r, r[w as int]) by {
            assert(tem_linha(r, t@, j));
            let x = choose|x: int|
                0 <= x < t@.len() && r[(#[trigger] t@[x]).primeiro as int] == r[j];
            assert(t@[x].votos <= t@[melhor as int].votos);
        }
        assert forall|j: int| 0 <= j < w implies ocorrencias(r, #[trigger] r[j]) < ocorrencias(
            r,
            r[w as int],
        ) by {
            assert(tem_linha(r, t@, j));
            let x = choose|x: int|
                0 <= x < t@.len() && r[(#[trigger] t@[x]).primeiro as int] == r[j];
            assert(eh_primeira_ocorrencia(r, t@[x].primeiro as int));
            if x >= melhor {
                if x > melhor {
                    assert(t@[melhor as int].primeiro < t@[x].primeiro);
                }
                assert(t@[x].primeiro >= w);
                assert(eh_primeira_ocorrencia(r, t@[x].primeiro as int));
                assert(r[j] != r[t@[x].primeiro as int]);
            }
            assert(t@[x].votos < t@[melhor as int].votos);
        }
        lemma_vencedor(r, w as int);
    }
    Some(votos[w].clone())
}

} // verus!
