//! A priority queue of neighbour candidates, ordered by ascending distance.
//!
//! The queue is a binary min-heap stored in a vector. Its model is the
//! multiset of the candidates it holds; extraction always hands out the
//! candidate that no other candidate of the queue precedes.

use vstd::multiset::Multiset;
use vstd::prelude::*;
use vstd::seq_lib::group_to_multiset_ensures;

verus! {

/// A training point as the selection sees it: its distance to the query and
/// its position in the training set.
#[derive(Clone, Copy, Debug, PartialEq, Eq, Structural)]
pub struct Candidato {
    pub distancia: u128,
    pub indice: usize,
}

impl Candidato {
    /// The order of selection: nearer first, and of two candidates at the same
    /// distance the one that stands earlier in the training set.
    pub open spec fn precede(self, outro: Candidato) -> bool {
        self.distancia < outro.distancia || (self.distancia == outro.distancia && self.indice
            < outro.indice)
    }

    /// Decides `precede`.
    pub fn vem_antes(&self, outro: &Candidato) -> (b: bool)
        ensures
            b == self.precede(*outro),
    {
        self.distancia < outro.distancia || (self.distancia == outro.distancia && self.indice
            < outro.indice)
    }
}

/// The position of the parent of position `i` in the heap's vector.
pub open spec fn pai(i: int) -> int {
    (i - 1) / 2
}

/// The candidate at position `i` does not precede the one at position `j`.
pub open spec fn nao_precede(s: Seq<Candidato>, i: int, j: int) -> bool {
    !s[i].precede(s[j])
}

/// The heap order: no candidate precedes its parent.
pub open spec fn eh_heap(s: Seq<Candidato>) -> bool {
    forall|i: int| 0 < i < s.len() ==> #[trigger] nao_precede(s, i, pai(i))
}

/// In a heap no candidate precedes the root.
pub proof fn lemma_raiz_do_heap(s: Seq<Candidato>, i: int)
    requires
        eh_heap(s),
        0 <= i < s.len(),
    ensures
        !s[i].precede(s[0]),
    decreases i,
{
    if i > 0 {
        assert(nao_precede(s, i, pai(i)));
        lemma_raiz_do_heap(s, pai(i));
    }
}

/// Exchanging two positions of a sequence keeps its multiset.
pub proof fn lemma_troca_multiconjunto(s: Seq<Candidato>, a: int, b: int)
    requires
        0 <= a < s.len(),
        0 <= b < s.len(),
    ensures
        s.update(a, s[b]).update(b, s[a]).to_multiset() == s.to_multiset(),
{
    broadcast use group_to_multiset_ensures;

    let t = s.update(a, s[b]);
    assert(s.contains(s[a]));
    assert(s.contains(s[b]));
    assert(t.update(b, s[a]).to_multiset() =~= s.to_multiset());
}

/// A min-heap of candidates.
pub struct FilaMinima {
    itens: Vec<Candidato>,
}

impl View for FilaMinima {
    type V = Multiset<Candidato>;

    /// The candidates in the queue, each as often as it was inserted and not
    /// yet extracted.
    closed spec fn view(&self) -> Multiset<Candidato> {
        self.itens@.to_multiset()
    }
}

impl FilaMinima {
    /// The representation invariant: the vector is in heap order.
    pub closed spec fn bem_formada(&self) -> bool {
        eh_heap(self.itens@)
    }

    /// An empty queue.
    pub fn nova() -> (fila: FilaMinima)
        ensures
            fila.bem_formada(),
            fila@ == Multiset::<Candidato>::empty(),
    {
        let fila = FilaMinima { itens: Vec::new() };
        proof {
            broadcast use group_to_multiset_ensures;

            assert(fila.itens@.to_multiset() =~= Multiset::<Candidato>::empty());
        }
        fila
    }

    /// The number of candidates in the queue.
    pub fn len(&self) -> (n: usize)
        ensures
            n == self@.len(),
    {
        proof {
            broadcast use group_to_multiset_ensures;

        }
        self.itens.len()
    }

    /// Exchanges the candidates at positions `a` and `b`.
    fn trocar(&mut self, a: usize, b: usize)
        requires
            a < old(self).itens@.len(),
            b < old(self).itens@.len(),
        ensures
            final(self).itens@ == old(self).itens@.update(a as int, old(self).itens@[b as int]).update(
                b as int,
                old(self).itens@[a as int],
            ),
            final(self)@ == old(self)@,
    {
        proof {
            lemma_troca_multiconjunto(self.itens@, a as int, b as int);
        }
        let x: Candidato = self.itens[a];
        let y: Candidato = self.itens[b];
        self.itens[a] = y;
        self.itens[b] = x;
    }

    /// Adds a candidate to the queue.
    pub fn inserir(&mut self, c: Candidato)
        requires
            old(self).bem_formada(),
        ensures
            final(self).bem_formada(),
            final(self)@ == old(self)@.insert(c),
    {
        self.itens.push(c);
        proof {
            broadcast use group_to_multiset_ensures;

        }
        let mut pos: usize = self.itens.len() - 1;
        let mut subindo: bool = true;
        assert forall|i: int| 0 < i < self.itens@.len() && i != pos implies #[trigger] nao_precede(
            self.itens@,
            i,
            pai(i),
        ) by {
            assert(nao_precede(old(self).itens@, i, pai(i)));
        }
        while pos > 0 && subindo
            invariant
                pos < self.itens@.len(),
                self@ == old(self)@.insert(c),
                forall|i: int|
                    0 < i < self.itens@.len() && (i != pos || !subindo) ==> #[trigger] nao_precede(
                        self.itens@,
                        i,
                        pai(i),
                    ),
                forall|i: int|
                    0 < i < self.itens@.len() && pai(i) == pos && pos > 0 ==> #[trigger] nao_precede(
                        self.itens@,
                        i,
                        pai(pos as int),
                    ),
            decreases pos + (if subindo { 1int } else { 0int }),
        {
            let acima: usize = (pos - 1) / 2;
            if self.itens[pos].vem_antes(&self.itens[acima]) {
                let ghost antes = self.itens@;
                self.trocar(pos, acima);
                proof {
                    let depois = self.itens@;
                    assert forall|i: int| 0 < i < depois.len() && i != acima implies #[trigger] nao_precede(
                        depois,
                        i,
                        pai(i),
                    ) by {
                        if i == pos {
                        } else if pai(i) == pos {
                            assert(nao_precede(antes, i, pai(pos as int)));
                        } else {
                            assert(nao_precede(antes, i, pai(i)));
                        }
                    }
                    assert forall|i: int|
                        0 < i < depois.len() && pai(i) == acima && acima > 0 implies #[trigger] nao_precede(
                        depois,
                        i,
                        pai(acima as int),
                    ) by {
                        assert(nao_precede(antes, acima as int, pai(acima as int)));
                        if i != pos {
                            assert(nao_precede(antes, i, pai(i)));
                        }
                    }
                }
                pos = acima;
            } else {
                subindo = false;
            }
        }
    }

    /// Takes out the candidate that precedes all others, if there is any.
    pub fn extrair_minimo(&mut self) -> (r: Option<Candidato>)
        requires
            old(self).bem_formada(),
        ensures
            final(self).bem_formada(),
            match r {
                None => old(self)@.len() == 0 && final(self)@ == old(self)@,
                Some(c) => {
                    &&& old(self)@.contains(c)
                    &&& final(self)@ == old(self)@.remove(c)
                    &&& forall|x: Candidato| old(self)@.contains(x) ==> !x.precede(c)
                },
            },
    {
        proof {
            broadcast use group_to_multiset_ensures;

        }
        if self.itens.len() == 0 {
            return None;
        }
        let ghost inicio = self.itens@;
        let menor: Candidato = self.itens.swap_remove(0);
        proof {
            assert(inicio.contains(menor));
            assert forall|x: Candidato| inicio.to_multiset().contains(x) implies !x.precede(
                menor,
            ) by {
                let i = choose|i: int| 0 <= i < inicio.len() && inicio[i] == x;
                lemma_raiz_do_heap(inicio, i);
            }
            let t = inicio.update(0, inicio.last());
            assert(self.itens@ == t.remove(t.len() - 1));
            assert(inicio.contains(inicio.last()));
            assert(self.itens@.to_multiset() =~= inicio.to_multiset().remove(menor));
            assert forall|i: int| 0 < i < self.itens@.len() && pai(i) != 0 implies #[trigger] nao_precede(
                self.itens@,
                i,
                pai(i),
            ) by {
                assert(nao_precede(inicio, i, pai(i)));
            }
        }
        let n: usize = self.itens.len();
        let mut pos: usize = 0;
        let mut descendo: bool = true;
        while pos < n / 2 && descendo
            invariant
                n == self.itens@.len(),
                pos < n || n == 0,
                self@ == inicio.to_multiset().remove(menor),
                forall|i: int|
                    0 < i < n && (pai(i) != pos || !descendo) ==> #[trigger] nao_precede(
                        self.itens@,
                        i,
                        pai(i),
                    ),
                forall|i: int|
                    0 < i < n && pai(i) == pos && pos > 0 ==> #[trigger] nao_precede(
                        self.itens@,
                        i,
                        pai(pos as int),
                    ),
            decreases n - pos + (if descendo { 1int } else { 0int }),
        {
            let esquerdo: usize = 2 * pos + 1;
            let direito: usize = esquerdo + 1;
            let mut filho: usize = esquerdo;
            if direito < n && self.itens[direito].vem_antes(&self.itens[esquerdo]) {
                filho = direito;
            }
            let ghost antes = self.itens@;
            if self.itens[filho].vem_antes(&self.itens[pos]) {
                self.trocar(pos, filho);
                proof {
                    let depois = self.itens@;
                    assert forall|i: int| 0 < i < n && pai(i) != filho implies #[trigger] nao_precede(
                        depois,
                        i,
                        pai(i),
                    ) by {
                        if i == pos {
                            assert(nao_precede(antes, filho as int, pai(pos as int)));
                        } else if pai(i) == pos {
                        } else {
                            assert(nao_precede(antes, i, pai(i)));
                        }
                    }
                    assert forall|i: int| 0 < i < n && pai(i) == filho implies #[trigger] nao_precede(
                        depois,
                        i,
                        pai(filho as int),
                    ) by {
                        assert(nao_precede(antes, i, pai(i)));
                    }
                }
                pos = filho;
            } else {
                descendo = false;
            }
        }
        Some(menor)
    }
}

} // verus!
