//! The selection of the nearest neighbours.
//!
//! Training points are named by their positions. A point comes before another
//! when it is nearer to the query, or equally near and earlier in the training
//! set; this orders any two distinct points, so the selection is the same for
//! equal inputs.

use crate::fila::{Candidato, FilaMinima};
use vstd::prelude::*;
use vstd::seq_lib::group_to_multiset_ensures;

verus! {

/// Point `i` comes before point `j` in order of nearness.
pub open spec fn mais_perto(d: Seq<u128>, i: int, j: int) -> bool {
    d[i] < d[j] || (d[i] == d[j] && i < j)
}

/// `s` lists points of `d`, nearest first, and every point that it leaves out
/// comes after every point that it lists.
pub open spec fn eh_selecao(d: Seq<u128>, s: Seq<int>) -> bool {
    &&& forall|a: int| 0 <= a < s.len() ==> 0 <= #[trigger] s[a] < d.len()
    &&& forall|a: int, b: int| 0 <= a < b < s.len() ==> #[trigger] mais_perto(d, s[a], s[b])
    &&& forall|a: int, i: int|
        0 <= a < s.len() && 0 <= i < d.len() && !s.contains(i) ==> #[trigger] mais_perto(
            d,
            s[a],
            i,
        )
}

/// The sorted list `s` with the point `x` put in its place.
pub open spec fn inserir_em_ordem(d: Seq<u128>, s: Seq<int>, x: int) -> Seq<int>
    decreases s.len(),
{
    if s.len() == 0 {
        seq![x]
    } else if mais_perto(d, s.last(), x) {
        s.push(x)
    } else {
        inserir_em_ordem(d, s.drop_last(), x).push(s.last())
    }
}

/// The first `n` points of `d`, nearest first.
pub open spec fn por_proximidade(d: Seq<u128>, n: nat) -> Seq<int>
    decreases n,
{
    if n == 0 {
        Seq::empty()
    } else {
        inserir_em_ordem(d, por_proximidade(d, (n - 1) as nat), n - 1)
    }
}

/// How many neighbours are selected when `k` are asked for: `k`, or all the
/// points where there are fewer.
pub open spec fn quantos(d: Seq<u128>, k: nat) -> nat {
    if k <= d.len() {
        k
    } else {
        d.len()
    }
}

/// The `k` nearest points of `d`, nearest first.
pub open spec fn mais_proximos(d: Seq<u128>, k: nat) -> Seq<int> {
    por_proximidade(d, d.len()).take(quantos(d, k) as int)
}

/// `s` is in order of nearness and holds points of `d` only.
pub open spec fn em_ordem(d: Seq<u128>, s: Seq<int>) -> bool {
    &&& forall|a: int| 0 <= a < s.len() ==> 0 <= #[trigger] s[a] < d.len()
    &&& forall|a: int, b: int| 0 <= a < b < s.len() ==> #[trigger] mais_perto(d, s[a], s[b])
}

/// Putting a new point in its place keeps the order and adds that point only.
pub proof fn lemma_inserir_em_ordem(d: Seq<u128>, s: Seq<int>, x: int)
    requires
        em_ordem(d, s),
        0 <= x < d.len(),
        !s.contains(x),
    ensures
        em_ordem(d, inserir_em_ordem(d, s, x)),
        inserir_em_ordem(d, s, x).len() == s.len() + 1,
        forall|y: int| inserir_em_ordem(d, s, x).contains(y) <==> s.contains(y) || y == x,
    decreases s.len(),
{
    let r = inserir_em_ordem(d, s, x);
    if s.len() == 0 {
        assert(r[0] == x);
        assert forall|y: int| r.contains(y) <==> s.contains(y) || y == x by {
            if r.contains(y) {
                let a = choose|a: int| 0 <= a < r.len() && r[a] == y;
            }
        }
    } else if mais_perto(d, s.last(), x) {
        assert forall|a: int, b: int| 0 <= a < b < r.len() implies #[trigger] mais_perto(
            d,
            r[a],
            r[b],
        ) by {
            if b == s.len() {
                if a < s.len() - 1 {
                    assert(mais_perto(d, s[a], s[s.len() - 1]));
                }
            } else {
                assert(mais_perto(d, s[a], s[b]));
            }
        }
        assert forall|y: int| r.contains(y) <==> s.contains(y) || y == x by {
            if r.contains(y) {
                let a = choose|a: int| 0 <= a < r.len() && r[a] == y;
                if a < s.len() {
                    assert(s[a] == y);
                }
            }
            if s.contains(y) {
                let a = choose|a: int| 0 <= a < s.len() && s[a] == y;
                assert(r[a] == y);
            }
            if y == x {
                assert(r[s.len() as int] == x);
            }
        }
    } else {
        let t = s.drop_last();
        let u = inserir_em_ordem(d, t, x);
        assert(em_ordem(d, t)) by {
            assert forall|a: int, b: int| 0 <= a < b < t.len() implies #[trigger] mais_perto(
                d,
                t[a],
                t[b],
            ) by {
                assert(mais_perto(d, s[a], s[b]));
            }
        }
        assert(!t.contains(x)) by {
            if t.contains(x) {
                let a = choose|a: int| 0 <= a < t.len() && t[a] == x;
                assert(s[a] == x);
            }
        }
        lemma_inserir_em_ordem(d, t, x);
        assert(s[s.len() - 1] != x);
        assert forall|a: int, b: int| 0 <= a < b < r.len() implies #[trigger] mais_perto(
            d,
            r[a],
            r[b],
        ) by {
            if b == u.len() {
                assert(u.contains(u[a]));
                if t.contains(u[a]) {
                    let c = choose|c: int| 0 <= c < t.len() && t[c] == u[a];
                    assert(mais_perto(d, s[c], s[s.len() - 1]));
                }
            } else {
                assert(mais_perto(d, u[a], u[b]));
            }
        }
        assert forall|y: int| r.contains(y) <==> s.contains(y) || y == x by {
            if r.contains(y) {
                let a = choose|a: int| 0 <= a < r.len() && r[a] == y;
                if a < u.len() {
                    assert(u.contains(y));
                    if t.contains(y) {
                        let c = choose|c: int| 0 <= c < t.len() && t[c] == y;
                        assert(s[c] == y);
                    }
                } else {
                    assert(s[s.len() - 1] == y);
                }
            }
            if s.contains(y) {
                let a = choose|a: int| 0 <= a < s.len() && s[a] == y;
                if a < t.len() {
                    assert(t[a] == y);
                    assert(t.contains(y));
                    assert(u.contains(y));
                    let c = choose|c: int| 0 <= c < u.len() && u[c] == y;
                    assert(r[c] == y);
                } else {
                    assert(r[u.len() as int] == y);
                }
            }
            if y == x {
                assert(u.contains(x));
                let c = choose|c: int| 0 <= c < u.len() && u[c] == x;
                assert(r[c] == x);
            }
        }
    }
}

/// `por_proximidade(d, n)` lists each of the first `n` points once, in order
/// of nearness.
pub proof fn lemma_por_proximidade(d: Seq<u128>, n: nat)
    requires
        n <= d.len(),
    ensures
        em_ordem(d, por_proximidade(d, n)),
        por_proximidade(d, n).len() == n,
        forall|y: int| por_proximidade(d, n).contains(y) <==> 0 <= y < n,
    decreases n,
{
    if n == 0 {
        assert forall|y: int| !por_proximidade(d, n).contains(y) by {
            if por_proximidade(d, n).contains(y) {
                let a = choose|a: int|
                    0 <= a < por_proximidade(d, n).len() && por_proximidade(d, n)[a] == y;
            }
        }
    } else {
        let p = por_proximidade(d, (n - 1) as nat);
        lemma_por_proximidade(d, (n - 1) as nat);
        assert(!p.contains(n - 1));
        lemma_inserir_em_ordem(d, p, n - 1);
        assert forall|y: int| por_proximidade(d, n).contains(y) <==> 0 <= y < n by {
            assert(inserir_em_ordem(d, p, n - 1).contains(y) <==> p.contains(y) || y == n - 1);
            assert(p.contains(y) <==> 0 <= y < n - 1);
        }
    }
}

/// `mais_proximos(d, k)` is a selection of `quantos(d, k)` points.
pub proof fn lemma_mais_proximos(d: Seq<u128>, k: nat)
    ensures
        eh_selecao(d, mais_proximos(d, k)),
        mais_proximos(d, k).len() == quantos(d, k),
{
    let p = por_proximidade(d, d.len());
    let m = quantos(d, k) as int;
    let s = mais_proximos(d, k);
    lemma_por_proximidade(d, d.len());
    assert forall|a: int, b: int| 0 <= a < b < s.len() implies #[trigger] mais_perto(
        d,
        s[a],
        s[b],
    ) by {
        assert(mais_perto(d, p[a], p[b]));
    }
    assert forall|a: int, i: int|
        0 <= a < s.len() && 0 <= i < d.len() && !s.contains(i) implies #[trigger] mais_perto(
        d,
        s[a],
        i,
    ) by {
        assert(p.contains(i));
        let c = choose|c: int| 0 <= c < p.len() && p[c] == i;
        if c < m {
            assert(s[c] == i);
        }
        assert(mais_perto(d, p[a], p[c]));
    }
}

/// Two selections agree at every position that both have.
pub proof fn lemma_selecao_coincide(d: Seq<u128>, s1: Seq<int>, s2: Seq<int>, a: int)
    requires
        eh_selecao(d, s1),
        eh_selecao(d, s2),
        0 <= a < s1.len(),
        a < s2.len(),
    ensures
        s1[a] == s2[a],
    decreases a,
{
    if s1[a] != s2[a] {
        if mais_perto(d, s1[a], s2[a]) {
            lemma_antes_ja_listado(d, s1, s2, a);
            let c = choose|c: int| 0 <= c < a && s2[c] == s1[a];
            lemma_selecao_coincide(d, s1, s2, c);
            assert(mais_perto(d, s1[c], s1[a]));
        } else {
            lemma_antes_ja_listado(d, s2, s1, a);
            let c = choose|c: int| 0 <= c < a && s1[c] == s2[a];
            lemma_selecao_coincide(d, s1, s2, c);
            assert(mais_perto(d, s2[c], s2[a]));
        }
    }
}

/// A point that `s1` lists at position `a`, and that comes before the point
/// that `s2` lists there, is listed by `s2` at an earlier position.
proof fn lemma_antes_ja_listado(d: Seq<u128>, s1: Seq<int>, s2: Seq<int>, a: int)
    requires
        eh_selecao(d, s1),
        eh_selecao(d, s2),
        0 <= a < s1.len(),
        a < s2.len(),
        mais_perto(d, s1[a], s2[a]),
    ensures
        exists|c: int| 0 <= c < a && s2[c] == s1[a],
{
    let x = s1[a];
    if s2.contains(x) {
        let c = choose|c: int| 0 <= c < s2.len() && s2[c] == x;
        if c > a {
            assert(mais_perto(d, s2[a], s2[c]));
        }
        assert(0 <= c < a && s2[c] == s1[a]);
    } else {
        assert(mais_perto(d, s2[a], x));
    }
}

/// There is one selection of each length only.
pub proof fn lemma_selecao_unica(d: Seq<u128>, s1: Seq<int>, s2: Seq<int>)
    requires
        eh_selecao(d, s1),
        eh_selecao(d, s2),
        s1.len() == s2.len(),
    ensures
        s1 == s2,
{
    assert forall|a: int| 0 <= a < s1.len() implies s1[a] == s2[a] by {
        lemma_selecao_coincide(d, s1, s2, a);
    }
    assert(s1 =~= s2);
}

/// The points of `d` as candidates for selection: each with its distance.
pub open spec fn candidatos(d: Seq<u128>) -> Seq<Candidato> {
    Seq::new(d.len(), |i: int| Candidato { distancia: d[i], indice: i as usize })
}

/// A list of positions as a list of integers.
pub open spec fn posicoes(s: Seq<usize>) -> Seq<int> {
    s.map_values(|i: usize| i as int)
}

/// No candidate occurs twice among the candidates of `d`, and each names its
/// own position.
proof fn lemma_candidatos_distintos(d: Seq<u128>)
    requires
        d.len() <= usize::MAX,
    ensures
        candidatos(d).no_duplicates(),
        forall|c: Candidato| #[trigger]
            candidatos(d).to_multiset().count(c) > 0 ==> c.indice < d.len() && candidatos(
                d,
            )[c.indice as int] == c && candidatos(d).to_multiset().count(c) == 1,
{
    broadcast use group_to_multiset_ensures;

    let todos = candidatos(d);
    todos.lemma_multiset_has_no_duplicates();
    assert forall|c: Candidato| #[trigger] todos.to_multiset().count(c) > 0 implies c.indice
        < d.len() && todos[c.indice as int] == c && todos.to_multiset().count(c) == 1 by {
        assert(todos.contains(c));
        let j = choose|j: int| 0 <= j < todos.len() && todos[j] == c;
        assert(c.indice == j);
    }
}

/// Selects the `k` nearest of the points whose distances to the query are
/// `distancias`, nearest first; all of them where there are fewer than `k`.
///
/// Of two points at the same distance the one that stands earlier is nearer.
pub fn selecionar(distancias: &[u128], k: usize) -> (s: Vec<usize>)
    ensures
        posicoes(s@) == mais_proximos(distancias@, k as nat),
{
    let n: usize = distancias.len();
    let ghost d = distancias@;
    let ghost todos = candidatos(d);
    let mut fila = FilaMinima::nova();
    let mut i: usize = 0;
    proof {
        broadcast use group_to_multiset_ensures;

        assert(todos.take(0).to_multiset() =~= fila@);
    }
    while i < n
        invariant
            i <= n,
            n == d.len(),
            d == distancias@,
            todos == candidatos(d),
            fila.bem_formada(),
            fila@ == todos.take(i as int).to_multiset(),
        decreases n - i,
    {
        let c = Candidato { distancia: distancias[i], indice: i };
        proof {
            broadcast use group_to_multiset_ensures;

            assert(todos.take(i + 1) == todos.take(i as int).push(c));
        }
        fila.inserir(c);
        i = i + 1;
    }
    let m: usize = if k <= n {
        k
    } else {
        n
    };
    let mut s: Vec<usize> = Vec::new();
    let ghost mut tirados: Seq<Candidato> = Seq::empty();
    proof {
        broadcast use group_to_multiset_ensures;

        assert(todos.take(n as int) == todos);
        assert(tirados.to_multiset().add(fila@) =~= todos.to_multiset());
        lemma_candidatos_distintos(d);
    }
    while s.len() < m
        invariant
            s@.len() == tirados.len(),
            tirados.len() <= m <= n,
            n == d.len(),
            todos == candidatos(d),
            fila.bem_formada(),
            tirados.to_multiset().add(fila@) == todos.to_multiset(),
            forall|c: Candidato| #[trigger]
                todos.to_multiset().count(c) > 0 ==> c.indice < n && todos[c.indice as int] == c
                    && todos.to_multiset().count(c) == 1,
            forall|b: int| 0 <= b < s@.len() ==> (#[trigger] s@[b]) < n,
            forall|b: int| 0 <= b < tirados.len() ==> #[trigger] tirados[b] == todos[s@[b] as int],
            forall|b1: int, b2: int|
                0 <= b1 < b2 < tirados.len() ==> (#[trigger] tirados[b1]).precede(
                    #[trigger] tirados[b2],
                ),
            forall|b: int, x: Candidato|
                0 <= b < tirados.len() && #[trigger] fila@.contains(x) ==> (
                #[trigger] tirados[b]).precede(x),
        decreases m - s@.len(),
    {
        let ghost antes = fila@;
        let ghost lista = s@;
        proof {
            broadcast use group_to_multiset_ensures;

            assert(tirados.to_multiset().add(antes).len() == todos.len());
        }
        match fila.extrair_minimo() {
            Some(c) => {
                proof {
                    broadcast use group_to_multiset_ensures;

                    assert(tirados.to_multiset().add(antes).count(c) > 0);
                    assert(todos.to_multiset().count(c) == 1);
                    assert(antes.count(c) == 1);
                    assert(fila@.count(c) == 0);
                    assert(c.indice < n && todos[c.indice as int] == c);
                    assert(tirados.push(c).to_multiset().add(fila@) =~= todos.to_multiset());
                }
                s.push(c.indice);
                proof {
                    let novos = tirados.push(c);
                    assert forall|b: int, x: Candidato|
                        0 <= b < novos.len() && #[trigger] fila@.contains(x) implies (
                    #[trigger] novos[b]).precede(x) by {
                        assert(antes.count(x) >= fila@.count(x));
                        assert(antes.contains(x));
                        assert(x != c);
                        assert(!x.precede(c));
                        if b < tirados.len() {
                            assert(tirados[b].precede(x));
                        } else {
                            assert(novos[b] == c);
                        }
                    }
                    assert forall|b1: int, b2: int| 0 <= b1 < b2 < novos.len() implies (
                    #[trigger] novos[b1]).precede(#[trigger] novos[b2]) by {
                        if b2 == tirados.len() {
                            assert(antes.contains(c));
                            assert(tirados[b1].precede(c));
                        } else {
                            assert(tirados[b1].precede(tirados[b2]));
                        }
                    }
                    assert forall|b: int| 0 <= b < s@.len() implies (#[trigger] s@[b]) < n by {
                        if b < lista.len() {
                            assert(s@[b] == lista[b]);
                        }
                    }
                    assert forall|b: int| 0 <= b < novos.len() implies #[trigger] novos[b]
                        == todos[s@[b] as int] by {
                        if b < tirados.len() {
                            assert(s@[b] == lista[b]);
                            assert(tirados[b] == todos[lista[b] as int]);
                        }
                    }
                    tirados = novos;
                }
            },
            None => {
                // The queue still holds the candidates that were not taken out,
                // so this arm is never reached.
                return s;
            },
        }
    }
    proof {
        broadcast use group_to_multiset_ensures;

        let p = posicoes(s@);
        assert forall|a: int| 0 <= a < p.len() implies 0 <= #[trigger] p[a] < d.len() by {
            assert(tirados[a] == todos[s@[a] as int]);
        }
        assert forall|a: int, b: int| 0 <= a < b < p.len() implies #[trigger] mais_perto(
            d,
            p[a],
            p[b],
        ) by {
            assert(tirados[a].precede(tirados[b]));
        }
        assert forall|a: int, i: int|
            0 <= a < p.len() && 0 <= i < d.len() && !p.contains(i) implies #[trigger] mais_perto(
            d,
            p[a],
            i,
        ) by {
            let x = todos[i];
            assert(todos.contains(x));
            assert(tirados.to_multiset().add(fila@).count(x) > 0);
            if tirados.to_multiset().count(x) > 0 {
                assert(tirados.contains(x));
                let b = choose|b: int| 0 <= b < tirados.len() && tirados[b] == x;
                assert(tirados[b] == todos[s@[b] as int]);
                assert(p[b] == i);
            }
            assert(fila@.contains(x));
            assert(tirados[a].precede(x));
        }
        assert(eh_selecao(d, p));
        lemma_mais_proximos(d, k as nat);
        lemma_selecao_unica(d, p, mais_proximos(d, k as nat));
    }
    s
}

} // verus!
