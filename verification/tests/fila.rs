use knn::fila::{Candidato, FilaMinima};
use knn::selecao::selecionar;
use knn::votacao::{apurar, rotulo_majoritario, Contagem};

fn candidato(distancia: u128, indice: usize) -> Candidato {
    Candidato { distancia, indice }
}

fn votos(rotulos: &[&str]) -> Vec<String> {
    rotulos.iter().map(|r| r.to_string()).collect()
}

#[test]
fn vem_antes_compara_distancia_e_depois_posicao() {
    assert!(candidato(1, 9).vem_antes(&candidato(2, 0)));
    assert!(!candidato(2, 0).vem_antes(&candidato(1, 9)));
    assert!(candidato(5, 1).vem_antes(&candidato(5, 2)));
    assert!(!candidato(5, 2).vem_antes(&candidato(5, 1)));
    assert!(!candidato(5, 2).vem_antes(&candidato(5, 2)));
}

#[test]
fn fila_vazia_nao_entrega_nada() {
    let mut fila = FilaMinima::nova();
    assert_eq!(fila.len(), 0);
    assert_eq!(fila.extrair_minimo(), None);
    assert_eq!(fila.len(), 0);
}

#[test]
fn fila_entrega_em_ordem_crescente_de_distancia() {
    let mut fila = FilaMinima::nova();
    let distancias: [u128; 9] = [50, 3, 77, 3, 0, 12, 100, 1, 12];
    for (i, d) in distancias.iter().enumerate() {
        fila.inserir(candidato(*d, i));
        assert_eq!(fila.len(), i + 1);
    }
    let esperados = [
        candidato(0, 4),
        candidato(1, 7),
        candidato(3, 1),
        candidato(3, 3),
        candidato(12, 5),
        candidato(12, 8),
        candidato(50, 0),
        candidato(77, 2),
        candidato(100, 6),
    ];
    for (i, e) in esperados.iter().enumerate() {
        assert_eq!(fila.extrair_minimo(), Some(*e));
        assert_eq!(fila.len(), esperados.len() - i - 1);
    }
    assert_eq!(fila.extrair_minimo(), None);
}

#[test]
fn fila_guarda_candidatos_repetidos() {
    let mut fila = FilaMinima::nova();
    fila.inserir(candidato(4, 0));
    fila.inserir(candidato(4, 0));
    fila.inserir(candidato(2, 1));
    assert_eq!(fila.extrair_minimo(), Some(candidato(2, 1)));
    assert_eq!(fila.extrair_minimo(), Some(candidato(4, 0)));
    assert_eq!(fila.extrair_minimo(), Some(candidato(4, 0)));
    assert_eq!(fila.extrair_minimo(), None);
}

#[test]
fn fila_intercala_insercoes_e_extracoes() {
    let mut fila = FilaMinima::nova();
    fila.inserir(candidato(9, 0));
    fila.inserir(candidato(5, 1));
    assert_eq!(fila.extrair_minimo(), Some(candidato(5, 1)));
    fila.inserir(candidato(7, 2));
    fila.inserir(candidato(11, 3));
    assert_eq!(fila.extrair_minimo(), Some(candidato(7, 2)));
    assert_eq!(fila.extrair_minimo(), Some(candidato(9, 0)));
    assert_eq!(fila.extrair_minimo(), Some(candidato(11, 3)));
}

#[test]
fn fila_ordena_muitos_candidatos() {
    let mut fila = FilaMinima::nova();
    let mut semente: u64 = 12345;
    let mut esperados: Vec<(u128, usize)> = Vec::new();
    for i in 0..500 {
        semente = semente.wrapping_mul(6364136223846793005).wrapping_add(1442695040888963407);
        let d = (semente >> 40) as u128 % 200;
        fila.inserir(candidato(d, i));
        esperados.push((d, i));
    }
    esperados.sort();
    for (d, i) in esperados {
        assert_eq!(fila.extrair_minimo(), Some(candidato(d, i)));
    }
    assert_eq!(fila.len(), 0);
}

#[test]
fn selecionar_entrega_os_mais_proximos_em_ordem() {
    let distancias: [u128; 6] = [40, 10, 30, 20, 60, 50];
    assert_eq!(selecionar(&distancias, 1), vec![1]);
    assert_eq!(selecionar(&distancias, 3), vec![1, 3, 2]);
    assert_eq!(selecionar(&distancias, 6), vec![1, 3, 2, 0, 5, 4]);
}

#[test]
fn selecionar_com_k_zero_nao_escolhe_ninguem() {
    let distancias: [u128; 3] = [3, 2, 1];
    assert_eq!(selecionar(&distancias, 0), Vec::<usize>::new());
    assert_eq!(selecionar(&[], 4), Vec::<usize>::new());
}

#[test]
fn selecionar_com_k_maior_que_o_conjunto_escolhe_todos() {
    let distancias: [u128; 3] = [3, 2, 1];
    assert_eq!(selecionar(&distancias, 3), vec![2, 1, 0]);
    assert_eq!(selecionar(&distancias, 4), vec![2, 1, 0]);
    assert_eq!(selecionar(&distancias, usize::MAX), vec![2, 1, 0]);
}

#[test]
fn selecionar_desempata_pela_posicao() {
    let distancias: [u128; 5] = [7, 7, 1, 7, 7];
    assert_eq!(selecionar(&distancias, 2), vec![2, 0]);
    assert_eq!(selecionar(&distancias, 3), vec![2, 0, 1]);
    assert_eq!(selecionar(&distancias, 5), vec![2, 0, 1, 3, 4]);
}

#[test]
fn apurar_conta_na_ordem_de_chegada() {
    let t = apurar(&votos(&["B", "A", "B", "C", "A", "B"]));
    assert_eq!(
        t,
        vec![
            Contagem { primeiro: 0, votos: 3 },
            Contagem { primeiro: 1, votos: 2 },
            Contagem { primeiro: 3, votos: 1 },
        ]
    );
    assert_eq!(apurar(&votos(&[])), Vec::<Contagem>::new());
}

#[test]
fn rotulo_majoritario_e_o_mais_votado() {
    assert_eq!(rotulo_majoritario(&votos(&["A", "B", "B"])), Some(String::from("B")));
    assert_eq!(rotulo_majoritario(&votos(&["A"])), Some(String::from("A")));
    assert_eq!(
        rotulo_majoritario(&votos(&["x", "y", "z", "y", "z", "z"])),
        Some(String::from("z"))
    );
}

#[test]
fn rotulo_majoritario_sem_votos() {
    assert_eq!(rotulo_majoritario(&votos(&[])), None);
}

#[test]
fn rotulo_majoritario_desempata_pelo_primeiro_voto() {
    assert_eq!(rotulo_majoritario(&votos(&["B", "A"])), Some(String::from("B")));
    assert_eq!(rotulo_majoritario(&votos(&["A", "B"])), Some(String::from("A")));
    assert_eq!(
        rotulo_majoritario(&votos(&["C", "B", "A", "A", "B"])),
        Some(String::from("B"))
    );
    assert_eq!(
        rotulo_majoritario(&votos(&["C", "A", "B", "B", "A", "C"])),
        Some(String::from("C"))
    );
}
