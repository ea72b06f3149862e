use knn::classificador::{classificar, knn};
use knn::erro::KnnError;
use knn::ponto::Ponto;
use knn::vizinho::Vizinho;
use std::cmp::Ordering;

fn ponto(caracteristicas: &[i32], rotulo: &str) -> Ponto {
    Ponto::novo(caracteristicas.to_vec(), rotulo.to_string())
}

fn vizinhos(pares: &[(u128, &str)]) -> Vec<Vizinho> {
    pares.iter().map(|(d, r)| Vizinho::novo(*d, r.to_string())).collect()
}

/// Neighbours of a query among points with real-valued features, each with
/// the bits of its Euclidean distance as the measure of nearness.
fn vizinhos_reais(treinamento: &[(Vec<f64>, &str)], consulta: &[f64]) -> Vec<Vizinho> {
    treinamento
        .iter()
        .map(|(c, r)| {
            let soma: f64 = c.iter().zip(consulta.iter()).map(|(a, b)| (a - b).powi(2)).sum();
            Vizinho::novo((soma.sqrt() + 0.0).to_bits() as u128, r.to_string())
        })
        .collect()
}

#[test]
fn cenario_com_caracteristicas_reais() {
    let treinamento = vec![(vec![1.0, 1.0], "A"), (vec![1.0, 2.0], "A"), (vec![9.0, 9.0], "B")];
    let v = vizinhos_reais(&treinamento, &[1.0, 1.5]);
    assert_eq!(classificar(&v, 1), Ok(String::from("A")));
    assert_eq!(classificar(&v, 3), Ok(String::from("A")));
}

#[test]
fn cenario_em_ponto_fixo() {
    let treinamento = vec![ponto(&[10, 10], "A"), ponto(&[10, 20], "A"), ponto(&[90, 90], "B")];
    let consulta = ponto(&[10, 15], "");
    assert_eq!(knn(&treinamento, &consulta, 1), Ok(String::from("A")));
    assert_eq!(knn(&treinamento, &consulta, 3), Ok(String::from("A")));
}

#[test]
fn um_vizinho_entrega_o_rotulo_do_mais_proximo() {
    let treinamento = vec![
        ponto(&[0, 0], "longe"),
        ponto(&[50, 50], "perto"),
        ponto(&[100, 100], "longe"),
        ponto(&[-30, 80], "longe"),
    ];
    assert_eq!(knn(&treinamento, &ponto(&[49, 52], "?"), 1), Ok(String::from("perto")));
    assert_eq!(knn(&treinamento, &ponto(&[99, 97], "?"), 1), Ok(String::from("longe")));
    let v = vizinhos(&[(9, "a"), (4, "b"), (1, "c"), (16, "d")]);
    assert_eq!(classificar(&v, 1), Ok(String::from("c")));
}

#[test]
fn k_maior_que_o_conjunto_usa_todos_os_pontos() {
    let treinamento = vec![
        ponto(&[0], "A"),
        ponto(&[1], "B"),
        ponto(&[2], "B"),
        ponto(&[30], "A"),
        ponto(&[40], "A"),
    ];
    let consulta = ponto(&[1], "?");
    let com_todos = knn(&treinamento, &consulta, 5);
    assert_eq!(com_todos, Ok(String::from("A")));
    assert_eq!(knn(&treinamento, &consulta, 6), com_todos);
    assert_eq!(knn(&treinamento, &consulta, 1000), com_todos);
    assert_eq!(knn(&treinamento, &consulta, usize::MAX), com_todos);
    assert_eq!(knn(&treinamento, &consulta, 3), Ok(String::from("B")));
}

#[test]
fn maioria_clara_entre_os_mais_proximos_vence() {
    let v = vizinhos(&[(5, "B"), (1, "A"), (2, "B"), (3, "B"), (100, "A"), (101, "A"), (102, "A")]);
    assert_eq!(classificar(&v, 4), Ok(String::from("B")));
    assert_eq!(classificar(&v, 3), Ok(String::from("B")));
    assert_eq!(classificar(&v, 7), Ok(String::from("A")));
}

#[test]
fn chamadas_repetidas_dao_o_mesmo_resultado() {
    let treinamento = vec![
        ponto(&[3, 3], "A"),
        ponto(&[3, -3], "B"),
        ponto(&[-3, 3], "C"),
        ponto(&[-3, -3], "D"),
    ];
    let consulta = ponto(&[0, 0], "?");
    for k in 0..6 {
        let primeiro = knn(&treinamento, &consulta, k);
        for _ in 0..5 {
            assert_eq!(knn(&treinamento, &consulta, k), primeiro);
        }
    }
    assert_eq!(knn(&treinamento, &consulta, 4), Ok(String::from("A")));
}

#[test]
fn conjunto_vazio_falha() {
    assert_eq!(knn(&[], &ponto(&[1, 2], "?"), 1), Err(KnnError::EmptyTrainingSet));
    assert_eq!(knn(&[], &ponto(&[1, 2], "?"), 0), Err(KnnError::EmptyTrainingSet));
    assert_eq!(classificar(&[], 1), Err(KnnError::EmptyTrainingSet));
    assert_eq!(classificar(&[], 0), Err(KnnError::EmptyTrainingSet));
}

#[test]
fn k_zero_falha() {
    let treinamento = vec![ponto(&[1], "A")];
    assert_eq!(knn(&treinamento, &ponto(&[1], "?"), 0), Err(KnnError::InvalidK));
    assert_eq!(knn(&treinamento, &ponto(&[1, 2], "?"), 0), Err(KnnError::InvalidK));
    assert_eq!(classificar(&vizinhos(&[(1, "A")]), 0), Err(KnnError::InvalidK));
}

#[test]
fn dimensao_diferente_no_treinamento_falha() {
    let treinamento = vec![ponto(&[1, 1], "A"), ponto(&[1, 2, 3], "A"), ponto(&[9, 9], "B")];
    assert_eq!(knn(&treinamento, &ponto(&[1, 1], "?"), 1), Err(KnnError::DimensionMismatch));
    let treinamento = vec![ponto(&[1, 1], "A"), ponto(&[9, 9], "B")];
    assert_eq!(knn(&treinamento, &ponto(&[1], "?"), 2), Err(KnnError::DimensionMismatch));
}

#[test]
fn empate_de_votos_vai_para_o_rotulo_do_mais_proximo() {
    let v = vizinhos(&[(30, "A"), (10, "B"), (20, "C")]);
    assert_eq!(classificar(&v, 2), Ok(String::from("B")));
    assert_eq!(classificar(&v, 3), Ok(String::from("B")));
    let v = vizinhos(&[(1, "A"), (2, "B"), (3, "B"), (4, "A")]);
    assert_eq!(classificar(&v, 4), Ok(String::from("A")));
    assert_eq!(classificar(&v, 3), Ok(String::from("B")));
}

#[test]
fn empate_de_distancia_vai_para_o_ponto_anterior() {
    let v = vizinhos(&[(5, "B"), (5, "A"), (5, "C")]);
    assert_eq!(classificar(&v, 1), Ok(String::from("B")));
    let treinamento = vec![ponto(&[0, 2], "norte"), ponto(&[2, 0], "leste"), ponto(&[0, -2], "sul")];
    assert_eq!(knn(&treinamento, &ponto(&[0, 0], "?"), 1), Ok(String::from("norte")));
}

#[test]
fn knn_ordena_pela_distancia_e_nao_pela_raiz_arredondada() {
    let treinamento = vec![ponto(&[0, 3], "nove"), ponto(&[2, 2], "oito")];
    assert_eq!(knn(&treinamento, &ponto(&[0, 0], "?"), 1), Ok(String::from("oito")));
}

#[test]
fn knn_com_um_unico_ponto() {
    let treinamento = vec![ponto(&[i32::MAX, i32::MIN], "A")];
    let consulta = ponto(&[i32::MIN, i32::MAX], "?");
    assert_eq!(knn(&treinamento, &consulta, 1), Ok(String::from("A")));
    assert_eq!(knn(&treinamento, &consulta, 7), Ok(String::from("A")));
}

#[test]
fn vizinho_novo_guarda_distancia_e_rotulo() {
    let v = Vizinho::novo(42, String::from("A"));
    assert_eq!(v.distancia, 42);
    assert_eq!(v.rotulo, "A");
}

#[test]
fn vizinhos_comparam_pela_distancia() {
    let perto = Vizinho::novo(1, String::from("A"));
    let longe = Vizinho::novo(2, String::from("A"));
    let outro = Vizinho::novo(1, String::from("B"));
    assert!(perto == outro);
    assert!(perto != longe);
    assert!(perto < longe);
    assert!(longe > outro);
    assert_eq!(perto.partial_cmp(&longe), Some(Ordering::Less));
    assert_eq!(longe.partial_cmp(&perto), Some(Ordering::Greater));
    assert_eq!(perto.partial_cmp(&outro), Some(Ordering::Equal));
}
