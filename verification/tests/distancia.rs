use knn::erro::KnnError;
use knn::ponto::{distancia_euclidiana, distancia_quadrada, Ponto};
use knn::raiz::{calcular_k, raiz_quadrada};

fn ponto(caracteristicas: &[i32]) -> Ponto {
    Ponto::novo(caracteristicas.to_vec(), String::from("x"))
}

#[test]
fn novo_guarda_caracteristicas_e_rotulo() {
    let p = Ponto::novo(vec![4, -8], String::from("Desconhecido"));
    assert_eq!(p.caracteristicas, vec![4, -8]);
    assert_eq!(p.rotulo, "Desconhecido");
}

#[test]
fn distancia_de_um_ponto_a_si_mesmo_e_zero() {
    for p in [ponto(&[]), ponto(&[7]), ponto(&[1, 2, 3]), ponto(&[i32::MIN, i32::MAX])] {
        assert_eq!(distancia_quadrada(&p, &p), Ok(0));
        assert_eq!(distancia_euclidiana(&p, &p), Ok(0));
    }
}

#[test]
fn distancia_e_simetrica() {
    let a = ponto(&[1, -5, 900]);
    let b = ponto(&[-40, 12, 3]);
    assert_eq!(distancia_quadrada(&a, &b), distancia_quadrada(&b, &a));
    assert_eq!(distancia_euclidiana(&a, &b), distancia_euclidiana(&b, &a));
    assert_eq!(distancia_quadrada(&a, &b), Ok(41 * 41 + 17 * 17 + 897 * 897));
}

#[test]
fn distancia_com_coordenadas_negativas_nao_e_negativa() {
    let a = ponto(&[-3, 0]);
    let b = ponto(&[0, -4]);
    assert_eq!(distancia_quadrada(&a, &b), Ok(25));
    assert_eq!(distancia_euclidiana(&a, &b), Ok(5));
}

#[test]
fn distancia_euclidiana_arredonda_para_baixo() {
    let origem = ponto(&[0, 0]);
    assert_eq!(distancia_quadrada(&origem, &ponto(&[1, 1])), Ok(2));
    assert_eq!(distancia_euclidiana(&origem, &ponto(&[1, 1])), Ok(1));
    assert_eq!(distancia_euclidiana(&origem, &ponto(&[2, 2])), Ok(2));
    assert_eq!(distancia_euclidiana(&origem, &ponto(&[3, 4])), Ok(5));
    assert_eq!(distancia_euclidiana(&origem, &ponto(&[10, 10])), Ok(14));
}

#[test]
fn distancia_entre_os_extremos_nao_transborda() {
    let a = ponto(&[i32::MIN, i32::MAX, i32::MIN]);
    let b = ponto(&[i32::MAX, i32::MIN, i32::MAX]);
    let lado: u128 = 4294967295;
    assert_eq!(distancia_quadrada(&a, &b), Ok(3 * lado * lado));
    assert_eq!(distancia_euclidiana(&a, &b), Ok(7439101571));
}

#[test]
fn dimensoes_diferentes_falham() {
    let a = ponto(&[1, 2]);
    let b = ponto(&[1, 2, 3]);
    assert_eq!(distancia_euclidiana(&a, &b), Err(KnnError::DimensionMismatch));
    assert_eq!(distancia_euclidiana(&b, &a), Err(KnnError::DimensionMismatch));
    assert_eq!(distancia_quadrada(&a, &b), Err(KnnError::DimensionMismatch));
    assert_eq!(distancia_quadrada(&ponto(&[]), &ponto(&[0])), Err(KnnError::DimensionMismatch));
}

#[test]
fn raiz_quadrada_arredonda_para_baixo() {
    let casos: [(u128, u64); 12] = [
        (0, 0),
        (1, 1),
        (2, 1),
        (3, 1),
        (4, 2),
        (15, 3),
        (16, 4),
        (17, 4),
        (99, 9),
        (1 << 64, 1 << 32),
        ((1 << 64) - 1, (1 << 32) - 1),
        (u128::MAX, u64::MAX),
    ];
    for (n, r) in casos {
        assert_eq!(raiz_quadrada(n), r);
    }
}

#[test]
fn calcular_k_e_a_raiz_arredondada_para_cima() {
    let casos: [(usize, usize); 12] = [
        (0, 0),
        (1, 1),
        (2, 2),
        (3, 2),
        (4, 2),
        (5, 3),
        (9, 3),
        (10, 4),
        (16, 4),
        (17, 5),
        (100, 10),
        (101, 11),
    ];
    for (n, k) in casos {
        assert_eq!(calcular_k(n), k);
    }
}

#[test]
fn calcular_k_do_maior_tamanho() {
    let k = calcular_k(usize::MAX) as u128;
    assert!(k * k >= usize::MAX as u128);
    assert!((k - 1) * (k - 1) < usize::MAX as u128);
}

#[test]
fn mensagens_dos_erros() {
    assert_eq!(KnnError::DimensionMismatch.mensagem(), "feature vectors differ in length");
    assert_eq!(KnnError::EmptyTrainingSet.mensagem(), "the training set is empty");
    assert_eq!(
        KnnError::InvalidK.mensagem(),
        "the number of neighbours must be at least one"
    );
}
