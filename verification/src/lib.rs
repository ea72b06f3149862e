//! Verified k-nearest-neighbours classification over integer feature vectors.
//!
//! A query point receives the label that wins a majority vote among its `k`
//! nearest labelled points. Every function here is proved against its contract,
//! and every contract is stated over sequences, naturals and the spec functions
//! of the module that owns it.

pub mod classificador;
pub mod erro;
pub mod fila;
pub mod ponto;
pub mod raiz;
pub mod selecao;
pub mod vizinho;
pub mod votacao;

pub use crate::classificador::{classificar, knn};
pub use crate::erro::KnnError;
pub use crate::ponto::{distancia_euclidiana, distancia_quadrada, Ponto};
pub use crate::raiz::calcular_k;
pub use crate::vizinho::Vizinho;
