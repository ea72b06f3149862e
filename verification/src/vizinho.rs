//! A training point as a neighbour of the query.

use std::cmp::Ordering;
use vstd::prelude::*;

verus! {

/// A neighbour of the query: how far it is from the query, and its label.
///
/// The distance is any measure that grows with the Euclidean distance; for
/// integer points it is the squared distance.
#[derive(Clone, Debug)]
pub struct Vizinho {
    pub distancia: u128,
    pub rotulo: String,
}

impl Vizinho {
    /// A neighbour at the given distance, with the given label.
    pub fn novo(distancia: u128, rotulo: String) -> (v: Vizinho)
        ensures
            v.distancia == distancia,
            v.rotulo == rotulo,
    {
        Vizinho { distancia, rotulo }
    }
}

impl PartialEq for Vizinho {
    /// Neighbours are equal when they are equally far from the query.
    fn eq(&self, outro: &Self) -> (igual: bool) {
        self.distancia == outro.distancia
    }
}

impl Eq for Vizinho {

}

impl vstd::std_specs::cmp::PartialEqSpecImpl for Vizinho {
    open spec fn obeys_eq_spec() -> bool {
        true
    }

    open spec fn eq_spec(&self, outro: &Self) -> bool {
        self.distancia == outro.distancia
    }
}

impl PartialOrd for Vizinho {
    /// Neighbours are ordered by their distance to the query, nearer first.
    fn partial_cmp(&self, outro: &Self) -> (ordem: Option<Ordering>) {
        if self.distancia < outro.distancia {
            Some(Ordering::Less)
        } else if self.distancia > outro.distancia {
            Some(Ordering::Greater)
        } else {
            Some(Ordering::Equal)
        }
    }
}

impl vstd::std_specs::cmp::PartialOrdSpecImpl for Vizinho {
    open spec fn obeys_partial_cmp_spec() -> bool {
        true
    }

    open spec fn partial_cmp_spec(&self, outro: &Self) -> Option<Ordering> {
        if self.distancia < outro.distancia {
            Some(Ordering::Less)
        } else if self.distancia > outro.distancia {
            Some(Ordering::Greater)
        } else {
            Some(Ordering::Equal)
        }
    }
}

/// The distances of a list of neighbours.
pub open spec fn distancias_de(vizinhos: Seq<Vizinho>) -> Seq<u128> {
    vizinhos.map_values(|v: Vizinho| v.distancia)
}

/// The labels of a list of neighbours.
pub open spec fn rotulos_dos_vizinhos(vizinhos: Seq<Vizinho>) -> Seq<Seq<char>> {
    vizinhos.map_values(|v: Vizinho| v.rotulo@)
}

} // verus!
