//! Genetic-algorithm building blocks.
//!
//! A chromosome is a plain gene vector; the operators that act on
//! chromosomes are traits for users of the library to implement.

use vstd::prelude::*;

verus! {

/// An individual: an ordered vector of genes.
pub struct Chromosome<TGene> {
    genes: Vec<TGene>,
}

impl<TGene> Chromosome<TGene> {
    /// The genes carried.
    pub closed spec fn spec_genes(&self) -> Seq<TGene> {
        self.genes@
    }

    pub fn new(genes: Vec<TGene>) -> (r: Self)
        ensures
            r.spec_genes() == genes@,
    {
        Chromosome { genes }
    }

    /// Read-only view of the genes.
    pub fn genes(&self) -> (r: &Vec<TGene>)
        ensures
            r@ == self.spec_genes(),
    {
        &self.genes
    }
}

/// Recombination of two parents into offspring.
pub trait Crossover<TGene> {
    /// Run crossover, yielding (possibly) multiple offsprings.
    fn run(&self, chromosome1: &Chromosome<TGene>, chromosome2: &Chromosome<TGene>) -> Vec<
        Chromosome<TGene>,
    >;
}

/// Variation of a single chromosome.
pub trait Mutation<TGene> {
    fn run(&self, chromosome: &Chromosome<TGene>) -> Vec<Chromosome<TGene>>;
}

/// Survivor selection over a population.
pub trait Selection<TGene> {
    fn run(&self, population: &Vec<Chromosome<TGene>>) -> Vec<Chromosome<TGene>>;
}

} // verus!
