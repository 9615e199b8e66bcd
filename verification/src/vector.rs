//! Vector-search vocabulary: distance metrics and the shape of product
//! quantization. The arithmetic on vectors themselves is done outside the
//! verified library.

use vstd::prelude::*;

verus! {

/// Supported distance metrics for vector similarity.
#[derive(Debug, Clone, Copy, PartialEq, Eq, Hash, Structural)]
pub enum DistanceMetric {
    /// Most common for embeddings.
    Cosine,
    /// L2 distance.
    Euclidean,
    /// For normalized embeddings.
    DotProduct,
    /// L1 distance.
    Manhattan,
    /// For binary embeddings.
    Hamming,
    /// For set similarity.
    Jaccard,
}

/// Product quantization: vectors are split into equal subspaces, each
/// coded by one of its centroids.
#[derive(Debug)]
pub struct ProductQuantizer {
    pub num_subspaces: usize,
    pub centroids_per_space: usize,
    pub subspace_dim: usize,
}

impl ProductQuantizer {
    /// A quantizer for `dim`-dimensional vectors; the dimension must split
    /// evenly into the subspaces.
    pub fn new(dim: usize, num_subspaces: usize, centroids_per_space: usize) -> (q: ProductQuantizer)
        requires
            num_subspaces > 0,
            dim % num_subspaces == 0,
        ensures
            q.num_subspaces == num_subspaces,
            q.centroids_per_space == centroids_per_space,
            q.subspace_dim == dim / num_subspaces,
            q.subspace_dim * num_subspaces == dim,
    {
        proof {
            vstd::arithmetic::div_mod::lemma_fundamental_div_mod(dim as int, num_subspaces as int);
            vstd::arithmetic::mul::lemma_mul_is_commutative(num_subspaces as int, (dim / num_subspaces) as int);
        }
        ProductQuantizer { num_subspaces, centroids_per_space, subspace_dim: dim / num_subspaces }
    }
}

} // verus!
