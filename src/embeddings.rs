//! The embedding model's identity and vector size.
use vstd::prelude::*;

verus! {

/// The vector size of the default embedding model.
pub const DEFAULT_EMBEDDING_DIMENSION: usize = 384;

/// An embedding model, named, with the dimension of the vectors it produces.
pub struct EmbeddingModel {
    model_name: String,
    dimension: usize,
}

impl EmbeddingModel {
    /// The model's name.
    pub closed spec fn name(&self) -> Seq<char> {
        self.model_name@
    }

    /// The dimension of its vectors.
    pub closed spec fn spec_dimension(&self) -> usize {
        self.dimension
    }

    /// A model of the given name, producing vectors of the default dimension.
    pub fn new(model_name: String) -> (m: Self)
        ensures
            m.name() == model_name@,
            m.spec_dimension() == DEFAULT_EMBEDDING_DIMENSION,
    {
        EmbeddingModel { model_name, dimension: DEFAULT_EMBEDDING_DIMENSION }
    }

    /// The model's name.
    pub fn model_name(&self) -> (n: &String)
        ensures
            n@ == self.name(),
    {
        &self.model_name
    }

    /// The dimension of the vectors the model produces.
    pub fn dimension(&self) -> (d: usize)
        ensures
            d == self.spec_dimension(),
    {
        self.dimension
    }

    /// Whether model weights are loaded; nothing loads them yet.
    pub fn is_loaded(&self) -> (r: bool)
        ensures
            !r,
    {
        false
    }
}

} // verus!
