use vstd::prelude::*;

verus! {

/// A vector of single-precision values, held as their IEEE-754 bit patterns.
#[derive(Debug, Clone, PartialEq, Eq)]
pub struct Vector(Vec<u32>);

impl View for Vector {
    type V = Seq<u32>;

    closed spec fn view(&self) -> Seq<u32> {
        self.0@
    }
}

impl Vector {
    /// Wraps the given values.
    pub fn new(data: Vec<u32>) -> (vector: Self)
        ensures
            vector@ == data@,
    {
        Self(data)
    }

    /// The number of values.
    pub fn dims(&self) -> (n: usize)
        ensures
            n == self@.len(),
    {
        self.0.len()
    }

    /// The values.
    pub fn values(&self) -> (values: &[u32])
        ensures
            values@ == self@,
    {
        self.0.as_slice()
    }
}

/// Cosine similarity between two vectors (the score is computed in
/// floating point by the application).
pub struct CosineSimilarity;

/// Euclidean distance between two vectors (the score is computed in
/// floating point by the application).
pub struct L2Distance;

} // verus!
