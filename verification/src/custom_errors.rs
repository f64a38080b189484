use vstd::prelude::*;

verus! {

/// Error returned when a fill asks for more quantity than an order
/// still has outstanding.
#[derive(Debug)]
pub struct QuantityError {
    pub message: String,
}

impl QuantityError {
    /// The human-readable description of the error.
    pub fn text(&self) -> (r: &String)
        ensures
            r@ == self.message@,
    {
        &self.message
    }
}

} // verus!
