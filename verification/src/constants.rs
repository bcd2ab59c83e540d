use vstd::prelude::*;

verus! {

/// Names of the books of the canon that the library knows by name.
#[derive(Clone, Copy, Debug, PartialEq, Eq, Structural)]
pub enum BookNames {
    Genesis,
    Exodus,
}

impl BookNames {
    /// The display name of the book.
    pub fn name(&self) -> (r: &'static str)
        ensures
            *self is Genesis ==> r@ == "Genesis"@,
            *self is Exodus ==> r@ == "Exodus"@,
    {
        match self {
            BookNames::Genesis => "Genesis",
            BookNames::Exodus => "Exodus",
        }
    }
}

} // verus!
