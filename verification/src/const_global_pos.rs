use vstd::prelude::*;
use vstd::string::StringExecFns;

use crate::decimal::{decimal, push_decimal};
use crate::pos::GlobalPos;

verus! {

/// Positions, to be written out as an array generated at compile time.
pub struct ArrayBuilder<'a>(pub &'a [GlobalPos]);

impl ArrayBuilder<'_> {
    /// The type of the generated array.
    pub fn type_string(&self) -> (r: String)
        ensures
            r@ == "[::kartoffel_gps::GlobalPos; "@ + decimal(self.0@.len()) + "]"@,
    {
        let mut s = String::from_str("[::kartoffel_gps::GlobalPos; ");
        push_decimal(&mut s, self.0.len());
        s.append("]");
        s
    }
}

} // verus!
