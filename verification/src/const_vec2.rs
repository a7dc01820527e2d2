use vstd::prelude::*;
use vstd::string::StringExecFns;

use crate::decimal::{decimal, push_decimal};
use crate::vec2::{Global, Vec2};

verus! {

/// Vectors, to be written out as an array generated at compile time.
pub struct ArrayBuilder<'a>(pub &'a [Vec2<Global>]);

impl ArrayBuilder<'_> {
    /// The type of the generated array.
    pub fn type_string(&self) -> (r: String)
        ensures
            r@ == "[::async_kartoffel::Vec2<::async_kartoffel::Global>; "@ + decimal(self.0@.len())
                + "]"@,
    {
        let mut s = String::from_str("[::async_kartoffel::Vec2<::async_kartoffel::Global>; ");
        push_decimal(&mut s, self.0.len());
        s.append("]");
        s
    }
}

} // verus!
