//! What this crate's contracts see of `ndarray`: the error that array
//! constructors report. The arrays themselves are held by the modules that
//! use them, each behind its own opaque type.
use vstd::prelude::*;

verus! {

#[verifier::external_type_specification]
#[verifier::external_body]
pub struct ExShapeError(ndarray::ShapeError);

/// What can go wrong when reading a map.
#[derive(Debug, Clone, Copy, PartialEq, Eq, Structural)]
pub enum MapError {
    /// The input does not follow the map's grammar.
    Syntax,
    /// The rows do not make up a rectangle of the first row's width.
    Shape,
}

/// The rows of `h` rows of `w` items each that `flat` holds in row-major order.
pub open spec fn reshape<T>(flat: Seq<T>, h: int, w: int) -> Seq<Seq<T>> {
    Seq::new(h as nat, |y: int| flat.subrange(y * w, y * w + w))
}

/// The items of `rows`, one row after the other.
pub open spec fn flatten<T>(rows: Seq<Seq<T>>) -> Seq<T>
    decreases rows.len(),
{
    if rows.len() == 0 {
        Seq::empty()
    } else {
        flatten(rows.drop_last()) + rows.last()
    }
}

} // verus!
