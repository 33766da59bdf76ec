use vstd::prelude::*;

verus! {

/// The mouse buttons the screens tell apart.
#[derive(Clone, Copy, PartialEq, Eq, Debug, Structural)]
pub enum PointerButton {
    Left,
    Right,
    Other,
}

} // verus!
