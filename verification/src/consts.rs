use vstd::prelude::*;

verus! {

/// Width of one serialized scalar-field element, in bytes.
pub const BYTES_PER_FIELD_ELEMENT: usize = 32;

/// Usable data bytes per serialized field element: one byte of each
/// 32-byte group is the zero padding byte.
pub const DATA_BYTES_PER_FIELD_ELEMENT: usize = 31;

/// Largest evaluation-domain size (element count) a polynomial may use.
pub const MAX_NUM_ELEMENTS: usize = 1048576;

} // verus!
