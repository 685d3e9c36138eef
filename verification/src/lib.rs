//! Blob encoding for a KZG polynomial commitment pipeline over the BN254
//! scalar field.
//!
//! Raw data is padded so that every 32-byte group starts with a zero byte,
//! which guarantees that each group, read as a big-endian integer, lies
//! strictly below the scalar-field modulus and is therefore a canonical
//! field element.  A padded blob can be turned into a polynomial over those
//! field elements, the first step of committing to the data.

pub mod blob;
pub mod consts;
pub mod errors;
pub mod field_element;
pub mod helpers;
pub mod polynomial;
