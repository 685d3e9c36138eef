use vstd::prelude::*;
use crate::consts::MAX_NUM_ELEMENTS;
use crate::errors::BlobError;
use crate::field_element::is_canonical;
use crate::helpers;
use crate::helpers::{has_zero_group_heads, pad_spec, to_fr_array_spec, unpad_spec, views_of};
use crate::polynomial::{lemma_next_pow2_lower, Polynomial, PolynomialFormat};

verus! {

/// A byte buffer holding one unit of client data, together with its padding
/// state.  Padded data has a zero byte before every group of 31 data bytes,
/// so that each 32-byte group is a canonical field element serialization.
#[derive(Clone, Debug, PartialEq, Eq)]
pub struct Blob {
    blob_data: Vec<u8>,
    is_padded: bool,
    length_after_padding: usize,
}

impl Blob {
    /// The held bytes, padded or not according to the padding state.
    pub closed spec fn spec_data(self) -> Seq<u8> {
        self.blob_data@
    }

    /// The recorded padding state.
    pub closed spec fn spec_is_padded(self) -> bool {
        self.is_padded
    }

    /// The byte length recorded at padding time; zero while unpadded.
    pub closed spec fn spec_length_after_padding(self) -> nat {
        self.length_after_padding as nat
    }

    /// Well-formedness: the recorded post-padding length equals the data
    /// length exactly when the blob is padded, and is zero otherwise.
    pub open spec fn wf(self) -> bool {
        self.spec_length_after_padding() == if self.spec_is_padded() {
            self.spec_data().len()
        } else {
            0nat
        }
    }

    /// Wraps the given bytes with the padding state the caller declares for
    /// them; the bytes themselves are taken as they are.
    pub fn new(blob_data: Vec<u8>, is_padded: bool) -> (r: Blob)
        ensures
            r.wf(),
            r.spec_data() == blob_data@,
            r.spec_is_padded() == is_padded,
    {
        let length_after_padding: usize;
        if is_padded {
            length_after_padding = blob_data.len();
        } else {
            length_after_padding = 0;
        }
        Blob { blob_data, is_padded, length_after_padding }
    }

    /// Whether the held bytes are in padded form.
    pub fn is_padded(&self) -> (r: bool)
        ensures
            r == self.spec_is_padded(),
    {
        self.is_padded
    }

    /// Builds a blob directly in padded form from raw bytes.
    pub fn from_bytes_and_pad(input: &[u8]) -> (r: Blob)
        ensures
            r.wf(),
            r.spec_is_padded(),
            r.spec_data() == pad_spec(input@),
            r.spec_length_after_padding() == pad_spec(input@).len(),
    {
        let padded_input = helpers::convert_by_padding_empty_byte(input);
        let length_after_padding = padded_input.len();
        Blob { blob_data: padded_input, is_padded: true, length_after_padding }
    }

    /// Copies the held bytes out.
    pub fn get_blob_data(&self) -> (r: Vec<u8>)
        ensures
            r@ == self.spec_data(),
    {
        let mut out: Vec<u8> = Vec::with_capacity(self.blob_data.len());
        let mut i: usize = 0;
        while i < self.blob_data.len()
            invariant
                i <= self.blob_data@.len(),
                out@ == self.blob_data@.take(i as int),
            decreases self.blob_data@.len() - i,
        {
            out.push(self.blob_data[i]);
            i = i + 1;
        }
        proof {
            assert(self.blob_data@.take(self.blob_data@.len() as int) =~= self.blob_data@);
        }
        out
    }

    /// The length of the held bytes.
    pub fn len(&self) -> (r: usize)
        ensures
            r == self.spec_data().len(),
    {
        self.blob_data.len()
    }

    /// The byte length recorded at padding time; zero while unpadded.
    pub fn get_length_after_padding(&self) -> (r: usize)
        ensures
            r == self.spec_length_after_padding(),
    {
        self.length_after_padding
    }

    /// Pads the held bytes in place; fails if they are already padded.
    pub fn pad_data(&mut self) -> (r: Result<(), BlobError>)
        ensures
            old(self).spec_is_padded() ==> (r == Err::<(), BlobError>(BlobError::AlreadyPaddedError)
                && *final(self) == *old(self)),
            !old(self).spec_is_padded() ==> {
                &&& r == Ok::<(), BlobError>(())
                &&& final(self).wf()
                &&& final(self).spec_is_padded()
                &&& final(self).spec_data() == pad_spec(old(self).spec_data())
            },
            old(self).wf() ==> final(self).wf(),
    {
        if self.is_padded {
            Err(BlobError::AlreadyPaddedError)
        } else {
            self.blob_data = helpers::convert_by_padding_empty_byte(self.blob_data.as_slice());
            self.is_padded = true;
            self.length_after_padding = self.blob_data.len();
            Ok(())
        }
    }

    /// Removes the padding in place; fails if the bytes are not padded.
    pub fn remove_padding(&mut self) -> (r: Result<(), BlobError>)
        ensures
            !old(self).spec_is_padded() ==> (r == Err::<(), BlobError>(BlobError::NotPaddedError)
                && *final(self) == *old(self)),
            old(self).spec_is_padded() ==> {
                &&& r == Ok::<(), BlobError>(())
                &&& final(self).wf()
                &&& !final(self).spec_is_padded()
                &&& final(self).spec_data() == unpad_spec(old(self).spec_data())
            },
            old(self).wf() ==> final(self).wf(),
    {
        if !self.is_padded {
            Err(BlobError::NotPaddedError)
        } else {
            self.blob_data = helpers::remove_empty_byte_from_padded_bytes(
                self.blob_data.as_slice(),
            );
            self.is_padded = false;
            self.length_after_padding = 0;
            Ok(())
        }
    }

    /// Converts the held bytes to a polynomial in the requested basis, one
    /// field element per 32-byte group; fails if the blob is not padded, or
    /// if the data does not fit the largest supported evaluation domain.
    pub fn to_polynomial(&self, form: PolynomialFormat) -> (r: Result<Polynomial, BlobError>)
        ensures
            !self.spec_is_padded() ==> r == Err::<Polynomial, BlobError>(BlobError::NotPaddedError),
            self.spec_is_padded() ==> (r is Ok <==> to_fr_array_spec(self.spec_data()).len()
                <= MAX_NUM_ELEMENTS),
            self.spec_is_padded() ==> (r matches Ok(p) ==> {
                &&& p.wf()
                &&& p.spec_form() == form
                &&& p.spec_logical_length() == to_fr_array_spec(self.spec_data()).len()
                &&& p.spec_elements().take(p.spec_logical_length() as int) == to_fr_array_spec(
                    self.spec_data(),
                )
                &&& has_zero_group_heads(self.spec_data()) ==> forall|k: int|
                    0 <= k < p.spec_elements().len() ==> is_canonical(
                        #[trigger] p.spec_elements()[k],
                    )
            }),
            self.spec_is_padded() && to_fr_array_spec(self.spec_data()).len() > MAX_NUM_ELEMENTS
                ==> (r matches Err(e) && e matches BlobError::GenericError(s) && s@
                == "invalid input length for polynomial"@),
    {
        if !self.is_padded {
            Err(BlobError::NotPaddedError)
        } else {
            let fr_vec = helpers::to_fr_array(self.blob_data.as_slice());
            let logical_length = fr_vec.len();
            proof {
                lemma_next_pow2_lower(fr_vec@.len());
            }
            let ghost fr_views = views_of(fr_vec@);
            match Polynomial::new(fr_vec, logical_length, form) {
                Ok(p) => {
                    proof {
                        assert(p.spec_elements().take(logical_length as int) =~= to_fr_array_spec(
                            self.spec_data(),
                        ));
                        if has_zero_group_heads(self.spec_data()) {
                            assert forall|k: int| 0 <= k < p.spec_elements().len() implies
                                is_canonical(#[trigger] p.spec_elements()[k]) by {
                                if k < logical_length {
                                    assert(p.spec_elements()[k] == p.spec_elements().take(
                                        logical_length as int,
                                    )[k]);
                                    assert(p.spec_elements()[k] == fr_views[k]);
                                } else {
                                    assert(p.spec_elements()[k]
                                        == crate::field_element::zero_element_bytes());
                                }
                            }
                        }
                    }
                    Ok(p)
                },
                Err(e) => Err(BlobError::GenericError(e.message())),
            }
        }
    }
}

} // verus!
