use vstd::prelude::*;
use vstd::arithmetic::power2::{lemma2_to64, lemma2_to64_rest, lemma_pow2_adds, pow2};
use crate::errors::CodecError;

verus! {

/// The BN254 scalar-field modulus: every canonical field element, read as a
/// big-endian integer, is strictly below this value.
pub open spec fn fr_modulus() -> int {
    0x30644e72e131a029b85045b68181585d2833e84879b97091_43e1f593f0000001int
}

/// The integer value of a byte string read in big-endian order.
pub open spec fn be_bytes_int(s: Seq<u8>) -> int
    decreases s.len(),
{
    if s.len() == 0 {
        0
    } else {
        s[0] * pow2((8 * (s.len() - 1)) as nat) + be_bytes_int(s.skip(1))
    }
}

/// The canonical serialized shape this library produces for a field element:
/// exactly 32 bytes whose head byte is zero.  The zero head byte leaves the
/// value below 2^248, well under the modulus.
pub open spec fn is_canonical(s: Seq<u8>) -> bool {
    s.len() == 32 && s[0] == 0
}

/// A big-endian byte string is bounded by 2 to the power of its bit width.
pub proof fn lemma_be_bytes_int_bound(s: Seq<u8>)
    ensures
        0 <= be_bytes_int(s) < pow2((8 * s.len()) as nat),
    decreases s.len(),
{
    lemma2_to64();
    if s.len() == 0 {
    } else {
        lemma_be_bytes_int_bound(s.skip(1));
        let w = (8 * (s.len() - 1)) as nat;
        lemma_pow2_adds(8, w);
        assert(s[0] * pow2(w) <= 255 * pow2(w)) by (nonlinear_arith)
            requires
                0 <= s[0] <= 255,
                pow2(w) >= 0,
        ;
    }
}

/// A canonical byte string denotes a value strictly below the scalar-field
/// modulus: the zero head byte bounds it by 2^248.
pub proof fn lemma_canonical_below_modulus(s: Seq<u8>)
    requires
        is_canonical(s),
    ensures
        0 <= be_bytes_int(s) < fr_modulus(),
{
    lemma_be_bytes_int_bound(s.skip(1));
    lemma2_to64();
    lemma2_to64_rest();
    lemma_pow2_adds(62, 62);
    assert(pow2(124) == 0x10000000000000000000000000000000int) by (nonlinear_arith)
        requires
            pow2(124) == pow2(62) * pow2(62),
            pow2(62) == 0x4000000000000000,
    ;
    lemma_pow2_adds(124, 124);
    assert(pow2(248)
        == 0x100000000000000000000000000000000000000000000000000000000000000int)
        by (nonlinear_arith)
        requires
            pow2(248) == pow2(124) * pow2(124),
            pow2(124) == 0x10000000000000000000000000000000int,
    ;
    assert(be_bytes_int(s) == be_bytes_int(s.skip(1)));
}

/// One scalar-field element, held as its 32-byte big-endian serialization.
#[derive(Debug, PartialEq, Eq)]
pub struct FieldElement {
    bytes: Vec<u8>,
}

impl Clone for FieldElement {
    fn clone(&self) -> (r: Self)
        ensures
            r@ == self@,
    {
        proof {
            use_type_invariant(self);
        }
        let bytes = self.to_bytes();
        FieldElement { bytes }
    }
}

impl View for FieldElement {
    type V = Seq<u8>;

    closed spec fn view(&self) -> Seq<u8> {
        self.bytes@
    }
}

impl FieldElement {
    /// Every field element holds exactly one serialized word of bytes.
    #[verifier::type_invariant]
    pub open spec fn type_inv(self) -> bool {
        self@.len() == 32
    }

    /// Builds a field element from its canonical serialization; rejects
    /// byte strings that are not in the canonical shape.
    pub fn from_bytes(bytes: Vec<u8>) -> (r: Result<FieldElement, CodecError>)
        ensures
            r is Ok <==> is_canonical(bytes@),
            r matches Ok(fe) ==> fe@ == bytes@ && is_canonical(fe@),
            r matches Ok(fe) ==> 0 <= be_bytes_int(fe@) < fr_modulus(),
            !is_canonical(bytes@) ==> r == Err::<FieldElement, CodecError>(
                CodecError::InvalidFieldElementError,
            ),
    {
        if bytes.len() == 32 && bytes[0] == 0 {
            proof {
                lemma_canonical_below_modulus(bytes@);
            }
            Ok(FieldElement { bytes })
        } else {
            Err(CodecError::InvalidFieldElementError)
        }
    }

    /// Wraps one full 32-byte group as a field element without a canonicity
    /// check; the codec uses it on groups it has laid out itself.
    pub(crate) fn from_chunk(bytes: Vec<u8>) -> (r: FieldElement)
        requires
            bytes@.len() == 32,
        ensures
            r@ == bytes@,
    {
        FieldElement { bytes }
    }

    /// The zero element: 32 zero bytes.
    pub fn zero() -> (r: FieldElement)
        ensures
            r@ == zero_element_bytes(),
    {
        let mut bytes: Vec<u8> = Vec::with_capacity(32);
        let mut i: usize = 0;
        while i < 32
            invariant
                i <= 32,
                bytes@.len() == i,
                forall|k: int| 0 <= k < i ==> bytes@[k] == 0u8,
            decreases 32 - i,
        {
            bytes.push(0u8);
            i = i + 1;
        }
        proof {
            assert(bytes@ =~= zero_element_bytes());
        }
        FieldElement { bytes }
    }

    /// Borrows the canonical serialization.
    pub fn bytes(&self) -> (r: &Vec<u8>)
        ensures
            r@ == self@,
    {
        &self.bytes
    }

    /// Copies the canonical serialization out.
    pub fn to_bytes(&self) -> (r: Vec<u8>)
        ensures
            r@ == self@,
    {
        let mut out: Vec<u8> = Vec::with_capacity(32);
        let mut i: usize = 0;
        proof {
            use_type_invariant(self);
        }
        while i < self.bytes.len()
            invariant
                i <= self.bytes@.len(),
                out@ == self.bytes@.take(i as int),
            decreases self.bytes@.len() - i,
        {
            out.push(self.bytes[i]);
            i = i + 1;
        }
        proof {
            assert(self.bytes@.take(self.bytes@.len() as int) =~= self.bytes@);
        }
        out
    }
}

/// The serialization of the zero element.
pub open spec fn zero_element_bytes() -> Seq<u8> {
    Seq::new(32, |i: int| 0u8)
}

} // verus!
