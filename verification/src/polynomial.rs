use vstd::prelude::*;
use vstd::arithmetic::power2::{lemma2_to64, lemma_pow2_pos, lemma_pow2_unfold, pow2};
use crate::consts::MAX_NUM_ELEMENTS;
use crate::errors::PolynomialError;
use crate::field_element::{zero_element_bytes, FieldElement};
use crate::helpers::views_of;

verus! {

/// The basis in which a polynomial's element sequence is expressed.
#[derive(Clone, Copy, Debug, PartialEq, Eq, Structural)]
pub enum PolynomialFormat {
    InCoefficientForm,
    InEvalForm,
}

/// The evaluation-domain size used for `n` elements: the smallest power of
/// two that is at least `n`, with zero mapped to zero.
pub open spec fn next_pow2(n: nat) -> nat
    decreases n,
{
    if n <= 1 {
        n
    } else {
        2 * next_pow2((n + 1) / 2)
    }
}

/// The domain size covers the element count.
pub proof fn lemma_next_pow2_lower(n: nat)
    ensures
        n <= next_pow2(n),
    decreases n,
{
    if n > 1 {
        lemma_next_pow2_lower((n + 1) / 2);
    }
}

/// The domain size never overshoots a power of two that already covers the
/// element count: it is the smallest sufficient power of two.
pub proof fn lemma_next_pow2_min(n: nat, k: nat)
    requires
        n <= pow2(k),
    ensures
        next_pow2(n) <= pow2(k),
    decreases n,
{
    if n <= 1 {
        lemma_pow2_pos(k);
    } else {
        let m = ((n + 1) / 2) as nat;
        assert(k >= 1) by {
            if k == 0 {
                lemma2_to64();
            }
        }
        lemma_pow2_unfold(k);
        lemma_next_pow2_min(m, (k - 1) as nat);
    }
}

/// A positive domain size is itself a power of two.
pub proof fn lemma_next_pow2_is_pow2(n: nat)
    requires
        1 <= n,
    ensures
        exists|k: nat| next_pow2(n) == pow2(k),
    decreases n,
{
    if n == 1 {
        lemma2_to64();
        assert(next_pow2(n) == pow2(0));
    } else {
        let m = ((n + 1) / 2) as nat;
        lemma_next_pow2_is_pow2(m);
        let k0 = choose|k: nat| next_pow2(m) == pow2(k);
        lemma_pow2_unfold(k0 + 1);
        assert(next_pow2(n) == pow2(k0 + 1));
    }
}

/// Computes [`next_pow2`] for any count up to the supported maximum.
fn next_power_of_two(n: usize) -> (r: usize)
    requires
        n <= MAX_NUM_ELEMENTS,
    ensures
        r == next_pow2(n as nat),
        r <= MAX_NUM_ELEMENTS,
    decreases n,
{
    if n <= 1 {
        n
    } else {
        let m: usize = (n + 1) / 2;
        let half = next_power_of_two(m);
        proof {
            lemma2_to64();
            lemma_next_pow2_min(n as nat, 20);
        }
        2 * half
    }
}

/// A polynomial over the scalar field: an ordered element sequence carrying
/// exactly one basis tag, zero-padded to its power-of-two evaluation domain,
/// with the pre-padding element count tracked as the logical length.
#[derive(Clone, Debug, PartialEq, Eq)]
pub struct Polynomial {
    elements: Vec<FieldElement>,
    form: PolynomialFormat,
    logical_length: usize,
}

impl Polynomial {
    /// The serializations of the stored elements, domain padding included.
    pub closed spec fn spec_elements(self) -> Seq<Seq<u8>> {
        views_of(self.elements@)
    }

    /// The basis tag.
    pub closed spec fn spec_form(self) -> PolynomialFormat {
        self.form
    }

    /// The element count before domain zero-padding.
    pub closed spec fn spec_logical_length(self) -> nat {
        self.logical_length as nat
    }

    /// Well-formedness: the logical length never exceeds the element count,
    /// and the element count is exactly the evaluation-domain size for the
    /// logical length, within the supported maximum.
    pub open spec fn wf(self) -> bool {
        &&& self.spec_logical_length() <= self.spec_elements().len()
        &&& self.spec_elements().len() == next_pow2(self.spec_logical_length())
        &&& self.spec_elements().len() <= MAX_NUM_ELEMENTS
    }

    /// Wraps an element sequence as a polynomial in the given basis,
    /// zero-padding it to its evaluation domain.  Rejects an element count
    /// beyond the supported domain size, a logical length that exceeds the
    /// element count, and an element count already beyond the domain.
    pub fn new(
        elements: Vec<FieldElement>,
        logical_length: usize,
        form: PolynomialFormat,
    ) -> (r: Result<Polynomial, PolynomialError>)
        ensures
            r is Ok <==> (elements@.len() <= MAX_NUM_ELEMENTS && logical_length <= elements@.len()
                && elements@.len() <= next_pow2(logical_length as nat)),
            r matches Ok(p) ==> {
                &&& p.wf()
                &&& p.spec_form() == form
                &&& p.spec_logical_length() == logical_length
                &&& p.spec_elements().len() == next_pow2(logical_length as nat)
                &&& p.spec_elements().take(elements@.len() as int) == views_of(elements@)
                &&& forall|k: int|
                    elements@.len() <= k < p.spec_elements().len()
                        ==> p.spec_elements()[k] == zero_element_bytes()
            },
            r is Err ==> r == Err::<Polynomial, PolynomialError>(
                PolynomialError::InvalidInputLengthError,
            ),
    {
        if elements.len() > MAX_NUM_ELEMENTS {
            return Err(PolynomialError::InvalidInputLengthError);
        }
        if logical_length > elements.len() {
            return Err(PolynomialError::InvalidInputLengthError);
        }
        let domain_size = next_power_of_two(logical_length);
        if elements.len() > domain_size {
            return Err(PolynomialError::InvalidInputLengthError);
        }
        let ghost orig = elements@;
        let mut elements = elements;
        while elements.len() < domain_size
            invariant
                orig.len() <= elements@.len(),
                elements@.len() <= domain_size,
                domain_size == next_pow2(logical_length as nat),
                domain_size <= MAX_NUM_ELEMENTS,
                elements@.take(orig.len() as int) == orig,
                forall|k: int|
                    orig.len() <= k < elements@.len() ==> #[trigger] elements@[k]@
                        == zero_element_bytes(),
            decreases domain_size - elements@.len(),
        {
            let ghost before = elements@;
            elements.push(FieldElement::zero());
            proof {
                assert(elements@.take(orig.len() as int) =~= before.take(orig.len() as int));
            }
        }
        let p = Polynomial { elements, form, logical_length };
        proof {
            assert(p.spec_elements().take(orig.len() as int) =~= views_of(orig));
        }
        Ok(p)
    }

    /// The element count, domain padding included.
    pub fn len(&self) -> (r: usize)
        ensures
            r == self.spec_elements().len(),
    {
        self.elements.len()
    }

    /// The basis the elements are currently expressed in.
    pub fn get_form(&self) -> (r: PolynomialFormat)
        ensures
            r == self.spec_form(),
    {
        self.form
    }

    /// The element count before domain zero-padding.
    pub fn get_logical_length(&self) -> (r: usize)
        ensures
            r == self.spec_logical_length(),
    {
        self.logical_length
    }

    /// Borrows the element at the given position.
    pub fn get_at(&self, i: usize) -> (r: &FieldElement)
        requires
            i < self.spec_elements().len(),
        ensures
            r@ == self.spec_elements()[i as int],
    {
        &self.elements[i]
    }
}

} // verus!
