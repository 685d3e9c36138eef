use vstd::prelude::*;
use crate::errors::CodecError;
use crate::field_element::{
    be_bytes_int, fr_modulus, is_canonical, lemma_canonical_below_modulus, FieldElement,
};

verus! {

/// The padded form of `data`: a zero byte is inserted before every group of
/// 31 data bytes, so that each resulting 32-byte group, read as a big-endian
/// integer, stays below the scalar-field modulus.  The final group is left
/// short when fewer than 31 data bytes remain.
pub open spec fn pad_spec(data: Seq<u8>) -> Seq<u8>
    decreases data.len(),
{
    if data.len() == 0 {
        Seq::empty()
    } else if data.len() <= 31 {
        seq![0u8] + data
    } else {
        seq![0u8] + data.take(31) + pad_spec(data.skip(31))
    }
}

/// The inverse of [`pad_spec`]: the first byte of every 32-byte group is
/// dropped, and the bytes that remain are concatenated.
pub open spec fn unpad_spec(data: Seq<u8>) -> Seq<u8>
    decreases data.len(),
{
    if data.len() == 0 {
        Seq::empty()
    } else if data.len() <= 32 {
        data.skip(1)
    } else {
        data.subrange(1, 32) + unpad_spec(data.skip(32))
    }
}

/// Padding adds one byte per started group of 31 data bytes.
pub proof fn lemma_pad_spec_len(data: Seq<u8>)
    ensures
        pad_spec(data).len() == data.len() + (data.len() + 30) / 31,
    decreases data.len(),
{
    if data.len() > 31 {
        lemma_pad_spec_len(data.skip(31));
    }
}

/// Every byte of a padded sequence that sits at a 32-byte group boundary is
/// the zero padding byte: padding establishes [`has_zero_group_heads`].
pub proof fn lemma_pad_spec_group_heads(data: Seq<u8>)
    ensures
        has_zero_group_heads(pad_spec(data)),
    decreases data.len(),
{
    if data.len() > 31 {
        lemma_pad_spec_len(data.skip(31));
        lemma_pad_spec_group_heads(data.skip(31));
        let p = pad_spec(data);
        assert forall|i: int| 0 <= i < p.len() && i % 32 == 0 implies p[i] == 0 by {
            if i >= 32 {
                assert(p[i] == pad_spec(data.skip(31))[i - 32]);
                assert((i - 32) % 32 == 0);
            }
        }
    }
}

/// Removing the padding gives back exactly the bytes that were padded:
/// for every byte sequence, `unpad_spec(pad_spec(data)) == data`.
pub proof fn lemma_unpad_of_pad(data: Seq<u8>)
    ensures
        unpad_spec(pad_spec(data)) == data,
    decreases data.len(),
{
    if data.len() == 0 {
    } else if data.len() <= 31 {
        assert((seq![0u8] + data).skip(1) =~= data);
    } else {
        lemma_unpad_of_pad(data.skip(31));
        lemma_pad_spec_len(data.skip(31));
        let p = pad_spec(data);
        assert(p.subrange(1, 32) =~= data.take(31));
        assert(p.skip(32) =~= pad_spec(data.skip(31)));
        assert(data.take(31) + data.skip(31) =~= data);
    }
}

/// Inserts a zero byte before every 31 data bytes, per the blob padding
/// discipline.
pub fn convert_by_padding_empty_byte(data: &[u8]) -> (result: Vec<u8>)
    ensures
        result@ == pad_spec(data@),
{
    let n: usize = data.len();
    let mut result: Vec<u8> = Vec::new();
    let mut i: usize = 0;
    proof {
        assert(data@.skip(0) =~= data@);
        assert(Seq::<u8>::empty() + pad_spec(data@) =~= pad_spec(data@));
    }
    while i < n
        invariant
            n == data@.len(),
            i <= n,
            pad_spec(data@) == result@ + pad_spec(data@.skip(i as int)),
        decreases n - i,
    {
        let chunk_len: usize = if n - i < 31 { n - i } else { 31 };
        let ghost prefix = result@;
        result.push(0u8);
        let mut j: usize = 0;
        while j < chunk_len
            invariant
                n == data@.len(),
                j <= chunk_len,
                i + chunk_len <= n,
                result@ == prefix + seq![0u8] + data@.subrange(i as int, i + j),
            decreases chunk_len - j,
        {
            result.push(data[i + j]);
            j = j + 1;
        }
        proof {
            let rest = data@.skip(i as int);
            if rest.len() <= 31 {
                assert(rest =~= data@.subrange(i as int, i + chunk_len));
                assert(prefix + seq![0u8] + data@.subrange(i as int, i + chunk_len)
                    =~= prefix + (seq![0u8] + rest));
                assert(data@.skip(i + chunk_len) =~= Seq::<u8>::empty());
                assert(prefix + pad_spec(rest)
                    =~= (prefix + pad_spec(rest)) + pad_spec(data@.skip(i + chunk_len)));
            } else {
                assert(rest.take(31) =~= data@.subrange(i as int, i + chunk_len));
                assert(rest.skip(31) =~= data@.skip(i + chunk_len));
                assert(prefix + (seq![0u8] + rest.take(31) + pad_spec(rest.skip(31)))
                    =~= (prefix + seq![0u8] + data@.subrange(i as int, i + chunk_len))
                        + pad_spec(data@.skip(i + chunk_len)));
            }
        }
        i = i + chunk_len;
    }
    proof {
        assert(data@.skip(i as int) =~= Seq::<u8>::empty());
        assert(result@ + pad_spec(Seq::<u8>::empty()) =~= result@);
    }
    result
}

/// Drops the zero byte that heads every 32-byte group, per the blob padding
/// discipline.
pub fn remove_empty_byte_from_padded_bytes(data: &[u8]) -> (result: Vec<u8>)
    ensures
        result@ == unpad_spec(data@),
{
    let n: usize = data.len();
    let mut result: Vec<u8> = Vec::new();
    let mut i: usize = 0;
    proof {
        assert(data@.skip(0) =~= data@);
        assert(Seq::<u8>::empty() + unpad_spec(data@) =~= unpad_spec(data@));
    }
    while i < n
        invariant
            n == data@.len(),
            i <= n,
            unpad_spec(data@) == result@ + unpad_spec(data@.skip(i as int)),
        decreases n - i,
    {
        let end: usize = if n - i < 32 { n } else { i + 32 };
        let ghost prefix = result@;
        let mut j: usize = i + 1;
        while j < end
            invariant
                n == data@.len(),
                i + 1 <= j,
                j <= end,
                end <= n,
                result@ == prefix + data@.subrange(i + 1, j as int),
            decreases end - j,
        {
            result.push(data[j]);
            j = j + 1;
        }
        proof {
            let rest = data@.skip(i as int);
            if rest.len() <= 32 {
                assert(rest.skip(1) =~= data@.subrange(i + 1, end as int));
                assert(data@.skip(end as int) =~= Seq::<u8>::empty());
                assert(prefix + rest.skip(1)
                    =~= (prefix + rest.skip(1)) + unpad_spec(data@.skip(end as int)));
                assert(result@ =~= prefix + data@.subrange(i + 1, end as int));
            } else {
                assert(rest.subrange(1, 32) =~= data@.subrange(i + 1, end as int));
                assert(rest.skip(32) =~= data@.skip(end as int));
                assert(prefix + (rest.subrange(1, 32) + unpad_spec(rest.skip(32)))
                    =~= (prefix + data@.subrange(i + 1, end as int))
                        + unpad_spec(data@.skip(end as int)));
            }
        }
        i = end;
    }
    proof {
        assert(data@.skip(i as int) =~= Seq::<u8>::empty());
        assert(result@ + unpad_spec(Seq::<u8>::empty()) =~= result@);
    }
    result
}

/// The serializations of a sequence of field elements.
pub open spec fn views_of(elements: Seq<FieldElement>) -> Seq<Seq<u8>> {
    elements.map_values(|fe: FieldElement| fe@)
}

/// The 32-byte groups of a byte sequence, each the serialization of one
/// field element; the final group is filled out with zero bytes on the right.
pub open spec fn to_fr_array_spec(data: Seq<u8>) -> Seq<Seq<u8>>
    decreases data.len(),
{
    if data.len() == 0 {
        Seq::empty()
    } else if data.len() < 32 {
        seq![data + Seq::new((32 - data.len()) as nat, |i: int| 0u8)]
    } else {
        seq![data.take(32)] + to_fr_array_spec(data.skip(32))
    }
}

/// The data bytes carried by a sequence of serialized field elements: the
/// head byte of each element is dropped and the remainders are concatenated.
pub open spec fn decode_concat_spec(elements: Seq<Seq<u8>>) -> Seq<u8>
    decreases elements.len(),
{
    if elements.len() == 0 {
        Seq::empty()
    } else {
        elements[0].skip(1) + decode_concat_spec(elements.skip(1))
    }
}

/// The byte at every 32-byte group boundary is zero.  [`pad_spec`] output
/// has this shape; it is what makes each group a canonical field element.
pub open spec fn has_zero_group_heads(data: Seq<u8>) -> bool {
    forall|i: int| 0 <= i < data.len() && i % 32 == 0 ==> data[i] == 0
}

/// Each group cut by [`to_fr_array_spec`] is 32 bytes long, and there is one
/// group per started 32 bytes of input.
pub proof fn lemma_to_fr_array_spec_shape(data: Seq<u8>)
    ensures
        to_fr_array_spec(data).len() == (data.len() + 31) / 32,
        forall|k: int|
            0 <= k < to_fr_array_spec(data).len() ==> (#[trigger] to_fr_array_spec(data)[k]).len()
                == 32,
    decreases data.len(),
{
    if data.len() >= 32 {
        lemma_to_fr_array_spec_shape(data.skip(32));
    }
}

/// On input with zero group heads, every group cut by [`to_fr_array_spec`]
/// is a canonical field element serialization.
pub proof fn lemma_to_fr_array_spec_canonical(data: Seq<u8>)
    requires
        has_zero_group_heads(data),
    ensures
        forall|k: int|
            0 <= k < to_fr_array_spec(data).len() ==> is_canonical(
                #[trigger] to_fr_array_spec(data)[k],
            ),
    decreases data.len(),
{
    lemma_to_fr_array_spec_shape(data);
    let chunks = to_fr_array_spec(data);
    if data.len() == 0 {
    } else if data.len() < 32 {
        assert(data[0] == 0);
        assert(chunks[0] == data + Seq::new((32 - data.len()) as nat, |i: int| 0u8));
        assert(chunks[0][0] == data[0]);
    } else {
        assert(data[0] == 0);
        assert(has_zero_group_heads(data.skip(32))) by {
            assert forall|i: int|
                0 <= i < data.skip(32).len() && i % 32 == 0 implies data.skip(32)[i] == 0 by {
                assert((i + 32) % 32 == 0);
                assert(data.skip(32)[i] == data[i + 32]);
            }
        }
        lemma_to_fr_array_spec_canonical(data.skip(32));
        assert forall|k: int| 0 <= k < chunks.len() implies is_canonical(#[trigger] chunks[k]) by {
            if k == 0 {
                assert(chunks[0] == data.take(32));
                assert(chunks[0][0] == data[0]);
            } else {
                assert(chunks[k] == to_fr_array_spec(data.skip(32))[k - 1]);
            }
        }
    }
}

/// Cutting a padded sequence into 32-byte groups and dropping each group's
/// head byte gives back the data that was padded: the byte/field-element
/// codec loses nothing.
pub proof fn lemma_codec_round_trip(data: Seq<u8>)
    ensures
        data.len() <= decode_concat_spec(to_fr_array_spec(pad_spec(data))).len(),
        decode_concat_spec(to_fr_array_spec(pad_spec(data))).take(data.len() as int) == data,
    decreases data.len(),
{
    let p = pad_spec(data);
    let chunks = to_fr_array_spec(p);
    let d = decode_concat_spec(chunks);
    if data.len() == 0 {
        assert(d.take(0) =~= data);
    } else if data.len() <= 31 {
        assert(to_fr_array_spec(Seq::<u8>::empty()) =~= Seq::<Seq<u8>>::empty());
        assert(decode_concat_spec(Seq::<Seq<u8>>::empty()) =~= Seq::<u8>::empty());
        if p.len() == 32 {
            assert(p.take(32) =~= p);
            assert(p.skip(32) =~= Seq::<u8>::empty());
            assert(to_fr_array_spec(p.skip(32)) == to_fr_array_spec(Seq::<u8>::empty()));
            assert(chunks =~= seq![p]);
        } else {
            assert(chunks =~= seq![p + Seq::new((32 - p.len()) as nat, |i: int| 0u8)]);
        }
        assert(chunks.skip(1) =~= Seq::<Seq<u8>>::empty());
        assert(decode_concat_spec(chunks.skip(1)) == decode_concat_spec(Seq::<Seq<u8>>::empty()));
        assert(d =~= chunks[0].skip(1) + Seq::<u8>::empty());
        assert(d =~= chunks[0].skip(1));
        assert(d.take(data.len() as int) =~= data);
    } else {
        lemma_codec_round_trip(data.skip(31));
        lemma_pad_spec_len(data.skip(31));
        let p2 = pad_spec(data.skip(31));
        let chunks2 = to_fr_array_spec(p2);
        let d2 = decode_concat_spec(chunks2);
        assert(p.take(32) =~= seq![0u8] + data.take(31));
        assert(p.skip(32) =~= p2);
        assert(chunks.skip(1) =~= chunks2);
        assert((seq![0u8] + data.take(31)).skip(1) =~= data.take(31));
        assert(d =~= data.take(31) + d2);
        assert(d.take(data.len() as int) =~= data.take(31) + d2.take(data.len() - 31));
        assert(data.take(31) + data.skip(31) =~= data);
    }
}

/// The padding discipline exists for this: every field element encoded from
/// padded data, read as a big-endian integer, lies strictly below the
/// scalar-field modulus, whatever the data was.
pub proof fn lemma_padded_elements_below_modulus(data: Seq<u8>)
    ensures
        forall|k: int|
            0 <= k < to_fr_array_spec(pad_spec(data)).len() ==> 0 <= be_bytes_int(
                #[trigger] to_fr_array_spec(pad_spec(data))[k],
            ) < fr_modulus(),
{
    lemma_pad_spec_group_heads(data);
    lemma_to_fr_array_spec_canonical(pad_spec(data));
    assert forall|k: int| 0 <= k < to_fr_array_spec(pad_spec(data)).len() implies 0 <= be_bytes_int(
        #[trigger] to_fr_array_spec(pad_spec(data))[k],
    ) < fr_modulus() by {
        lemma_canonical_below_modulus(to_fr_array_spec(pad_spec(data))[k]);
    }
}

/// Cuts padded data into 32-byte groups and wraps each group as a field
/// element; the final group is filled out with zero bytes.
pub fn to_fr_array(data: &[u8]) -> (result: Vec<FieldElement>)
    ensures
        views_of(result@) == to_fr_array_spec(data@),
        has_zero_group_heads(data@) ==> forall|k: int|
            0 <= k < result@.len() ==> is_canonical(#[trigger] result@[k]@),
{
    let n: usize = data.len();
    let mut result: Vec<FieldElement> = Vec::new();
    let mut i: usize = 0;
    proof {
        assert(data@.skip(0) =~= data@);
        assert(views_of(Seq::<FieldElement>::empty()) + to_fr_array_spec(data@)
            =~= to_fr_array_spec(data@));
    }
    while i < n
        invariant
            n == data@.len(),
            i <= n,
            to_fr_array_spec(data@) == views_of(result@) + to_fr_array_spec(data@.skip(i as int)),
        decreases n - i,
    {
        let copy_len: usize = if n - i < 32 { n - i } else { 32 };
        let mut chunk: Vec<u8> = Vec::with_capacity(32);
        let mut j: usize = 0;
        while j < copy_len
            invariant
                n == data@.len(),
                j <= copy_len,
                i + copy_len <= n,
                chunk@ == data@.subrange(i as int, i + j),
            decreases copy_len - j,
        {
            chunk.push(data[i + j]);
            j = j + 1;
        }
        while j < 32
            invariant
                n == data@.len(),
                copy_len <= j,
                j <= 32,
                i + copy_len <= n,
                chunk@ == data@.subrange(i as int, i + copy_len) + Seq::new(
                    (j - copy_len) as nat,
                    |k: int| 0u8,
                ),
            decreases 32 - j,
        {
            proof {
                assert(chunk@.push(0u8) =~= data@.subrange(i as int, i + copy_len) + Seq::new(
                    (j + 1 - copy_len) as nat,
                    |k: int| 0u8,
                ));
            }
            chunk.push(0u8);
            j = j + 1;
        }
        let ghost prefix = result@;
        let element = FieldElement::from_chunk(chunk);
        result.push(element);
        proof {
            let rest = data@.skip(i as int);
            assert(views_of(prefix.push(element)) =~= views_of(prefix) + seq![element@]);
            if rest.len() < 32 {
                assert(rest =~= data@.subrange(i as int, i + copy_len));
                assert(element@ =~= rest + Seq::new((32 - rest.len()) as nat, |k: int| 0u8));
                assert(data@.skip(i + copy_len) =~= Seq::<u8>::empty());
                assert((views_of(prefix) + seq![element@]) + to_fr_array_spec(
                    data@.skip(i + copy_len),
                ) =~= views_of(prefix) + to_fr_array_spec(rest));
            } else {
                assert(rest.take(32) =~= data@.subrange(i as int, i + copy_len));
                assert(element@ =~= rest.take(32)) by {
                    assert(chunk@ =~= data@.subrange(i as int, i + copy_len) + Seq::new(
                        0nat,
                        |k: int| 0u8,
                    ));
                }
                assert(rest.skip(32) =~= data@.skip(i + copy_len));
                assert((views_of(prefix) + seq![element@]) + to_fr_array_spec(
                    data@.skip(i + copy_len),
                ) =~= views_of(prefix) + (seq![rest.take(32)] + to_fr_array_spec(rest.skip(32))));
            }
        }
        i = i + copy_len;
    }
    proof {
        assert(data@.skip(i as int) =~= Seq::<u8>::empty());
        assert(views_of(result@) + to_fr_array_spec(Seq::<u8>::empty()) =~= views_of(result@));
        if has_zero_group_heads(data@) {
            lemma_to_fr_array_spec_canonical(data@);
            assert forall|k: int| 0 <= k < result@.len() implies is_canonical(
                #[trigger] result@[k]@,
            ) by {
                assert(result@[k]@ == views_of(result@)[k]);
            }
        }
    }
    result
}

/// Recovers raw data bytes from serialized field elements: drops the head
/// byte of each element, concatenates, and truncates to `original_length`.
/// Rejects a requested length beyond what the elements carry.
pub fn to_byte_array(elements: &Vec<FieldElement>, original_length: usize) -> (r: Result<
    Vec<u8>,
    CodecError,
>)
    ensures
        original_length as int <= 31 * elements@.len() ==> (r matches Ok(bytes) && bytes@
            == decode_concat_spec(views_of(elements@)).take(original_length as int)),
        original_length as int > 31 * elements@.len() ==> r == Err::<Vec<u8>, CodecError>(
            CodecError::DecodeError,
        ),
{
    let count: usize = elements.len();
    if (original_length as u128) > 31u128 * (count as u128) {
        return Err(CodecError::DecodeError);
    }
    let mut result: Vec<u8> = Vec::new();
    let mut i: usize = 0;
    proof {
        assert(elements@.skip(0) =~= elements@);
        assert(views_of(elements@.skip(0)) =~= views_of(elements@));
        assert(Seq::<u8>::empty() + decode_concat_spec(views_of(elements@))
            =~= decode_concat_spec(views_of(elements@)));
    }
    while i < count
        invariant
            count == elements@.len(),
            i <= count,
            result@.len() == 31 * i,
            decode_concat_spec(views_of(elements@)) == result@ + decode_concat_spec(
                views_of(elements@.skip(i as int)),
            ),
        decreases count - i,
    {
        let element = &elements[i];
        proof {
            use_type_invariant(element);
        }
        let bytes = element.bytes();
        let ghost prefix = result@;
        let mut j: usize = 1;
        while j < 32
            invariant
                1 <= j <= 32,
                bytes@.len() == 32,
                result@ == prefix + bytes@.subrange(1, j as int),
            decreases 32 - j,
        {
            result.push(bytes[j]);
            j = j + 1;
        }
        proof {
            let rest = views_of(elements@.skip(i as int));
            assert(rest[0] == elements@[i as int]@);
            assert(bytes@.subrange(1, 32) =~= elements@[i as int]@.skip(1));
            assert(rest.skip(1) =~= views_of(elements@.skip(i + 1)));
            assert(prefix + (rest[0].skip(1) + decode_concat_spec(rest.skip(1)))
                =~= (prefix + bytes@.subrange(1, 32)) + decode_concat_spec(
                views_of(elements@.skip(i + 1)),
            ));
        }
        i = i + 1;
    }
    proof {
        assert(elements@.skip(i as int) =~= Seq::<FieldElement>::empty());
        assert(views_of(Seq::<FieldElement>::empty()) =~= Seq::<Seq<u8>>::empty());
        assert(result@ + decode_concat_spec(Seq::<Seq<u8>>::empty()) =~= result@);
    }
    result.truncate(original_length);
    proof {
        assert(result@ =~= decode_concat_spec(views_of(elements@)).take(original_length as int));
    }
    Ok(result)
}

} // verus!
