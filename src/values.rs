//! Plain encoding of the present values of a nullable column, together with
//! its presence bitmap.
use vstd::prelude::*;

use crate::bitmap::{bitmap_buffer, decode_bitmap, encode_bool, hybrid, lemma_bitmap_round_trip};
use crate::error::Error;
use crate::native::NativeType;

verus! {

/// The present values of `col`, in order.
pub open spec fn present<T>(col: Seq<Option<T>>) -> Seq<T>
    decreases col.len(),
{
    if col.len() == 0 {
        seq![]
    } else {
        let rest = present(col.drop_last());
        match col.last() {
            Some(v) => rest.push(v),
            None => rest,
        }
    }
}

/// One flag per entry of `col`: whether it holds a value.
pub open spec fn presence<T>(col: Seq<Option<T>>) -> Seq<bool> {
    col.map_values(|o: Option<T>| o is Some)
}

/// The little-endian bytes of each of `vals`, one after another.
pub open spec fn concat_le<T: NativeType>(vals: Seq<T>) -> Seq<u8>
    decreases vals.len(),
{
    if vals.len() == 0 {
        seq![]
    } else {
        concat_le(vals.drop_last()) + vals.last().le_bytes()
    }
}

/// Plain encoding of `col`: the bytes of its present values, in order.
pub open spec fn plain_bytes<T: NativeType>(col: Seq<Option<T>>) -> Seq<u8> {
    concat_le(present(col))
}

/// The plain bytes of `vals` take the type's width for each value.
pub proof fn lemma_concat_le_len<T: NativeType>(vals: Seq<T>)
    ensures
        concat_le(vals).len() == vals.len() * T::width(),
    decreases vals.len(),
{
    if vals.len() > 0 {
        lemma_concat_le_len(vals.drop_last());
        vals.last().lemma_le_bytes_width();
        let n = vals.len() as int;
        let w = T::width() as int;
        assert((n - 1) * w + w == n * w) by (nonlinear_arith);
    }
}

/// Decoding the bitmap buffer of a column gives back exactly which of its
/// entries hold a value.
pub proof fn lemma_column_bitmap_round_trip<T>(col: Seq<Option<T>>)
    requires
        hybrid(presence(col)).len() <= u32::MAX,
    ensures
        decode_bitmap(bitmap_buffer(presence(col)), col.len()) == Some(presence(col)),
{
    lemma_bitmap_round_trip(presence(col));
}

/// Splits a column into the plain bytes of its present values and the
/// encoded bitmap buffer of its presence flags. Fails with `Encoding` when
/// the bitmap stream is longer than its 4-byte prefix can say.
pub fn unzip_option<T: NativeType>(array: &[Option<T>]) -> (r: Result<(Vec<u8>, Vec<u8>), Error>)
    ensures
        r is Ok <==> hybrid(presence(array@)).len() <= u32::MAX,
        r matches Ok((values, validity)) ==> values@ == plain_bytes(array@) && validity@
            == bitmap_buffer(presence(array@)),
        r matches Ok((values, _)) ==> values@.len() == present(array@).len() * T::width(),
        r matches Err(e) ==> e == Error::Encoding,
{
    let mut values: Vec<u8> = Vec::new();
    let mut flags: Vec<bool> = Vec::new();
    let mut i: usize = 0;
    while i < array.len()
        invariant
            i <= array@.len(),
            flags@ == presence(array@.take(i as int)),
            values@ == plain_bytes(array@.take(i as int)),
        decreases array@.len() - i,
    {
        let ghost before = array@.take(i as int);
        let ghost after = array@.take(i + 1);
        assert(after.drop_last() =~= before);
        match array[i] {
            Some(v) => {
                v.extend_le_bytes(&mut values);
                flags.push(true);
                assert(present(after) == present(before).push(v));
                assert(present(after).drop_last() =~= present(before));
            },
            None => {
                flags.push(false);
            },
        }
        assert(flags@ =~= presence(after));
        i = i + 1;
    }
    assert(array@.take(array@.len() as int) =~= array@);
    proof {
        lemma_concat_le_len(present(array@));
    }
    let validity = encode_bool(&flags)?;
    Ok((values, validity))
}

} // verus!
