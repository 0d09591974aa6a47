//! Translation between character indices and byte offsets within a row.
//!
//! Every component that has to resolve the character/byte duality routes
//! through [`char_idx_to_byte`]; no other code indexes row bytes by a
//! character position directly.

use vstd::prelude::*;

use crate::encoding::{
    byte_offset_of, char_count, lead_width_of, lemma_offset_succ, well_formed,
};
use crate::error::EditError;

verus! {

/// Number of characters in the row.
pub fn count_chars(row: &Vec<u8>) -> (n: usize)
    requires
        well_formed(row@),
    ensures
        n == char_count(row@),
{
    let len = row.len();
    let mut i: usize = 0;
    let mut k: usize = 0;
    proof {
        assert(row@.skip(0) =~= row@);
    }
    while i < len
        invariant
            i <= len,
            k <= i,
            len == row@.len(),
            well_formed(row@.skip(i as int)),
            char_count(row@) == k + char_count(row@.skip(i as int)),
        decreases len - i,
    {
        let w = lead_width_of(row[i]);
        proof {
            let sv = row@.skip(i as int);
            assert(sv[0] == row@[i as int]);
            assert(sv.skip(w as int) =~= row@.skip(i + w));
        }
        i = i + w;
        k = k + 1;
    }
    proof {
        assert(row@.skip(len as int) =~= Seq::<u8>::empty());
    }
    k
}

/// Byte offset of the `idx`-th character of the row; the row's byte length
/// when `idx` equals the character count (the append position); an
/// `IndexOutOfRange` error when `idx` exceeds the character count.
pub fn char_idx_to_byte(row: &Vec<u8>, idx: usize) -> (r: Result<usize, EditError>)
    requires
        well_formed(row@),
    ensures
        idx <= char_count(row@) ==> r == Ok::<usize, EditError>(
            byte_offset_of(row@, idx as nat) as usize,
        ),
        idx > char_count(row@) ==> r == Err::<usize, EditError>(EditError::IndexOutOfRange),
{
    let len = row.len();
    let mut i: usize = 0;
    let mut k: usize = 0;
    proof {
        assert(row@.skip(0) =~= row@);
    }
    while k < idx && i < len
        invariant
            i <= len,
            k <= idx,
            len == row@.len(),
            well_formed(row@),
            well_formed(row@.skip(i as int)),
            char_count(row@) == k + char_count(row@.skip(i as int)),
            i == byte_offset_of(row@, k as nat),
        decreases len - i,
    {
        let w = lead_width_of(row[i]);
        proof {
            let sv = row@.skip(i as int);
            assert(sv[0] == row@[i as int]);
            assert(k < char_count(row@));
            lemma_offset_succ(row@, k as nat);
            assert(sv.skip(w as int) =~= row@.skip(i + w));
        }
        i = i + w;
        k = k + 1;
    }
    if k == idx {
        Ok(i)
    } else {
        proof {
            assert(row@.skip(len as int) =~= Seq::<u8>::empty());
        }
        Err(EditError::IndexOutOfRange)
    }
}

/// Replaces the bytes of `row` between `start` and `end` with `ins`, leaving
/// `row` itself untouched and returning the edited copy.
pub fn replace_range(row: &Vec<u8>, start: usize, end: usize, ins: &Vec<u8>) -> (r: Vec<u8>)
    requires
        start <= end <= row.len(),
        row.len() - (end - start) + ins.len() <= usize::MAX,
    ensures
        r@ == row@.take(start as int) + ins@ + row@.skip(end as int),
{
    let mut out: Vec<u8> = Vec::new();
    let mut i: usize = 0;
    proof {
        assert(out@ =~= row@.take(0));
    }
    while i < start
        invariant
            i <= start,
            start <= row@.len(),
            out@ == row@.take(i as int),
        decreases start - i,
    {
        out.push(row[i]);
        proof {
            assert(row@.take(i as int).push(row@[i as int]) =~= row@.take(i + 1));
        }
        i = i + 1;
    }
    let mut j: usize = 0;
    while j < ins.len()
        invariant
            j <= ins@.len(),
            start <= row@.len(),
            out@ == row@.take(start as int) + ins@.take(j as int),
        decreases ins@.len() - j,
    {
        out.push(ins[j]);
        proof {
            assert((row@.take(start as int) + ins@.take(j as int)).push(ins@[j as int]) =~= row@.take(
                start as int,
            ) + ins@.take(j + 1));
        }
        j = j + 1;
    }
    proof {
        assert(ins@.take(ins@.len() as int) =~= ins@);
    }
    let mut k: usize = end;
    let len = row.len();
    while k < len
        invariant
            end <= k <= len,
            len == row@.len(),
            start <= end,
            out@ == row@.take(start as int) + ins@ + row@.subrange(end as int, k as int),
        decreases len - k,
    {
        out.push(row[k]);
        proof {
            assert((row@.take(start as int) + ins@ + row@.subrange(end as int, k as int)).push(
                row@[k as int],
            ) =~= row@.take(start as int) + ins@ + row@.subrange(end as int, k + 1));
        }
        k = k + 1;
    }
    proof {
        assert(row@.subrange(end as int, len as int) =~= row@.skip(end as int));
    }
    out
}

} // verus!
