//! Bounded reads of 32-byte words and byte runs from a buffer.

use vstd::prelude::*;
use vstd::slice::{slice_subrange, slice_to_vec};
use crate::types::{Error, Word};

verus! {

/// Every byte of `s` is zero.
pub open spec fn all_zero(s: Seq<u8>) -> bool {
    forall|i: int| 0 <= i < s.len() ==> s[i] == 0
}

/// `n` bytes starting at `o` lie inside `d`.
pub open spec fn fits(d: Seq<u8>, o: int, n: int) -> bool {
    0 <= o && 0 <= n && o + n <= d.len()
}

/// The word starting at `o`.
pub open spec fn word_at(d: Seq<u8>, o: int) -> Seq<u8> {
    d.subrange(o, o + 32)
}

/// The last four bytes of a word read as a big-endian number.
pub open spec fn low_u32(w: Seq<u8>) -> int {
    w[28] * 16777216 + w[29] * 65536 + w[30] * 256 + w[31]
}

/// A word read as an offset or length: its first 28 bytes must be zero.
pub open spec fn usize_of(w: Seq<u8>) -> Option<int> {
    if all_zero(w.subrange(0, 28)) {
        Some(low_u32(w))
    } else {
        None
    }
}

/// A word read as a boolean: one-hot in the last byte, all else zero.
pub open spec fn bool_of(w: Seq<u8>) -> Option<bool> {
    if all_zero(w.subrange(0, 31)) && w[31] <= 1 {
        Some(w[31] == 1)
    } else {
        None
    }
}

/// The smallest multiple of `m` that is at least `v`.
pub open spec fn round_up(v: int, m: int) -> int {
    (v + m - 1) / m * m
}

/// The `n` bytes at `o`; in validating mode the run is padded with zeros up
/// to the next multiple of 32, and that padding must lie inside `d`.
pub open spec fn take_spec(d: Seq<u8>, o: int, n: int, validate: bool) -> Option<Seq<u8>> {
    if validate {
        let p = round_up(n, 32);
        if fits(d, o, p) && all_zero(d.subrange(o + n, o + p)) {
            Some(d.subrange(o, o + n))
        } else {
            None
        }
    } else if fits(d, o, n) {
        Some(d.subrange(o, o + n))
    } else {
        None
    }
}

/// A view of `len` bytes of `data` from `offset`.
pub fn peek(data: &[u8], offset: usize, len: usize) -> (r: Result<&[u8], Error>)
    ensures
        match r {
            Ok(s) => fits(data@, offset as int, len as int) && s@ == data@.subrange(
                offset as int,
                offset + len,
            ),
            Err(e) => !fits(data@, offset as int, len as int) && e == Error::InvalidData,
        },
{
    if len > data.len() || offset > data.len() - len {
        Err(Error::InvalidData)
    } else {
        Ok(slice_subrange(data, offset, offset + len))
    }
}

/// A copy of the word at `offset`.
pub fn peek_32_bytes(data: &[u8], offset: usize) -> (r: Result<Word, Error>)
    ensures
        match r {
            Ok(w) => fits(data@, offset as int, 32) && w@ == word_at(data@, offset as int),
            Err(e) => !fits(data@, offset as int, 32) && e == Error::InvalidData,
        },
{
    let s = peek(data, offset, 32)?;
    let mut out: Word = [0u8; 32];
    let mut i: usize = 0;
    while i < 32
        invariant
            i <= 32,
            s@.len() == 32,
            forall|j: int| 0 <= j < i ==> out@[j] == s@[j],
        decreases 32 - i,
    {
        out[i] = s[i];
        i = i + 1;
    }
    assert(out@ == s@);
    Ok(out)
}

/// Succeeds iff every byte of `data` is zero.
pub fn check_zeroes(data: &[u8]) -> (r: Result<(), Error>)
    ensures
        match r {
            Ok(_) => all_zero(data@),
            Err(e) => !all_zero(data@) && e == Error::InvalidData,
        },
{
    let mut i: usize = 0;
    while i < data.len()
        invariant
            i <= data@.len(),
            forall|j: int| 0 <= j < i ==> data@[j] == 0,
        decreases data@.len() - i,
    {
        if data[i] != 0 {
            return Err(Error::InvalidData);
        }
        i = i + 1;
    }
    Ok(())
}

/// Reads a word as an offset or length, capped at 2^32 - 1.
pub fn as_usize(w: &Word) -> (r: Result<usize, Error>)
    ensures
        match r {
            Ok(n) => usize_of(w@) == Some(n as int),
            Err(e) => usize_of(w@) is None && e == Error::InvalidData,
        },
{
    let ws = w.as_slice();
    check_zeroes(slice_subrange(ws, 0, 28))?;
    assert(w@.subrange(0, 28) == ws@.subrange(0, 28));
    let v: u32 = (w[28] as u32) * 16777216 + (w[29] as u32) * 65536 + (w[30] as u32) * 256
        + (w[31] as u32);
    Ok(v as usize)
}

/// Reads a word as a boolean.
pub fn as_bool(w: &Word) -> (r: Result<bool, Error>)
    ensures
        match r {
            Ok(b) => bool_of(w@) == Some(b),
            Err(e) => bool_of(w@) is None && e == Error::InvalidData,
        },
{
    let ws = w.as_slice();
    check_zeroes(slice_subrange(ws, 0, 31))?;
    assert(w@.subrange(0, 31) == ws@.subrange(0, 31));
    if w[31] > 1 {
        return Err(Error::InvalidData);
    }
    Ok(w[31] == 1)
}

/// `value` rounded up to a multiple of `padding`.
pub fn round_up_nearest_multiple(value: usize, padding: usize) -> (r: usize)
    requires
        padding > 0,
        value + padding - 1 <= usize::MAX,
    ensures
        r == round_up(value as int, padding as int),
        value <= r < value + padding,
{
    let s = value + (padding - 1);
    let q = s / padding;
    proof {
        vstd::arithmetic::div_mod::lemma_fundamental_div_mod(s as int, padding as int);
        vstd::arithmetic::div_mod::lemma_mod_bound(s as int, padding as int);
        assert(q * padding == s - s % padding) by (nonlinear_arith)
            requires
                s == padding * q + s % padding,
        ;
    }
    q * padding
}

/// A length within 31 of the largest `usize` rounds up beyond it.
pub proof fn lemma_round_up_past_max(n: int)
    requires
        usize::MAX - 31 < n <= usize::MAX,
    ensures
        round_up(n, 32) > usize::MAX,
{
    let m = usize::MAX + 1;
    let j = m / 32;
    assert(m == 32 * j) by {
        assert(m == 0x1_0000_0000 || m == 0x1_0000_0000_0000_0000);
    }
    vstd::arithmetic::div_mod::lemma_fundamental_div_mod(n + 31, 32);
    vstd::arithmetic::div_mod::lemma_mod_bound(n + 31, 32);
    let k = (n + 31) / 32;
    assert(n + 31 == 32 * k + (n + 31) % 32);
    assert(k >= j);
}

/// A copy of the `len` bytes at `offset`; with `validate` the padding to the
/// next word boundary must be present and zero.
pub fn take_bytes(data: &[u8], offset: usize, len: usize, validate: bool) -> (r: Result<Vec<u8>, Error>)
    ensures
        match r {
            Ok(b) => take_spec(data@, offset as int, len as int, validate) == Some(b@),
            Err(e) => take_spec(data@, offset as int, len as int, validate) is None && e
                == Error::InvalidData,
        },
{
    if validate {
        if len > usize::MAX - 31 {
            proof {
                lemma_round_up_past_max(len as int);
                assert(data@.len() == data.len());
            }
            return Err(Error::InvalidData);
        }
        let padded_len = round_up_nearest_multiple(len, 32);
        let padded = peek(data, offset, padded_len)?;
        let pad = slice_subrange(padded, len, padded_len);
        assert(pad@ == data@.subrange(offset + len, offset + padded_len));
        check_zeroes(pad)?;
        let run = slice_subrange(padded, 0, len);
        assert(run@ == data@.subrange(offset as int, offset + len));
        Ok(slice_to_vec(run))
    } else {
        let run = peek(data, offset, len)?;
        Ok(slice_to_vec(run))
    }
}

/// What lossy UTF-8 decoding makes of the bytes: each invalid sequence
/// becomes U+FFFD.
pub uninterp spec fn lossy_utf8(b: Seq<u8>) -> Seq<char>;

/// Relies on `String::from_utf8_lossy`: the text depends on the bytes alone,
/// and no bytes give no text.
#[verifier::external_body]
pub(crate) fn text_from_bytes(b: &[u8]) -> (r: String)
    ensures
        r@ == lossy_utf8(b@),
        b@.len() == 0 ==> r@.len() == 0,
{
    String::from_utf8_lossy(b).into_owned()
}

} // verus!
