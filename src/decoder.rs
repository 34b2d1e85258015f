//! The recursive decoder: the model of a decode as spec functions, and the
//! executable walker proved against it.

use vstd::prelude::*;
use vstd::slice::slice_subrange;
use crate::types::{
    all_empty_valid, any_dynamic, dynamic, views, Error, ParamType, Token, Value, Word,
};
use crate::word::{
    all_zero, as_bool, as_usize, bool_of, check_zeroes, fits, lossy_utf8, peek_32_bytes,
    round_up, round_up_nearest_multiple, take_bytes, take_spec, text_from_bytes, usize_of, word_at,
};

verus! {

/// The text of the error for an empty buffer that the declared types cannot
/// accept.
pub const EMPTY_INPUT_MESSAGE: &'static str = "please ensure the contract and method you're calling exist! failed to decode empty bytes. if you're using jsonrpc this is likely due to jsonrpc returning `0x` in case contract or method don't exist";

broadcast use {
    vstd::seq::axiom_seq_index_decreases,
    vstd::seq::axiom_seq_subrange_decreases,
    vstd::std_specs::vec::axiom_vec_decreases_to_view,
    vstd::std_specs::vec::axiom_vec_index_decreases,
};

/// The offset held in the head slot at `o`.
pub open spec fn head_offset(d: Seq<u8>, o: int) -> Option<int> {
    if fits(d, o, 32) {
        usize_of(word_at(d, o))
    } else {
        None
    }
}

/// The larger of two positions.
pub open spec fn later(a: int, b: int) -> int {
    if a >= b {
        a
    } else {
        b
    }
}

/// Where a run of `n` bytes at `o` ends, with its zero padding in
/// validating mode.
pub open spec fn run_end(o: int, n: int, validate: bool) -> int {
    if validate {
        o + round_up(n, 32)
    } else {
        o + n
    }
}

/// The byte payload of a `Bytes` or `String` whose head slot is at `o` (the
/// slot holds the offset of a length word, which the payload follows), and
/// where the payload ends.
pub open spec fn tail_bytes(d: Seq<u8>, o: int, validate: bool) -> Option<(Seq<u8>, int)> {
    match head_offset(d, o) {
        Some(h) => match head_offset(d, h) {
            Some(n) => match take_spec(d, h + 32, n, validate) {
                Some(b) => Some((b, run_end(h + 32, n, validate))),
                None => None,
            },
            None => None,
        },
        None => None,
    }
}

/// Decoding one value of type `p` whose head slot starts at `o` in the region
/// `d`: the value, the offset just past the head slot, and the end of all
/// the bytes read for it (its head and its tails), or 0 when none were read.
pub open spec fn param_spec(p: ParamType, d: Seq<u8>, o: int, validate: bool) -> Option<
    (Value, int, int),
>
    decreases p, 0nat,
{
    match p {
        ParamType::Address => if fits(d, o, 32) && (!validate || all_zero(
            word_at(d, o).subrange(0, 12),
        )) {
            Some((Value::Address(word_at(d, o).subrange(12, 32)), o + 32, o + 32))
        } else {
            None
        },
        ParamType::Int(_) => if fits(d, o, 32) {
            Some((Value::Int(word_at(d, o)), o + 32, o + 32))
        } else {
            None
        },
        ParamType::Uint(_) => if fits(d, o, 32) {
            Some((Value::Uint(word_at(d, o)), o + 32, o + 32))
        } else {
            None
        },
        ParamType::Bool => if fits(d, o, 32) {
            match bool_of(word_at(d, o)) {
                Some(b) => Some((Value::Bool(b), o + 32, o + 32)),
                None => None,
            }
        } else {
            None
        },
        ParamType::FixedBytes(n) => match take_spec(d, o, n as int, validate) {
            Some(b) => if o + 32 <= usize::MAX {
                Some((Value::FixedBytes(b), o + 32, run_end(o, n as int, validate)))
            } else {
                None
            },
            None => None,
        },
        ParamType::Bytes => match tail_bytes(d, o, validate) {
            Some((b, x)) => Some((Value::Bytes(b), o + 32, later(o + 32, x))),
            None => None,
        },
        ParamType::String => match tail_bytes(d, o, validate) {
            Some((b, x)) => Some((Value::String(lossy_utf8(b)), o + 32, later(o + 32, x))),
            None => None,
        },
        ParamType::Array(e) => match head_offset(d, o) {
            Some(h) => match head_offset(d, h) {
                Some(n) => match repeat_spec(
                    *e,
                    d.subrange(h + 32, d.len() as int),
                    0,
                    n as nat,
                    validate,
                ) {
                    Some((vs, _, x)) => Some((Value::Array(vs), o + 32, later(o + 32, h + 32 + x))),
                    None => None,
                },
                None => None,
            },
            None => None,
        },
        ParamType::FixedArray(e, n) => if dynamic(*e) {
            match head_offset(d, o) {
                Some(h) => if h <= d.len() {
                    match repeat_spec(*e, d.subrange(h, d.len() as int), 0, n as nat, validate) {
                        Some((vs, _, x)) => Some((Value::FixedArray(vs), o + 32, later(o + 32, h + x))),
                        None => None,
                    }
                } else {
                    None
                },
                None => None,
            }
        } else {
            match repeat_spec(*e, d, o, n as nat, validate) {
                Some((vs, end, x)) => Some((Value::FixedArray(vs), end, x)),
                None => None,
            }
        },
        ParamType::Tuple(ts) => if any_dynamic(ts@) {
            match head_offset(d, o) {
                Some(h) => if h <= d.len() {
                    match list_spec(ts@, d.subrange(h, d.len() as int), 0, validate) {
                        Some((vs, _, x)) => Some((Value::Tuple(vs), o + 32, later(o + 32, h + x))),
                        None => None,
                    }
                } else {
                    None
                },
                None => None,
            }
        } else {
            match list_spec(ts@, d, o, validate) {
                Some((vs, end, x)) => Some((Value::Tuple(vs), end, x)),
                None => None,
            }
        },
    }
}

/// Decoding `n` values of type `e` one after another from `o`: the values,
/// the offset past the last head slot, and the end of all bytes read.
pub open spec fn repeat_spec(e: ParamType, d: Seq<u8>, o: int, n: nat, validate: bool) -> Option<
    (Seq<Value>, int, int),
>
    decreases e, n,
{
    if n == 0 {
        Some((Seq::empty(), o, 0))
    } else {
        match repeat_spec(e, d, o, (n - 1) as nat, validate) {
            Some((vs, mid, x)) => match param_spec(e, d, mid, validate) {
                Some((v, end, y)) => Some((vs.push(v), end, later(x, y))),
                None => None,
            },
            None => None,
        }
    }
}

/// Decoding one value of each type of `ts`, in order, from `o`: the values,
/// the offset past the last head slot, and the end of all bytes read.
pub open spec fn list_spec(ts: Seq<ParamType>, d: Seq<u8>, o: int, validate: bool) -> Option<
    (Seq<Value>, int, int),
>
    decreases ts, 0nat,
{
    if ts.len() == 0 {
        Some((Seq::empty(), o, 0))
    } else {
        match list_spec(ts.subrange(0, ts.len() - 1), d, o, validate) {
            Some((vs, mid, x)) => match param_spec(ts[ts.len() - 1], d, mid, validate) {
                Some((v, end, y)) => Some((vs.push(v), end, later(x, y))),
                None => None,
            },
            None => None,
        }
    }
}

/// The buffer is empty while some declared type needs input.
pub open spec fn refuses_empty(types: Seq<ParamType>, d: Seq<u8>) -> bool {
    d.len() == 0 && !all_empty_valid(types)
}

/// The values that a buffer encodes for a list of types; in validating mode
/// the bytes read, heads and tails, must also end exactly at the end of the
/// buffer.
pub open spec fn decode_spec(types: Seq<ParamType>, d: Seq<u8>, validate: bool) -> Option<Seq<Value>> {
    match list_spec(types, d, 0, validate) {
        Some((vs, _, x)) => if validate && x != d.len() {
            None
        } else {
            Some(vs)
        },
        None => None,
    }
}

/// The text of the error for an empty buffer that the declared types cannot
/// accept.
pub open spec fn empty_input_message() -> Seq<char> {
    EMPTY_INPUT_MESSAGE@
}

/// Decoding the type asks the allocator for room: it is, or holds, an array.
pub open spec fn reserves(p: ParamType) -> bool
    decreases p, 0nat,
{
    match p {
        ParamType::Array(_) | ParamType::FixedArray(_, _) => true,
        ParamType::Tuple(ts) => any_reserves(ts@),
        _ => false,
    }
}

/// Some type of the list asks the allocator for room.
pub open spec fn any_reserves(ts: Seq<ParamType>) -> bool
    decreases ts, 0nat,
{
    if ts.len() == 0 {
        false
    } else {
        any_reserves(ts.subrange(0, ts.len() - 1)) || reserves(ts[ts.len() - 1])
    }
}

/// Once `i` decodes of `e` have failed, more of them fail too.
pub proof fn lemma_repeat_failure_persists(e: ParamType, d: Seq<u8>, o: int, i: nat, n: nat, validate: bool)
    requires
        i <= n,
        repeat_spec(e, d, o, i, validate) is None,
    ensures
        repeat_spec(e, d, o, n, validate) is None,
    decreases n,
{
    if n > i {
        lemma_repeat_failure_persists(e, d, o, i, (n - 1) as nat, validate);
    }
}

/// Once a prefix of a list has failed to decode, the whole list fails.
pub proof fn lemma_list_failure_persists(ts: Seq<ParamType>, d: Seq<u8>, o: int, i: int, validate: bool)
    requires
        0 <= i <= ts.len(),
        list_spec(ts.subrange(0, i), d, o, validate) is None,
    ensures
        list_spec(ts, d, o, validate) is None,
    decreases ts.len() - i,
{
    if i < ts.len() {
        assert(ts.subrange(0, i + 1).subrange(0, i) == ts.subrange(0, i));
        lemma_list_failure_persists(ts, d, o, i + 1, validate);
    } else {
        assert(ts.subrange(0, i) == ts);
    }
}

proof fn lemma_any_reserves(ts: Seq<ParamType>, i: int)
    requires
        0 <= i < ts.len(),
        reserves(ts[i]),
    ensures
        any_reserves(ts),
    decreases ts.len(),
{
    if i < ts.len() - 1 {
        let front = ts.subrange(0, ts.len() - 1);
        assert(front[i] == ts[i]);
        lemma_any_reserves(front, i);
    }
}


/// Why a decode stopped.
#[derive(Debug, Clone, Copy, PartialEq, Eq, Structural)]
pub enum Fault {
    /// The buffer is empty while the declared types need input.
    EmptyInput,
    /// The buffer is not a valid encoding of the declared types.
    Malformed,
    /// The allocator refused room for the values of an array.
    NoRoom,
}

/// One decoded value, the offset just past its head slot, and the end of all
/// the bytes read for it.
struct DecodeResult {
    token: Token,
    new_offset: usize,
    extent: usize,
}

/// A copy of the word at `offset`.
fn read_word(data: &[u8], offset: usize) -> (r: Result<Word, Fault>)
    ensures
        match r {
            Ok(w) => fits(data@, offset as int, 32) && w@ == word_at(data@, offset as int),
            Err(f) => !fits(data@, offset as int, 32) && f == Fault::Malformed,
        },
{
    match peek_32_bytes(data, offset) {
        Ok(w) => Ok(w),
        Err(_) => Err(Fault::Malformed),
    }
}

/// Reads the head slot at `offset` as an offset.
fn read_offset(data: &[u8], offset: usize) -> (r: Result<usize, Fault>)
    ensures
        match r {
            Ok(h) => head_offset(data@, offset as int) == Some(h as int),
            Err(f) => head_offset(data@, offset as int) is None && f == Fault::Malformed,
        },
{
    let w = read_word(data, offset)?;
    match as_usize(&w) {
        Ok(h) => Ok(h),
        Err(_) => Err(Fault::Malformed),
    }
}

/// A copy of the `len` bytes at `offset`, and where they end, with their
/// padding in validating mode.
fn take_run(data: &[u8], offset: usize, len: usize, validate: bool) -> (r: Result<(Vec<u8>, usize), Fault>)
    ensures
        match r {
            Ok((b, end)) => take_spec(data@, offset as int, len as int, validate) == Some(b@) && end
                == run_end(offset as int, len as int, validate) && end <= data@.len(),
            Err(f) => take_spec(data@, offset as int, len as int, validate) is None && f
                == Fault::Malformed,
        },
{
    assert(data@.len() == data.len());
    let bytes = match take_bytes(data, offset, len, validate) {
        Ok(b) => b,
        Err(_) => return Err(Fault::Malformed),
    };
    if validate {
        if len > usize::MAX - 31 {
            proof {
                crate::word::lemma_round_up_past_max(len as int);
            }
        }
        let padded = round_up_nearest_multiple(len, 32);
        Ok((bytes, offset + padded))
    } else {
        Ok((bytes, offset + len))
    }
}

/// The payload of a `Bytes` or `String` whose head slot is at `offset`, and
/// where it ends.
fn take_tail(data: &[u8], offset: usize, validate: bool) -> (r: Result<(Vec<u8>, usize), Fault>)
    ensures
        match r {
            Ok((b, x)) => tail_bytes(data@, offset as int, validate) == Some((b@, x as int)) && x
                <= data@.len(),
            Err(f) => tail_bytes(data@, offset as int, validate) is None && f == Fault::Malformed,
        },
{
    assert(data@.len() == data.len());
    let dynamic_offset = read_offset(data, offset)?;
    let len = read_offset(data, dynamic_offset)?;
    take_run(data, dynamic_offset + 32, len, validate)
}

proof fn lemma_views_push(s: Seq<Token>, t: Token)
    ensures
        views(s.push(t)) == views(s).push(t.view()),
{
    assert(s.push(t).subrange(0, s.len() as int) == s);
}

/// Decodes `n` values of type `elem` one after another from `offset`: the
/// tokens, the offset past the last head slot, and the end of all bytes read.
fn decode_repeat(elem: &ParamType, data: &[u8], offset: usize, n: usize, validate: bool) -> (r:
    Result<(Vec<Token>, usize, usize), Fault>)
    ensures
        match r {
            Ok((ts, end, x)) => repeat_spec(*elem, data@, offset as int, n as nat, validate) == Some(
                (views(ts@), end as int, x as int),
            ) && x <= data@.len(),
            Err(f) => f != Fault::EmptyInput && (f == Fault::Malformed ==> repeat_spec(
                *elem,
                data@,
                offset as int,
                n as nat,
                validate,
            ) is None),
        },
    decreases elem, 1nat,
{
    let mut tokens: Vec<Token> = Vec::new();
    if tokens.try_reserve(n).is_err() {
        return Err(Fault::NoRoom);
    }
    let mut new_offset = offset;
    let mut extent: usize = 0;
    let mut i: usize = 0;
    while i < n
        invariant
            i <= n,
            extent <= data@.len(),
            repeat_spec(*elem, data@, offset as int, i as nat, validate) == Some(
                (views(tokens@), new_offset as int, extent as int),
            ),
        decreases n - i,
    {
        let res = match decode_param(elem, data, new_offset, validate) {
            Ok(res) => res,
            Err(f) => {
                proof {
                    if f == Fault::Malformed {
                        lemma_repeat_failure_persists(*elem, data@, offset as int, (i + 1) as nat, n as nat, validate);
                    }
                }
                return Err(f);
            },
        };
        proof {
            lemma_views_push(tokens@, res.token);
        }
        new_offset = res.new_offset;
        if res.extent > extent {
            extent = res.extent;
        }
        tokens.push(res.token);
        i = i + 1;
    }
    Ok((tokens, new_offset, extent))
}

/// Decodes one value of each type of `ts`, in order, from `offset`: the
/// tokens, the offset past the last head slot, and the end of all bytes read.
fn decode_list(ts: &Vec<ParamType>, data: &[u8], offset: usize, validate: bool) -> (r: Result<
    (Vec<Token>, usize, usize),
    Fault,
>)
    ensures
        match r {
            Ok((tokens, end, x)) => list_spec(ts@, data@, offset as int, validate) == Some(
                (views(tokens@), end as int, x as int),
            ) && x <= data@.len(),
            Err(f) => match f {
                Fault::Malformed => list_spec(ts@, data@, offset as int, validate) is None,
                Fault::NoRoom => any_reserves(ts@),
                Fault::EmptyInput => false,
            },
        },
    decreases ts, 1nat,
{
    let mut tokens: Vec<Token> = Vec::with_capacity(ts.len());
    let mut new_offset = offset;
    let mut extent: usize = 0;
    let mut i: usize = 0;
    while i < ts.len()
        invariant
            i <= ts@.len(),
            extent <= data@.len(),
            list_spec(ts@.subrange(0, i as int), data@, offset as int, validate) == Some(
                (views(tokens@), new_offset as int, extent as int),
            ),
        decreases ts@.len() - i,
    {
        proof {
            assert(decreases_to!(*ts => ts[i as int]));
            assert(ts@.subrange(0, i + 1).subrange(0, i as int) == ts@.subrange(0, i as int));
        }
        let res = match decode_param(&ts[i], data, new_offset, validate) {
            Ok(res) => res,
            Err(f) => {
                proof {
                    if f == Fault::Malformed {
                        lemma_list_failure_persists(ts@, data@, offset as int, i + 1, validate);
                    } else {
                        lemma_any_reserves(ts@, i as int);
                    }
                }
                return Err(f);
            },
        };
        proof {
            lemma_views_push(tokens@, res.token);
        }
        new_offset = res.new_offset;
        if res.extent > extent {
            extent = res.extent;
        }
        tokens.push(res.token);
        i = i + 1;
    }
    assert(ts@.subrange(0, ts@.len() as int) == ts@);
    Ok((tokens, new_offset, extent))
}

/// Decodes one value of type `param` whose head slot is at `offset`.
fn decode_param(param: &ParamType, data: &[u8], offset: usize, validate: bool) -> (r: Result<
    DecodeResult,
    Fault,
>)
    ensures
        match r {
            Ok(res) => param_spec(*param, data@, offset as int, validate) == Some(
                (res.token.view(), res.new_offset as int, res.extent as int),
            ) && res.extent <= data@.len(),
            Err(f) => match f {
                Fault::Malformed => param_spec(*param, data@, offset as int, validate) is None,
                Fault::NoRoom => reserves(*param),
                Fault::EmptyInput => false,
            },
        },
    decreases param, 0nat,
{
    assert(data@.len() == data.len());
    match param {
        ParamType::Address => {
            let slice = read_word(data, offset)?;
            if validate {
                let ws = slice.as_slice();
                if check_zeroes(slice_subrange(ws, 0, 12)).is_err() {
                    return Err(Fault::Malformed);
                }
                assert(ws@.subrange(0, 12) == slice@.subrange(0, 12));
            }
            let mut address = [0u8; 20];
            let mut i: usize = 0;
            while i < 20
                invariant
                    i <= 20,
                    forall|j: int| 0 <= j < i ==> address@[j] == slice@[j + 12],
                decreases 20 - i,
            {
                address[i] = slice[i + 12];
                i = i + 1;
            }
            assert(address@ == slice@.subrange(12, 32));
            Ok(
                DecodeResult {
                    token: Token::Address(address),
                    new_offset: offset + 32,
                    extent: offset + 32,
                },
            )
        },
        ParamType::Int(_) => {
            let slice = read_word(data, offset)?;
            Ok(DecodeResult { token: Token::Int(slice), new_offset: offset + 32, extent: offset + 32 })
        },
        ParamType::Uint(_) => {
            let slice = read_word(data, offset)?;
            Ok(DecodeResult { token: Token::Uint(slice), new_offset: offset + 32, extent: offset + 32 })
        },
        ParamType::Bool => {
            let slice = read_word(data, offset)?;
            let b = match as_bool(&slice) {
                Ok(b) => b,
                Err(_) => return Err(Fault::Malformed),
            };
            Ok(DecodeResult { token: Token::Bool(b), new_offset: offset + 32, extent: offset + 32 })
        },
        ParamType::FixedBytes(len) => {
            // The value is padded with trailing zeros to a whole word.
            let (bytes, end) = take_run(data, offset, *len, validate)?;
            if offset > usize::MAX - 32 {
                return Err(Fault::Malformed);
            }
            Ok(DecodeResult { token: Token::FixedBytes(bytes), new_offset: offset + 32, extent: end })
        },
        ParamType::Bytes => {
            let (bytes, end) = take_tail(data, offset, validate)?;
            let extent = if end > offset + 32 { end } else { offset + 32 };
            Ok(DecodeResult { token: Token::Bytes(bytes), new_offset: offset + 32, extent })
        },
        ParamType::String => {
            let (bytes, end) = take_tail(data, offset, validate)?;
            // Invalid UTF-8 is replaced, never rejected: data written on chain
            // is not trusted to be well formed.
            let text = text_from_bytes(bytes.as_slice());
            let extent = if end > offset + 32 { end } else { offset + 32 };
            Ok(DecodeResult { token: Token::String(text), new_offset: offset + 32, extent })
        },
        ParamType::Array(t) => {
            let len_offset = read_offset(data, offset)?;
            let len = read_offset(data, len_offset)?;
            let tail = slice_subrange(data, len_offset + 32, data.len());
            let (tokens, _, x) = decode_repeat(t, tail, 0, len, validate)?;
            let end = len_offset + 32 + x;
            let extent = if end > offset + 32 { end } else { offset + 32 };
            Ok(DecodeResult { token: Token::Array(tokens), new_offset: offset + 32, extent })
        },
        ParamType::FixedArray(t, len) => {
            if param.is_dynamic() {
                let head = read_offset(data, offset)?;
                if head > data.len() {
                    return Err(Fault::Malformed);
                }
                let tail = slice_subrange(data, head, data.len());
                let (tokens, _, x) = decode_repeat(t, tail, 0, *len, validate)?;
                let end = head + x;
                let extent = if end > offset + 32 { end } else { offset + 32 };
                Ok(DecodeResult { token: Token::FixedArray(tokens), new_offset: offset + 32, extent })
            } else {
                let (tokens, end, x) = decode_repeat(t, data, offset, *len, validate)?;
                Ok(DecodeResult { token: Token::FixedArray(tokens), new_offset: end, extent: x })
            }
        },
        ParamType::Tuple(t) => {
            // A dynamic tuple's head slot holds the offset of its members;
            // a static tuple's members follow in place.
            if param.is_dynamic() {
                let head = read_offset(data, offset)?;
                if head > data.len() {
                    return Err(Fault::Malformed);
                }
                let tail = slice_subrange(data, head, data.len());
                let (tokens, _, x) = decode_list(t, tail, 0, validate)?;
                let end = head + x;
                let extent = if end > offset + 32 { end } else { offset + 32 };
                Ok(DecodeResult { token: Token::Tuple(tokens), new_offset: offset + 32, extent })
            } else {
                let (tokens, end, x) = decode_list(t, data, offset, validate)?;
                Ok(DecodeResult { token: Token::Tuple(tokens), new_offset: end, extent: x })
            }
        },
    }
}

/// Decodes one value per declared type from `data`, and returns the tokens
/// with the offset just past the last head slot.
///
/// Fails with `EmptyInput` exactly when `data` is empty and some type needs
/// input. Otherwise it fails with `Malformed` exactly where the model finds
/// no valid encoding (in validating mode: also where the bytes read, heads
/// and tails, do not end at the end of `data`), and with `NoRoom` only where
/// a type holds an array whose room the allocator refused.
pub fn decode_impl(types: &[ParamType], data: &[u8], validate: bool) -> (r: Result<
    (Vec<Token>, usize),
    Fault,
>)
    ensures
        match r {
            Ok((tokens, end)) => {
                &&& !refuses_empty(types@, data@)
                &&& decode_spec(types@, data@, validate) == Some(views(tokens@))
                &&& list_spec(types@, data@, 0, validate) matches Some((_, e, _)) && e == end
            },
            Err(f) => match f {
                Fault::EmptyInput => refuses_empty(types@, data@),
                Fault::Malformed => !refuses_empty(types@, data@) && decode_spec(
                    types@,
                    data@,
                    validate,
                ) is None,
                Fault::NoRoom => !refuses_empty(types@, data@) && any_reserves(types@),
            },
        },
{
    let mut is_empty_bytes_valid_encoding = true;
    let mut k: usize = 0;
    while k < types.len()
        invariant
            k <= types@.len(),
            is_empty_bytes_valid_encoding == all_empty_valid(types@.subrange(0, k as int)),
        decreases types@.len() - k,
    {
        assert(types@.subrange(0, k + 1).subrange(0, k as int) == types@.subrange(0, k as int));
        let e = types[k].is_empty_bytes_valid_encoding();
        is_empty_bytes_valid_encoding = is_empty_bytes_valid_encoding && e;
        k = k + 1;
    }
    assert(types@.subrange(0, types@.len() as int) == types@);
    if !is_empty_bytes_valid_encoding && data.len() == 0 {
        return Err(Fault::EmptyInput);
    }
    // The count comes from the caller's own list of types, not from the
    // buffer, so this room is asked for without a fallible reservation.
    let mut tokens: Vec<Token> = Vec::with_capacity(types.len());
    let mut offset: usize = 0;
    let mut extent: usize = 0;
    let mut i: usize = 0;
    while i < types.len()
        invariant
            i <= types@.len(),
            !refuses_empty(types@, data@),
            extent <= data@.len(),
            list_spec(types@.subrange(0, i as int), data@, 0, validate) == Some(
                (views(tokens@), offset as int, extent as int),
            ),
        decreases types@.len() - i,
    {
        assert(types@.subrange(0, i + 1).subrange(0, i as int) == types@.subrange(0, i as int));
        let res = match decode_param(&types[i], data, offset, validate) {
            Ok(res) => res,
            Err(f) => {
                proof {
                    if f == Fault::Malformed {
                        lemma_list_failure_persists(types@, data@, 0, i + 1, validate);
                    } else {
                        lemma_any_reserves(types@, i as int);
                    }
                }
                return Err(f);
            },
        };
        proof {
            lemma_views_push(tokens@, res.token);
        }
        offset = res.new_offset;
        if res.extent > extent {
            extent = res.extent;
        }
        tokens.push(res.token);
        i = i + 1;
    }
    assert(types@.subrange(0, types@.len() as int) == types@);
    if validate && extent != data.len() {
        return Err(Fault::Malformed);
    }
    Ok((tokens, offset))
}

/// The error that a fault of the walker is reported as.
fn error_of(f: Fault) -> (e: Error)
    ensures
        f == Fault::EmptyInput ==> (e matches Error::InvalidName(m) && m@ == empty_input_message()),
        f != Fault::EmptyInput ==> e == Error::InvalidData,
{
    match f {
        Fault::EmptyInput => Error::InvalidName(EMPTY_INPUT_MESSAGE.to_owned()),
        _ => Error::InvalidData,
    }
}

/// Decodes `data` as one value per declared type, checking that padding is
/// zero, that address words carry nothing above their 20 bytes, and that the
/// bytes read, heads and tails, end exactly at the end of `data`.
///
/// An empty `data` for types that need input gives `InvalidName` with the
/// fixed message. Any other failure is `InvalidData`, which comes where the
/// model finds no valid encoding, or where a type holds an array whose room
/// the allocator refused; for types without arrays, success is exactly the
/// model's.
pub fn decode_validate(types: &[ParamType], data: &[u8]) -> (r: Result<Vec<Token>, Error>)
    ensures
        match r {
            Ok(tokens) => !refuses_empty(types@, data@) && decode_spec(types@, data@, true) == Some(
                views(tokens@),
            ),
            Err(e) => if refuses_empty(types@, data@) {
                e matches Error::InvalidName(m) && m@ == empty_input_message()
            } else {
                e == Error::InvalidData && (decode_spec(types@, data@, true) is None || any_reserves(
                    types@,
                ))
            },
        },
{
    match decode_impl(types, data, true) {
        Ok((tokens, _)) => Ok(tokens),
        Err(f) => Err(error_of(f)),
    }
}

/// Decodes `data` as one value per declared type, without checking padding
/// or the end of the buffer.
///
/// An empty `data` for types that need input gives `InvalidName` with the
/// fixed message. Any other failure is `InvalidData`, which comes where the
/// model finds no valid encoding, or where a type holds an array whose room
/// the allocator refused; for types without arrays, success is exactly the
/// model's.
pub fn decode(types: &[ParamType], data: &[u8]) -> (r: Result<Vec<Token>, Error>)
    ensures
        match r {
            Ok(tokens) => !refuses_empty(types@, data@) && decode_spec(types@, data@, false) == Some(
                views(tokens@),
            ),
            Err(e) => if refuses_empty(types@, data@) {
                e matches Error::InvalidName(m) && m@ == empty_input_message()
            } else {
                e == Error::InvalidData && (decode_spec(types@, data@, false) is None
                    || any_reserves(types@))
            },
        },
{
    match decode_impl(types, data, false) {
        Ok((tokens, _)) => Ok(tokens),
        Err(f) => Err(error_of(f)),
    }
}

} // verus!
