//! Properties of the decoding model, proved over all inputs.

use vstd::prelude::*;
use crate::decoder::{
    any_reserves, decode_spec, head_offset, lemma_list_failure_persists,
    lemma_repeat_failure_persists, list_spec, param_spec, refuses_empty, repeat_spec,
};
use crate::types::{any_dynamic, dynamic, ParamType, Value};
use vstd::arithmetic::div_mod::{lemma_div_denominator, lemma_fundamental_div_mod, lemma_small_mod};
use crate::word::{all_zero, fits, lossy_utf8, round_up, take_spec, usize_of, word_at};

verus! {

broadcast use {
    vstd::seq::axiom_seq_index_decreases,
    vstd::seq::axiom_seq_subrange_decreases,
    vstd::std_specs::vec::axiom_vec_decreases_to_view,
};

/// The value has the form that the type describes: the same variant, the
/// fixed sizes of addresses, integers and fixed bytes, the declared length of
/// fixed arrays and tuples, and members of the member types.
pub open spec fn shape_matches(p: ParamType, x: Value) -> bool
    decreases p, 0nat,
{
    match p {
        ParamType::Address => x matches Value::Address(a) && a.len() == 20,
        ParamType::Int(_) => x matches Value::Int(w) && w.len() == 32,
        ParamType::Uint(_) => x matches Value::Uint(w) && w.len() == 32,
        ParamType::Bool => x is Bool,
        ParamType::FixedBytes(n) => x matches Value::FixedBytes(b) && b.len() == n,
        ParamType::Bytes => x is Bytes,
        ParamType::String => x is String,
        ParamType::Array(e) => x matches Value::Array(vs) && all_shape(*e, vs),
        ParamType::FixedArray(e, n) => x matches Value::FixedArray(vs) && vs.len() == n && all_shape(
            *e,
            vs,
        ),
        ParamType::Tuple(ts) => x matches Value::Tuple(vs) && shapes_match(ts@, vs),
    }
}

/// Every value of `vs` has the shape of `e`.
pub open spec fn all_shape(e: ParamType, vs: Seq<Value>) -> bool
    decreases e, vs.len(),
{
    if vs.len() == 0 {
        true
    } else {
        all_shape(e, vs.subrange(0, vs.len() - 1)) && shape_matches(e, vs[vs.len() - 1])
    }
}

/// `vs` has one value per type of `ts`, each of the shape of its type.
pub open spec fn shapes_match(ts: Seq<ParamType>, vs: Seq<Value>) -> bool
    decreases ts, 0nat,
{
    if ts.len() == 0 {
        vs.len() == 0
    } else {
        vs.len() == ts.len() && shapes_match(ts.subrange(0, ts.len() - 1), vs.subrange(0, vs.len() - 1))
            && shape_matches(ts[ts.len() - 1], vs[vs.len() - 1])
    }
}

proof fn lemma_param_shape(p: ParamType, d: Seq<u8>, o: int, validate: bool)
    ensures
        param_spec(p, d, o, validate) matches Some((x, _, _)) ==> shape_matches(p, x),
    decreases p, 0nat,
{
    match p {
        ParamType::Array(e) => {
            if let Some(h) = head_offset(d, o) {
                if let Some(n) = head_offset(d, h) {
                    lemma_repeat_shape(*e, d.subrange(h + 32, d.len() as int), 0, n as nat, validate);
                }
            }
        },
        ParamType::FixedArray(e, n) => {
            if let Some(h) = head_offset(d, o) {
                lemma_repeat_shape(*e, d.subrange(h, d.len() as int), 0, n as nat, validate);
            }
            lemma_repeat_shape(*e, d, o, n as nat, validate);
        },
        ParamType::Tuple(ts) => {
            if let Some(h) = head_offset(d, o) {
                lemma_list_shape(ts@, d.subrange(h, d.len() as int), 0, validate);
            }
            lemma_list_shape(ts@, d, o, validate);
        },
        _ => {},
    }
}

proof fn lemma_repeat_shape(e: ParamType, d: Seq<u8>, o: int, n: nat, validate: bool)
    ensures
        repeat_spec(e, d, o, n, validate) matches Some((vs, _, _)) ==> vs.len() == n && all_shape(e, vs),
    decreases e, n,
{
    if n > 0 {
        lemma_repeat_shape(e, d, o, (n - 1) as nat, validate);
        if let Some((vs, mid, _)) = repeat_spec(e, d, o, (n - 1) as nat, validate) {
            lemma_param_shape(e, d, mid, validate);
            if let Some((x, _, _)) = param_spec(e, d, mid, validate) {
                assert(vs.push(x).subrange(0, vs.len() as int) == vs);
            }
        }
    }
}

proof fn lemma_list_shape(ts: Seq<ParamType>, d: Seq<u8>, o: int, validate: bool)
    ensures
        list_spec(ts, d, o, validate) matches Some((vs, _, _)) ==> shapes_match(ts, vs),
    decreases ts, 0nat,
{
    if ts.len() > 0 {
        let front = ts.subrange(0, ts.len() - 1);
        lemma_list_shape(front, d, o, validate);
        if let Some((vs, mid, _)) = list_spec(front, d, o, validate) {
            lemma_list_shape_len(front, d, o, validate);
            lemma_param_shape(ts[ts.len() - 1], d, mid, validate);
            if let Some((x, _, _)) = param_spec(ts[ts.len() - 1], d, mid, validate) {
                assert(vs.push(x).subrange(0, vs.len() as int) == vs);
            }
        }
    }
}

proof fn lemma_list_shape_len(ts: Seq<ParamType>, d: Seq<u8>, o: int, validate: bool)
    ensures
        list_spec(ts, d, o, validate) matches Some((vs, _, _)) ==> vs.len() == ts.len(),
    decreases ts.len(),
{
    if ts.len() > 0 {
        lemma_list_shape_len(ts.subrange(0, ts.len() - 1), d, o, validate);
    }
}

/// A successful decode, in either mode, yields one value per declared type,
/// each of the shape of its type.
pub proof fn lemma_decode_shapes(types: Seq<ParamType>, d: Seq<u8>, validate: bool)
    ensures
        decode_spec(types, d, validate) matches Some(vs) ==> vs.len() == types.len() && shapes_match(
            types,
            vs,
        ),
{
    lemma_list_shape(types, d, 0, validate);
    lemma_list_shape_len(types, d, 0, validate);
}

proof fn lemma_round_up_covers(n: int)
    requires
        n >= 0,
    ensures
        n <= round_up(n, 32) < n + 32,
{
    vstd::arithmetic::div_mod::lemma_fundamental_div_mod(n + 31, 32);
    vstd::arithmetic::div_mod::lemma_mod_bound(n + 31, 32);
}

proof fn lemma_take_strict_lenient(d: Seq<u8>, o: int, n: int)
    requires
        n >= 0,
    ensures
        take_spec(d, o, n, true) matches Some(b) ==> take_spec(d, o, n, false) == Some(b),
{
    lemma_round_up_covers(n);
}

proof fn lemma_param_strict_lenient(p: ParamType, d: Seq<u8>, o: int)
    ensures
        param_spec(p, d, o, true) matches Some((v, end, _)) ==> param_spec(p, d, o, false) matches Some(
            (w, e, _),
        ) && w == v && e == end,
    decreases p, 0nat,
{
    match p {
        ParamType::FixedBytes(n) => lemma_take_strict_lenient(d, o, n as int),
        ParamType::Bytes | ParamType::String => {
            if let Some(h) = head_offset(d, o) {
                if let Some(n) = head_offset(d, h) {
                    lemma_take_strict_lenient(d, h + 32, n);
                }
            }
        },
        ParamType::Array(e) => {
            if let Some(h) = head_offset(d, o) {
                if let Some(n) = head_offset(d, h) {
                    lemma_repeat_strict_lenient(*e, d.subrange(h + 32, d.len() as int), 0, n as nat);
                }
            }
        },
        ParamType::FixedArray(e, n) => {
            if let Some(h) = head_offset(d, o) {
                lemma_repeat_strict_lenient(*e, d.subrange(h, d.len() as int), 0, n as nat);
            }
            lemma_repeat_strict_lenient(*e, d, o, n as nat);
        },
        ParamType::Tuple(ts) => {
            if let Some(h) = head_offset(d, o) {
                lemma_list_strict_lenient(ts@, d.subrange(h, d.len() as int), 0);
            }
            lemma_list_strict_lenient(ts@, d, o);
        },
        _ => {},
    }
}

proof fn lemma_repeat_strict_lenient(e: ParamType, d: Seq<u8>, o: int, n: nat)
    ensures
        repeat_spec(e, d, o, n, true) matches Some((vs, end, _)) ==> repeat_spec(e, d, o, n, false) matches Some(
            (ws, f, _),
        ) && ws == vs && f == end,
    decreases e, n,
{
    if n > 0 {
        lemma_repeat_strict_lenient(e, d, o, (n - 1) as nat);
        if let Some((_, mid, _)) = repeat_spec(e, d, o, (n - 1) as nat, true) {
            lemma_param_strict_lenient(e, d, mid);
        }
    }
}

proof fn lemma_list_strict_lenient(ts: Seq<ParamType>, d: Seq<u8>, o: int)
    ensures
        list_spec(ts, d, o, true) matches Some((vs, end, _)) ==> list_spec(ts, d, o, false) matches Some(
            (ws, f, _),
        ) && ws == vs && f == end,
    decreases ts, 0nat,
{
    if ts.len() > 0 {
        let front = ts.subrange(0, ts.len() - 1);
        lemma_list_strict_lenient(front, d, o);
        if let Some((_, mid, _)) = list_spec(front, d, o, true) {
            lemma_param_strict_lenient(ts[ts.len() - 1], d, mid);
        }
    }
}

/// Whatever the validating decode accepts, the lenient decode accepts too,
/// with the same values.
pub proof fn lemma_strict_implies_lenient(types: Seq<ParamType>, d: Seq<u8>)
    ensures
        decode_spec(types, d, true) is Some ==> decode_spec(types, d, false) == decode_spec(
            types,
            d,
            true,
        ),
{
    lemma_list_strict_lenient(types, d, 0);
}

/// A dynamic value whose head slot points past the end of its region is
/// rejected, in either mode.
pub proof fn lemma_offset_past_end_rejected(p: ParamType, d: Seq<u8>, o: int, validate: bool)
    requires
        dynamic(p),
        head_offset(d, o) matches Some(h) && h > d.len(),
    ensures
        param_spec(p, d, o, validate) is None,
{
}

/// In validating mode, an address word with a non-zero byte above its low
/// 20 bytes is rejected.
pub proof fn lemma_address_padding_rejected(d: Seq<u8>, o: int)
    requires
        fits(d, o, 32),
        !all_zero(word_at(d, o).subrange(0, 12)),
    ensures
        param_spec(ParamType::Address, d, o, true) is None,
{
}

/// In validating mode, fixed bytes whose padding up to the word boundary is
/// not all zero are rejected.
pub proof fn lemma_fixed_bytes_padding_rejected(n: usize, d: Seq<u8>, o: int)
    requires
        !all_zero(d.subrange(o + n, o + round_up(n as int, 32))),
    ensures
        param_spec(ParamType::FixedBytes(n), d, o, true) is None,
{
}

/// In validating mode, a `Bytes` or `String` payload whose padding up to the
/// word boundary is not all zero is rejected.
pub proof fn lemma_payload_padding_rejected(p: ParamType, d: Seq<u8>, o: int)
    requires
        p is Bytes || p is String,
        head_offset(d, o) matches Some(h) && head_offset(d, h) matches Some(n) && !all_zero(
            d.subrange(h + 32 + n, h + 32 + round_up(n, 32)),
        ),
    ensures
        param_spec(p, d, o, true) is None,
{
}

/// A parameter that is rejected at the cursor where the parameters before it
/// end makes the whole decode fail.
pub proof fn lemma_rejection_propagates(types: Seq<ParamType>, d: Seq<u8>, i: int, validate: bool)
    requires
        0 <= i < types.len(),
        list_spec(types.subrange(0, i), d, 0, validate) matches Some((_, c, _)) && param_spec(
            types[i],
            d,
            c,
            validate,
        ) is None,
    ensures
        decode_spec(types, d, validate) is None,
{
    lemma_member_rejection_propagates(types, d, 0, i, validate);
}

/// Inside a list of members, one rejected at the cursor where the members
/// before it end makes the whole list fail.
pub proof fn lemma_member_rejection_propagates(ts: Seq<ParamType>, d: Seq<u8>, o: int, i: int, validate: bool)
    requires
        0 <= i < ts.len(),
        list_spec(ts.subrange(0, i), d, o, validate) matches Some((_, c, _)) && param_spec(
            ts[i],
            d,
            c,
            validate,
        ) is None,
    ensures
        list_spec(ts, d, o, validate) is None,
{
    assert(ts.subrange(0, i + 1).subrange(0, i) == ts.subrange(0, i));
    lemma_list_failure_persists(ts, d, o, i + 1, validate);
}

/// Inside an array, an element rejected at the cursor where the elements
/// before it end makes all the elements fail.
pub proof fn lemma_element_rejection_propagates(e: ParamType, d: Seq<u8>, o: int, i: nat, n: nat, validate: bool)
    requires
        i < n,
        repeat_spec(e, d, o, i, validate) matches Some((_, c, _)) && param_spec(e, d, c, validate) is None,
    ensures
        repeat_spec(e, d, o, n, validate) is None,
{
    lemma_repeat_failure_persists(e, d, o, i + 1, n, validate);
}

/// The members of a composite fail: in the region its head slot points to
/// when it is dynamic, in place when it is static.
pub open spec fn members_fail(p: ParamType, d: Seq<u8>, o: int, validate: bool) -> bool {
    match p {
        ParamType::Tuple(ts) => if any_dynamic(ts@) {
            match head_offset(d, o) {
                Some(h) => h <= d.len() && list_spec(ts@, d.subrange(h, d.len() as int), 0, validate)
                    is None,
                None => false,
            }
        } else {
            list_spec(ts@, d, o, validate) is None
        },
        ParamType::FixedArray(e, n) => if dynamic(*e) {
            match head_offset(d, o) {
                Some(h) => h <= d.len() && repeat_spec(
                    *e,
                    d.subrange(h, d.len() as int),
                    0,
                    n as nat,
                    validate,
                ) is None,
                None => false,
            }
        } else {
            repeat_spec(*e, d, o, n as nat, validate) is None
        },
        ParamType::Array(e) => match head_offset(d, o) {
            Some(h) => match head_offset(d, h) {
                Some(n) => repeat_spec(*e, d.subrange(h + 32, d.len() as int), 0, n as nat, validate)
                    is None,
                None => false,
            },
            None => false,
        },
        _ => false,
    }
}

/// A composite whose members fail fails itself; with the two lemmas above,
/// a rejection at any depth reaches the top.
pub proof fn lemma_composite_rejects_failed_members(p: ParamType, d: Seq<u8>, o: int, validate: bool)
    requires
        members_fail(p, d, o, validate),
    ensures
        param_spec(p, d, o, validate) is None,
{
}

/// The word that holds `n` as a big-endian number.
pub open spec fn word_of(n: nat) -> Seq<u8> {
    Seq::new(
        32,
        |i: int|
            if i < 28 {
                0u8
            } else if i == 28 {
                (n / 16777216 % 256) as u8
            } else if i == 29 {
                (n / 65536 % 256) as u8
            } else if i == 30 {
                (n / 256 % 256) as u8
            } else {
                (n % 256) as u8
            },
    )
}

/// A byte payload encoded as the single `String` argument of a call: the
/// offset word, the length word, the bytes and their zero padding.
pub open spec fn wrap_payload(b: Seq<u8>) -> Seq<u8> {
    word_of(32) + word_of(b.len()) + b + Seq::new((round_up(b.len() as int, 32) - b.len()) as nat, |i: int| 0u8)
}

proof fn lemma_word_of(n: nat)
    requires
        n <= 0xffff_ffff,
    ensures
        usize_of(word_of(n)) == Some(n as int),
{
    let w = word_of(n);
    assert(all_zero(w.subrange(0, 28)));
    let q1 = n / 256;
    let q2 = n / 65536;
    let q3 = n / 16777216;
    lemma_fundamental_div_mod(n as int, 256);
    lemma_div_denominator(n as int, 256, 256);
    lemma_fundamental_div_mod(q1 as int, 256);
    lemma_div_denominator(n as int, 65536, 256);
    lemma_fundamental_div_mod(q2 as int, 256);
    assert(q3 < 256) by (nonlinear_arith)
        requires
            q2 == 256 * q3 + q2 % 256,
            q1 == 256 * q2 + q1 % 256,
            n == 256 * q1 + n % 256,
            n <= 0xffff_ffff,
            q1 % 256 >= 0,
            q2 % 256 >= 0,
            n % 256 >= 0,
    ;
    lemma_small_mod(q3, 256);
    assert(w[28] == q3 && w[29] == q2 % 256 && w[30] == q1 % 256 && w[31] == n % 256);
    assert(crate::word::low_u32(w) == n) by (nonlinear_arith)
        requires
            w[28] == q3,
            w[29] == q2 % 256,
            w[30] == q1 % 256,
            w[31] == n % 256,
            q2 == 256 * q3 + q2 % 256,
            q1 == 256 * q2 + q1 % 256,
            n == 256 * q1 + n % 256,
    ;
}

/// Any byte payload, wrapped as the single `String` argument of a call,
/// decodes to the lossy UTF-8 text of the bytes, whether or not they are
/// valid UTF-8, in either mode; no array is involved, so `decode` owes that
/// result.
pub proof fn lemma_lossy_string_decodes(b: Seq<u8>, validate: bool)
    requires
        b.len() <= 0xffff_ffff,
    ensures
        !refuses_empty(seq![ParamType::String], wrap_payload(b)),
        !any_reserves(seq![ParamType::String]),
        decode_spec(seq![ParamType::String], wrap_payload(b), validate) == Some(
            seq![Value::String(lossy_utf8(b))],
        ),
{
    let d = wrap_payload(b);
    let n = b.len() as int;
    let r = round_up(n, 32);
    lemma_round_up_covers(n);
    lemma_word_of(32);
    lemma_word_of(b.len());
    assert(d.len() == 64 + r);
    assert(word_at(d, 0) == word_of(32));
    assert(word_at(d, 32) == word_of(b.len()));
    assert(d.subrange(64, 64 + n) == b);
    assert(all_zero(d.subrange(64 + n, 64 + r)));
    assert(head_offset(d, 0) == Some(32int));
    assert(head_offset(d, 32) == Some(n));
    assert(take_spec(d, 64, n, validate) == Some(b));
    let x = if validate { 64 + r } else { 64 + n };
    let ts = seq![ParamType::String];
    let v = Value::String(lossy_utf8(b));
    assert(param_spec(ParamType::String, d, 0, validate) == Some((v, 32int, x)));
    assert(ts.subrange(0, 0) == Seq::<ParamType>::empty());
    assert(list_spec(ts.subrange(0, 0), d, 0, validate) == Some((Seq::<Value>::empty(), 0int, 0int)));
    assert(Seq::<Value>::empty().push(v) == seq![v]);
    assert(list_spec(ts, d, 0, validate) == Some((seq![v], 32int, x)));
    assert(!any_reserves(ts.subrange(0, 0)));
    assert(!crate::decoder::reserves(ts[0]));
}

/// Types whose decoding reads the word at the cursor and moves past it.
pub open spec fn reads_head_word(e: ParamType) -> bool {
    ||| e is Address
    ||| e is Int
    ||| e is Uint
    ||| e is Bool
    ||| e is Bytes
    ||| e is String
    ||| e is Array
}

proof fn lemma_head_word_advance(e: ParamType, d: Seq<u8>, o: int, validate: bool)
    requires
        reads_head_word(e),
    ensures
        param_spec(e, d, o, validate) matches Some((_, end, _)) ==> fits(d, o, 32) && end == o + 32,
{
}

proof fn lemma_repeat_needs_room(e: ParamType, d: Seq<u8>, o: int, n: nat, validate: bool)
    requires
        reads_head_word(e),
    ensures
        repeat_spec(e, d, o, n, validate) matches Some((_, end, _)) ==> end == o + 32 * n && (n > 0
            ==> end <= d.len()),
    decreases n,
{
    if n > 0 {
        lemma_repeat_needs_room(e, d, o, (n - 1) as nat, validate);
        if let Some((_, mid, _)) = repeat_spec(e, d, o, (n - 1) as nat, validate) {
            lemma_head_word_advance(e, d, mid, validate);
        }
    }
}

/// An array whose length word reads 2^32 - 1 is rejected, in either mode,
/// when its elements each take a head word and the buffer is shorter than
/// that many words.
pub proof fn lemma_max_array_length_rejected(p: ParamType, d: Seq<u8>, o: int, validate: bool)
    requires
        p matches ParamType::Array(e) && reads_head_word(*e),
        head_offset(d, o) matches Some(h) && head_offset(d, h) == Some(0xffff_ffffint),
        d.len() < 32 * 0xffff_ffffint,
    ensures
        param_spec(p, d, o, validate) is None,
{
    let e = *p->Array_0;
    let h = head_offset(d, o)->0;
    lemma_repeat_needs_room(e, d.subrange(h + 32, d.len() as int), 0, 0xffff_ffff, validate);
}

} // verus!
