use vstd::prelude::*;

use crate::bytes::{common_prefix, lemma_common_prefix};
use crate::error::DecodeError;
use vstd::arithmetic::power2::{lemma2_to64, pow2};

use crate::format::{
    lemma_spare_mask, spare_mask, tag_code,
    dictionary_bytes, dictionary_fits, dictionary_of, document_bytes, entries_bytes,
    entries_strings, float_bytes, from_le, front_entries, index_in, inplace_bytes, int_bytes,
    int_magnitude, json_bytes, json_strings, le_bytes, lemma_contains_concat, parse_dictionary,
    parse_document, parse_entries, parse_front_entries, parse_int_spec, parse_key, parse_seq,
    parse_string_ref, parse_value, read_inplace, seq_bytes, seq_strings, string_bytes,
    strings_covered, ARR, FLOAT, INT, INT_SIGN, OBJ, STR, WIDE_SENTINEL,
};
use crate::value::{Json, Value};
use crate::varint::{lemma_varint_len, lemma_varint_round_trip, read_varint, varint_bytes};

verus! {

/// A number written into the `bits` spare bits of a tag (inline, or spilled
/// to a varint) reads back exactly together with the tag's code, and the
/// read takes exactly the bytes written.
pub proof fn lemma_inplace_round_trip(code: u8, bits: nat, value: u64, rest: Seq<u8>)
    requires
        1 <= bits <= 7,
        code as nat % pow2(bits) == 0,
    ensures
        read_inplace(inplace_bytes(code, spare_mask(bits), value as nat) + rest, spare_mask(bits))
            == Ok::<(nat, nat), DecodeError>(
            (value as nat, inplace_bytes(code, spare_mask(bits), value as nat).len()),
        ),
        tag_code((inplace_bytes(code, spare_mask(bits), value as nat) + rest)[0], spare_mask(bits))
            == code,
        (inplace_bytes(code, spare_mask(bits), value as nat) + rest)[0] == code + (if value
            < spare_mask(bits) {
            value as u8
        } else {
            spare_mask(bits)
        }),
{
    lemma_spare_mask(bits);
    let mask = spare_mask(bits);
    let e = inplace_bytes(code, mask, value as nat);
    let s = e + rest;
    assert(s[0] == e[0]);
    if value < mask {
        assert((code as nat + value as nat) % (mask as nat + 1) == value) by (nonlinear_arith)
            requires
                code as nat % (mask as nat + 1) == 0,
                value < mask,
        ;
    } else {
        assert((code as nat + mask as nat) % (mask as nat + 1) == mask as nat) by (nonlinear_arith)
            requires
                code as nat % (mask as nat + 1) == 0,
        ;
        assert(s.skip(1) =~= varint_bytes(value as nat) + rest);
        lemma_varint_round_trip(value, rest);
    }
}

/// An integer reads back exactly. It takes one byte exactly when the
/// magnitude written for it (`v`, or `-v - 1` below zero) is at most 6.
pub proof fn lemma_int_round_trip(v: i64, rest: Seq<u8>, d: Seq<Seq<u8>>)
    ensures
        parse_int_spec(int_bytes(v) + rest) == Ok::<(i64, nat), DecodeError>(
            (v, int_bytes(v).len()),
        ),
        parse_value(int_bytes(v) + rest, d) == Ok::<(Json, nat), DecodeError>(
            (Json::Int(v), int_bytes(v).len()),
        ),
        (int_bytes(v).len() == 1) == (int_magnitude(v) <= 6),
{
    let m = int_magnitude(v);
    let code: u8 = if v >= 0 {
        INT
    } else {
        (INT + INT_SIGN) as u8
    };
    lemma2_to64();
    lemma_spare_mask(3);
    lemma_inplace_round_trip(code, 3, m as u64, rest);
    let s = int_bytes(v) + rest;
    let b = s[0];
    assert(16 <= b < 32);
    assert(forall|x: u8| 16 <= x < 32 ==> x & 0xf0 == 0x10) by (bit_vector);
    assert(forall|x: u8| 16 <= x < 24 ==> x & 8 == 0) by (bit_vector);
    assert(forall|x: u8| 24 <= x < 32 ==> x & 8 == 8) by (bit_vector);
    if m >= 7 {
        lemma_varint_len(m as u64);
    }
}

/// The eight bytes of a bit pattern read back as the same pattern.
pub proof fn lemma_le_round_trip(bits: u64)
    ensures
        from_le(le_bytes(bits)) == bits,
{
    let b = le_bytes(bits);
    assert(from_le(b) == (((bits & 0xff) as u8) as u64) | (((((bits >> 8u64) & 0xff) as u8) as u64)
        << 8u64) | (((((bits >> 16u64) & 0xff) as u8) as u64) << 16u64) | (((((bits >> 24u64)
        & 0xff) as u8) as u64) << 24u64) | (((((bits >> 32u64) & 0xff) as u8) as u64) << 32u64)
        | (((((bits >> 40u64) & 0xff) as u8) as u64) << 40u64) | (((((bits >> 48u64) & 0xff)
        as u8) as u64) << 48u64) | (((((bits >> 56u64) & 0xff) as u8) as u64) << 56u64));
    assert((((bits & 0xff) as u8) as u64) | (((((bits >> 8u64) & 0xff) as u8) as u64) << 8u64)
        | (((((bits >> 16u64) & 0xff) as u8) as u64) << 16u64) | (((((bits >> 24u64) & 0xff)
        as u8) as u64) << 24u64) | (((((bits >> 32u64) & 0xff) as u8) as u64) << 32u64) | ((((((
    bits >> 40u64) & 0xff) as u8) as u64) << 40u64)) | (((((bits >> 48u64) & 0xff) as u8)
        as u64) << 48u64) | (((((bits >> 56u64) & 0xff) as u8) as u64) << 56u64) == bits)
        by (bit_vector);
}

/// A float's bit pattern reads back exactly.
pub proof fn lemma_float_round_trip(bits: u64, rest: Seq<u8>, d: Seq<Seq<u8>>)
    ensures
        parse_value(float_bytes(bits) + rest, d) == Ok::<(Json, nat), DecodeError>(
            (Json::Float(bits), 9),
        ),
{
    let s = float_bytes(bits) + rest;
    assert(s[0] == FLOAT);
    assert(s.subrange(1, 9) =~= le_bytes(bits));
    lemma_le_round_trip(bits);
    assert(FLOAT & 0xf0 != INT) by (bit_vector);
}

/// Every array and object of the tree has a count that fits in a u64.
pub open spec fn fits(v: Json) -> bool
    decreases v,
{
    match v {
        Json::Array(vs) => vs.len() <= u64::MAX && forall|i: int|
            0 <= i < vs.len() ==> fits(#[trigger] vs[i]),
        Json::Object(es) => es.len() <= u64::MAX && forall|i: int|
            0 <= i < es.len() ==> fits(#[trigger] es[i].1),
        _ => true,
    }
}

proof fn lemma_tag_bits()
    ensures
        forall|x: u8| 64 <= x ==> #[trigger] (x & 0xf0) != 0x10,
{
    assert(forall|x: u8| 64 <= x ==> #[trigger] (x & 0xf0) != 0x10) by (bit_vector);
}

/// A string reference reads back as the same string.
pub proof fn lemma_string_round_trip(s: Seq<u8>, d: Seq<Seq<u8>>, rest: Seq<u8>)
    requires
        d.contains(s),
        d.len() <= u64::MAX,
    ensures
        parse_string_ref(string_bytes(s, d) + rest, d) == Ok::<(Seq<u8>, nat), DecodeError>(
            (s, string_bytes(s, d).len()),
        ),
        parse_key(string_bytes(s, d) + rest, d) == Ok::<(Seq<u8>, nat), DecodeError>(
            (s, string_bytes(s, d).len()),
        ),
        parse_value(string_bytes(s, d) + rest, d) == Ok::<(Json, nat), DecodeError>(
            (Json::Str(s), string_bytes(s, d).len()),
        ),
{
    let i = index_in(d, s);
    assert(0 <= i < d.len() && d[i] == s);
    lemma2_to64();
    lemma_spare_mask(6);
    lemma_inplace_round_trip(STR, 6, i as u64, rest);
    let b = (string_bytes(s, d) + rest)[0];
    assert(64 <= b < 128);
    lemma_tag_bits();
}

/// Every value tree whose strings are all in the dictionary decodes back to
/// itself, and the decode takes exactly the bytes of its encoding.
pub proof fn lemma_value_round_trip(v: Json, d: Seq<Seq<u8>>, rest: Seq<u8>)
    requires
        fits(v),
        strings_covered(v, d),
        d.len() <= u64::MAX,
    ensures
        parse_value(json_bytes(v, d) + rest, d) == Ok::<(Json, nat), DecodeError>(
            (v, json_bytes(v, d).len()),
        ),
    decreases v, 1nat,
{
    lemma_tag_bits();
    match v {
        Json::Null => {
            assert((json_bytes(v, d) + rest)[0] == 0);
        },
        Json::Bool(b) => {
            assert((json_bytes(v, d) + rest)[0] == json_bytes(v, d)[0]);
        },
        Json::Int(i) => {
            lemma_int_round_trip(i, rest, d);
        },
        Json::Float(f) => {
            lemma_float_round_trip(f, rest, d);
        },
        Json::Str(s) => {
            assert(json_strings(v)[0] == s);
            lemma_string_round_trip(s, d, rest);
        },
        Json::Array(vs) => {
            lemma_array_round_trip(vs, d, rest);
        },
        Json::Object(es) => {
            lemma_object_round_trip(es, d, rest);
        },
    }
}

proof fn lemma_array_round_trip(vs: Seq<Json>, d: Seq<Seq<u8>>, rest: Seq<u8>)
    requires
        fits(Json::Array(vs)),
        strings_covered(Json::Array(vs), d),
        d.len() <= u64::MAX,
    ensures
        parse_value(json_bytes(Json::Array(vs), d) + rest, d) == Ok::<(Json, nat), DecodeError>(
            (Json::Array(vs), json_bytes(Json::Array(vs), d).len()),
        ),
    decreases vs, 2nat,
{
    lemma_tag_bits();
    let v = Json::Array(vs);
    let h = inplace_bytes(ARR, WIDE_SENTINEL, vs.len());
    let body = seq_bytes(vs, d);
    assert(ARR as nat % 64 == 0);
    lemma2_to64();
    lemma_spare_mask(6);
    lemma_inplace_round_trip(ARR, 6, vs.len() as u64, body + rest);
    assert(json_bytes(v, d) + rest =~= h + (body + rest));
    let s = json_bytes(v, d) + rest;
    assert(128 <= s[0] < 192);
    assert(s.skip(h.len() as int) =~= body + rest);
    lemma_seq_round_trip(vs, d, rest);
}

proof fn lemma_object_round_trip(es: Seq<(Seq<u8>, Json)>, d: Seq<Seq<u8>>, rest: Seq<u8>)
    requires
        fits(Json::Object(es)),
        strings_covered(Json::Object(es), d),
        d.len() <= u64::MAX,
    ensures
        parse_value(json_bytes(Json::Object(es), d) + rest, d) == Ok::<(Json, nat), DecodeError>(
            (Json::Object(es), json_bytes(Json::Object(es), d).len()),
        ),
    decreases es, 2nat,
{
    lemma_tag_bits();
    let v = Json::Object(es);
    let h = inplace_bytes(OBJ, WIDE_SENTINEL, es.len());
    let body = entries_bytes(es, d);
    assert(OBJ as nat % 64 == 0);
    lemma2_to64();
    lemma_spare_mask(6);
    lemma_inplace_round_trip(OBJ, 6, es.len() as u64, body + rest);
    assert(json_bytes(v, d) + rest =~= h + (body + rest));
    let s = json_bytes(v, d) + rest;
    assert(192 <= s[0]);
    assert(s.skip(h.len() as int) =~= body + rest);
    lemma_entries_round_trip(es, d, rest);
}

proof fn lemma_seq_round_trip(vs: Seq<Json>, d: Seq<Seq<u8>>, rest: Seq<u8>)
    requires
        forall|i: int| 0 <= i < vs.len() ==> fits(#[trigger] vs[i]),
        forall|s: Seq<u8>| seq_strings(vs).contains(s) ==> d.contains(s),
        d.len() <= u64::MAX,
    ensures
        parse_seq(seq_bytes(vs, d) + rest, d, vs.len()) == Ok::<(Seq<Json>, nat), DecodeError>(
            (vs, seq_bytes(vs, d).len()),
        ),
    decreases vs, 1nat,
{
    if vs.len() == 0 {
        assert(vs =~= Seq::<Json>::empty());
    } else {
        let first = json_bytes(vs[0], d);
        let tail = vs.drop_first();
        let more = seq_bytes(tail, d);
        lemma_contains_concat(json_strings(vs[0]), seq_strings(tail));
        assert(fits(vs[0]));
        lemma_value_round_trip(vs[0], d, more + rest);
        assert(seq_bytes(vs, d) + rest =~= first + (more + rest));
        assert((seq_bytes(vs, d) + rest).skip(first.len() as int) =~= more + rest);
        assert forall|i: int| 0 <= i < tail.len() implies fits(#[trigger] tail[i]) by {
            assert(tail[i] == vs[i + 1]);
        }
        lemma_seq_round_trip(tail, d, rest);
        assert(seq![vs[0]] + tail =~= vs);
    }
}

#[verifier::rlimit(60)]
proof fn lemma_entries_round_trip(es: Seq<(Seq<u8>, Json)>, d: Seq<Seq<u8>>, rest: Seq<u8>)
    requires
        forall|i: int| 0 <= i < es.len() ==> fits(#[trigger] es[i].1),
        forall|s: Seq<u8>| entries_strings(es).contains(s) ==> d.contains(s),
        d.len() <= u64::MAX,
    ensures
        parse_entries(entries_bytes(es, d) + rest, d, es.len()) == Ok::<
            (Seq<(Seq<u8>, Json)>, nat),
            DecodeError,
        >((es, entries_bytes(es, d).len())),
    decreases es, 1nat,
{
    if es.len() == 0 {
        assert(es =~= Seq::<(Seq<u8>, Json)>::empty());
    } else {
        let k = string_bytes(es[0].0, d);
        let val = json_bytes(es[0].1, d);
        let tail = es.drop_first();
        let more = entries_bytes(tail, d);
        lemma_contains_concat(seq![es[0].0] + json_strings(es[0].1), entries_strings(tail));
        lemma_contains_concat(seq![es[0].0], json_strings(es[0].1));
        assert(seq![es[0].0][0] == es[0].0);
        assert(d.contains(es[0].0));
        assert(fits(es[0].1));
        lemma_string_round_trip(es[0].0, d, val + (more + rest));
        lemma_value_round_trip(es[0].1, d, more + rest);
        let s = entries_bytes(es, d) + rest;
        assert(s =~= k + (val + (more + rest)));
        assert(s.skip(k.len() as int) =~= val + (more + rest));
        assert(s.skip((k.len() + val.len()) as int) =~= more + rest);
        assert forall|i: int| 0 <= i < tail.len() implies fits(#[trigger] tail[i].1) by {
            assert(tail[i] == es[i + 1]);
        }
        lemma_entries_round_trip(tail, d, rest);
        assert(seq![es[0]] + tail =~= es);
    }
}

#[verifier::rlimit(80)]
proof fn lemma_front_entries_round_trip(d: Seq<Seq<u8>>, i: nat, rest: Seq<u8>)
    requires
        1 <= i <= d.len(),
        dictionary_fits(d),
    ensures
        parse_front_entries(front_entries(d, i) + rest, d[i - 1], (d.len() - i) as nat) == Ok::<
            (Seq<Seq<u8>>, nat),
            DecodeError,
        >((d.skip(i as int), front_entries(d, i).len())),
    decreases d.len() - i,
{
    if i == d.len() {
        assert(d.skip(i as int) =~= Seq::<Seq<u8>>::empty());
    } else {
        let prev = d[i - 1];
        let cur = d[i as int];
        let c = common_prefix(prev, cur);
        lemma_common_prefix(prev, cur);
        let more = front_entries(d, i + 1);
        let s = front_entries(d, i) + rest;
        let v1 = varint_bytes(c);
        let v2 = varint_bytes((cur.len() - c) as nat);
        let tail = cur.skip(c as int) + more + rest;
        assert(s =~= v1 + (v2 + tail));
        let n1 = v1.len();
        let n2 = v2.len();
        let len = (cur.len() - c) as nat;
        assert(read_varint(s) == Ok::<(u64, nat), DecodeError>((c as u64, n1))) by {
            lemma_varint_round_trip(c as u64, v2 + tail);
        }
        assert(read_varint(s.skip(n1 as int)) == Ok::<(u64, nat), DecodeError>(
            (len as u64, n2),
        )) by {
            assert(s.skip(n1 as int) =~= v2 + tail);
            lemma_varint_round_trip(len as u64, tail);
        }
        let end = n1 + n2 + len;
        assert(end <= s.len());
        assert(prev.take(c as int) + s.subrange((n1 + n2) as int, end as int) == cur) by {
            assert(s.subrange((n1 + n2) as int, end as int) =~= cur.skip(c as int));
            assert(cur.take(c as int) + cur.skip(c as int) =~= cur);
        }
        let m = more.len();
        assert(parse_front_entries(s.skip(end as int), cur, (d.len() - i - 1) as nat) == Ok::<
            (Seq<Seq<u8>>, nat),
            DecodeError,
        >((d.skip((i + 1) as int), m))) by {
            assert(s.skip(end as int) =~= more + rest);
            lemma_front_entries_round_trip(d, i + 1, rest);
        }
        assert(seq![cur] + d.skip((i + 1) as int) =~= d.skip(i as int));
        assert(end + m == front_entries(d, i).len());
    }
}

/// Serializing a dictionary and reading it back gives the same strings in
/// the same order.
#[verifier::rlimit(80)]
pub proof fn lemma_dictionary_round_trip(d: Seq<Seq<u8>>, rest: Seq<u8>)
    requires
        dictionary_fits(d),
    ensures
        parse_dictionary(dictionary_bytes(d) + rest) == Ok::<(Seq<Seq<u8>>, nat), DecodeError>(
            (d, dictionary_bytes(d).len()),
        ),
{
    let s = dictionary_bytes(d) + rest;
    if d.len() == 0 {
        lemma_varint_round_trip(0, rest);
        assert(d =~= Seq::<Seq<u8>>::empty());
    } else {
        let v1 = varint_bytes(d.len());
        let v2 = varint_bytes(d[0].len());
        let more = front_entries(d, 1);
        let tail = d[0] + more + rest;
        assert(s =~= v1 + (v2 + tail));
        let n1 = v1.len();
        let n2 = v2.len();
        assert(read_varint(s) == Ok::<(u64, nat), DecodeError>((d.len() as u64, n1))) by {
            lemma_varint_round_trip(d.len() as u64, v2 + tail);
        }
        assert(read_varint(s.skip(n1 as int)) == Ok::<(u64, nat), DecodeError>(
            (d[0].len() as u64, n2),
        )) by {
            assert(s.skip(n1 as int) =~= v2 + tail);
            lemma_varint_round_trip(d[0].len() as u64, tail);
        }
        let end = n1 + n2 + d[0].len();
        assert(end <= s.len());
        assert(s.subrange((n1 + n2) as int, end as int) == d[0]) by {
            assert(s.subrange((n1 + n2) as int, end as int) =~= d[0]);
        }
        let m = more.len();
        assert(parse_front_entries(s.skip(end as int), d[0], (d.len() - 1) as nat) == Ok::<
            (Seq<Seq<u8>>, nat),
            DecodeError,
        >((d.skip(1), m))) by {
            assert(s.skip(end as int) =~= more + rest);
            lemma_front_entries_round_trip(d, 1, rest);
        }
        assert(seq![d[0]] + d.skip(1) =~= d);
        assert(end + m == dictionary_bytes(d).len());
    }
}

/// The position of a string in a dictionary is the position at which it is
/// read back after serialization.
pub proof fn lemma_index_stable(d: Seq<Seq<u8>>, i: int, rest: Seq<u8>)
    requires
        dictionary_fits(d),
        0 <= i < d.len(),
    ensures
        parse_dictionary(dictionary_bytes(d) + rest) matches Ok((read, _)) && read[i] == d[i],
{
    lemma_dictionary_round_trip(d, rest);
}

/// Every tree held in a `Value` has counts that fit in a u64.
pub proof fn lemma_value_fits(v: Value)
    ensures
        fits(v@),
    decreases v,
{
    match v {
        Value::Array(vs) => {
            assert(vs@.len() == vs.len());
            assert forall|i: int| 0 <= i < vs.len() implies fits(#[trigger] v@->Array_0[i]) by {
                assert(decreases_to!(vs => vs[i]));
                lemma_value_fits(vs[i]);
            }
        },
        Value::Object(es) => {
            assert(es@.len() == es.len());
            assert forall|i: int| 0 <= i < es.len() implies fits(#[trigger] v@->Object_0[i].1) by {
                assert(decreases_to!(es => es[i]));
                lemma_value_fits(es[i].1);
            }
        },
        _ => {},
    }
}

/// Decoding the encoding of a document gives back the same tree, arrays and
/// object entries in their order.
pub proof fn lemma_round_trip(v: Value, d: Seq<Seq<u8>>)
    requires
        dictionary_of(d, v@),
        dictionary_fits(d),
    ensures
        parse_document(document_bytes(v@, d)) == Ok::<Json, DecodeError>(v@),
{
    lemma_value_fits(v);
    let s = document_bytes(v@, d);
    let db = dictionary_bytes(d);
    let vb = json_bytes(v@, d);
    assert(s.skip(1) =~= db + vb);
    lemma_dictionary_round_trip(d, vb);
    assert(s.skip((1 + db.len()) as int) =~= vb + Seq::<u8>::empty());
    lemma_value_round_trip(v@, d, Seq::empty());
}

/// What `encode` promises of its output is enough for `decode` to give the
/// tree back: `decode(encode(v))` is `v`.
pub proof fn lemma_decode_encode(v: Value, bytes: Seq<u8>)
    requires
        exists|d: Seq<Seq<u8>>|
            dictionary_of(d, v@) && dictionary_fits(d) && bytes == document_bytes(v@, d),
    ensures
        parse_document(bytes) == Ok::<Json, DecodeError>(v@),
{
    let d = choose|d: Seq<Seq<u8>>|
        dictionary_of(d, v@) && dictionary_fits(d) && bytes == document_bytes(v@, d);
    lemma_round_trip(v, d);
}

} // verus!
