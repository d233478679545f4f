use vstd::prelude::*;

use crate::bytes::common_prefix_len;
use vstd::arithmetic::power2::{lemma2_to64, pow2};

use crate::format::{
    lemma_spare_mask, spare_mask,
    entries_bytes, entries_strings, float_bytes, inplace_bytes, int_bytes, json_bytes, json_strings,
    lemma_contains_concat, lemma_index_in, seq_bytes, seq_strings, string_bytes, strings_covered, ARR,
    FALSE, FLOAT, INT, INT_SIGN, NULL, OBJ, STR, TRUE, dictionary_bytes, dictionary_fits, dictionary_of, document_bytes, front_entries, front_entry, VERSION,
};
use crate::sorted_collection::{byte_strings, SortedCollection};
use crate::value::{Json, Value};
use crate::varint::write_number;

verus! {

fn write_null(w: &mut Vec<u8>)
    ensures
        final(w)@ == old(w)@ + json_bytes(Json::Null, Seq::empty()),
{
    w.push(NULL);
}

fn write_bool(value: bool, w: &mut Vec<u8>)
    ensures
        final(w)@ == old(w)@ + json_bytes(Json::Bool(value), Seq::empty()),
{
    let code = if value {
        TRUE
    } else {
        FALSE
    };
    w.push(code);
}

/// Writes `value` into the `available_bits` low bits of the tag `code` when
/// it is below their all-ones pattern, else writes that pattern there and
/// `value` after it as a varint.
fn write_inplace_number(code: u8, available_bits: u8, value: u64, w: &mut Vec<u8>)
    requires
        1 <= available_bits <= 7,
        code as nat % pow2(available_bits as nat) == 0,
    ensures
        final(w)@ == old(w)@ + inplace_bytes(code, spare_mask(available_bits as nat), value as nat),
{
    let mask = low_bits(available_bits);
    proof {
        lemma_spare_mask(available_bits as nat);
    }
    if value < mask as u64 {
        w.push(code + value as u8);
    } else {
        w.push(code + mask);
        write_number(value, w);
        assert(final(w)@ =~= old(w)@ + inplace_bytes(code, mask, value as nat));
    }
}

/// All ones in the low `bits` bits.
pub fn low_bits(bits: u8) -> (r: u8)
    requires
        1 <= bits <= 7,
    ensures
        r == spare_mask(bits as nat),
{
    proof {
        lemma2_to64();
    }
    assert(((1u8 << bits) == 2 && bits == 1) || ((1u8 << bits) == 4 && bits == 2) || ((1u8 << bits)
        == 8 && bits == 3) || ((1u8 << bits) == 16 && bits == 4) || ((1u8 << bits) == 32 && bits
        == 5) || ((1u8 << bits) == 64 && bits == 6) || ((1u8 << bits) == 128 && bits == 7))
        by (bit_vector)
        requires
            1 <= bits <= 7,
    ;
    (1u8 << bits) - 1
}

fn write_int(value: i64, w: &mut Vec<u8>)
    ensures
        final(w)@ == old(w)@ + int_bytes(value),
{
    let code = if value >= 0 {
        INT
    } else {
        INT + INT_SIGN
    };
    let magnitude: u64 = if value >= 0 {
        value as u64
    } else {
        // -1 becomes 0, so that zero has a single encoding
        (-(value + 1)) as u64
    };
    proof {
        lemma2_to64();
        lemma_spare_mask(3);
    }
    write_inplace_number(code, 3, magnitude, w);
}

/// Writes a float tag and the eight bytes of the bit pattern `bits`, least
/// significant first.
fn write_float(bits: u64, w: &mut Vec<u8>)
    ensures
        final(w)@ == old(w)@ + float_bytes(bits),
{
    w.push(FLOAT);
    w.push((bits & 0xff) as u8);
    w.push(((bits >> 8u64) & 0xff) as u8);
    w.push(((bits >> 16u64) & 0xff) as u8);
    w.push(((bits >> 24u64) & 0xff) as u8);
    w.push(((bits >> 32u64) & 0xff) as u8);
    w.push(((bits >> 40u64) & 0xff) as u8);
    w.push(((bits >> 48u64) & 0xff) as u8);
    w.push(((bits >> 56u64) & 0xff) as u8);
    assert(final(w)@ =~= old(w)@ + float_bytes(bits));
}

/// Writes a reference to `value`'s position in the dictionary.
fn write_string(value: &[u8], string_container: &SortedCollection, w: &mut Vec<u8>)
    requires
        string_container@.contains(value@),
    ensures
        final(w)@ == old(w)@ + string_bytes(value@, string_container@),
{
    match string_container.find(value) {
        Some(index) => {
            proof {
                lemma_index_in(string_container@, index as int);
            }
            proof {
        lemma2_to64();
        lemma_spare_mask(6);
    }
    write_inplace_number(STR, 6, index as u64, w);
        },
        None => {
            // not reached: the requires puts `value` in the dictionary
        },
    }
}

fn write_array(value: &Vec<Value>, string_container: &SortedCollection, w: &mut Vec<u8>)
    requires
        strings_covered(Value::Array(*value)@, string_container@),
    ensures
        final(w)@ == old(w)@ + json_bytes(Value::Array(*value)@, string_container@),
    decreases value,
{
    let ghost d = string_container@;
    let ghost jvs = Value::Array(*value)@->Array_0;
    let length = value.len();
    proof {
        lemma2_to64();
        lemma_spare_mask(6);
    }
    write_inplace_number(ARR, 6, length as u64, w);
    let ghost w1 = w@;
    let mut i: usize = 0;
    proof {
        assert(jvs.skip(0) =~= jvs);
    }
    while i < value.len()
        invariant
            i <= value.len(),
            d == string_container@,
            jvs == Value::Array(*value)@->Array_0,
            jvs.len() == value.len(),
            w@ + seq_bytes(jvs.skip(i as int), d) == w1 + seq_bytes(jvs, d),
            forall|s: Seq<u8>| seq_strings(jvs.skip(i as int)).contains(s) ==> d.contains(s),
        decreases value.len() - i,
    {
        let ghost rest = jvs.skip(i as int);
        proof {
            assert(jvs[i as int] == value[i as int]@);
            assert(rest.drop_first() =~= jvs.skip(i + 1));
            lemma_contains_concat(json_strings(rest[0]), seq_strings(rest.drop_first()));
            assert(decreases_to!(*value => value[i as int]));
        }
        write_json(&value[i], string_container, w);
        proof {
            assert(w@ + seq_bytes(jvs.skip(i + 1), d) =~= w1 + seq_bytes(jvs, d));
        }
        i = i + 1;
    }
    proof {
        assert(jvs.skip(i as int) =~= Seq::<Json>::empty());
        assert(final(w)@ =~= old(w)@ + json_bytes(Value::Array(*value)@, d));
    }
}

fn write_object(
    value: &Vec<(Vec<u8>, Value)>,
    string_container: &SortedCollection,
    w: &mut Vec<u8>,
)
    requires
        strings_covered(Value::Object(*value)@, string_container@),
    ensures
        final(w)@ == old(w)@ + json_bytes(Value::Object(*value)@, string_container@),
    decreases value,
{
    let ghost d = string_container@;
    let ghost jes = Value::Object(*value)@->Object_0;
    let length = value.len();
    proof {
        lemma2_to64();
        lemma_spare_mask(6);
    }
    write_inplace_number(OBJ, 6, length as u64, w);
    let ghost w1 = w@;
    let mut i: usize = 0;
    proof {
        assert(jes.skip(0) =~= jes);
    }
    while i < value.len()
        invariant
            i <= value.len(),
            d == string_container@,
            jes == Value::Object(*value)@->Object_0,
            jes.len() == value.len(),
            w@ + entries_bytes(jes.skip(i as int), d) == w1 + entries_bytes(jes, d),
            forall|s: Seq<u8>| entries_strings(jes.skip(i as int)).contains(s) ==> d.contains(s),
        decreases value.len() - i,
    {
        let ghost rest = jes.skip(i as int);
        proof {
            assert(jes[i as int] == (value[i as int].0@, value[i as int].1@));
            assert(rest.drop_first() =~= jes.skip(i + 1));
            lemma_contains_concat(seq![rest[0].0] + json_strings(rest[0].1), entries_strings(rest.drop_first()));
            lemma_contains_concat(seq![rest[0].0], json_strings(rest[0].1));
            assert(seq![rest[0].0][0] == rest[0].0);
            assert(decreases_to!(*value => value[i as int]));
        }
        let entry = &value[i];
        write_string(entry.0.as_slice(), string_container, w);
        write_json(&entry.1, string_container, w);
        proof {
            assert(w@ + entries_bytes(jes.skip(i + 1), d) =~= w1 + entries_bytes(jes, d));
        }
        i = i + 1;
    }
    proof {
        assert(jes.skip(i as int) =~= Seq::<(Seq<u8>, Json)>::empty());
        assert(final(w)@ =~= old(w)@ + json_bytes(Value::Object(*value)@, d));
    }
}

/// Appends the encoding of the value tree `value` to `w`; every string of the
/// tree must be in `string_container`.
pub fn write_json(value: &Value, string_container: &SortedCollection, w: &mut Vec<u8>)
    requires
        strings_covered(value@, string_container@),
    ensures
        final(w)@ == old(w)@ + json_bytes(value@, string_container@),
    decreases value,
{
    match value {
        Value::Null => write_null(w),
        Value::Bool(b) => write_bool(*b, w),
        Value::Int(i) => write_int(*i, w),
        Value::Float(f) => write_float(*f, w),
        Value::Str(s) => {
            assert(json_strings(value@)[0] == s@);
            write_string(s.as_slice(), string_container, w)
        },
        Value::Array(vs) => write_array(vs, string_container, w),
        Value::Object(es) => write_object(es, string_container, w),
    }
}

/// Appends every string of the tree (object keys and string values, in
/// document order, duplicates included) to `b`.
pub fn collect_string_values(v: &Value, b: &mut Vec<Vec<u8>>)
    ensures
        byte_strings(final(b)@) == byte_strings(old(b)@) + json_strings(v@),
    decreases v,
{
    match v {
        Value::Str(s) => {
            b.push(vstd::slice::slice_to_vec(s.as_slice()));
            assert(byte_strings(final(b)@) =~= byte_strings(old(b)@) + json_strings(v@));
        },
        Value::Array(a) => {
            let ghost jvs = v@->Array_0;
            let ghost b0 = byte_strings(b@);
            let mut i: usize = 0;
            assert(jvs.skip(0) =~= jvs);
            while i < a.len()
                invariant
                    i <= a.len(),
                    *v == Value::Array(*a),
                    jvs == v@->Array_0,
                    jvs.len() == a.len(),
                    byte_strings(b@) + seq_strings(jvs.skip(i as int)) == b0 + seq_strings(jvs),
                decreases a.len() - i,
            {
                proof {
                    assert(jvs[i as int] == a[i as int]@);
                    assert(jvs.skip(i as int).drop_first() =~= jvs.skip(i + 1));
                    assert(decreases_to!(*a => a[i as int]));
                }
                collect_string_values(&a[i], b);
                assert(byte_strings(b@) + seq_strings(jvs.skip(i + 1)) =~= b0 + seq_strings(jvs));
                i = i + 1;
            }
            assert(jvs.skip(i as int) =~= Seq::<Json>::empty());
            assert(byte_strings(b@) =~= b0 + json_strings(v@));
        },
        Value::Object(o) => {
            let ghost jes = v@->Object_0;
            let ghost b0 = byte_strings(b@);
            let mut i: usize = 0;
            assert(jes.skip(0) =~= jes);
            while i < o.len()
                invariant
                    i <= o.len(),
                    *v == Value::Object(*o),
                    jes == v@->Object_0,
                    jes.len() == o.len(),
                    byte_strings(b@) + entries_strings(jes.skip(i as int)) == b0 + entries_strings(
                        jes,
                    ),
                decreases o.len() - i,
            {
                proof {
                    assert(jes[i as int] == (o[i as int].0@, o[i as int].1@));
                    assert(jes.skip(i as int).drop_first() =~= jes.skip(i + 1));
                    assert(decreases_to!(*o => o[i as int]));
                }
                let entry = &o[i];
                b.push(vstd::slice::slice_to_vec(entry.0.as_slice()));
                collect_string_values(&entry.1, b);
                assert(byte_strings(b@) + entries_strings(jes.skip(i + 1)) =~= b0 + entries_strings(
                    jes,
                ));
                i = i + 1;
            }
            assert(jes.skip(i as int) =~= Seq::<(Seq<u8>, Json)>::empty());
            assert(byte_strings(b@) =~= b0 + json_strings(v@));
        },
        _ => {
            assert(byte_strings(b@) =~= byte_strings(b@) + json_strings(v@));
        },
    }
}

/// Writes the dictionary: the count, then the first string whole, then each
/// later string as the length shared with its predecessor, the length of the
/// rest, and the rest.
pub fn write_compressed_strings(strings: &SortedCollection, w: &mut Vec<u8>)
    ensures
        final(w)@ == old(w)@ + dictionary_bytes(strings@),
{
    let ghost d = strings@;
    let amount = strings.len();
    write_number(amount as u64, w);
    if amount == 0 {
        return;
    }
    let values = strings.values();
    assert(values@[0]@ == d[0]);
    let fst = values[0].as_slice();
    write_number(fst.len() as u64, w);
    let ghost w1 = w@;
    let mut k: usize = 0;
    while k < fst.len()
        invariant
            k <= fst.len(),
            w@ == w1 + fst@.take(k as int),
        decreases fst.len() - k,
    {
        w.push(fst[k]);
        assert(w@ =~= w1 + fst@.take(k + 1));
        k = k + 1;
    }
    assert(fst@.take(k as int) =~= fst@);
    let ghost w2 = w@;
    let mut i: usize = 1;
    while i < values.len()
        invariant
            1 <= i <= values.len(),
            values.len() == d.len(),
            byte_strings(values@) == d,
            w@ + front_entries(d, i as nat) == w2 + front_entries(d, 1),
        decreases values.len() - i,
    {
        let prev = values[i - 1].as_slice();
        let s = values[i].as_slice();
        assert(prev@ == d[i - 1] && s@ == d[i as int]);
        let cpl = common_prefix_len(prev, s);
        let len = s.len() - cpl;
        let ghost w3 = w@;
        write_number(cpl as u64, w);
        write_number(len as u64, w);
        let ghost w4 = w@;
        let mut k: usize = cpl;
        while k < s.len()
            invariant
                cpl <= k <= s.len(),
                w@ == w4 + s@.subrange(cpl as int, k as int),
            decreases s.len() - k,
        {
            w.push(s[k]);
            assert(w@ =~= w4 + s@.subrange(cpl as int, k + 1));
            k = k + 1;
        }
        assert(s@.subrange(cpl as int, k as int) =~= s@.skip(cpl as int));
        assert(w@ =~= w3 + front_entry(d[i - 1], d[i as int]));
        assert(w@ + front_entries(d, (i + 1) as nat) =~= w2 + front_entries(d, 1));
        i = i + 1;
    }
    assert(front_entries(d, i as nat) =~= Seq::<u8>::empty());
    assert(final(w)@ =~= old(w)@ + dictionary_bytes(d));
}

/// Writes a whole stream: the version byte, the dictionary, the value tree.
pub fn compress_json(json: &Value, strings: &SortedCollection, w: &mut Vec<u8>)
    requires
        strings_covered(json@, strings@),
    ensures
        final(w)@ == old(w)@ + document_bytes(json@, strings@),
{
    w.push(VERSION);
    write_compressed_strings(strings, w);
    write_json(json, strings, w);
    assert(final(w)@ =~= old(w)@ + document_bytes(json@, strings@));
}

/// Encodes a value tree as a stream, with a dictionary built from its strings.
pub fn encode(json: &Value) -> (r: Vec<u8>)
    ensures
        exists|d: Seq<Seq<u8>>|
            dictionary_of(d, json@) && dictionary_fits(d) && r@ == document_bytes(json@, d),
{
    let mut all: Vec<Vec<u8>> = Vec::new();
    collect_string_values(json, &mut all);
    assert(byte_strings(all@) =~= json_strings(json@));
    let strings = SortedCollection::new(all);
    let values = strings.values();
    proof {
        let d = strings@;
        assert(d.len() == values@.len());
        assert(values@.len() == values.len());
        assert forall|i: int| 0 <= i < d.len() implies (#[trigger] d[i]).len() <= u64::MAX by {
            assert(d[i] == values@[i]@);
            assert(values@[i]@.len() == values@[i].len());
        }
        assert(d.len() <= u64::MAX);
        assert(dictionary_fits(d));
    }
    let mut w: Vec<u8> = Vec::new();
    compress_json(json, &strings, &mut w);
    assert(w@ =~= document_bytes(json@, strings@));
    w
}

} // verus!
