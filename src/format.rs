use vstd::prelude::*;

use crate::bytes::{common_prefix, lex_lt, lemma_lex_irreflexive};
use crate::sorted_collection::strictly_sorted;
use crate::value::Json;
use vstd::arithmetic::power2::{lemma2_to64, pow2};

use crate::error::DecodeError;
use crate::varint::{read_varint, varint_bytes};

verus! {

/// The version byte that opens every stream.
pub const VERSION: u8 = 0;

pub const NULL: u8 = 0;
pub const FALSE: u8 = 0b01;
pub const TRUE: u8 = 0b10;
pub const INT: u8 = 0b0001_0000;
pub const INT_SIGN: u8 = 0b0000_1000;
pub const FLOAT: u8 = 0b0010_0000;
pub const STR: u8 = 0b0100_0000;
pub const ARR: u8 = 0b1000_0000;
pub const OBJ: u8 = 0b1100_0000;

/// Spare bits of an integer tag, all ones: the magnitude follows as a varint.
pub const INT_SENTINEL: u8 = 0b111;
/// Spare bits of a string, array or object tag, all ones: the number follows
/// as a varint.
pub const WIDE_SENTINEL: u8 = 0b11_1111;

/// All ones in the low `bits` bits: the spare bits of a tag.
pub open spec fn spare_mask(bits: nat) -> u8 {
    (pow2(bits) - 1) as u8
}

/// The top bits of the tag `b`, whose spare bits are `mask`.
pub open spec fn tag_code(b: u8, mask: u8) -> u8 {
    (b as nat - (b as nat) % (mask as nat + 1)) as u8
}

pub proof fn lemma_spare_mask(bits: nat)
    requires
        1 <= bits <= 7,
    ensures
        spare_mask(bits) as nat + 1 == pow2(bits),
        bits == 3 ==> spare_mask(bits) == INT_SENTINEL,
        bits == 6 ==> spare_mask(bits) == WIDE_SENTINEL,
        forall|code: u8| #[trigger] (code as nat % pow2(bits)) == 0 ==> code + spare_mask(bits) <= 255,
{
    lemma2_to64();
    assert forall|code: u8| #[trigger] (code as nat % pow2(bits)) == 0 implies code + spare_mask(
        bits,
    ) <= 255 by {
        let c = code as nat;
        if bits == 1 {
            assert(c % 2 == 0 && spare_mask(bits) == 1);
        } else if bits == 2 {
            assert(c % 4 == 0 && spare_mask(bits) == 3);
        } else if bits == 3 {
            assert(c % 8 == 0 && spare_mask(bits) == 7);
        } else if bits == 4 {
            assert(c % 16 == 0 && spare_mask(bits) == 15);
        } else if bits == 5 {
            assert(c % 32 == 0 && spare_mask(bits) == 31);
        } else if bits == 6 {
            assert(c % 64 == 0 && spare_mask(bits) == 63);
        } else {
            assert(c % 128 == 0 && spare_mask(bits) == 127);
        }
    }
}

/// A tag byte `code` with `value` in its spare bits when it is below the
/// all-ones `mask`, else with `mask` there and `value` following as a varint.
pub open spec fn inplace_bytes(code: u8, mask: u8, value: nat) -> Seq<u8> {
    if value < mask {
        seq![(code + value) as u8]
    } else {
        seq![(code + mask) as u8] + varint_bytes(value)
    }
}

/// What a magnitude is written for an integer: `v` itself when non-negative,
/// `-v - 1` otherwise.
pub open spec fn int_magnitude(v: i64) -> nat {
    if v >= 0 {
        v as nat
    } else {
        (-v - 1) as nat
    }
}

pub open spec fn int_bytes(v: i64) -> Seq<u8> {
    let code = if v >= 0 {
        INT
    } else {
        (INT + INT_SIGN) as u8
    };
    inplace_bytes(code, INT_SENTINEL, int_magnitude(v))
}

/// The eight bytes of `bits`, least significant first.
pub open spec fn le_bytes(bits: u64) -> Seq<u8> {
    seq![
        (bits & 0xff) as u8,
        ((bits >> 8u64) & 0xff) as u8,
        ((bits >> 16u64) & 0xff) as u8,
        ((bits >> 24u64) & 0xff) as u8,
        ((bits >> 32u64) & 0xff) as u8,
        ((bits >> 40u64) & 0xff) as u8,
        ((bits >> 48u64) & 0xff) as u8,
        ((bits >> 56u64) & 0xff) as u8,
    ]
}

pub open spec fn float_bytes(bits: u64) -> Seq<u8> {
    seq![FLOAT] + le_bytes(bits)
}

/// The position of `s` in the dictionary `d`.
pub open spec fn index_in(d: Seq<Seq<u8>>, s: Seq<u8>) -> int {
    choose|i: int| 0 <= i < d.len() && d[i] == s
}

pub open spec fn string_bytes(s: Seq<u8>, d: Seq<Seq<u8>>) -> Seq<u8> {
    inplace_bytes(STR, WIDE_SENTINEL, index_in(d, s) as nat)
}

/// The bytes of a value tree, with strings referring to dictionary `d`.
pub open spec fn json_bytes(v: Json, d: Seq<Seq<u8>>) -> Seq<u8>
    decreases v,
{
    match v {
        Json::Null => seq![NULL],
        Json::Bool(b) => seq![if b { TRUE } else { FALSE }],
        Json::Int(i) => int_bytes(i),
        Json::Float(f) => float_bytes(f),
        Json::Str(s) => string_bytes(s, d),
        Json::Array(vs) => inplace_bytes(ARR, WIDE_SENTINEL, vs.len()) + seq_bytes(vs, d),
        Json::Object(es) => inplace_bytes(OBJ, WIDE_SENTINEL, es.len()) + entries_bytes(es, d),
    }
}

pub open spec fn seq_bytes(vs: Seq<Json>, d: Seq<Seq<u8>>) -> Seq<u8>
    decreases vs,
{
    if vs.len() == 0 {
        Seq::empty()
    } else {
        json_bytes(vs[0], d) + seq_bytes(vs.drop_first(), d)
    }
}

pub open spec fn entries_bytes(es: Seq<(Seq<u8>, Json)>, d: Seq<Seq<u8>>) -> Seq<u8>
    decreases es,
{
    if es.len() == 0 {
        Seq::empty()
    } else {
        string_bytes(es[0].0, d) + json_bytes(es[0].1, d) + entries_bytes(es.drop_first(), d)
    }
}

/// Every string of the tree (object keys and string values), in document order.
pub open spec fn json_strings(v: Json) -> Seq<Seq<u8>>
    decreases v,
{
    match v {
        Json::Str(s) => seq![s],
        Json::Array(vs) => seq_strings(vs),
        Json::Object(es) => entries_strings(es),
        _ => Seq::empty(),
    }
}

pub open spec fn seq_strings(vs: Seq<Json>) -> Seq<Seq<u8>>
    decreases vs,
{
    if vs.len() == 0 {
        Seq::empty()
    } else {
        json_strings(vs[0]) + seq_strings(vs.drop_first())
    }
}

pub open spec fn entries_strings(es: Seq<(Seq<u8>, Json)>) -> Seq<Seq<u8>>
    decreases es,
{
    if es.len() == 0 {
        Seq::empty()
    } else {
        seq![es[0].0] + json_strings(es[0].1) + entries_strings(es.drop_first())
    }
}

/// Every string of the tree is in the dictionary.
pub open spec fn strings_covered(v: Json, d: Seq<Seq<u8>>) -> bool {
    forall|s: Seq<u8>| json_strings(v).contains(s) ==> d.contains(s)
}

/// One entry of the front-coded dictionary after the first: the length of
/// the prefix shared with `prev`, the length of the rest, and the rest.
pub open spec fn front_entry(prev: Seq<u8>, s: Seq<u8>) -> Seq<u8> {
    let c = common_prefix(prev, s);
    varint_bytes(c) + varint_bytes((s.len() - c) as nat) + s.skip(c as int)
}

/// The front-coded entries of `d` from position `i` on (`i >= 1`).
pub open spec fn front_entries(d: Seq<Seq<u8>>, i: nat) -> Seq<u8>
    decreases d.len() - i,
{
    if i >= d.len() || i == 0 {
        Seq::empty()
    } else {
        front_entry(d[i - 1], d[i as int]) + front_entries(d, i + 1)
    }
}

/// The serialized dictionary: the count, then (if any) the first string
/// whole and every later one front-coded against its predecessor.
pub open spec fn dictionary_bytes(d: Seq<Seq<u8>>) -> Seq<u8> {
    if d.len() == 0 {
        varint_bytes(0)
    } else {
        varint_bytes(d.len()) + varint_bytes(d[0].len()) + d[0] + front_entries(d, 1)
    }
}

/// A dictionary for `v`: sorted, duplicate-free, holding exactly its strings.
pub open spec fn dictionary_of(d: Seq<Seq<u8>>, v: Json) -> bool {
    &&& strictly_sorted(d)
    &&& forall|s: Seq<u8>| d.contains(s) <==> json_strings(v).contains(s)
}

/// Every count and length of the dictionary fits in a u64.
pub open spec fn dictionary_fits(d: Seq<Seq<u8>>) -> bool {
    &&& d.len() <= u64::MAX
    &&& forall|i: int| 0 <= i < d.len() ==> (#[trigger] d[i]).len() <= u64::MAX
}

/// A whole stream: version byte, dictionary, value tree.
pub open spec fn document_bytes(v: Json, d: Seq<Seq<u8>>) -> Seq<u8> {
    seq![VERSION] + dictionary_bytes(d) + json_bytes(v, d)
}

pub proof fn lemma_index_in(d: Seq<Seq<u8>>, i: int)
    requires
        strictly_sorted(d),
        0 <= i < d.len(),
    ensures
        index_in(d, d[i]) == i,
{
    let j = index_in(d, d[i]);
    assert(0 <= j < d.len() && d[j] == d[i]);
    lemma_lex_irreflexive(d[i]);
    if j < i {
        assert(lex_lt(d[j], d[i]));
    } else if i < j {
        assert(lex_lt(d[i], d[j]));
    }
}

pub proof fn lemma_contains_concat<A>(a: Seq<A>, b: Seq<A>)
    ensures
        forall|x: A| #[trigger] (a + b).contains(x) <==> a.contains(x) || b.contains(x),
{
    assert forall|x: A| #[trigger] (a + b).contains(x) <==> a.contains(x) || b.contains(x) by {
        if a.contains(x) {
            let k = choose|k: int| 0 <= k < a.len() && a[k] == x;
            assert((a + b)[k] == x);
        }
        if b.contains(x) {
            let k = choose|k: int| 0 <= k < b.len() && b[k] == x;
            assert((a + b)[a.len() + k] == x);
        }
        if (a + b).contains(x) {
            let k = choose|k: int| 0 <= k < (a + b).len() && (a + b)[k] == x;
            if k < a.len() {
                assert(a[k] == x);
            } else {
                assert(b[k - a.len()] == x);
            }
        }
    }
}

/// The bit pattern whose bytes, least significant first, are `b[0..8]`.
pub open spec fn from_le(b: Seq<u8>) -> u64 {
    (b[0] as u64) | ((b[1] as u64) << 8u64) | ((b[2] as u64) << 16u64) | ((b[3] as u64) << 24u64)
        | ((b[4] as u64) << 32u64) | ((b[5] as u64) << 40u64) | ((b[6] as u64) << 48u64) | ((
    b[7] as u64) << 56u64)
}

/// Reads the number carried by the tag `s[0]` whose spare bits are `mask`:
/// the spare bits themselves, or the varint after the tag when they are all
/// ones. Gives the number and the bytes taken, the tag included.
pub open spec fn read_inplace(s: Seq<u8>, mask: u8) -> Result<(nat, nat), DecodeError> {
    if s.len() == 0 {
        Err(DecodeError::TruncatedInput)
    } else {
        let low = (s[0] as nat) % (mask as nat + 1);
        if low < mask {
            Ok((low, 1))
        } else {
            match read_varint(s.skip(1)) {
                Ok((v, n)) => Ok((v as nat, n + 1)),
                Err(e) => Err(e),
            }
        }
    }
}

pub open spec fn tag_class(b: u8) -> u8 {
    b / 64
}

/// Reads a string reference whose tag is `s[0]`.
pub open spec fn parse_string_ref(s: Seq<u8>, d: Seq<Seq<u8>>) -> Result<(Seq<u8>, nat), DecodeError> {
    match read_inplace(s, WIDE_SENTINEL) {
        Ok((i, n)) => if i < d.len() {
            Ok((d[i as int], n))
        } else {
            Err(DecodeError::StringIndexOutOfRange)
        },
        Err(e) => Err(e),
    }
}

/// Reads an object key: a string reference.
pub open spec fn parse_key(s: Seq<u8>, d: Seq<Seq<u8>>) -> Result<(Seq<u8>, nat), DecodeError> {
    if s.len() == 0 {
        Err(DecodeError::TruncatedInput)
    } else if tag_class(s[0]) != 1 {
        Err(DecodeError::InvalidTag)
    } else {
        parse_string_ref(s, d)
    }
}

/// Reads an integer whose tag is `s[0]`.
pub open spec fn parse_int_spec(s: Seq<u8>) -> Result<(i64, nat), DecodeError> {
    if s.len() == 0 {
        Err(DecodeError::TruncatedInput)
    } else if s[0] & 0xf0 != INT {
        Err(DecodeError::InvalidTag)
    } else {
        parse_int_body(s)
    }
}

pub open spec fn parse_int_body(s: Seq<u8>) -> Result<(i64, nat), DecodeError> {
    match read_inplace(s, INT_SENTINEL) {
        Ok((m, n)) => if m > i64::MAX {
            Err(DecodeError::NumberOutOfRange)
        } else if s[0] & INT_SIGN == 0 {
            Ok((m as i64, n))
        } else {
            Ok(((-(m as int) - 1) as i64, n))
        },
        Err(e) => Err(e),
    }
}

/// Reads a float: the tag, then eight bytes of bit pattern.
pub open spec fn parse_float_spec(s: Seq<u8>) -> Result<(u64, nat), DecodeError> {
    if s.len() == 0 {
        Err(DecodeError::TruncatedInput)
    } else if s[0] != FLOAT {
        Err(DecodeError::InvalidTag)
    } else if s.len() < 9 {
        Err(DecodeError::TruncatedInput)
    } else {
        Ok((from_le(s.subrange(1, 9)), 9))
    }
}

/// What decoding one value from the front of `s` gives: the value and the
/// number of bytes it took, or why it failed.
pub open spec fn parse_value(s: Seq<u8>, d: Seq<Seq<u8>>) -> Result<(Json, nat), DecodeError>
    decreases s.len(), 0nat,
{
    if s.len() == 0 {
        Err(DecodeError::TruncatedInput)
    } else {
        let b = s[0];
        if b == NULL {
            Ok((Json::Null, 1))
        } else if b == FALSE {
            Ok((Json::Bool(false), 1))
        } else if b == TRUE {
            Ok((Json::Bool(true), 1))
        } else if b & 0xf0 == INT {
            match parse_int_spec(s) {
                Ok((i, n)) => Ok((Json::Int(i), n)),
                Err(e) => Err(e),
            }
        } else if b == FLOAT {
            match parse_float_spec(s) {
                Ok((f, n)) => Ok((Json::Float(f), n)),
                Err(e) => Err(e),
            }
        } else if tag_class(b) == 1 {
            match parse_string_ref(s, d) {
                Ok((t, n)) => Ok((Json::Str(t), n)),
                Err(e) => Err(e),
            }
        } else if tag_class(b) == 2 {
            match read_inplace(s, WIDE_SENTINEL) {
                Ok((c, n)) => if 1 <= n <= s.len() {
                    match parse_seq(s.skip(n as int), d, c) {
                        Ok((vs, m)) => Ok((Json::Array(vs), n + m)),
                        Err(e) => Err(e),
                    }
                } else {
                    Err(DecodeError::TruncatedInput)
                },
                Err(e) => Err(e),
            }
        } else if tag_class(b) == 3 {
            match read_inplace(s, WIDE_SENTINEL) {
                Ok((c, n)) => if 1 <= n <= s.len() {
                    match parse_entries(s.skip(n as int), d, c) {
                        Ok((es, m)) => Ok((Json::Object(es), n + m)),
                        Err(e) => Err(e),
                    }
                } else {
                    Err(DecodeError::TruncatedInput)
                },
                Err(e) => Err(e),
            }
        } else {
            Err(DecodeError::InvalidTag)
        }
    }
}

/// Decoding `c` values one after the other.
pub open spec fn parse_seq(s: Seq<u8>, d: Seq<Seq<u8>>, c: nat) -> Result<(Seq<Json>, nat), DecodeError>
    decreases s.len(), c + 1,
{
    if c == 0 {
        Ok((Seq::empty(), 0))
    } else {
        match parse_value(s, d) {
            Ok((v, n)) => if n <= s.len() {
                match parse_seq(s.skip(n as int), d, (c - 1) as nat) {
                    Ok((vs, m)) => Ok((seq![v] + vs, n + m)),
                    Err(e) => Err(e),
                }
            } else {
                Err(DecodeError::TruncatedInput)
            },
            Err(e) => Err(e),
        }
    }
}

/// Decoding `c` key-value pairs one after the other.
pub open spec fn parse_entries(s: Seq<u8>, d: Seq<Seq<u8>>, c: nat) -> Result<
    (Seq<(Seq<u8>, Json)>, nat),
    DecodeError,
>
    decreases s.len(), c + 1,
{
    if c == 0 {
        Ok((Seq::empty(), 0))
    } else {
        match parse_key(s, d) {
            Ok((k, n)) => if n <= s.len() {
                match parse_value(s.skip(n as int), d) {
                    Ok((v, m)) => if n + m <= s.len() {
                        match parse_entries(s.skip((n + m) as int), d, (c - 1) as nat) {
                            Ok((es, l)) => Ok((seq![(k, v)] + es, n + m + l)),
                            Err(e) => Err(e),
                        }
                    } else {
                        Err(DecodeError::TruncatedInput)
                    },
                    Err(e) => Err(e),
                }
            } else {
                Err(DecodeError::TruncatedInput)
            },
            Err(e) => Err(e),
        }
    }
}

/// Decoding `c` front-coded entries, the first of them coded against `prev`.
pub open spec fn parse_front_entries(s: Seq<u8>, prev: Seq<u8>, c: nat) -> Result<
    (Seq<Seq<u8>>, nat),
    DecodeError,
>
    decreases c,
{
    if c == 0 {
        Ok((Seq::empty(), 0))
    } else {
        match read_varint(s) {
            Ok((cpl, n1)) => match read_varint(s.skip(n1 as int)) {
                Ok((len, n2)) => if cpl > prev.len() {
                    Err(DecodeError::NumberOutOfRange)
                } else if n1 + n2 + len > s.len() {
                    Err(DecodeError::TruncatedInput)
                } else {
                    let start = n1 + n2;
                    let end = (n1 + n2 + len) as nat;
                    let cur = prev.take(cpl as int) + s.subrange(start as int, end as int);
                    match parse_front_entries(s.skip(end as int), cur, (c - 1) as nat) {
                        Ok((rest, m)) => Ok((seq![cur] + rest, end + m)),
                        Err(e) => Err(e),
                    }
                },
                Err(e) => Err(e),
            },
            Err(e) => Err(e),
        }
    }
}

/// What reading a serialized dictionary from the front of `s` gives.
pub open spec fn parse_dictionary(s: Seq<u8>) -> Result<(Seq<Seq<u8>>, nat), DecodeError> {
    match read_varint(s) {
        Ok((count, n1)) => if count == 0 {
            Ok((Seq::empty(), n1))
        } else {
            match read_varint(s.skip(n1 as int)) {
                Ok((len, n2)) => if n1 + n2 + len > s.len() {
                    Err(DecodeError::TruncatedInput)
                } else {
                    let end = (n1 + n2 + len) as nat;
                    let first = s.subrange((n1 + n2) as int, end as int);
                    match parse_front_entries(s.skip(end as int), first, (count - 1) as nat) {
                        Ok((rest, m)) => Ok((seq![first] + rest, end + m)),
                        Err(e) => Err(e),
                    }
                },
                Err(e) => Err(e),
            }
        },
        Err(e) => Err(e),
    }
}

/// What decoding a whole stream gives: the version byte, the dictionary, and
/// the value tree that follows it.
pub open spec fn parse_document(s: Seq<u8>) -> Result<Json, DecodeError> {
    if s.len() == 0 {
        Err(DecodeError::TruncatedInput)
    } else {
        match parse_dictionary(s.skip(1)) {
            Ok((d, n)) => match parse_value(s.skip((1 + n) as int), d) {
                Ok((v, _)) => Ok(v),
                Err(e) => Err(e),
            },
            Err(e) => Err(e),
        }
    }
}

} // verus!
