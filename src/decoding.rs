use vstd::prelude::*;

use crate::error::DecodeError;
use vstd::arithmetic::power2::{lemma2_to64, pow2};

use crate::encoding::low_bits;
use crate::format::{
    lemma_spare_mask, parse_float_spec, spare_mask, tag_code,
    parse_dictionary, parse_document, parse_entries, parse_front_entries, parse_int_spec,
    parse_seq, parse_string_ref, parse_value, read_inplace, FALSE, FLOAT, INT, INT_SIGN, NULL, TRUE, };
use crate::sorted_collection::byte_strings;
use crate::value::{entry_views, views, Json, Value};
use crate::varint::{read_varint, vbyte_number};

verus! {

/// Reads the tag at `pos`, whose top `bits_for_code` bits are its code and
/// whose other bits carry a number: those bits themselves, or the varint
/// after the tag when they are all ones. Gives the code (the tag with its
/// spare bits cleared), the number, and the position after it.
pub fn inplace_number(bits_for_code: u8, data: &[u8], pos: usize) -> (r: Result<
    (u8, u64, usize),
    DecodeError,
>)
    requires
        1 <= bits_for_code <= 7,
        pos <= data.len(),
    ensures
        match r {
            Ok((code, v, p)) => read_inplace(
                data@.skip(pos as int),
                spare_mask((8 - bits_for_code) as nat),
            ) == Ok::<(nat, nat), DecodeError>((v as nat, (p - pos) as nat)) && code == tag_code(
                data@[pos as int],
                spare_mask((8 - bits_for_code) as nat),
            ) && pos < p <= data.len(),
            Err(e) => read_inplace(data@.skip(pos as int), spare_mask((8 - bits_for_code) as nat))
                == Err::<(nat, nat), DecodeError>(e),
        },
{
    let ghost s = data@.skip(pos as int);
    if pos >= data.len() {
        return Err(DecodeError::TruncatedInput);
    }
    let mask = low_bits(8 - bits_for_code);
    proof {
        lemma2_to64();
        lemma_spare_mask((8 - bits_for_code) as nat);
        assert(pow2((8 - bits_for_code) as nat) <= 128);
    }
    let b = data[pos];
    assert(s[0] == b);
    let low = b % (mask + 1);
    assert(low <= b) by (nonlinear_arith)
        requires
            low as int == b as int % (mask as int + 1),
            mask < 128,
    ;
    let code = b - low;
    if low < mask {
        Ok((code, low as u64, pos + 1))
    } else {
        assert(s.skip(1) =~= data@.skip(pos + 1));
        match vbyte_number(data, pos + 1) {
            Ok((v, p)) => Ok((code, v, p)),
            Err(e) => Err(e),
        }
    }
}

/// Reads an integer whose tag is at `pos`.
fn parse_int(data: &[u8], pos: usize) -> (r: Result<(i64, usize), DecodeError>)
    requires
        pos <= data.len(),
    ensures
        match r {
            Ok((v, p)) => parse_int_spec(data@.skip(pos as int)) == Ok::<(i64, nat), DecodeError>(
                (v, (p - pos) as nat),
            ) && pos < p <= data.len(),
            Err(e) => parse_int_spec(data@.skip(pos as int)) == Err::<(i64, nat), DecodeError>(e),
        },
{
    if pos >= data.len() {
        return Err(DecodeError::TruncatedInput);
    }
    let tag = data[pos];
    if tag & 0xf0 != INT {
        return Err(DecodeError::InvalidTag);
    }
    proof {
        lemma2_to64();
        lemma_spare_mask(3);
    }
    match inplace_number(5, data, pos) {
        Ok((code, m, p)) => {
            assert(tag_code(tag, 7) == (tag - tag % 8) as u8);
            assert(code & INT_SIGN == tag & INT_SIGN) by (bit_vector)
                requires
                    code == (tag - tag % 8) as u8,
            ;
            if m > i64::MAX as u64 {
                Err(DecodeError::NumberOutOfRange)
            } else if code & INT_SIGN == 0 {
                Ok((m as i64, p))
            } else {
                Ok((-(m as i64) - 1, p))
            }
        },
        Err(e) => Err(e),
    }
}

/// Reads a float: the tag at `pos`, then the eight bytes of its bit pattern,
/// least significant first.
fn parse_float(data: &[u8], pos: usize) -> (r: Result<(u64, usize), DecodeError>)
    requires
        pos <= data.len(),
    ensures
        match r {
            Ok((bits, p)) => parse_float_spec(data@.skip(pos as int)) == Ok::<(u64, nat), DecodeError>(
                (bits, (p - pos) as nat),
            ) && pos < p <= data.len(),
            Err(e) => parse_float_spec(data@.skip(pos as int)) == Err::<(u64, nat), DecodeError>(e),
        },
{
    if pos >= data.len() {
        return Err(DecodeError::TruncatedInput);
    }
    if data[pos] != FLOAT {
        return Err(DecodeError::InvalidTag);
    }
    if data.len() - pos < 9 {
        return Err(DecodeError::TruncatedInput);
    }
    let ghost b = data@.skip(pos as int).subrange(1, 9);
    assert(b[0] == data[pos + 1] && b[1] == data[pos + 2] && b[2] == data[pos + 3] && b[3]
        == data[pos + 4]);
    assert(b[4] == data[pos + 5] && b[5] == data[pos + 6] && b[6] == data[pos + 7] && b[7]
        == data[pos + 8]);
    let bits = (data[pos + 1] as u64) | ((data[pos + 2] as u64) << 8u64) | ((data[pos + 3] as u64)
        << 16u64) | ((data[pos + 4] as u64) << 24u64) | ((data[pos + 5] as u64) << 32u64) | ((
    data[pos + 6] as u64) << 40u64) | ((data[pos + 7] as u64) << 48u64) | ((data[pos + 8] as u64)
        << 56u64);
    Ok((bits, pos + 9))
}

/// Reads a string reference whose tag is at `pos` and resolves it in the
/// dictionary.
fn parse_string(data: &[u8], pos: usize, strings: &Vec<Vec<u8>>) -> (r: Result<
    (Vec<u8>, usize),
    DecodeError,
>)
    requires
        pos < data.len(),
    ensures
        match r {
            Ok((t, p)) => parse_string_ref(data@.skip(pos as int), byte_strings(strings@)) == Ok::<
                (Seq<u8>, nat),
                DecodeError,
            >((t@, (p - pos) as nat)) && pos < p <= data.len(),
            Err(e) => parse_string_ref(data@.skip(pos as int), byte_strings(strings@)) == Err::<
                (Seq<u8>, nat),
                DecodeError,
            >(e),
        },
{
    proof {
        lemma2_to64();
        lemma_spare_mask(6);
    }
    match inplace_number(2, data, pos) {
        Ok((_, i, p)) => {
            if i < strings.len() as u64 {
                let t = vstd::slice::slice_to_vec(strings[i as usize].as_slice());
                Ok((t, p))
            } else {
                Err(DecodeError::StringIndexOutOfRange)
            }
        },
        Err(e) => Err(e),
    }
}

/// Decodes `count` values, the first at `pos`, one after the other.
fn array(data: &[u8], pos: usize, count: u64, strings: &Vec<Vec<u8>>) -> (r: Result<
    (Vec<Value>, usize),
    DecodeError,
>)
    requires
        pos <= data.len(),
    ensures
        match r {
            Ok((vs, p)) => parse_seq(data@.skip(pos as int), byte_strings(strings@), count as nat)
                == Ok::<(Seq<Json>, nat), DecodeError>((views(vs@), (p - pos) as nat)) && pos <= p
                <= data.len(),
            Err(e) => parse_seq(data@.skip(pos as int), byte_strings(strings@), count as nat)
                == Err::<(Seq<Json>, nat), DecodeError>(e),
        },
    decreases data.len() - pos, 1nat,
{
    let ghost d = byte_strings(strings@);
    let ghost s0 = data@.skip(pos as int);
    let mut out: Vec<Value> = Vec::new();
    let mut q: usize = pos;
    let mut i: u64 = 0;
    while i < count
        invariant
            pos <= q <= data.len(),
            i <= count,
            s0 == data@.skip(pos as int),
            d == byte_strings(strings@),
            match parse_seq(data@.skip(q as int), d, (count - i) as nat) {
                Ok((vs, m)) => parse_seq(s0, d, count as nat) == Ok::<(Seq<Json>, nat), DecodeError>(
                    (views(out@) + vs, ((q - pos) + m) as nat),
                ),
                Err(e) => parse_seq(s0, d, count as nat) == Err::<(Seq<Json>, nat), DecodeError>(e),
            },
        decreases count - i,
    {
        let ghost sq = data@.skip(q as int);
        let ghost c = (count - i) as nat;
        match json(data, q, strings) {
            Ok((v, q2)) => {
                proof {
                    assert(sq.skip(q2 - q) =~= data@.skip(q2 as int));
                    let ghost before = views(out@);
                    match parse_seq(data@.skip(q2 as int), d, (c - 1) as nat) {
                        Ok((vs, m)) => {
                            assert(before + (seq![v@] + vs) =~= views(out@.push(v)) + vs);
                        },
                        Err(e) => {},
                    }
                }
                out.push(v);
                q = q2;
                i = i + 1;
            },
            Err(e) => {
                return Err(e);
            },
        }
    }
    proof {
        assert(views(out@) + Seq::<Json>::empty() =~= views(out@));
    }
    Ok((out, q))
}

/// Decodes `count` key-value pairs, the first at `pos`, one after the other.
fn object(data: &[u8], pos: usize, count: u64, strings: &Vec<Vec<u8>>) -> (r: Result<
    (Vec<(Vec<u8>, Value)>, usize),
    DecodeError,
>)
    requires
        pos <= data.len(),
    ensures
        match r {
            Ok((es, p)) => parse_entries(data@.skip(pos as int), byte_strings(strings@), count as nat)
                == Ok::<(Seq<(Seq<u8>, Json)>, nat), DecodeError>((entry_views(es@), (p - pos) as nat))
                && pos <= p <= data.len(),
            Err(e) => parse_entries(data@.skip(pos as int), byte_strings(strings@), count as nat)
                == Err::<(Seq<(Seq<u8>, Json)>, nat), DecodeError>(e),
        },
    decreases data.len() - pos, 1nat,
{
    let ghost d = byte_strings(strings@);
    let ghost s0 = data@.skip(pos as int);
    let mut out: Vec<(Vec<u8>, Value)> = Vec::new();
    let mut q: usize = pos;
    let mut i: u64 = 0;
    while i < count
        invariant
            pos <= q <= data.len(),
            i <= count,
            s0 == data@.skip(pos as int),
            d == byte_strings(strings@),
            match parse_entries(data@.skip(q as int), d, (count - i) as nat) {
                Ok((es, m)) => parse_entries(s0, d, count as nat) == Ok::<
                    (Seq<(Seq<u8>, Json)>, nat),
                    DecodeError,
                >((entry_views(out@) + es, ((q - pos) + m) as nat)),
                Err(e) => parse_entries(s0, d, count as nat) == Err::<
                    (Seq<(Seq<u8>, Json)>, nat),
                    DecodeError,
                >(e),
            },
        decreases count - i,
    {
        let ghost sq = data@.skip(q as int);
        let ghost c = (count - i) as nat;
        if q >= data.len() {
            return Err(DecodeError::TruncatedInput);
        }
        if data[q] / 64 != 1 {
            return Err(DecodeError::InvalidTag);
        }
        assert(sq[0] == data[q as int]);
        match parse_string(data, q, strings) {
            Ok((k, q1)) => {
                assert(sq.skip(q1 - q) =~= data@.skip(q1 as int));
                match json(data, q1, strings) {
                    Ok((v, q2)) => {
                        proof {
                            assert(sq.skip(q2 - q) =~= data@.skip(q2 as int));
                            let ghost before = entry_views(out@);
                            match parse_entries(data@.skip(q2 as int), d, (c - 1) as nat) {
                                Ok((es, m)) => {
                                    assert(before + (seq![(k@, v@)] + es) =~= entry_views(
                                        out@.push((k, v)),
                                    ) + es);
                                },
                                Err(e) => {},
                            }
                        }
                        out.push((k, v));
                        q = q2;
                        i = i + 1;
                    },
                    Err(e) => {
                        return Err(e);
                    },
                }
            },
            Err(e) => {
                return Err(e);
            },
        }
    }
    proof {
        assert(entry_views(out@) + Seq::<(Seq<u8>, Json)>::empty() =~= entry_views(out@));
    }
    Ok((out, q))
}

/// Decodes one value starting at `pos`, with strings resolved in the
/// dictionary `strings`; gives the value and the position after it.
pub fn json(data: &[u8], pos: usize, strings: &Vec<Vec<u8>>) -> (r: Result<
    (Value, usize),
    DecodeError,
>)
    requires
        pos <= data.len(),
    ensures
        match r {
            Ok((v, p)) => parse_value(data@.skip(pos as int), byte_strings(strings@)) == Ok::<
                (Json, nat),
                DecodeError,
            >((v@, (p - pos) as nat)) && pos < p <= data.len(),
            Err(e) => parse_value(data@.skip(pos as int), byte_strings(strings@)) == Err::<
                (Json, nat),
                DecodeError,
            >(e),
        },
    decreases data.len() - pos, 0nat,
{
    let ghost s = data@.skip(pos as int);
    let ghost d = byte_strings(strings@);
    if pos >= data.len() {
        return Err(DecodeError::TruncatedInput);
    }
    let b = data[pos];
    assert(s[0] == b);
    if b == NULL {
        Ok((Value::Null, pos + 1))
    } else if b == FALSE {
        Ok((Value::Bool(false), pos + 1))
    } else if b == TRUE {
        Ok((Value::Bool(true), pos + 1))
    } else if b & 0xf0 == INT {
        match parse_int(data, pos) {
            Ok((i, p)) => Ok((Value::Int(i), p)),
            Err(e) => Err(e),
        }
    } else if b == FLOAT {
        match parse_float(data, pos) {
            Ok((f, p)) => Ok((Value::Float(f), p)),
            Err(e) => Err(e),
        }
    } else if b / 64 == 1 {
        match parse_string(data, pos, strings) {
            Ok((t, p)) => Ok((Value::Str(t), p)),
            Err(e) => Err(e),
        }
    } else if b / 64 == 2 {
        proof {
            lemma2_to64();
            lemma_spare_mask(6);
        }
        match inplace_number(2, data, pos) {
            Ok((_, c, p)) => {
                assert(s.skip(p - pos) =~= data@.skip(p as int));
                match array(data, p, c, strings) {
                    Ok((vs, q)) => {
                        let v = Value::Array(vs);
                        assert(v@->Array_0 =~= views(vs@));
                        Ok((v, q))
                    },
                    Err(e) => Err(e),
                }
            },
            Err(e) => Err(e),
        }
    } else if b / 64 == 3 {
        proof {
            lemma2_to64();
            lemma_spare_mask(6);
        }
        match inplace_number(2, data, pos) {
            Ok((_, c, p)) => {
                assert(s.skip(p - pos) =~= data@.skip(p as int));
                match object(data, p, c, strings) {
                    Ok((es, q)) => {
                        let v = Value::Object(es);
                        assert(v@->Object_0 =~= entry_views(es@));
                        Ok((v, q))
                    },
                    Err(e) => Err(e),
                }
            },
            Err(e) => Err(e),
        }
    } else {
        Err(DecodeError::InvalidTag)
    }
}

/// Copies `len` bytes starting at `pos`.
fn copy_bytes(data: &[u8], pos: usize, len: usize, out: &mut Vec<u8>)
    requires
        pos + len <= data.len(),
    ensures
        final(out)@ == old(out)@ + data@.subrange(pos as int, pos + len),
{
    let ghost o = out@;
    let mut k: usize = 0;
    while k < len
        invariant
            k <= len,
            pos + len <= data.len(),
            out@ == o + data@.subrange(pos as int, pos + k),
        decreases len - k,
    {
        out.push(data[pos + k]);
        assert(out@ =~= o + data@.subrange(pos as int, pos + k + 1));
        k = k + 1;
    }
}

/// Reads a front-coded dictionary starting at `pos`: the count, the first
/// string whole, then each later one as the length it shares with its
/// predecessor, the length of the rest, and the rest. Gives the strings in
/// stream order and the position after them.
#[verifier::rlimit(50)]
pub fn decompress_strings(data: &[u8], pos: usize) -> (r: Result<(Vec<Vec<u8>>, usize), DecodeError>)
    requires
        pos <= data.len(),
    ensures
        match r {
            Ok((d, p)) => parse_dictionary(data@.skip(pos as int)) == Ok::<
                (Seq<Seq<u8>>, nat),
                DecodeError,
            >((byte_strings(d@), (p - pos) as nat)) && pos <= p <= data.len(),
            Err(e) => parse_dictionary(data@.skip(pos as int)) == Err::<
                (Seq<Seq<u8>>, nat),
                DecodeError,
            >(e),
        },
{
    let ghost s = data@.skip(pos as int);
    let (amount, p1) = match vbyte_number(data, pos) {
        Ok(x) => x,
        Err(e) => return Err(e),
    };
    if amount == 0 {
        let empty: Vec<Vec<u8>> = Vec::new();
        assert(byte_strings(empty@) =~= Seq::<Seq<u8>>::empty());
        return Ok((empty, p1));
    }
    assert(s.skip(p1 - pos) =~= data@.skip(p1 as int));
    let (fstlen, p2) = match vbyte_number(data, p1) {
        Ok(x) => x,
        Err(e) => return Err(e),
    };
    if fstlen > (data.len() - p2) as u64 {
        return Err(DecodeError::TruncatedInput);
    }
    let mut fst: Vec<u8> = Vec::new();
    copy_bytes(data, p2, fstlen as usize, &mut fst);
    let mut q: usize = p2 + fstlen as usize;
    assert(fst@ =~= s.subrange(p2 - pos, q - pos));
    assert(s.skip(q - pos) =~= data@.skip(q as int));
    let mut strings: Vec<Vec<u8>> = Vec::new();
    strings.push(fst);
    proof {
        assert(read_varint(s) == Ok::<(u64, nat), DecodeError>((amount, (p1 - pos) as nat)));
        assert(read_varint(s.skip((p1 - pos) as int)) == Ok::<(u64, nat), DecodeError>(
            (fstlen, (p2 - p1) as nat),
        ));
        assert(byte_strings(strings@) =~= seq![fst@]);
        assert(byte_strings(strings@).last() == fst@);
    }
    let mut i: u64 = 1;
    while i < amount
        invariant
            pos <= q <= data.len(),
            1 <= i <= amount,
            s == data@.skip(pos as int),
            strings.len() >= 1,
            match parse_front_entries(
                data@.skip(q as int),
                byte_strings(strings@).last(),
                (amount - i) as nat,
            ) {
                Ok((rest, m)) => parse_dictionary(s) == Ok::<(Seq<Seq<u8>>, nat), DecodeError>(
                    (byte_strings(strings@) + rest, ((q - pos) + m) as nat),
                ),
                Err(e) => parse_dictionary(s) == Err::<(Seq<Seq<u8>>, nat), DecodeError>(e),
            },
        decreases amount - i,
    {
        let ghost sq = data@.skip(q as int);
        let ghost prev_s = byte_strings(strings@).last();
        let (cpl, q1) = match vbyte_number(data, q) {
            Ok(x) => x,
            Err(e) => return Err(e),
        };
        assert(sq.skip(q1 - q) =~= data@.skip(q1 as int));
        let (len, q2) = match vbyte_number(data, q1) {
            Ok(x) => x,
            Err(e) => return Err(e),
        };
        let last = strings.len() - 1;
        assert(strings@[last as int]@ == prev_s);
        if cpl > strings[last].len() as u64 {
            return Err(DecodeError::NumberOutOfRange);
        }
        if len > (data.len() - q2) as u64 {
            return Err(DecodeError::TruncatedInput);
        }
        let mut cur: Vec<u8> = Vec::new();
        copy_bytes(strings[last].as_slice(), 0, cpl as usize, &mut cur);
        copy_bytes(data, q2, len as usize, &mut cur);
        let q3 = q2 + len as usize;
        proof {
            assert(read_varint(sq) == Ok::<(u64, nat), DecodeError>((cpl, (q1 - q) as nat)));
            assert(read_varint(sq.skip((q1 - q) as int)) == Ok::<(u64, nat), DecodeError>(
                (len, (q2 - q1) as nat),
            ));
            assert(cur@ =~= prev_s.take(cpl as int) + sq.subrange(q2 - q, q3 - q));
            assert(sq.skip(q3 - q) =~= data@.skip(q3 as int));
            let before = byte_strings(strings@);
            assert(byte_strings(strings@.push(cur)) =~= before + seq![cur@]);
            assert(byte_strings(strings@.push(cur)).last() == cur@);
            match parse_front_entries(data@.skip(q3 as int), cur@, (amount - i - 1) as nat) {
                Ok((rest, m)) => {
                    assert(before + (seq![cur@] + rest) =~= (before + seq![cur@]) + rest);
                },
                Err(e) => {},
            }
        }
        strings.push(cur);
        q = q3;
        i = i + 1;
    }
    assert(byte_strings(strings@) + Seq::<Seq<u8>>::empty() =~= byte_strings(strings@));
    Ok((strings, q))
}

/// Decodes a whole stream: the version byte, the dictionary, the value tree.
pub fn decode(data: &[u8]) -> (r: Result<Value, DecodeError>)
    ensures
        match r {
            Ok(v) => parse_document(data@) == Ok::<Json, DecodeError>(v@),
            Err(e) => parse_document(data@) == Err::<Json, DecodeError>(e),
        },
{
    if data.len() == 0 {
        return Err(DecodeError::TruncatedInput);
    }
    let (strings, p) = match decompress_strings(data, 1) {
        Ok(x) => x,
        Err(e) => return Err(e),
    };
    assert(data@.skip(1).skip(p - 1) =~= data@.skip(p as int));
    match json(data, p, &strings) {
        Ok((v, _)) => Ok(v),
        Err(e) => Err(e),
    }
}

} // verus!
