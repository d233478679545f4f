use vstd::prelude::*;

use crate::error::DecodeError;

verus! {

/// The continuation-bit encoding of `v`: seven payload bits per byte, least
/// significant group first, the high bit set on every byte but the last.
pub open spec fn varint_bytes(v: nat) -> Seq<u8>
    decreases v,
{
    if v < 128 {
        seq![v as u8]
    } else {
        seq![(v % 128 + 128) as u8] + varint_bytes(v / 128)
    }
}

/// The number of bytes up to and including the first one without the high bit.
pub open spec fn varint_end(s: Seq<u8>) -> Option<nat>
    decreases s.len(),
{
    if s.len() == 0 {
        None
    } else if s[0] < 128 {
        Some(1)
    } else {
        match varint_end(s.drop_first()) {
            Some(n) => Some(n + 1),
            None => None,
        }
    }
}

/// The payload groups of `s` up to the first byte without the high bit.
pub open spec fn varint_value(s: Seq<u8>) -> nat
    decreases s.len(),
{
    if s.len() == 0 {
        0
    } else if s[0] < 128 {
        s[0] as nat
    } else {
        (s[0] % 128) as nat + 128 * varint_value(s.drop_first())
    }
}

/// Ten leading bytes that all continue, with more data behind them: no u64
/// has an encoding this long.
pub open spec fn varint_overlong(s: Seq<u8>) -> bool {
    s.len() > 10 && forall|i: int| 0 <= i < 10 ==> s[i] >= 128
}

pub open spec fn u64_wrap(n: nat) -> u64 {
    (n % 0x1_0000_0000_0000_0000) as u64
}

/// What reading one varint from the front of `s` gives: the value and the
/// number of bytes it took. Input that ends before a byte without the high
/// bit is truncated; an encoding longer than ten bytes, or one whose value
/// exceeds `u64::MAX`, is out of range.
pub open spec fn read_varint(s: Seq<u8>) -> Result<(u64, nat), DecodeError> {
    match varint_end(s) {
        None => Err(DecodeError::TruncatedInput),
        Some(n) => if n > 10 || varint_value(s) > u64::MAX {
            Err(DecodeError::NumberOutOfRange)
        } else {
            Ok((varint_value(s) as u64, n))
        },
    }
}

/// Relies on vbyte::compress: seven payload bits per byte, least significant
/// group first, the high bit set on all bytes but the last; zero is one byte.
#[verifier::external_body]
fn vbyte_compress(v: u64) -> (r: Vec<u8>)
    ensures
        r@ == varint_bytes(v as nat),
{
    vbyte::compress(v)
}

/// Relies on vbyte::decompress: it ORs the low seven bits of byte `i` in at
/// bit `7 * i` of a u64 (bits shifted past 63 are lost, hence the value
/// modulo 2^64) up to the first byte without the high bit, hands back the
/// bytes after it, and fails when the input ends first. Reaching an eleventh
/// byte makes the shift amount 70, an overflow (a panic in debug builds),
/// which the `requires` rules out.
#[verifier::external_body]
fn vbyte_decompress<'a>(data: &'a [u8]) -> (r: Option<(u64, &'a [u8])>)
    requires
        !varint_overlong(data@),
    ensures
        match r {
            Some((v, rest)) => varint_end(data@) matches Some(n) && v == u64_wrap(
                varint_value(data@),
            ) && rest@ == data@.skip(n as int),
            None => varint_end(data@) is None,
        },
{
    vbyte::decompress(data).ok()
}

/// Appends the varint encoding of `value` to `w`.
pub fn write_number(value: u64, w: &mut Vec<u8>)
    ensures
        final(w)@ == old(w)@ + varint_bytes(value as nat),
{
    let mut data = vbyte_compress(value);
    w.append(&mut data);
}

/// Reads one varint starting at `pos`; returns the value and the position
/// after it.
pub fn vbyte_number(data: &[u8], pos: usize) -> (r: Result<(u64, usize), DecodeError>)
    requires
        pos <= data.len(),
    ensures
        match r {
            Ok((v, p)) => read_varint(data@.skip(pos as int)) == Ok::<(u64, nat), DecodeError>(
                (v, (p - pos) as nat),
            ) && pos < p <= data.len(),
            Err(e) => read_varint(data@.skip(pos as int)) == Err::<(u64, nat), DecodeError>(e),
        },
{
    let ghost s = data@.skip(pos as int);
    // find the first byte without the high bit
    let mut i: usize = 0;
    while pos + i < data.len() && data[pos + i] >= 128
        invariant
            pos + i <= data.len(),
            s == data@.skip(pos as int),
            forall|j: int| 0 <= j < i ==> s[j] >= 128,
        decreases data.len() - pos - i,
    {
        assert(s[i as int] == data@[pos + i]);
        i = i + 1;
    }
    proof {
        if pos + i < data.len() {
            assert(s[i as int] == data@[pos + i]);
        }
        lemma_varint_end_first(s, i as nat);
    }
    if pos + i == data.len() {
        return Err(DecodeError::TruncatedInput);
    }
    if i >= 10 {
        return Err(DecodeError::NumberOutOfRange);
    }
    let tail = vstd::slice::slice_subrange(data, pos, data.len());
    assert(tail@ == s);
    proof {
        if varint_overlong(s) {
            assert(s[i as int] >= 128);
        }
    }
    match vbyte_decompress(tail) {
        Some((v, rest)) => {
            assert(s[i as int] == data@[pos + i]);
            proof {
                lemma_varint_value_bound(s, i as nat);
                lemma_pow128_monotonic(i as nat, 9);
                reveal_with_fuel(pow128, 10);
                assert(pow128(9) == 0x8000_0000_0000_0000);
            }
            if i == 9 && data[pos + 9] > 1 {
                assert(varint_value(s) >= pow128(9) * 2) by (nonlinear_arith)
                    requires
                        varint_value(s) >= pow128(9) * s[9],
                        s[9] >= 2,
                ;
                return Err(DecodeError::NumberOutOfRange);
            }
            proof {
                if i == 9 {
                    assert(varint_value(s) < pow128(9) * 2) by (nonlinear_arith)
                        requires
                            varint_value(s) < pow128(9) * (s[9] + 1),
                            s[9] <= 1,
                    ;
                } else {
                    assert(varint_value(s) < pow128(9)) by (nonlinear_arith)
                        requires
                            varint_value(s) < pow128(i as nat) * (s[i as int] + 1),
                            s[i as int] < 128,
                            pow128(i as nat) * 128 == pow128(i as nat + 1),
                            pow128(i as nat + 1) <= pow128(9),
                    {
                    }
                }
                lemma_varint_end_bound(s);
            }
            Ok((v, data.len() - rest.len()))
        },
        None => Err(DecodeError::TruncatedInput),
    }
}

proof fn lemma_varint_end_first(s: Seq<u8>, i: nat)
    requires
        i <= s.len(),
        forall|j: int| 0 <= j < i ==> s[j] >= 128,
    ensures
        i == s.len() ==> varint_end(s) is None,
        i < s.len() && s[i as int] < 128 ==> varint_end(s) == Some(i + 1),
    decreases i,
{
    if i > 0 {
        lemma_varint_end_first(s.drop_first(), (i - 1) as nat);
    }
}

proof fn lemma_varint_value_bound(s: Seq<u8>, k: nat)
    requires
        k < s.len(),
        forall|j: int| 0 <= j < k ==> s[j] >= 128,
        s[k as int] < 128,
    ensures
        pow128(k) * s[k as int] <= varint_value(s) < pow128(k) * (s[k as int] + 1),
    decreases k,
{
    if k == 0 {
        assert(pow128(0) == 1);
        assert(varint_value(s) == s[0] as nat);
    } else {
        let t = s.drop_first();
        lemma_varint_value_bound(t, (k - 1) as nat);
        assert(pow128(k) == 128 * pow128((k - 1) as nat));
        let c = s[k as int] as nat;
        assert(t[k - 1] == c);
        let p = pow128((k - 1) as nat);
        let vt = varint_value(t);
        assert(varint_value(s) == (s[0] % 128) as nat + 128 * vt);
        assert(128 * p * c <= (s[0] % 128) as nat + 128 * vt < 128 * p * (c + 1)) by (nonlinear_arith)
            requires
                p * c <= vt < p * (c + 1),
                ((s[0] % 128) as nat) < 128,
        ;
        assert(128 * p * c == pow128(k) * c) by (nonlinear_arith)
            requires
                pow128(k) == 128 * p,
        ;
        assert(128 * p * (c + 1) == pow128(k) * (c + 1)) by (nonlinear_arith)
            requires
                pow128(k) == 128 * p,
        ;
    }
}

proof fn lemma_pow128_monotonic(a: nat, b: nat)
    requires
        a <= b,
    ensures
        pow128(a) <= pow128(b),
        pow128(a) * 128 == pow128(a + 1),
    decreases b,
{
    if a < b {
        lemma_pow128_monotonic(a, (b - 1) as nat);
    }
}

pub proof fn lemma_varint_end_bound(s: Seq<u8>)
    ensures
        varint_end(s) matches Some(n) ==> 1 <= n <= s.len(),
    decreases s.len(),
{
    if s.len() > 0 && s[0] >= 128 {
        lemma_varint_end_bound(s.drop_first());
    }
}

pub open spec fn pow128(k: nat) -> nat
    decreases k,
{
    if k == 0 {
        1
    } else {
        128 * pow128((k - 1) as nat)
    }
}

proof fn lemma_varint_len_bound(v: nat, k: nat)
    requires
        v < pow128(k),
        k >= 1,
    ensures
        varint_bytes(v).len() <= k,
        varint_bytes(v).len() >= 1,
    decreases v,
{
    if v >= 128 {
        assert(k >= 2) by {
            if k == 1 {
                assert(pow128(1) == 128 * pow128(0));
                assert(pow128(0) == 1);
            }
        }
        assert(v / 128 < pow128((k - 1) as nat)) by (nonlinear_arith)
            requires
                v < 128 * pow128((k - 1) as nat),
        ;
        lemma_varint_len_bound(v / 128, (k - 1) as nat);
    }
}

/// Every u64 takes between one and ten bytes.
pub proof fn lemma_varint_len(v: u64)
    ensures
        1 <= varint_bytes(v as nat).len() <= 10,
{
    reveal_with_fuel(pow128, 11);
    assert(pow128(10) == 0x40_0000_0000_0000_0000);
    lemma_varint_len_bound(v as nat, 10);
}

/// The exact length: `k` bytes for the values from `128^(k-1)` (or zero)
/// up to below `128^k`.
pub proof fn lemma_varint_len_exact(v: nat, k: nat)
    requires
        k >= 1,
        v < pow128(k),
        k == 1 || pow128((k - 1) as nat) <= v,
    ensures
        varint_bytes(v).len() == k,
    decreases k,
{
    assert(pow128(k) == 128 * pow128((k - 1) as nat));
    if k == 1 {
        assert(pow128(0) == 1);
    } else {
        let p = pow128((k - 2) as nat);
        assert(pow128((k - 1) as nat) == 128 * p);
        assert(p >= 1) by {
            lemma_pow128_monotonic(0, (k - 2) as nat);
            assert(pow128(0) == 1);
        }
        assert(v >= 128);
        assert(v / 128 < pow128((k - 1) as nat) && p <= v / 128) by (nonlinear_arith)
            requires
                v < 128 * pow128((k - 1) as nat),
                128 * p <= v,
        ;
        lemma_varint_len_exact(v / 128, (k - 1) as nat);
    }
}

/// The encoding grows with the value: a larger number never takes fewer bytes.
pub proof fn lemma_varint_len_monotonic(a: nat, b: nat)
    requires
        a <= b,
    ensures
        varint_bytes(a).len() <= varint_bytes(b).len(),
    decreases b,
{
    if a >= 128 {
        assert(a / 128 <= b / 128) by (nonlinear_arith)
            requires
                a <= b,
        ;
        lemma_varint_len_monotonic(a / 128, b / 128);
    }
}

/// Every byte of an encoding but the last has the high bit set and the last
/// has it clear, so a read stops exactly at its end and gets the value back.
pub proof fn lemma_varint_parse(v: nat, rest: Seq<u8>)
    ensures
        varint_end(varint_bytes(v) + rest) == Some(varint_bytes(v).len()),
        varint_value(varint_bytes(v) + rest) == v,
        forall|i: int| 0 <= i < varint_bytes(v).len() - 1 ==> #[trigger] varint_bytes(v)[i] >= 128,
        varint_bytes(v)[varint_bytes(v).len() - 1] < 128,
    decreases v,
{
    let s = varint_bytes(v) + rest;
    if v >= 128 {
        let t = varint_bytes(v / 128);
        lemma_varint_parse(v / 128, rest);
        assert(s.drop_first() =~= t + rest);
        assert(v == v % 128 + 128 * (v / 128));
    }
}

/// Reading back what `write_number` wrote gives the same value, and the
/// read stops exactly at the end of the encoding.
pub proof fn lemma_varint_round_trip(v: u64, rest: Seq<u8>)
    ensures
        read_varint(varint_bytes(v as nat) + rest) == Ok::<(u64, nat), DecodeError>(
            (v, varint_bytes(v as nat).len()),
        ),
{
    lemma_varint_parse(v as nat, rest);
    lemma_varint_len(v);
}

} // verus!
