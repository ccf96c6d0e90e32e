//! The binary form of a triple: `varint(offset) || varint(len) || utf8(char)`.
use crate::codec::{string_from_chars, CodecError, Triple};
use vstd::prelude::*;
use vstd::string::{StrSliceExecFns, StringSliceAdditionalSpecFns};
use vstd::utf8::{decode_utf8, encode_utf8, valid_utf8};

verus! {

broadcast use vstd::utf8::encode_utf8_valid_utf8, vstd::utf8::encode_utf8_decode_utf8;

/// The varint of `n`: seven bits per byte, least significant group first,
/// the high bit set on every byte but the last.
pub open spec fn varint_bytes(n: nat) -> Seq<u8>
    decreases n,
{
    if n < 128 {
        seq![n as u8]
    } else {
        seq![(n % 128 + 128) as u8] + varint_bytes(n / 128)
    }
}

/// Reads a varint from the front of `b`, looking at no more than `fuel`
/// bytes: its value and how many bytes it took, or `None` when no byte with a
/// clear high bit comes in time.
pub open spec fn varint_read(b: Seq<u8>, fuel: nat) -> Option<(nat, nat)>
    decreases fuel,
{
    if fuel == 0 || b.len() == 0 {
        None
    } else if b[0] < 128 {
        Some((b[0] as nat, 1))
    } else {
        match varint_read(b.drop_first(), (fuel - 1) as nat) {
            Some((v, k)) => Some((((b[0] - 128) + 128 * v) as nat, k + 1)),
            None => None,
        }
    }
}

/// A `u32` read as a varint from the front of `b`, with the number of bytes
/// it took; `None` when the varint is truncated, longer than the five bytes
/// a `u32` needs, or its value does not fit in a `u32`.
pub open spec fn varint_u32(b: Seq<u8>) -> Option<(u32, nat)> {
    match varint_read(b, 5) {
        Some((v, k)) => if v <= u32::MAX {
            Some((v as u32, k))
        } else {
            None
        },
        None => None,
    }
}

/// `128` to the power `k`.
pub open spec fn pow128(k: nat) -> nat
    decreases k,
{
    if k == 0 {
        1
    } else {
        128 * pow128((k - 1) as nat)
    }
}

/// The bytes of a triple.
pub open spec fn wire_bytes(t: Triple) -> Seq<u8> {
    varint_bytes(t.offset as nat) + varint_bytes(t.len as nat) + encode_utf8(seq![t.char_value])
}

/// The triple that `b` holds, or `None` when `b` is not the binary form of one.
pub open spec fn parse_wire(b: Seq<u8>) -> Option<Triple> {
    match varint_u32(b) {
        None => None,
        Some((offset, n1)) => match varint_u32(b.skip(n1 as int)) {
            None => None,
            Some((len, n2)) => {
                let rest = b.skip((n1 + n2) as int);
                if valid_utf8(rest) && decode_utf8(rest).len() == 1 {
                    Some(Triple { offset, len, char_value: decode_utf8(rest)[0] })
                } else {
                    None
                }
            },
        },
    }
}

/// Relies on integer_encoding's `VarInt::encode_var_vec` for `u32`: the value
/// in seven-bit groups, least significant first, high bit set on all but the
/// last byte.
#[verifier::external_body]
fn varint_encode(n: u32) -> (r: Vec<u8>)
    ensures
        r@ == varint_bytes(n as nat),
{
    integer_encoding::VarInt::encode_var_vec(n)
}

/// Relies on integer_encoding's `VarInt::decode_var` for `u64`: the value
/// (modulo 2^64) of the varint at the front of `b` and the bytes it took, or
/// `None` when none of the first ten bytes ends the varint.
#[verifier::external_body]
fn varint_decode(b: &[u8]) -> (r: Option<(u64, usize)>)
    ensures
        match r {
            Some((v, k)) => match varint_read(b@, 10) {
                Some((w, j)) => v == w % 0x1_0000_0000_0000_0000 && k == j,
                None => false,
            },
            None => varint_read(b@, 10) is None,
        },
{
    <u64 as integer_encoding::VarInt>::decode_var(b)
}

/// Reads a `u32` varint from the front of `b`: its value and the bytes it
/// took, or `None` when it is truncated, longer than five bytes, or too large.
fn read_u32_varint(b: &[u8]) -> (r: Option<(u32, usize)>)
    ensures
        match r {
            Some((v, k)) => varint_u32(b@) == Some((v, k as nat)),
            None => varint_u32(b@) is None,
        },
{
    proof {
        lemma_varint_read_fuel(b@, 10, 5);
        lemma_varint_value_bound(b@, 10);
    }
    match varint_decode(b) {
        None => None,
        Some((v, k)) => {
            if k > 5 {
                None
            } else {
                proof {
                    let (w, _) = varint_read(b@, 10)->Some_0;
                    lemma_pow128_mono(k as nat, 5);
                    assert(pow128(5) == 34359738368) by {
                        reveal_with_fuel(pow128, 6);
                    }
                    vstd::arithmetic::div_mod::lemma_small_mod(w, 0x1_0000_0000_0000_0000);
                }
                if v > 0xffff_ffff {
                    None
                } else {
                    Some((v as u32, k))
                }
            }
        },
    }
}

proof fn lemma_varint_read_fuel(b: Seq<u8>, f1: nat, f2: nat)
    requires
        f2 <= f1,
    ensures
        match varint_read(b, f1) {
            Some((w, k)) => if k <= f2 {
                varint_read(b, f2) == Some((w, k))
            } else {
                varint_read(b, f2) is None
            },
            None => varint_read(b, f2) is None,
        },
    decreases f2,
{
    lemma_varint_read_len(b, f1);
    if f2 > 0 && b.len() > 0 && b[0] >= 128 {
        lemma_varint_read_fuel(b.drop_first(), (f1 - 1) as nat, (f2 - 1) as nat);
    }
}

proof fn lemma_varint_value_bound(b: Seq<u8>, fuel: nat)
    ensures
        match varint_read(b, fuel) {
            Some((w, k)) => w < pow128(k),
            None => true,
        },
    decreases fuel,
{
    if fuel > 0 && b.len() > 0 {
        if b[0] < 128 {
            assert(pow128(1) == 128) by {
                reveal_with_fuel(pow128, 2);
            }
        } else {
            let rest = b.drop_first();
            lemma_varint_value_bound(rest, (fuel - 1) as nat);
            match varint_read(rest, (fuel - 1) as nat) {
                Some((v, j)) => {
                    let p = pow128(j);
                    let lo = (b[0] - 128) as int;
                    assert(lo + 128 * v < 128 * p) by (nonlinear_arith)
                        requires
                            0 <= lo < 128,
                            v < p,
                    ;
                },
                None => {},
            }
        }
    }
}

proof fn lemma_pow128_mono(i: nat, j: nat)
    requires
        i <= j,
    ensures
        pow128(i) <= pow128(j),
    decreases j,
{
    if i < j {
        lemma_pow128_mono(i, (j - 1) as nat);
    }
}

/// Relies on `std::str::from_utf8`, on the bytes from `at` on: it succeeds
/// exactly on valid UTF-8, and then the text's bytes are those bytes.
#[verifier::external_body]
fn utf8_text<'a>(b: &'a [u8], at: usize) -> (r: Option<&'a str>)
    requires
        at <= b@.len(),
    ensures
        match r {
            Some(t) => t.spec_bytes() == b@.skip(at as int),
            None => !valid_utf8(b@.skip(at as int)),
        },
{
    std::str::from_utf8(&b[at..]).ok()
}

proof fn lemma_varint_read_len(b: Seq<u8>, fuel: nat)
    ensures
        match varint_read(b, fuel) {
            Some((v, k)) => 1 <= k <= b.len(),
            None => true,
        },
    decreases fuel,
{
    if fuel > 0 && b.len() > 0 && b[0] >= 128 {
        lemma_varint_read_len(b.drop_first(), (fuel - 1) as nat);
    }
}

proof fn lemma_varint_round_trip(n: nat, rest: Seq<u8>, fuel: nat)
    requires
        varint_bytes(n).len() <= fuel,
    ensures
        varint_read(varint_bytes(n) + rest, fuel) == Some((n, varint_bytes(n).len())),
    decreases n,
{
    let b = varint_bytes(n) + rest;
    if n < 128 {
        assert(b[0] == n as u8);
    } else {
        let q = n / 128;
        assert(b.drop_first() =~= varint_bytes(q) + rest);
        lemma_varint_round_trip(q, rest, (fuel - 1) as nat);
        assert(b[0] == (n % 128 + 128) as u8);
    }
}

proof fn lemma_varint_u32_len(n: u32)
    ensures
        varint_bytes(n as nat).len() <= 5,
{
    let a = n as nat;
    let b = a / 128;
    let c = b / 128;
    let d = c / 128;
    let e = d / 128;
    assert(e < 128);
    assert(varint_bytes(a).len() <= 5) by {
        reveal_with_fuel(varint_bytes, 5);
    }
}

/// Reading back the binary form of any triple gives that triple.
pub proof fn lemma_wire_round_trip(t: Triple)
    ensures
        parse_wire(wire_bytes(t)) == Some(t),
{
    let o = varint_bytes(t.offset as nat);
    let l = varint_bytes(t.len as nat);
    let u = encode_utf8(seq![t.char_value]);
    let b = wire_bytes(t);
    lemma_varint_u32_len(t.offset);
    lemma_varint_u32_len(t.len);
    assert(b =~= o + (l + u));
    lemma_varint_round_trip(t.offset as nat, l + u, 5);
    assert(b.skip(o.len() as int) =~= l + u);
    lemma_varint_round_trip(t.len as nat, u, 5);
    assert(b.skip((o.len() + l.len()) as int) =~= u);
}

impl Triple {
    /// The binary form of this triple.
    pub fn to_bytes(&self) -> (r: Vec<u8>)
        ensures
            r@ == wire_bytes(*self),
    {
        let mut out = varint_encode(self.offset);
        let mut len_bytes = varint_encode(self.len);
        out.append(&mut len_bytes);
        let one = vec![self.char_value];
        let text = string_from_chars(&one);
        let utf8 = text.as_str().as_bytes();
        let mut char_bytes = vstd::slice::slice_to_vec(utf8);
        out.append(&mut char_bytes);
        proof {
            assert(one@ =~= seq![self.char_value]);
        }
        out
    }

    /// Reads a triple from its binary form: two varints of at most five bytes
    /// whose values fit in a `u32`, then exactly one UTF-8 encoded character.
    /// Fails with `MalformedWireFormat` otherwise.
    pub fn from_bytes(bytes: &[u8]) -> (r: Result<Triple, CodecError>)
        ensures
            match r {
                Ok(t) => parse_wire(bytes@) == Some(t),
                Err(e) => parse_wire(bytes@) is None && e == CodecError::MalformedWireFormat,
            },
    {
        let ghost b = bytes@;
        let (offset, n1) = match read_u32_varint(bytes) {
            Some(p) => p,
            None => return Err(CodecError::MalformedWireFormat),
        };
        proof {
            lemma_varint_read_len(b, 5);
        }
        let after_offset = vstd::slice::slice_subrange(bytes, n1, bytes.len());
        let (len, n2) = match read_u32_varint(after_offset) {
            Some(p) => p,
            None => return Err(CodecError::MalformedWireFormat),
        };
        proof {
            assert(after_offset@ =~= b.skip(n1 as int));
            lemma_varint_read_len(after_offset@, 5);
            assert(after_offset@.skip(n2 as int) =~= b.skip(n1 + n2));
        }
        let text = match utf8_text(after_offset, n2) {
            Some(t) => t,
            None => return Err(CodecError::MalformedWireFormat),
        };
        proof {
            assert(encode_utf8(text@) == b.skip(n1 + n2));
        }
        if text.unicode_len() != 1 {
            return Err(CodecError::MalformedWireFormat);
        }
        let char_value = text.get_char(0);
        Ok(Triple { offset, len, char_value })
    }
}

} // verus!
