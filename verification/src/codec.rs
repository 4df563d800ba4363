//! The binary layout of a ticket purchase payload, its decoder and encoder.
//!
//! The wire format is, in order:
//!
//! ```text
//! [32 bytes: receiver][8 bytes LE: spin_id][8 bytes LE: price]
//! [8 bytes LE: amount][length prefix][N bytes: UTF-8 coin_type]
//! ```
//!
//! The length prefix is a base-128 varint (seven payload bits per byte,
//! least-significant group first, the high bit of a byte marking a
//! continuation): at most five bytes, in minimal form (no trailing zero
//! group), and its value at most 2^31 - 1, the format's sequence-length
//! cap.

use vstd::prelude::*;
use vstd::arithmetic::div_mod::{lemma_fundamental_div_mod, lemma_multiply_divide_lt};
use vstd::arithmetic::power::pow;
use vstd::bytes::{spec_u64_from_le_bytes, spec_u64_to_le_bytes, u64_from_le_bytes, u64_to_le_bytes};
use vstd::slice::{slice_subrange, slice_to_vec};
use vstd::utf8::{decode_utf8, encode_utf8, valid_utf8};

use crate::record::{TicketBought, TicketView};

verus! {

/// Why a payload failed to decode.
#[derive(Debug, Clone, Copy, PartialEq, Eq)]
pub enum DecodeError {
    /// A field needed more bytes than the input still had, or the length
    /// prefix claimed more bytes than were available.
    Truncated,
    /// The length prefix was not a minimal varint, had more than five
    /// bytes, or its value was over the 2^31 - 1 sequence-length cap.
    BadLengthPrefix,
    /// The text field's bytes were not valid UTF-8.
    InvalidText,
    /// Bytes remained after the last field.
    TrailingBytes,
}

/// Outcome of reading a length prefix at some position of the input.
pub ghost enum LenPrefix {
    /// The input ended before the prefix was complete.
    Short,
    /// The prefix was complete but not acceptable: too many bytes, a
    /// non-minimal encoding, or a value over the sequence-length cap.
    Malformed,
    /// A value, and the position just after the prefix.
    Parsed { value: nat, end: int },
}

/// Reads a base-128 varint at position `off` of `b`, with `depth` bytes of
/// the prefix already consumed.  At most five bytes are read in all; a
/// terminating zero byte after the first is a non-minimal encoding.
pub open spec fn spec_varint(b: Seq<u8>, off: int, depth: nat) -> LenPrefix
    decreases 5 - depth when depth <= 5
{
    if depth >= 5 {
        LenPrefix::Malformed
    } else if !(0 <= off < b.len()) {
        LenPrefix::Short
    } else {
        let x = b[off];
        if x < 0x80 {
            if depth > 0 && x == 0 {
                LenPrefix::Malformed
            } else {
                LenPrefix::Parsed { value: x as nat, end: off + 1 }
            }
        } else {
            match spec_varint(b, off + 1, depth + 1) {
                LenPrefix::Short => LenPrefix::Short,
                LenPrefix::Malformed => LenPrefix::Malformed,
                LenPrefix::Parsed { value, end } => LenPrefix::Parsed {
                    value: ((x - 0x80) + 128 * value) as nat,
                    end: end,
                },
            }
        }
    }
}

/// The length prefix at position `off`: a varint whose value also
/// respects the sequence-length cap of 2^31 - 1.
pub open spec fn spec_length_prefix(b: Seq<u8>, off: int) -> LenPrefix {
    match spec_varint(b, off, 0) {
        LenPrefix::Parsed { value, end } => if value > 0x7FFF_FFFF {
            LenPrefix::Malformed
        } else {
            LenPrefix::Parsed { value, end }
        },
        other => other,
    }
}

/// A parsed varint is bounded by the bytes still allowed to it: with
/// `depth` bytes consumed, at most `5 - depth` groups of seven bits remain.
proof fn lemma_varint_bound(b: Seq<u8>, off: int, depth: nat)
    requires
        depth <= 5,
        spec_varint(b, off, depth) is Parsed,
    ensures
        spec_varint(b, off, depth)->Parsed_value
            < vstd::arithmetic::power::pow(128, (5 - depth) as nat),
        off < spec_varint(b, off, depth)->Parsed_end <= b.len(),
        spec_varint(b, off, depth)->Parsed_end - off <= 5 - depth,
    decreases 5 - depth,
{
    vstd::arithmetic::power::lemma_pow_positive(128, (5 - depth) as nat);
    let x = b[off];
    if x < 0x80 {
        assert(vstd::arithmetic::power::pow(128, (5 - depth) as nat)
            >= vstd::arithmetic::power::pow(128, 1)) by {
            vstd::arithmetic::power::lemma_pow_increases(128, 1, (5 - depth) as nat);
        }
        assert(vstd::arithmetic::power::pow(128, 1) == 128) by {
            vstd::arithmetic::power::lemma_pow1(128);
        }
    } else {
        lemma_varint_bound(b, off + 1, depth + 1);
        let sub = spec_varint(b, off + 1, depth + 1)->Parsed_value;
        assert(vstd::arithmetic::power::pow(128, (5 - depth) as nat)
            == 128 * vstd::arithmetic::power::pow(128, (4 - depth) as nat)) by {
            vstd::arithmetic::power::lemma_pow1(128);
            vstd::arithmetic::power::lemma_pow_adds(128, 1, (4 - depth) as nat);
        }
        assert((x - 0x80) + 128 * sub < 128 * (sub + 1) <= 128 * vstd::arithmetic::power::pow(
            128,
            (4 - depth) as nat,
        )) by (nonlinear_arith)
            requires
                0x80 <= x < 0x100,
                0 <= sub,
                sub + 1 <= vstd::arithmetic::power::pow(128, (4 - depth) as nat),
        ;
    }
}

/// Reads the varint at `off`, mirroring [`spec_varint`].  Returns the value
/// and the position just after it.
fn read_varint(bytes: &Vec<u8>, off: usize, depth: u8) -> (r: Result<(u64, usize), DecodeError>)
    requires
        off <= bytes@.len(),
        depth <= 5,
    ensures
        match r {
            Ok((value, end)) => {
                &&& spec_varint(bytes@, off as int, depth as nat) == (LenPrefix::Parsed {
                    value: value as nat,
                    end: end as int,
                })
                &&& off < end <= bytes@.len()
            },
            Err(DecodeError::Truncated) => spec_varint(bytes@, off as int, depth as nat)
                is Short,
            Err(DecodeError::BadLengthPrefix) => spec_varint(bytes@, off as int, depth as nat)
                is Malformed,
            Err(_) => false,
        },
    decreases 5 - depth,
{
    if depth >= 5 {
        return Err(DecodeError::BadLengthPrefix);
    }
    if off >= bytes.len() {
        return Err(DecodeError::Truncated);
    }
    let x = bytes[off];
    if x < 0x80 {
        if depth > 0 && x == 0 {
            Err(DecodeError::BadLengthPrefix)
        } else {
            Ok((x as u64, off + 1))
        }
    } else {
        match read_varint(bytes, off + 1, depth + 1) {
            Err(e) => Err(e),
            Ok((value, end)) => {
                proof {
                    lemma_varint_bound(bytes@, off as int + 1, depth as nat + 1);
                    assert(vstd::arithmetic::power::pow(128, 4) == 0x1000_0000) by {
                        reveal_with_fuel(vstd::arithmetic::power::pow, 5);
                    }
                    assert(vstd::arithmetic::power::pow(128, (4 - depth) as nat)
                        <= vstd::arithmetic::power::pow(128, 4)) by {
                        vstd::arithmetic::power::lemma_pow_increases(
                            128,
                            (4 - depth) as nat,
                            4,
                        );
                    }
                }
                Ok(((x - 0x80) as u64 + 128 * value, end))
            },
        }
    }
}

/// What decoding a payload yields: the record read field by field in the
/// fixed order, or the first error the cursor runs into.
pub open spec fn spec_decode(b: Seq<u8>) -> Result<TicketView, DecodeError> {
    if b.len() < 56 {
        Err(DecodeError::Truncated)
    } else {
        match spec_length_prefix(b, 56) {
            LenPrefix::Short => Err(DecodeError::Truncated),
            LenPrefix::Malformed => Err(DecodeError::BadLengthPrefix),
            LenPrefix::Parsed { value, end } => if b.len() - end < value {
                Err(DecodeError::Truncated)
            } else if !valid_utf8(b.subrange(end, end + value)) {
                Err(DecodeError::InvalidText)
            } else if end + value != b.len() {
                Err(DecodeError::TrailingBytes)
            } else {
                Ok(
                    TicketView {
                        receiver: b.subrange(0, 32),
                        spin_id: spec_u64_from_le_bytes(b.subrange(32, 40)),
                        price: spec_u64_from_le_bytes(b.subrange(40, 48)),
                        amount: spec_u64_from_le_bytes(b.subrange(48, 56)),
                        coin_type: decode_utf8(b.subrange(end, end + value)),
                    },
                )
            },
        }
    }
}

/// Relies on `String::from_utf8`: it succeeds exactly when the bytes are
/// valid UTF-8, and the returned string's characters are the decoding of
/// those bytes.
#[verifier::external_body]
fn utf8_to_string(bytes: Vec<u8>) -> (r: Option<String>)
    ensures
        r is Some <==> valid_utf8(bytes@),
        r is Some ==> r.unwrap()@ == decode_utf8(bytes@),
{
    String::from_utf8(bytes).ok()
}

/// Decodes one payload into a record, exactly as [`spec_decode`] reads it.
/// Never panics: every malformed input comes back as a [`DecodeError`].
pub fn decode(bytes: &Vec<u8>) -> (r: Result<TicketBought, DecodeError>)
    ensures
        match r {
            Ok(t) => spec_decode(bytes@) == Ok::<TicketView, DecodeError>(t@) && t.wf(),
            Err(e) => spec_decode(bytes@) == Err::<TicketView, DecodeError>(e),
        },
{
    if bytes.len() < 56 {
        return Err(DecodeError::Truncated);
    }
    let receiver: Vec<u8> = slice_to_vec(slice_subrange(bytes.as_slice(), 0, 32));
    let spin_id = u64_from_le_bytes(slice_subrange(bytes.as_slice(), 32, 40));
    let price = u64_from_le_bytes(slice_subrange(bytes.as_slice(), 40, 48));
    let amount = u64_from_le_bytes(slice_subrange(bytes.as_slice(), 48, 56));
    let (length, end) = match read_varint(bytes, 56, 0) {
        Ok(p) => p,
        Err(e) => {
            return Err(e);
        },
    };
    if length > 0x7FFF_FFFF {
        return Err(DecodeError::BadLengthPrefix);
    }
    if ((bytes.len() - end) as u64) < length {
        return Err(DecodeError::Truncated);
    }
    let text_end = end + (length as usize);
    let text: Vec<u8> = slice_to_vec(slice_subrange(bytes.as_slice(), end, text_end));
    match utf8_to_string(text) {
        None => Err(DecodeError::InvalidText),
        Some(coin_type) => {
            if text_end != bytes.len() {
                Err(DecodeError::TrailingBytes)
            } else {
                Ok(TicketBought { receiver, spin_id, price, amount, coin_type })
            }
        },
    }
}

/// The minimal base-128 varint encoding of `n`: seven bits per byte,
/// least-significant group first.
pub open spec fn spec_varint_encode(n: nat) -> Seq<u8>
    decreases n,
{
    if n < 128 {
        seq![n as u8]
    } else {
        seq![(128 + n % 128) as u8] + spec_varint_encode(n / 128)
    }
}

/// The byte layout of a record: identifier, the three integers in
/// little-endian order, then the length-prefixed UTF-8 text.
pub open spec fn spec_encode(t: TicketView) -> Seq<u8> {
    t.receiver + spec_u64_to_le_bytes(t.spin_id) + spec_u64_to_le_bytes(t.price)
        + spec_u64_to_le_bytes(t.amount) + spec_varint_encode(encode_utf8(t.coin_type).len())
        + encode_utf8(t.coin_type)
}

/// Emits the minimal varint encoding of `n`, mirroring
/// [`spec_varint_encode`].
fn varint_encode(n: u64) -> (v: Vec<u8>)
    ensures
        v@ == spec_varint_encode(n as nat),
    decreases n,
{
    if n < 128 {
        let mut v: Vec<u8> = Vec::new();
        v.push(n as u8);
        v
    } else {
        let mut v: Vec<u8> = Vec::new();
        v.push(128 + (n % 128) as u8);
        let mut rest = varint_encode(n / 128);
        v.append(&mut rest);
        proof {
            assert(v@ =~= spec_varint_encode(n as nat));
        }
        v
    }
}

/// Encodes a record under the layout of [`spec_encode`].  `None` only when
/// the text field is longer than the length prefix's 2^31 - 1 cap.
pub fn encode(t: &TicketBought) -> (r: Option<Vec<u8>>)
    ensures
        r is Some <==> encode_utf8(t@.coin_type).len() <= 0x7FFF_FFFF,
        r is Some ==> r.unwrap()@ == spec_encode(t@),
{
    let text: &[u8] = t.coin_type.as_str().as_bytes();
    if text.len() > 0x7FFF_FFFFusize {
        return None;
    }
    let mut out: Vec<u8> = Vec::new();
    let mut receiver: Vec<u8> = slice_to_vec(t.receiver.as_slice());
    out.append(&mut receiver);
    let mut word = u64_to_le_bytes(t.spin_id);
    out.append(&mut word);
    let mut word = u64_to_le_bytes(t.price);
    out.append(&mut word);
    let mut word = u64_to_le_bytes(t.amount);
    out.append(&mut word);
    let mut prefix = varint_encode(text.len() as u64);
    out.append(&mut prefix);
    let mut body: Vec<u8> = slice_to_vec(text);
    out.append(&mut body);
    proof {
        assert(out@ =~= spec_encode(t@));
    }
    Some(out)
}

/// Law: an input shorter than the 56 bytes of the fixed fields is always
/// rejected as truncated; no partial record is ever produced.
pub proof fn lemma_short_input_rejected(b: Seq<u8>)
    requires
        b.len() < 56,
    ensures
        spec_decode(b) == Err::<TicketView, DecodeError>(DecodeError::Truncated),
{
}

/// Reading a varint back from its minimal encoding recovers the value and
/// consumes exactly the encoding's bytes.
proof fn lemma_varint_roundtrip(b: Seq<u8>, off: int, depth: nat, n: nat)
    requires
        depth < 5,
        n < pow(128, (5 - depth) as nat),
        depth > 0 ==> n > 0,
        0 <= off,
        off + spec_varint_encode(n).len() <= b.len(),
        b.subrange(off, off + spec_varint_encode(n).len() as int) == spec_varint_encode(n),
    ensures
        spec_varint(b, off, depth) == (LenPrefix::Parsed {
            value: n,
            end: off + spec_varint_encode(n).len(),
        }),
    decreases n,
{
    let enc = spec_varint_encode(n);
    assert(enc[0] == b.subrange(off, off + enc.len() as int)[0]);
    assert(b.subrange(off, off + enc.len() as int)[0] == b[off]);
    if n < 128 {
        assert(b[off] == n as u8);
    } else {
        let rest = spec_varint_encode(n / 128);
        assert(b[off] == (128 + n % 128) as u8);
        assert(depth < 4) by {
            vstd::arithmetic::power::lemma_pow1(128);
        }
        assert forall|k: int| 0 <= k < rest.len() implies b.subrange(
            off + 1,
            off + 1 + rest.len() as int,
        )[k] == rest[k] by {
            assert(enc[k + 1] == b.subrange(off, off + enc.len() as int)[k + 1]);
        }
        assert(b.subrange(off + 1, off + 1 + rest.len() as int) =~= rest);
        assert(pow(128, (5 - depth) as nat) == 128 * pow(128, (4 - depth) as nat)) by {
            vstd::arithmetic::power::lemma_pow1(128);
            vstd::arithmetic::power::lemma_pow_adds(128, 1, (4 - depth) as nat);
        }
        lemma_multiply_divide_lt(n as int, pow(128, (4 - depth) as nat), 128);
        lemma_varint_roundtrip(b, off + 1, depth + 1, n / 128);
        lemma_fundamental_div_mod(n as int, 128);
    }
}

/// Law (round trip): encoding any well-formed record under the defined
/// layout and decoding the result yields the record back, field for field,
/// for any identifier bytes, any integer triple, and any text label whose
/// UTF-8 form fits under the length prefix's cap.
pub proof fn lemma_encode_then_decode(t: TicketView)
    requires
        t.wf(),
        encode_utf8(t.coin_type).len() <= 0x7FFF_FFFF,
    ensures
        spec_decode(spec_encode(t)) == Ok::<TicketView, DecodeError>(t),
{
    broadcast use vstd::utf8::encode_utf8_valid_utf8;
    broadcast use vstd::utf8::encode_utf8_decode_utf8;

    vstd::bytes::lemma_auto_spec_u64_to_from_le_bytes();
    let text = encode_utf8(t.coin_type);
    let n = text.len();
    let pre = spec_varint_encode(n);
    let b = spec_encode(t);
    assert(b.len() == 56 + pre.len() + n);
    assert(b.subrange(0, 32) =~= t.receiver);
    assert(b.subrange(32, 40) =~= spec_u64_to_le_bytes(t.spin_id));
    assert(b.subrange(40, 48) =~= spec_u64_to_le_bytes(t.price));
    assert(b.subrange(48, 56) =~= spec_u64_to_le_bytes(t.amount));
    assert(b.subrange(56, 56 + pre.len() as int) =~= pre);
    assert(n < pow(128, 5)) by {
        reveal_with_fuel(vstd::arithmetic::power::pow, 6);
    }
    lemma_varint_roundtrip(b, 56, 0, n);
    let end = 56 + pre.len() as int;
    assert(b.subrange(end, end + n as int) =~= text);
    assert(spec_decode(b) == Ok::<TicketView, DecodeError>(t));
}

} // verus!

