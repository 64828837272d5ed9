//! The protocol-buffer wire format of the messages exchanged between peers, and the
//! calls into `prost` that write and read its pieces.
use vstd::prelude::*;
use vstd::utf8::{decode_utf8, encode_utf8, valid_utf8};

verus! {

/// `prost::DecodeError`, the error `prost` reports for malformed input.
#[verifier::external_type_specification]
#[verifier::external_body]
pub struct ExDecodeError(prost::DecodeError);

/// The largest field number.
pub const MAX_TAG: u32 = 536870911;

/// The wire type of length-delimited fields (strings, bytes, messages).
pub const LENGTH_DELIMITED: u8 = 2;

/// The LEB128 encoding of `v`: seven bits per byte, least significant group first,
/// with the high bit set on every byte but the last.
pub open spec fn varint_bytes(v: nat) -> Seq<u8>
    decreases v,
{
    if v < 128 {
        seq![v as u8]
    } else {
        seq![(v % 128 + 128) as u8] + varint_bytes(v / 128)
    }
}

/// Reading a LEB128 integer from the front of `bytes` with at most `budget` bytes:
/// the value and the number of bytes read. The last allowed byte may only hold 0 or 1,
/// so that a ten-byte integer fits in 64 bits.
pub open spec fn varint_value(bytes: Seq<u8>, budget: nat) -> Option<(int, nat)>
    decreases budget,
{
    if budget == 0 || bytes.len() == 0 {
        None
    } else if bytes[0] < 128 {
        if budget == 1 && bytes[0] >= 2 {
            None
        } else {
            Some((bytes[0] as int, 1nat))
        }
    } else {
        match varint_value(bytes.drop_first(), (budget - 1) as nat) {
            Some((v, n)) => Some((bytes[0] - 128 + 128 * v, n + 1)),
            None => None,
        }
    }
}

/// Reading a protobuf varint from the front of `bytes`: the value and the number of
/// bytes read.
pub open spec fn decode_varint(bytes: Seq<u8>) -> Option<(int, nat)> {
    varint_value(bytes, 10)
}

/// Reading a field key from the front of `bytes`: the field number, the wire type and
/// the number of bytes read. The key is a varint that fits in 32 bits, whose low three
/// bits hold a wire type from 0 to 5 and whose other bits hold a field number of at least 1.
pub open spec fn decode_key(bytes: Seq<u8>) -> Option<(u32, u8, nat)> {
    match decode_varint(bytes) {
        None => None,
        Some((key, n)) => if key > u32::MAX || key % 8 > 5 || key / 8 < 1 {
            None
        } else {
            Some(((key / 8) as u32, (key % 8) as u8, n))
        },
    }
}

/// The encoding of a string field: its key, the length of its UTF-8 bytes, and the bytes.
pub open spec fn string_field_bytes(tag: nat, s: Seq<char>) -> Seq<u8> {
    varint_bytes(tag * 8 + 2) + varint_bytes(encode_utf8(s).len()) + encode_utf8(s)
}

/// The encoding of a repeated string field: one string field per element, in order.
pub open spec fn repeated_string_field_bytes(tag: nat, values: Seq<Seq<char>>) -> Seq<u8>
    decreases values.len(),
{
    if values.len() == 0 {
        Seq::empty()
    } else {
        string_field_bytes(tag, values[0]) + repeated_string_field_bytes(tag, values.drop_first())
    }
}

/// Reading the value of a string field, once its key has been read, from the front of
/// `bytes`: the string and the number of bytes read. The wire type must be
/// length-delimited, and the length must be followed by that many bytes of valid UTF-8.
pub open spec fn string_field_value(wire: u8, bytes: Seq<u8>) -> Option<(Seq<char>, nat)> {
    if wire != LENGTH_DELIMITED {
        None
    } else {
        match decode_varint(bytes) {
            None => None,
            Some((len, n)) => if len > bytes.len() - n {
                None
            } else {
                let payload = bytes.subrange(n as int, n + len);
                if valid_utf8(payload) {
                    Some((decode_utf8(payload), (n + len) as nat))
                } else {
                    None
                }
            },
        }
    }
}

/// The number of bytes that `prost::encoding::skip_field` passes over when it skips a
/// group (wire type 3) with the given field number at the front of `bytes`, or `None`
/// when it reports an error.
pub uninterp spec fn skipped_group_len(tag: u32, bytes: Seq<u8>) -> Option<nat>;

/// The number of bytes that skipping the value of a field with the given wire type and
/// number at the front of `bytes` passes over, or `None` when that is an error: a varint
/// is read, 8 and 4 bytes are passed over for the 64-bit and 32-bit wire types, a
/// length-delimited value is passed over with its length, and an end of group where no
/// group started is an error. `wire` is the number of one of the six wire types.
pub open spec fn skipped_field_len(wire: u8, tag: u32, bytes: Seq<u8>) -> Option<nat> {
    if wire == 0 {
        match decode_varint(bytes) {
            Some((_, n)) => Some(n),
            None => None,
        }
    } else if wire == 1 {
        if bytes.len() >= 8 {
            Some(8nat)
        } else {
            None
        }
    } else if wire == LENGTH_DELIMITED {
        match decode_varint(bytes) {
            Some((len, n)) => if len <= bytes.len() - n {
                Some((n + len) as nat)
            } else {
                None
            },
            None => None,
        }
    } else if wire == 3 {
        skipped_group_len(tag, bytes)
    } else if wire == 5 {
        if bytes.len() >= 4 {
            Some(4nat)
        } else {
            None
        }
    } else {
        None
    }
}

/// `prost::encoding::string::encode`: appends the string field `tag` holding `value`.
#[verifier::external_body]
pub(crate) fn encode_string_field(tag: u32, value: &String, buf: &mut Vec<u8>)
    requires
        1 <= tag <= MAX_TAG,
    ensures
        final(buf)@ == old(buf)@ + string_field_bytes(tag as nat, value@),
{
    prost::encoding::string::encode(tag, value, buf)
}

/// `prost::encoding::string::encode_repeated`: appends one string field `tag` per element
/// of `values`, in order.
#[verifier::external_body]
pub(crate) fn encode_repeated_string_field(tag: u32, values: &Vec<String>, buf: &mut Vec<u8>)
    requires
        1 <= tag <= MAX_TAG,
    ensures
        final(buf)@ == old(buf)@ + repeated_string_field_bytes(
            tag as nat,
            values@.map_values(|s: String| s@),
        ),
{
    prost::encoding::string::encode_repeated(tag, values, buf)
}

/// `prost::encoding::string::encoded_len`: the number of bytes of the string field.
#[verifier::external_body]
pub(crate) fn string_field_len(tag: u32, value: &String) -> (r: usize)
    requires
        1 <= tag <= MAX_TAG,
        string_field_bytes(tag as nat, value@).len() <= usize::MAX,
    ensures
        r == string_field_bytes(tag as nat, value@).len(),
{
    prost::encoding::string::encoded_len(tag, value)
}

/// `prost::encoding::string::encoded_len_repeated`: the number of bytes of the repeated
/// string field.
#[verifier::external_body]
pub(crate) fn repeated_string_field_len(tag: u32, values: &Vec<String>) -> (r: usize)
    requires
        1 <= tag <= MAX_TAG,
        repeated_string_field_bytes(tag as nat, values@.map_values(|s: String| s@)).len()
            <= usize::MAX,
    ensures
        r == repeated_string_field_bytes(tag as nat, values@.map_values(|s: String| s@)).len(),
{
    prost::encoding::string::encoded_len_repeated(tag, values)
}

/// `prost::encoding::decode_key`: reads a field key from the front of `bytes`, and
/// gives back the field number, the wire type as its number, and what follows the key.
#[verifier::external_body]
pub(crate) fn read_key(bytes: &[u8]) -> (r: (Result<(u32, u8), prost::DecodeError>, &[u8]))
    ensures
        match decode_key(bytes@) {
            Some((tag, wire, n)) => r.0 matches Ok((t, w)) && t == tag && w == wire && r.1@
                == bytes@.skip(n as int),
            None => r.0 is Err,
        },
{
    let mut buf = bytes;
    match prost::encoding::decode_key(&mut buf) {
        Ok((tag, wire)) => (Ok((tag, wire as u8)), buf),
        Err(e) => (Err(e), buf),
    }
}

/// `prost::encoding::string::merge`: reads the value of a string field into `value`
/// and gives back what follows it. On an error `value` is left empty.
#[verifier::external_body]
pub(crate) fn read_string_field<'a>(wire: u8, value: &mut String, bytes: &'a [u8]) -> (r: (
    Result<(), prost::DecodeError>,
    &'a [u8],
))
    requires
        wire <= 5,
    ensures
        match string_field_value(wire, bytes@) {
            Some((s, n)) => r.0 is Ok && final(value)@ == s && r.1@ == bytes@.skip(n as int),
            None => r.0 is Err && final(value)@ == Seq::<char>::empty(),
        },
{
    let mut buf = bytes;
    let wire_type = prost::encoding::WireType::try_from(u64::from(wire)).unwrap();
    let ctx = prost::encoding::DecodeContext::default();
    (prost::encoding::string::merge(wire_type, value, &mut buf, ctx), buf)
}

/// `prost::encoding::string::merge_repeated`: reads the value of a string field and
/// appends it to `values`, and gives back what follows it. On an error `values` is
/// left as it was.
#[verifier::external_body]
pub(crate) fn read_repeated_string_field<'a>(
    wire: u8,
    values: &mut Vec<String>,
    bytes: &'a [u8],
) -> (r: (Result<(), prost::DecodeError>, &'a [u8]))
    requires
        wire <= 5,
    ensures
        match string_field_value(wire, bytes@) {
            Some((s, n)) => r.0 is Ok && final(values)@.map_values(|v: String| v@) == old(
                values,
            )@.map_values(|v: String| v@).push(s) && r.1@ == bytes@.skip(n as int),
            None => r.0 is Err && final(values)@ == old(values)@,
        },
{
    let mut buf = bytes;
    let wire_type = prost::encoding::WireType::try_from(u64::from(wire)).unwrap();
    let ctx = prost::encoding::DecodeContext::default();
    (prost::encoding::string::merge_repeated(wire_type, values, &mut buf, ctx), buf)
}

/// `prost::encoding::skip_field`: passes over the value of a field that the message does
/// not know, and gives back what follows it. What it passes over is stated for every wire
/// type; for a group, which it scans field by field, the length is only named.
#[verifier::external_body]
pub(crate) fn skip_field<'a>(wire: u8, tag: u32, bytes: &'a [u8]) -> (r: (
    Result<(), prost::DecodeError>,
    &'a [u8],
))
    requires
        wire <= 5,
    ensures
        wire != 3 ==> match skipped_field_len(wire, tag, bytes@) {
            Some(n) => r.0 is Ok && n <= bytes@.len() && r.1@ == bytes@.skip(n as int),
            None => r.0 is Err,
        },
        wire == 3 ==> match skipped_group_len(tag, bytes@) {
            Some(n) => r.0 is Ok && n <= bytes@.len() && r.1@ == bytes@.skip(n as int),
            None => r.0 is Err,
        },
{
    let mut buf = bytes;
    let wire_type = prost::encoding::WireType::try_from(u64::from(wire)).unwrap();
    let ctx = prost::encoding::DecodeContext::default();
    (prost::encoding::skip_field(wire_type, tag, &mut buf, ctx), buf)
}

} // verus!

verus! {

/// The first value that a varint read with the given budget of bytes cannot hold.
pub open spec fn varint_bound(budget: nat) -> int
    decreases budget,
{
    if budget <= 1 {
        2
    } else {
        128 * varint_bound((budget - 1) as nat)
    }
}

pub proof fn lemma_varint_value_len(bytes: Seq<u8>, budget: nat)
    ensures
        varint_value(bytes, budget) matches Some((v, n)) ==> 1 <= n <= bytes.len() && 0 <= v,
    decreases budget,
{
    if budget > 0 && bytes.len() > 0 && bytes[0] >= 128 {
        lemma_varint_value_len(bytes.drop_first(), (budget - 1) as nat);
    }
}

pub proof fn lemma_varint_roundtrip_budget(v: nat, budget: nat, rest: Seq<u8>)
    requires
        budget >= 1,
        v < varint_bound(budget),
    ensures
        varint_value(varint_bytes(v) + rest, budget) == Some((v as int, varint_bytes(v).len())),
    decreases v,
{
    let bytes = varint_bytes(v) + rest;
    if v < 128 {
        assert(bytes[0] == v as u8);
    } else {
        assert(budget >= 2);
        let hi = v / 128;
        assert(hi < varint_bound((budget - 1) as nat));
        lemma_varint_roundtrip_budget(hi, (budget - 1) as nat, rest);
        assert(bytes[0] == (v % 128 + 128) as u8);
        assert(bytes.drop_first() =~= varint_bytes(hi) + rest);
    }
}

/// Reading back the varint encoding of a 64-bit value gives the value and the length of
/// its encoding, whatever follows it.
pub proof fn lemma_varint_roundtrip(v: nat, rest: Seq<u8>)
    requires
        v <= u64::MAX,
    ensures
        decode_varint(varint_bytes(v) + rest) == Some((v as int, varint_bytes(v).len())),
{
    reveal_with_fuel(varint_bound, 11);
    assert(varint_bound(10) == 0x1_0000_0000_0000_0000);
    lemma_varint_roundtrip_budget(v, 10, rest);
}

/// Reading back an encoded string field gives its field number, the length-delimited
/// wire type and the string, whatever follows it.
pub proof fn lemma_string_field_roundtrip(tag: nat, s: Seq<char>, rest: Seq<u8>)
    requires
        1 <= tag <= MAX_TAG,
        encode_utf8(s).len() <= u64::MAX,
    ensures
        ({
            let bytes = string_field_bytes(tag, s) + rest;
            let key_len = varint_bytes(tag * 8 + 2).len();
            &&& decode_key(bytes) == Some((tag as u32, LENGTH_DELIMITED, key_len))
            &&& string_field_value(LENGTH_DELIMITED, bytes.skip(key_len as int)) == Some(
                (s, (string_field_bytes(tag, s).len() - key_len) as nat),
            )
        }),
{
    let key = varint_bytes(tag * 8 + 2);
    let len = varint_bytes(encode_utf8(s).len());
    let payload = encode_utf8(s);
    let bytes = string_field_bytes(tag, s) + rest;
    assert(bytes =~= key + (len + payload + rest));
    lemma_varint_roundtrip(tag * 8 + 2, len + payload + rest);
    assert((tag * 8 + 2) % 8 == 2);
    assert((tag * 8 + 2) / 8 == tag);
    let after_key = bytes.skip(key.len() as int);
    assert(after_key =~= len + (payload + rest));
    lemma_varint_roundtrip(encode_utf8(s).len(), payload + rest);
    let body = after_key.skip(len.len() as int);
    assert(after_key.subrange(len.len() as int, (len.len() + payload.len()) as int) =~= payload);
    vstd::utf8::encode_utf8_valid_utf8(s);
    vstd::utf8::encode_utf8_decode_utf8(s);
}

} // verus!

verus! {

pub proof fn lemma_decode_key_len(bytes: Seq<u8>)
    ensures
        decode_key(bytes) matches Some((tag, wire, n)) ==> 1 <= n <= bytes.len() && wire <= 5
            && tag >= 1,
{
    lemma_varint_value_len(bytes, 10);
}

pub proof fn lemma_string_field_value_len(wire: u8, bytes: Seq<u8>)
    ensures
        string_field_value(wire, bytes) matches Some((s, n)) ==> 1 <= n <= bytes.len(),
{
    lemma_varint_value_len(bytes, 10);
}

} // verus!
