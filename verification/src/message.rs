//! Logged messages, and the fields that the analyzers read from them.
//!
//! The ULog parser hands out a [`DataMessage`]: a collection of named and typed
//! fields over the raw bytes of one sample. What this module knows of such a
//! message are four things: its topic, its fields with their offsets, the offset
//! of its timestamp, and its bytes.
use crate::float32::Float32;
use px4_ulog::stream_parser::model::{DataMessage, FlattenedFieldType};
use px4_ulog::stream_parser::LittleEndianParser;
use vstd::prelude::*;

verus! {

/// The message type of the ULog parser. Its contents are read through the
/// functions of this module.
#[verifier::external_type_specification]
#[verifier::external_body]
pub struct ExDataMessage<'a>(DataMessage<'a>);

/// The field types that the analyzers read.
#[derive(Clone, Copy, Debug, PartialEq, Eq, Structural)]
pub enum FieldKind {
    /// An unsigned byte.
    UInt8,
    /// A single precision number.
    Float,
}

/// The name of the message's topic.
pub uninterp spec fn topic_of(data: DataMessage<'_>) -> Seq<char>;

/// The fields of the message: the offset of each, by its name and type.
pub uninterp spec fn fields_of(data: DataMessage<'_>) -> Map<(Seq<char>, FieldKind), u16>;

/// The offset of the timestamp, where the message has one.
pub uninterp spec fn timestamp_offset_of(data: DataMessage<'_>) -> Option<u16>;

/// The bytes of the message.
pub uninterp spec fn payload_of(data: DataMessage<'_>) -> Seq<u8>;

/// `FlattenedFormat::message_name` of the message's format: the topic.
#[verifier::external_body]
pub(crate) fn topic<'a>(data: &'a DataMessage<'_>) -> (r: &'a str)
    ensures
        r@ == topic_of(*data),
{
    data.flattened_format.message_name()
}

/// `FlattenedFormat::get_field_offset`: looks a field up by its name, and
/// returns its offset when the field has the type asked for. A missing field
/// and a field of another type both give `None`.
#[verifier::external_body]
pub(crate) fn field_offset(data: &DataMessage<'_>, name: &str, kind: FieldKind) -> (r: Option<u16>)
    ensures
        match r {
            Some(o) => fields_of(*data).contains_pair((name@, kind), o),
            None => !fields_of(*data).contains_key((name@, kind)),
        },
{
    let field_type = match kind {
        FieldKind::UInt8 => FlattenedFieldType::UInt8,
        FieldKind::Float => FlattenedFieldType::Float,
    };
    data.flattened_format.get_field_offset(name, field_type).ok()
}

/// The offset of the format's timestamp field.
#[verifier::external_body]
pub(crate) fn timestamp_offset(data: &DataMessage<'_>) -> (r: Option<u16>)
    ensures
        r == timestamp_offset_of(*data),
{
    data.flattened_format.timestamp_field.as_ref().map(|field| field.offset)
}

/// The message's bytes.
#[verifier::external_body]
pub(crate) fn payload<'a>(data: &'a DataMessage<'_>) -> (r: &'a [u8])
    ensures
        r@ == payload_of(*data),
{
    data.data
}

/// `TimestampField::parse_timestamp` on the message's bytes: the eight bytes at
/// the timestamp's offset, low byte first. A message without a timestamp gives
/// `None`. The parser panics where the bytes end before the timestamp does.
#[verifier::external_body]
pub(crate) fn parse_timestamp(data: &DataMessage<'_>) -> (r: Option<u64>)
    requires
        timestamp_readable(*data),
    ensures
        match timestamp_offset_of(*data) {
            Some(o) => r == Some(little_endian(payload_of(*data), o as int, 8) as u64),
            None => r is None,
        },
{
    data.flattened_format.timestamp_field.as_ref().map(|field| field.parse_timestamp(data.data))
}

/// `LittleEndianParser::parse` for a byte: the first byte. It panics on an
/// empty slice.
#[verifier::external_body]
pub(crate) fn parse_byte(bytes: &[u8]) -> (r: u8)
    requires
        bytes@.len() >= 1,
    ensures
        r == bytes@[0],
{
    u8::parse(bytes)
}

/// `LittleEndianParser::parse` for a 32-bit word: the first four bytes, low byte
/// first. It panics on a shorter slice.
#[verifier::external_body]
pub(crate) fn parse_word(bytes: &[u8]) -> (r: u32)
    requires
        bytes@.len() >= 4,
    ensures
        r == little_endian(bytes@, 0, 4),
{
    u32::parse(bytes)
}

/// The number that `n` bytes from position `o` on make, low byte first.
pub open spec fn little_endian(bytes: Seq<u8>, o: int, n: nat) -> nat
    decreases n,
{
    if n == 0 {
        0
    } else {
        bytes[o] as nat + 256 * little_endian(bytes, o + 1, (n - 1) as nat)
    }
}

/// The offset of the field with the given name, where the message has one of
/// that name and its type is the given one.
pub open spec fn field_offset_of(
    data: DataMessage<'_>,
    name: Seq<char>,
    kind: FieldKind,
) -> Option<u16> {
    if fields_of(data).contains_key((name, kind)) {
        Some(fields_of(data)[(name, kind)])
    } else {
        None
    }
}

/// A field of `width` bytes at an offset lies within the message, or the
/// message has no such field.
pub open spec fn in_payload(offset: Option<u16>, width: nat, data: DataMessage<'_>) -> bool {
    offset matches Some(o) ==> o + width <= payload_of(data).len()
}

/// The byte field of that name can be read.
pub open spec fn byte_readable(data: DataMessage<'_>, name: Seq<char>) -> bool {
    in_payload(field_offset_of(data, name, FieldKind::UInt8), 1, data)
}

/// The single precision field of that name can be read.
pub open spec fn float_readable(data: DataMessage<'_>, name: Seq<char>) -> bool {
    in_payload(field_offset_of(data, name, FieldKind::Float), 4, data)
}

/// The timestamp can be read.
pub open spec fn timestamp_readable(data: DataMessage<'_>) -> bool {
    in_payload(timestamp_offset_of(data), 8, data)
}

/// The value of the byte field of that name.
pub open spec fn byte_field(data: DataMessage<'_>, name: Seq<char>) -> Option<u8> {
    match field_offset_of(data, name, FieldKind::UInt8) {
        Some(o) => Some(payload_of(data)[o as int]),
        None => None,
    }
}

/// The value of the single precision field of that name.
pub open spec fn float_field(data: DataMessage<'_>, name: Seq<char>) -> Option<Float32> {
    match field_offset_of(data, name, FieldKind::Float) {
        Some(o) => Some(
            Float32 { bits: little_endian(payload_of(data), o as int, 4) as u32 },
        ),
        None => None,
    }
}

/// The value of the first of two single precision fields that the message has.
pub open spec fn float_field_or(data: DataMessage<'_>, name: Seq<char>, other: Seq<char>) -> Option<
    Float32,
> {
    match float_field(data, name) {
        Some(x) => Some(x),
        None => float_field(data, other),
    }
}

/// The first of two single precision fields that the message has can be read.
pub open spec fn float_or_readable(
    data: DataMessage<'_>,
    name: Seq<char>,
    other: Seq<char>,
) -> bool {
    &&& float_readable(data, name)
    &&& float_field(data, name) is None ==> float_readable(data, other)
}

/// The message's timestamp in microseconds, 0 where it has none.
pub open spec fn timestamp_us(data: DataMessage<'_>) -> u64 {
    match timestamp_offset_of(data) {
        Some(o) => little_endian(payload_of(data), o as int, 8) as u64,
        None => 0,
    }
}

/// Whether two texts are the same.
pub fn same_text(a: &str, b: &str) -> (r: bool)
    ensures
        r == (a@ == b@),
{
    a.to_owned() == b.to_owned()
}

/// Computes [`in_payload`].
fn fits(offset: Option<u16>, width: usize, data: &DataMessage<'_>) -> (r: bool)
    requires
        width <= 8,
    ensures
        r == in_payload(offset, width as nat, *data),
{
    match offset {
        Some(o) => {
            let n: usize = payload(data).len();
            n >= width && o as usize <= n - width
        },
        None => true,
    }
}

/// Whether the byte field of that name can be read.
pub fn is_byte_readable(data: &DataMessage<'_>, name: &str) -> (r: bool)
    ensures
        r == byte_readable(*data, name@),
{
    fits(field_offset(data, name, FieldKind::UInt8), 1, data)
}

/// Whether the single precision field of that name can be read.
pub fn is_float_readable(data: &DataMessage<'_>, name: &str) -> (r: bool)
    ensures
        r == float_readable(*data, name@),
{
    fits(field_offset(data, name, FieldKind::Float), 4, data)
}

/// Whether the timestamp can be read.
pub fn is_timestamp_readable(data: &DataMessage<'_>) -> (r: bool)
    ensures
        r == timestamp_readable(*data),
{
    fits(timestamp_offset(data), 8, data)
}

/// Reads the byte field of that name.
pub fn read_byte(data: &DataMessage<'_>, name: &str) -> (r: Option<u8>)
    requires
        byte_readable(*data, name@),
    ensures
        r == byte_field(*data, name@),
{
    match field_offset(data, name, FieldKind::UInt8) {
        Some(o) => {
            let bytes: &[u8] = payload(data);
            let tail: &[u8] = vstd::slice::slice_subrange(bytes, o as usize, bytes.len());
            Some(parse_byte(tail))
        },
        None => None,
    }
}

/// Reads the single precision field of that name.
pub fn read_float(data: &DataMessage<'_>, name: &str) -> (r: Option<Float32>)
    requires
        float_readable(*data, name@),
    ensures
        r == float_field(*data, name@),
{
    match field_offset(data, name, FieldKind::Float) {
        Some(o) => {
            let bytes: &[u8] = payload(data);
            let tail: &[u8] = vstd::slice::slice_subrange(bytes, o as usize, bytes.len());
            proof {
                lemma_little_endian_tail(bytes@, o as int, 0, 4);
            }
            Some(Float32::from_bits(parse_word(tail)))
        },
        None => None,
    }
}

/// Whether the first of two single precision fields that the message has can be
/// read.
pub fn is_float_or_readable(data: &DataMessage<'_>, name: &str, other: &str) -> (r: bool)
    ensures
        r == float_or_readable(*data, name@, other@),
{
    if field_offset(data, name, FieldKind::Float).is_some() {
        is_float_readable(data, name)
    } else {
        is_float_readable(data, other)
    }
}

/// Reads the first of two single precision fields that the message has.
pub fn read_float_or(data: &DataMessage<'_>, name: &str, other: &str) -> (r: Option<Float32>)
    requires
        float_or_readable(*data, name@, other@),
    ensures
        r == float_field_or(*data, name@, other@),
{
    match read_float(data, name) {
        Some(x) => Some(x),
        None => read_float(data, other),
    }
}

/// Reads the timestamp, 0 where the message has none.
pub fn read_timestamp(data: &DataMessage<'_>) -> (r: u64)
    requires
        timestamp_readable(*data),
    ensures
        r == timestamp_us(*data),
{
    parse_timestamp(data).unwrap_or(0)
}

/// Reading from a later start is reading further on.
proof fn lemma_little_endian_tail(bytes: Seq<u8>, start: int, o: int, n: nat)
    requires
        0 <= start <= bytes.len(),
        0 <= o,
        start + o + n <= bytes.len(),
    ensures
        little_endian(bytes.subrange(start, bytes.len() as int), o, n) == little_endian(
            bytes,
            start + o,
            n,
        ),
    decreases n,
{
    if n > 0 {
        lemma_little_endian_tail(bytes, start, o + 1, (n - 1) as nat);
    }
}

/// A byte field that the message has is the byte at its offset; a field that
/// the message does not have, or has with another type, is nothing.
pub proof fn law_byte_field_is_the_byte(data: DataMessage<'_>, name: Seq<char>, o: u16)
    ensures
        fields_of(data).contains_pair((name, FieldKind::UInt8), o) ==> byte_field(data, name)
            == Some(payload_of(data)[o as int]),
        !fields_of(data).contains_key((name, FieldKind::UInt8)) ==> byte_field(data, name) is None,
{
}

/// A single precision field that the message has is made of the four bytes at
/// its offset, low byte first; a field that the message does not have, or has
/// with another type, is nothing.
pub proof fn law_float_field_is_its_bytes(data: DataMessage<'_>, name: Seq<char>, o: u16)
    ensures
        fields_of(data).contains_pair((name, FieldKind::Float), o) ==> {
            let bytes = payload_of(data);
            &&& float_field(data, name) matches Some(x)
            &&& x.bits == bytes[o as int] + 0x100 * bytes[o + 1] + 0x1_0000 * bytes[o + 2]
                + 0x100_0000 * bytes[o + 3]
        },
        !fields_of(data).contains_key((name, FieldKind::Float)) ==> float_field(data, name) is None,
{
    reveal_with_fuel(little_endian, 5);
}

/// The timestamp is made of the eight bytes at its offset, low byte first, and
/// is 0 where the message has none.
pub proof fn law_timestamp_is_its_bytes(data: DataMessage<'_>)
    ensures
        match timestamp_offset_of(data) {
            Some(o) => {
                let bytes = payload_of(data);
                timestamp_us(data) == bytes[o as int] + 0x100 * bytes[o + 1] + 0x1_0000 * bytes[o
                    + 2] + 0x100_0000 * bytes[o + 3] + 0x1_0000_0000 * bytes[o + 4]
                    + 0x100_0000_0000 * bytes[o + 5] + 0x1_0000_0000_0000 * bytes[o + 6]
                    + 0x100_0000_0000_0000 * bytes[o + 7]
            },
            None => timestamp_us(data) == 0,
        },
{
    reveal_with_fuel(little_endian, 9);
}

/// A field can be read exactly if the message does not have it or all of it lies
/// within the message's bytes.
pub proof fn law_readable_is_within_the_bytes(data: DataMessage<'_>, name: Seq<char>)
    ensures
        byte_readable(data, name) <==> (fields_of(data).contains_key((name, FieldKind::UInt8))
            ==> fields_of(data)[(name, FieldKind::UInt8)] < payload_of(data).len()),
        float_readable(data, name) <==> (fields_of(data).contains_key((name, FieldKind::Float))
            ==> fields_of(data)[(name, FieldKind::Float)] + 4 <= payload_of(data).len()),
        timestamp_readable(data) <==> (timestamp_offset_of(data) matches Some(o) ==> o + 8
            <= payload_of(data).len()),
{
}

/// Every field of the message lies within its bytes.
pub open spec fn whole(data: DataMessage<'_>) -> bool {
    &&& forall|name: Seq<char>, o: u16| #[trigger]
        fields_of(data).contains_pair((name, FieldKind::UInt8), o) ==> o < payload_of(data).len()
    &&& forall|name: Seq<char>, o: u16| #[trigger]
        fields_of(data).contains_pair((name, FieldKind::Float), o) ==> o + 4 <= payload_of(
            data,
        ).len()
    &&& timestamp_offset_of(data) matches Some(o) ==> o + 8 <= payload_of(data).len()
}

/// Everything can be read of a message that is whole.
pub proof fn law_whole_message_is_readable(data: DataMessage<'_>, name: Seq<char>)
    requires
        whole(data),
    ensures
        byte_readable(data, name),
        float_readable(data, name),
        timestamp_readable(data),
{
    let fields = fields_of(data);
    if fields.contains_key((name, FieldKind::UInt8)) {
        assert(fields.contains_pair(
            (name, FieldKind::UInt8),
            fields[(name, FieldKind::UInt8)],
        ));
    }
    if fields.contains_key((name, FieldKind::Float)) {
        assert(fields.contains_pair(
            (name, FieldKind::Float),
            fields[(name, FieldKind::Float)],
        ));
    }
}

} // verus!
