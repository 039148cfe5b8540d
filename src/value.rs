//! The generic value tree that decoding produces, and the engine that merges
//! wire data into it.
use std::collections::BTreeMap;

use protobuf::UnknownFields;
use vstd::prelude::*;

use crate::descriptor::{Descriptors, FieldDescriptor, FieldType, MessageDescriptor};
use crate::error::{Error, StreamError};
use crate::wire::{delimited_at, fixed_at, le32, le64, lemma_varint_bounds, tag_at, utf8_decode, varint, zigzag32, zigzag64, Reader, WireType};

verus! {

broadcast use vstd::laws_cmp::group_laws_cmp, vstd::std_specs::btree::group_btree_axioms;

/// Any protobuf value.
///
/// Floating point values are held as their IEEE 754 bit patterns.
#[derive(Debug)]
pub enum Value {
    /// A boolean value.
    Bool(bool),
    /// A 32-bit signed integer.
    I32(i32),
    /// A 64-bit signed integer.
    I64(i64),
    /// A 32-bit unsigned integer.
    U32(u32),
    /// A 64-bit unsigned integer.
    U64(u64),
    /// The bits of a 32-bit floating point value.
    F32(u32),
    /// The bits of a 64-bit floating point value.
    F64(u64),
    /// A byte vector.
    Bytes(Vec<u8>),
    /// A string.
    String(String),
    /// An enum value.
    Enum(i32),
    /// A message.
    Message(Message),
}

/// A message value.
#[derive(Debug)]
pub struct Message {
    /// Known fields on the message.
    pub fields: BTreeMap<i32, Field>,
    /// Unknown fields on the message.
    pub unknown: UnknownFields,
}

/// A message field value.
#[derive(Debug)]
pub enum Field {
    /// A field with a single value.
    Singular(Option<Value>),
    /// A field with several (repeated) values.
    Repeated(Vec<Value>),
}

/// What a value other than a message holds, as plain mathematical values.
pub ghost enum Scalar {
    Bool(bool),
    I32(i32),
    I64(i64),
    U32(u32),
    U64(u64),
    F32(u32),
    F64(u64),
    Bytes(Seq<u8>),
    Text(Seq<char>),
    Enum(i32),
}

impl Value {
    /// What the value holds; none for a message.
    pub open spec fn scalar(&self) -> Option<Scalar> {
        match self {
            Value::Bool(b) => Some(Scalar::Bool(*b)),
            Value::I32(x) => Some(Scalar::I32(*x)),
            Value::I64(x) => Some(Scalar::I64(*x)),
            Value::U32(x) => Some(Scalar::U32(*x)),
            Value::U64(x) => Some(Scalar::U64(*x)),
            Value::F32(x) => Some(Scalar::F32(*x)),
            Value::F64(x) => Some(Scalar::F64(*x)),
            Value::Bytes(b) => Some(Scalar::Bytes(b@)),
            Value::String(s) => Some(Scalar::Text(s@)),
            Value::Enum(x) => Some(Scalar::Enum(*x)),
            Value::Message(_) => None,
        }
    }

    /// A copy of a value that is not a message.
    pub fn copy_scalar(&self) -> (r: Value)
        requires
            !(self is Message),
        ensures
            r.scalar() == self.scalar(),
            !(r is Message),
    {
        match self {
            Value::Bool(b) => Value::Bool(*b),
            Value::I32(x) => Value::I32(*x),
            Value::I64(x) => Value::I64(*x),
            Value::U32(x) => Value::U32(*x),
            Value::U64(x) => Value::U64(*x),
            Value::F32(x) => Value::F32(*x),
            Value::F64(x) => Value::F64(*x),
            Value::Bytes(b) => {
                let mut c: Vec<u8> = Vec::with_capacity(b.len());
                let mut i: usize = 0;
                while i < b.len()
                    invariant
                        i <= b@.len(),
                        c@ == b@.subrange(0, i as int),
                    decreases b@.len() - i,
                {
                    c.push(b[i]);
                    i = i + 1;
                    assert(c@ =~= b@.subrange(0, i as int));
                }
                assert(c@ =~= b@);
                Value::Bytes(c)
            },
            Value::String(s) => Value::String(s.clone()),
            Value::Enum(x) => Value::Enum(*x),
            Value::Message(_) => {
                proof {
                    assert(false);
                }
                Value::Bool(false)
            },
        }
    }
}

/// What the unknown fields hold: for each field number, its varints, its
/// fixed 32-bit values, its fixed 64-bit values and its length-delimited
/// payloads, each in the order they came.
pub uninterp spec fn unknown_contents(u: UnknownFields) -> Map<u32, (Seq<u64>, Seq<u32>, Seq<u64>, Seq<Seq<u8>>)>;

/// Unknown-field contents with nothing stored.
pub open spec fn no_unknowns() -> Map<u32, (Seq<u64>, Seq<u32>, Seq<u64>, Seq<Seq<u8>>)> {
    Map::empty()
}

/// The entry for field number `n`: empty where nothing is stored for it.
pub open spec fn unknown_entry(
    m: Map<u32, (Seq<u64>, Seq<u32>, Seq<u64>, Seq<Seq<u8>>)>,
    n: u32,
) -> (Seq<u64>, Seq<u32>, Seq<u64>, Seq<Seq<u8>>) {
    if m.contains_key(n) {
        m[n]
    } else {
        (Seq::empty(), Seq::empty(), Seq::empty(), Seq::empty())
    }
}

#[verifier::external_type_specification]
#[verifier::external_body]
pub struct ExUnknownFields(UnknownFields);

/// Relies on `UnknownFields::new`: a fresh set holds nothing.
pub assume_specification[ UnknownFields::new ]() -> (r: UnknownFields)
    ensures
        unknown_contents(r) == no_unknowns(),
;

/// Relies on `UnknownFields::add_varint`: appends to the varints of `number`.
pub assume_specification[ UnknownFields::add_varint ](
    u: &mut UnknownFields,
    number: u32,
    x: u64,
)
    ensures
        unknown_contents(*final(u)) == ({
            let e = unknown_entry(unknown_contents(*old(u)), number);
            unknown_contents(*old(u)).insert(number, (e.0.push(x), e.1, e.2, e.3))
        }),
;

/// Relies on `UnknownFields::add_fixed32`: appends to the fixed 32-bit values of `number`.
pub assume_specification[ UnknownFields::add_fixed32 ](
    u: &mut UnknownFields,
    number: u32,
    fixed32: u32,
)
    ensures
        unknown_contents(*final(u)) == ({
            let e = unknown_entry(unknown_contents(*old(u)), number);
            unknown_contents(*old(u)).insert(number, (e.0, e.1.push(fixed32), e.2, e.3))
        }),
;

/// Relies on `UnknownFields::add_fixed64`: appends to the fixed 64-bit values of `number`.
pub assume_specification[ UnknownFields::add_fixed64 ](
    u: &mut UnknownFields,
    number: u32,
    fixed64: u64,
)
    ensures
        unknown_contents(*final(u)) == ({
            let e = unknown_entry(unknown_contents(*old(u)), number);
            unknown_contents(*old(u)).insert(number, (e.0, e.1, e.2.push(fixed64), e.3))
        }),
;

/// Relies on `UnknownFields::add_length_delimited`: appends to the payloads of `number`.
pub assume_specification[ UnknownFields::add_length_delimited ](
    u: &mut UnknownFields,
    number: u32,
    length_delimited: Vec<u8>,
)
    ensures
        unknown_contents(*final(u)) == ({
            let e = unknown_entry(unknown_contents(*old(u)), number);
            unknown_contents(*old(u)).insert(number, (e.0, e.1, e.2, e.3.push(length_delimited@)))
        }),
;

/// Whether `t` is a scalar type that a packed run may encode.
pub open spec fn is_packable(t: FieldType) -> bool {
    match t {
        FieldType::Bool | FieldType::Int32 | FieldType::Int64 | FieldType::SInt32
        | FieldType::SInt64 | FieldType::UInt32 | FieldType::UInt64 | FieldType::Fixed32
        | FieldType::Fixed64 | FieldType::SFixed32 | FieldType::SFixed64 | FieldType::Float
        | FieldType::Double => true,
        _ => false,
    }
}

/// Whether `t` is a scalar type: packable, or bytes, or string.
pub open spec fn is_scalar(t: FieldType) -> bool {
    is_packable(t) || t is Bytes || t is String
}

/// The wire type that one value of the scalar type `t` is written with.
pub open spec fn natural_wire(t: FieldType) -> WireType {
    match t {
        FieldType::Fixed32 | FieldType::SFixed32 | FieldType::Float => WireType::Fixed32,
        FieldType::Fixed64 | FieldType::SFixed64 | FieldType::Double => WireType::Fixed64,
        FieldType::Bytes | FieldType::String => WireType::LengthDelimited,
        _ => WireType::Varint,
    }
}

/// One value of the scalar type `t` at the front of `s`, with the number of
/// bytes it takes.
pub open spec fn scalar_at(t: FieldType, s: Seq<u8>) -> Result<(Scalar, nat), StreamError> {
    match natural_wire(t) {
        WireType::Varint => match varint(s) {
            Ok((v, n)) => Ok((
                match t {
                    FieldType::Bool => Scalar::Bool(v as u32 != 0),
                    FieldType::Int32 => Scalar::I32(v as u32 as i32),
                    FieldType::Int64 => Scalar::I64(v as i64),
                    FieldType::SInt32 => Scalar::I32(zigzag32(v as u32)),
                    FieldType::SInt64 => Scalar::I64(zigzag64(v)),
                    FieldType::UInt32 => Scalar::U32(v as u32),
                    _ => Scalar::U64(v),
                },
                n,
            )),
            Err(e) => Err(e),
        },
        WireType::Fixed32 => match fixed_at(s, 4) {
            Ok(b) => Ok((
                match t {
                    FieldType::Fixed32 => Scalar::U32(le32(b)),
                    FieldType::SFixed32 => Scalar::I32(le32(b) as i32),
                    _ => Scalar::F32(le32(b)),
                },
                4,
            )),
            Err(e) => Err(e),
        },
        WireType::Fixed64 => match fixed_at(s, 8) {
            Ok(b) => Ok((
                match t {
                    FieldType::Fixed64 => Scalar::U64(le64(b)),
                    FieldType::SFixed64 => Scalar::I64(le64(b) as i64),
                    _ => Scalar::F64(le64(b)),
                },
                8,
            )),
            Err(e) => Err(e),
        },
        _ => match delimited_at(s) {
            Ok((b, n)) => if t is Bytes {
                Ok((Scalar::Bytes(b), n))
            } else {
                match utf8_decode(b) {
                    Some(c) => Ok((Scalar::Text(c), n)),
                    None => Err(StreamError::Utf8),
                }
            },
            Err(e) => Err(e),
        },
    }
}

/// The values of a packed run of the scalar type `t` that fills all of `s`.
pub open spec fn packed_run(t: FieldType, s: Seq<u8>) -> Result<Seq<Scalar>, StreamError>
    decreases s.len(),
{
    if s.len() == 0 {
        Ok(Seq::empty())
    } else {
        match scalar_at(t, s) {
            Ok((x, n)) => if n == 0 || n > s.len() {
                Err(StreamError::Truncated)
            } else {
                match packed_run(t, s.subrange(n as int, s.len() as int)) {
                    Ok(xs) => Ok(seq![x] + xs),
                    Err(e) => Err(e),
                }
            },
            Err(e) => Err(e),
        }
    }
}

/// The values that one occurrence of a field of the scalar or enum type `t`,
/// written with wire type `w` at the front of `s`, holds, with the number of
/// bytes it takes.
pub open spec fn occurrence(t: FieldType, w: WireType, s: Seq<u8>) -> Result<(Seq<Scalar>, nat), Error> {
    if t is Enum {
        if w == WireType::Varint {
            match varint(s) {
                Ok((v, n)) => Ok((seq![Scalar::Enum(v as u32 as i32)], n)),
                Err(e) => Err(Error::Stream(e)),
            }
        } else {
            Err(Error::BadWireType { wire_type: w })
        }
    } else if is_packable(t) && w == WireType::LengthDelimited {
        match varint(s) {
            Ok((len, n)) => if len > s.len() - n {
                Err(Error::Stream(StreamError::LimitOverrun))
            } else {
                match packed_run(t, s.subrange(n as int, n + len)) {
                    Ok(xs) => Ok((xs, (n + len) as nat)),
                    Err(e) => Err(Error::Stream(e)),
                }
            },
            Err(e) => Err(Error::Stream(e)),
        }
    } else if w == natural_wire(t) {
        match scalar_at(t, s) {
            Ok((x, n)) => Ok((seq![x], n)),
            Err(e) => Err(Error::Stream(e)),
        }
    } else {
        Err(Error::BadWireType { wire_type: w })
    }
}

/// The number of bytes that a value written with wire type `w` takes at the
/// front of `s`; none where it is malformed or a group.
pub open spec fn value_len(w: WireType, s: Seq<u8>) -> Option<nat> {
    match w {
        WireType::Varint => match varint(s) {
            Ok((_, n)) => Some(n),
            Err(_) => None,
        },
        WireType::Fixed32 => if s.len() >= 4 { Some(4) } else { None },
        WireType::Fixed64 => if s.len() >= 8 { Some(8) } else { None },
        WireType::LengthDelimited => match delimited_at(s) {
            Ok((_, n)) => Some(n),
            Err(_) => None,
        },
        WireType::StartGroup => match group_len(s) {
            Ok(n) => Some(n),
            Err(_) => None,
        },
        _ => None,
    }
}

/// The outcome of skipping one value written with wire type `w` at the
/// front of `v`: the number of bytes it takes, or its error. Only varints,
/// fixed-width values and length-delimited values can be skipped.
pub open spec fn skip_result(w: WireType, v: Seq<u8>) -> Result<nat, Error> {
    match w {
        WireType::Varint => match varint(v) {
            Ok((_, n)) => Ok(n),
            Err(e) => Err(Error::Stream(e)),
        },
        WireType::Fixed32 => match fixed_at(v, 4) {
            Ok(_) => Ok(4),
            Err(e) => Err(Error::Stream(e)),
        },
        WireType::Fixed64 => match fixed_at(v, 8) {
            Ok(_) => Ok(8),
            Err(e) => Err(Error::Stream(e)),
        },
        WireType::LengthDelimited => match delimited_at(v) {
            Ok((_, n)) => Ok(n),
            Err(e) => Err(Error::Stream(e)),
        },
        _ => Err(Error::BadWireType { wire_type: w }),
    }
}

/// The number of bytes that the rest of a group takes at the front of `s`,
/// its end-group tag included: records are skipped up to the first
/// end-group tag.
pub open spec fn group_len(s: Seq<u8>) -> Result<nat, Error>
    decreases s.len(),
{
    match tag_at(s) {
        Err(e) => Err(Error::Stream(e)),
        Ok((_, w, n)) => if n == 0 || n > s.len() {
            Err(Error::Stream(StreamError::Truncated))
        } else if w == WireType::EndGroup {
            Ok(n)
        } else {
            let v = s.subrange(n as int, s.len() as int);
            match skip_result(w, v) {
                Err(e) => Err(e),
                Ok(m) => if m > v.len() {
                    Err(Error::Stream(StreamError::Truncated))
                } else {
                    match group_len(s.subrange((n + m) as int, s.len() as int)) {
                        Ok(k) => Ok(n + m + k),
                        Err(e) => Err(e),
                    }
                },
            }
        },
    }
}

proof fn lemma_scalar_len(t: FieldType, s: Seq<u8>)
    requires
        scalar_at(t, s) is Ok,
    ensures
        1 <= scalar_at(t, s)->Ok_0.1 <= s.len(),
        value_len(natural_wire(t), s) == Some(scalar_at(t, s)->Ok_0.1),
{
    lemma_varint_bounds(s);
}

/// The wire type that one value of the scalar type `t` is written with.
fn natural_wire_type(t: &FieldType) -> (r: WireType)
    ensures
        r == natural_wire(*t),
{
    match t {
        FieldType::Fixed32 | FieldType::SFixed32 | FieldType::Float => WireType::Fixed32,
        FieldType::Fixed64 | FieldType::SFixed64 | FieldType::Double => WireType::Fixed64,
        FieldType::Bytes | FieldType::String => WireType::LengthDelimited,
        _ => WireType::Varint,
    }
}

/// The field numbers of the records that fill all of `s`, in order; none
/// where `s` is not a sequence of whole records.
pub open spec fn record_numbers(s: Seq<u8>) -> Option<Seq<u32>>
    decreases s.len(),
{
    if s.len() == 0 {
        Some(Seq::empty())
    } else {
        match tag_at(s) {
            Ok((f, w, n)) => match value_len(w, s.subrange(n as int, s.len() as int)) {
                Some(m) => if n == 0 || n + m > s.len() {
                    None
                } else {
                    match record_numbers(s.subrange((n + m) as int, s.len() as int)) {
                        Some(r) => Some(seq![f] + r),
                        None => None,
                    }
                },
                None => None,
            },
            Err(_) => None,
        }
    }
}

/// `m` with `x` appended to the varints of field number `n`.
pub open spec fn with_varint(
    m: Map<u32, (Seq<u64>, Seq<u32>, Seq<u64>, Seq<Seq<u8>>)>,
    n: u32,
    x: u64,
) -> Map<u32, (Seq<u64>, Seq<u32>, Seq<u64>, Seq<Seq<u8>>)> {
    let e = unknown_entry(m, n);
    m.insert(n, (e.0.push(x), e.1, e.2, e.3))
}

/// `m` with `x` appended to the fixed 32-bit values of field number `n`.
pub open spec fn with_fixed32(
    m: Map<u32, (Seq<u64>, Seq<u32>, Seq<u64>, Seq<Seq<u8>>)>,
    n: u32,
    x: u32,
) -> Map<u32, (Seq<u64>, Seq<u32>, Seq<u64>, Seq<Seq<u8>>)> {
    let e = unknown_entry(m, n);
    m.insert(n, (e.0, e.1.push(x), e.2, e.3))
}

/// `m` with `x` appended to the fixed 64-bit values of field number `n`.
pub open spec fn with_fixed64(
    m: Map<u32, (Seq<u64>, Seq<u32>, Seq<u64>, Seq<Seq<u8>>)>,
    n: u32,
    x: u64,
) -> Map<u32, (Seq<u64>, Seq<u32>, Seq<u64>, Seq<Seq<u8>>)> {
    let e = unknown_entry(m, n);
    m.insert(n, (e.0, e.1, e.2.push(x), e.3))
}

/// `m` with `x` appended to the length-delimited payloads of field number `n`.
pub open spec fn with_delimited(
    m: Map<u32, (Seq<u64>, Seq<u32>, Seq<u64>, Seq<Seq<u8>>)>,
    n: u32,
    x: Seq<u8>,
) -> Map<u32, (Seq<u64>, Seq<u32>, Seq<u64>, Seq<Seq<u8>>)> {
    let e = unknown_entry(m, n);
    m.insert(n, (e.0, e.1, e.2, e.3.push(x)))
}

/// Whether the field numbers `nums` hold the key `k`.
pub open spec fn names(nums: Seq<u32>, k: i32) -> bool {
    exists|j: int| 0 <= j < nums.len() && nums[j] as int == k as int
}

impl Descriptors {
    /// `md` is well formed and refers only to messages of this set.
    pub open spec fn admits(&self, md: MessageDescriptor) -> bool {
        &&& md.wf()
        &&& forall|i: int| 0 <= i < md.fields@.len()
            ==> (#[trigger] md.fields@[i].field_type matches FieldType::Message(t)
                ==> t < self.messages@.len())
    }
}

/// The outcome of one occurrence of a declared field whose type is not a
/// message: the number of bytes it takes, or its error.
pub open spec fn plain_result(t: FieldType, w: WireType, v: Seq<u8>) -> Result<nat, Error> {
    if is_scalar(t) || t is Enum {
        match occurrence(t, w, v) {
            Ok((_, n)) => Ok(n),
            Err(e) => Err(e),
        }
    } else {
        match t {
            FieldType::UnresolvedEnum(name) => Err(Error::UnknownEnum { name }),
            FieldType::UnresolvedMessage(name) => Err(Error::UnknownMessage { name }),
            _ => Err(Error::Unimplemented),
        }
    }
}

/// The outcome of one record of an undeclared field: the number of bytes
/// its value takes, or its error.
pub open spec fn unknown_result(w: WireType, v: Seq<u8>) -> Result<nat, Error> {
    if w == WireType::StartGroup {
        group_len(v)
    } else {
        skip_result(w, v)
    }
}

/// The payload of an embedded message written with wire type `w` at the
/// front of `v`, with the number of bytes its length prefix and it take.
pub open spec fn payload_of(w: WireType, v: Seq<u8>) -> Result<(Seq<u8>, nat), Error> {
    if w != WireType::LengthDelimited {
        Err(Error::BadWireType { wire_type: w })
    } else {
        match varint(v) {
            Err(e) => Err(Error::Stream(e)),
            Ok((len, nv)) => if len > v.len() - nv {
                Err(Error::Stream(StreamError::LimitOverrun))
            } else if nv == 0 {
                Err(Error::Stream(StreamError::Truncated))
            } else {
                Ok((v.subrange(nv as int, nv + len), (nv + len) as nat))
            },
        }
    }
}

/// The outcome of decoding all of `s` as records of the message `md`: `Ok`
/// when every record decodes, else the error of the first that does not.
#[verifier::opaque]
pub open spec fn decode_result(ds: Descriptors, md: MessageDescriptor, s: Seq<u8>) -> Result<(), Error>
    decreases s.len(),
{
    if s.len() == 0 {
        Ok(())
    } else {
        match tag_at(s) {
            Err(e) => Err(Error::Stream(e)),
            Ok((f, w, n)) => if n == 0 || n > s.len() {
                Err(Error::Stream(StreamError::Truncated))
            } else {
                let v = s.subrange(n as int, s.len() as int);
                let step = match md.field_spec(f as i32) {
                    Some(fd) => match fd.field_type {
                        FieldType::Message(i) => match payload_of(w, v) {
                            Err(e) => Err(e),
                            Ok((p, k)) => match decode_result(ds, ds.messages@[i as int], p) {
                                Ok(_) => Ok(k),
                                Err(e) => Err(e),
                            },
                        },
                        t => plain_result(t, w, v),
                    },
                    None => unknown_result(w, v),
                };
                match step {
                    Err(e) => Err(e),
                    Ok(m) => if m > v.len() {
                        Err(Error::Stream(StreamError::Truncated))
                    } else {
                        decode_result(ds, md, s.subrange((n + m) as int, s.len() as int))
                    },
                }
            },
        }
    }
}

/// The outcome of one occurrence of a field of the message type at index
/// `i`: the number of bytes it takes, or its error.
pub open spec fn message_result(ds: Descriptors, i: usize, w: WireType, v: Seq<u8>) -> Result<nat, Error> {
    match payload_of(w, v) {
        Err(e) => Err(e),
        Ok((p, k)) => match decode_result(ds, ds.messages@[i as int], p) {
            Ok(_) => Ok(k),
            Err(e) => Err(e),
        },
    }
}

/// The outcome of one occurrence of the declared field `fd`.
pub open spec fn field_result(ds: Descriptors, fd: FieldDescriptor, w: WireType, v: Seq<u8>) -> Result<nat, Error> {
    match fd.field_type {
        FieldType::Message(i) => message_result(ds, i, w, v),
        t => plain_result(t, w, v),
    }
}

/// The outcome of one record of the message `md` with field number `f`.
pub open spec fn record_result(ds: Descriptors, md: MessageDescriptor, f: u32, w: WireType, v: Seq<u8>) -> Result<nat, Error> {
    match md.field_spec(f as i32) {
        Some(fd) => field_result(ds, fd, w, v),
        None => unknown_result(w, v),
    }
}

proof fn lemma_decode_step(ds: Descriptors, md: MessageDescriptor, s: Seq<u8>)
    requires
        s.len() > 0,
        tag_at(s) matches Ok((_, _, n)) && 1 <= n <= s.len(),
    ensures
        ({
            let (f, w, n) = tag_at(s)->Ok_0;
            let v = s.subrange(n as int, s.len() as int);
            decode_result(ds, md, s) == match record_result(ds, md, f, w, v) {
                Err(e) => Err(e),
                Ok(m) => if m > v.len() {
                    Err(Error::Stream(StreamError::Truncated))
                } else {
                    decode_result(ds, md, s.subrange((n + m) as int, s.len() as int))
                },
            }
        }),
{
    reveal(decode_result);
}

proof fn lemma_delimited_shorter(v: Seq<u8>)
    ensures
        delimited_at(v) is Ok ==> delimited_at(v)->Ok_0.0.len() < v.len(),
{
    lemma_varint_bounds(v);
}

proof fn lemma_merged_empty(ds: Descriptors, md: MessageDescriptor, m: Message, s: Seq<u8>)
    requires
        s.len() == 0,
    ensures
        Message::records_merged(ds, md, m, m, s),
{
    reveal(Message::records_merged);
}

proof fn lemma_merged_later(
    ds: Descriptors,
    md: MessageDescriptor,
    old: Message,
    mid: Message,
    new: Message,
    s: Seq<u8>,
)
    requires
        s.len() > 0,
        tag_at(s) matches Ok((f, w, n)) && 1 <= n <= s.len() && ({
            let v = s.subrange(n as int, s.len() as int);
            value_len(w, v) matches Some(m) && n + m <= s.len()
                && Message::record_merged(ds, md, old, mid, f, w, v)
                && Message::nested_done(ds, md, old, mid, f, v, s.len())
                && Message::records_merged(ds, md, mid, new, s.subrange((n + m) as int, s.len() as int))
        }),
    ensures
        Message::records_merged(ds, md, old, new, s),
{
    reveal(Message::records_merged);
}

proof fn lemma_failed_at_tag(ds: Descriptors, md: MessageDescriptor, m: Message, s: Seq<u8>)
    requires
        s.len() > 0,
        tag_at(s) is Err,
    ensures
        Message::records_failed(ds, md, m, m, s),
{
    reveal(Message::records_failed);
}

proof fn lemma_failed_here(ds: Descriptors, md: MessageDescriptor, old: Message, new: Message, s: Seq<u8>)
    requires
        s.len() > 0,
        tag_at(s) matches Ok((f, w, n)) && 1 <= n <= s.len()
            && record_result(ds, md, f, w, s.subrange(n as int, s.len() as int)) is Err
            && Message::record_failed(old, new, f),
    ensures
        Message::records_failed(ds, md, old, new, s),
{
    reveal(Message::records_failed);
}

proof fn lemma_failed_later(
    ds: Descriptors,
    md: MessageDescriptor,
    old: Message,
    mid: Message,
    new: Message,
    s: Seq<u8>,
)
    requires
        s.len() > 0,
        tag_at(s) matches Ok((f, w, n)) && 1 <= n <= s.len() && ({
            let v = s.subrange(n as int, s.len() as int);
            record_result(ds, md, f, w, v) matches Ok(m) && m <= v.len()
                && Message::record_merged(ds, md, old, mid, f, w, v)
                && Message::records_failed(ds, md, mid, new, s.subrange((n + m) as int, s.len() as int))
        }),
    ensures
        Message::records_failed(ds, md, old, new, s),
{
    reveal(Message::records_failed);
}

/// Whether an occurrence of a field of type `t` with wire type `w` is turned
/// away before anything is read.
pub open spec fn rejects(t: FieldType, w: WireType) -> bool {
    match t {
        FieldType::Group | FieldType::UnresolvedEnum(_) | FieldType::UnresolvedMessage(_) => true,
        FieldType::Message(_) => w != WireType::LengthDelimited,
        FieldType::Enum(_) => w != WireType::Varint,
        _ => w != natural_wire(t) && !(is_packable(t) && w == WireType::LengthDelimited),
    }
}

/// Skips one value written with wire type `w`; only varints, fixed-width
/// values and length-delimited values can be skipped.
fn skip_value(input: &mut Reader, w: WireType) -> (r: Result<(), Error>)
    requires
        old(input).wf(),
    ensures
        final(input).wf(),
        final(input).data() == old(input).data(),
        final(input).limit() == old(input).limit(),
        match skip_result(w, old(input).rest()) {
            Ok(n) => r is Ok && final(input).advanced(*old(input), n),
            Err(e) => r == Err::<(), Error>(e),
        },
{
    let res = match w {
        WireType::Varint => match input.read_raw_varint64() {
            Ok(_) => Ok(()),
            Err(e) => Err(e),
        },
        WireType::Fixed32 => match input.read_fixed32() {
            Ok(_) => Ok(()),
            Err(e) => Err(e),
        },
        WireType::Fixed64 => match input.read_fixed64() {
            Ok(_) => Ok(()),
            Err(e) => Err(e),
        },
        WireType::LengthDelimited => match input.read_bytes() {
            Ok(_) => Ok(()),
            Err(e) => Err(e),
        },
        _ => return Err(Error::BadWireType { wire_type: w }),
    };
    match res {
        Ok(()) => Ok(()),
        Err(e) => Err(Error::Stream(e)),
    }
}

/// Skips the rest of a group: records up to and including the first
/// end-group tag.
pub fn skip_group(input: &mut Reader) -> (r: Result<(), Error>)
    requires
        old(input).wf(),
    ensures
        final(input).wf(),
        final(input).data() == old(input).data(),
        final(input).limit() == old(input).limit(),
        match group_len(old(input).rest()) {
            Ok(n) => r is Ok && final(input).advanced(*old(input), n),
            Err(e) => r == Err::<(), Error>(e),
        },
{
    let ghost s0 = input.rest();
    let start = input.position();
    loop
        invariant
            input.wf(),
            input.data() == old(input).data(),
            input.limit() == old(input).limit(),
            start == old(input).pos(),
            input.pos() >= start,
            s0 == old(input).rest(),
            group_len(s0) == match group_len(input.rest()) {
                Ok(k) => Ok((input.pos() - start + k) as nat),
                Err(e) => Err::<nat, Error>(e),
            },
        decreases input.rest().len(),
    {
        let ghost s = input.rest();
        let (_, w) = match input.read_tag() {
            Ok(tag) => tag,
            Err(e) => return Err(Error::Stream(e)),
        };
        let ghost n = tag_at(s)->Ok_0.2;
        if w == WireType::EndGroup {
            assert(input.rest() =~= s.subrange(n as int, s.len() as int));
            return Ok(());
        }
        let ghost v = input.rest();
        assert(v =~= s.subrange(n as int, s.len() as int));
        match skip_value(input, w) {
            Ok(()) => {},
            Err(e) => return Err(e),
        }
        proof {
            let m = skip_result(w, v)->Ok_0;
            assert(input.rest() =~= s.subrange((n + m) as int, s.len() as int));
        }
    }
}

/// Reads one value of the scalar type `t`.
fn read_scalar(t: &FieldType, input: &mut Reader) -> (r: Result<Value, StreamError>)
    requires
        is_scalar(*t),
        old(input).wf(),
    ensures
        final(input).wf(),
        final(input).data() == old(input).data(),
        final(input).limit() == old(input).limit(),
        match scalar_at(*t, old(input).rest()) {
            Ok((x, n)) => r is Ok && r->Ok_0.scalar() == Some(x) && final(input).advanced(*old(input), n),
            Err(e) => r == Err::<Value, StreamError>(e),
        },
{
    match t {
        FieldType::Bool => {
            let v = input.read_raw_varint32()?;
            Ok(Value::Bool(v != 0))
        },
        FieldType::Int32 => {
            let v = input.read_raw_varint32()?;
            Ok(Value::I32(v as i32))
        },
        FieldType::Int64 => {
            let v = input.read_raw_varint64()?;
            Ok(Value::I64(v as i64))
        },
        FieldType::SInt32 => {
            let v = input.read_raw_varint32()?;
            Ok(Value::I32(decode_zig_zag_32(v)))
        },
        FieldType::SInt64 => {
            let v = input.read_raw_varint64()?;
            Ok(Value::I64(decode_zig_zag_64(v)))
        },
        FieldType::UInt32 => {
            let v = input.read_raw_varint32()?;
            Ok(Value::U32(v))
        },
        FieldType::UInt64 => {
            let v = input.read_raw_varint64()?;
            Ok(Value::U64(v))
        },
        FieldType::Fixed32 => {
            let v = input.read_fixed32()?;
            Ok(Value::U32(v))
        },
        FieldType::SFixed32 => {
            let v = input.read_fixed32()?;
            Ok(Value::I32(v as i32))
        },
        FieldType::Float => {
            let v = input.read_fixed32()?;
            Ok(Value::F32(v))
        },
        FieldType::Fixed64 => {
            let v = input.read_fixed64()?;
            Ok(Value::U64(v))
        },
        FieldType::SFixed64 => {
            let v = input.read_fixed64()?;
            Ok(Value::I64(v as i64))
        },
        FieldType::Double => {
            let v = input.read_fixed64()?;
            Ok(Value::F64(v))
        },
        FieldType::Bytes => {
            let v = input.read_bytes()?;
            Ok(Value::Bytes(v))
        },
        _ => {
            let v = input.read_string()?;
            Ok(Value::String(v))
        },
    }
}

/// Decodes a zig-zag encoded 32-bit number.
pub fn decode_zig_zag_32(n: u32) -> (r: i32)
    ensures
        r == zigzag32(n),
{
    if n % 2 == 0 {
        (n / 2) as i32
    } else {
        -((n / 2) as i32) - 1
    }
}

/// Decodes a zig-zag encoded 64-bit number.
pub fn decode_zig_zag_64(n: u64) -> (r: i64)
    ensures
        r == zigzag64(n),
{
    if n % 2 == 0 {
        (n / 2) as i64
    } else {
        -((n / 2) as i64) - 1
    }
}

impl Field {
    /// Whether this is a repeated field.
    pub open spec fn is_rep(&self) -> bool {
        self is Repeated
    }

    /// The values the field holds, in order.
    pub open spec fn items(&self) -> Seq<Value> {
        match self {
            Field::Singular(None) => Seq::empty(),
            Field::Singular(Some(v)) => seq![*v],
            Field::Repeated(v) => v@,
        }
    }

    /// What the values of the field hold, in order.
    pub open spec fn scalars(&self) -> Seq<Option<Scalar>> {
        self.items().map_values(|v: Value| v.scalar())
    }

    /// `self` is `old` after `v` was stored: a singular field is overwritten,
    /// a repeated one has `v` appended.
    pub open spec fn put_spec(&self, old: Field, v: Value) -> bool {
        &&& self.is_rep() == old.is_rep()
        &&& if old.is_rep() {
            self.items() == old.items().push(v)
        } else {
            self.items() == seq![v]
        }
    }

    /// `self` holds what `old` held, and a repeated field keeps its old items
    /// as a prefix: nothing is removed or reordered.
    pub open spec fn extends(&self, old: Field) -> bool {
        &&& self.is_rep() == old.is_rep()
        &&& old.is_rep() ==> {
            &&& self.items().len() >= old.items().len()
            &&& forall|i: int| 0 <= i < old.items().len() ==> #[trigger] self.items()[i] == old.items()[i]
        }
    }

    /// `self` is `old` after each of `xs` was stored in order.
    pub open spec fn puts_spec(&self, old: Field, xs: Seq<Scalar>) -> bool {
        &&& self.is_rep() == old.is_rep()
        &&& if old.is_rep() {
            &&& self.items().len() == old.items().len() + xs.len()
            &&& self.items().subrange(0, old.items().len() as int) == old.items()
            &&& self.scalars() == old.scalars() + xs.map_values(|x: Scalar| Some(x))
        } else if xs.len() == 0 {
            *self == old
        } else {
            self.scalars() == seq![Some(xs.last())]
        }
    }

    /// Creates a field given a Protobuf descriptor.
    pub fn new(field: &FieldDescriptor) -> (r: Field)
        ensures
            r.is_rep() == field.repeated,
            r.items().len() == 0,
    {
        if field.is_repeated() {
            Field::Repeated(Vec::new())
        } else {
            Field::Singular(None)
        }
    }

    /// Reads one value of the scalar type `t` and stores it, where the wire
    /// type on the stream is the one expected.
    fn merge_scalar(
        &mut self,
        t: &FieldType,
        input: &mut Reader,
        actual_wire_type: WireType,
        expected_wire_type: WireType,
    ) -> (r: Result<(), Error>)
        requires
            is_scalar(*t),
            old(input).wf(),
        ensures
            final(self).extends(*old(self)),
            r is Err ==> *final(self) == *old(self),
            final(self).is_rep() == old(self).is_rep(),
            final(input).wf(),
            final(input).data() == old(input).data(),
            final(input).limit() == old(input).limit(),
            actual_wire_type != expected_wire_type ==> r == Err::<(), Error>(
                Error::BadWireType { wire_type: actual_wire_type },
            ) && *final(self) == *old(self) && *final(input) == *old(input),
            actual_wire_type == expected_wire_type ==> match scalar_at(*t, old(input).rest()) {
                Ok((x, n)) => r is Ok && final(input).advanced(*old(input), n)
                    && final(self).puts_spec(*old(self), seq![x]),
                Err(e) => r == Err::<(), Error>(Error::Stream(e)),
            },
    {
        if expected_wire_type == actual_wire_type {
            match read_scalar(t, input) {
                Ok(v) => {
                    let ghost before = *self;
                    self.put(v);
                    proof {
                        if before.is_rep() {
                            assert(self.items().subrange(0, before.items().len() as int) =~= before.items());
                        }
                        assert(self.scalars() =~= if before.is_rep() {
                            before.scalars() + seq![v.scalar()]
                        } else {
                            seq![v.scalar()]
                        });
                        assert(seq![v.scalar()->0].map_values(|x: Scalar| Some(x)) =~= seq![v.scalar()]);
                    }
                    Ok(())
                },
                Err(e) => Err(Error::Stream(e)),
            }
        } else {
            Err(Error::BadWireType { wire_type: actual_wire_type })
        }
    }

    /// Reads one occurrence of a field of the packable scalar type `t`: a
    /// packed run where the wire type is length-delimited, else one value.
    fn merge_packable_scalar(
        &mut self,
        t: &FieldType,
        input: &mut Reader,
        actual_wire_type: WireType,
    ) -> (r: Result<(), Error>)
        requires
            is_packable(*t),
            old(input).wf(),
        ensures
            final(self).extends(*old(self)),
            final(self).is_rep() == old(self).is_rep(),
            final(input).wf(),
            final(input).data() == old(input).data(),
            r is Ok ==> final(input).limit() == old(input).limit(),
            rejects(*t, actual_wire_type) ==> *final(self) == *old(self) && *final(input) == *old(input),
            match occurrence(*t, actual_wire_type, old(input).rest()) {
                Ok((xs, n)) => r is Ok && final(input).advanced(*old(input), n)
                    && final(self).puts_spec(*old(self), xs),
                Err(e) => r == Err::<(), Error>(e),
            },
    {
        if actual_wire_type == WireType::LengthDelimited {
            let len = match input.read_raw_varint64() {
                Ok(len) => len,
                Err(e) => return Err(Error::Stream(e)),
            };
            let old_limit = match input.push_limit(len) {
                Ok(l) => l,
                Err(e) => return Err(Error::Stream(e)),
            };
            let ghost s = input.rest();
            let ghost inner = input.limit();
            let ghost field0 = *self;
            let ghost nv = varint(old(input).rest())->Ok_0.1;
            proof {
                assert(old_limit == old(input).limit());
                assert(s =~= old(input).rest().subrange(nv as int, nv + len));
            }
            let ghost mut done: Seq<Scalar> = Seq::empty();
            proof {
                assert(done.map_values(|x: Scalar| Some(x)) =~= Seq::<Option<Scalar>>::empty());
                assert(field0.scalars() + done.map_values(|x: Scalar| Some(x)) =~= field0.scalars());
            }
            while !input.eof()
                invariant
                    is_packable(*t),
                    actual_wire_type == WireType::LengthDelimited,
                    input.wf(),
                    input.data() == old(input).data(),
                    old_limit == old(input).limit(),
                    input.limit() == inner,
                    inner <= old_limit <= input.data().len(),
                    varint(old(input).rest()) == Ok::<(u64, nat), StreamError>((len, nv)),
                    len <= old(input).rest().len() - nv,
                    s == old(input).rest().subrange(nv as int, nv + len),
                    inner == old(input).pos() + nv + len,
                    packed_run(*t, s) == match packed_run(*t, input.rest()) {
                        Ok(ys) => Ok(done + ys),
                        Err(e) => Err::<Seq<Scalar>, StreamError>(e),
                    },
                    self.is_rep() == field0.is_rep(),
                    field0 == *old(self),
                    field0.is_rep() ==> self.scalars() == field0.scalars() + done.map_values(|x: Scalar| Some(x)),
                    field0.is_rep() ==> self.items().len() == field0.items().len() + done.len(),
                    field0.is_rep() ==> self.items().subrange(0, field0.items().len() as int) == field0.items(),
                    !field0.is_rep() && done.len() == 0 ==> *self == field0,
                    !field0.is_rep() && done.len() > 0 ==> self.scalars() == seq![Some(done.last())],
                decreases input.rest().len(),
            {
                let ghost s1 = input.rest();
                let v = match read_scalar(t, input) {
                    Ok(v) => v,
                    Err(e) => {
                        assert(packed_run(*t, s1) == Err::<Seq<Scalar>, StreamError>(e));
                        return Err(Error::Stream(e));
                    },
                };
                proof {
                    lemma_scalar_len(*t, s1);
                    let n = scalar_at(*t, s1)->Ok_0.1;
                    assert(input.rest() =~= s1.subrange(n as int, s1.len() as int));
                }
                let ghost before = *self;
                self.put(v);
                proof {
                    let x = v.scalar()->0;
                    let done2 = done.push(x);
                    assert(done2.map_values(|x: Scalar| Some(x)) =~= done.map_values(|x: Scalar| Some(x)).push(Some(x)));
                    if field0.is_rep() {
                        assert(self.items().subrange(0, field0.items().len() as int) =~= before.items().subrange(0, field0.items().len() as int));
                        assert(self.scalars() =~= before.scalars().push(Some(x)));
                    } else {
                        assert(self.scalars() =~= seq![Some(x)]);
                    }
                    match packed_run(*t, input.rest()) {
                        Ok(ys) => {
                            assert(done + (seq![x] + ys) =~= done2 + ys);
                        },
                        Err(_) => {},
                    }
                    done = done2;
                }
            }
            input.pop_limit(old_limit);
            proof {
                assert(done + Seq::<Scalar>::empty() =~= done);
            }
            Ok(())
        } else {
            self.merge_scalar(t, input, actual_wire_type, natural_wire_type(t))
        }
    }

    /// Reads one occurrence of an enum field: its raw number, not checked
    /// against the enum's values.
    fn merge_enum(&mut self, input: &mut Reader, actual_wire_type: WireType) -> (r: Result<(), Error>)
        requires
            old(input).wf(),
        ensures
            final(self).extends(*old(self)),
            r is Err ==> *final(self) == *old(self),
            final(self).is_rep() == old(self).is_rep(),
            final(input).wf(),
            final(input).data() == old(input).data(),
            final(input).limit() == old(input).limit(),
            actual_wire_type != WireType::Varint ==> *final(self) == *old(self) && *final(input) == *old(input),
            match occurrence(FieldType::Enum(arbitrary()), actual_wire_type, old(input).rest()) {
                Ok((xs, n)) => r is Ok && final(input).advanced(*old(input), n)
                    && final(self).puts_spec(*old(self), xs),
                Err(e) => r == Err::<(), Error>(e),
            },
    {
        if actual_wire_type == WireType::Varint {
            let v = match input.read_raw_varint32() {
                Ok(v) => v,
                Err(e) => return Err(Error::Stream(e)),
            };
            let ghost before = *self;
            self.put(Value::Enum(v as i32));
            proof {
                let xs = seq![Scalar::Enum(v as i32)];
                assert(xs.last() == Scalar::Enum(v as i32));
                assert(xs.map_values(|x: Scalar| Some(x)) =~= seq![Some(Scalar::Enum(v as i32))]);
                if before.is_rep() {
                    assert(self.items().subrange(0, before.items().len() as int) =~= before.items());
                    assert(self.scalars() =~= before.scalars() + xs.map_values(|x: Scalar| Some(x)));
                } else {
                    assert(self.scalars() =~= seq![Some(Scalar::Enum(v as i32))]);
                }
            }
            Ok(())
        } else {
            Err(Error::BadWireType { wire_type: actual_wire_type })
        }
    }

    /// What one occurrence of a field did: `new` is `old` after the
    /// occurrence of the field `fd` at the front of `s`, written with wire
    /// type `w`, was merged with the result `r`.
    pub open spec fn merged(
        old: Field,
        new: Field,
        ds: Descriptors,
        fd: FieldDescriptor,
        w: WireType,
        s: Seq<u8>,
        r: Result<(), Error>,
    ) -> bool {
        let t = fd.field_type;
        &&& new.is_rep() == old.is_rep()
        &&& is_scalar(t) || t is Enum ==> match occurrence(t, w, s) {
            Ok((xs, n)) => r is Ok && new.puts_spec(old, xs),
            Err(e) => r == Err::<(), Error>(e),
        }
        &&& t is Group ==> r == Err::<(), Error>(Error::Unimplemented)
        &&& t matches FieldType::UnresolvedEnum(name) ==> r == Err::<(), Error>(
            Error::UnknownEnum { name },
        )
        &&& t matches FieldType::UnresolvedMessage(name) ==> r == Err::<(), Error>(
            Error::UnknownMessage { name },
        )
        &&& t matches FieldType::Message(i) ==> Field::merged_message(
            old,
            new,
            ds.messages@[i as int],
            w,
            s,
            r,
        )
    }

    /// Merge data from the given input stream into this field: one
    /// occurrence of the field, written with `wire_type`.
    pub fn merge_from(
        &mut self,
        descriptors: &Descriptors,
        field: &FieldDescriptor,
        input: &mut Reader,
        wire_type: WireType,
    ) -> (r: Result<(), Error>)
        requires
            old(input).wf(),
            descriptors.wf(),
            field.field_type matches FieldType::Message(i) ==> i < descriptors.messages@.len(),
        ensures
            final(self).extends(*old(self)),
            final(input).wf(),
            final(input).data() == old(input).data(),
            r is Ok ==> value_len(wire_type, old(input).rest()) is Some && final(input).advanced(
                *old(input),
                value_len(wire_type, old(input).rest())->0,
            ),
            Field::merged(*old(self), *final(self), *descriptors, *field, wire_type, old(input).rest(), r),
            match field_result(*descriptors, *field, wire_type, old(input).rest()) {
                Ok(m) => r is Ok && final(input).advanced(*old(input), m),
                Err(e) => r == Err::<(), Error>(e),
            },
            rejects(field.field_type, wire_type) ==> *final(self) == *old(self) && *final(input) == *old(input),
            field.field_type matches FieldType::Message(i) ==> Field::nested_merged(
                *old(self),
                *final(self),
                *descriptors,
                descriptors.messages@[i as int],
                old(input).rest(),
                r,
            ),
        decreases old(input).rest().len(), 2nat,
    {
        let t = field.field_type();
        let ghost s = input.rest();
        proof {
            lemma_varint_bounds(s);
        }
        match t {
            FieldType::Bool | FieldType::Int32 | FieldType::Int64 | FieldType::SInt32
            | FieldType::SInt64 | FieldType::UInt32 | FieldType::UInt64 | FieldType::Fixed32
            | FieldType::Fixed64 | FieldType::SFixed32 | FieldType::SFixed64 | FieldType::Float
            | FieldType::Double => {
                let r = self.merge_packable_scalar(t, input, wire_type);
                proof {
                    if wire_type != WireType::LengthDelimited && wire_type == natural_wire(*t) {
                        if scalar_at(*t, s) is Ok {
                            lemma_scalar_len(*t, s);
                        }
                    }
                }
                r
            },
            FieldType::Bytes | FieldType::String => {
                let r = self.merge_scalar(t, input, wire_type, WireType::LengthDelimited);
                proof {
                    if scalar_at(*t, s) is Ok {
                        lemma_scalar_len(*t, s);
                    }
                }
                r
            },
            FieldType::Enum(_) => self.merge_enum(input, wire_type),
            FieldType::Message(m) => self.merge_message(input, descriptors, *m, wire_type),
            FieldType::Group => Err(Error::Unimplemented),
            FieldType::UnresolvedEnum(e) => Err(Error::UnknownEnum { name: e.clone() }),
            FieldType::UnresolvedMessage(m) => Err(Error::UnknownMessage { name: m.clone() }),
        }
    }

    /// What one occurrence of a message field did to the field: `new` is
    /// `old` after the occurrence at the front of `s`, written with wire type
    /// `w`, was merged with the result `r`.
    pub open spec fn merged_message(
        old: Field,
        new: Field,
        md: MessageDescriptor,
        w: WireType,
        s: Seq<u8>,
        r: Result<(), Error>,
    ) -> bool {
        &&& w != WireType::LengthDelimited ==> r == Err::<(), Error>(Error::BadWireType { wire_type: w })
        &&& r is Ok ==> {
            let payload = delimited_at(s)->Ok_0.0;
            &&& delimited_at(s) is Ok
            &&& record_numbers(payload) is Some
            &&& new.is_rep() == old.is_rep()
            &&& if old.is_rep() {
                &&& new.items().len() == old.items().len() + 1
                &&& new.items().subrange(0, old.items().len() as int) == old.items()
            } else {
                new.items().len() == 1
            }
            &&& new.items().last() is Message
            &&& match old {
                Field::Singular(Some(Value::Message(m0))) => new.items().last()->Message_0.keeps(
                    m0,
                    record_numbers(payload)->0,
                ),
                _ => new.items().last()->Message_0.wf_for(md),
            }
        }
    }

    /// The message that one occurrence of a message field left: when the
    /// field already held a message, the records of the occurrence were
    /// merged into that message; otherwise into a fresh one.
    pub open spec fn nested_merged(
        old: Field,
        new: Field,
        ds: Descriptors,
        md: MessageDescriptor,
        s: Seq<u8>,
        r: Result<(), Error>,
    ) -> bool {
        let payload = delimited_at(s)->Ok_0.0;
        let m1 = new.items().last()->Message_0;
        r is Ok ==> match old {
            Field::Singular(Some(Value::Message(m0))) => Message::records_merged(ds, md, m0, m1, payload),
            _ => exists|start: Message|
                #[trigger] start.fresh_for(md) && Message::records_merged(ds, md, start, m1, payload),
        }
    }

    /// Reads one occurrence of an embedded message. A message already held
    /// by a singular field is merged into, not replaced.
    fn merge_message(
        &mut self,
        input: &mut Reader,
        descriptors: &Descriptors,
        message: usize,
        actual_wire_type: WireType,
    ) -> (r: Result<(), Error>)
        requires
            old(input).wf(),
            descriptors.wf(),
            message < descriptors.messages@.len(),
        ensures
            final(self).extends(*old(self)),
            final(input).wf(),
            final(input).data() == old(input).data(),
            r is Ok ==> value_len(actual_wire_type, old(input).rest()) is Some && final(input).advanced(
                *old(input),
                value_len(actual_wire_type, old(input).rest())->0,
            ),
            final(self).is_rep() == old(self).is_rep(),
            Field::merged_message(
                *old(self),
                *final(self),
                descriptors.messages@[message as int],
                actual_wire_type,
                old(input).rest(),
                r,
            ),
            Field::nested_merged(
                *old(self),
                *final(self),
                *descriptors,
                descriptors.messages@[message as int],
                old(input).rest(),
                r,
            ),
            match message_result(*descriptors, message, actual_wire_type, old(input).rest()) {
                Ok(m) => r is Ok && final(input).advanced(*old(input), m),
                Err(e) => r == Err::<(), Error>(e),
            },
            actual_wire_type != WireType::LengthDelimited ==> *final(self) == *old(self) && *final(input)
                == *old(input),
        decreases old(input).rest().len(), 1nat,
    {
        if actual_wire_type != WireType::LengthDelimited {
            return Err(Error::BadWireType { wire_type: actual_wire_type });
        }
        let ghost s = input.rest();
        let len = match input.read_raw_varint64() {
            Ok(len) => len,
            Err(e) => return Err(Error::Stream(e)),
        };
        proof {
            lemma_varint_bounds(s);
        }
        let md = descriptors.message(message);
        proof {
            assert(descriptors.messages@[message as int].wf());
        }
        let ghost old_self = *self;
        let mut msg = match self {
            Field::Singular(o) => match o.take() {
                Some(Value::Message(m)) => m,
                _ => Message::new(md),
            },
            _ => Message::new(md),
        };
        let ghost start = msg;
        let old_limit = match input.push_limit(len) {
            Ok(l) => l,
            Err(e) => return Err(Error::Stream(e)),
        };
        let ghost payload = input.rest();
        proof {
            assert(payload =~= delimited_at(s)->Ok_0.0);
        }
        match msg.merge_from(descriptors, md, input) {
            Ok(()) => {},
            Err(e) => return Err(e),
        }
        input.pop_limit(old_limit);
        self.put(Value::Message(msg));
        proof {
            if old_self.is_rep() {
                assert(self.items().subrange(0, old_self.items().len() as int) =~= old_self.items());
            }
        }
        Ok(())
    }

    /// Stores `value`: a singular field is overwritten, a repeated one appended to.
    pub fn put(&mut self, value: Value)
        ensures
            final(self).put_spec(*old(self), value),
    {
        match self {
            Field::Singular(s) => *s = Some(value),
            Field::Repeated(r) => r.push(value),
        }
    }
}

impl Message {
    /// The message has one field for each field of `md`, repeated where the
    /// declaration is.
    pub open spec fn wf_for(&self, md: MessageDescriptor) -> bool {
        &&& self.fields@.dom() == md.numbers()
        &&& forall|n: i32| #[trigger] self.fields@.contains_key(n)
            ==> self.fields@[n].is_rep() == md.field_spec(n)->0.repeated
    }

    /// `self` grew from `old` by merging records with the field numbers
    /// `nums`: no field was dropped, and a field whose number is not among
    /// `nums` is as it was.
    pub open spec fn keeps(&self, old: Message, nums: Seq<u32>) -> bool {
        &&& old.fields@.dom().subset_of(self.fields@.dom())
        &&& forall|k: i32| #[trigger] old.fields@.contains_key(k) && !names(nums, k)
            ==> self.fields@[k] == old.fields@[k]
    }

    /// What one record did to the message: `new` is `old` after the record
    /// of field number `f`, whose value is written with wire type `w` at the
    /// front of `s`, was merged. A declared field is merged into its slot,
    /// a fresh one where the message had none; any other record is stored
    /// with the unknown fields.
    pub open spec fn record_merged(
        ds: Descriptors,
        md: MessageDescriptor,
        old: Message,
        new: Message,
        f: u32,
        w: WireType,
        s: Seq<u8>,
    ) -> bool {
        let k = f as i32;
        match md.field_spec(k) {
            Some(fd) => {
                &&& new.unknown == old.unknown
                &&& new.fields@.contains_key(k)
                &&& new.fields@ == old.fields@.insert(k, new.fields@[k])
                &&& exists|slot: Field|
                    {
                        &&& if old.fields@.contains_key(k) {
                            slot == old.fields@[k]
                        } else {
                            slot.is_rep() == fd.repeated && slot.items().len() == 0
                        }
                        &&& #[trigger] Field::merged(slot, new.fields@[k], ds, fd, w, s, Ok::<(), Error>(()))
                    }
            },
            None => new.fields == old.fields && Message::unknown_merged(old, new, f, w, s, Ok::<(), Error>(())),
        }
    }

    /// After a record of field number `f` with value `v` took `old` to
    /// `mid`: where `f` is a message field, its records were merged into the
    /// message the field held, or into a fresh one (`bound` caps the
    /// payload's length).
    pub open spec fn nested_done(
        ds: Descriptors,
        md: MessageDescriptor,
        old: Message,
        mid: Message,
        f: u32,
        v: Seq<u8>,
        bound: nat,
    ) -> bool {
        let s_len = bound;
        match md.field_spec(
                                    f as i32,
                                ) {
                                    Some(fd) => match fd.field_type {
                                        FieldType::Message(i) => {
                                            let k = f as i32;
                                            let payload = delimited_at(v)->Ok_0.0;
                                            let m1 = mid.fields@[k].items().last()->Message_0;
                                            let sub = ds.messages@[i as int];
                                            let slot = if old.fields@.contains_key(k) {
                                                old.fields@[k]
                                            } else {
                                                Field::Singular(None)
                                            };
                                            if payload.len() < s_len {
                                                match slot {
                                                    Field::Singular(Some(Value::Message(m0))) => Message::records_merged(
                                                        ds,
                                                        sub,
                                                        m0,
                                                        m1,
                                                        payload,
                                                    ),
                                                    _ => exists|start: Message|
                                                        #[trigger] start.fresh_for(sub) && Message::records_merged(
                                                            ds,
                                                            sub,
                                                            start,
                                                            m1,
                                                            payload,
                                                        ),
                                                }
                                            } else {
                                                false
                                            }
                                        },
                                        _ => true,
                                    },
                                    None => true,
                                }
    }

    /// `new` is `old` after all the records that fill `s` were merged, one
    /// after another; an embedded message is merged the same way, into the
    /// message its field held or into a fresh one.
    #[verifier::opaque]
    pub open spec fn records_merged(
        ds: Descriptors,
        md: MessageDescriptor,
        old: Message,
        new: Message,
        s: Seq<u8>,
    ) -> bool
        decreases s.len(),
    {
        if s.len() == 0 {
            new == old
        } else {
            match tag_at(s) {
                Ok((f, w, n)) => {
                    let v = s.subrange(n as int, s.len() as int);
                    match value_len(w, v) {
                        Some(m) => if n == 0 || n + m > s.len() {
                            false
                        } else {
                            exists|mid: Message|
                                #[trigger] Message::record_merged(ds, md, old, mid, f, w, v) && match md.field_spec(
                                    f as i32,
                                ) {
                                    Some(fd) => match fd.field_type {
                                        FieldType::Message(i) => {
                                            let k = f as i32;
                                            let payload = delimited_at(v)->Ok_0.0;
                                            let m1 = mid.fields@[k].items().last()->Message_0;
                                            let sub = ds.messages@[i as int];
                                            let slot = if old.fields@.contains_key(k) {
                                                old.fields@[k]
                                            } else {
                                                Field::Singular(None)
                                            };
                                            if payload.len() < s.len() {
                                                match slot {
                                                    Field::Singular(Some(Value::Message(m0))) => Message::records_merged(
                                                        ds,
                                                        sub,
                                                        m0,
                                                        m1,
                                                        payload,
                                                    ),
                                                    _ => exists|start: Message|
                                                        #[trigger] start.fresh_for(sub) && Message::records_merged(
                                                            ds,
                                                            sub,
                                                            start,
                                                            m1,
                                                            payload,
                                                        ),
                                                }
                                            } else {
                                                false
                                            }
                                        },
                                        _ => true,
                                    },
                                    None => true,
                                } && Message::records_merged(ds, md, mid, new, s.subrange((n + m) as int, s.len() as int))
                        },
                        None => false,
                    }
                },
                Err(_) => false,
            }
        }
    }

    /// What a failing record left: only the slot of field number `f` may
    /// differ from `old`, and the unknown fields are as they were.
    pub open spec fn record_failed(old: Message, new: Message, f: u32) -> bool {
        &&& new.unknown == old.unknown
        &&& forall|j: i32| j != f as i32 ==> {
            &&& (#[trigger] new.fields@.contains_key(j) == old.fields@.contains_key(j))
            &&& old.fields@.contains_key(j) ==> new.fields@[j] == old.fields@[j]
        }
    }

    /// `new` is `old` after the records of `s` before the first failing one
    /// were merged, and the failing one was tried: records merged before
    /// the failure stay applied.
    #[verifier::opaque]
    pub open spec fn records_failed(
        ds: Descriptors,
        md: MessageDescriptor,
        old: Message,
        new: Message,
        s: Seq<u8>,
    ) -> bool
        decreases s.len(),
    {
        if s.len() == 0 {
            false
        } else {
            match tag_at(s) {
                Err(_) => new == old,
                Ok((f, w, n)) => if n == 0 || n > s.len() {
                    false
                } else {
                    let v = s.subrange(n as int, s.len() as int);
                    match record_result(ds, md, f, w, v) {
                        Err(_) => Message::record_failed(old, new, f),
                        Ok(m) => if m > v.len() {
                            false
                        } else {
                            exists|mid: Message|
                                #[trigger] Message::record_merged(ds, md, old, mid, f, w, v)
                                    && Message::records_failed(ds, md, mid, new, s.subrange((n + m) as int, s.len() as int))
                        },
                    }
                },
            }
        }
    }

    /// Merge data from the given input stream into this message: every
    /// record up to the reader's limit.
    #[verifier::rlimit(100)]
    pub fn merge_from(
        &mut self,
        descriptors: &Descriptors,
        message: &MessageDescriptor,
        input: &mut Reader,
    ) -> (r: Result<(), Error>)
        requires
            old(input).wf(),
            descriptors.wf(),
            descriptors.admits(*message),
        ensures
            final(input).wf(),
            final(input).data() == old(input).data(),
            r is Ok ==> {
                &&& final(input).limit() == old(input).limit()
                &&& final(input).pos() == old(input).limit()
                &&& record_numbers(old(input).rest()) is Some
                &&& final(self).keeps(*old(self), record_numbers(old(input).rest())->0)
                &&& old(self).wf_for(*message) ==> final(self).wf_for(*message)
                &&& Message::records_merged(*descriptors, *message, *old(self), *final(self), old(input).rest())
            },
            r == decode_result(*descriptors, *message, old(input).rest()),
            r is Err ==> Message::records_failed(*descriptors, *message, *old(self), *final(self), old(input).rest()),
        decreases old(input).rest().len(), 3nat,
    {
        let ghost s0 = input.rest();
        let ghost mut done: Seq<u32> = Seq::empty();
        let ghost wf0 = self.wf_for(*message);
        while !input.eof()
            invariant
                input.wf(),
                descriptors.wf(),
                descriptors.admits(*message),
                input.data() == old(input).data(),
                input.limit() == old(input).limit(),
                input.pos() >= old(input).pos(),
                s0 == old(input).rest(),
                record_numbers(input.rest()) is Some ==> record_numbers(s0) == Some(
                    done + record_numbers(input.rest())->0,
                ),
                self.keeps(*old(self), done),
                wf0 == old(self).wf_for(*message),
                wf0 ==> self.wf_for(*message),
                forall|fm: Message| #[trigger] Message::records_merged(*descriptors, *message, *self, fm, input.rest())
                    ==> Message::records_merged(*descriptors, *message, *old(self), fm, s0),
                decode_result(*descriptors, *message, s0) == decode_result(*descriptors, *message, input.rest()),
                forall|fm: Message| #[trigger] Message::records_failed(*descriptors, *message, *self, fm, input.rest())
                    ==> Message::records_failed(*descriptors, *message, *old(self), fm, s0),
            decreases input.rest().len(),
        {
            let ghost s = input.rest();
            let (number, wire_type) = match input.read_tag() {
                Ok(tag) => tag,
                Err(e) => {
                    assert(decode_result(*descriptors, *message, s) == Err::<(), Error>(Error::Stream(e))) by {
                        reveal(decode_result);
                    }
                    proof {
                        lemma_failed_at_tag(*descriptors, *message, *self, s);
                    }
                    return Err(Error::Stream(e));
                },
            };
            let ghost n = tag_at(s)->Ok_0.2;
            assert(number < 0x2000_0000);
            proof {
                lemma_decode_step(*descriptors, *message, s);
            }
            let ghost before = *self;
            let ghost s1 = input.rest();
            proof {
                assert(s1 =~= s.subrange(n as int, s.len() as int));
            }
            let key = number as i32;
            match message.field_by_number(key) {
                Some(field) => {
                    proof {
                        let i = choose|i: int| 0 <= i < message.fields@.len() && message.fields@[i] == *field;
                        assert(message.fields@[i].wf());
                    }
                    let mut slot = match self.fields.remove(&key) {
                        Some(f) => f,
                        None => Field::new(field),
                    };
                    let ghost slot0 = slot;
                    let res = slot.merge_from(descriptors, field, input, wire_type);
                    let ghost slot1 = slot;
                    self.fields.insert(key, slot);
                    proof {
                        assert(self.fields@ =~= before.fields@.insert(key, slot1));
                        assert(Field::merged(slot0, self.fields@[key], *descriptors, *field, wire_type, s1, res));
                    }
                    proof {
                        assert(message.field_spec(key) == Some(*field));
                        assert(record_result(*descriptors, *message, number, wire_type, s1)
                            == field_result(*descriptors, *field, wire_type, s1));
                    }
                    match res {
                        Ok(()) => {},
                        Err(e) => {
                            assert(Message::record_failed(before, *self, number));
                            proof {
                                lemma_failed_here(*descriptors, *message, before, *self, s);
                            }
                            return Err(e);
                        },
                    }
                    proof {
                        assert(if before.fields@.contains_key(key) {
                            slot0 == before.fields@[key]
                        } else {
                            slot0.is_rep() == field.repeated && slot0.items().len() == 0
                        });
                        assert(self.unknown == before.unknown);
                        assert(self.fields@.contains_key(key));
                        assert(self.fields@ == before.fields@.insert(key, self.fields@[key]));
                        assert(Field::merged(slot0, self.fields@[key], *descriptors, *field, wire_type, s1, Ok::<(), Error>(())));
                        assert(Message::record_merged(*descriptors, *message, before, *self, number, wire_type, s1));
                        lemma_delimited_shorter(s1);
                        assert(Message::nested_done(*descriptors, *message, before, *self, number, s1, s.len()));
                    }
                },
                None => {
                    assert(record_result(*descriptors, *message, number, wire_type, s1)
                        == unknown_result(wire_type, s1));
                    match self.merge_unknown(number, wire_type, input) {
                        Ok(()) => {},
                        Err(e) => {
                            assert(Message::record_failed(before, *self, number));
                            proof {
                                lemma_failed_here(*descriptors, *message, before, *self, s);
                            }
                            return Err(e);
                        },
                    }
                    assert(Message::record_merged(*descriptors, *message, before, *self, number, wire_type, s1));
                    assert(Message::nested_done(*descriptors, *message, before, *self, number, s1, s.len()));
                },
            }
            proof {
                let m = value_len(wire_type, s1)->0;
                assert(input.rest() =~= s.subrange((n + m) as int, s.len() as int));
                if record_numbers(input.rest()) is Some {
                    assert(done.push(number) + record_numbers(input.rest())->0 =~= done + (seq![number]
                        + record_numbers(input.rest())->0));
                }
                assert forall|k: i32| #[trigger] old(self).fields@.contains_key(k) && !names(
                    done.push(number),
                    k,
                ) implies self.fields@[k] == old(self).fields@[k] by {
                    if names(done, k) {
                        let j = choose|j: int| 0 <= j < done.len() && done[j] as int == k as int;
                        assert(done.push(number)[j] == done[j]);
                    }
                    assert(done.push(number)[done.len() as int] == number);
                    assert(k != key);
                }
                done = done.push(number);
                assert(Message::record_merged(*descriptors, *message, before, *self, number, wire_type, s1));
                assert forall|fm: Message| #[trigger] Message::records_merged(
                    *descriptors,
                    *message,
                    *self,
                    fm,
                    input.rest(),
                ) implies Message::records_merged(*descriptors, *message, *old(self), fm, s0) by {
                    lemma_merged_later(*descriptors, *message, before, *self, fm, s);
                }
                assert forall|fm: Message| #[trigger] Message::records_failed(
                    *descriptors,
                    *message,
                    *self,
                    fm,
                    input.rest(),
                ) implies Message::records_failed(*descriptors, *message, *old(self), fm, s0) by {
                    lemma_failed_later(*descriptors, *message, before, *self, fm, s);
                }
            }
        }
        proof {
            reveal(decode_result);
            assert(done + Seq::<u32>::empty() =~= done);
            lemma_merged_empty(*descriptors, *message, *self, input.rest());
        }
        Ok(())
    }

    /// Stores a record whose field number the descriptor does not declare,
    /// keeping its value whole.
    pub fn merge_unknown(&mut self, number: u32, wire_type: WireType, input: &mut Reader) -> (r: Result<(), Error>)
        requires
            old(input).wf(),
        ensures
            final(input).wf(),
            final(input).data() == old(input).data(),
            final(self).fields == old(self).fields,
            r is Ok ==> value_len(wire_type, old(input).rest()) is Some && final(input).advanced(
                *old(input),
                value_len(wire_type, old(input).rest())->0,
            ),
            Message::unknown_merged(*old(self), *final(self), number, wire_type, old(input).rest(), r),
            r is Err ==> final(self).unknown == old(self).unknown,
            match unknown_result(wire_type, old(input).rest()) {
                Ok(m) => r is Ok && final(input).advanced(*old(input), m),
                Err(e) => r == Err::<(), Error>(e),
            },
    {
        match wire_type {
            WireType::Varint => match input.read_raw_varint64() {
                Ok(v) => {
                    self.unknown.add_varint(number, v);
                    Ok(())
                },
                Err(e) => Err(Error::Stream(e)),
            },
            WireType::Fixed32 => match input.read_fixed32() {
                Ok(v) => {
                    self.unknown.add_fixed32(number, v);
                    Ok(())
                },
                Err(e) => Err(Error::Stream(e)),
            },
            WireType::Fixed64 => match input.read_fixed64() {
                Ok(v) => {
                    self.unknown.add_fixed64(number, v);
                    Ok(())
                },
                Err(e) => Err(Error::Stream(e)),
            },
            WireType::LengthDelimited => match input.read_bytes() {
                Ok(v) => {
                    self.unknown.add_length_delimited(number, v);
                    Ok(())
                },
                Err(e) => Err(Error::Stream(e)),
            },
            WireType::StartGroup => {
                let start = input.position();
                match skip_group(input) {
                    Ok(()) => {
                        let end = input.position();
                        let bytes = input.bytes_between(start, end);
                        proof {
                            assert(bytes@ =~= old(input).rest().subrange(0, (end - start) as int));
                        }
                        self.unknown.add_length_delimited(number, bytes);
                        Ok(())
                    },
                    Err(e) => Err(e),
                }
            },
            WireType::EndGroup => Err(Error::BadWireType { wire_type: wire_type }),
        }
    }

    /// What storing an unknown record did: `new` is `old` after the record of
    /// field number `f`, written with wire type `w` at the front of `s`, was
    /// stored with the result `r`. A group is kept whole: its raw bytes, up
    /// to and including its end-group tag, join the length-delimited
    /// payloads of `f`.
    pub open spec fn unknown_merged(old: Message, new: Message, f: u32, w: WireType, s: Seq<u8>, r: Result<(), Error>) -> bool {
        let u0 = unknown_contents(old.unknown);
        let u1 = unknown_contents(new.unknown);
        match w {
            WireType::Varint => match varint(s) {
                Ok((v, _)) => r is Ok && u1 == with_varint(u0, f, v),
                Err(e) => r == Err::<(), Error>(Error::Stream(e)),
            },
            WireType::Fixed32 => match fixed_at(s, 4) {
                Ok(b) => r is Ok && u1 == with_fixed32(u0, f, le32(b)),
                Err(e) => r == Err::<(), Error>(Error::Stream(e)),
            },
            WireType::Fixed64 => match fixed_at(s, 8) {
                Ok(b) => r is Ok && u1 == with_fixed64(u0, f, le64(b)),
                Err(e) => r == Err::<(), Error>(Error::Stream(e)),
            },
            WireType::LengthDelimited => match delimited_at(s) {
                Ok((b, _)) => r is Ok && u1 == with_delimited(u0, f, b),
                Err(e) => r == Err::<(), Error>(Error::Stream(e)),
            },
            WireType::StartGroup => match group_len(s) {
                Ok(n) => r is Ok && u1 == with_delimited(u0, f, s.subrange(0, n as int)),
                Err(e) => r == Err::<(), Error>(e),
            },
            WireType::EndGroup => r == Err::<(), Error>(Error::BadWireType { wire_type: w }),
        }
    }

    /// A message as `new` makes it for `md`: each declared field present,
    /// repeated ones empty, singular ones holding their default or nothing,
    /// and no unknown fields.
    pub open spec fn fresh_for(&self, md: MessageDescriptor) -> bool {
        &&& self.wf_for(md)
        &&& unknown_contents(self.unknown) == no_unknowns()
        &&& forall|n: i32| #[trigger] self.fields@.contains_key(n) ==> {
            let f = md.field_spec(n)->0;
            if f.repeated {
                self.fields@[n] is Repeated && self.fields@[n].items().len() == 0
            } else {
                self.fields@[n] is Singular && match f.default_value {
                    Some(d) => self.fields@[n].scalars() == seq![d.scalar()],
                    None => self.fields@[n].items().len() == 0,
                }
            }
        }
    }

    /// Creates a message given a Protobuf descriptor: each declared field is
    /// present, repeated ones empty and singular ones holding their default.
    pub fn new(message: &MessageDescriptor) -> (r: Message)
        requires
            message.wf(),
        ensures
            r.fresh_for(*message),
    {
        let mut m = Message { fields: BTreeMap::new(), unknown: UnknownFields::new() };
        let fields = message.fields();
        let mut i: usize = 0;
        while i < fields.len()
            invariant
                message.wf(),
                fields == message.fields,
                i <= fields@.len(),
                unknown_contents(m.unknown) == no_unknowns(),
                m.fields@.dom() == Set::new(|n: i32| exists|j: int| 0 <= j < i && #[trigger] fields@[j].number == n),
                forall|j: int| 0 <= j < i ==> {
                    let f = #[trigger] fields@[j];
                    let g = m.fields@[f.number];
                    if f.repeated {
                        g is Repeated && g.items().len() == 0
                    } else {
                        g is Singular && match f.default_value {
                            Some(d) => g.scalars() == seq![d.scalar()],
                            None => g.items().len() == 0,
                        }
                    }
                },
            decreases fields@.len() - i,
        {
            let field = &fields[i];
            assert(field.wf());
            let slot = if field.is_repeated() {
                Field::Repeated(Vec::new())
            } else {
                match field.default_value() {
                    Some(d) => Field::Singular(Some(d.copy_scalar())),
                    None => Field::Singular(None),
                }
            };
            proof {
                if !field.repeated && field.default_value is Some {
                    assert(slot.scalars() =~= seq![field.default_value->0.scalar()]);
                }
            }
            m.fields.insert(field.number(), slot);
            proof {
                assert forall|j: int| 0 <= j < i + 1 implies {
                    let f = #[trigger] fields@[j];
                    let g = m.fields@[f.number];
                    if f.repeated {
                        g is Repeated && g.items().len() == 0
                    } else {
                        g is Singular && match f.default_value {
                            Some(d) => g.scalars() == seq![d.scalar()],
                            None => g.items().len() == 0,
                        }
                    }
                } by {
                    if j < i {
                        assert(fields@[j].number != fields@[i as int].number);
                    }
                }
            }
            i = i + 1;
            assert(m.fields@.dom() =~= Set::new(|n: i32| exists|j: int| 0 <= j < i && #[trigger] fields@[j].number == n));
        }
        proof {
            assert(m.fields@.dom() =~= message.numbers());
            assert forall|n: i32| #[trigger] m.fields@.contains_key(n) implies {
                let f = message.field_spec(n)->0;
                &&& m.fields@[n].is_rep() == f.repeated
                &&& if f.repeated {
                    m.fields@[n] is Repeated && m.fields@[n].items().len() == 0
                } else {
                    m.fields@[n] is Singular && match f.default_value {
                        Some(d) => m.fields@[n].scalars() == seq![d.scalar()],
                        None => m.fields@[n].items().len() == 0,
                    }
                }
            } by {
                let j = choose|j: int| 0 <= j < fields@.len() && #[trigger] fields@[j].number == n;
            }
        }
        m
    }
}

} // verus!
