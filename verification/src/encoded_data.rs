//! The values that can be encoded, their byte form, and the encoder and
//! decoder between the two.
//!
//! A value starts with one header byte: the family's tag in the three high
//! bits, and five bits whose meaning depends on the family. All integers
//! wider than a byte are little-endian.

use crate::define::data_type;
use crate::define::data_type::DataType;
use crate::define::special_type;
use crate::define::special_type::SpecialType;
use crate::varint;
use vstd::prelude::*;
use vstd::slice::slice_subrange;
use vstd::utf8::*;

verus! {

#[derive(Debug, PartialEq)]
pub enum EncodedSpecial {
    /// An absence marker, for use inside a process only.
    Absent,
    Null,
    /// Binds the value to the next free alias identifier.
    Define(Box<EncodedData>),
    /// Drops the alias with this identifier.
    Forget(u64),
}

/// An integer by sign and magnitude, or a boolean.
#[derive(Debug, PartialEq, Clone)]
pub enum EncodedInteger {
    Positive(u64),
    Negative(u64),
    Bool(bool),
}

#[derive(Debug, PartialEq)]
pub enum EncodedData {
    Special(EncodedSpecial),
    Integer(EncodedInteger),
    /// A binary64 number, held as its IEEE-754 bits.
    Float(u64),
    String(String),
    Array(Vec<EncodedData>),
    /// The entries of an object, in the order in which they are written. A
    /// well-formed object holds no key twice.
    Object(Vec<(String, EncodedData)>),
    Alias(u64),
}

/// The mathematical value that an [`EncodedData`] stands for.
pub enum Data {
    Absent,
    Null,
    Define(Box<Data>),
    Forget(u64),
    Positive(u64),
    Negative(u64),
    Bool(bool),
    Float(u64),
    Text(Seq<char>),
    Array(Seq<Data>),
    Object(Seq<(Seq<char>, Data)>),
    Alias(u64),
}

impl EncodedData {
    /// The value that `self` stands for.
    pub open spec fn model(&self) -> Data
        decreases self,
    {
        match self {
            EncodedData::Special(EncodedSpecial::Absent) => Data::Absent,
            EncodedData::Special(EncodedSpecial::Null) => Data::Null,
            EncodedData::Special(EncodedSpecial::Define(o)) => Data::Define(Box::new((**o).model())),
            EncodedData::Special(EncodedSpecial::Forget(id)) => Data::Forget(*id),
            EncodedData::Integer(EncodedInteger::Positive(n)) => Data::Positive(*n),
            EncodedData::Integer(EncodedInteger::Negative(n)) => Data::Negative(*n),
            EncodedData::Integer(EncodedInteger::Bool(b)) => Data::Bool(*b),
            EncodedData::Float(bits) => Data::Float(*bits),
            EncodedData::String(s) => Data::Text(s@),
            EncodedData::Array(list) => Data::Array(
                Seq::new(
                    list.len() as nat,
                    |i: int|
                        if 0 <= i < list.len() {
                            list[i].model()
                        } else {
                            Data::Absent
                        },
                ),
            ),
            EncodedData::Object(entries) => Data::Object(
                Seq::new(
                    entries.len() as nat,
                    |i: int|
                        if 0 <= i < entries.len() {
                            (entries[i].0@, entries[i].1.model())
                        } else {
                            (Seq::empty(), Data::Absent)
                        },
                ),
            ),
            EncodedData::Alias(id) => Data::Alias(*id),
        }
    }
}

impl View for EncodedData {
    type V = Data;

    open spec fn view(&self) -> Data {
        self.model()
    }
}

/// The values of a list, one by one.
pub open spec fn item_views(list: Seq<EncodedData>) -> Seq<Data> {
    Seq::new(list.len(), |i: int| list[i]@)
}

/// The entries of an object as keys and values.
pub open spec fn entry_views(entries: Seq<(String, EncodedData)>) -> Seq<(Seq<char>, Data)> {
    Seq::new(entries.len(), |i: int| (entries[i].0@, entries[i].1@))
}

/// Whether `key` is the key of one of `entries`.
pub open spec fn has_key(entries: Seq<(Seq<char>, Data)>, key: Seq<char>) -> bool {
    exists|i: int| 0 <= i < entries.len() && (#[trigger] entries[i]).0 == key
}

/// Whether no two of `entries` share a key.
pub open spec fn distinct_keys(entries: Seq<(Seq<char>, Data)>) -> bool {
    forall|i: int, j: int|
        0 <= i < j < entries.len() ==> (#[trigger] entries[i]).0 != (#[trigger] entries[j]).0
}

impl Data {
    /// Whether the encoder can write the value and the decoder gives it back:
    /// every length fits 64 bits and no object holds a key twice.
    pub open spec fn well_formed(self) -> bool
        decreases self,
    {
        match self {
            Data::Define(o) => o.well_formed(),
            Data::Text(t) => encode_utf8(t).len() <= u64::MAX,
            Data::Array(list) => list.len() <= u64::MAX && forall|i: int|
                0 <= i < list.len() ==> (#[trigger] list[i]).well_formed(),
            Data::Object(entries) => entries.len() <= u64::MAX && distinct_keys(entries)
                && forall|i: int|
                0 <= i < entries.len() ==> encode_utf8((#[trigger] entries[i]).0).len() <= u64::MAX
                    && entries[i].1.well_formed(),
            _ => true,
        }
    }
}

/// `2^(bits - 1)`: the first length that no longer fits the `bits - 1` bits
/// that a flag of `bits` bits has beside its continue bit.
pub open spec fn flag_threshold(bits: u8) -> nat {
    if bits <= 1 {
        1
    } else if bits == 2 {
        2
    } else if bits == 3 {
        4
    } else if bits == 4 {
        8
    } else if bits == 5 {
        16
    } else if bits == 6 {
        32
    } else if bits == 7 {
        64
    } else {
        128
    }
}

/// The flag for the length or identifier `n`: `n` itself where it is below
/// the threshold, else the continue bit and the low bits of `n - threshold`.
pub open spec fn length_flag(n: u64, bits: u8) -> u8 {
    let t = flag_threshold(bits);
    if n < t {
        n as u8
    } else {
        (t + (n - t) % (t as int)) as u8
    }
}

/// The bytes that follow the header for the length or identifier `n`: none
/// where it is below the threshold, else the high bits of `n - threshold` as
/// a variable-length integer.
pub open spec fn length_tail(n: u64, bits: u8) -> Seq<u8> {
    let t = flag_threshold(bits);
    if n < t {
        Seq::empty()
    } else {
        varint::encode_spec(((n - t) / (t as int)) as u64)
    }
}

/// The number of bits of a header byte that hold a length or an identifier.
pub const STRING_FLAG_LENGTH_SIZE: u8 = 5;

/// `256^k`, for the widths that an integer can have.
pub open spec fn pow256(k: nat) -> nat {
    if k == 0 {
        1
    } else if k == 1 {
        0x100
    } else if k == 2 {
        0x1_0000
    } else if k == 3 {
        0x100_0000
    } else if k == 4 {
        0x1_0000_0000
    } else if k == 5 {
        0x100_0000_0000
    } else if k == 6 {
        0x1_0000_0000_0000
    } else if k == 7 {
        0x100_0000_0000_0000
    } else {
        0x1_0000_0000_0000_0000
    }
}

/// The `w` low bytes of `n`, lowest first.
pub open spec fn le_bytes(n: nat, w: nat) -> Seq<u8>
    decreases w,
{
    if w == 0 {
        Seq::empty()
    } else {
        seq![(n % 256) as u8] + le_bytes(n / 256, (w - 1) as nat)
    }
}

/// The number that the bytes from `from` up to `to` hold, lowest first.
pub open spec fn le_value(s: Seq<u8>, from: nat, to: nat) -> nat
    decreases to - from,
{
    if from >= to {
        0
    } else {
        s[from as int] as nat + 256 * le_value(s, from + 1, to)
    }
}

/// The number of bytes in which the magnitude `n` is written: the least of
/// 1, 2, 4 and 8 that holds it.
pub open spec fn compact_width(n: u64) -> nat {
    if n <= 0xFF {
        1
    } else if n <= 0xFFFF {
        2
    } else if n <= 0xFFFF_FFFF {
        4
    } else {
        8
    }
}

/// A header byte: the tag in the three high bits, `low` in the five low ones.
pub open spec fn header(tag: u8, low: u8) -> u8 {
    (tag * 32 + low) as u8
}

/// The bytes of the values `list[0]` to `list[n - 1]`, one after the other.
pub open spec fn encode_items(list: Seq<Data>, n: nat) -> Seq<u8>
    decreases list, n,
{
    if n == 0 || n > list.len() {
        Seq::empty()
    } else {
        encode_items(list, (n - 1) as nat) + encode_spec(list[n - 1])
    }
}

/// The bytes of the first `n` entries: for each the length of the key as a
/// variable-length integer, the key, and the value.
pub open spec fn encode_entries(entries: Seq<(Seq<char>, Data)>, n: nat) -> Seq<u8>
    decreases entries, n,
{
    if n == 0 || n > entries.len() {
        Seq::empty()
    } else {
        encode_entries(entries, (n - 1) as nat) + encode_entry(entries[n - 1])
    }
}

/// The bytes of one entry of an object.
pub open spec fn encode_entry(entry: (Seq<char>, Data)) -> Seq<u8>
    decreases entry, 0nat,
{
    varint::encode_spec(encode_utf8(entry.0).len() as u64) + encode_utf8(entry.0) + encode_spec(
        entry.1,
    )
}

/// The bytes of a value.
pub open spec fn encode_spec(v: Data) -> Seq<u8>
    decreases v, 0nat,
{
    match v {
        Data::Absent => seq![header(data_type::SPECIAL, special_type::NONE)],
        Data::Null => seq![header(data_type::SPECIAL, special_type::NULL)],
        Data::Define(o) => seq![header(data_type::SPECIAL, special_type::DEFINE)] + encode_spec(
            *o,
        ),
        Data::Forget(id) => seq![header(data_type::SPECIAL, special_type::FORGET)]
            + varint::encode_spec(id),
        Data::Bool(b) => seq![
            header(
                data_type::INTEGER,
                if b {
                    16u8
                } else {
                    0u8
                },
            ),
        ],
        Data::Positive(n) => seq![header(data_type::INTEGER, compact_width(n) as u8)] + le_bytes(
            n as nat,
            compact_width(n),
        ),
        Data::Negative(n) => seq![header(data_type::INTEGER, (16 + compact_width(n)) as u8)]
            + le_bytes(n as nat, compact_width(n)),
        Data::Float(bits) => seq![header(data_type::FLOAT, 8)] + le_bytes(bits as nat, 8),
        Data::Text(t) => {
            let bytes = encode_utf8(t);
            seq![header(data_type::STRING, length_flag(bytes.len() as u64, 5))] + length_tail(
                bytes.len() as u64,
                5,
            ) + bytes
        },
        Data::Array(list) => seq![header(data_type::ARRAY, length_flag(list.len() as u64, 5))]
            + length_tail(list.len() as u64, 5) + encode_items(list, list.len()),
        Data::Object(entries) => seq![
            header(data_type::OBJECT, length_flag(entries.len() as u64, 5)),
        ] + length_tail(entries.len() as u64, 5) + encode_entries(entries, entries.len()),
        Data::Alias(id) => seq![header(data_type::ALIAS, length_flag(id, 5))] + length_tail(
            id,
            5,
        ),
    }
}

/// Why bytes do not decode to a value.
pub enum DecodeFailure {
    UnknownDataType(u8),
    UnknownSpecialType(u8),
    MissingBytes(nat),
    VarintTooBig,
    BadUtf8,
    DuplicateKey(Seq<char>),
}

/// `std::str::Utf8Error`, the detail that `std::str::from_utf8` gives of
/// bytes that it refuses. It is carried along; nothing is known of what it
/// holds.
#[verifier::external_type_specification]
#[verifier::external_body]
pub struct ExUtf8Error(std::str::Utf8Error);

/// `Clone::clone` of `std::str::Utf8Error`. Nothing is claimed of the copy.
pub assume_specification[ <std::str::Utf8Error as Clone>::clone ](
    _0: &std::str::Utf8Error,
) -> std::str::Utf8Error
;

#[derive(Debug, PartialEq, Clone)]
pub enum DecodeError {
    /// The three high bits of a header byte are no known tag.
    UnknownDataType(u8),
    /// The five low bits of the header byte of a special value are no known
    /// tag.
    UnknownSpecialType(u8),
    /// The input ends this many bytes before the end of what is being read.
    MissingBytes(u64),
    /// A variable-length integer, or the length or identifier built on it,
    /// does not fit 64 bits.
    VarintTooBig,
    /// A string or a key is not UTF-8.
    BadUtf8(std::str::Utf8Error),
    /// An object holds this key twice.
    DuplicateKey(String),
}

impl View for DecodeError {
    type V = DecodeFailure;

    open spec fn view(&self) -> DecodeFailure {
        match self {
            DecodeError::UnknownDataType(t) => DecodeFailure::UnknownDataType(*t),
            DecodeError::UnknownSpecialType(t) => DecodeFailure::UnknownSpecialType(*t),
            DecodeError::MissingBytes(n) => DecodeFailure::MissingBytes(*n as nat),
            DecodeError::VarintTooBig => DecodeFailure::VarintTooBig,
            DecodeError::BadUtf8(_) => DecodeFailure::BadUtf8,
            DecodeError::DuplicateKey(k) => DecodeFailure::DuplicateKey(k@),
        }
    }
}

/// The variable-length integer at `pos`, and where the bytes after it start.
pub open spec fn read_varint(s: Seq<u8>, pos: nat) -> Result<(u64, nat), DecodeFailure> {
    match varint::decode_spec(s.skip(pos as int)) {
        Ok((v, nb)) => Ok((v, pos + nb as nat)),
        Err(varint::DecodeError::MissingBytes) => Err(DecodeFailure::MissingBytes(1)),
        Err(varint::DecodeError::ValueTooBig) => Err(DecodeFailure::VarintTooBig),
    }
}

/// The length or identifier that the header byte at `pos` and the bytes
/// after it hold, and where the bytes after those start.
pub open spec fn read_length(s: Seq<u8>, pos: nat) -> Result<(u64, nat), DecodeFailure> {
    let low = s[pos as int] % 16;
    if s[pos as int] % 32 < 16 {
        Ok((low as u64, pos + 1))
    } else {
        match read_varint(s, pos + 1) {
            Ok((high, next)) => if high * 16 + low + 16 <= u64::MAX {
                Ok(((high * 16 + low + 16) as u64, next))
            } else {
                Err(DecodeFailure::VarintTooBig)
            },
            Err(e) => Err(e),
        }
    }
}

/// The text in the `len` bytes from `start`.
pub open spec fn read_text(s: Seq<u8>, start: nat, len: nat) -> Result<Seq<char>, DecodeFailure> {
    if start + len > s.len() {
        Err(DecodeFailure::MissingBytes((start + len - s.len()) as nat))
    } else if valid_utf8(s.subrange(start as int, (start + len) as int)) {
        Ok(decode_utf8(s.subrange(start as int, (start + len) as int)))
    } else {
        Err(DecodeFailure::BadUtf8)
    }
}

/// The `count` values that start at `pos`, added to `done`, and where the
/// bytes after them start.
pub open spec fn decode_items(s: Seq<u8>, pos: nat, count: nat, done: Seq<Data>) -> Result<
    (Seq<Data>, nat),
    DecodeFailure,
>
    decreases s.len() - pos, count + 1,
{
    if count == 0 {
        Ok((done, pos))
    } else {
        match decode_at(s, pos) {
            // A value takes at least one byte of the input.
            Ok((v, end)) => if pos < end <= s.len() {
                decode_items(s, end, (count - 1) as nat, done.push(v))
            } else {
                Err(DecodeFailure::MissingBytes(1))
            },
            Err(e) => Err(e),
        }
    }
}

/// The `count` entries that start at `pos`, added to `done`, and where the
/// bytes after them start. A key that `done` or an earlier one of these
/// entries has is refused.
pub open spec fn decode_entries(
    s: Seq<u8>,
    pos: nat,
    count: nat,
    done: Seq<(Seq<char>, Data)>,
) -> Result<(Seq<(Seq<char>, Data)>, nat), DecodeFailure>
    decreases s.len() - pos, count + 1,
{
    if count == 0 {
        Ok((done, pos))
    } else {
        match read_varint(s, pos) {
            Ok((key_len, key_start)) => match read_text(s, key_start, key_len as nat) {
                Ok(key) => if has_key(done, key) {
                    Err(DecodeFailure::DuplicateKey(key))
                } else {
                    match decode_at(s, key_start + key_len as nat) {
                        // An entry takes at least one byte of the input.
                        Ok((v, end)) => if pos < end <= s.len() {
                            decode_entries(s, end, (count - 1) as nat, done.push((key, v)))
                        } else {
                            Err(DecodeFailure::MissingBytes(1))
                        },
                        Err(e) => Err(e),
                    }
                },
                Err(e) => Err(e),
            },
            Err(e) => Err(e),
        }
    }
}

/// The value that starts at `pos`, and where the bytes after it start.
///
/// Every read that the input is too short for fails with the number of bytes
/// that are missing. An integer may have any width up to fifteen; of more
/// than eight bytes the first eight count. The five low bits of the header
/// of a float are not looked at. An array or an object that declares more
/// values than bytes are left is refused before any of them is read.
pub open spec fn decode_at(s: Seq<u8>, pos: nat) -> Result<(Data, nat), DecodeFailure>
    decreases s.len() - pos, 0nat,
{
    if pos >= s.len() {
        Err(DecodeFailure::MissingBytes(1))
    } else {
        let tag = s[pos as int] / 32;
        let low = s[pos as int] % 32;
        if tag == data_type::SPECIAL {
            if low == special_type::NONE {
                Ok((Data::Absent, pos + 1))
            } else if low == special_type::NULL {
                Ok((Data::Null, pos + 1))
            } else if low == special_type::DEFINE {
                match decode_at(s, pos + 1) {
                    Ok((v, end)) => Ok((Data::Define(Box::new(v)), end)),
                    Err(e) => Err(e),
                }
            } else if low == special_type::FORGET {
                match read_varint(s, pos + 1) {
                    Ok((id, end)) => Ok((Data::Forget(id), end)),
                    Err(e) => Err(e),
                }
            } else {
                Err(DecodeFailure::UnknownSpecialType(low))
            }
        } else if tag == data_type::INTEGER {
            let width = (low % 16) as nat;
            if width == 0 {
                Ok((Data::Bool(low >= 16), pos + 1))
            } else if pos + 1 + width > s.len() {
                Err(DecodeFailure::MissingBytes((pos + 1 + width - s.len()) as nat))
            } else {
                let n = le_value(
                    s,
                    pos + 1,
                    pos + 1 + if width < 8 {
                        width
                    } else {
                        8
                    },
                ) as u64;
                if low >= 16 {
                    Ok((Data::Negative(n), pos + 1 + width))
                } else {
                    Ok((Data::Positive(n), pos + 1 + width))
                }
            }
        } else if tag == data_type::FLOAT {
            if pos + 9 > s.len() {
                Err(DecodeFailure::MissingBytes((pos + 9 - s.len()) as nat))
            } else {
                Ok((Data::Float(le_value(s, pos + 1, pos + 9) as u64), pos + 9))
            }
        } else if tag == data_type::STRING {
            match read_length(s, pos) {
                Ok((len, next)) => match read_text(s, next, len as nat) {
                    Ok(t) => Ok((Data::Text(t), next + len as nat)),
                    Err(e) => Err(e),
                },
                Err(e) => Err(e),
            }
        } else if tag == data_type::ARRAY {
            match read_length(s, pos) {
                Ok((count, next)) => if next + count > s.len() {
                    Err(DecodeFailure::MissingBytes((next + count - s.len()) as nat))
                } else {
                    match decode_items(s, next, count as nat, Seq::empty()) {
                        Ok((list, end)) => Ok((Data::Array(list), end)),
                        Err(e) => Err(e),
                    }
                },
                Err(e) => Err(e),
            }
        } else if tag == data_type::OBJECT {
            match read_length(s, pos) {
                Ok((count, next)) => if next + count > s.len() {
                    Err(DecodeFailure::MissingBytes((next + count - s.len()) as nat))
                } else {
                    match decode_entries(s, next, count as nat, Seq::empty()) {
                        Ok((entries, end)) => Ok((Data::Object(entries), end)),
                        Err(e) => Err(e),
                    }
                },
                Err(e) => Err(e),
            }
        } else if tag == data_type::ALIAS {
            match read_length(s, pos) {
                Ok((id, next)) => Ok((Data::Alias(id), next)),
                Err(e) => Err(e),
            }
        } else {
            Err(DecodeFailure::UnknownDataType(tag))
        }
    }
}

/// What decoding `s` gives: the value at its front and the number of bytes
/// that the value takes, or why there is none.
pub open spec fn decode_spec(s: Seq<u8>) -> Result<(Data, nat), DecodeFailure> {
    decode_at(s, 0)
}

/// The exec form of [`flag_threshold`].
fn threshold_of(bits: u8) -> (r: u64)
    requires
        1 <= bits <= 8,
    ensures
        r == flag_threshold(bits),
{
    if bits == 1 {
        1
    } else if bits == 2 {
        2
    } else if bits == 3 {
        4
    } else if bits == 4 {
        8
    } else if bits == 5 {
        16
    } else if bits == 6 {
        32
    } else if bits == 7 {
        64
    } else {
        128
    }
}

/// Appends `bytes` to `out`.
fn append(out: &mut Vec<u8>, bytes: &[u8])
    ensures
        final(out)@ == old(out)@ + bytes@,
{
    out.extend_from_slice(bytes);
    proof {
        assert(out@ =~= old(out)@ + bytes@);
    }
}

/// The magnitude `n` in the least of 1, 2, 4 and 8 bytes that holds it,
/// lowest byte first.
pub fn encode_compact_u64(n: u64) -> (ret: Vec<u8>)
    ensures
        ret@ == le_bytes(n as nat, compact_width(n)),
        ret@.len() == compact_width(n),
{
    let w: usize = if n <= 0xFF {
        1
    } else if n <= 0xFFFF {
        2
    } else if n <= 0xFFFF_FFFF {
        4
    } else {
        8
    };
    let mut ret: Vec<u8> = Vec::new();
    let mut cur: u64 = n;
    let mut i: usize = 0;
    while i < w
        invariant
            i <= w == compact_width(n),
            ret@.len() == i,
            ret@ + le_bytes(cur as nat, (w - i) as nat) == le_bytes(n as nat, w as nat),
        decreases w - i,
    {
        let ghost before = ret@;
        ret.push((cur % 256) as u8);
        proof {
            let rest = le_bytes((cur / 256) as nat, (w - i - 1) as nat);
            assert(le_bytes(cur as nat, (w - i) as nat) == seq![(cur % 256) as u8] + rest);
            assert(ret@ + rest =~= before + (seq![(cur % 256) as u8] + rest));
        }
        cur = cur / 256;
        i += 1;
    }
    proof {
        assert(ret@ + le_bytes(cur as nat, 0) =~= ret@);
    }
    ret
}

/// Splits the length or identifier `n` between a flag of `max_flag_bit` bits
/// for the header and the bytes that follow the header.
pub fn encode_data_type_length(n: u64, max_flag_bit: u8) -> (ret: (u8, Vec<u8>))
    requires
        1 <= max_flag_bit <= 8,
    ensures
        ret.0 == length_flag(n, max_flag_bit),
        ret.1@ == length_tail(n, max_flag_bit),
        ret.0 < 2 * flag_threshold(max_flag_bit),
        ret.1@.len() <= 10,
{
    let threshold: u64 = threshold_of(max_flag_bit);
    if n < threshold {
        (n as u8, Vec::new())
    } else {
        let rest: u64 = n - threshold;
        ((threshold + rest % threshold) as u8, varint::encode(rest / threshold))
    }
}

impl EncodedData {
    /// The bytes of the value.
    pub fn encode(&self) -> (ret: Vec<u8>)
        ensures
            ret@ == encode_spec(self@),
    {
        let mut ret: Vec<u8> = Vec::new();
        self.encode_into(&mut ret);
        proof {
            assert(Seq::<u8>::empty() + encode_spec(self@) =~= encode_spec(self@));
        }
        ret
    }

    /// Appends the bytes of the value to `out`.
    pub fn encode_into(&self, out: &mut Vec<u8>)
        ensures
            final(out)@ == old(out)@ + encode_spec(self@),
        decreases self,
    {
        let ghost start = out@;
        match self {
            EncodedData::Special(EncodedSpecial::Absent) => {
                out.push(data_type::SPECIAL * 32 + special_type::NONE);
                proof {
                    assert(out@ =~= start + encode_spec(self@));
                }
            },
            EncodedData::Special(EncodedSpecial::Null) => {
                out.push(data_type::SPECIAL * 32 + special_type::NULL);
                proof {
                    assert(out@ =~= start + encode_spec(self@));
                }
            },
            EncodedData::Special(EncodedSpecial::Define(o)) => {
                out.push(data_type::SPECIAL * 32 + special_type::DEFINE);
                (**o).encode_into(out);
                proof {
                    assert(out@ =~= start + encode_spec(self@));
                }
            },
            EncodedData::Special(EncodedSpecial::Forget(id)) => {
                out.push(data_type::SPECIAL * 32 + special_type::FORGET);
                let tail: Vec<u8> = varint::encode(*id);
                append(out, tail.as_slice());
                proof {
                    assert(out@ =~= start + encode_spec(self@));
                }
            },
            EncodedData::Integer(EncodedInteger::Positive(n)) => {
                let encoded: Vec<u8> = encode_compact_u64(*n);
                out.push(data_type::INTEGER * 32 + encoded.len() as u8);
                append(out, encoded.as_slice());
                proof {
                    assert(out@ =~= start + encode_spec(self@));
                }
            },
            EncodedData::Integer(EncodedInteger::Negative(n)) => {
                let encoded: Vec<u8> = encode_compact_u64(*n);
                out.push(data_type::INTEGER * 32 + 16 + encoded.len() as u8);
                append(out, encoded.as_slice());
                proof {
                    assert(out@ =~= start + encode_spec(self@));
                }
            },
            EncodedData::Integer(EncodedInteger::Bool(b)) => {
                let flag: u8 = if *b {
                    16
                } else {
                    0
                };
                out.push(data_type::INTEGER * 32 + flag);
                proof {
                    assert(out@ =~= start + encode_spec(self@));
                }
            },
            EncodedData::Float(bits) => {
                out.push(data_type::FLOAT * 32 + 8);
                let mut cur: u64 = *bits;
                let mut i: usize = 0;
                while i < 8
                    invariant
                        i <= 8,
                        out@.len() == start.len() + 1 + i,
                        out@ + le_bytes(cur as nat, (8 - i) as nat) == start + seq![
                            header(data_type::FLOAT, 8),
                        ] + le_bytes(*bits as nat, 8),
                    decreases 8 - i,
                {
                    let ghost before = out@;
                    out.push((cur % 256) as u8);
                    proof {
                        let rest = le_bytes((cur / 256) as nat, (8 - i - 1) as nat);
                        assert(le_bytes(cur as nat, (8 - i) as nat) == seq![(cur % 256) as u8]
                            + rest);
                        assert(out@ + rest =~= before + (seq![(cur % 256) as u8] + rest));
                    }
                    cur = cur / 256;
                    i += 1;
                }
                proof {
                    assert(out@ + le_bytes(cur as nat, 0) =~= out@);
                    assert(out@ =~= start + encode_spec(self@));
                }
            },
            EncodedData::String(s) => {
                let bytes: &[u8] = s.as_str().as_bytes();
                let (flag, tail) = encode_data_type_length(bytes.len() as u64, 5);
                out.push(data_type::STRING * 32 + flag);
                append(out, tail.as_slice());
                append(out, bytes);
                proof {
                    assert(out@ =~= start + encode_spec(self@));
                }
            },
            EncodedData::Array(list) => {
                let (flag, tail) = encode_data_type_length(list.len() as u64, 5);
                out.push(data_type::ARRAY * 32 + flag);
                append(out, tail.as_slice());
                let ghost head = out@;
                let ghost items = self@->Array_0;
                let mut i: usize = 0;
                while i < list.len()
                    invariant
                        self is Array && self->Array_0 == *list,
                        items == self@->Array_0,
                        i <= list.len(),
                        out@ == head + encode_items(items, i as nat),
                    decreases list.len() - i,
                {
                    proof {
                        assert(decreases_to!(*list => list[i as int]));
                        assert(decreases_to!(*self => self->Array_0));
                        assert(items[i as int] == list[i as int]@);
                    }
                    list[i].encode_into(out);
                    proof {
                        assert(out@ =~= head + encode_items(items, (i + 1) as nat));
                    }
                    i += 1;
                }
                proof {
                    assert(out@ =~= start + encode_spec(self@));
                }
            },
            EncodedData::Object(entries) => {
                let (flag, tail) = encode_data_type_length(entries.len() as u64, 5);
                out.push(data_type::OBJECT * 32 + flag);
                append(out, tail.as_slice());
                let ghost head = out@;
                let ghost items = self@->Object_0;
                let mut i: usize = 0;
                while i < entries.len()
                    invariant
                        self is Object && self->Object_0 == *entries,
                        items == self@->Object_0,
                        i <= entries.len(),
                        out@ == head + encode_entries(items, i as nat),
                    decreases entries.len() - i,
                {
                    proof {
                        assert(decreases_to!(*entries => entries[i as int]));
                        assert(decreases_to!(*self => self->Object_0));
                        assert(items[i as int] == (entries[i as int].0@, entries[i as int].1@));
                    }
                    let key: &[u8] = entries[i].0.as_str().as_bytes();
                    let key_length: Vec<u8> = varint::encode(key.len() as u64);
                    append(out, key_length.as_slice());
                    append(out, key);
                    entries[i].1.encode_into(out);
                    proof {
                        let e = items[i as int];
                        assert(key@ == encode_utf8(e.0));
                        assert(encode_entries(items, (i + 1) as nat) == encode_entries(
                            items,
                            i as nat,
                        ) + encode_entry(e));
                        assert(out@ =~= head + encode_entries(items, i as nat) + (
                        varint::encode_spec(key@.len() as u64) + key@ + encode_spec(e.1)));
                        assert(out@ =~= head + encode_entries(items, (i + 1) as nat));
                    }
                    i += 1;
                }
                proof {
                    assert(out@ =~= start + encode_spec(self@));
                }
            },
            EncodedData::Alias(id) => {
                let (flag, tail) = encode_data_type_length(*id, 5);
                out.push(data_type::ALIAS * 32 + flag);
                append(out, tail.as_slice());
                proof {
                    assert(out@ =~= start + encode_spec(self@));
                }
            },
        }
    }
}

/// Calls `std::str::from_utf8` and copies the text that it accepts into a
/// `String`. Trusted: the call accepts exactly the bytes that are valid UTF-8,
/// and the text then holds the characters that those bytes encode.
#[verifier::external_body]
fn text_from_utf8(bytes: &[u8]) -> (r: Result<String, std::str::Utf8Error>)
    ensures
        r is Ok <==> valid_utf8(bytes@),
        r matches Ok(t) ==> t@ == decode_utf8(bytes@),
{
    match std::str::from_utf8(bytes) {
        Ok(t) => Ok(t.to_string()),
        Err(e) => Err(e),
    }
}

/// Reads the number that the `size` bytes from `pos` hold, lowest byte first.
/// Of more than eight bytes the first eight count.
pub fn decode_compact_u64(data: &[u8], pos: usize, size: u8) -> (n: u64)
    requires
        pos + size <= data@.len(),
    ensures
        n == le_value(
            data@,
            pos as nat,
            (pos + if size < 8 {
                size
            } else {
                8
            }) as nat,
        ),
{
    let width: usize = if size < 8 {
        size as usize
    } else {
        8
    };
    let mut n: u64 = 0;
    let mut i: usize = width;
    while i > 0
        invariant
            i <= width <= 8,
            pos + width <= data.len(),
            n == le_value(data@, (pos + i) as nat, (pos + width) as nat),
            n < pow256((width - i) as nat),
        decreases i,
    {
        i -= 1;
        n = n * 256 + data[pos + i] as u64;
    }
    n
}

/// Reads the variable-length integer at `pos`.
fn read_varint_at(data: &[u8], pos: usize) -> (r: Result<(u64, usize), DecodeError>)
    requires
        pos <= data@.len(),
    ensures
        match r {
            Ok((v, next)) => read_varint(data@, pos as nat) == Ok::<(u64, nat), DecodeFailure>(
                (v, next as nat),
            ) && pos < next <= data.len(),
            Err(e) => read_varint(data@, pos as nat) == Err::<(u64, nat), DecodeFailure>(e@),
        },
{
    match varint::decode(slice_subrange(data, pos, data.len())) {
        Ok((v, nb)) => Ok((v, pos + nb as usize)),
        Err(varint::DecodeError::MissingBytes) => Err(DecodeError::MissingBytes(1)),
        Err(varint::DecodeError::ValueTooBig) => Err(DecodeError::VarintTooBig),
    }
}

/// Reads the length or identifier that starts in the header byte at `pos`.
fn read_length_at(data: &[u8], pos: usize) -> (r: Result<(u64, usize), DecodeError>)
    requires
        pos < data@.len(),
    ensures
        match r {
            Ok((v, next)) => read_length(data@, pos as nat) == Ok::<(u64, nat), DecodeFailure>(
                (v, next as nat),
            ) && pos < next <= data.len(),
            Err(e) => read_length(data@, pos as nat) == Err::<(u64, nat), DecodeFailure>(e@),
        },
{
    let low: u8 = data[pos] % 16;
    if data[pos] % 32 < 16 {
        Ok((low as u64, pos + 1))
    } else {
        match read_varint_at(data, pos + 1) {
            Ok((high, next)) => {
                if high <= (u64::MAX - 31) / 16 {
                    Ok((high * 16 + low as u64 + 16, next))
                } else {
                    Err(DecodeError::VarintTooBig)
                }
            },
            Err(e) => Err(e),
        }
    }
}

/// Reads the text in the `len` bytes from `start`.
fn read_text_at(data: &[u8], start: usize, len: u64) -> (r: Result<String, DecodeError>)
    requires
        start <= data@.len(),
    ensures
        match r {
            Ok(t) => read_text(data@, start as nat, len as nat) == Ok::<Seq<char>, DecodeFailure>(
                t@,
            ) && start + len <= data.len() && encode_utf8(t@).len() == len,
            Err(e) => read_text(data@, start as nat, len as nat) == Err::<
                Seq<char>,
                DecodeFailure,
            >(e@),
        },
{
    let remaining: u64 = (data.len() - start) as u64;
    if remaining < len {
        return Err(DecodeError::MissingBytes(len - remaining));
    }
    proof {
        broadcast use decode_utf8_encode_utf8;

    }
    match text_from_utf8(slice_subrange(data, start, start + len as usize)) {
        Ok(t) => Ok(t),
        Err(e) => Err(DecodeError::BadUtf8(e)),
    }
}

/// Whether one of `entries` has the key `key`.
fn contains_key(entries: &Vec<(String, EncodedData)>, key: &String) -> (r: bool)
    ensures
        r == has_key(entry_views(entries@), key@),
{
    let mut i: usize = 0;
    while i < entries.len()
        invariant
            i <= entries.len(),
            forall|j: int| 0 <= j < i ==> (#[trigger] entries[j]).0@ != key@,
        decreases entries.len() - i,
    {
        if entries[i].0 == *key {
            proof {
                assert(entry_views(entries@)[i as int].0 == key@);
            }
            return true;
        }
        i += 1;
    }
    proof {
        assert forall|j: int| 0 <= j < entries.len() implies (#[trigger] entry_views(
            entries@,
        )[j]).0 != key@ by {
            assert(entries[j].0@ != key@);
        }
    }
    false
}

impl EncodedData {
    /// Decodes the value at the front of `data` and says how many bytes it
    /// takes. Bytes after those are not looked at.
    pub fn decode(data: &[u8]) -> (r: Result<(Self, usize), DecodeError>)
        ensures
            match r {
                Ok((v, size)) => decode_spec(data@) == Ok::<(Data, nat), DecodeFailure>(
                    (v@, size as nat),
                ) && 0 < size <= data@.len() && v@.well_formed(),
                Err(e) => decode_spec(data@) == Err::<(Data, nat), DecodeFailure>(e@),
            },
    {
        Self::decode_from(data, 0)
    }

    /// Decodes the `count` values that start at `start`.
    fn decode_list(data: &[u8], start: usize, count: u64) -> (r: Result<
        (Vec<EncodedData>, usize),
        DecodeError,
    >)
        requires
            start <= data@.len(),
        ensures
            match r {
                Ok((list, end)) => decode_items(data@, start as nat, count as nat, Seq::empty())
                    == Ok::<(Seq<Data>, nat), DecodeFailure>((item_views(list@), end as nat))
                    && start <= end <= data@.len() && Data::Array(item_views(list@)).well_formed(),
                Err(e) => decode_items(data@, start as nat, count as nat, Seq::empty()) == Err::<
                    (Seq<Data>, nat),
                    DecodeFailure,
                >(e@),
            },
        decreases data@.len() - start, 1nat,
    {
        let mut list: Vec<EncodedData> = Vec::new();
        let mut cur: usize = start;
        let mut i: u64 = 0;
        proof {
            assert(item_views(list@) =~= Seq::empty());
        }
        while i < count
            invariant
                start <= cur <= data@.len(),
                i <= count,
                list@.len() == i,
                forall|j: int| 0 <= j < list@.len() ==> (#[trigger] item_views(list@)[j]).well_formed(),
                decode_items(data@, start as nat, count as nat, Seq::empty()) == decode_items(
                    data@,
                    cur as nat,
                    (count - i) as nat,
                    item_views(list@),
                ),
            decreases count - i,
        {
            match Self::decode_from(data, cur) {
                Ok((o, end)) => {
                    proof {
                        assert(item_views(list@.push(o)) =~= item_views(list@).push(o@));
                        let before = item_views(list@);
                        let after = before.push(o@);
                        assert forall|j: int| 0 <= j < after.len() implies (
                        #[trigger] after[j]).well_formed() by {
                            if j < before.len() {
                                assert(before[j].well_formed());
                            }
                        }
                    }
                    list.push(o);
                    cur = end;
                },
                Err(e) => {
                    return Err(e);
                },
            }
            i += 1;
        }
        Ok((list, cur))
    }

    /// Decodes the `count` entries of an object that start at `start`.
    fn decode_entry_list(data: &[u8], start: usize, count: u64) -> (r: Result<
        (Vec<(String, EncodedData)>, usize),
        DecodeError,
    >)
        requires
            start <= data@.len(),
        ensures
            match r {
                Ok((entries, end)) => decode_entries(
                    data@,
                    start as nat,
                    count as nat,
                    Seq::empty(),
                ) == Ok::<(Seq<(Seq<char>, Data)>, nat), DecodeFailure>(
                    (entry_views(entries@), end as nat),
                ) && start <= end <= data@.len() && Data::Object(
                    entry_views(entries@),
                ).well_formed(),
                Err(e) => decode_entries(data@, start as nat, count as nat, Seq::empty()) == Err::<
                    (Seq<(Seq<char>, Data)>, nat),
                    DecodeFailure,
                >(e@),
            },
        decreases data@.len() - start, 1nat,
    {
        let mut entries: Vec<(String, EncodedData)> = Vec::new();
        let mut cur: usize = start;
        let mut i: u64 = 0;
        proof {
            assert(entry_views(entries@) =~= Seq::empty());
        }
        while i < count
            invariant
                start <= cur <= data@.len(),
                i <= count,
                entries@.len() == i,
                distinct_keys(entry_views(entries@)),
                forall|j: int|
                    0 <= j < entries@.len() ==> encode_utf8(
                        (#[trigger] entry_views(entries@)[j]).0,
                    ).len() <= u64::MAX && entry_views(entries@)[j].1.well_formed(),
                decode_entries(data@, start as nat, count as nat, Seq::empty()) == decode_entries(
                    data@,
                    cur as nat,
                    (count - i) as nat,
                    entry_views(entries@),
                ),
            decreases count - i,
        {
            let (k_length, k_start) = match read_varint_at(data, cur) {
                Ok(e) => e,
                Err(e) => {
                    return Err(e);
                },
            };
            let k: String = match read_text_at(data, k_start, k_length) {
                Ok(k) => k,
                Err(e) => {
                    return Err(e);
                },
            };
            if contains_key(&entries, &k) {
                return Err(DecodeError::DuplicateKey(k));
            }
            match Self::decode_from(data, k_start + k_length as usize) {
                Ok((o, end)) => {
                    proof {
                        assert(entry_views(entries@.push((k, o))) =~= entry_views(entries@).push(
                            (k@, o@),
                        ));
                        let before = entry_views(entries@);
                        let after = before.push((k@, o@));
                        assert forall|a: int, b: int| 0 <= a < b < after.len() implies (
                        #[trigger] after[a]).0 != (#[trigger] after[b]).0 by {
                            if b == before.len() {
                                assert(before[a].0 != k@);
                            } else {
                                assert(before[a].0 != before[b].0);
                            }
                        }
                        assert forall|j: int| 0 <= j < after.len() implies encode_utf8(
                            (#[trigger] after[j]).0,
                        ).len() <= u64::MAX && after[j].1.well_formed() by {
                            if j < before.len() {
                                assert(before[j].1.well_formed());
                            }
                        }
                    }
                    entries.push((k, o));
                    cur = end;
                },
                Err(e) => {
                    return Err(e);
                },
            }
            i += 1;
        }
        Ok((entries, cur))
    }

    /// Decodes the value that starts at `pos` and says where the bytes after
    /// it start.
    pub fn decode_from(data: &[u8], pos: usize) -> (r: Result<(Self, usize), DecodeError>)
        requires
            pos <= data@.len(),
        ensures
            match r {
                Ok((v, end)) => decode_at(data@, pos as nat) == Ok::<(Data, nat), DecodeFailure>(
                    (v@, end as nat),
                ) && pos < end <= data@.len() && v@.well_formed(),
                Err(e) => decode_at(data@, pos as nat) == Err::<(Data, nat), DecodeFailure>(e@),
            },
        decreases data@.len() - pos, 0nat,
    {
        if pos >= data.len() {
            return Err(DecodeError::MissingBytes(1));
        }
        let ctrl: u8 = data[pos];
        let data_type_value: u8 = ctrl / 32;
        let low: u8 = ctrl % 32;
        let data_type = match DataType::from(data_type_value) {
            Some(data_type) => data_type,
            None => {
                return Err(DecodeError::UnknownDataType(data_type_value));
            },
        };
        let remaining: usize = data.len() - pos - 1;
        match data_type {
            DataType::Special => {
                let special_type = match SpecialType::from(low) {
                    Some(special_type) => special_type,
                    None => {
                        return Err(DecodeError::UnknownSpecialType(low));
                    },
                };
                match special_type {
                    SpecialType::Absent => Ok((EncodedData::Special(EncodedSpecial::Absent), pos + 1)),
                    SpecialType::Null => Ok((EncodedData::Special(EncodedSpecial::Null), pos + 1)),
                    SpecialType::Define => match Self::decode_from(data, pos + 1) {
                        Ok((object, end)) => Ok(
                            (EncodedData::Special(EncodedSpecial::Define(Box::new(object))), end),
                        ),
                        Err(e) => Err(e),
                    },
                    SpecialType::Forget => match read_varint_at(data, pos + 1) {
                        Ok((id, end)) => Ok((EncodedData::Special(EncodedSpecial::Forget(id)), end)),
                        Err(e) => Err(e),
                    },
                }
            },
            DataType::Integer => {
                let length: u8 = low % 16;
                let negative: bool = low >= 16;
                if length == 0 {
                    Ok((EncodedData::Integer(EncodedInteger::Bool(negative)), pos + 1))
                } else if remaining < length as usize {
                    Err(DecodeError::MissingBytes((length as usize - remaining) as u64))
                } else {
                    let n: u64 = decode_compact_u64(data, pos + 1, length);
                    if negative {
                        Ok(
                            (
                                EncodedData::Integer(EncodedInteger::Negative(n)),
                                pos + 1 + length as usize,
                            ),
                        )
                    } else {
                        Ok(
                            (
                                EncodedData::Integer(EncodedInteger::Positive(n)),
                                pos + 1 + length as usize,
                            ),
                        )
                    }
                }
            },
            DataType::Float => {
                if remaining < 8 {
                    Err(DecodeError::MissingBytes((8 - remaining) as u64))
                } else {
                    let bits: u64 = decode_compact_u64(data, pos + 1, 8);
                    Ok((EncodedData::Float(bits), pos + 9))
                }
            },
            DataType::String => {
                let (length, next) = match read_length_at(data, pos) {
                    Ok(e) => e,
                    Err(e) => {
                        return Err(e);
                    },
                };
                match read_text_at(data, next, length) {
                    Ok(s) => Ok((EncodedData::String(s), next + length as usize)),
                    Err(e) => Err(e),
                }
            },
            DataType::Array => {
                let (length, next) = match read_length_at(data, pos) {
                    Ok(e) => e,
                    Err(e) => {
                        return Err(e);
                    },
                };
                if ((data.len() - next) as u64) < length {
                    return Err(DecodeError::MissingBytes(length - (data.len() - next) as u64));
                }
                match Self::decode_list(data, next, length) {
                    Ok((list, end)) => {
                        let ret = EncodedData::Array(list);
                        proof {
                            assert(ret@->Array_0 =~= item_views(list@));
                        }
                        Ok((ret, end))
                    },
                    Err(e) => Err(e),
                }
            },
            DataType::Object => {
                let (length, next) = match read_length_at(data, pos) {
                    Ok(e) => e,
                    Err(e) => {
                        return Err(e);
                    },
                };
                if ((data.len() - next) as u64) < length {
                    return Err(DecodeError::MissingBytes(length - (data.len() - next) as u64));
                }
                match Self::decode_entry_list(data, next, length) {
                    Ok((entries, end)) => {
                        let ret = EncodedData::Object(entries);
                        proof {
                            assert(ret@->Object_0 =~= entry_views(entries@));
                        }
                        Ok((ret, end))
                    },
                    Err(e) => Err(e),
                }
            },
            DataType::Alias => match read_length_at(data, pos) {
                Ok((id, next)) => Ok((EncodedData::Alias(id), next)),
                Err(e) => Err(e),
            },
        }
    }
}

impl EncodedData {
    /// Whether the value is well-formed: whether no object in it holds a key
    /// twice. The lengths of a value in memory always fit.
    pub fn is_well_formed(&self) -> (r: bool)
        ensures
            r == self@.well_formed(),
        decreases self,
    {
        match self {
            EncodedData::Special(EncodedSpecial::Define(o)) => (**o).is_well_formed(),
            EncodedData::String(s) => {
                let bytes: &[u8] = s.as_str().as_bytes();
                let _len: usize = bytes.len();
                true
            },
            EncodedData::Array(list) => {
                let ghost items = self@->Array_0;
                let mut i: usize = 0;
                while i < list.len()
                    invariant
                        self is Array && self->Array_0 == *list,
                        items == self@->Array_0,
                        i <= list.len(),
                        forall|j: int| 0 <= j < i ==> (#[trigger] items[j]).well_formed(),
                    decreases list.len() - i,
                {
                    proof {
                        assert(decreases_to!(*list => list[i as int]));
                        assert(decreases_to!(*self => self->Array_0));
                        assert(items[i as int] == list[i as int]@);
                    }
                    if !list[i].is_well_formed() {
                        return false;
                    }
                    i += 1;
                }
                true
            },
            EncodedData::Object(entries) => {
                let ghost items = self@->Object_0;
                let mut i: usize = 0;
                while i < entries.len()
                    invariant
                        self is Object && self->Object_0 == *entries,
                        items == self@->Object_0,
                        i <= entries.len(),
                        forall|j: int|
                            0 <= j < i ==> encode_utf8((#[trigger] items[j]).0).len() <= u64::MAX
                                && items[j].1.well_formed(),
                        forall|a: int, b: int|
                            0 <= a < b < i ==> (#[trigger] items[a]).0 != (#[trigger] items[b]).0,
                    decreases entries.len() - i,
                {
                    proof {
                        assert(decreases_to!(*entries => entries[i as int]));
                        assert(decreases_to!(*self => self->Object_0));
                        assert(items[i as int] == (entries[i as int].0@, entries[i as int].1@));
                    }
                    let key: &[u8] = entries[i].0.as_str().as_bytes();
                    let _len: usize = key.len();
                    if !entries[i].1.is_well_formed() {
                        return false;
                    }
                    let mut j: usize = 0;
                    while j < i
                        invariant
                            items == self@->Object_0,
                            self is Object && self->Object_0 == *entries,
                            j <= i < entries.len(),
                            forall|a: int| 0 <= a < j ==> (#[trigger] items[a]).0 != items[i as int].0,
                        decreases i - j,
                    {
                        if entries[j].0 == entries[i].0 {
                            proof {
                                assert(items[j as int].0 == items[i as int].0);
                            }
                            return false;
                        }
                        proof {
                            assert(items[j as int].0 == entries[j as int].0@);
                        }
                        j += 1;
                    }
                    i += 1;
                }
                proof {
                    assert(distinct_keys(items));
                }
                true
            },
            _ => true,
        }
    }
}

impl EncodedData {
    /// A copy of the value.
    pub fn duplicate(&self) -> (r: Self)
        ensures
            r@ == self@,
        decreases self,
    {
        match self {
            EncodedData::Special(EncodedSpecial::Absent) => EncodedData::Special(
                EncodedSpecial::Absent,
            ),
            EncodedData::Special(EncodedSpecial::Null) => EncodedData::Special(
                EncodedSpecial::Null,
            ),
            EncodedData::Special(EncodedSpecial::Define(o)) => EncodedData::Special(
                EncodedSpecial::Define(Box::new((**o).duplicate())),
            ),
            EncodedData::Special(EncodedSpecial::Forget(id)) => EncodedData::Special(
                EncodedSpecial::Forget(*id),
            ),
            EncodedData::Integer(EncodedInteger::Positive(n)) => EncodedData::Integer(
                EncodedInteger::Positive(*n),
            ),
            EncodedData::Integer(EncodedInteger::Negative(n)) => EncodedData::Integer(
                EncodedInteger::Negative(*n),
            ),
            EncodedData::Integer(EncodedInteger::Bool(b)) => EncodedData::Integer(
                EncodedInteger::Bool(*b),
            ),
            EncodedData::Float(bits) => EncodedData::Float(*bits),
            EncodedData::String(s) => EncodedData::String(s.clone()),
            EncodedData::Array(list) => {
                let mut copy: Vec<EncodedData> = Vec::new();
                let mut i: usize = 0;
                while i < list.len()
                    invariant
                        self is Array && self->Array_0 == *list,
                        i <= list.len(),
                        copy.len() == i,
                        forall|j: int| 0 <= j < i ==> (#[trigger] copy[j])@ == list[j]@,
                    decreases list.len() - i,
                {
                    proof {
                        assert(decreases_to!(*list => list[i as int]));
                        assert(decreases_to!(*self => self->Array_0));
                    }
                    copy.push(list[i].duplicate());
                    i += 1;
                }
                let r = EncodedData::Array(copy);
                proof {
                    assert(r@->Array_0 =~= self@->Array_0);
                }
                r
            },
            EncodedData::Object(entries) => {
                let mut copy: Vec<(String, EncodedData)> = Vec::new();
                let mut i: usize = 0;
                while i < entries.len()
                    invariant
                        self is Object && self->Object_0 == *entries,
                        i <= entries.len(),
                        copy.len() == i,
                        forall|j: int|
                            0 <= j < i ==> (#[trigger] copy[j]).0@ == entries[j].0@ && copy[j].1@
                                == entries[j].1@,
                    decreases entries.len() - i,
                {
                    proof {
                        assert(decreases_to!(*entries => entries[i as int]));
                        assert(decreases_to!(*self => self->Object_0));
                    }
                    copy.push((entries[i].0.clone(), entries[i].1.duplicate()));
                    i += 1;
                }
                let r = EncodedData::Object(copy);
                proof {
                    assert(r@->Object_0 =~= self@->Object_0);
                }
                r
            },
            EncodedData::Alias(id) => EncodedData::Alias(*id),
        }
    }
}

impl Clone for EncodedData {
    fn clone(&self) -> (r: Self)
        ensures
            r@ == self@,
    {
        self.duplicate()
    }
}

impl Clone for EncodedSpecial {
    fn clone(&self) -> (r: Self)
        ensures
            EncodedData::Special(r)@ == EncodedData::Special(*self)@,
    {
        match self {
            EncodedSpecial::Absent => EncodedSpecial::Absent,
            EncodedSpecial::Null => EncodedSpecial::Null,
            EncodedSpecial::Define(o) => EncodedSpecial::Define(Box::new((**o).duplicate())),
            EncodedSpecial::Forget(id) => EncodedSpecial::Forget(*id),
        }
    }
}

} // verus!
