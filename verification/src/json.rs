//! Conversions between encodable values and JSON values.
//!
//! A JSON value is held here as plain data: a number is a non-negative
//! integer, a negative integer, or the bits of a finite binary64 number.

use crate::encoded_data::{
    decode_spec, distinct_keys, encode_spec, Data, DecodeFailure, EncodedData, EncodedInteger,
    EncodedSpecial,
};
use crate::roundtrip::lemma_roundtrip;
use vstd::utf8::encode_utf8;
use vstd::prelude::*;

verus! {

#[derive(Debug, PartialEq, Eq, Clone, Copy)]
pub enum JsonNumber {
    PosInt(u64),
    /// Always below zero.
    NegInt(i64),
    /// The IEEE-754 bits of a finite number.
    Float(u64),
}

#[derive(Debug, PartialEq)]
pub enum JsonValue {
    Null,
    Bool(bool),
    Number(JsonNumber),
    String(String),
    Array(Vec<JsonValue>),
    /// The entries in the order in which the object lists them.
    Object(Vec<(String, JsonValue)>),
}

/// The mathematical value that a [`JsonValue`] stands for.
pub enum Json {
    Null,
    Bool(bool),
    Number(JsonNumber),
    Text(Seq<char>),
    Array(Seq<Json>),
    Object(Seq<(Seq<char>, Json)>),
}

impl JsonValue {
    /// The value that `self` stands for.
    pub open spec fn model(&self) -> Json
        decreases self,
    {
        match self {
            JsonValue::Null => Json::Null,
            JsonValue::Bool(b) => Json::Bool(*b),
            JsonValue::Number(n) => Json::Number(*n),
            JsonValue::String(s) => Json::Text(s@),
            JsonValue::Array(list) => Json::Array(
                Seq::new(
                    list.len() as nat,
                    |i: int|
                        if 0 <= i < list.len() {
                            list[i].model()
                        } else {
                            Json::Null
                        },
                ),
            ),
            JsonValue::Object(entries) => Json::Object(
                Seq::new(
                    entries.len() as nat,
                    |i: int|
                        if 0 <= i < entries.len() {
                            (entries[i].0@, entries[i].1.model())
                        } else {
                            (Seq::empty(), Json::Null)
                        },
                ),
            ),
        }
    }
}

impl View for JsonValue {
    type V = Json;

    open spec fn view(&self) -> Json {
        self.model()
    }
}

/// Whether the bits are those of a binary64 number that is neither infinite
/// nor NaN: the eleven exponent bits are not all set.
pub open spec fn finite_bits(bits: u64) -> bool {
    (bits / 0x10_0000_0000_0000) % 0x800 != 0x7FF
}

impl JsonNumber {
    /// Whether the number is one that JSON has: a negative integer is below
    /// zero, and a float is finite.
    pub open spec fn valid(self) -> bool {
        match self {
            JsonNumber::PosInt(_) => true,
            JsonNumber::NegInt(n) => n < 0,
            JsonNumber::Float(bits) => finite_bits(bits),
        }
    }
}

impl Json {
    /// Whether the value can be written: every length fits 64 bits and no
    /// object holds a key twice.
    pub open spec fn encodable(self) -> bool
        decreases self,
    {
        match self {
            Json::Text(t) => encode_utf8(t).len() <= u64::MAX,
            Json::Array(list) => list.len() <= u64::MAX && forall|i: int|
                0 <= i < list.len() ==> (#[trigger] list[i]).encodable(),
            Json::Object(entries) => entries.len() <= u64::MAX && (forall|i: int, j: int|
                0 <= i < j < entries.len() ==> (#[trigger] entries[i]).0 != (
                #[trigger] entries[j]).0) && forall|i: int|
                0 <= i < entries.len() ==> encode_utf8((#[trigger] entries[i]).0).len() <= u64::MAX
                    && entries[i].1.encodable(),
            _ => true,
        }
    }

    /// Whether every number in the value is valid.
    pub open spec fn valid(self) -> bool
        decreases self,
    {
        match self {
            Json::Number(n) => n.valid(),
            Json::Array(list) => forall|i: int|
                0 <= i < list.len() ==> (#[trigger] list[i]).valid(),
            Json::Object(entries) => forall|i: int|
                0 <= i < entries.len() ==> (#[trigger] entries[i]).1.valid(),
            _ => true,
        }
    }
}

#[derive(Debug, PartialEq, Eq, Clone, Copy)]
pub enum EncodedDataToJsonError {
    /// The magnitude of a negative integer is above `2^63`.
    NegativeIntegerTooBig(u64),
    /// The bits are those of an infinite number or of a NaN.
    BadFloat(u64),
    UnsupportedAliasDataType,
    UnsupportedNoneDataType,
    UnsupportedDefineDataType,
    UnsupportedForgetDataType,
}

/// The encodable value for a JSON number.
pub open spec fn number_from_json(n: JsonNumber) -> Data {
    match n {
        JsonNumber::PosInt(n) => Data::Positive(n),
        JsonNumber::NegInt(n) => Data::Negative((-n) as u64),
        JsonNumber::Float(bits) => Data::Float(bits),
    }
}

/// The encodable value for a JSON value.
pub open spec fn from_json_spec(j: Json) -> Data
    decreases j,
{
    match j {
        Json::Null => Data::Null,
        Json::Bool(b) => Data::Bool(b),
        Json::Number(n) => number_from_json(n),
        Json::Text(t) => Data::Text(t),
        Json::Array(list) => Data::Array(
            Seq::new(
                list.len(),
                |i: int|
                    if 0 <= i < list.len() {
                        from_json_spec(list[i])
                    } else {
                        Data::Null
                    },
            ),
        ),
        Json::Object(entries) => Data::Object(
            Seq::new(
                entries.len(),
                |i: int|
                    if 0 <= i < entries.len() {
                        (entries[i].0, from_json_spec(entries[i].1))
                    } else {
                        (Seq::empty(), Data::Null)
                    },
            ),
        ),
    }
}

/// The JSON values for `list[0]` to `list[n - 1]`, or the error of the first
/// of them that has none.
pub open spec fn to_json_items(list: Seq<Data>, n: nat) -> Result<Seq<Json>, EncodedDataToJsonError>
    decreases list, n,
{
    if n == 0 || n > list.len() {
        Ok(Seq::empty())
    } else {
        match to_json_items(list, (n - 1) as nat) {
            Ok(done) => match to_json_spec(list[n - 1]) {
                Ok(j) => Ok(done.push(j)),
                Err(e) => Err(e),
            },
            Err(e) => Err(e),
        }
    }
}

/// The JSON entries for the first `n` entries, or the error of the first of
/// them whose value has no JSON value.
pub open spec fn to_json_entries(entries: Seq<(Seq<char>, Data)>, n: nat) -> Result<
    Seq<(Seq<char>, Json)>,
    EncodedDataToJsonError,
>
    decreases entries, n,
{
    if n == 0 || n > entries.len() {
        Ok(Seq::empty())
    } else {
        match to_json_entries(entries, (n - 1) as nat) {
            Ok(done) => match to_json_entry(entries[n - 1]) {
                Ok(j) => Ok(done.push((entries[n - 1].0, j))),
                Err(e) => Err(e),
            },
            Err(e) => Err(e),
        }
    }
}

/// The JSON value for the value of one entry.
pub open spec fn to_json_entry(entry: (Seq<char>, Data)) -> Result<Json, EncodedDataToJsonError>
    decreases entry, 0nat,
{
    to_json_spec(entry.1)
}

/// The JSON value for an encodable value, or why it has none.
pub open spec fn to_json_spec(v: Data) -> Result<Json, EncodedDataToJsonError>
    decreases v, 0nat,
{
    match v {
        Data::Null => Ok(Json::Null),
        Data::Absent => Err(EncodedDataToJsonError::UnsupportedNoneDataType),
        Data::Define(_) => Err(EncodedDataToJsonError::UnsupportedDefineDataType),
        Data::Forget(_) => Err(EncodedDataToJsonError::UnsupportedForgetDataType),
        Data::Alias(_) => Err(EncodedDataToJsonError::UnsupportedAliasDataType),
        Data::Bool(b) => Ok(Json::Bool(b)),
        Data::Positive(n) => Ok(Json::Number(JsonNumber::PosInt(n))),
        Data::Negative(n) => if n == 0 {
            Ok(Json::Number(JsonNumber::PosInt(0)))
        } else if n <= 0x8000_0000_0000_0000 {
            Ok(Json::Number(JsonNumber::NegInt((-(n as int)) as i64)))
        } else {
            Err(EncodedDataToJsonError::NegativeIntegerTooBig(n))
        },
        Data::Float(bits) => if finite_bits(bits) {
            Ok(Json::Number(JsonNumber::Float(bits)))
        } else {
            Err(EncodedDataToJsonError::BadFloat(bits))
        },
        Data::Text(t) => Ok(Json::Text(t)),
        Data::Array(list) => match to_json_items(list, list.len()) {
            Ok(items) => Ok(Json::Array(items)),
            Err(e) => Err(e),
        },
        Data::Object(entries) => match to_json_entries(entries, entries.len()) {
            Ok(items) => Ok(Json::Object(items)),
            Err(e) => Err(e),
        },
    }
}

/// The JSON values of a list, one by one.
pub open spec fn json_views(list: Seq<JsonValue>) -> Seq<Json> {
    Seq::new(list.len(), |i: int| list[i]@)
}

/// The entries of a JSON object as keys and values.
pub open spec fn json_entry_views(entries: Seq<(String, JsonValue)>) -> Seq<(Seq<char>, Json)> {
    Seq::new(entries.len(), |i: int| (entries[i].0@, entries[i].1@))
}

impl EncodedData {
    /// The encodable value for a JSON value: null, booleans, strings, arrays
    /// and objects as they are, a non-negative integer as `Positive`, a
    /// negative one as `Negative` with its magnitude, any other number as
    /// `Float`.
    pub fn from_json(v: &JsonValue) -> (r: EncodedData)
        ensures
            r@ == from_json_spec(v@),
        decreases v,
    {
        match v {
            JsonValue::Null => EncodedData::Special(EncodedSpecial::Null),
            JsonValue::Bool(b) => EncodedData::Integer(EncodedInteger::Bool(*b)),
            JsonValue::Number(JsonNumber::PosInt(n)) => EncodedData::Integer(
                EncodedInteger::Positive(*n),
            ),
            JsonValue::Number(JsonNumber::NegInt(n)) => {
                let magnitude: u64 = if *n == i64::MIN {
                    0x8000_0000_0000_0000
                } else if *n < 0 {
                    (-*n) as u64
                } else {
                    #[verifier::truncate]
                    ((-(*n as i128)) as u64)
                };
                EncodedData::Integer(EncodedInteger::Negative(magnitude))
            },
            JsonValue::Number(JsonNumber::Float(bits)) => EncodedData::Float(*bits),
            JsonValue::String(s) => EncodedData::String(s.clone()),
            JsonValue::Array(list) => {
                let mut out: Vec<EncodedData> = Vec::new();
                let mut i: usize = 0;
                while i < list.len()
                    invariant
                        v is Array && v->Array_0 == *list,
                        i <= list.len(),
                        out.len() == i,
                        forall|j: int| 0 <= j < i ==> (#[trigger] out[j])@ == from_json_spec(list[j]@),
                    decreases list.len() - i,
                {
                    proof {
                        assert(decreases_to!(*list => list[i as int]));
                        assert(decreases_to!(*v => v->Array_0));
                    }
                    out.push(EncodedData::from_json(&list[i]));
                    i += 1;
                }
                let r = EncodedData::Array(out);
                proof {
                    assert(r@->Array_0 =~= from_json_spec(v@)->Array_0);
                }
                r
            },
            JsonValue::Object(entries) => {
                let mut out: Vec<(String, EncodedData)> = Vec::new();
                let mut i: usize = 0;
                while i < entries.len()
                    invariant
                        v is Object && v->Object_0 == *entries,
                        i <= entries.len(),
                        out.len() == i,
                        forall|j: int|
                            0 <= j < i ==> (#[trigger] out[j]).0@ == entries[j].0@ && out[j].1@
                                == from_json_spec(entries[j].1@),
                    decreases entries.len() - i,
                {
                    proof {
                        assert(decreases_to!(*entries => entries[i as int]));
                        assert(decreases_to!(*v => v->Object_0));
                    }
                    out.push((entries[i].0.clone(), EncodedData::from_json(&entries[i].1)));
                    i += 1;
                }
                let r = EncodedData::Object(out);
                proof {
                    assert(r@->Object_0 =~= from_json_spec(v@)->Object_0);
                }
                r
            },
        }
    }

    /// The JSON value for the value, or why it has none: the absence marker,
    /// definitions, evictions and aliases have none, nor has a negative
    /// integer whose magnitude is above `2^63`, nor a number that is not
    /// finite. In an array or an object the first such value decides.
    pub fn to_json(&self) -> (r: Result<JsonValue, EncodedDataToJsonError>)
        ensures
            match r {
                Ok(j) => to_json_spec(self@) == Ok::<Json, EncodedDataToJsonError>(j@),
                Err(e) => to_json_spec(self@) == Err::<Json, EncodedDataToJsonError>(e),
            },
        decreases self,
    {
        match self {
            EncodedData::Special(EncodedSpecial::Null) => Ok(JsonValue::Null),
            EncodedData::Special(EncodedSpecial::Absent) => Err(
                EncodedDataToJsonError::UnsupportedNoneDataType,
            ),
            EncodedData::Special(EncodedSpecial::Define(_)) => Err(
                EncodedDataToJsonError::UnsupportedDefineDataType,
            ),
            EncodedData::Special(EncodedSpecial::Forget(_)) => Err(
                EncodedDataToJsonError::UnsupportedForgetDataType,
            ),
            EncodedData::Integer(EncodedInteger::Bool(b)) => Ok(JsonValue::Bool(*b)),
            EncodedData::Integer(EncodedInteger::Positive(n)) => Ok(
                JsonValue::Number(JsonNumber::PosInt(*n)),
            ),
            EncodedData::Integer(EncodedInteger::Negative(n)) => {
                if *n == 0 {
                    Ok(JsonValue::Number(JsonNumber::PosInt(0)))
                } else if *n < 0x8000_0000_0000_0000 {
                    Ok(JsonValue::Number(JsonNumber::NegInt(-(*n as i64))))
                } else if *n == 0x8000_0000_0000_0000 {
                    Ok(JsonValue::Number(JsonNumber::NegInt(i64::MIN)))
                } else {
                    Err(EncodedDataToJsonError::NegativeIntegerTooBig(*n))
                }
            },
            EncodedData::Float(bits) => {
                if (*bits / 0x10_0000_0000_0000) % 0x800 != 0x7FF {
                    Ok(JsonValue::Number(JsonNumber::Float(*bits)))
                } else {
                    Err(EncodedDataToJsonError::BadFloat(*bits))
                }
            },
            EncodedData::String(s) => Ok(JsonValue::String(s.clone())),
            EncodedData::Array(list) => {
                let ghost items = self@->Array_0;
                let mut out: Vec<JsonValue> = Vec::new();
                let mut i: usize = 0;
                proof {
                    assert(json_views(out@) =~= Seq::empty());
                }
                while i < list.len()
                    invariant
                        self is Array && self->Array_0 == *list,
                        items == self@->Array_0,
                        i <= list.len(),
                        to_json_items(items, i as nat) == Ok::<Seq<Json>, EncodedDataToJsonError>(
                            json_views(out@),
                        ),
                    decreases list.len() - i,
                {
                    proof {
                        assert(decreases_to!(*list => list[i as int]));
                        assert(decreases_to!(*self => self->Array_0));
                        assert(items[i as int] == list[i as int]@);
                    }
                    match list[i].to_json() {
                        Ok(j) => {
                            proof {
                                assert(json_views(out@.push(j)) =~= json_views(out@).push(j@));
                            }
                            out.push(j);
                        },
                        Err(e) => {
                            proof {
                                lemma_items_error(items, (i + 1) as nat, list.len() as nat);
                            }
                            return Err(e);
                        },
                    }
                    i += 1;
                }
                let r = JsonValue::Array(out);
                proof {
                    assert(r@->Array_0 =~= json_views(out@));
                }
                Ok(r)
            },
            EncodedData::Object(entries) => {
                let ghost items = self@->Object_0;
                let mut out: Vec<(String, JsonValue)> = Vec::new();
                let mut i: usize = 0;
                proof {
                    assert(json_entry_views(out@) =~= Seq::empty());
                }
                while i < entries.len()
                    invariant
                        self is Object && self->Object_0 == *entries,
                        items == self@->Object_0,
                        i <= entries.len(),
                        to_json_entries(items, i as nat) == Ok::<
                            Seq<(Seq<char>, Json)>,
                            EncodedDataToJsonError,
                        >(json_entry_views(out@)),
                    decreases entries.len() - i,
                {
                    proof {
                        assert(decreases_to!(*entries => entries[i as int]));
                        assert(decreases_to!(*self => self->Object_0));
                        assert(items[i as int] == (entries[i as int].0@, entries[i as int].1@));
                    }
                    match entries[i].1.to_json() {
                        Ok(j) => {
                            let k: String = entries[i].0.clone();
                            proof {
                                assert(to_json_entry(items[i as int]) == to_json_spec(
                                    items[i as int].1,
                                ));
                                assert(json_entry_views(out@.push((k, j))) =~= json_entry_views(
                                    out@,
                                ).push((k@, j@)));
                            }
                            out.push((k, j));
                        },
                        Err(e) => {
                            proof {
                                assert(to_json_entry(items[i as int]) == to_json_spec(
                                    items[i as int].1,
                                ));
                                lemma_entries_error(items, (i + 1) as nat, entries.len() as nat);
                            }
                            return Err(e);
                        },
                    }
                    i += 1;
                }
                let r = JsonValue::Object(out);
                proof {
                    assert(r@->Object_0 =~= json_entry_views(out@));
                }
                Ok(r)
            },
            EncodedData::Alias(_) => Err(EncodedDataToJsonError::UnsupportedAliasDataType),
        }
    }
}

proof fn lemma_items_error(list: Seq<Data>, i: nat, n: nat)
    requires
        i <= n <= list.len(),
        to_json_items(list, i) is Err,
    ensures
        to_json_items(list, n) == to_json_items(list, i),
    decreases n - i,
{
    if i < n {
        lemma_items_error(list, i, (n - 1) as nat);
    }
}

proof fn lemma_entries_error(entries: Seq<(Seq<char>, Data)>, i: nat, n: nat)
    requires
        i <= n <= entries.len(),
        to_json_entries(entries, i) is Err,
    ensures
        to_json_entries(entries, n) == to_json_entries(entries, i),
    decreases n - i,
{
    if i < n {
        lemma_entries_error(entries, i, (n - 1) as nat);
    }
}

proof fn lemma_items_back(list: Seq<Json>, n: nat)
    requires
        n <= list.len(),
        forall|i: int| 0 <= i < list.len() ==> to_json_spec(from_json_spec(#[trigger] list[i]))
            == Ok::<Json, EncodedDataToJsonError>(list[i]),
    ensures
        to_json_items(from_json_spec(Json::Array(list))->Array_0, n) == Ok::<
            Seq<Json>,
            EncodedDataToJsonError,
        >(list.subrange(0, n as int)),
    decreases n,
{
    if n > 0 {
        lemma_items_back(list, (n - 1) as nat);
        assert(list.subrange(0, n - 1).push(list[n - 1]) =~= list.subrange(0, n as int));
    } else {
        assert(list.subrange(0, 0) =~= Seq::<Json>::empty());
    }
}

proof fn lemma_entries_back(entries: Seq<(Seq<char>, Json)>, n: nat)
    requires
        n <= entries.len(),
        forall|i: int|
            0 <= i < entries.len() ==> to_json_spec(from_json_spec((#[trigger] entries[i]).1))
                == Ok::<Json, EncodedDataToJsonError>(entries[i].1),
    ensures
        to_json_entries(from_json_spec(Json::Object(entries))->Object_0, n) == Ok::<
            Seq<(Seq<char>, Json)>,
            EncodedDataToJsonError,
        >(entries.subrange(0, n as int)),
    decreases n,
{
    if n > 0 {
        lemma_entries_back(entries, (n - 1) as nat);
        let back = from_json_spec(Json::Object(entries))->Object_0;
        assert(to_json_entry(back[n - 1]) == to_json_spec(back[n - 1].1));
        assert(entries.subrange(0, n - 1).push(entries[n - 1]) =~= entries.subrange(0, n as int));
    } else {
        assert(entries.subrange(0, 0) =~= Seq::<(Seq<char>, Json)>::empty());
    }
}

/// A valid JSON value comes back unchanged from the encodable value that
/// stands for it.
pub proof fn lemma_json_roundtrip(j: Json)
    requires
        j.valid(),
    ensures
        to_json_spec(from_json_spec(j)) == Ok::<Json, EncodedDataToJsonError>(j),
    decreases j,
{
    match j {
        Json::Array(list) => {
            assert forall|i: int| 0 <= i < list.len() implies to_json_spec(
                from_json_spec(#[trigger] list[i]),
            ) == Ok::<Json, EncodedDataToJsonError>(list[i]) by {
                lemma_json_roundtrip(list[i]);
            }
            lemma_items_back(list, list.len());
            assert(list.subrange(0, list.len() as int) =~= list);
        },
        Json::Object(entries) => {
            assert forall|i: int| 0 <= i < entries.len() implies to_json_spec(
                from_json_spec((#[trigger] entries[i]).1),
            ) == Ok::<Json, EncodedDataToJsonError>(entries[i].1) by {
                lemma_json_roundtrip(entries[i].1);
            }
            lemma_entries_back(entries, entries.len());
            assert(entries.subrange(0, entries.len() as int) =~= entries);
        },
        _ => {},
    }
}

/// The encodable value for a JSON value that can be written is well-formed.
pub proof fn lemma_from_json_well_formed(j: Json)
    requires
        j.encodable(),
    ensures
        from_json_spec(j).well_formed(),
    decreases j,
{
    match j {
        Json::Array(list) => {
            let out = from_json_spec(j)->Array_0;
            assert forall|i: int| 0 <= i < out.len() implies (#[trigger] out[i]).well_formed() by {
                lemma_from_json_well_formed(list[i]);
            }
        },
        Json::Object(entries) => {
            let out = from_json_spec(j)->Object_0;
            assert forall|i: int| 0 <= i < out.len() implies encode_utf8(
                (#[trigger] out[i]).0,
            ).len() <= u64::MAX && out[i].1.well_formed() by {
                assert(entries[i].1.encodable());
                lemma_from_json_well_formed(entries[i].1);
            }
            assert forall|a: int, b: int| 0 <= a < b < out.len() implies (#[trigger] out[a]).0 != (
            #[trigger] out[b]).0 by {
                assert(entries[a].0 != entries[b].0);
            }
            assert(distinct_keys(out));
        },
        _ => {},
    }
}

/// A valid JSON value that can be written survives both ways: the bytes of
/// the encodable value that stands for it decode to that value, which gives
/// the JSON value back.
pub proof fn lemma_json_encode_roundtrip(j: Json)
    requires
        j.valid(),
        j.encodable(),
    ensures
        decode_spec(encode_spec(from_json_spec(j))) == Ok::<(Data, nat), DecodeFailure>(
            (from_json_spec(j), encode_spec(from_json_spec(j)).len()),
        ),
        to_json_spec(from_json_spec(j)) == Ok::<Json, EncodedDataToJsonError>(j),
{
    lemma_from_json_well_formed(j);
    lemma_roundtrip(from_json_spec(j));
    lemma_json_roundtrip(j);
}

} // verus!
