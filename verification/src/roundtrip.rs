//! What holds between the encoder and the decoder: a value that was encoded
//! is decoded again, from the bytes of its encoding alone.

use crate::define::data_type;
use crate::define::special_type;
use crate::encoded_data::{
    compact_width, decode_at, decode_entries, decode_items, decode_spec,
    encode_entries, encode_entry, encode_items, encode_spec, has_key, header, le_bytes, le_value,
    length_flag, length_tail, pow256, read_length, read_text, read_varint, Data, DecodeFailure,
};
use crate::varint;
use vstd::prelude::*;
use vstd::utf8::*;

verus! {

/// Whether `s` holds `bytes` from `pos` on.
pub open spec fn holds_at(s: Seq<u8>, pos: nat, bytes: Seq<u8>) -> bool {
    pos + bytes.len() <= s.len() && s.subrange(pos as int, (pos + bytes.len()) as int) == bytes
}

proof fn lemma_holds_split(s: Seq<u8>, pos: nat, a: Seq<u8>, b: Seq<u8>)
    requires
        holds_at(s, pos, a + b),
    ensures
        holds_at(s, pos, a),
        holds_at(s, pos + a.len(), b),
{
    let whole = s.subrange(pos as int, (pos + (a + b).len()) as int);
    assert(s.subrange(pos as int, (pos + a.len()) as int) =~= whole.subrange(0, a.len() as int));
    assert((a + b).subrange(0, a.len() as int) =~= a);
    assert(s.subrange((pos + a.len()) as int, (pos + a.len() + b.len()) as int) =~= whole.subrange(a.len() as int, (a + b).len() as int));
    assert((a + b).subrange(a.len() as int, (a + b).len() as int) =~= b);
}

/// Every encoding has at least its header byte.
pub proof fn lemma_encode_nonempty(v: Data)
    ensures
        encode_spec(v).len() >= 1,
{
}

proof fn lemma_items_prefix(list: Seq<Data>, i: nat, n: nat)
    requires
        i <= n <= list.len(),
    ensures
        encode_items(list, i).len() + (n - i) <= encode_items(list, n).len(),
        encode_items(list, n).subrange(0, encode_items(list, i).len() as int) == encode_items(
            list,
            i,
        ),
    decreases n - i,
{
    if i < n {
        lemma_items_prefix(list, i, (n - 1) as nat);
        lemma_encode_nonempty(list[n - 1]);
        let shorter = encode_items(list, (n - 1) as nat);
        assert(encode_items(list, n) == shorter + encode_spec(list[n - 1]));
        assert(encode_items(list, n).subrange(0, encode_items(list, i).len() as int)
            =~= shorter.subrange(0, encode_items(list, i).len() as int));
    } else {
        assert(encode_items(list, n).subrange(0, encode_items(list, i).len() as int)
            =~= encode_items(list, i));
    }
}

proof fn lemma_entries_prefix(entries: Seq<(Seq<char>, Data)>, i: nat, n: nat)
    requires
        i <= n <= entries.len(),
    ensures
        encode_entries(entries, i).len() + (n - i) <= encode_entries(entries, n).len(),
        encode_entries(entries, n).subrange(0, encode_entries(entries, i).len() as int)
            == encode_entries(entries, i),
    decreases n - i,
{
    if i < n {
        lemma_entries_prefix(entries, i, (n - 1) as nat);
        lemma_encode_nonempty(entries[n - 1].1);
        let shorter = encode_entries(entries, (n - 1) as nat);
        assert(encode_entries(entries, n) == shorter + encode_entry(entries[n - 1]));
        assert(encode_entries(entries, n).subrange(0, encode_entries(entries, i).len() as int)
            =~= shorter.subrange(0, encode_entries(entries, i).len() as int));
    } else {
        assert(encode_entries(entries, n).subrange(0, encode_entries(entries, i).len() as int)
            =~= encode_entries(entries, i));
    }
}

proof fn lemma_read_varint(n: u64, s: Seq<u8>, pos: nat)
    requires
        holds_at(s, pos, varint::encode_spec(n)),
    ensures
        read_varint(s, pos) == Ok::<(u64, nat), DecodeFailure>(
            (n, pos + varint::encode_spec(n).len()),
        ),
        1 <= varint::encode_spec(n).len() <= 10,
{
    let tail = s.skip(pos as int);
    let e = varint::encode_spec(n);
    assert(tail.subrange(0, e.len() as int) =~= s.subrange(pos as int, (pos + e.len()) as int));
    varint::lemma_decode_encode(n, tail);
}

proof fn lemma_read_length(n: u64, s: Seq<u8>, pos: nat)
    requires
        pos < s.len(),
        s[pos as int] % 32 == length_flag(n, 5),
        holds_at(s, pos + 1, length_tail(n, 5)),
    ensures
        read_length(s, pos) == Ok::<(u64, nat), DecodeFailure>(
            (n, pos + 1 + length_tail(n, 5).len()),
        ),
{
    if n >= 16 {
        lemma_read_varint(((n - 16) / 16) as u64, s, pos + 1);
    }
}

proof fn lemma_le_bytes_len(n: nat, w: nat)
    ensures
        le_bytes(n, w).len() == w,
    decreases w,
{
    if w > 0 {
        lemma_le_bytes_len(n / 256, (w - 1) as nat);
    }
}

proof fn lemma_le_read(n: nat, w: nat, s: Seq<u8>, from: nat)
    requires
        w <= 8,
        n < pow256(w),
        from + w <= s.len(),
        forall|i: int| 0 <= i < w ==> s[from as int + i] == #[trigger] le_bytes(n, w)[i],
    ensures
        le_value(s, from, from + w) == n,
    decreases w,
{
    lemma_le_bytes_len(n, w);
    if w > 0 {
        let rest = le_bytes(n / 256, (w - 1) as nat);
        lemma_le_bytes_len(n / 256, (w - 1) as nat);
        assert(s[from as int + 0] == le_bytes(n, w)[0]);
        assert forall|i: int| 0 <= i < w - 1 implies s[(from + 1) as int + i] == #[trigger] rest[i] by {
            assert(s[from as int + (i + 1)] == le_bytes(n, w)[i + 1]);
        }
        lemma_le_read(n / 256, (w - 1) as nat, s, from + 1);
    }
}

proof fn lemma_le_at(n: nat, w: nat, s: Seq<u8>, from: nat)
    requires
        w <= 8,
        n < pow256(w),
        holds_at(s, from, le_bytes(n, w)),
    ensures
        le_value(s, from, from + w) == n,
        le_bytes(n, w).len() == w,
{
    lemma_le_bytes_len(n, w);
    assert forall|i: int| 0 <= i < w implies s[from as int + i] == #[trigger] le_bytes(n, w)[i] by {
        assert(s.subrange(from as int, (from + w) as int)[i] == s[from as int + i]);
    }
    lemma_le_read(n, w, s, from);
}

proof fn lemma_read_text(t: Seq<char>, s: Seq<u8>, pos: nat)
    requires
        holds_at(s, pos, encode_utf8(t)),
    ensures
        read_text(s, pos, encode_utf8(t).len()) == Ok::<Seq<char>, DecodeFailure>(t),
{
    broadcast use encode_utf8_valid_utf8, encode_utf8_decode_utf8;

}

/// The header byte of a length-carrying value, and the length after it, read
/// back.
proof fn lemma_head(tag: u8, n: u64, s: Seq<u8>, pos: nat, rest: Seq<u8>)
    requires
        tag <= 7,
        holds_at(s, pos, seq![header(tag, length_flag(n, 5))] + length_tail(n, 5) + rest),
    ensures
        pos < s.len(),
        s[pos as int] / 32 == tag,
        read_length(s, pos) == Ok::<(u64, nat), DecodeFailure>(
            (n, pos + 1 + length_tail(n, 5).len()),
        ),
        holds_at(s, pos + 1 + length_tail(n, 5).len(), rest),
{
    let h = seq![header(tag, length_flag(n, 5))];
    lemma_holds_split(s, pos, h + length_tail(n, 5), rest);
    lemma_holds_split(s, pos, h, length_tail(n, 5));
    assert(s[pos as int] == s.subrange(pos as int, (pos + 1) as int)[0]);
    assert(length_flag(n, 5) < 32);
    lemma_read_length(n, s, pos);
}

/// The values from `list[i]` on, read back from where their bytes start.
proof fn lemma_decode_items(list: Seq<Data>, i: nat, s: Seq<u8>, start: nat)
    requires
        i <= list.len(),
        forall|j: int| 0 <= j < list.len() ==> (#[trigger] list[j]).well_formed(),
        holds_at(s, start, encode_items(list, list.len())),
    ensures
        decode_items(
            s,
            start + encode_items(list, i).len(),
            (list.len() - i) as nat,
            list.subrange(0, i as int),
        ) == Ok::<(Seq<Data>, nat), DecodeFailure>(
            (list, start + encode_items(list, list.len()).len()),
        ),
    decreases list, list.len() - i,
{
    let n = list.len();
    let pos = start + encode_items(list, i).len();
    if i < n {
        let v = list[i as int];
        let upto = encode_items(list, i + 1);
        lemma_items_prefix(list, i + 1, n);
        assert(upto == encode_items(list, i) + encode_spec(v));
        assert(holds_at(s, start, upto)) by {
            assert(s.subrange(start as int, (start + upto.len()) as int) =~= s.subrange(start as int, (start + encode_items(list, n).len()) as int).subrange(0, upto.len() as int));
        }
        lemma_holds_split(s, start, encode_items(list, i), encode_spec(v));
        lemma_decode_at(v, s, pos);
        assert(list.subrange(0, i as int).push(v) =~= list.subrange(0, (i + 1) as int));
        lemma_decode_items(list, i + 1, s, start);
    } else {
        assert(list.subrange(0, i as int) =~= list);
    }
}

/// The entries from `entries[i]` on, read back from where their bytes start.
proof fn lemma_decode_entries(entries: Seq<(Seq<char>, Data)>, i: nat, s: Seq<u8>, start: nat)
    requires
        i <= entries.len(),
        Data::Object(entries).well_formed(),
        holds_at(s, start, encode_entries(entries, entries.len())),
    ensures
        decode_entries(
            s,
            start + encode_entries(entries, i).len(),
            (entries.len() - i) as nat,
            entries.subrange(0, i as int),
        ) == Ok::<(Seq<(Seq<char>, Data)>, nat), DecodeFailure>(
            (entries, start + encode_entries(entries, entries.len()).len()),
        ),
    decreases entries, entries.len() - i,
{
    let n = entries.len();
    let pos = start + encode_entries(entries, i).len();
    if i < n {
        let e = entries[i as int];
        let key = encode_utf8(e.0);
        let key_len = varint::encode_spec(key.len() as u64);
        let upto = encode_entries(entries, i + 1);
        lemma_entries_prefix(entries, i + 1, n);
        assert(upto == encode_entries(entries, i) + encode_entry(e));
        assert(holds_at(s, start, upto)) by {
            assert(s.subrange(start as int, (start + upto.len()) as int) =~= s.subrange(start as int, (start + encode_entries(entries, n).len()) as int).subrange(0, upto.len() as int));
        }
        lemma_holds_split(s, start, encode_entries(entries, i), encode_entry(e));
        assert(encode_entry(e) == key_len + key + encode_spec(e.1));
        lemma_holds_split(s, pos, key_len + key, encode_spec(e.1));
        lemma_holds_split(s, pos, key_len, key);
        lemma_read_varint(key.len() as u64, s, pos);
        lemma_read_text(e.0, s, pos + key_len.len());
        assert(!has_key(entries.subrange(0, i as int), e.0));
        assert(decreases_to!(entries => e));
        lemma_decode_at(e.1, s, pos + key_len.len() + key.len());
        lemma_encode_nonempty(e.1);
        assert(entries.subrange(0, i as int).push((e.0, e.1)) =~= entries.subrange(0, (i + 1) as int));
        lemma_decode_entries(entries, i + 1, s, start);
    } else {
        assert(entries.subrange(0, i as int) =~= entries);
    }
}

proof fn lemma_case_plain(v: Data, s: Seq<u8>, pos: nat)
    requires
        v.well_formed(),
        holds_at(s, pos, encode_spec(v)),
        v is Absent || v is Null || v is Bool,
    ensures
        decode_at(s, pos) == Ok::<(Data, nat), DecodeFailure>((v, pos + encode_spec(v).len())),
{
    lemma_encode_nonempty(v);
    assert(s[pos as int] == s.subrange(pos as int, (pos + encode_spec(v).len()) as int)[0]);
}

proof fn lemma_case_forget(v: Data, s: Seq<u8>, pos: nat)
    requires
        v.well_formed(),
        holds_at(s, pos, encode_spec(v)),
        v is Forget,
    ensures
        decode_at(s, pos) == Ok::<(Data, nat), DecodeFailure>((v, pos + encode_spec(v).len())),
{
    lemma_encode_nonempty(v);
    assert(s[pos as int] == s.subrange(pos as int, (pos + encode_spec(v).len()) as int)[0]);
    let id = v->Forget_0;
    lemma_holds_split(
        s,
        pos,
        seq![header(data_type::SPECIAL, special_type::FORGET)],
        varint::encode_spec(id),
    );
    lemma_read_varint(id, s, pos + 1);
}

proof fn lemma_case_positive(v: Data, s: Seq<u8>, pos: nat)
    requires
        v.well_formed(),
        holds_at(s, pos, encode_spec(v)),
        v is Positive,
    ensures
        decode_at(s, pos) == Ok::<(Data, nat), DecodeFailure>((v, pos + encode_spec(v).len())),
{
    lemma_encode_nonempty(v);
    assert(s[pos as int] == s.subrange(pos as int, (pos + encode_spec(v).len()) as int)[0]);
    let n = v->Positive_0;
    let w = compact_width(n);
    lemma_holds_split(s, pos, seq![header(data_type::INTEGER, w as u8)], le_bytes(n as nat, w));
    lemma_le_at(n as nat, w, s, pos + 1);
}

proof fn lemma_case_negative(v: Data, s: Seq<u8>, pos: nat)
    requires
        v.well_formed(),
        holds_at(s, pos, encode_spec(v)),
        v is Negative,
    ensures
        decode_at(s, pos) == Ok::<(Data, nat), DecodeFailure>((v, pos + encode_spec(v).len())),
{
    lemma_encode_nonempty(v);
    assert(s[pos as int] == s.subrange(pos as int, (pos + encode_spec(v).len()) as int)[0]);
    let n = v->Negative_0;
    let w = compact_width(n);
    lemma_holds_split(
        s,
        pos,
        seq![header(data_type::INTEGER, (16 + w) as u8)],
        le_bytes(n as nat, w),
    );
    lemma_le_at(n as nat, w, s, pos + 1);
}

proof fn lemma_case_float(v: Data, s: Seq<u8>, pos: nat)
    requires
        v.well_formed(),
        holds_at(s, pos, encode_spec(v)),
        v is Float,
    ensures
        decode_at(s, pos) == Ok::<(Data, nat), DecodeFailure>((v, pos + encode_spec(v).len())),
{
    lemma_encode_nonempty(v);
    assert(s[pos as int] == s.subrange(pos as int, (pos + encode_spec(v).len()) as int)[0]);
    let bits = v->Float_0;
    lemma_holds_split(s, pos, seq![header(data_type::FLOAT, 8)], le_bytes(bits as nat, 8));
    lemma_le_at(bits as nat, 8, s, pos + 1);
}

proof fn lemma_case_text(v: Data, s: Seq<u8>, pos: nat)
    requires
        v.well_formed(),
        holds_at(s, pos, encode_spec(v)),
        v is Text,
    ensures
        decode_at(s, pos) == Ok::<(Data, nat), DecodeFailure>((v, pos + encode_spec(v).len())),
{
    lemma_encode_nonempty(v);
    assert(s[pos as int] == s.subrange(pos as int, (pos + encode_spec(v).len()) as int)[0]);
    let t = v->Text_0;
    let payload = encode_utf8(t);
    lemma_head(data_type::STRING, payload.len() as u64, s, pos, payload);
    lemma_read_text(t, s, pos + 1 + length_tail(payload.len() as u64, 5).len());
}

proof fn lemma_case_alias(v: Data, s: Seq<u8>, pos: nat)
    requires
        v.well_formed(),
        holds_at(s, pos, encode_spec(v)),
        v is Alias,
    ensures
        decode_at(s, pos) == Ok::<(Data, nat), DecodeFailure>((v, pos + encode_spec(v).len())),
{
    lemma_encode_nonempty(v);
    assert(s[pos as int] == s.subrange(pos as int, (pos + encode_spec(v).len()) as int)[0]);
    let id = v->Alias_0;
    assert(encode_spec(v) =~= seq![header(data_type::ALIAS, length_flag(id, 5))] + length_tail(
        id,
        5,
    ) + Seq::empty());
    lemma_head(data_type::ALIAS, id, s, pos, Seq::empty());
}

proof fn lemma_case_define(v: Data, s: Seq<u8>, pos: nat)
    requires
        v.well_formed(),
        holds_at(s, pos, encode_spec(v)),
        v is Define,
    ensures
        decode_at(s, pos) == Ok::<(Data, nat), DecodeFailure>((v, pos + encode_spec(v).len())),
    decreases v, 0nat,
{
    lemma_encode_nonempty(v);
    assert(s[pos as int] == s.subrange(pos as int, (pos + encode_spec(v).len()) as int)[0]);
    let o = *v->Define_0;
    lemma_holds_split(
        s,
        pos,
        seq![header(data_type::SPECIAL, special_type::DEFINE)],
        encode_spec(o),
    );
    lemma_decode_at(o, s, pos + 1);
}

proof fn lemma_case_array(v: Data, s: Seq<u8>, pos: nat)
    requires
        v.well_formed(),
        holds_at(s, pos, encode_spec(v)),
        v is Array,
    ensures
        decode_at(s, pos) == Ok::<(Data, nat), DecodeFailure>((v, pos + encode_spec(v).len())),
    decreases v, 0nat,
{
    lemma_encode_nonempty(v);
    assert(s[pos as int] == s.subrange(pos as int, (pos + encode_spec(v).len()) as int)[0]);
    let list = v->Array_0;
    let payload = encode_items(list, list.len());
    lemma_head(data_type::ARRAY, list.len() as u64, s, pos, payload);
    let next = pos + 1 + length_tail(list.len() as u64, 5).len();
    lemma_items_prefix(list, 0, list.len());
    assert(list.subrange(0, 0) =~= Seq::<Data>::empty());
    lemma_decode_items(list, 0, s, next);
}

proof fn lemma_case_object(v: Data, s: Seq<u8>, pos: nat)
    requires
        v.well_formed(),
        holds_at(s, pos, encode_spec(v)),
        v is Object,
    ensures
        decode_at(s, pos) == Ok::<(Data, nat), DecodeFailure>((v, pos + encode_spec(v).len())),
    decreases v, 0nat,
{
    lemma_encode_nonempty(v);
    assert(s[pos as int] == s.subrange(pos as int, (pos + encode_spec(v).len()) as int)[0]);
    let entries = v->Object_0;
    let payload = encode_entries(entries, entries.len());
    lemma_head(data_type::OBJECT, entries.len() as u64, s, pos, payload);
    let next = pos + 1 + length_tail(entries.len() as u64, 5).len();
    lemma_entries_prefix(entries, 0, entries.len());
    assert(entries.subrange(0, 0) =~= Seq::<(Seq<char>, Data)>::empty());
    lemma_decode_entries(entries, 0, s, next);
}

/// A well-formed value is read back from wherever its bytes stand, and the
/// bytes after it start where its encoding ends.
pub proof fn lemma_decode_at(v: Data, s: Seq<u8>, pos: nat)
    requires
        v.well_formed(),
        holds_at(s, pos, encode_spec(v)),
    ensures
        decode_at(s, pos) == Ok::<(Data, nat), DecodeFailure>((v, pos + encode_spec(v).len())),
    decreases v, 1nat,
{
    match v {
        Data::Absent | Data::Null | Data::Bool(_) => lemma_case_plain(v, s, pos),
        Data::Define(_) => lemma_case_define(v, s, pos),
        Data::Forget(_) => lemma_case_forget(v, s, pos),
        Data::Positive(_) => lemma_case_positive(v, s, pos),
        Data::Negative(_) => lemma_case_negative(v, s, pos),
        Data::Float(_) => lemma_case_float(v, s, pos),
        Data::Text(_) => lemma_case_text(v, s, pos),
        Data::Array(_) => lemma_case_array(v, s, pos),
        Data::Object(_) => lemma_case_object(v, s, pos),
        Data::Alias(_) => lemma_case_alias(v, s, pos),
    }
}

/// Decoding the encoding of a well-formed value gives the value back, and as
/// the number of bytes read the length of the encoding.
pub proof fn lemma_roundtrip(v: Data)
    requires
        v.well_formed(),
    ensures
        decode_spec(encode_spec(v)) == Ok::<(Data, nat), DecodeFailure>(
            (v, encode_spec(v).len()),
        ),
{
    let bytes = encode_spec(v);
    assert(bytes.subrange(0, bytes.len() as int) =~= bytes);
    lemma_decode_at(v, bytes, 0);
}

/// Bytes that follow an encoding do not change what is decoded: input that
/// starts with the encoding of a well-formed value decodes to that value and
/// the length of its encoding.
pub proof fn lemma_decode_ignores_rest(v: Data, rest: Seq<u8>)
    requires
        v.well_formed(),
    ensures
        decode_spec(encode_spec(v) + rest) == Ok::<(Data, nat), DecodeFailure>(
            (v, encode_spec(v).len()),
        ),
{
    let bytes = encode_spec(v);
    assert((bytes + rest).subrange(0, bytes.len() as int) =~= bytes);
    lemma_decode_at(v, bytes + rest, 0);
}

/// The number of bytes that the header byte takes together with the bytes
/// that hold the rest of the length or identifier `n`.
pub open spec fn head_len(n: u64) -> nat {
    if n < 16 {
        1
    } else {
        1 + varint::width(((n - 16) / 16) as nat)
    }
}

/// The number of bytes that the values `list[0]` to `list[n - 1]` take.
pub open spec fn items_len(list: Seq<Data>, n: nat) -> nat
    decreases list, n,
{
    if n == 0 || n > list.len() {
        0
    } else {
        items_len(list, (n - 1) as nat) + encoded_len(list[n - 1])
    }
}

/// The number of bytes that the first `n` entries take.
pub open spec fn entries_len(entries: Seq<(Seq<char>, Data)>, n: nat) -> nat
    decreases entries, n,
{
    if n == 0 || n > entries.len() {
        0
    } else {
        entries_len(entries, (n - 1) as nat) + entry_len(entries[n - 1])
    }
}

/// The number of bytes that one entry takes: the length of its key, the key,
/// and the value.
pub open spec fn entry_len(entry: (Seq<char>, Data)) -> nat
    decreases entry, 0nat,
{
    varint::width(encode_utf8(entry.0).len()) + encode_utf8(entry.0).len() + encoded_len(entry.1)
}

/// The number of bytes that a value declares for itself: its header with
/// the length or identifier, and the payload of the declared size.
pub open spec fn encoded_len(v: Data) -> nat
    decreases v, 0nat,
{
    match v {
        Data::Absent | Data::Null | Data::Bool(_) => 1,
        Data::Define(o) => 1 + encoded_len(*o),
        Data::Forget(id) => 1 + varint::width(id as nat),
        Data::Positive(n) | Data::Negative(n) => 1 + compact_width(n),
        Data::Float(_) => 9,
        Data::Text(t) => head_len(encode_utf8(t).len() as u64) + encode_utf8(t).len(),
        Data::Array(list) => head_len(list.len() as u64) + items_len(list, list.len()),
        Data::Object(entries) => head_len(entries.len() as u64) + entries_len(
            entries,
            entries.len(),
        ),
        Data::Alias(id) => head_len(id),
    }
}

proof fn lemma_head_len(n: u64)
    ensures
        1 + length_tail(n, 5).len() == head_len(n),
{
    if n >= 16 {
        varint::lemma_encode_len(((n - 16) / 16) as u64);
    }
}

proof fn lemma_items_len(list: Seq<Data>, n: nat)
    requires
        forall|j: int| 0 <= j < list.len() ==> (#[trigger] list[j]).well_formed(),
    ensures
        encode_items(list, n).len() == items_len(list, n),
    decreases list, n,
{
    if n > 0 && n <= list.len() {
        lemma_items_len(list, (n - 1) as nat);
        lemma_encoded_len(list[n - 1]);
    }
}

proof fn lemma_entries_len(entries: Seq<(Seq<char>, Data)>, n: nat)
    requires
        Data::Object(entries).well_formed(),
    ensures
        encode_entries(entries, n).len() == entries_len(entries, n),
    decreases entries, n,
{
    if n > 0 && n <= entries.len() {
        lemma_entries_len(entries, (n - 1) as nat);
        let e = entries[n - 1];
        assert(decreases_to!(entries => e));
        lemma_encoded_len(e.1);
        varint::lemma_encode_len(encode_utf8(e.0).len() as u64);
        assert(encode_entry(e).len() == entry_len(e));
    }
}

/// The encoding of a well-formed value takes exactly the bytes that the
/// value declares: no byte more than its header and the declared payload.
pub proof fn lemma_encoded_len(v: Data)
    requires
        v.well_formed(),
    ensures
        encode_spec(v).len() == encoded_len(v),
    decreases v, 1nat,
{
    match v {
        Data::Define(o) => {
            lemma_encoded_len(*o);
        },
        Data::Forget(id) => {
            varint::lemma_encode_len(id);
        },
        Data::Positive(n) => {
            lemma_le_bytes_len(n as nat, compact_width(n));
        },
        Data::Negative(n) => {
            lemma_le_bytes_len(n as nat, compact_width(n));
        },
        Data::Float(bits) => {
            lemma_le_bytes_len(bits as nat, 8);
        },
        Data::Text(t) => {
            lemma_head_len(encode_utf8(t).len() as u64);
        },
        Data::Array(list) => {
            lemma_head_len(list.len() as u64);
            lemma_items_len(list, list.len());
        },
        Data::Object(entries) => {
            lemma_head_len(entries.len() as u64);
            lemma_entries_len(entries, entries.len());
        },
        Data::Alias(id) => {
            lemma_head_len(id);
        },
        _ => {},
    }
}

/// What the decoder reports as read for an encoding is what the value
/// declares.
pub proof fn lemma_decode_reads_declared(v: Data, rest: Seq<u8>)
    requires
        v.well_formed(),
    ensures
        decode_spec(encode_spec(v) + rest) == Ok::<(Data, nat), DecodeFailure>(
            (v, encoded_len(v)),
        ),
{
    lemma_encoded_len(v);
    lemma_decode_ignores_rest(v, rest);
}

/// The width in which a magnitude is written holds the magnitude.
pub proof fn lemma_compact_width_holds(n: u64)
    ensures
        compact_width(n) == 1 || compact_width(n) == 2 || compact_width(n) == 4 || compact_width(n)
            == 8,
        n < pow256(compact_width(n)),
{
}

/// No width among 1, 2, 4 and 8 that holds a magnitude is below the one in
/// which it is written.
pub proof fn lemma_compact_width_least(n: u64, w: nat)
    requires
        w == 1 || w == 2 || w == 4 || w == 8,
        n < pow256(w),
    ensures
        compact_width(n) <= w,
{
}

/// A magnitude that is written in `w` bytes, `w` among 1, 2 and 4, is below
/// `256^w` and not below `256^(w - 1)`. Zero, which takes one byte, and the
/// magnitudes from `256^2` up to `256^3`, which take four, are left out.
pub proof fn lemma_compact_width_bounds(n: u64)
    requires
        n != 0,
        !(0x1_0000 <= n < 0x100_0000),
    ensures
        compact_width(n) <= 4 ==> n < pow256(compact_width(n)) && n >= pow256(
            (compact_width(n) - 1) as nat,
        ),
{
}

} // verus!
