//! The decoder looks at no byte beyond the value that it reads.

use crate::define::data_type;
use crate::define::special_type;
use crate::encoded_data::{
    decode_at, decode_entries, decode_items, decode_spec, le_value, read_length, read_text,
    read_varint, Data,
};
use crate::varint;
use vstd::prelude::*;

verus! {

/// Whether `t` reaches up to `to` and has the bytes of `s` from `from` up to
/// `to`.
pub open spec fn agrees(s: Seq<u8>, t: Seq<u8>, from: nat, to: nat) -> bool {
    to <= t.len() && forall|i: int| from <= i < to ==> s[i] == t[i]
}

proof fn lemma_read_varint_local(s: Seq<u8>, t: Seq<u8>, pos: nat)
    requires
        pos <= s.len(),
        read_varint(s, pos) is Ok,
        agrees(s, t, pos, read_varint(s, pos)->Ok_0.1),
    ensures
        pos < read_varint(s, pos)->Ok_0.1 <= s.len(),
        read_varint(t, pos) == read_varint(s, pos),
{
    let tail = s.skip(pos as int);
    varint::lemma_scan_some(tail, 0);
    let nb = varint::decode_spec(tail)->Ok_0.1;
    assert(pos + nb <= t.len());
    let other = t.skip(pos as int);
    assert forall|i: int| 0 <= i < nb implies tail[i] == other[i] by {
        assert(s[pos + i] == t[pos + i]);
    }
    varint::lemma_decode_local(tail, other);
}

proof fn lemma_read_length_local(s: Seq<u8>, t: Seq<u8>, pos: nat)
    requires
        pos < s.len(),
        read_length(s, pos) is Ok,
        agrees(s, t, pos, read_length(s, pos)->Ok_0.1),
    ensures
        pos < read_length(s, pos)->Ok_0.1 <= s.len(),
        read_length(t, pos) == read_length(s, pos),
{
    if s[pos as int] % 32 >= 16 {
        lemma_read_varint_local(s, t, pos + 1);
    }
    assert(s[pos as int] == t[pos as int]);
}

proof fn lemma_read_text_local(s: Seq<u8>, t: Seq<u8>, start: nat, len: nat)
    requires
        read_text(s, start, len) is Ok,
        agrees(s, t, start, start + len),
    ensures
        start + len <= s.len(),
        read_text(t, start, len) == read_text(s, start, len),
{
    assert(s.subrange(start as int, (start + len) as int) =~= t.subrange(
        start as int,
        (start + len) as int,
    ));
}

proof fn lemma_le_value_local(s: Seq<u8>, t: Seq<u8>, from: nat, to: nat)
    requires
        forall|i: int| from <= i < to ==> s[i] == t[i],
    ensures
        le_value(s, from, to) == le_value(t, from, to),
    decreases to - from,
{
    if from < to {
        lemma_le_value_local(s, t, from + 1, to);
    }
}

/// The values without a value inside them.
proof fn lemma_local_leaf(s: Seq<u8>, t: Seq<u8>, pos: nat)
    requires
        decode_at(s, pos) is Ok,
        agrees(s, t, pos, decode_at(s, pos)->Ok_0.1),
        pos < s.len(),
        s[pos as int] / 32 != data_type::ARRAY,
        s[pos as int] / 32 != data_type::OBJECT,
        !(s[pos as int] / 32 == data_type::SPECIAL && s[pos as int] % 32 == special_type::DEFINE),
    ensures
        pos < decode_at(s, pos)->Ok_0.1 <= s.len(),
        decode_at(t, pos) == decode_at(s, pos),
{
    let tag = s[pos as int] / 32;
    let low = s[pos as int] % 32;
    if tag == data_type::SPECIAL {
        if low == special_type::FORGET {
            lemma_read_varint_local(s, t, pos + 1);
        }
    } else if tag == data_type::INTEGER {
        let width = (low % 16) as nat;
        if width != 0 {
            lemma_le_value_local(
                s,
                t,
                pos + 1,
                pos + 1 + if width < 8 {
                    width
                } else {
                    8
                },
            );
        }
    } else if tag == data_type::FLOAT {
        lemma_le_value_local(s, t, pos + 1, pos + 9);
    } else if tag == data_type::STRING {
        let next = read_length(s, pos)->Ok_0.1;
        let len = read_length(s, pos)->Ok_0.0;
        lemma_read_length_local(s, t, pos);
        lemma_read_text_local(s, t, next, len as nat);
    } else if tag == data_type::ALIAS {
        lemma_read_length_local(s, t, pos);
    }
    assert(s[pos as int] == t[pos as int]);
}

proof fn lemma_local_items(s: Seq<u8>, t: Seq<u8>, pos: nat, count: nat, done: Seq<Data>)
    requires
        pos <= s.len(),
        decode_items(s, pos, count, done) is Ok,
        agrees(s, t, pos, decode_items(s, pos, count, done)->Ok_0.1),
    ensures
        pos + count <= decode_items(s, pos, count, done)->Ok_0.1 <= s.len(),
        decode_items(t, pos, count, done) == decode_items(s, pos, count, done),
    decreases s.len() - pos, count + 2,
{
    if count > 0 {
        let v = decode_at(s, pos)->Ok_0.0;
        let mid = decode_at(s, pos)->Ok_0.1;
        lemma_local_items(s, t, mid, (count - 1) as nat, done.push(v));
        lemma_local_at(s, t, pos);
    }
}

proof fn lemma_local_entries(
    s: Seq<u8>,
    t: Seq<u8>,
    pos: nat,
    count: nat,
    done: Seq<(Seq<char>, Data)>,
)
    requires
        pos <= s.len(),
        decode_entries(s, pos, count, done) is Ok,
        agrees(s, t, pos, decode_entries(s, pos, count, done)->Ok_0.1),
    ensures
        pos + count <= decode_entries(s, pos, count, done)->Ok_0.1 <= s.len(),
        decode_entries(t, pos, count, done) == decode_entries(s, pos, count, done),
    decreases s.len() - pos, count + 2,
{
    if count > 0 {
        let key_len = read_varint(s, pos)->Ok_0.0;
        let key_start = read_varint(s, pos)->Ok_0.1;
        let key = read_text(s, key_start, key_len as nat)->Ok_0;
        let start = key_start + key_len as nat;
        let v = decode_at(s, start)->Ok_0.0;
        let mid = decode_at(s, start)->Ok_0.1;
        assert(start <= s.len());
        lemma_local_entries(s, t, mid, (count - 1) as nat, done.push((key, v)));
        lemma_local_at(s, t, start);
        lemma_read_varint_local(s, t, pos);
        lemma_read_text_local(s, t, key_start, key_len as nat);
    }
}

proof fn lemma_local_nested(s: Seq<u8>, t: Seq<u8>, pos: nat)
    requires
        decode_at(s, pos) is Ok,
        agrees(s, t, pos, decode_at(s, pos)->Ok_0.1),
        pos < s.len(),
        s[pos as int] / 32 == data_type::ARRAY || s[pos as int] / 32 == data_type::OBJECT || (
        s[pos as int] / 32 == data_type::SPECIAL && s[pos as int] % 32 == special_type::DEFINE),
    ensures
        pos < decode_at(s, pos)->Ok_0.1 <= s.len(),
        decode_at(t, pos) == decode_at(s, pos),
    decreases s.len() - pos, 0nat,
{
    let tag = s[pos as int] / 32;
    if tag == data_type::SPECIAL {
        lemma_local_at(s, t, pos + 1);
    } else if tag == data_type::ARRAY {
        let count = read_length(s, pos)->Ok_0.0;
        let next = read_length(s, pos)->Ok_0.1;
        lemma_local_items(s, t, next, count as nat, Seq::empty());
        lemma_read_length_local(s, t, pos);
    } else {
        let count = read_length(s, pos)->Ok_0.0;
        let next = read_length(s, pos)->Ok_0.1;
        lemma_local_entries(s, t, next, count as nat, Seq::empty());
        lemma_read_length_local(s, t, pos);
    }
    assert(s[pos as int] == t[pos as int]);
}

/// Reading the value at `pos` looks at no byte before `pos` nor at or after
/// the position that it gives as the end: input that has the same bytes in
/// between holds the same value there. That position is after `pos` and
/// within the input.
pub proof fn lemma_local_at(s: Seq<u8>, t: Seq<u8>, pos: nat)
    requires
        decode_at(s, pos) is Ok,
        agrees(s, t, pos, decode_at(s, pos)->Ok_0.1),
    ensures
        pos < decode_at(s, pos)->Ok_0.1 <= s.len(),
        decode_at(t, pos) == decode_at(s, pos),
    decreases s.len() - pos, 1nat,
{
    let tag = s[pos as int] / 32;
    if tag == data_type::ARRAY || tag == data_type::OBJECT || (tag == data_type::SPECIAL
        && s[pos as int] % 32 == special_type::DEFINE) {
        lemma_local_nested(s, t, pos);
    } else {
        lemma_local_leaf(s, t, pos);
    }
}

/// Decoding never reads past the number of bytes that it gives as read:
/// input that starts with the same bytes, as many as that number, decodes to
/// the same value and the same number. That number is above zero and within
/// the input.
pub proof fn lemma_decode_reads_no_further(s: Seq<u8>, t: Seq<u8>)
    requires
        decode_spec(s) is Ok,
        decode_spec(s)->Ok_0.1 <= t.len(),
        forall|i: int| 0 <= i < decode_spec(s)->Ok_0.1 ==> s[i] == t[i],
    ensures
        decode_spec(t) == decode_spec(s),
        0 < decode_spec(s)->Ok_0.1 <= s.len(),
{
    lemma_local_at(s, t, 0);
}

} // verus!
