//! Variable-length unsigned integers without redundancy.
//!
//! Every byte carries seven payload bits, least significant group first; the
//! high bit says that another byte follows. An encoding of `k` bytes stands
//! for its payload plus the number of values that shorter encodings cover, so
//! each value has exactly one encoding.

use vstd::prelude::*;

verus! {

#[derive(Debug, PartialEq, Eq, Clone, Copy)]
pub enum DecodeError {
    /// The input ends while the last byte read still announces another one.
    MissingBytes,
    /// Ten bytes announce yet another one, or the value does not fit 64 bits.
    ValueTooBig,
}

/// `128^k`: how many payloads `k` bytes can carry.
pub open spec fn pow128(k: nat) -> nat {
    if k == 0 {
        1
    } else if k == 1 {
        0x80
    } else if k == 2 {
        0x4000
    } else if k == 3 {
        0x20_0000
    } else if k == 4 {
        0x1000_0000
    } else if k == 5 {
        0x8_0000_0000
    } else if k == 6 {
        0x400_0000_0000
    } else if k == 7 {
        0x2_0000_0000_0000
    } else if k == 8 {
        0x100_0000_0000_0000
    } else if k == 9 {
        0x8000_0000_0000_0000
    } else {
        0x40_0000_0000_0000_0000
    }
}

/// The number of values that encodings shorter than `k + 1` bytes cover:
/// `128 + 128^2 + ... + 128^k`. The smallest value of `k + 1` bytes.
pub open spec fn base(k: nat) -> nat
    decreases k,
{
    if k == 0 {
        0
    } else {
        base((k - 1) as nat) + pow128(k)
    }
}

/// The number of bytes that the encoding of `n` takes.
pub open spec fn width(n: nat) -> nat {
    if n < base(1) {
        1
    } else if n < base(2) {
        2
    } else if n < base(3) {
        3
    } else if n < base(4) {
        4
    } else if n < base(5) {
        5
    } else if n < base(6) {
        6
    } else if n < base(7) {
        7
    } else if n < base(8) {
        8
    } else if n < base(9) {
        9
    } else {
        10
    }
}

/// The payload `r` in `nb` bytes: seven bits each, lowest group first, the
/// high bit set on all but the last.
pub open spec fn digits(r: nat, nb: nat) -> Seq<u8>
    decreases nb,
{
    if nb <= 1 {
        seq![(r % 128) as u8]
    } else {
        seq![(r % 128 + 128) as u8] + digits(r / 128, (nb - 1) as nat)
    }
}

/// The encoding of `n`.
pub open spec fn encode_spec(n: u64) -> Seq<u8> {
    digits((n - base((width(n as nat) - 1) as nat)) as nat, width(n as nat))
}

/// The index of the first byte at or after `from`, among the first ten, whose
/// high bit is clear.
pub open spec fn scan(s: Seq<u8>, from: nat) -> Option<nat>
    decreases 10 - from,
{
    if from >= 10 || from >= s.len() {
        None
    } else if s[from as int] < 128 {
        Some(from)
    } else {
        scan(s, from + 1)
    }
}

/// The payload that the bytes from `from` up to `to` carry.
pub open spec fn payload(s: Seq<u8>, from: nat, to: nat) -> nat
    decreases to - from,
{
    if from >= to {
        0
    } else {
        (s[from as int] % 128) as nat + 128 * payload(s, from + 1, to)
    }
}

/// What reading the payload at the front of `s` gives: the payload and the
/// number of bytes it took.
pub open spec fn std_decode_spec(s: Seq<u8>) -> Result<(u128, u8), DecodeError> {
    match scan(s, 0) {
        Some(k) => Ok((payload(s, 0, k + 1) as u128, (k + 1) as u8)),
        None => if s.len() >= 10 {
            Err(DecodeError::ValueTooBig)
        } else {
            Err(DecodeError::MissingBytes)
        },
    }
}

/// What decoding the front of `s` gives: the value and the number of bytes
/// read, or why there is none.
pub open spec fn decode_spec(s: Seq<u8>) -> Result<(u64, u8), DecodeError> {
    match std_decode_spec(s) {
        Ok((extra, nb)) => if extra + base((nb - 1) as nat) <= u64::MAX {
            Ok(((extra + base((nb - 1) as nat)) as u64, nb))
        } else {
            Err(DecodeError::ValueTooBig)
        },
        Err(e) => Err(e),
    }
}

proof fn lemma_base_values()
    ensures
        base(0) == 0,
        base(1) == 0x80,
        base(2) == 0x4080,
        base(3) == 0x20_4080,
        base(4) == 0x1020_4080,
        base(5) == 0x8_1020_4080,
        base(6) == 0x408_1020_4080,
        base(7) == 0x2_0408_1020_4080,
        base(8) == 0x102_0408_1020_4080,
        base(9) == 0x8102_0408_1020_4080,
{
    reveal_with_fuel(base, 11);
}

/// The exec form of [`pow128`] for the widths that fit 64 bits.
fn limit_of(k: usize) -> (r: u64)
    requires
        k < 9,
    ensures
        r == pow128((k + 1) as nat),
{
    if k == 0 {
        0x80
    } else if k == 1 {
        0x4000
    } else if k == 2 {
        0x20_0000
    } else if k == 3 {
        0x1000_0000
    } else if k == 4 {
        0x8_0000_0000
    } else if k == 5 {
        0x400_0000_0000
    } else if k == 6 {
        0x2_0000_0000_0000
    } else if k == 7 {
        0x100_0000_0000_0000
    } else {
        0x8000_0000_0000_0000
    }
}

/// The exec form of [`base`].
fn base_of(k: usize) -> (r: u64)
    requires
        k <= 9,
    ensures
        r == base(k as nat),
{
    proof {
        lemma_base_values();
    }
    if k == 0 {
        0
    } else if k == 1 {
        0x80
    } else if k == 2 {
        0x4080
    } else if k == 3 {
        0x20_4080
    } else if k == 4 {
        0x1020_4080
    } else if k == 5 {
        0x8_1020_4080
    } else if k == 6 {
        0x408_1020_4080
    } else if k == 7 {
        0x2_0408_1020_4080
    } else if k == 8 {
        0x102_0408_1020_4080
    } else {
        0x8102_0408_1020_4080
    }
}

fn std_encode(n: u64, nb_bytes: usize) -> (ret: Vec<u8>)
    requires
        1 <= nb_bytes <= 10,
    ensures
        ret@ == digits(n as nat, nb_bytes as nat),
{
    let mut ret: Vec<u8> = Vec::new();
    let mut cur: u64 = n;
    let mut i: usize = 1;
    while i < nb_bytes
        invariant
            1 <= i <= nb_bytes <= 10,
            ret@ + digits(cur as nat, (nb_bytes - i + 1) as nat) == digits(
                n as nat,
                nb_bytes as nat,
            ),
        decreases nb_bytes - i,
    {
        let ghost before = ret@;
        ret.push((cur % 128) as u8 + 128);
        proof {
            let rest = digits((cur / 128) as nat, (nb_bytes - i) as nat);
            assert(digits(cur as nat, (nb_bytes - i + 1) as nat) == seq![
                (cur % 128 + 128) as u8,
            ] + rest);
            assert(ret@ + rest =~= before + (seq![(cur % 128 + 128) as u8] + rest));
        }
        cur = cur / 128;
        i += 1;
    }
    let ghost before = ret@;
    ret.push((cur % 128) as u8);
    proof {
        assert(ret@ =~= before + digits(cur as nat, 1));
    }
    ret
}

/// Encodes `n` in the fewest bytes that hold it.
pub fn encode(n: u64) -> (ret: Vec<u8>)
    ensures
        ret@ == encode_spec(n),
        ret@.len() == width(n as nat),
{
    let mut cur: u64 = n;
    let mut k: usize = 0;
    while k < 9
        invariant
            k <= 9,
            n >= base(k as nat),
            cur == n - base(k as nat),
        decreases 9 - k,
    {
        let limit: u64 = limit_of(k);
        proof {
            lemma_base_values();
            lemma_digits_len(cur as nat, (k + 1) as nat);
        }
        if cur < limit {
            return std_encode(cur, k + 1);
        }
        cur -= limit;
        k += 1;
    }
    proof {
        lemma_base_values();
        lemma_digits_len(cur as nat, 10);
    }
    std_encode(cur, 10)
}

fn std_decode(data: &[u8]) -> (r: Result<(u128, u8), DecodeError>)
    ensures
        r == std_decode_spec(data@),
        r matches Ok((extra, nb)) ==> 1 <= nb <= 10 && nb <= data@.len() && extra < pow128(
            nb as nat,
        ) && scan(data@, 0) == Some((nb - 1) as nat),
{
    let mut k: usize = 0;
    while k < 10 && k < data.len() && data[k] >= 128
        invariant
            k <= 10,
            k <= data@.len(),
            scan(data@, 0) == scan(data@, k as nat),
        decreases 10 - k,
    {
        k += 1;
    }
    if k >= 10 {
        return Err(DecodeError::ValueTooBig);
    }
    if k >= data.len() {
        return Err(DecodeError::MissingBytes);
    }
    let mut acc: u128 = 0;
    let mut i: usize = k + 1;
    while i > 0
        invariant
            i <= k + 1 <= 10,
            k < data@.len(),
            acc == payload(data@, i as nat, (k + 1) as nat),
            acc < pow128((k + 1 - i) as nat),
        decreases i,
    {
        i -= 1;
        acc = acc * 128 + (data[i] % 128) as u128;
    }
    Ok((acc, (k + 1) as u8))
}

/// Decodes the value at the front of `data` and says how many bytes it took.
pub fn decode(data: &[u8]) -> (r: Result<(u64, u8), DecodeError>)
    ensures
        r == decode_spec(data@),
        r matches Ok((_, nb)) ==> 1 <= nb <= 10 && nb <= data@.len(),
{
    match std_decode(data) {
        Ok((extra, nb_bytes)) => {
            let b: u64 = base_of((nb_bytes - 1) as usize);
            if extra <= (u64::MAX - b) as u128 {
                Ok((extra as u64 + b, nb_bytes))
            } else {
                Err(DecodeError::ValueTooBig)
            }
        },
        Err(e) => Err(e),
    }
}

pub proof fn lemma_digits_len(r: nat, nb: nat)
    ensures
        digits(r, nb).len() == if nb <= 1 {
            1
        } else {
            nb
        },
    decreases nb,
{
    if nb > 1 {
        lemma_digits_len(r / 128, (nb - 1) as nat);
    }
}

/// The encoding of `n` has as many bytes as its width says, between one and
/// ten.
pub proof fn lemma_encode_len(n: u64)
    ensures
        encode_spec(n).len() == width(n as nat),
        1 <= width(n as nat) <= 10,
{
    lemma_digits_len((n - base((width(n as nat) - 1) as nat)) as nat, width(n as nat));
}

/// Bytes that start with the `nb` digits of a payload `r < 128^nb` end their
/// scan at the last digit and carry `r`.
proof fn lemma_digits_read(r: nat, nb: nat, s: Seq<u8>, from: nat)
    requires
        1 <= nb,
        from + nb <= 10,
        from + nb <= s.len(),
        r < pow128(nb),
        forall|i: int| 0 <= i < nb ==> s[from as int + i] == #[trigger] digits(r, nb)[i],
    ensures
        scan(s, from) == Some((from + nb - 1) as nat),
        payload(s, from, from + nb) == r,
    decreases nb,
{
    lemma_digits_len(r, nb);
    assert(s[from as int + 0] == digits(r, nb)[0]);
    if nb > 1 {
        let rest = digits(r / 128, (nb - 1) as nat);
        lemma_digits_len(r / 128, (nb - 1) as nat);
        assert forall|i: int| 0 <= i < nb - 1 implies s[(from + 1) as int + i] == #[trigger] rest[i] by {
            assert(s[from as int + (i + 1)] == digits(r, nb)[i + 1]);
        }
        lemma_digits_read(r / 128, (nb - 1) as nat, s, from + 1);
        assert(payload(s, from + 1, from + nb) == r / 128);
    } else {
        assert(payload(s, from + 1, from + 1) == 0);
    }
}

/// Decoding reads back what was encoded, whatever follows it: input that
/// starts with the encoding of `n` decodes to `n` and the encoding's length.
pub proof fn lemma_decode_encode(n: u64, s: Seq<u8>)
    requires
        encode_spec(n).is_prefix_of(s),
    ensures
        decode_spec(s) == Ok::<(u64, u8), DecodeError>((n, width(n as nat) as u8)),
        encode_spec(n).len() == width(n as nat),
        1 <= width(n as nat) <= 10,
{
    lemma_base_values();
    let w = width(n as nat);
    let r = (n - base((w - 1) as nat)) as nat;
    lemma_digits_len(r, w);
    assert forall|i: int| 0 <= i < w implies s[0 as int + i] == #[trigger] digits(r, w)[i] by {}
    lemma_digits_read(r, w, s, 0);
}

/// Decoding the encoding of `n` gives `n` and the number of bytes of the
/// encoding.
pub proof fn lemma_roundtrip(n: u64)
    ensures
        decode_spec(encode_spec(n)) == Ok::<(u64, u8), DecodeError>(
            (n, encode_spec(n).len() as u8),
        ),
{
    lemma_decode_encode(n, encode_spec(n));
}

/// No two values share an encoding.
pub proof fn lemma_encode_injective(n: u64, m: u64)
    requires
        n != m,
    ensures
        encode_spec(n) != encode_spec(m),
{
    lemma_roundtrip(n);
    lemma_roundtrip(m);
}

/// The length of the encoding never shrinks as the value grows, and it grows
/// by one exactly where the value reaches the next base.
pub proof fn lemma_width_steps(n: u64, m: u64, k: nat)
    ensures
        n <= m ==> encode_spec(n).len() <= encode_spec(m).len(),
        1 <= k <= 9 && n == base(k) ==> encode_spec(n).len() == k + 1 && encode_spec(
            (n - 1) as u64,
        ).len() == k,
{
    lemma_base_values();
    lemma_decode_encode(n, encode_spec(n));
    lemma_decode_encode(m, encode_spec(m));
    if 1 <= k <= 9 && n == base(k) {
        lemma_decode_encode((n - 1) as u64, encode_spec((n - 1) as u64));
    }
}

/// Where a scan ends: at a byte below `0x80`, among the first ten, after
/// bytes that are not below it.
pub proof fn lemma_scan_some(s: Seq<u8>, from: nat)
    requires
        scan(s, from) is Some,
    ensures
        from <= scan(s, from)->Some_0 < 10,
        scan(s, from)->Some_0 < s.len(),
        s[scan(s, from)->Some_0 as int] < 128,
        forall|i: int| from <= i < scan(s, from)->Some_0 ==> s[i] >= 128,
    decreases 10 - from,
{
    if from < 10 && from < s.len() && s[from as int] >= 128 {
        lemma_scan_some(s, from + 1);
    }
}

proof fn lemma_scan_same(s: Seq<u8>, t: Seq<u8>, from: nat, k: nat)
    requires
        from <= k < 10,
        k < s.len(),
        k < t.len(),
        s[k as int] < 128,
        forall|i: int| from <= i < k ==> s[i] >= 128,
        forall|i: int| from <= i <= k ==> s[i] == t[i],
    ensures
        scan(t, from) == Some(k),
    decreases k - from,
{
    if from < k {
        lemma_scan_same(s, t, from + 1, k);
    }
}

proof fn lemma_payload_same(s: Seq<u8>, t: Seq<u8>, from: nat, to: nat)
    requires
        forall|i: int| from <= i < to ==> s[i] == t[i],
    ensures
        payload(s, from, to) == payload(t, from, to),
    decreases to - from,
{
    if from < to {
        lemma_payload_same(s, t, from + 1, to);
    }
}

/// Decoding looks at no byte after those that it counts as read: input that
/// has the same bytes there decodes to the same value.
pub proof fn lemma_decode_local(s: Seq<u8>, t: Seq<u8>)
    requires
        decode_spec(s) is Ok,
        decode_spec(s)->Ok_0.1 <= t.len(),
        forall|i: int| 0 <= i < decode_spec(s)->Ok_0.1 ==> s[i] == t[i],
    ensures
        decode_spec(t) == decode_spec(s),
        1 <= decode_spec(s)->Ok_0.1 <= 10,
        decode_spec(s)->Ok_0.1 <= s.len(),
{
    lemma_scan_some(s, 0);
    let k = scan(s, 0)->Some_0;
    lemma_scan_same(s, t, 0, k);
    lemma_payload_same(s, t, 0, k + 1);
}

} // verus!
