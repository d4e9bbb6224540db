//! Numbers as the Kafka protocol writes them: big-endian integers and variable-length integers.
use vstd::prelude::*;

verus! {

/// The unsigned number in the four bytes of `s` that start at `at`, most significant byte first.
pub open spec fn u32_at(s: Seq<u8>, at: int) -> int {
    s[at] * 0x100_0000 + s[at + 1] * 0x1_0000 + s[at + 2] * 0x100 + s[at + 3]
}

/// The signed number in the four bytes of `s` that start at `at`.
pub open spec fn i32_at(s: Seq<u8>, at: int) -> int {
    if u32_at(s, at) < 0x8000_0000 {
        u32_at(s, at)
    } else {
        u32_at(s, at) - 0x1_0000_0000
    }
}

/// The signed number in the two bytes of `s` that start at `at`.
pub open spec fn i16_at(s: Seq<u8>, at: int) -> int {
    let u = s[at] * 0x100 + s[at + 1];
    if u < 0x8000 {
        u
    } else {
        u - 0x1_0000
    }
}

/// The four bytes that stand for `v`, most significant byte first.
pub open spec fn i32_bytes(v: int) -> Seq<u8> {
    let u = if v < 0 {
        v + 0x1_0000_0000
    } else {
        v
    };
    seq![
        (u / 0x100_0000) as u8,
        (u / 0x1_0000 % 0x100) as u8,
        (u / 0x100 % 0x100) as u8,
        (u % 0x100) as u8,
    ]
}

/// The variable-length form of `v`: seven bits to a byte, the least significant first, with the
/// high bit set on every byte but the last.
pub open spec fn varint(v: nat) -> Seq<u8>
    decreases v,
{
    if v < 128 {
        seq![v as u8]
    } else {
        seq![(v % 128 + 128) as u8] + varint(v / 128)
    }
}

/// The number that the bytes from `at` on spell in variable-length form, and the position after
/// it. `room` bytes may be read; there is no number where they run out first.
pub open spec fn varint_within(s: Seq<u8>, at: int, room: nat) -> Option<(nat, int)>
    decreases room,
{
    if room == 0 || at >= s.len() {
        None
    } else if s[at] < 128 {
        Some((s[at] as nat, at + 1))
    } else {
        match varint_within(s, at + 1, (room - 1) as nat) {
            None => None,
            Some((rest, end)) => Some(((s[at] - 128 + 128 * rest) as nat, end)),
        }
    }
}

/// The 32-bit number in variable-length form that starts at `at`, and the position after it.
/// Five bytes are the most it can take; what the fifth holds above the 32nd bit is dropped.
pub open spec fn varint_at(s: Seq<u8>, at: int) -> Option<(nat, int)> {
    match varint_within(s, at, 5) {
        None => None,
        Some((v, end)) => Some((v % 0x1_0000_0000, end)),
    }
}

/// A four-byte number reads back as it was written, whatever stands around it.
pub proof fn i32_reads_back(before: Seq<u8>, v: i32, after: Seq<u8>)
    ensures
        i32_bytes(v as int).len() == 4,
        i32_at(before + i32_bytes(v as int) + after, before.len() as int) == v,
{
    let s = before + i32_bytes(v as int) + after;
    let at = before.len() as int;
    let u = if v < 0 {
        v + 0x1_0000_0000
    } else {
        v as int
    };
    assert(s[at] == (u / 0x100_0000) as u8);
    assert(s[at + 1] == (u / 0x1_0000 % 0x100) as u8);
    assert(s[at + 2] == (u / 0x100 % 0x100) as u8);
    assert(s[at + 3] == (u % 0x100) as u8);
    assert(u32_at(s, at) == u);
}

/// The four bytes from which a number was read are the bytes that stand for it.
pub proof fn i32_writes_back(s: Seq<u8>, at: int)
    requires
        0 <= at,
        at + 4 <= s.len(),
    ensures
        i32_bytes(i32_at(s, at)) == s.subrange(at, at + 4),
        i32::MIN <= i32_at(s, at) <= i32::MAX,
{
    let u = u32_at(s, at);
    lemma_four_digits(s[at] as int, s[at + 1] as int, s[at + 2] as int, s[at + 3] as int);
    assert(i32_bytes(i32_at(s, at)) =~= s.subrange(at, at + 4));
}

/// Four digits of a number to the base 256 are what division takes apart.
proof fn lemma_four_digits(a: int, b: int, c: int, d: int)
    requires
        0 <= a < 0x100,
        0 <= b < 0x100,
        0 <= c < 0x100,
        0 <= d < 0x100,
    ensures
        ({
            let u = a * 0x100_0000 + b * 0x1_0000 + c * 0x100 + d;
            &&& 0 <= u < 0x1_0000_0000
            &&& u / 0x100_0000 == a
            &&& u / 0x1_0000 % 0x100 == b
            &&& u / 0x100 % 0x100 == c
            &&& u % 0x100 == d
        }),
{
    let u = a * 0x100_0000 + b * 0x1_0000 + c * 0x100 + d;
    let x = a * 0x100 + b;
    let y = x * 0x100 + c;
    assert(u == y * 0x100 + d);
    assert(u / 0x100 == y);
    assert(u / 0x1_0000 == x);
    assert(u / 0x100_0000 == a);
}

proof fn lemma_varint_reads_back(before: Seq<u8>, v: nat, after: Seq<u8>, room: nat)
    requires
        room >= 1,
        v < vstd::arithmetic::power::pow(128, room),
    ensures
        varint_within(before + varint(v) + after, before.len() as int, room) == Some(
            (v, (before.len() + varint(v).len()) as int),
        ),
        1 <= varint(v).len() <= room,
    decreases room,
{
    let s = before + varint(v) + after;
    let at = before.len() as int;
    reveal(vstd::arithmetic::power::pow);
    if v < 128 {
        assert(s[at] == v as u8);
    } else {
        assert(room >= 2) by {
            assert(vstd::arithmetic::power::pow(128, 1) == 128) by {
                reveal_with_fuel(vstd::arithmetic::power::pow, 2);
            }
        }
        let head = seq![(v % 128 + 128) as u8];
        assert(s[at] == (v % 128 + 128) as u8);
        assert(before + (head + varint(v / 128)) + after =~= (before + head) + varint(v / 128)
            + after);
        assert(v / 128 < vstd::arithmetic::power::pow(128, (room - 1) as nat)) by {
            assert(vstd::arithmetic::power::pow(128, room) == 128 * vstd::arithmetic::power::pow(
                128,
                (room - 1) as nat,
            ));
        }
        lemma_varint_reads_back(before + head, v / 128, after, (room - 1) as nat);
    }
}

/// A number in variable-length form reads back as it was written, whatever stands around it.
pub proof fn varint_reads_back(before: Seq<u8>, v: u32, after: Seq<u8>)
    ensures
        1 <= varint(v as nat).len() <= 5,
        varint_at(before + varint(v as nat) + after, before.len() as int) == Some(
            (v as nat, (before.len() + varint(v as nat).len()) as int),
        ),
{
    assert(vstd::arithmetic::power::pow(128, 5) == 0x8_0000_0000) by {
        reveal_with_fuel(vstd::arithmetic::power::pow, 6);
    }
    lemma_varint_reads_back(before, v as nat, after, 5);
}

/// Reads the four-byte number that starts at `at`.
pub fn read_i32(raw: &[u8], at: usize) -> (r: i32)
    requires
        at + 4 <= raw@.len(),
    ensures
        r == i32_at(raw@, at as int),
{
    let u: u32 = raw[at] as u32 * 0x100_0000 + raw[at + 1] as u32 * 0x1_0000 + raw[at + 2] as u32
        * 0x100 + raw[at + 3] as u32;
    if u < 0x8000_0000 {
        u as i32
    } else {
        (u as i64 - 0x1_0000_0000) as i32
    }
}

/// Reads the two-byte number that starts at `at`.
pub fn read_i16(raw: &[u8], at: usize) -> (r: i16)
    requires
        at + 2 <= raw@.len(),
    ensures
        r == i16_at(raw@, at as int),
{
    let u: u32 = raw[at] as u32 * 0x100 + raw[at + 1] as u32;
    if u < 0x8000 {
        u as i16
    } else {
        (u as i32 - 0x1_0000) as i16
    }
}

/// Writes `v` in four bytes at the end of `out`.
pub fn push_i32(out: &mut Vec<u8>, v: i32)
    ensures
        final(out)@ == old(out)@ + i32_bytes(v as int),
{
    let u: i64 = if v < 0 {
        v as i64 + 0x1_0000_0000
    } else {
        v as i64
    };
    out.push((u / 0x100_0000) as u8);
    out.push((u / 0x1_0000 % 0x100) as u8);
    out.push((u / 0x100 % 0x100) as u8);
    out.push((u % 0x100) as u8);
    assert(out@ =~= old(out)@ + i32_bytes(v as int));
}

/// Writes the bytes of `data` from `from` on at the end of `out`.
pub fn push_from(out: &mut Vec<u8>, data: &[u8], from: usize)
    requires
        from <= data@.len(),
    ensures
        final(out)@ == old(out)@ + data@.skip(from as int),
{
    push_range(out, data, from, data.len());
    assert(data@.subrange(from as int, data@.len() as int) =~= data@.skip(from as int));
}

/// Writes the bytes of `data` from `from` up to `to` at the end of `out`.
pub fn push_range(out: &mut Vec<u8>, data: &[u8], from: usize, to: usize)
    requires
        from <= to <= data@.len(),
    ensures
        final(out)@ == old(out)@ + data@.subrange(from as int, to as int),
{
    let mut i: usize = from;
    assert(out@ =~= old(out)@ + data@.subrange(from as int, from as int));
    while i < to
        invariant
            from <= i <= to <= data@.len(),
            out@ == old(out)@ + data@.subrange(from as int, i as int),
        decreases to - i,
    {
        out.push(data[i]);
        assert(data@.subrange(from as int, i + 1) =~= data@.subrange(from as int, i as int).push(
            data@[i as int],
        ));
        i = i + 1;
        assert(out@ =~= old(out)@ + data@.subrange(from as int, i as int));
    }
}

fn read_varint_within(raw: &[u8], at: usize, room: u32) -> (r: Option<(u64, usize)>)
    requires
        room <= 5,
        at <= raw@.len(),
    ensures
        match r {
            Some((v, end)) => {
                &&& varint_within(raw@, at as int, room as nat) == Some((v as nat, end as int))
                &&& at < end <= raw@.len()
                &&& room >= 1
                &&& room <= 1 ==> v < 0x80
                &&& room <= 2 ==> v < 0x4000
                &&& room <= 3 ==> v < 0x20_0000
                &&& room <= 4 ==> v < 0x1000_0000
                &&& v < 0x8_0000_0000
            },
            None => varint_within(raw@, at as int, room as nat) is None,
        },
    decreases room,
{
    if room == 0 || at >= raw.len() {
        return None;
    }
    let byte = raw[at];
    if byte < 128 {
        return Some((byte as u64, at + 1));
    }
    match read_varint_within(raw, at + 1, room - 1) {
        None => None,
        Some((rest, end)) => Some((byte as u64 - 128 + 128 * rest, end)),
    }
}

/// Reads the number in variable-length form that starts at `at`.
pub fn read_varint(raw: &[u8], at: usize) -> (r: Option<(u32, usize)>)
    requires
        at <= raw@.len(),
    ensures
        match r {
            Some((v, end)) => {
                &&& varint_at(raw@, at as int) == Some((v as nat, end as int))
                &&& at < end <= raw@.len()
            },
            None => varint_at(raw@, at as int) is None,
        },
{
    match read_varint_within(raw, at, 5) {
        None => None,
        Some((v, end)) => Some(((v % 0x1_0000_0000) as u32, end)),
    }
}

/// A two-byte number is the high byte times 256 and the low byte, and negative from half of the
/// range on; a four-byte number is the same with four bytes.
pub proof fn numbers_have_the_high_byte_first(s: Seq<u8>, at: int)
    requires
        0 <= at,
        at + 4 <= s.len(),
    ensures
        (i16_at(s, at) - (s[at] * 256 + s[at + 1])) % 65536 == 0,
        -32768 <= i16_at(s, at) <= 32767,
        (i32_at(s, at) - (s[at] * 16777216 + s[at + 1] * 65536 + s[at + 2] * 256 + s[at + 3]))
            % 4294967296 == 0,
        -2147483648 <= i32_at(s, at) <= 2147483647,
{
}

} // verus!
