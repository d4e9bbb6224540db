//! How far a decoder gets through a response frame.
//!
//! The three responses that carry broker addresses are decoded field by field. A decoder that
//! meets a length that is larger than what is left refuses the frame. A decoder that needs the
//! bytes of a fixed-size field, or the rest of a variable-length integer, and does not find them
//! runs over the end of the frame. The functions here tell the three outcomes apart without
//! decoding anything.
use vstd::prelude::*;

use crate::wire;
use crate::wire::{read_i16, read_i32, read_varint};

verus! {

/// How far a decoder has come.
pub enum Reach {
    /// The next field starts at this position.
    At(int),
    /// The frame was refused.
    Refused,
    /// The frame ended inside a field.
    Overrun,
}

/// `Reach`, as a program holds it.
#[derive(Clone, Copy)]
pub enum Cursor {
    At(usize),
    Refused,
    Overrun,
}

impl View for Cursor {
    type V = Reach;

    open spec fn view(&self) -> Reach {
        match *self {
            Cursor::At(p) => Reach::At(p as int),
            Cursor::Refused => Reach::Refused,
            Cursor::Overrun => Reach::Overrun,
        }
    }
}

impl Cursor {
    /// The position lies within a frame of `len` bytes.
    pub open spec fn within(self, len: nat) -> bool {
        match self {
            Cursor::At(p) => p <= len,
            _ => true,
        }
    }
}

/// A field of `n` bytes that is read without a look at what is left.
pub open spec fn fixed(s: Seq<u8>, r: Reach, n: int) -> Reach {
    match r {
        Reach::At(p) => if p + n <= s.len() {
            Reach::At(p + n)
        } else {
            Reach::Overrun
        },
        _ => r,
    }
}

/// A field of `n` bytes that is refused where fewer are left.
pub open spec fn guarded(s: Seq<u8>, r: Reach, n: int) -> Reach {
    match r {
        Reach::At(p) => if p + n <= s.len() {
            Reach::At(p + n)
        } else {
            Reach::Refused
        },
        _ => r,
    }
}

/// A string: in the compact form a variable-length integer, one more than the length, and in the
/// older form a two-byte length, each followed by that many bytes. A length of nothing (zero, or
/// a negative number) stands for the empty string.
#[verifier::opaque]
pub open spec fn string(s: Seq<u8>, flexible: bool, r: Reach) -> Reach {
    match r {
        Reach::At(p) => if flexible {
            match wire::varint_at(s, p) {
                None => Reach::Overrun,
                Some((n, q)) => if n == 0 {
                    Reach::At(q)
                } else {
                    guarded(s, Reach::At(q), n - 1)
                },
            }
        } else if p + 2 > s.len() {
            Reach::Refused
        } else if wire::i16_at(s, p) < 0 {
            Reach::At(p + 2)
        } else {
            guarded(s, Reach::At(p + 2), wire::i16_at(s, p))
        },
        _ => r,
    }
}

/// A string that may be absent. In the compact form a zero byte stands for an absent one; in the
/// older form four bytes of ones do.
#[verifier::opaque]
pub open spec fn optional_string(s: Seq<u8>, flexible: bool, r: Reach) -> Reach {
    match r {
        Reach::At(p) => if flexible {
            if p >= s.len() {
                Reach::Refused
            } else if s[p] == 0 {
                Reach::At(p + 1)
            } else {
                string(s, flexible, r)
            }
        } else if p + 4 <= s.len() && wire::i32_at(s, p) == -1 {
            Reach::At(p + 4)
        } else {
            string(s, flexible, r)
        },
        _ => r,
    }
}

/// `item`, `n` times over.
pub open spec fn repeated(item: spec_fn(Reach) -> Reach, n: nat, r: Reach) -> Reach
    decreases n,
{
    if n == 0 {
        r
    } else {
        item(repeated(item, (n - 1) as nat, r))
    }
}

/// The count in front of an array: where the items start, and how many there are.
pub open spec fn array_start(s: Seq<u8>, flexible: bool, r: Reach) -> (Reach, nat) {
    match r {
        Reach::At(p) => if flexible {
            match wire::varint_at(s, p) {
                None => (Reach::Overrun, 0),
                Some((n, q)) => if n == 0 {
                    (Reach::At(q), 0)
                } else if n - 1 > s.len() - q {
                    (Reach::Refused, 0)
                } else {
                    (Reach::At(q), (n - 1) as nat)
                },
            }
        } else if p + 4 > s.len() {
            (Reach::Refused, 0)
        } else if wire::i32_at(s, p) < 0 {
            (Reach::At(p + 4), 0)
        } else if wire::i32_at(s, p) > s.len() - (p + 4) {
            (Reach::Refused, 0)
        } else {
            (Reach::At(p + 4), wire::i32_at(s, p) as nat)
        },
        _ => (r, 0),
    }
}

/// An array of `item`s.
#[verifier::opaque]
pub open spec fn array(
    s: Seq<u8>,
    flexible: bool,
    item: spec_fn(Reach) -> Reach,
    r: Reach,
) -> Reach {
    let (start, n) = array_start(s, flexible, r);
    repeated(item, n, start)
}

/// One tagged field: its tag, the length of its data, and the data.
pub open spec fn tagged_field(s: Seq<u8>, r: Reach) -> Reach {
    match r {
        Reach::At(p) => match wire::varint_at(s, p) {
            None => Reach::Overrun,
            Some((_, q)) => match wire::varint_at(s, q) {
                None => Reach::Overrun,
                Some((n, data)) => guarded(s, Reach::At(data), n as int),
            },
        },
        _ => r,
    }
}

/// The tagged fields that end every structure of the compact form.
pub open spec fn tagged_fields(s: Seq<u8>, r: Reach) -> Reach {
    match r {
        Reach::At(p) => match wire::varint_at(s, p) {
            None => Reach::Overrun,
            Some((n, q)) => if n > s.len() - q {
                Reach::Refused
            } else {
                repeated(|t: Reach| tagged_field(s, t), n, Reach::At(q))
            },
        },
        _ => r,
    }
}

/// The end of a structure.
#[verifier::opaque]
pub open spec fn structure_end(s: Seq<u8>, flexible: bool, r: Reach) -> Reach {
    if flexible {
        tagged_fields(s, r)
    } else {
        r
    }
}

/// `field` where `present`, and nothing otherwise.
pub open spec fn fixed_if(s: Seq<u8>, present: bool, r: Reach, n: int) -> Reach {
    if present {
        fixed(s, r, n)
    } else {
        r
    }
}

/// The response header: the correlation id, and tagged fields in the compact form.
pub open spec fn header(s: Seq<u8>, flexible: bool) -> Reach {
    structure_end(s, flexible, guarded(s, Reach::At(0), 4))
}

#[verifier::opaque]
pub open spec fn number_array(s: Seq<u8>, flexible: bool, r: Reach) -> Reach {
    array(s, flexible, |t: Reach| guarded(s, t, 4), r)
}

/// A broker of a metadata response.
pub open spec fn metadata_broker(s: Seq<u8>, version: int, flexible: bool, r: Reach) -> Reach {
    let host = string(s, flexible, fixed(s, r, 4));
    let port = fixed(s, host, 4);
    let rack = if version >= 1 {
        optional_string(s, flexible, port)
    } else {
        port
    };
    structure_end(s, flexible, rack)
}

/// A partition of a metadata response.
pub open spec fn metadata_partition(s: Seq<u8>, version: int, flexible: bool, r: Reach) -> Reach {
    let leader = fixed(s, fixed(s, fixed(s, r, 2), 4), 4);
    let epoch = fixed_if(s, version >= 7, leader, 4);
    let in_sync = number_array(s, flexible, number_array(s, flexible, epoch));
    let offline = if version >= 5 {
        number_array(s, flexible, in_sync)
    } else {
        in_sync
    };
    structure_end(s, flexible, offline)
}

/// A topic of a metadata response.
pub open spec fn metadata_topic(s: Seq<u8>, version: int, flexible: bool, r: Reach) -> Reach {
    let code = fixed(s, r, 2);
    let name = if version >= 12 {
        optional_string(s, flexible, code)
    } else {
        string(s, flexible, code)
    };
    let id = if version >= 10 {
        guarded(s, name, 16)
    } else {
        name
    };
    let internal = fixed_if(s, version >= 1, id, 1);
    let partitions = array(
        s,
        flexible,
        |t: Reach| metadata_partition(s, version, flexible, t),
        internal,
    );
    structure_end(s, flexible, fixed_if(s, version >= 8, partitions, 4))
}

/// A metadata response frame, in the form that `version` has.
pub open spec fn metadata_frame(s: Seq<u8>, version: int) -> Reach {
    let flexible = version >= 9;
    let throttle = fixed_if(s, version >= 3, header(s, flexible), 4);
    let brokers = array(
        s,
        flexible,
        |t: Reach| metadata_broker(s, version, flexible, t),
        throttle,
    );
    let cluster = if version >= 2 {
        optional_string(s, flexible, brokers)
    } else {
        brokers
    };
    let controller = fixed_if(s, version >= 1, cluster, 4);
    let topics = array(
        s,
        flexible,
        |t: Reach| metadata_topic(s, version, flexible, t),
        controller,
    );
    let operations = fixed_if(s, 8 <= version <= 10, topics, 4);
    structure_end(s, flexible, fixed_if(s, version >= 13, operations, 2))
}

/// A broker of a cluster description.
pub open spec fn cluster_broker(s: Seq<u8>, version: int, flexible: bool, r: Reach) -> Reach {
    let host = string(s, flexible, fixed(s, r, 4));
    let rack = optional_string(s, flexible, fixed(s, host, 4));
    structure_end(s, flexible, fixed_if(s, version >= 2, rack, 1))
}

/// A cluster description frame, in the form that `version` has.
pub open spec fn describe_cluster_frame(s: Seq<u8>, version: int) -> Reach {
    let flexible = version >= 0;
    let code = fixed(s, fixed(s, header(s, flexible), 4), 2);
    let message = optional_string(s, flexible, code);
    let endpoint = fixed_if(s, version >= 1, message, 1);
    let controller = fixed(s, string(s, flexible, endpoint), 4);
    let brokers = array(
        s,
        flexible,
        |t: Reach| cluster_broker(s, version, flexible, t),
        controller,
    );
    structure_end(s, flexible, fixed(s, brokers, 4))
}

/// One coordinator of a list of them.
pub open spec fn coordinator(s: Seq<u8>, flexible: bool, r: Reach) -> Reach {
    let node = fixed(s, string(s, flexible, r), 4);
    let port = fixed(s, string(s, flexible, node), 4);
    structure_end(s, flexible, optional_string(s, flexible, fixed(s, port, 2)))
}

/// A coordinator response frame, in the form that `version` has.
pub open spec fn find_coordinator_frame(s: Seq<u8>, version: int) -> Reach {
    let flexible = version >= 3;
    let single = 0 <= version <= 3;
    let throttle = fixed_if(s, version >= 1, header(s, flexible), 4);
    let code = fixed_if(s, single, throttle, 2);
    let message = if 1 <= version <= 3 {
        optional_string(s, flexible, code)
    } else {
        code
    };
    let node = fixed_if(s, single, message, 4);
    let host = if single {
        string(s, flexible, node)
    } else {
        node
    };
    let port = fixed_if(s, single, host, 4);
    let list = if version >= 4 {
        array(s, flexible, |t: Reach| coordinator(s, flexible, t), port)
    } else {
        port
    };
    structure_end(s, flexible, list)
}

fn skip_fixed(s: &[u8], c: Cursor, n: usize) -> (r: Cursor)
    requires
        c.within(s@.len()),
    ensures
        r@ == fixed(s@, c@, n as int),
        r.within(s@.len()),
{
    match c {
        Cursor::At(p) => if n <= s.len() - p {
            Cursor::At(p + n)
        } else {
            Cursor::Overrun
        },
        _ => c,
    }
}

fn skip_fixed_if(s: &[u8], present: bool, c: Cursor, n: usize) -> (r: Cursor)
    requires
        c.within(s@.len()),
    ensures
        r@ == fixed_if(s@, present, c@, n as int),
        r.within(s@.len()),
{
    if present {
        skip_fixed(s, c, n)
    } else {
        c
    }
}

fn skip_guarded(s: &[u8], c: Cursor, n: usize) -> (r: Cursor)
    requires
        c.within(s@.len()),
    ensures
        r@ == guarded(s@, c@, n as int),
        r.within(s@.len()),
{
    match c {
        Cursor::At(p) => if n <= s.len() - p {
            Cursor::At(p + n)
        } else {
            Cursor::Refused
        },
        _ => c,
    }
}

fn skip_string(s: &[u8], flexible: bool, c: Cursor) -> (r: Cursor)
    requires
        c.within(s@.len()),
    ensures
        r@ == string(s@, flexible, c@),
        r.within(s@.len()),
{
    proof {
        reveal(string);
    }
    match c {
        Cursor::At(p) => if flexible {
            match read_varint(s, p) {
                None => Cursor::Overrun,
                Some((n, q)) => if n == 0 {
                    Cursor::At(q)
                } else {
                    skip_guarded(s, Cursor::At(q), (n - 1) as usize)
                },
            }
        } else if s.len() - p < 2 {
            Cursor::Refused
        } else {
            let n: i16 = read_i16(s, p);
            if n < 0 {
                Cursor::At(p + 2)
            } else {
                skip_guarded(s, Cursor::At(p + 2), n as usize)
            }
        },
        _ => c,
    }
}

fn skip_optional_string(s: &[u8], flexible: bool, c: Cursor) -> (r: Cursor)
    requires
        c.within(s@.len()),
    ensures
        r@ == optional_string(s@, flexible, c@),
        r.within(s@.len()),
{
    proof {
        reveal(optional_string);
    }
    match c {
        Cursor::At(p) => if flexible {
            if p >= s.len() {
                Cursor::Refused
            } else if s[p] == 0 {
                Cursor::At(p + 1)
            } else {
                skip_string(s, flexible, c)
            }
        } else if s.len() - p >= 4 && read_i32(s, p) == -1 {
            Cursor::At(p + 4)
        } else {
            skip_string(s, flexible, c)
        },
        _ => c,
    }
}

fn skip_array_start(s: &[u8], flexible: bool, c: Cursor) -> (r: (Cursor, usize))
    requires
        c.within(s@.len()),
    ensures
        (r.0@, r.1 as nat) == array_start(s@, flexible, c@),
        r.0.within(s@.len()),
{
    match c {
        Cursor::At(p) => if flexible {
            match read_varint(s, p) {
                None => (Cursor::Overrun, 0),
                Some((n, q)) => if n == 0 {
                    (Cursor::At(q), 0)
                } else if (n - 1) as usize > s.len() - q {
                    (Cursor::Refused, 0)
                } else {
                    (Cursor::At(q), (n - 1) as usize)
                },
            }
        } else if s.len() - p < 4 {
            (Cursor::Refused, 0)
        } else {
            let n: i32 = read_i32(s, p);
            if n < 0 {
                (Cursor::At(p + 4), 0)
            } else if n as usize > s.len() - (p + 4) {
                (Cursor::Refused, 0)
            } else {
                (Cursor::At(p + 4), n as usize)
            }
        },
        _ => (c, 0),
    }
}

fn skip_tagged_field(s: &[u8], c: Cursor) -> (r: Cursor)
    requires
        c.within(s@.len()),
    ensures
        r@ == tagged_field(s@, c@),
        r.within(s@.len()),
{
    match c {
        Cursor::At(p) => match read_varint(s, p) {
            None => Cursor::Overrun,
            Some((_, q)) => match read_varint(s, q) {
                None => Cursor::Overrun,
                Some((n, data)) => skip_guarded(s, Cursor::At(data), n as usize),
            },
        },
        _ => c,
    }
}

fn skip_structure_end(s: &[u8], flexible: bool, c: Cursor) -> (r: Cursor)
    requires
        c.within(s@.len()),
    ensures
        r@ == structure_end(s@, flexible, c@),
        r.within(s@.len()),
{
    proof {
        reveal(structure_end);
    }
    if !flexible {
        return c;
    }
    match c {
        Cursor::At(p) => match read_varint(s, p) {
            None => Cursor::Overrun,
            Some((n, q)) => {
                if n as usize > s.len() - q {
                    return Cursor::Refused;
                }
                let ghost item = |t: Reach| tagged_field(s@, t);
                let mut at = Cursor::At(q);
                let mut i: u32 = 0;
                while i < n
                    invariant
                        i <= n,
                        at.within(s@.len()),
                        item == (|t: Reach| tagged_field(s@, t)),
                        at@ == repeated(item, i as nat, Reach::At(q as int)),
                    decreases n - i,
                {
                    at = skip_tagged_field(s, at);
                    i = i + 1;
                }
                at
            },
        },
        _ => c,
    }
}

fn skip_header(s: &[u8], flexible: bool) -> (r: Cursor)
    ensures
        r@ == header(s@, flexible),
        r.within(s@.len()),
{
    let id = skip_guarded(s, Cursor::At(0), 4);
    skip_structure_end(s, flexible, id)
}

fn skip_number_array(s: &[u8], flexible: bool, c: Cursor) -> (r: Cursor)
    requires
        c.within(s@.len()),
    ensures
        r@ == number_array(s@, flexible, c@),
        r.within(s@.len()),
{
    proof {
        reveal(number_array);
        reveal(array);
    }
    let ghost item = |t: Reach| guarded(s@, t, 4);
    let (mut at, n) = skip_array_start(s, flexible, c);
    let ghost start = at@;
    let mut i: usize = 0;
    while i < n
        invariant
            i <= n,
            at.within(s@.len()),
            item == (|t: Reach| guarded(s@, t, 4)),
            at@ == repeated(item, i as nat, start),
        decreases n - i,
    {
        at = skip_guarded(s, at, 4);
        i = i + 1;
    }
    at
}

fn skip_metadata_broker(s: &[u8], version: i16, flexible: bool, c: Cursor) -> (r: Cursor)
    requires
        c.within(s@.len()),
    ensures
        r@ == metadata_broker(s@, version as int, flexible, c@),
        r.within(s@.len()),
{
    let node = skip_fixed(s, c, 4);
    let host = skip_string(s, flexible, node);
    let port = skip_fixed(s, host, 4);
    let rack = if version >= 1 {
        skip_optional_string(s, flexible, port)
    } else {
        port
    };
    skip_structure_end(s, flexible, rack)
}

fn skip_metadata_brokers(s: &[u8], version: i16, flexible: bool, c: Cursor) -> (r: Cursor)
    requires
        c.within(s@.len()),
    ensures
        r@ == array(
            s@,
            flexible,
            |t: Reach| metadata_broker(s@, version as int, flexible, t),
            c@,
        ),
        r.within(s@.len()),
{
    proof {
        reveal(array);
    }
    let ghost item = |t: Reach| metadata_broker(s@, version as int, flexible, t);
    let (mut at, n) = skip_array_start(s, flexible, c);
    let ghost start = at@;
    let mut i: usize = 0;
    while i < n
        invariant
            i <= n,
            at.within(s@.len()),
            item == (|t: Reach| metadata_broker(s@, version as int, flexible, t)),
            at@ == repeated(item, i as nat, start),
        decreases n - i,
    {
        at = skip_metadata_broker(s, version, flexible, at);
        i = i + 1;
    }
    at
}

fn skip_metadata_partition(s: &[u8], version: i16, flexible: bool, c: Cursor) -> (r: Cursor)
    requires
        c.within(s@.len()),
    ensures
        r@ == metadata_partition(s@, version as int, flexible, c@),
        r.within(s@.len()),
{
    let code = skip_fixed(s, c, 2);
    let index = skip_fixed(s, code, 4);
    let leader = skip_fixed(s, index, 4);
    let epoch = skip_fixed_if(s, version >= 7, leader, 4);
    let replicas = skip_number_array(s, flexible, epoch);
    let in_sync = skip_number_array(s, flexible, replicas);
    let offline = if version >= 5 {
        skip_number_array(s, flexible, in_sync)
    } else {
        in_sync
    };
    skip_structure_end(s, flexible, offline)
}

fn skip_metadata_partitions(s: &[u8], version: i16, flexible: bool, c: Cursor) -> (r: Cursor)
    requires
        c.within(s@.len()),
    ensures
        r@ == array(
            s@,
            flexible,
            |t: Reach| metadata_partition(s@, version as int, flexible, t),
            c@,
        ),
        r.within(s@.len()),
{
    proof {
        reveal(array);
    }
    let ghost item = |t: Reach| metadata_partition(s@, version as int, flexible, t);
    let (mut at, n) = skip_array_start(s, flexible, c);
    let ghost start = at@;
    let mut i: usize = 0;
    while i < n
        invariant
            i <= n,
            at.within(s@.len()),
            item == (|t: Reach| metadata_partition(s@, version as int, flexible, t)),
            at@ == repeated(item, i as nat, start),
        decreases n - i,
    {
        at = skip_metadata_partition(s, version, flexible, at);
        i = i + 1;
    }
    at
}

fn skip_metadata_topic(s: &[u8], version: i16, flexible: bool, c: Cursor) -> (r: Cursor)
    requires
        c.within(s@.len()),
    ensures
        r@ == metadata_topic(s@, version as int, flexible, c@),
        r.within(s@.len()),
{
    let code = skip_fixed(s, c, 2);
    let name = if version >= 12 {
        skip_optional_string(s, flexible, code)
    } else {
        skip_string(s, flexible, code)
    };
    let id = if version >= 10 {
        skip_guarded(s, name, 16)
    } else {
        name
    };
    let internal = skip_fixed_if(s, version >= 1, id, 1);
    let partitions = skip_metadata_partitions(s, version, flexible, internal);
    let operations = skip_fixed_if(s, version >= 8, partitions, 4);
    skip_structure_end(s, flexible, operations)
}

fn skip_metadata_topics(s: &[u8], version: i16, flexible: bool, c: Cursor) -> (r: Cursor)
    requires
        c.within(s@.len()),
    ensures
        r@ == array(s@, flexible, |t: Reach| metadata_topic(s@, version as int, flexible, t), c@),
        r.within(s@.len()),
{
    proof {
        reveal(array);
    }
    let ghost item = |t: Reach| metadata_topic(s@, version as int, flexible, t);
    let (mut at, n) = skip_array_start(s, flexible, c);
    let ghost start = at@;
    let mut i: usize = 0;
    while i < n
        invariant
            i <= n,
            at.within(s@.len()),
            item == (|t: Reach| metadata_topic(s@, version as int, flexible, t)),
            at@ == repeated(item, i as nat, start),
        decreases n - i,
    {
        at = skip_metadata_topic(s, version, flexible, at);
        i = i + 1;
    }
    at
}

/// How far a decoder gets through a metadata response frame.
pub fn reach_in_metadata(s: &[u8], version: i16) -> (r: Cursor)
    ensures
        r@ == metadata_frame(s@, version as int),
{
    let flexible = version >= 9;
    let start = skip_header(s, flexible);
    let throttle = skip_fixed_if(s, version >= 3, start, 4);
    let brokers = skip_metadata_brokers(s, version, flexible, throttle);
    let cluster = if version >= 2 {
        skip_optional_string(s, flexible, brokers)
    } else {
        brokers
    };
    let controller = skip_fixed_if(s, version >= 1, cluster, 4);
    let topics = skip_metadata_topics(s, version, flexible, controller);
    let operations = skip_fixed_if(s, 8 <= version && version <= 10, topics, 4);
    let code = skip_fixed_if(s, version >= 13, operations, 2);
    skip_structure_end(s, flexible, code)
}

fn skip_cluster_broker(s: &[u8], version: i16, flexible: bool, c: Cursor) -> (r: Cursor)
    requires
        c.within(s@.len()),
    ensures
        r@ == cluster_broker(s@, version as int, flexible, c@),
        r.within(s@.len()),
{
    let node = skip_fixed(s, c, 4);
    let host = skip_string(s, flexible, node);
    let port = skip_fixed(s, host, 4);
    let rack = skip_optional_string(s, flexible, port);
    let fenced = skip_fixed_if(s, version >= 2, rack, 1);
    skip_structure_end(s, flexible, fenced)
}

/// How far a decoder gets through a cluster description frame.
pub fn reach_in_describe_cluster(s: &[u8], version: i16) -> (r: Cursor)
    ensures
        r@ == describe_cluster_frame(s@, version as int),
{
    proof {
        reveal(array);
    }
    let flexible = version >= 0;
    let start = skip_header(s, flexible);
    let throttle = skip_fixed(s, start, 4);
    let code = skip_fixed(s, throttle, 2);
    let message = skip_optional_string(s, flexible, code);
    let endpoint = skip_fixed_if(s, version >= 1, message, 1);
    let cluster = skip_string(s, flexible, endpoint);
    let controller = skip_fixed(s, cluster, 4);
    let ghost item = |t: Reach| cluster_broker(s@, version as int, flexible, t);
    let (mut at, n) = skip_array_start(s, flexible, controller);
    let ghost first = at@;
    let mut i: usize = 0;
    while i < n
        invariant
            i <= n,
            at.within(s@.len()),
            item == (|t: Reach| cluster_broker(s@, version as int, flexible, t)),
            at@ == repeated(item, i as nat, first),
        decreases n - i,
    {
        at = skip_cluster_broker(s, version, flexible, at);
        i = i + 1;
    }
    let operations = skip_fixed(s, at, 4);
    skip_structure_end(s, flexible, operations)
}

fn skip_coordinator(s: &[u8], flexible: bool, c: Cursor) -> (r: Cursor)
    requires
        c.within(s@.len()),
    ensures
        r@ == coordinator(s@, flexible, c@),
        r.within(s@.len()),
{
    let key = skip_string(s, flexible, c);
    let node = skip_fixed(s, key, 4);
    let host = skip_string(s, flexible, node);
    let port = skip_fixed(s, host, 4);
    let code = skip_fixed(s, port, 2);
    let message = skip_optional_string(s, flexible, code);
    skip_structure_end(s, flexible, message)
}

fn skip_coordinators(s: &[u8], flexible: bool, c: Cursor) -> (r: Cursor)
    requires
        c.within(s@.len()),
    ensures
        r@ == array(s@, flexible, |t: Reach| coordinator(s@, flexible, t), c@),
        r.within(s@.len()),
{
    proof {
        reveal(array);
    }
    let ghost item = |t: Reach| coordinator(s@, flexible, t);
    let (mut at, n) = skip_array_start(s, flexible, c);
    let ghost start = at@;
    let mut i: usize = 0;
    while i < n
        invariant
            i <= n,
            at.within(s@.len()),
            item == (|t: Reach| coordinator(s@, flexible, t)),
            at@ == repeated(item, i as nat, start),
        decreases n - i,
    {
        at = skip_coordinator(s, flexible, at);
        i = i + 1;
    }
    at
}

/// How far a decoder gets through a coordinator response frame.
pub fn reach_in_find_coordinator(s: &[u8], version: i16) -> (r: Cursor)
    ensures
        r@ == find_coordinator_frame(s@, version as int),
{
    let flexible = version >= 3;
    let single = 0 <= version && version <= 3;
    let start = skip_header(s, flexible);
    let throttle = skip_fixed_if(s, version >= 1, start, 4);
    let code = skip_fixed_if(s, single, throttle, 2);
    let message = if 1 <= version && version <= 3 {
        skip_optional_string(s, flexible, code)
    } else {
        code
    };
    let node = skip_fixed_if(s, single, message, 4);
    let host = if single {
        skip_string(s, flexible, node)
    } else {
        node
    };
    let port = skip_fixed_if(s, single, host, 4);
    let list = if version >= 4 {
        skip_coordinators(s, flexible, port)
    } else {
        port
    };
    skip_structure_end(s, flexible, list)
}

/// The bytes stand in `s` from `p` on.
#[verifier::opaque]
pub open spec fn stands(s: Seq<u8>, p: int, bytes: Seq<u8>) -> bool {
    0 <= p && p + bytes.len() <= s.len() && s.subrange(p, p + bytes.len()) == bytes
}

proof fn lemma_all_stands(s: Seq<u8>)
    ensures
        stands(s, 0, s),
{
    reveal(stands);
    assert(s.subrange(0, s.len() as int) =~= s);
}

proof fn lemma_split(s: Seq<u8>, p: int, a: Seq<u8>, b: Seq<u8>)
    requires
        stands(s, p, a + b),
    ensures
        stands(s, p, a),
        stands(s, p + a.len(), b),
        0 <= p,
        p + a.len() + b.len() <= s.len(),
{
    reveal(stands);
    let all = s.subrange(p, p + (a + b).len());
    assert(s.subrange(p, p + a.len()) =~= all.subrange(0, a.len() as int));
    assert(all.subrange(0, a.len() as int) =~= a);
    assert(s.subrange(p + a.len(), p + a.len() + b.len()) =~= all.subrange(
        a.len() as int,
        all.len() as int,
    ));
    assert(all.subrange(a.len() as int, all.len() as int) =~= b);
}

proof fn lemma_around(s: Seq<u8>, p: int, bytes: Seq<u8>)
    requires
        stands(s, p, bytes),
    ensures
        0 <= p,
        p + bytes.len() <= s.len(),
        s == s.take(p) + bytes + s.skip(p + bytes.len()),
{
    reveal(stands);
    assert(s =~= s.take(p) + s.subrange(p, p + bytes.len()) + s.skip(p + bytes.len()));
}

/// How the length of a text is written: in the compact form as one more, in variable length, and in
/// the older form in two bytes.
pub open spec fn text_bytes(flexible: bool, text: Seq<u8>) -> Seq<u8> {
    if flexible {
        wire::varint(text.len() + 1) + text
    } else {
        seq![(text.len() / 256) as u8, (text.len() % 256) as u8] + text
    }
}

/// A text is short enough for its length to be written.
pub open spec fn text_can_be_written(flexible: bool, text: Seq<u8>) -> bool {
    text.len() <= (if flexible {
        u32::MAX - 1
    } else {
        i16::MAX as int
    })
}

/// A text, or what stands for none: a zero byte in the compact form, and four bytes of ones in the
/// older form.
pub open spec fn option_bytes(flexible: bool, text: Option<Seq<u8>>) -> Seq<u8> {
    match text {
        Some(t) => text_bytes(flexible, t),
        None => if flexible {
            seq![0u8]
        } else {
            seq![255u8, 255u8, 255u8, 255u8]
        },
    }
}

/// A text is absent, or short enough for its length to be written.
pub open spec fn option_can_be_written(flexible: bool, text: Option<Seq<u8>>) -> bool {
    text matches Some(t) ==> text_can_be_written(flexible, t)
}

/// How the number of items of a list is written.
pub open spec fn count_bytes(flexible: bool, n: nat) -> Seq<u8> {
    if flexible {
        wire::varint(n + 1)
    } else {
        wire::i32_bytes(n as int)
    }
}

/// What ends a structure without tagged fields.
pub open spec fn end_bytes(flexible: bool) -> Seq<u8> {
    if flexible {
        seq![0u8]
    } else {
        Seq::empty()
    }
}

/// The items one behind the other.
pub open spec fn row(items: Seq<Seq<u8>>) -> Seq<u8>
    decreases items.len(),
{
    if items.len() == 0 {
        Seq::empty()
    } else {
        row(items.drop_last()) + items.last()
    }
}

/// `bytes` where `present`, and nothing otherwise.
pub open spec fn when(present: bool, bytes: Seq<u8>) -> Seq<u8> {
    if present {
        bytes
    } else {
        Seq::empty()
    }
}

/// A text is walked over as it was written.
pub proof fn text_is_walked(s: Seq<u8>, p: int, flexible: bool, text: Seq<u8>)
    requires
        stands(s, p, text_bytes(flexible, text)),
        text_can_be_written(flexible, text),
    ensures
        string(s, flexible, Reach::At(p)) == Reach::At(p + text_bytes(flexible, text).len()),
        !flexible ==> 0 <= wire::i16_at(s, p),
        flexible ==> s[p] != 0,
{
    reveal(string);
    reveal(stands);
    if flexible {
        let n = (text.len() + 1) as u32;
        lemma_split(s, p, wire::varint(n as nat), text);
        lemma_around(s, p, wire::varint(n as nat));
        wire::varint_reads_back(s.take(p), n, s.skip(p + wire::varint(n as nat).len()));
        assert(s.subrange(p, p + wire::varint(n as nat).len())[0] == s[p]);
        lemma_varint_starts(n as nat);
    } else {
        let head = seq![(text.len() / 256) as u8, (text.len() % 256) as u8];
        lemma_split(s, p, head, text);
        assert(s.subrange(p, p + 2)[0] == s[p]);
        assert(s.subrange(p, p + 2)[1] == s[p + 1]);
        assert(wire::i16_at(s, p) == text.len());
    }
}

proof fn lemma_varint_starts(n: nat)
    requires
        n > 0,
    ensures
        wire::varint(n).len() > 0,
        wire::varint(n)[0] != 0,
{
}

/// A text that may be absent is walked over as it was written.
pub proof fn option_is_walked(s: Seq<u8>, p: int, flexible: bool, text: Option<Seq<u8>>)
    requires
        stands(s, p, option_bytes(flexible, text)),
        option_can_be_written(flexible, text),
    ensures
        optional_string(s, flexible, Reach::At(p)) == Reach::At(
            p + option_bytes(flexible, text).len(),
        ),
{
    reveal(optional_string);
    reveal(stands);
    let all = option_bytes(flexible, text);
    match text {
        Some(t) => {
            text_is_walked(s, p, flexible, t);
        },
        None => {
            assert(s.subrange(p, p + all.len())[0] == s[p]);
            if !flexible {
                assert(s.subrange(p, p + 4)[1] == s[p + 1]);
                assert(s.subrange(p, p + 4)[2] == s[p + 2]);
                assert(s.subrange(p, p + 4)[3] == s[p + 3]);
            }
        },
    }
}

/// The end of a structure without tagged fields is walked over.
pub proof fn end_is_walked(s: Seq<u8>, p: int, flexible: bool)
    requires
        stands(s, p, end_bytes(flexible)),
    ensures
        structure_end(s, flexible, Reach::At(p)) == Reach::At(p + end_bytes(flexible).len()),
{
    reveal(structure_end);
    if flexible {
        assert(wire::varint(0) =~= seq![0u8]);
        lemma_around(s, p, seq![0u8]);
        wire::varint_reads_back(s.take(p), 0, s.skip(p + 1));
        assert(repeated(|t: Reach| tagged_field(s, t), 0, Reach::At(p + 1)) == Reach::At(p + 1));
    }
}

/// A list is walked over as it was written, where each item is walked over wherever it stands.
pub proof fn list_is_walked(
    s: Seq<u8>,
    p: int,
    flexible: bool,
    item: spec_fn(Reach) -> Reach,
    items: Seq<Seq<u8>>,
)
    requires
        stands(s, p, count_bytes(flexible, items.len()) + row(items)),
        items.len() <= i32::MAX,
        forall|k: int| 0 <= k < items.len() ==> (#[trigger] items[k]).len() > 0,
        forall|k: int, q: int|
            0 <= k < items.len() && #[trigger] stands(s, q, items[k]) ==> item(Reach::At(q))
                == Reach::At(q + items[k].len()),
    ensures
        array(s, flexible, item, Reach::At(p)) == Reach::At(
            p + count_bytes(flexible, items.len()).len() + row(items).len(),
        ),
{
    reveal(array);
    let n = items.len();
    let count = count_bytes(flexible, n);
    lemma_split(s, p, count, row(items));
    lemma_around(s, p, count);
    lemma_row_is_long(items);
    if flexible {
        wire::varint_reads_back(s.take(p), (n + 1) as u32, s.skip(p + count.len()));
    } else {
        wire::i32_reads_back(s.take(p), n as i32, s.skip(p + count.len()));
    }
    lemma_row_is_walked(s, p + count.len(), item, items);
}

proof fn lemma_row_is_long(items: Seq<Seq<u8>>)
    requires
        forall|k: int| 0 <= k < items.len() ==> (#[trigger] items[k]).len() > 0,
    ensures
        row(items).len() >= items.len(),
    decreases items.len(),
{
    if items.len() > 0 {
        let front = items.drop_last();
        assert forall|k: int| 0 <= k < front.len() implies (#[trigger] front[k]).len() > 0 by {
            assert(front[k] == items[k]);
        }
        lemma_row_is_long(front);
        assert(items[items.len() - 1].len() > 0);
    }
}

proof fn lemma_row_is_walked(
    s: Seq<u8>,
    p: int,
    item: spec_fn(Reach) -> Reach,
    items: Seq<Seq<u8>>,
)
    requires
        stands(s, p, row(items)),
        forall|k: int, q: int|
            0 <= k < items.len() && #[trigger] stands(s, q, items[k]) ==> item(Reach::At(q))
                == Reach::At(q + items[k].len()),
    ensures
        repeated(item, items.len(), Reach::At(p)) == Reach::At(p + row(items).len()),
    decreases items.len(),
{
    if items.len() > 0 {
        let front = items.drop_last();
        let k = front.len() as int;
        lemma_split(s, p, row(front), items.last());
        assert forall|j: int, q: int| 0 <= j < front.len() && #[trigger] stands(
            s,
            q,
            front[j],
        ) implies item(Reach::At(q)) == Reach::At(q + front[j].len()) by {
            assert(stands(s, q, items[j]));
        }
        lemma_row_is_walked(s, p, item, front);
        assert(stands(s, p + row(front).len(), items[k]));
    }
}

/// What is needed to write a coordinator of a list.
pub struct CoordinatorParts {
    pub key: Seq<u8>,
    pub node: Seq<u8>,
    pub host: Seq<u8>,
    pub port: Seq<u8>,
    pub code: Seq<u8>,
    pub message: Option<Seq<u8>>,
}

impl CoordinatorParts {
    /// Each part has its size, or fits.
    pub open spec fn sound(self) -> bool {
        &&& text_can_be_written(true, self.key)
        &&& self.node.len() == 4
        &&& text_can_be_written(true, self.host)
        &&& self.port.len() == 4
        &&& self.code.len() == 2
        &&& option_can_be_written(true, self.message)
    }

    pub open spec fn bytes(self) -> Seq<u8> {
        text_bytes(true, self.key) + (self.node + (text_bytes(true, self.host) + (self.port + (
        self.code + (option_bytes(true, self.message) + end_bytes(true))))))
    }
}

proof fn lemma_coordinator_is_walked(s: Seq<u8>, p: int, c: CoordinatorParts)
    requires
        stands(s, p, c.bytes()),
        c.sound(),
    ensures
        coordinator(s, true, Reach::At(p)) == Reach::At(p + c.bytes().len()),
        c.bytes().len() > 0,
{
    let a = text_bytes(true, c.key);
    let h = text_bytes(true, c.host);
    let m = option_bytes(true, c.message);
    let e = end_bytes(true);
    let p1 = p + a.len();
    let p2 = p1 + 4;
    let p3 = p2 + h.len();
    let p4 = p3 + 4;
    let p5 = p4 + 2;
    lemma_split(s, p, a, c.node + (h + (c.port + (c.code + (m + e)))));
    lemma_split(s, p1, c.node, h + (c.port + (c.code + (m + e))));
    lemma_split(s, p2, h, c.port + (c.code + (m + e)));
    lemma_split(s, p3, c.port, c.code + (m + e));
    lemma_split(s, p4, c.code, m + e);
    lemma_split(s, p5, m, e);
    text_is_walked(s, p, true, c.key);
    text_is_walked(s, p2, true, c.host);
    option_is_walked(s, p5, true, c.message);
    end_is_walked(s, p5 + m.len(), true);
}

/// A coordinator response from version 4 on, with any number of coordinators, is walked to its end:
/// correlation id, throttle time and the list.
pub proof fn coordinator_lists_are_walked(
    version: int,
    cid: Seq<u8>,
    throttle: Seq<u8>,
    list: Seq<CoordinatorParts>,
)
    requires
        version >= 4,
        cid.len() == 4,
        throttle.len() == 4,
        list.len() <= i32::MAX,
        forall|k: int| 0 <= k < list.len() ==> (#[trigger] list[k]).sound(),
    ensures
        ({
            let items = list.map_values(|c: CoordinatorParts| c.bytes());
            let frame = cid + (end_bytes(true) + (throttle + ((count_bytes(true, list.len()) + row(
                items,
            )) + end_bytes(true))));
            find_coordinator_frame(frame, version) == Reach::At(frame.len() as int)
        }),
{
    let items = list.map_values(|c: CoordinatorParts| c.bytes());
    let e = end_bytes(true);
    let body = count_bytes(true, list.len()) + row(items);
    let s = cid + (e + (throttle + (body + e)));
    lemma_all_stands(s);
    lemma_split(s, 0, cid, e + (throttle + (body + e)));
    lemma_split(s, 4, e, throttle + (body + e));
    lemma_split(s, 5, throttle, body + e);
    lemma_split(s, 9, body, e);
    end_is_walked(s, 4, true);
    let item = |t: Reach| coordinator(s, true, t);
    assert forall|k: int| 0 <= k < items.len() implies (#[trigger] items[k]).len() > 0 by {
        assert(items[k] == list[k].bytes());
        lemma_varint_starts(list[k].key.len() + 1);
    }
    assert forall|k: int, q: int| 0 <= k < items.len() && #[trigger] stands(
        s,
        q,
        items[k],
    ) implies item(Reach::At(q)) == Reach::At(q + items[k].len()) by {
        assert(items[k] == list[k].bytes());
        assert(list[k].sound());
        lemma_coordinator_is_walked(s, q, list[k]);
    }
    list_is_walked(s, 9, true, item, items);
    end_is_walked(s, 9 + body.len() as int, true);
}

/// A coordinator response up to version 3 is walked to its end: correlation id, throttle time from
/// version 1 on, error code, message from version 1 on, node, host and port.
pub proof fn single_coordinators_are_walked(
    version: int,
    cid: Seq<u8>,
    throttle: Seq<u8>,
    code: Seq<u8>,
    message: Option<Seq<u8>>,
    node: Seq<u8>,
    host: Seq<u8>,
    port: Seq<u8>,
)
    requires
        0 <= version <= 3,
        cid.len() == 4,
        throttle.len() == 4,
        code.len() == 2,
        node.len() == 4,
        port.len() == 4,
        option_can_be_written(version >= 3, message),
        text_can_be_written(version >= 3, host),
    ensures
        ({
            let flexible = version >= 3;
            let frame = cid + (end_bytes(flexible) + (when(version >= 1, throttle) + (code + (when(
                version >= 1,
                option_bytes(flexible, message),
            ) + (node + (text_bytes(flexible, host) + (port + end_bytes(flexible))))))));
            find_coordinator_frame(frame, version) == Reach::At(frame.len() as int)
        }),
{
    let flexible = version >= 3;
    let e = end_bytes(flexible);
    let t = when(version >= 1, throttle);
    let m = when(version >= 1, option_bytes(flexible, message));
    let h = text_bytes(flexible, host);
    let s = cid + (e + (t + (code + (m + (node + (h + (port + e)))))));
    lemma_all_stands(s);
    let p1 = 4 + e.len();
    let p2 = p1 + t.len();
    let p3 = p2 + 2;
    let p4 = p3 + m.len();
    let p5 = p4 + 4;
    let p6 = p5 + h.len();
    lemma_split(s, 0, cid, e + (t + (code + (m + (node + (h + (port + e)))))));
    lemma_split(s, 4, e, t + (code + (m + (node + (h + (port + e))))));
    lemma_split(s, p1 as int, t, code + (m + (node + (h + (port + e)))));
    lemma_split(s, p2 as int, code, m + (node + (h + (port + e))));
    lemma_split(s, p3 as int, m, node + (h + (port + e)));
    lemma_split(s, p4 as int, node, h + (port + e));
    lemma_split(s, p5 as int, h, port + e);
    lemma_split(s, p6 as int, port, e);
    end_is_walked(s, 4, flexible);
    if version >= 1 {
        option_is_walked(s, p3 as int, flexible, message);
    }
    text_is_walked(s, p5 as int, flexible, host);
    end_is_walked(s, p6 as int + 4, flexible);
}

/// What is needed to write a broker: node, host, port, rack, and in a cluster description from
/// version 2 on whether it is fenced.
pub struct BrokerParts {
    pub node: Seq<u8>,
    pub host: Seq<u8>,
    pub port: Seq<u8>,
    pub rack: Option<Seq<u8>>,
    pub fenced: Seq<u8>,
}

impl BrokerParts {
    /// Each part has its size, or fits.
    pub open spec fn sound(self, flexible: bool) -> bool {
        &&& self.node.len() == 4
        &&& text_can_be_written(flexible, self.host)
        &&& self.port.len() == 4
        &&& option_can_be_written(flexible, self.rack)
        &&& self.fenced.len() == 1
    }

    /// The bytes of a broker, with those parts that the version has.
    pub open spec fn bytes(self, flexible: bool, with_rack: bool, with_fenced: bool) -> Seq<u8> {
        self.node + (text_bytes(flexible, self.host) + (self.port + (when(
            with_rack,
            option_bytes(flexible, self.rack),
        ) + (when(with_fenced, self.fenced) + end_bytes(flexible)))))
    }
}

proof fn lemma_broker_is_walked(
    s: Seq<u8>,
    p: int,
    flexible: bool,
    with_rack: bool,
    with_fenced: bool,
    b: BrokerParts,
)
    requires
        stands(s, p, b.bytes(flexible, with_rack, with_fenced)),
        b.sound(flexible),
    ensures
        ({
            let host = string(s, flexible, fixed(s, Reach::At(p), 4));
            let port = fixed(s, host, 4);
            let rack = if with_rack {
                optional_string(s, flexible, port)
            } else {
                port
            };
            structure_end(s, flexible, fixed_if(s, with_fenced, rack, 1)) == Reach::At(
                p + b.bytes(flexible, with_rack, with_fenced).len(),
            )
        }),
{
    let h = text_bytes(flexible, b.host);
    let r = when(with_rack, option_bytes(flexible, b.rack));
    let f = when(with_fenced, b.fenced);
    let e = end_bytes(flexible);
    let p1 = p + 4;
    let p2 = p1 + h.len();
    let p3 = p2 + 4;
    let p4 = p3 + r.len();
    lemma_split(s, p, b.node, h + (b.port + (r + (f + e))));
    lemma_split(s, p1, h, b.port + (r + (f + e)));
    lemma_split(s, p2, b.port, r + (f + e));
    lemma_split(s, p3, r, f + e);
    lemma_split(s, p4, f, e);
    text_is_walked(s, p1, flexible, b.host);
    if with_rack {
        option_is_walked(s, p3, flexible, b.rack);
    }
    end_is_walked(s, p4 + f.len(), flexible);
}

/// A cluster description of any version, with any number of brokers, is walked to its end:
/// correlation id, throttle time, error code, message, endpoint type from version 1 on, cluster,
/// controller, brokers and permitted operations.
pub proof fn descriptions_are_walked(
    version: int,
    cid: Seq<u8>,
    throttle: Seq<u8>,
    code: Seq<u8>,
    message: Option<Seq<u8>>,
    endpoint: Seq<u8>,
    cluster: Seq<u8>,
    controller: Seq<u8>,
    list: Seq<BrokerParts>,
    operations: Seq<u8>,
)
    requires
        version >= 0,
        cid.len() == 4,
        throttle.len() == 4,
        code.len() == 2,
        option_can_be_written(true, message),
        endpoint.len() == 1,
        text_can_be_written(true, cluster),
        controller.len() == 4,
        operations.len() == 4,
        list.len() <= i32::MAX,
        forall|k: int| 0 <= k < list.len() ==> (#[trigger] list[k]).sound(true),
    ensures
        ({
            let items = list.map_values(|b: BrokerParts| b.bytes(true, true, version >= 2));
            let frame = cid + (end_bytes(true) + (throttle + (code + (option_bytes(true, message) + (
            when(version >= 1, endpoint) + (text_bytes(true, cluster) + (controller + ((count_bytes(
                true,
                list.len(),
            ) + row(items)) + (operations + end_bytes(true))))))))));
            describe_cluster_frame(frame, version) == Reach::At(frame.len() as int)
        }),
{
    let items = list.map_values(|b: BrokerParts| b.bytes(true, true, version >= 2));
    let e = end_bytes(true);
    let m = option_bytes(true, message);
    let d = when(version >= 1, endpoint);
    let c = text_bytes(true, cluster);
    let body = count_bytes(true, list.len()) + row(items);
    let s = cid + (e + (throttle + (code + (m + (d + (c + (controller + (body + (operations
        + e)))))))));
    lemma_all_stands(s);
    let p4 = 11 + m.len();
    let p5 = p4 + d.len();
    let p6 = p5 + c.len();
    let p7 = p6 + 4;
    let p8 = p7 + body.len();
    lemma_split(s, 0, cid, e + (throttle + (code + (m + (d + (c + (controller + (body + (operations
        + e)))))))));
    lemma_split(s, 4, e, throttle + (code + (m + (d + (c + (controller + (body + (operations
        + e))))))));
    lemma_split(s, 5, throttle, code + (m + (d + (c + (controller + (body + (operations + e)))))));
    lemma_split(s, 9, code, m + (d + (c + (controller + (body + (operations + e))))));
    lemma_split(s, 11, m, d + (c + (controller + (body + (operations + e)))));
    lemma_split(s, p4 as int, d, c + (controller + (body + (operations + e))));
    lemma_split(s, p5 as int, c, controller + (body + (operations + e)));
    lemma_split(s, p6 as int, controller, body + (operations + e));
    lemma_split(s, p7 as int, body, operations + e);
    lemma_split(s, p8 as int, operations, e);
    end_is_walked(s, 4, true);
    option_is_walked(s, 11, true, message);
    text_is_walked(s, p5 as int, true, cluster);
    let item = |t: Reach| cluster_broker(s, version, true, t);
    assert forall|k: int, q: int| 0 <= k < items.len() && #[trigger] stands(
        s,
        q,
        items[k],
    ) implies item(Reach::At(q)) == Reach::At(q + items[k].len()) by {
        assert(items[k] == list[k].bytes(true, true, version >= 2));
        assert(list[k].sound(true));
        lemma_broker_is_walked(s, q, true, true, version >= 2, list[k]);
    }
    assert forall|k: int| 0 <= k < items.len() implies (#[trigger] items[k]).len() > 0 by {
        assert(items[k] == list[k].bytes(true, true, version >= 2));
        assert(list[k].sound(true));
    }
    list_is_walked(s, p7 as int, true, item, items);
    end_is_walked(s, p8 as int + 4, true);
}

/// A list of four-byte numbers, as bytes.
pub open spec fn number_list_bytes(flexible: bool, numbers: Seq<Seq<u8>>) -> Seq<u8> {
    count_bytes(flexible, numbers.len()) + row(numbers)
}

/// Each number has four bytes.
pub open spec fn are_numbers(numbers: Seq<Seq<u8>>) -> bool {
    &&& numbers.len() <= i32::MAX
    &&& forall|k: int| 0 <= k < numbers.len() ==> (#[trigger] numbers[k]).len() == 4
}

proof fn lemma_numbers_are_walked(s: Seq<u8>, p: int, flexible: bool, numbers: Seq<Seq<u8>>)
    requires
        stands(s, p, number_list_bytes(flexible, numbers)),
        are_numbers(numbers),
    ensures
        number_array(s, flexible, Reach::At(p)) == Reach::At(
            p + number_list_bytes(flexible, numbers).len(),
        ),
{
    reveal(number_array);
    let item = |t: Reach| guarded(s, t, 4);
    assert forall|k: int, q: int| 0 <= k < numbers.len() && #[trigger] stands(
        s,
        q,
        numbers[k],
    ) implies item(Reach::At(q)) == Reach::At(q + numbers[k].len()) by {
        lemma_around(s, q, numbers[k]);
    }
    list_is_walked(s, p, flexible, item, numbers);
}

/// What is needed to write a partition of a metadata response.
pub struct PartitionParts {
    pub code: Seq<u8>,
    pub index: Seq<u8>,
    pub leader: Seq<u8>,
    pub epoch: Seq<u8>,
    pub replicas: Seq<Seq<u8>>,
    pub in_sync: Seq<Seq<u8>>,
    pub offline: Seq<Seq<u8>>,
}

impl PartitionParts {
    /// Each part has its size.
    pub open spec fn sound(self) -> bool {
        &&& self.code.len() == 2
        &&& self.index.len() == 4
        &&& self.leader.len() == 4
        &&& self.epoch.len() == 4
        &&& are_numbers(self.replicas)
        &&& are_numbers(self.in_sync)
        &&& are_numbers(self.offline)
    }

    /// The bytes of a partition: the leader's epoch from version 7 on, and the offline replicas
    /// from version 5 on.
    pub open spec fn bytes(self, version: int) -> Seq<u8> {
        let flexible = version >= 9;
        self.code + (self.index + (self.leader + (when(version >= 7, self.epoch) + (
        number_list_bytes(flexible, self.replicas) + (number_list_bytes(flexible, self.in_sync) + (
        when(version >= 5, number_list_bytes(flexible, self.offline)) + end_bytes(flexible)))))))
    }
}

proof fn lemma_partition_is_walked(s: Seq<u8>, p: int, version: int, part: PartitionParts)
    requires
        stands(s, p, part.bytes(version)),
        part.sound(),
    ensures
        metadata_partition(s, version, version >= 9, Reach::At(p)) == Reach::At(
            p + part.bytes(version).len(),
        ),
{
    let flexible = version >= 9;
    let o = when(version >= 7, part.epoch);
    let r = number_list_bytes(flexible, part.replicas);
    let i = number_list_bytes(flexible, part.in_sync);
    let f = when(version >= 5, number_list_bytes(flexible, part.offline));
    let e = end_bytes(flexible);
    let p3 = p + 10;
    let p4 = p3 + o.len();
    let p5 = p4 + r.len();
    let p6 = p5 + i.len();
    lemma_split(s, p, part.code, part.index + (part.leader + (o + (r + (i + (f + e))))));
    lemma_split(s, p + 2, part.index, part.leader + (o + (r + (i + (f + e)))));
    lemma_split(s, p + 6, part.leader, o + (r + (i + (f + e))));
    lemma_split(s, p3, o, r + (i + (f + e)));
    lemma_split(s, p4, r, i + (f + e));
    lemma_split(s, p5, i, f + e);
    lemma_split(s, p6, f, e);
    lemma_numbers_are_walked(s, p4, flexible, part.replicas);
    lemma_numbers_are_walked(s, p5, flexible, part.in_sync);
    if version >= 5 {
        lemma_numbers_are_walked(s, p6, flexible, part.offline);
    }
    end_is_walked(s, p6 + f.len(), flexible);
}

/// What is needed to write a topic of a metadata response.
pub struct TopicParts {
    pub code: Seq<u8>,
    pub name: Option<Seq<u8>>,
    pub id: Seq<u8>,
    pub internal: Seq<u8>,
    pub partitions: Seq<PartitionParts>,
    pub operations: Seq<u8>,
}

impl TopicParts {
    /// Each part has its size, or fits. Up to version 11 a topic has a name.
    pub open spec fn sound(self, version: int) -> bool {
        &&& self.code.len() == 2
        &&& option_can_be_written(version >= 9, self.name)
        &&& version < 12 ==> self.name is Some
        &&& self.id.len() == 16
        &&& self.internal.len() == 1
        &&& self.partitions.len() <= i32::MAX
        &&& forall|k: int|
            0 <= k < self.partitions.len() ==> (#[trigger] self.partitions[k]).sound()
        &&& self.operations.len() == 4
    }

    pub open spec fn partition_rows(self, version: int) -> Seq<Seq<u8>> {
        self.partitions.map_values(|part: PartitionParts| part.bytes(version))
    }

    /// The bytes of a topic: its id from version 10 on, whether it is internal from version 1 on,
    /// and the permitted operations from version 8 on.
    pub open spec fn bytes(self, version: int) -> Seq<u8> {
        let flexible = version >= 9;
        self.code + (option_bytes(flexible, self.name) + (when(version >= 10, self.id) + (when(
            version >= 1,
            self.internal,
        ) + ((count_bytes(flexible, self.partitions.len()) + row(self.partition_rows(version))) + (
        when(version >= 8, self.operations) + end_bytes(flexible))))))
    }
}

proof fn lemma_topic_is_walked(s: Seq<u8>, p: int, version: int, topic: TopicParts)
    requires
        stands(s, p, topic.bytes(version)),
        topic.sound(version),
    ensures
        metadata_topic(s, version, version >= 9, Reach::At(p)) == Reach::At(
            p + topic.bytes(version).len(),
        ),
{
    let flexible = version >= 9;
    let items = topic.partition_rows(version);
    let n = option_bytes(flexible, topic.name);
    let d = when(version >= 10, topic.id);
    let i = when(version >= 1, topic.internal);
    let body = count_bytes(flexible, topic.partitions.len()) + row(items);
    let o = when(version >= 8, topic.operations);
    let e = end_bytes(flexible);
    let p1 = p + 2;
    let p2 = p1 + n.len();
    let p3 = p2 + d.len();
    let p4 = p3 + i.len();
    let p5 = p4 + body.len();
    lemma_split(s, p, topic.code, n + (d + (i + (body + (o + e)))));
    lemma_split(s, p1, n, d + (i + (body + (o + e))));
    lemma_split(s, p2, d, i + (body + (o + e)));
    lemma_split(s, p3, i, body + (o + e));
    lemma_split(s, p4, body, o + e);
    lemma_split(s, p5, o, e);
    if version >= 12 {
        option_is_walked(s, p1, flexible, topic.name);
    } else {
        text_is_walked(s, p1, flexible, topic.name->0);
    }
    let item = |t: Reach| metadata_partition(s, version, flexible, t);
    assert forall|k: int, q: int| 0 <= k < items.len() && #[trigger] stands(
        s,
        q,
        items[k],
    ) implies item(Reach::At(q)) == Reach::At(q + items[k].len()) by {
        assert(items[k] == topic.partitions[k].bytes(version));
        assert(topic.partitions[k].sound());
        lemma_partition_is_walked(s, q, version, topic.partitions[k]);
    }
    assert forall|k: int| 0 <= k < items.len() implies (#[trigger] items[k]).len() > 0 by {
        assert(items[k] == topic.partitions[k].bytes(version));
        assert(topic.partitions[k].sound());
    }
    list_is_walked(s, p4, flexible, item, items);
    end_is_walked(s, p5 + o.len(), flexible);
}

/// What is needed to write a metadata response.
pub struct MetadataParts {
    pub cid: Seq<u8>,
    pub throttle: Seq<u8>,
    pub brokers: Seq<BrokerParts>,
    pub cluster: Option<Seq<u8>>,
    pub controller: Seq<u8>,
    pub topics: Seq<TopicParts>,
    pub operations: Seq<u8>,
    pub code: Seq<u8>,
}

impl MetadataParts {
    /// Each part has its size, or fits.
    pub open spec fn sound(self, version: int) -> bool {
        &&& self.cid.len() == 4
        &&& self.throttle.len() == 4
        &&& self.brokers.len() <= i32::MAX
        &&& forall|k: int|
            0 <= k < self.brokers.len() ==> (#[trigger] self.brokers[k]).sound(version >= 9)
        &&& option_can_be_written(version >= 9, self.cluster)
        &&& self.controller.len() == 4
        &&& self.topics.len() <= i32::MAX
        &&& forall|k: int|
            0 <= k < self.topics.len() ==> (#[trigger] self.topics[k]).sound(version)
        &&& self.operations.len() == 4
        &&& self.code.len() == 2
    }

    pub open spec fn broker_rows(self, version: int) -> Seq<Seq<u8>> {
        self.brokers.map_values(|b: BrokerParts| b.bytes(version >= 9, version >= 1, false))
    }

    pub open spec fn topic_rows(self, version: int) -> Seq<Seq<u8>> {
        self.topics.map_values(|t: TopicParts| t.bytes(version))
    }

    /// The bytes of a metadata response, with those parts that the version has.
    pub open spec fn bytes(self, version: int) -> Seq<u8> {
        let flexible = version >= 9;
        self.cid + (end_bytes(flexible) + (when(version >= 3, self.throttle) + ((count_bytes(
            flexible,
            self.brokers.len(),
        ) + row(self.broker_rows(version))) + (when(
            version >= 2,
            option_bytes(flexible, self.cluster),
        ) + (when(version >= 1, self.controller) + ((count_bytes(flexible, self.topics.len()) + row(
            self.topic_rows(version),
        )) + (when(8 <= version <= 10, self.operations) + (when(version >= 13, self.code)
            + end_bytes(flexible)))))))))
    }
}

/// A metadata response of any version, with any number of brokers, topics and partitions, is walked
/// to its end.
#[verifier::rlimit(40)]
pub proof fn metadata_is_walked(version: int, m: MetadataParts)
    requires
        version >= 0,
        m.sound(version),
    ensures
        metadata_frame(m.bytes(version), version) == Reach::At(m.bytes(version).len() as int),
{
    let flexible = version >= 9;
    let s = m.bytes(version);
    let e = end_bytes(flexible);
    let t = when(version >= 3, m.throttle);
    let brokers = m.broker_rows(version);
    let b = count_bytes(flexible, m.brokers.len()) + row(brokers);
    let c = when(version >= 2, option_bytes(flexible, m.cluster));
    let l = when(version >= 1, m.controller);
    let topics = m.topic_rows(version);
    let x = count_bytes(flexible, m.topics.len()) + row(topics);
    let o = when(8 <= version <= 10, m.operations);
    let d = when(version >= 13, m.code);
    let p1: int = 4 + e.len() as int;
    let p2 = p1 + t.len();
    let p3 = p2 + b.len();
    let p4 = p3 + c.len();
    let p5 = p4 + l.len();
    let p6 = p5 + x.len();
    let p7 = p6 + o.len();
    lemma_all_stands(s);
    lemma_split(s, 0, m.cid, e + (t + (b + (c + (l + (x + (o + (d + e))))))));
    lemma_split(s, 4, e, t + (b + (c + (l + (x + (o + (d + e)))))));
    lemma_split(s, p1, t, b + (c + (l + (x + (o + (d + e))))));
    lemma_split(s, p2, b, c + (l + (x + (o + (d + e)))));
    lemma_split(s, p3, c, l + (x + (o + (d + e))));
    lemma_split(s, p4, l, x + (o + (d + e)));
    lemma_split(s, p5, x, o + (d + e));
    lemma_split(s, p6, o, d + e);
    lemma_split(s, p7, d, e);
    end_is_walked(s, 4, flexible);
    lemma_brokers_are_walked(s, p2, version, m);
    if version >= 2 {
        option_is_walked(s, p3, flexible, m.cluster);
    }
    lemma_topics_are_walked(s, p5, version, m);
    end_is_walked(s, p7 + d.len(), flexible);
}

proof fn lemma_brokers_are_walked(s: Seq<u8>, p: int, version: int, m: MetadataParts)
    requires
        m.sound(version),
        stands(
            s,
            p,
            count_bytes(version >= 9, m.brokers.len()) + row(m.broker_rows(version)),
        ),
    ensures
        array(
            s,
            version >= 9,
            |t: Reach| metadata_broker(s, version, version >= 9, t),
            Reach::At(p),
        ) == Reach::At(
            p + count_bytes(version >= 9, m.brokers.len()).len() + row(
                m.broker_rows(version),
            ).len(),
        ),
{
    let flexible = version >= 9;
    let items = m.broker_rows(version);
    let item = |t: Reach| metadata_broker(s, version, version >= 9, t);
    assert forall|k: int, q: int| 0 <= k < items.len() && #[trigger] stands(
        s,
        q,
        items[k],
    ) implies item(Reach::At(q)) == Reach::At(q + items[k].len()) by {
        assert(items[k] == m.brokers[k].bytes(flexible, version >= 1, false));
        assert(m.brokers[k].sound(flexible));
        lemma_broker_is_walked(s, q, flexible, version >= 1, false, m.brokers[k]);
    }
    assert forall|k: int| 0 <= k < items.len() implies (#[trigger] items[k]).len() > 0 by {
        assert(items[k] == m.brokers[k].bytes(flexible, version >= 1, false));
        assert(m.brokers[k].sound(flexible));
    }
    list_is_walked(s, p, flexible, item, items);
}

proof fn lemma_topics_are_walked(s: Seq<u8>, p: int, version: int, m: MetadataParts)
    requires
        m.sound(version),
        stands(s, p, count_bytes(version >= 9, m.topics.len()) + row(m.topic_rows(version))),
    ensures
        array(
            s,
            version >= 9,
            |t: Reach| metadata_topic(s, version, version >= 9, t),
            Reach::At(p),
        ) == Reach::At(
            p + count_bytes(version >= 9, m.topics.len()).len() + row(m.topic_rows(version)).len(),
        ),
{
    let flexible = version >= 9;
    let items = m.topic_rows(version);
    let item = |t: Reach| metadata_topic(s, version, version >= 9, t);
    assert forall|k: int, q: int| 0 <= k < items.len() && #[trigger] stands(
        s,
        q,
        items[k],
    ) implies item(Reach::At(q)) == Reach::At(q + items[k].len()) by {
        assert(items[k] == m.topics[k].bytes(version));
        assert(m.topics[k].sound(version));
        lemma_topic_is_walked(s, q, version, m.topics[k]);
    }
    assert forall|k: int| 0 <= k < items.len() implies (#[trigger] items[k]).len() > 0 by {
        assert(items[k] == m.topics[k].bytes(version));
        assert(m.topics[k].sound(version));
    }
    list_is_walked(s, p, flexible, item, items);
}

} // verus!
