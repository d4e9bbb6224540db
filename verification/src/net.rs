//! Socket addresses as plain numbers.
use vstd::prelude::*;

verus! {

/// An IP address and a port.
#[derive(Clone, Copy, Debug, PartialEq, Eq, Structural)]
pub enum SocketAddr {
    V4 { ip: u32, port: u16 },
    V6 { ip: u128, port: u16, flowinfo: u32, scope_id: u32 },
}

impl SocketAddr {
    /// Both have the same IP address and the same port.
    pub open spec fn meets(self, other: SocketAddr) -> bool {
        match (self, other) {
            (SocketAddr::V4 { ip: a, port: p }, SocketAddr::V4 { ip: b, port: q }) => a == b && p
                == q,
            (SocketAddr::V6 { ip: a, port: p, .. }, SocketAddr::V6 { ip: b, port: q, .. }) => a == b
                && p == q,
            _ => false,
        }
    }

    /// Whether both have the same IP address and the same port.
    pub fn same_endpoint(&self, other: &SocketAddr) -> (r: bool)
        ensures
            r == self.meets(*other),
    {
        match (self, other) {
            (SocketAddr::V4 { ip: a, port: p }, SocketAddr::V4 { ip: b, port: q }) => *a == *b && *p
                == *q,
            (SocketAddr::V6 { ip: a, port: p, .. }, SocketAddr::V6 { ip: b, port: q, .. }) => *a
                == *b && *p == *q,
            _ => false,
        }
    }
}

/// Two addresses meet where they are of one family and have the same IP address and port, whatever
/// their flow and scope are.
pub proof fn same_ip_and_port_meet(a: u32, b: u32, c: u128, d: u128, p: u16, q: u16, x: (u32, u32), y: (
    u32,
    u32,
))
    ensures
        ({
            let four = SocketAddr::V4 { ip: a, port: p };
            let other_four = SocketAddr::V4 { ip: b, port: q };
            let six = SocketAddr::V6 { ip: c, port: p, flowinfo: x.0, scope_id: x.1 };
            let other_six = SocketAddr::V6 { ip: d, port: q, flowinfo: y.0, scope_id: y.1 };
            &&& four.meets(other_four) <==> a == b && p == q
            &&& six.meets(other_six) <==> c == d && p == q
            &&& !four.meets(six)
            &&& !six.meets(four)
        }),
{
}

} // verus!
