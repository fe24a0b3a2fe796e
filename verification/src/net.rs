//! Network addresses.

use vstd::prelude::*;

verus! {

/// The address of one end of a connection: an IP address and a port.
#[derive(Debug, Clone, Copy, PartialEq, Eq, Hash, Structural)]
pub enum SocketAddr {
    /// An IPv4 address, its four octets read as one big-endian number.
    V4 { ipv4: u32, port: u16 },
    /// An IPv6 address, its eight segments read as one big-endian number.
    V6 { ipv6: u128, port: u16, flowinfo: u32, scope_id: u32 },
}

/// The number that four octets make, the first octet being the most significant.
pub open spec fn octets_value(octets: Seq<u8>) -> u32 {
    (octets[0] * 0x1000000 + octets[1] * 0x10000 + octets[2] * 0x100 + octets[3]) as u32
}

impl From<([u8; 4], u16)> for SocketAddr {
    /// The IPv4 socket address with the given octets and port.
    fn from(parts: ([u8; 4], u16)) -> (addr: SocketAddr) {
        let octets = parts.0;
        let ipv4: u32 = octets[0] as u32 * 0x1000000 + octets[1] as u32 * 0x10000 + octets[2] as u32
            * 0x100 + octets[3] as u32;
        SocketAddr::V4 { ipv4, port: parts.1 }
    }
}

impl vstd::std_specs::convert::FromSpecImpl<([u8; 4], u16)> for SocketAddr {
    open spec fn obeys_from_spec() -> bool {
        true
    }

    open spec fn from_spec(parts: ([u8; 4], u16)) -> SocketAddr {
        SocketAddr::V4 { ipv4: octets_value(parts.0@), port: parts.1 }
    }
}

/// The services that a peer offers, one bit each.
#[derive(Debug, Clone, Copy, PartialEq, Eq, Hash, Structural)]
pub struct ServiceFlags {
    pub bits: u64,
}

impl ServiceFlags {
    /// The empty set of services.
    pub open spec fn spec_none() -> ServiceFlags {
        ServiceFlags { bits: 0 }
    }

    /// No services at all.
    pub fn none() -> (flags: ServiceFlags)
        ensures
            flags == ServiceFlags::spec_none(),
    {
        ServiceFlags { bits: service_bits_none() }
    }

    /// Whether all the given services are among these.
    pub open spec fn spec_has(self, flags: ServiceFlags) -> bool {
        self.bits & flags.bits == flags.bits
    }

    /// Check whether all the given services are among these.
    pub fn has(self, flags: ServiceFlags) -> (result: bool)
        ensures
            result == self.spec_has(flags),
    {
        self.bits & flags.bits == flags.bits
    }

    /// Any services have no services among them.
    pub proof fn lemma_has_none(self)
        ensures
            self.spec_has(ServiceFlags::spec_none()),
    {
        let bits = self.bits;
        assert(bits & 0 == 0) by (bit_vector);
    }
}

/// Reads `bitcoin::network::constants::ServiceFlags::NONE` as an integer, with
/// its `as_u64`. Claimed: no bit is set.
#[verifier::external_body]
fn service_bits_none() -> (bits: u64)
    ensures
        bits == 0,
{
    bitcoin::network::constants::ServiceFlags::NONE.as_u64()
}

/// The address of a node as it travels in Bitcoin messages. An IPv4 address
/// appears as an IPv6 address that has it embedded.
#[derive(Debug, Clone, Copy)]
pub struct Address {
    /// Services offered by the node.
    pub services: ServiceFlags,
    /// The eight segments of the IPv6 address.
    pub address: [u16; 8],
    /// Port.
    pub port: u16,
}

/// Whether eight segments stand for a Tor address: they begin with the prefix
/// `fd87:d87e:eb43`.
pub open spec fn is_tor(segments: Seq<u16>) -> bool {
    segments[0] == 0xFD87 && segments[1] == 0xD87E && segments[2] == 0xEB43
}

/// Whether an IPv4 address is embedded in eight segments, as `::a.b.c.d` or as
/// `::ffff:a.b.c.d`.
pub open spec fn embeds_ipv4(segments: Seq<u16>) -> bool {
    &&& forall|i: int| 0 <= i < 5 ==> segments[i] == 0
    &&& segments[5] == 0 || segments[5] == 0xFFFF
}

/// The number that the last two segments make.
pub open spec fn ipv4_value(segments: Seq<u16>) -> u32 {
    (segments[6] * 0x10000 + segments[7]) as u32
}

/// The number that a sequence of segments makes, the first segment being the
/// most significant.
pub open spec fn segments_value(segments: Seq<u16>) -> nat
    decreases segments.len(),
{
    if segments.len() == 0 {
        0
    } else {
        segments_value(segments.drop_last()) * 0x10000 + segments.last() as nat
    }
}

impl Address {
    /// The socket address that this address stands for; none for a Tor address.
    pub open spec fn spec_socket_addr(self) -> Option<SocketAddr> {
        if is_tor(self.address@) {
            None
        } else if embeds_ipv4(self.address@) {
            Some(SocketAddr::V4 { ipv4: ipv4_value(self.address@), port: self.port })
        } else {
            Some(
                SocketAddr::V6 {
                    ipv6: segments_value(self.address@) as u128,
                    port: self.port,
                    flowinfo: 0,
                    scope_id: 0,
                },
            )
        }
    }

    /// Extracts the socket address, unless this is a Tor address.
    pub fn socket_addr(&self) -> (addr: Option<SocketAddr>)
        ensures
            addr == self.spec_socket_addr(),
    {
        match resolve_segments(self.services.bits, self.address, self.port) {
            None => None,
            Some((is_ipv4, segments, port)) => if is_ipv4 {
                let ipv4: u32 = segments[6] as u32 * 0x10000 + segments[7] as u32;
                Some(SocketAddr::V4 { ipv4, port })
            } else {
                let ipv6: u128 = join_segments(&segments);
                Some(SocketAddr::V6 { ipv6, port, flowinfo: 0, scope_id: 0 })
            },
        }
    }
}

/// Joins eight segments into one number.
fn join_segments(segments: &[u16; 8]) -> (value: u128)
    ensures
        value == segments_value(segments@),
{
    let mut value: u128 = 0;
    let ghost mut bound: int = 1;
    let mut i: usize = 0;
    while i < 8
        invariant
            i <= 8,
            value == segments_value(segments@.take(i as int)),
            value < bound,
            i == 0 ==> bound == 1,
            i == 1 ==> bound == 0x1_0000,
            i == 2 ==> bound == 0x1_0000_0000,
            i == 3 ==> bound == 0x1_0000_0000_0000,
            i == 4 ==> bound == 0x1_0000_0000_0000_0000,
            i == 5 ==> bound == 0x1_0000_0000_0000_0000_0000,
            i == 6 ==> bound == 0x1_0000_0000_0000_0000_0000_0000,
            i == 7 ==> bound == 0x1_0000_0000_0000_0000_0000_0000_0000,
        decreases 8 - i,
    {
        assert(segments@.take(i + 1).drop_last() =~= segments@.take(i as int));
        value = value * 0x10000 + segments[i] as u128;
        proof {
            bound = bound * 0x10000;
        }
        i += 1;
    }
    assert(segments@.take(8) =~= segments@);
    value
}

/// Calls `bitcoin::network::address::Address::socket_addr` on the address with
/// these services, segments and port, and reads the socket address that comes
/// back: whether it is an IPv4 one, its segments and its port. The segments are
/// read with `bitcoin::network::address::Address::new`, which gives those of an
/// IPv6 address as they are and an IPv4 address in its mapped form.
///
/// Claimed: there is no socket address for a Tor address and for no other; it is
/// an IPv4 one exactly when the segments embed an IPv4 address; the address and
/// the port are those that went in.
#[verifier::external_body]
fn resolve_segments(services: u64, segments: [u16; 8], port: u16) -> (parts: Option<
    (bool, [u16; 8], u16),
>)
    ensures
        parts is None <==> is_tor(segments@),
        parts matches Some((is_ipv4, resolved, resolved_port)) ==> {
            &&& is_ipv4 == embeds_ipv4(segments@)
            &&& is_ipv4 ==> resolved@ == seq![0u16, 0, 0, 0, 0, 0xFFFF, segments@[6], segments@[7]]
            &&& !is_ipv4 ==> resolved@ == segments@
            &&& resolved_port == port
        },
{
    let services = bitcoin::network::constants::ServiceFlags::from(services);
    let address = bitcoin::network::address::Address { services, address: segments, port };
    match address.socket_addr() {
        Ok(socket) => Some((
            socket.is_ipv4(),
            bitcoin::network::address::Address::new(&socket, services).address,
            socket.port(),
        )),
        Err(_) => None,
    }
}

} // verus!
