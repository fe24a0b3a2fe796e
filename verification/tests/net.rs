use nakamoto::net::{Address, ServiceFlags, SocketAddr};

fn resolve(address: [u16; 8]) -> Option<SocketAddr> {
    Address { services: ServiceFlags::none(), address, port: 8333 }.socket_addr()
}

#[test]
fn octets_are_read_in_order() {
    assert_eq!(
        SocketAddr::from(([1, 2, 3, 4], 5)),
        SocketAddr::V4 { ipv4: 0x0102_0304, port: 5 }
    );
}

#[test]
fn no_services_have_no_bits() {
    assert_eq!(ServiceFlags::none().bits, 0);
}

#[test]
fn services_among_others() {
    let both = ServiceFlags { bits: 9 };
    assert!(both.has(ServiceFlags { bits: 1 }));
    assert!(both.has(ServiceFlags { bits: 9 }));
    assert!(both.has(ServiceFlags::none()));
    assert!(!both.has(ServiceFlags { bits: 3 }));
    assert!(!ServiceFlags::none().has(ServiceFlags { bits: 8 }));
}

#[test]
fn mapped_and_compatible_addresses_are_ipv4() {
    let addr = SocketAddr::from(([10, 0, 0, 1], 8333));
    assert_eq!(resolve([0, 0, 0, 0, 0, 0xFFFF, 0x0A00, 0x0001]), Some(addr));
    assert_eq!(resolve([0, 0, 0, 0, 0, 0, 0x0A00, 0x0001]), Some(addr));
    assert_eq!(
        resolve([0, 0, 0, 0, 0, 0, 0, 1]),
        Some(SocketAddr::from(([0, 0, 0, 1], 8333)))
    );
}

#[test]
fn other_addresses_are_ipv6() {
    assert_eq!(
        resolve([0x2001, 0x0DB8, 0, 0, 0, 0xFFFF, 0x0A00, 0x0001]),
        Some(SocketAddr::V6 {
            ipv6: 0x2001_0DB8_0000_0000_0000_FFFF_0A00_0001,
            port: 8333,
            flowinfo: 0,
            scope_id: 0,
        })
    );
    assert_eq!(
        resolve([0xFFFF; 8]),
        Some(SocketAddr::V6 { ipv6: u128::MAX, port: 8333, flowinfo: 0, scope_id: 0 })
    );
}

#[test]
fn tor_addresses_stand_for_no_socket_address() {
    assert_eq!(resolve([0xFD87, 0xD87E, 0xEB43, 0, 0, 0xFFFF, 0x0A00, 0x0001]), None);
    assert!(resolve([0xFD87, 0xD87E, 0xEB42, 0, 0, 0xFFFF, 0x0A00, 0x0001]).is_some());
}
