use nakamoto::client::{run, AddressBook, BookOrigin, ClientConfig, Error, Network, Next, Request};
use nakamoto::net::SocketAddr;

fn network() -> Network {
    Network { seeds: vec!["seed.example".to_string()], port: 8333 }
}

fn defaults() -> ClientConfig<u8> {
    ClientConfig {
        network: Network { seeds: vec![], port: 0 },
        listen: vec![],
        address_book: AddressBook { addrs: vec![] },
        timeout: 1,
        target_outbound_peers: 8,
        rest: 7,
    }
}

fn addr(n: u8) -> SocketAddr {
    SocketAddr::from(([10, 0, 0, n], 8333))
}

#[test]
fn given_peers_make_up_the_address_book() {
    let (startup, request) = run(&[addr(1), addr(2)], &[addr(3)], network(), defaults());
    assert_eq!(startup.origin, BookOrigin::Given);
    assert!(matches!(request, Request::Import(addrs) if addrs == vec![addr(1), addr(2)]));

    let book = AddressBook { addrs: vec![addr(1), addr(2)] };
    match startup.resume::<String>(Ok(book)) {
        Next::Launch(config) => {
            assert_eq!(config.network.port, 8333);
            assert_eq!(config.network.seeds, vec!["seed.example".to_string()]);
            assert_eq!(config.listen, vec![addr(3)]);
            assert_eq!(config.address_book.addrs, vec![addr(1), addr(2)]);
            assert_eq!(config.timeout, 30_000);
            assert_eq!(config.target_outbound_peers, 2);
            assert_eq!(config.rest, 7);
        }
        _ => unreachable!(),
    }
}

#[test]
fn the_stored_address_book_is_used() {
    let (startup, request) = run(&[], &[], network(), defaults());
    assert!(matches!(request, Request::Load(path) if path == "peers"));
    match startup.resume::<String>(Ok(AddressBook { addrs: vec![addr(4)] })) {
        Next::Launch(config) => {
            assert_eq!(config.listen, vec![SocketAddr::from(([0, 0, 0, 0], 0))]);
            assert_eq!(config.address_book.addrs, vec![addr(4)]);
            assert_eq!(config.target_outbound_peers, 8);
        }
        _ => unreachable!(),
    }
}

#[test]
fn an_empty_stored_address_book_makes_way_for_the_seeds() {
    let (startup, _) = run(&[], &[], network(), defaults());
    let startup = match startup.resume::<String>(Ok(AddressBook { addrs: vec![] })) {
        Next::Ask(startup, Request::Bootstrap(seeds, port)) => {
            assert_eq!(seeds, vec!["seed.example".to_string()]);
            assert_eq!(port, 8333);
            startup
        }
        _ => unreachable!(),
    };
    assert_eq!(startup.origin, BookOrigin::Seeds);
    // The seeds are asked only once, whatever comes out.
    match startup.resume::<String>(Ok(AddressBook { addrs: vec![] })) {
        Next::Launch(config) => assert!(config.address_book.is_empty()),
        _ => unreachable!(),
    }
}

#[test]
fn failures_end_the_start() {
    let (stored, _) = run(&[], &[], network(), defaults());
    assert!(matches!(stored.resume(Err("gone")), Next::Fail(Error::AddressBook("gone"))));

    let (given, _) = run(&[addr(1)], &[], network(), defaults());
    assert!(matches!(given.resume(Err("gone")), Next::Fail(Error::Other("gone"))));

    let (stored, _) = run(&[], &[], network(), defaults());
    match stored.resume::<&str>(Ok(AddressBook { addrs: vec![] })) {
        Next::Ask(seeds, _) => {
            assert!(matches!(seeds.resume(Err("dark")), Next::Fail(Error::Other("dark"))));
        }
        _ => unreachable!(),
    }
}
