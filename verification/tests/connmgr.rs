use std::collections::VecDeque;
use std::time::{SystemTime, UNIX_EPOCH};

use nakamoto::channel::{Channel, Output};
use nakamoto::connmgr::{Config, ConnectionManager, Event};
use nakamoto::connmgr::{
    CONNECTION_TIMEOUT, IDLE_TIMEOUT, MAX_INBOUND_PEERS, TARGET_OUTBOUND_PEERS,
};
use nakamoto::net::{Address, ServiceFlags, SocketAddr};
use nakamoto::peer::{DisconnectReason, Link, Source};
use nakamoto::source::AddressSource;
use nakamoto::time::LocalTime;

type Queue = VecDeque<(Address, Source)>;

/// The address of an IPv4 node, as the `bitcoin` crate writes it.
fn node(octets: [u8; 4], port: u16) -> Address {
    let services = bitcoin::network::constants::ServiceFlags::NETWORK;
    let address = bitcoin::network::address::Address::new(&(octets, port).into(), services);
    Address {
        services: ServiceFlags { bits: address.services.as_u64() },
        address: address.address,
        port: address.port,
    }
}

fn remote(n: u8) -> SocketAddr {
    SocketAddr::from(([124, 43, 110, n], 8333))
}

fn offer(n: u8) -> (Address, Source) {
    (node([124, 43, 110, n], 8333), Source::Dns)
}

fn local() -> SocketAddr {
    SocketAddr::from(([99, 99, 99, 99], 9999))
}

fn at(millis: u128) -> LocalTime {
    LocalTime { millis }
}

fn manager(config: Config) -> ConnectionManager<Channel, Queue> {
    ConnectionManager::new(Channel::new(), config, fastrand::Rng::with_seed(1))
}

fn dialled(n: u8) -> Output {
    Output::Connect(remote(n), CONNECTION_TIMEOUT)
}

fn found(n: u8) -> Output {
    Output::Event(Event::Connecting(remote(n), Source::Dns))
}

#[test]
fn test_disconnects() {
    let cfg = Config::default();
    let rng = fastrand::Rng::with_seed(1);
    let now = SystemTime::now().duration_since(UNIX_EPOCH).unwrap();
    let time = LocalTime { millis: now.as_millis() };

    let local = SocketAddr::from(([99, 99, 99, 99], 9999));
    let remote1 = SocketAddr::from(([124, 43, 110, 1], 8333));
    let remote2 = SocketAddr::from(([124, 43, 110, 2], 8333));
    let remote3 = SocketAddr::from(([124, 43, 110, 3], 8333));

    let mut addrs = VecDeque::new();
    let mut connmgr: ConnectionManager<_, VecDeque<_>> = ConnectionManager::new((), cfg, rng);

    connmgr.initialize(time, &mut addrs);
    connmgr.connect(&remote1);

    assert_eq!(connmgr.connecting_peers().iter().next(), Some(&remote1));
    assert_eq!(connmgr.outbound_peers().iter().next(), None);

    connmgr.peer_connected(remote1, local, Link::Outbound, time);

    assert_eq!(connmgr.connecting_peers().iter().next(), None);
    assert_eq!(connmgr.outbound_peers().iter().next(), Some(&remote1));

    // Disconnect remote#1 after it has connected.
    addrs.push_back((node([124, 43, 110, 2], 8333), Source::Dns));
    connmgr.peer_disconnected(&remote1, &mut addrs);

    assert!(connmgr.is_disconnected(&remote1));
    assert_eq!(connmgr.outbound_peers().iter().next(), None);
    assert_eq!(
        connmgr.connecting_peers().iter().next(),
        Some(&remote2),
        "Disconnection triggers a new connection to remote#2"
    );

    // Disconnect remote#2 while still connecting.
    addrs.push_back((node([124, 43, 110, 3], 8333), Source::Dns));
    connmgr.peer_disconnected(&remote2, &mut addrs);

    assert!(connmgr.is_disconnected(&remote2));
    assert_eq!(
        connmgr.connecting_peers().iter().next(),
        Some(&remote3),
        "Disconnection triggers a new connection to remote#3"
    );
}

#[test]
fn default_configuration() {
    let config = Config::default();
    assert_eq!(config.target_outbound_peers, 8);
    assert_eq!(config.max_inbound_peers, 16);
    assert!(config.retry.is_empty());
    assert_eq!(config.required_services, ServiceFlags { bits: 0 });
    assert_eq!(config.preferred_services, ServiceFlags { bits: 0 });
    assert_eq!(TARGET_OUTBOUND_PEERS, 8);
    assert_eq!(MAX_INBOUND_PEERS, 16);
    assert_eq!(CONNECTION_TIMEOUT, 3_000);
    assert_eq!(IDLE_TIMEOUT, 60_000);
}

#[test]
fn connecting_twice_asks_once() {
    let mut connmgr = manager(Config::default());
    assert!(connmgr.is_disconnected(&remote(1)));
    assert!(!connmgr.is_connecting(&remote(1)));

    assert!(connmgr.connect(&remote(1)));
    assert!(!connmgr.connect(&remote(1)));

    assert!(connmgr.is_connecting(&remote(1)));
    assert!(!connmgr.is_disconnected(&remote(1)));
    assert!(!connmgr.is_connected(&remote(1)));
    assert_eq!(connmgr.upstream_mut().drain(), vec![dialled(1)]);
    assert_eq!(connmgr.upstream_mut().drain(), vec![]);

    connmgr.peer_attempted(&remote(1));
    assert!(connmgr.is_connecting(&remote(1)));
}

#[test]
fn disconnecting_takes_a_connected_peer() {
    let mut connmgr = manager(Config::default());
    connmgr.connect(&remote(1));
    connmgr.disconnect(remote(1), DisconnectReason::Other("stale".to_string()));
    assert!(connmgr.is_connecting(&remote(1)));

    connmgr.peer_connected(remote(1), local(), Link::Outbound, at(5));
    connmgr.disconnect(remote(1), DisconnectReason::Other("stale".to_string()));
    assert!(!connmgr.is_connected(&remote(1)));
    assert!(!connmgr.is_disconnected(&remote(1)));
    assert!(!connmgr.is_connecting(&remote(1)));
    assert!(!connmgr.connect(&remote(1)));
    assert_eq!(
        connmgr.upstream_mut().drain(),
        vec![
            dialled(1),
            Output::Disconnect(remote(1), DisconnectReason::Other("stale".to_string())),
        ]
    );
}

#[test]
fn initialize_dials_the_peers_to_retry_first() {
    let mut config = Config::default();
    config.target_outbound_peers = 4;
    config.retry = vec![remote(1), remote(2), remote(1)];
    let mut addrs: Queue = VecDeque::from(vec![offer(2), offer(3), offer(4), offer(5)]);
    let mut connmgr = manager(config);
    connmgr.initialize(at(0), &mut addrs);

    assert_eq!(
        connmgr.upstream_mut().drain(),
        vec![
            dialled(1),
            dialled(2),
            Output::SetTimeout(IDLE_TIMEOUT),
            // The first address drawn is known already; it is passed over.
            dialled(3),
            found(3),
        ]
    );
    assert_eq!(addrs.len(), 2);
    assert_eq!(connmgr.connecting_peers().len(), 3);
}

#[test]
fn initialize_retries_no_more_peers_than_the_target() {
    let mut config = Config::default();
    config.target_outbound_peers = 2;
    config.retry = vec![remote(1), remote(2), remote(3)];
    let mut addrs: Queue = VecDeque::from(vec![offer(4)]);
    let mut connmgr = manager(config);
    connmgr.initialize(at(0), &mut addrs);

    assert!(connmgr.is_connecting(&remote(1)));
    assert!(connmgr.is_connecting(&remote(2)));
    assert!(connmgr.is_disconnected(&remote(3)));
    assert!(connmgr.is_disconnected(&remote(4)));
    assert_eq!(addrs.len(), 1);
}

#[test]
fn inbound_connections_beyond_the_limit_are_refused() {
    let mut config = Config::default();
    config.max_inbound_peers = 1;
    let mut connmgr = manager(config);
    connmgr.peer_connected(remote(1), local(), Link::Inbound, at(1));
    connmgr.peer_connected(remote(2), local(), Link::Inbound, at(2));
    connmgr.peer_connected(remote(3), local(), Link::Outbound, at(3));

    assert!(connmgr.is_inbound(&remote(1)));
    assert!(!connmgr.is_connected(&remote(2)));
    assert!(!connmgr.is_disconnected(&remote(2)));
    assert!(!connmgr.is_inbound(&remote(3)));
    assert!(connmgr.is_connected(&remote(3)));
    assert_eq!(connmgr.inbound_peers(), vec![remote(1)]);
    assert_eq!(connmgr.outbound_peers(), vec![remote(3)]);
    assert_eq!(
        connmgr.upstream_mut().drain(),
        vec![Output::Disconnect(remote(2), DisconnectReason::ConnectionLimit)]
    );
}

#[test]
fn a_peer_is_told_to_be_connected_after_the_handshake() {
    let mut connmgr = manager(Config::default());
    connmgr.peer_connected(remote(1), local(), Link::Inbound, at(1));
    connmgr.peer_connected(remote(2), local(), Link::Outbound, at(2));
    assert_eq!(connmgr.upstream_mut().drain(), vec![]);

    connmgr.peer_negotiated(remote(2), ServiceFlags { bits: 1 });
    assert_eq!(
        connmgr.upstream_mut().drain(),
        vec![Output::Event(Event::Connected(remote(2), Link::Outbound))]
    );
    connmgr.peer_negotiated(remote(1), ServiceFlags { bits: 0 });
    assert_eq!(
        connmgr.upstream_mut().drain(),
        vec![Output::Event(Event::Connected(remote(1), Link::Inbound))]
    );
}

#[test]
fn peers_to_retry_are_retried_at_every_idle_time() {
    let mut config = Config::default();
    config.retry = vec![remote(1)];
    let mut addrs: Queue = VecDeque::new();
    let mut connmgr = manager(config);
    connmgr.initialize(at(0), &mut addrs);
    for n in 1..4 {
        connmgr.peer_disconnected(&remote(1), &mut addrs);
        assert!(connmgr.is_disconnected(&remote(1)));
        connmgr.upstream_mut().drain();

        connmgr.received_tick(at(n * 60_000), &mut addrs);
        assert!(connmgr.is_connecting(&remote(1)));
        assert_eq!(
            connmgr.upstream_mut().drain(),
            vec![dialled(1), Output::SetTimeout(IDLE_TIMEOUT)]
        );
    }

    // A peer that is connecting is not asked for again.
    connmgr.received_tick(at(300_000), &mut addrs);
    assert_eq!(connmgr.upstream_mut().drain(), vec![Output::SetTimeout(IDLE_TIMEOUT)]);
}

#[test]
fn peers_are_retried_as_far_as_the_target_allows() {
    let mut config = Config::default();
    config.target_outbound_peers = 3;
    config.retry = vec![remote(1), remote(2), remote(3)];
    let mut addrs: Queue = VecDeque::from(vec![offer(4)]);
    let mut connmgr = manager(config);
    connmgr.peer_connected(remote(9), local(), Link::Outbound, at(1));
    connmgr.received_tick(at(60_000), &mut addrs);
    assert_eq!(
        connmgr.upstream_mut().drain(),
        vec![dialled(1), dialled(2), Output::SetTimeout(IDLE_TIMEOUT)]
    );
    assert_eq!(addrs.len(), 1);
}

#[test]
fn peers_to_retry_beyond_the_target_get_their_turn() {
    let mut config = Config::default();
    config.target_outbound_peers = 1;
    config.retry = vec![remote(1), remote(2), remote(3)];
    let mut addrs: Queue = VecDeque::new();
    let mut connmgr = manager(config);
    connmgr.initialize(at(0), &mut addrs);
    assert!(connmgr.is_disconnected(&remote(2)));
    connmgr.peer_connected(remote(1), local(), Link::Outbound, at(1));
    connmgr.disconnect(remote(1), DisconnectReason::Other("stale".to_string()));
    connmgr.upstream_mut().drain();

    connmgr.received_tick(at(60_000), &mut addrs);
    assert_eq!(
        connmgr.upstream_mut().drain(),
        vec![dialled(2), Output::SetTimeout(IDLE_TIMEOUT)]
    );
    assert!(connmgr.is_disconnected(&remote(3)));
}

#[test]
fn peers_to_retry_come_before_other_addresses() {
    let mut config = Config::default();
    config.target_outbound_peers = 2;
    config.retry = vec![remote(1)];
    let mut addrs: Queue = VecDeque::from(vec![offer(2), offer(3)]);
    let mut connmgr = manager(config);
    connmgr.received_tick(at(60_000), &mut addrs);
    assert_eq!(
        connmgr.upstream_mut().drain(),
        vec![dialled(1), dialled(2), found(2), Output::SetTimeout(IDLE_TIMEOUT)]
    );
    assert_eq!(addrs.len(), 1);
}

#[test]
fn only_peers_with_the_required_services_are_dialled() {
    let mut config = Config::default();
    config.target_outbound_peers = 2;
    config.preferred_services = ServiceFlags { bits: 1 };
    config.required_services = ServiceFlags { bits: 2 };
    let with = |n: u8, bits: u64| {
        let (mut address, source) = offer(n);
        address.services = ServiceFlags { bits };
        (address, source)
    };
    // Two addresses are drawn for the preferred services, and one more for the
    // one that does not do.
    let mut addrs: Queue = VecDeque::from(vec![with(1, 1), with(2, 3), with(3, 2), with(4, 2)]);
    let mut connmgr = manager(config);
    connmgr.received_tick(at(60_000), &mut addrs);
    assert_eq!(
        connmgr.upstream_mut().drain(),
        vec![dialled(2), found(2), dialled(3), found(3), Output::SetTimeout(IDLE_TIMEOUT)]
    );
    assert!(connmgr.is_disconnected(&remote(1)));
    assert_eq!(addrs.len(), 1);
}

#[test]
fn an_address_without_the_required_services_is_passed_over() {
    let mut config = Config::default();
    config.target_outbound_peers = 1;
    config.preferred_services = ServiceFlags { bits: 1 };
    config.required_services = ServiceFlags { bits: 2 };
    let mut addrs: Queue = VecDeque::from(vec![offer(1), offer(2), offer(3)]);
    let mut connmgr = manager(config);
    connmgr.received_tick(at(60_000), &mut addrs);
    assert_eq!(connmgr.upstream_mut().drain(), vec![Output::SetTimeout(IDLE_TIMEOUT)]);
    assert_eq!(addrs.len(), 1);
}

#[test]
fn nothing_is_dialled_above_the_target() {
    let mut config = Config::default();
    config.target_outbound_peers = 1;
    config.retry = vec![remote(8)];
    let mut addrs: Queue = VecDeque::from(vec![offer(4)]);
    let mut connmgr = manager(config);
    for n in 1..4 {
        assert!(connmgr.connect(&remote(n)));
    }
    connmgr.upstream_mut().drain();

    connmgr.received_tick(at(60_000), &mut addrs);
    assert_eq!(connmgr.upstream_mut().drain(), vec![Output::SetTimeout(IDLE_TIMEOUT)]);
    connmgr.peer_disconnected(&remote(1), &mut addrs);
    connmgr.peer_disconnected(&remote(2), &mut addrs);
    assert_eq!(
        connmgr.upstream_mut().drain(),
        vec![
            Output::Event(Event::Disconnected(remote(1))),
            Output::Event(Event::Disconnected(remote(2))),
        ]
    );
    assert_eq!(addrs.len(), 1);
    assert_eq!(connmgr.connecting_peers(), vec![remote(3)]);

    // Below the target the lost peer is replaced.
    connmgr.peer_disconnected(&remote(3), &mut addrs);
    assert_eq!(connmgr.connecting_peers(), vec![remote(4)]);
}

#[test]
fn initialize_above_the_target_draws_nothing() {
    let mut config = Config::default();
    config.target_outbound_peers = 1;
    config.retry = vec![remote(2)];
    let mut addrs: Queue = VecDeque::from(vec![offer(4)]);
    let mut connmgr = manager(config);
    connmgr.connect(&remote(1));
    connmgr.initialize(at(0), &mut addrs);
    assert_eq!(
        connmgr.upstream_mut().drain(),
        vec![dialled(1), dialled(2), Output::SetTimeout(IDLE_TIMEOUT)]
    );
    assert_eq!(addrs.len(), 1);
}

#[test]
fn the_configuration_can_be_read() {
    let mut config = Config::default();
    config.target_outbound_peers = 5;
    config.retry = vec![remote(1)];
    let connmgr = manager(config);
    assert_eq!(connmgr.config().target_outbound_peers, 5);
    assert_eq!(connmgr.config().retry, vec![remote(1)]);
}

#[test]
fn the_first_offer_of_an_address_is_told() {
    let mut connmgr = manager(Config::default());
    let mut addrs: Queue =
        VecDeque::from(vec![offer(1), (node([124, 43, 110, 1], 8333), Source::Imported)]);
    connmgr.initialize(at(0), &mut addrs);
    assert_eq!(
        connmgr.upstream_mut().drain(),
        vec![Output::SetTimeout(IDLE_TIMEOUT), dialled(1), found(1)]
    );
}

#[test]
fn negotiating_keeps_the_peer_connected() {
    let mut connmgr = manager(Config::default());
    connmgr.peer_connected(remote(1), local(), Link::Inbound, at(1));
    connmgr.peer_attempted(&remote(1));
    connmgr.peer_negotiated(remote(1), ServiceFlags { bits: 1 });
    assert!(connmgr.is_connected(&remote(1)));
    assert!(connmgr.is_inbound(&remote(1)));
}

#[test]
fn an_inbound_peer_is_not_replaced() {
    let mut connmgr = manager(Config::default());
    let mut addrs: Queue = VecDeque::from(vec![offer(2)]);
    connmgr.peer_connected(remote(1), local(), Link::Inbound, at(1));
    connmgr.upstream_mut().drain();
    connmgr.peer_disconnected(&remote(1), &mut addrs);

    assert!(connmgr.is_disconnected(&remote(1)));
    assert!(connmgr.is_disconnected(&remote(2)));
    assert_eq!(addrs.len(), 1);
    assert_eq!(
        connmgr.upstream_mut().drain(),
        vec![Output::Event(Event::Disconnected(remote(1)))]
    );
}

#[test]
fn an_outbound_peer_is_replaced() {
    let mut connmgr = manager(Config::default());
    let mut addrs: Queue = VecDeque::from(vec![offer(2)]);
    connmgr.connect(&remote(1));
    connmgr.peer_connected(remote(1), local(), Link::Outbound, at(1));
    connmgr.upstream_mut().drain();
    connmgr.peer_disconnected(&remote(1), &mut addrs);

    assert!(connmgr.is_connecting(&remote(2)));
    assert_eq!(
        connmgr.upstream_mut().drain(),
        vec![Output::Event(Event::Disconnected(remote(1))), dialled(2), found(2)]
    );

    // The peer that left can be connected to once more.
    assert!(connmgr.connect(&remote(1)));
}

#[test]
fn a_peer_being_disconnected_is_not_replaced() {
    let mut connmgr = manager(Config::default());
    let mut addrs: Queue = VecDeque::from(vec![offer(2)]);
    connmgr.peer_connected(remote(1), local(), Link::Outbound, at(1));
    connmgr.disconnect(remote(1), DisconnectReason::ConnectionLimit);
    connmgr.peer_disconnected(&remote(1), &mut addrs);
    assert!(connmgr.is_disconnected(&remote(1)));
    assert_eq!(addrs.len(), 1);
}

#[test]
fn ticks_maintain_connections_once_per_idle_time() {
    let mut config = Config::default();
    config.target_outbound_peers = 2;
    let mut connmgr = manager(config);
    let mut addrs: Queue = VecDeque::new();

    // The epoch is not a minute ago.
    connmgr.received_tick(at(59_999), &mut addrs);
    assert_eq!(connmgr.upstream_mut().drain(), vec![]);

    addrs.push_back(offer(1));
    connmgr.received_tick(at(60_000), &mut addrs);
    assert_eq!(
        connmgr.upstream_mut().drain(),
        vec![dialled(1), found(1), Output::SetTimeout(IDLE_TIMEOUT)]
    );

    addrs.push_back(offer(2));
    addrs.push_back(offer(3));
    connmgr.received_tick(at(119_999), &mut addrs);
    assert_eq!(connmgr.upstream_mut().drain(), vec![]);
    assert_eq!(addrs.len(), 2);

    connmgr.received_tick(at(120_000), &mut addrs);
    assert_eq!(
        connmgr.upstream_mut().drain(),
        vec![dialled(2), found(2), Output::SetTimeout(IDLE_TIMEOUT)]
    );
    assert_eq!(addrs.len(), 1);

    // The target is reached: nothing more is drawn.
    connmgr.received_tick(at(180_000), &mut addrs);
    assert_eq!(connmgr.upstream_mut().drain(), vec![Output::SetTimeout(IDLE_TIMEOUT)]);
    assert_eq!(addrs.len(), 1);
    assert_eq!(connmgr.connecting_peers().len(), 2);
}

#[test]
fn dialling_passes_over_what_cannot_be_dialled() {
    let mut connmgr = manager(Config::default());
    connmgr.peer_connected(remote(1), local(), Link::Inbound, at(1));
    connmgr.upstream_mut().drain();
    let tor = Address {
        services: ServiceFlags { bits: 0 },
        address: [0xFD87, 0xD87E, 0xEB43, 1, 2, 3, 4, 5],
        port: 8333,
    };
    let source = Source::Peer(remote(9));
    connmgr.dial(vec![
        (tor, Source::Imported),
        offer(1),
        (node([124, 43, 110, 2], 8333), source),
        offer(2),
        offer(3),
    ]);
    assert!(connmgr.is_inbound(&remote(1)));
    assert_eq!(
        connmgr.upstream_mut().drain(),
        vec![
            dialled(2),
            Output::Event(Event::Connecting(remote(2), source)),
            dialled(3),
            found(3),
        ]
    );
}

#[test]
fn dialling_in_two_parts_is_dialling_at_once() {
    let mut parts = manager(Config::default());
    parts.dial(vec![offer(1), offer(2)]);
    parts.dial(vec![offer(2), offer(3)]);
    let mut whole = manager(Config::default());
    whole.dial(vec![offer(1), offer(2), offer(2), offer(3)]);
    for n in 0..5 {
        assert_eq!(parts.is_connecting(&remote(n)), whole.is_connecting(&remote(n)));
    }
    assert_eq!(whole.connecting_peers().len(), 3);
}

/// Has one list of addresses for each of two kinds of services.
struct Tiers {
    preferred: Vec<(Address, Source)>,
    required: Vec<(Address, Source)>,
    asked: Vec<u64>,
}

impl AddressSource for Tiers {
    fn samples(self, _: ServiceFlags, _: Option<(Address, Source)>, _: Self) -> bool {
        true
    }

    fn sample(&mut self, services: ServiceFlags) -> Option<(Address, Source)> {
        self.asked.push(services.bits);
        if services.bits == 64 {
            self.preferred.pop()
        } else {
            self.required.pop()
        }
    }
}

#[test]
fn preferred_services_come_first() {
    let mut config = Config::default();
    config.target_outbound_peers = 3;
    config.preferred_services = ServiceFlags { bits: 64 };
    config.required_services = ServiceFlags { bits: 1 };
    let mut tiers = Tiers {
        preferred: vec![offer(1)],
        required: vec![offer(4), offer(3), offer(2)],
        asked: vec![],
    };
    let mut connmgr: ConnectionManager<Channel, Tiers> =
        ConnectionManager::new(Channel::new(), config, fastrand::Rng::with_seed(1));
    connmgr.received_tick(at(60_000), &mut tiers);

    assert_eq!(tiers.asked, vec![64, 64, 1, 1]);
    assert_eq!(tiers.required.len(), 1);
    assert!(connmgr.is_connecting(&remote(1)));
    assert!(connmgr.is_connecting(&remote(2)));
    assert!(connmgr.is_connecting(&remote(3)));
    assert!(connmgr.is_disconnected(&remote(4)));
}

#[test]
fn every_peer_has_one_state() {
    let mut connmgr = manager(Config::default());
    connmgr.connect(&remote(1));
    connmgr.peer_connected(remote(2), local(), Link::Inbound, at(1));
    connmgr.peer_connected(remote(3), local(), Link::Outbound, at(1));
    for n in 1..5 {
        let states = [
            connmgr.is_connected(&remote(n)),
            connmgr.is_connecting(&remote(n)),
            connmgr.is_disconnected(&remote(n)),
        ];
        assert_eq!(states.iter().filter(|state| **state).count(), 1);
    }
}

#[test]
fn events_as_text() {
    let connecting = Event::Connecting(remote(1), Source::Dns);
    assert_eq!(
        connecting.text("124.43.110.1:8333", "DNS"),
        "Connecting to peer 124.43.110.1:8333 from source `DNS`"
    );
    let inbound = Event::Connected(remote(1), Link::Inbound);
    assert_eq!(
        inbound.text("124.43.110.1:8333", ""),
        "124.43.110.1:8333: Peer connected (Inbound)"
    );
    let outbound = Event::Connected(remote(1), Link::Outbound);
    assert_eq!(outbound.text("a", ""), "a: Peer connected (Outbound)");
    let gone = Event::Disconnected(remote(1));
    assert_eq!(gone.text("124.43.110.1:8333", ""), "Disconnected from 124.43.110.1:8333");
}
