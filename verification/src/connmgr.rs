//! Peer connection manager.

use std::marker::PhantomData;

use vstd::prelude::*;

use crate::channel::{
    lemma_sent_concat, lemma_sent_push, sent, Disconnect, Output, SetTimeout, Upstream,
};
use crate::laws::law_outbound_total;
use crate::net::{Address, ServiceFlags, SocketAddr};
use crate::peer::{DisconnectReason, Link, Peer, PeerId, Source, Standing};
use crate::source::{draw, draws, keep_offering, offering, offers_services, AddressSource};
use crate::state::{
    admitted, at_most, connect_outputs, connected, dialled, disconnected, lemma_dialled,
    lemma_first_newcomers, lemma_inbound_after_admission, lemma_inbound_not_raised,
    lemma_negotiated, lemma_newcomers, lemma_newcomers_prefix, lemma_newcomers_push,
    lemma_redial_nothing, lemma_redial_push, lemma_redialled, lemma_total_bounded, negotiated,
    newcomers, outbound_total, over_limit, redial_outputs, redialled, stands,
};
use crate::table::{standing_set, PeerTable};
use crate::time::{LocalDuration, LocalTime, Timeout};

verus! {

/// Time to wait for a new connection.
pub const CONNECTION_TIMEOUT: LocalDuration = 3_000;

/// Time to wait until idle.
pub const IDLE_TIMEOUT: LocalDuration = 60_000;

/// Target number of concurrent outbound peer connections.
pub const TARGET_OUTBOUND_PEERS: usize = 8;

/// Maximum number of inbound peer connections.
pub const MAX_INBOUND_PEERS: usize = 16;

/// Ability to connect to peers.
pub trait Connect: Upstream {
    /// Connect to peer.
    fn connect(&mut self, addr: SocketAddr, timeout: Timeout)
        ensures
            old(self).takes(Output::Connect(addr, timeout), *final(self)),
    ;
}

/// Ability to emit events.
pub trait Events: Upstream {
    /// Emit event.
    fn event(&mut self, event: Event)
        ensures
            old(self).takes(Output::Event(event), *final(self)),
    ;
}

/// A connection-related event.
#[derive(Debug, Clone, Copy, PartialEq, Eq, Structural)]
pub enum Event {
    /// Connecting to a peer found from the specified source.
    Connecting(PeerId, Source),
    /// A new peer has connected and is ready to accept messages.
    /// This event is triggered *after* the peer handshake
    /// has successfully completed.
    Connected(PeerId, Link),
    /// A peer has been disconnected.
    Disconnected(PeerId),
}

impl Event {
    /// The text of the event, with the address of the peer and the source of that
    /// address written as given.
    pub open spec fn spec_text(self, addr: Seq<char>, source: Seq<char>) -> Seq<char> {
        match self {
            Event::Connecting(..) => "Connecting to peer "@ + addr + " from source `"@ + source
                + "`"@,
            Event::Connected(_, link) => addr + ": Peer connected ("@ + link.spec_name() + ")"@,
            Event::Disconnected(_) => "Disconnected from "@ + addr,
        }
    }

    /// The text of the event, with the address of the peer and the source of that
    /// address written as given.
    pub fn text(&self, addr: &str, source: &str) -> (text: String)
        ensures
            text@ == self.spec_text(addr@, source@),
    {
        match self {
            Event::Connecting(..) => {
                "Connecting to peer ".to_owned().concat(addr).concat(" from source `").concat(
                    source,
                ).concat("`")
            },
            Event::Connected(_, link) => addr.to_owned().concat(": Peer connected (").concat(
                link.name(),
            ).concat(")"),
            Event::Disconnected(_) => "Disconnected from ".to_owned().concat(addr),
        }
    }
}

/// Connection manager configuration.
#[derive(Debug, Clone)]
pub struct Config {
    /// Target number of outbound peer connections.
    pub target_outbound_peers: usize,
    /// Maximum number of inbound peer connections.
    pub max_inbound_peers: usize,
    /// Peer addresses that should always be retried. At initialization the first of
    /// them are connected to, up to the target number of outbound peers; at a tick
    /// after the idle time has passed, those that are disconnected, as far as
    /// outbound peers are missing. At these times they come before the addresses of
    /// the address source. When an outbound peer disconnects in the meantime, its
    /// place is filled from the address source at once.
    pub retry: Vec<SocketAddr>,
    /// Peer services required.
    pub required_services: ServiceFlags,
    /// Peer services preferred. We try to maintain as many
    /// connections to peers with these services.
    pub preferred_services: ServiceFlags,
}

impl Default for Config {
    fn default() -> (config: Config)
        ensures
            config.target_outbound_peers == TARGET_OUTBOUND_PEERS,
            config.max_inbound_peers == MAX_INBOUND_PEERS,
            config.retry@ == Seq::<SocketAddr>::empty(),
            config.required_services == ServiceFlags::spec_none(),
            config.preferred_services == ServiceFlags::spec_none(),
    {
        Config {
            target_outbound_peers: TARGET_OUTBOUND_PEERS,
            max_inbound_peers: MAX_INBOUND_PEERS,
            retry: Vec::new(),
            required_services: ServiceFlags::none(),
            preferred_services: ServiceFlags::none(),
        }
    }
}

impl Config {
    /// The addresses that are connected to at initialization: those to be retried,
    /// but no more than the target number of outbound peers.
    pub open spec fn first_addrs(self) -> Seq<SocketAddr> {
        at_most(self.retry@, self.target_outbound_peers as nat)
    }

    /// The number of outbound peers that are missing from the target.
    pub open spec fn missing_peers(self, peers: Map<PeerId, Peer>) -> nat {
        if outbound_total(peers) >= self.target_outbound_peers {
            0
        } else {
            (self.target_outbound_peers - outbound_total(peers)) as nat
        }
    }

    /// The addresses to be retried that are connected to again: those that are
    /// disconnected, but no more than outbound peers are missing.
    pub open spec fn retried(self, peers: Map<PeerId, Peer>) -> Seq<PeerId> {
        at_most(newcomers(peers, self.retry@), self.missing_peers(peers))
    }
}

/// Whether `more` is what comes out of the address source when `count` addresses
/// of peers with the required services are asked for, `after` is what becomes of
/// the source, and `drawn` is made of `kept` and of those of `more` whose peers
/// offer these services.
pub open spec fn completes_with<A: AddressSource>(
    config: Config,
    count: nat,
    kept: Seq<(Address, Source)>,
    before: A,
    more: Seq<(Address, Source)>,
    drawn: Seq<(Address, Source)>,
    after: A,
) -> bool {
    &&& draws(before, config.required_services, count, more, after)
    &&& drawn == kept + offering(more, config.required_services)
}

/// Whether `drawn` is made of `kept` and of what comes out of the address source
/// when `count` addresses of peers with the required services are asked for, and
/// `after` is what becomes of the source.
pub open spec fn completes<A: AddressSource>(
    config: Config,
    count: nat,
    kept: Seq<(Address, Source)>,
    before: A,
    drawn: Seq<(Address, Source)>,
    after: A,
) -> bool {
    exists|more: Seq<(Address, Source)>| #[trigger]
        completes_with(config, count, kept, before, more, drawn, after)
}

/// Whether `preferred` is what comes out of the address source when the outbound
/// peers missing from the target are asked for among those with the preferred
/// services, `between` is what becomes of the source, and `drawn` and `after` are
/// what they become when peers with the required services make up for those that
/// are still missing.
pub open spec fn replenishes_with<A: AddressSource>(
    config: Config,
    peers: Map<PeerId, Peer>,
    before: A,
    preferred: Seq<(Address, Source)>,
    between: A,
    drawn: Seq<(Address, Source)>,
    after: A,
) -> bool {
    let missing = config.missing_peers(peers);
    let kept = offering(preferred, config.required_services);
    &&& draws(before, config.preferred_services, missing, preferred, between)
    &&& if kept.len() < missing {
        completes(config, (missing - kept.len()) as nat, kept, between, drawn, after)
    } else {
        drawn == kept && after == between
    }
}

/// Whether `drawn` are the addresses that the outbound peers missing from the
/// target are replaced with, and `after` is what becomes of the address source:
/// addresses of peers with the preferred services come first, and when there are
/// not enough of these, addresses of peers with the required services make up for
/// them. An address whose peer does not offer the required services is left out,
/// whatever it was drawn for.
pub open spec fn replenishes<A: AddressSource>(
    config: Config,
    peers: Map<PeerId, Peer>,
    before: A,
    drawn: Seq<(Address, Source)>,
    after: A,
) -> bool {
    exists|preferred: Seq<(Address, Source)>, between: A| #[trigger]
        replenishes_with(config, peers, before, preferred, between, drawn, after)
}

/// No more addresses are drawn than outbound peers are missing from the target,
/// and every one of them offers the required services.
pub proof fn lemma_replenishes<A: AddressSource>(
    config: Config,
    peers: Map<PeerId, Peer>,
    before: A,
    drawn: Seq<(Address, Source)>,
    after: A,
)
    requires
        replenishes(config, peers, before, drawn, after),
    ensures
        drawn.len() <= config.missing_peers(peers),
        forall|i: int|
            0 <= i < drawn.len() ==> (#[trigger] drawn[i]).0.services.spec_has(
                config.required_services,
            ),
        config.missing_peers(peers) == 0 ==> drawn == Seq::<(Address, Source)>::empty() && after
            == before,
{
    broadcast use {Seq::lemma_filter_len, Seq::lemma_filter_pred};

    let required = config.required_services;
    let missing = config.missing_peers(peers);
    let (preferred, between) = choose|preferred: Seq<(Address, Source)>, between: A| #[trigger]
        replenishes_with(config, peers, before, preferred, between, drawn, after);
    let kept = offering(preferred, required);
    assert forall|i: int| 0 <= i < kept.len() implies (#[trigger] kept[i]).0.services.spec_has(
        required,
    ) by {
        assert(offers_services(required)(kept[i]));
    }
    if kept.len() < missing {
        let count = (missing - kept.len()) as nat;
        let more = choose|more: Seq<(Address, Source)>| #[trigger]
            completes_with(config, count, kept, between, more, drawn, after);
        let rest = offering(more, required);
        assert forall|i: int| 0 <= i < drawn.len() implies (#[trigger] drawn[i]).0.services.spec_has(
            required,
        ) by {
            if i < kept.len() {
                assert(drawn[i] == kept[i]);
            } else {
                assert(drawn[i] == rest[i - kept.len()]);
                assert(offers_services(required)(rest[i - kept.len()]));
            }
        }
    } else if missing == 0 {
        assert(drawn =~= Seq::empty());
    }
}

/// The random number generator of the `fastrand` crate. Nothing is claimed of it.
#[verifier::external_type_specification]
#[verifier::external_body]
pub struct ExRng(fastrand::Rng);

/// Manages peer connections.
#[derive(Debug)]
pub struct ConnectionManager<U, A> {
    /// Configuration.
    pub config: Config,
    /// Peers that are known, with the state of each.
    peers: PeerTable,
    /// Last time we were idle.
    last_idle: Option<LocalTime>,
    /// Channel to the network.
    upstream: U,
    /// Type witness for address source.
    addresses: PhantomData<A>,
    /// RNG.
    rng: fastrand::Rng,
}

impl<U, A> ConnectionManager<U, A> {
    /// The configuration.
    pub closed spec fn settings(&self) -> Config {
        self.config
    }

    /// The peers that are known, with the state of each.
    pub closed spec fn peers(&self) -> Map<PeerId, Peer> {
        self.peers@
    }

    /// The last time we were idle.
    pub closed spec fn last_idle(&self) -> Option<LocalTime> {
        self.last_idle
    }

    /// The channel to the network.
    pub closed spec fn upstream(&self) -> U {
        self.upstream
    }

    /// The random number generator.
    pub closed spec fn rng(&self) -> fastrand::Rng {
        self.rng
    }

    /// Whether there are no more inbound peers than are allowed.
    pub open spec fn inbound_within_limit(&self) -> bool {
        standing_set(self.peers(), Standing::Inbound).len() <= self.settings().max_inbound_peers
    }

    /// What every operation keeps, `before` being the manager before it: the
    /// configuration and the generator are the same, no peer is forgotten, and the
    /// limit on inbound peers is respected as it was before.
    pub open spec fn keeps(&self, before: &Self) -> bool {
        &&& self.settings() == before.settings()
        &&& self.rng() == before.rng()
        &&& before.peers().dom().subset_of(self.peers().dom())
        &&& before.inbound_within_limit() ==> self.inbound_within_limit()
    }

    /// The peers that are known are finitely many.
    pub proof fn lemma_peers_finite(&self)
        ensures
            self.peers().dom().finite(),
    {
        self.peers.lemma_bounded();
    }

    /// Whether the outbound peers stay within the target when the addresses to be
    /// retried are connected to for the first time.
    pub open spec fn can_initialize(&self) -> bool {
        let first = newcomers(self.peers(), self.settings().first_addrs());
        outbound_total(dialled(self.peers(), first)) <= self.settings().target_outbound_peers
    }

    /// Whether a peer is an outbound peer, or is being connected to.
    pub open spec fn counts_as_outbound(&self, addr: PeerId) -> bool {
        stands(self.peers(), addr, Standing::Outbound) || stands(
            self.peers(),
            addr,
            Standing::Connecting,
        )
    }

    /// The time since we were last idle; since the epoch, if we never were.
    pub open spec fn idle_for(&self, now: LocalTime) -> int {
        match self.last_idle() {
            Some(last) => now.millis - last.millis,
            None => now.millis as int,
        }
    }
}

impl<U: Upstream, A: AddressSource> ConnectionManager<U, A> {
    /// Whether this manager, with the address source `rest`, is what `before`, with
    /// the address source `source`, becomes when the outbound peers missing from
    /// `peers` are replaced and `drawn` are the addresses that they are replaced
    /// with. The network is handed `first` before that and `last` after it.
    pub open spec fn replaces_missing_with(
        &self,
        before: &Self,
        peers: Map<PeerId, Peer>,
        drawn: Seq<(Address, Source)>,
        first: Seq<Output>,
        last: Seq<Output>,
        source: A,
        rest: A,
    ) -> bool {
        &&& replenishes(before.settings(), peers, source, drawn, rest)
        &&& self.peers() == redialled(peers, drawn)
        &&& sent(
            before.upstream(),
            first + redial_outputs(peers, drawn) + last,
            self.upstream(),
        )
    }

    /// Whether this manager, with the address source `rest`, is what `before`, with
    /// the address source `source`, becomes when the outbound peers missing from
    /// `peers` are replaced with addresses drawn. The network is handed `first`
    /// before that and `last` after it.
    pub open spec fn replaces_missing(
        &self,
        before: &Self,
        peers: Map<PeerId, Peer>,
        first: Seq<Output>,
        last: Seq<Output>,
        source: A,
        rest: A,
    ) -> bool {
        exists|drawn: Seq<(Address, Source)>| #[trigger]
            self.replaces_missing_with(before, peers, drawn, first, last, source, rest)
    }

    /// What is handed to the network before the missing peers of `middle` are
    /// replaced, and what is handed to it after that, goes round what is handed to
    /// it in between.
    proof fn lemma_replaces_missing(
        before: &Self,
        first: Seq<Output>,
        middle: &Self,
        replaced: &Self,
        last: Seq<Output>,
        after: &Self,
        source: A,
        rest: A,
    )
        requires
            middle.settings() == before.settings(),
            sent(before.upstream(), first, middle.upstream()),
            replaced.replaces_missing(
                middle,
                middle.peers(),
                Seq::empty(),
                Seq::empty(),
                source,
                rest,
            ),
            after.peers() == replaced.peers(),
            sent(replaced.upstream(), last, after.upstream()),
        ensures
            after.replaces_missing(before, middle.peers(), first, last, source, rest),
    {
        let peers = middle.peers();
        let none = Seq::<Output>::empty();
        let drawn = choose|drawn: Seq<(Address, Source)>| #[trigger]
            replaced.replaces_missing_with(middle, peers, drawn, none, none, source, rest);
        let outputs = redial_outputs(peers, drawn);
        assert(none + outputs + none =~= outputs);
        lemma_sent_concat(
            before.upstream(),
            first,
            middle.upstream(),
            outputs,
            replaced.upstream(),
        );
        lemma_sent_concat(
            before.upstream(),
            first + outputs,
            replaced.upstream(),
            last,
            after.upstream(),
        );
        assert(after.replaces_missing_with(before, peers, drawn, first, last, source, rest));
    }
}

impl<U: Connect + Disconnect + Events + SetTimeout, A: AddressSource> ConnectionManager<U, A> {
    /// Create a new connection manager.
    pub fn new(upstream: U, config: Config, rng: fastrand::Rng) -> (manager: Self)
        ensures
            manager.peers() == Map::<PeerId, Peer>::empty(),
            manager.last_idle() is None,
            manager.settings() == config,
            manager.upstream() == upstream,
            manager.rng() == rng,
            manager.can_initialize(),
            manager.inbound_within_limit(),
    {
        let manager = ConnectionManager {
            config,
            peers: PeerTable::new(),
            last_idle: None,
            upstream,
            addresses: PhantomData,
            rng,
        };
        proof {
            let first = config.first_addrs();
            lemma_newcomers(manager.peers(), first);
            lemma_dialled(manager.peers(), newcomers(manager.peers(), first));
            assert(standing_set(manager.peers(), Standing::Outbound) =~= Set::empty());
            assert(standing_set(manager.peers(), Standing::Connecting) =~= Set::empty());
            assert(standing_set(manager.peers(), Standing::Inbound) =~= Set::empty());
        }
        manager
    }

    /// Gives access to the configuration.
    pub fn config(&self) -> (config: &Config)
        ensures
            *config == self.settings(),
    {
        &self.config
    }

    /// Check whether a peer is connected.
    pub fn is_connected(&self, addr: &PeerId) -> (result: bool)
        ensures
            result == connected(self.peers(), *addr),
            result <==> self.peers().contains_key(*addr) && self.peers()[*addr] is Connected,
    {
        match self.peers.get(addr) {
            Some(peer) => matches!(peer, Peer::Connected { .. }),
            None => false,
        }
    }

    /// Check whether a peer is disconnected.
    pub fn is_disconnected(&self, addr: &PeerId) -> (result: bool)
        ensures
            result == disconnected(self.peers(), *addr),
            result <==> (self.peers().contains_key(*addr) ==> self.peers()[*addr] is Disconnected),
    {
        match self.peers.get(addr) {
            Some(peer) => matches!(peer, Peer::Disconnected),
            None => true,
        }
    }

    /// Check whether a peer is connecting.
    pub fn is_connecting(&self, addr: &PeerId) -> (result: bool)
        ensures
            result == stands(self.peers(), *addr, Standing::Connecting),
            result <==> self.peers().contains_key(*addr) && self.peers()[*addr] is Connecting,
    {
        match self.peers.get(addr) {
            Some(peer) => Standing::Connecting.covers(peer),
            None => false,
        }
    }

    /// Check whether a peer is connected via an inbound link.
    pub fn is_inbound(&self, addr: &PeerId) -> (result: bool)
        ensures
            result == stands(self.peers(), *addr, Standing::Inbound),
            result <==> self.peers().contains_key(*addr) && self.peers()[*addr] is Connected
                && self.peers()[*addr]->link is Inbound,
    {
        match self.peers.get(addr) {
            Some(peer) => Standing::Inbound.covers(peer),
            None => false,
        }
    }

    /// Connect to a peer. Does nothing and returns `false`, unless the peer is
    /// disconnected.
    pub fn connect(&mut self, addr: &PeerId) -> (result: bool)
        ensures
            final(self).keeps(old(self)),
            final(self).last_idle() == old(self).last_idle(),
            result == disconnected(old(self).peers(), *addr),
            result ==> {
                &&& final(self).peers() == old(self).peers().insert(*addr, Peer::Connecting)
                &&& old(self).upstream().takes(
                    Output::Connect(*addr, CONNECTION_TIMEOUT),
                    final(self).upstream(),
                )
            },
            !result ==> *final(self) == *old(self),
            !disconnected(final(self).peers(), *addr),
    {
        proof {
            self.lemma_peers_finite();
            lemma_inbound_not_raised(self.peers(), *addr, Peer::Connecting);
        }
        if !self.is_disconnected(addr) {
            return false;
        }
        self.peers.insert(*addr, Peer::Connecting);
        self.upstream.connect(*addr, CONNECTION_TIMEOUT);

        true
    }

    /// Disconnect a peer (internal).
    fn _disconnect(&mut self, addr: PeerId, reason: DisconnectReason)
        ensures
            final(self).keeps(old(self)),
            final(self).last_idle() == old(self).last_idle(),
            final(self).peers() == old(self).peers().insert(addr, Peer::Disconnecting),
            old(self).upstream().takes(Output::Disconnect(addr, reason), final(self).upstream()),
    {
        proof {
            self.lemma_peers_finite();
            lemma_inbound_not_raised(self.peers(), addr, Peer::Disconnecting);
        }
        self.peers.insert(addr, Peer::Disconnecting);
        self.upstream.disconnect(addr, reason);
    }

    /// Disconnect from a peer. Does nothing, unless the peer is connected.
    pub fn disconnect(&mut self, addr: PeerId, reason: DisconnectReason)
        ensures
            final(self).keeps(old(self)),
            final(self).last_idle() == old(self).last_idle(),
            connected(old(self).peers(), addr) ==> {
                &&& final(self).peers() == old(self).peers().insert(addr, Peer::Disconnecting)
                &&& old(self).upstream().takes(
                    Output::Disconnect(addr, reason),
                    final(self).upstream(),
                )
            },
            !connected(old(self).peers(), addr) ==> *final(self) == *old(self),
    {
        if self.is_connected(&addr) {
            self._disconnect(addr, reason);
        }
    }

    /// Called when a peer is being connected to.
    ///
    /// Since all "attempts" are made from this module, we expect that when a peer is
    /// attempted, we know about it already.
    ///
    /// It's possible that as we were attempting to connect to a peer, that peer in the
    /// meantime connected to us. Hence we also account for an already-connected *inbound*
    /// peer.
    pub fn peer_attempted(&mut self, addr: &SocketAddr)
        requires
            stands(old(self).peers(), *addr, Standing::Connecting) || stands(
                old(self).peers(),
                *addr,
                Standing::Inbound,
            ),
        ensures
            *final(self) == *old(self),
    {
    }

    /// Gives access to the channel to the network.
    pub fn upstream_mut(&mut self) -> (upstream: &mut U)
        ensures
            *upstream == old(self).upstream(),
            final(self).upstream() == *final(upstream),
            final(self).peers() == old(self).peers(),
            final(self).last_idle() == old(self).last_idle(),
            final(self).keeps(old(self)),
    {
        &mut self.upstream
    }

    /// Returns outbound peer addresses.
    pub fn outbound_peers(&self) -> (addrs: Vec<PeerId>)
        ensures
            addrs@.no_duplicates(),
            addrs@.to_set() == standing_set(self.peers(), Standing::Outbound),
            forall|addr: PeerId| #[trigger]
                addrs@.contains(addr) <==> self.peers().contains_key(addr)
                    && self.peers()[addr] is Connected
                    && self.peers()[addr]->link is Outbound,
    {
        let addrs = self.peers.select(Standing::Outbound);
        assert forall|addr: PeerId| #[trigger] addrs@.contains(addr) <==> standing_set(
            self.peers(),
            Standing::Outbound,
        ).contains(addr) by {
            assert(addrs@.contains(addr) <==> addrs@.to_set().contains(addr));
        }
        addrs
    }

    /// Returns inbound peer addresses.
    pub fn inbound_peers(&self) -> (addrs: Vec<PeerId>)
        ensures
            addrs@.no_duplicates(),
            addrs@.to_set() == standing_set(self.peers(), Standing::Inbound),
            forall|addr: PeerId| #[trigger]
                addrs@.contains(addr) <==> self.peers().contains_key(addr)
                    && self.peers()[addr] is Connected
                    && self.peers()[addr]->link is Inbound,
    {
        let addrs = self.peers.select(Standing::Inbound);
        assert forall|addr: PeerId| #[trigger] addrs@.contains(addr) <==> standing_set(
            self.peers(),
            Standing::Inbound,
        ).contains(addr) by {
            assert(addrs@.contains(addr) <==> addrs@.to_set().contains(addr));
        }
        addrs
    }

    /// Returns connecting peers.
    pub fn connecting_peers(&self) -> (addrs: Vec<PeerId>)
        ensures
            addrs@.no_duplicates(),
            addrs@.to_set() == standing_set(self.peers(), Standing::Connecting),
            forall|addr: PeerId| #[trigger]
                addrs@.contains(addr) <==> self.peers().contains_key(addr)
                    && self.peers()[addr] is Connecting,
    {
        let addrs = self.peers.select(Standing::Connecting);
        assert forall|addr: PeerId| #[trigger] addrs@.contains(addr) <==> standing_set(
            self.peers(),
            Standing::Connecting,
        ).contains(addr) by {
            assert(addrs@.contains(addr) <==> addrs@.to_set().contains(addr));
        }
        addrs
    }

    /// Connects to those of the given addresses that are not known to be
    /// connected or on the way there, and tells where each was found. Addresses
    /// that stand for no socket address are passed over.
    pub fn dial(&mut self, addresses: Vec<(Address, Source)>)
        ensures
            final(self).keeps(old(self)),
            final(self).last_idle() == old(self).last_idle(),
            final(self).peers() == redialled(old(self).peers(), addresses@),
            sent(
                old(self).upstream(),
                redial_outputs(old(self).peers(), addresses@),
                final(self).upstream(),
            ),
    {
        let ghost before = *self;
        let mut i: usize = 0;
        assert(redialled(self.peers(), addresses@.take(0)) =~= self.peers());
        while i < addresses.len()
            invariant
                i <= addresses@.len(),
                self.settings() == before.settings(),
                self.rng() == before.rng(),
                self.last_idle() == before.last_idle(),
                self.peers() == redialled(before.peers(), addresses@.take(i as int)),
                sent(
                    before.upstream(),
                    redial_outputs(before.peers(), addresses@.take(i as int)),
                    self.upstream(),
                ),
            decreases addresses@.len() - i,
        {
            let ghost outputs = redial_outputs(before.peers(), addresses@.take(i as int));
            let ghost previous = *self;
            let (addr, source) = addresses[i];
            if let Some(sockaddr) = addr.socket_addr() {
                if self.connect(&sockaddr) {
                    let ghost asked = self.upstream();
                    self.upstream.event(Event::Connecting(sockaddr, source));
                    proof {
                        let request = Output::Connect(sockaddr, CONNECTION_TIMEOUT);
                        let event = Output::Event(Event::Connecting(sockaddr, source));
                        lemma_sent_push(
                            before.upstream(),
                            outputs,
                            previous.upstream(),
                            request,
                            asked,
                        );
                        lemma_sent_push(
                            before.upstream(),
                            outputs.push(request),
                            asked,
                            event,
                            self.upstream(),
                        );
                        assert(outputs.push(request).push(event) =~= outputs + seq![request, event]);
                    }
                }
            }
            proof {
                lemma_redial_push(before.peers(), addresses@.take(i as int), addresses@[i as int]);
                assert(addresses@.take(i as int).push(addresses@[i as int]) =~= addresses@.take(
                    i + 1,
                ));
            }
            i += 1;
        }
        assert(addresses@.take(addresses@.len() as int) =~= addresses@);
        proof {
            before.lemma_peers_finite();
            lemma_redialled(before.peers(), addresses@);
        }
    }

    /// Attempt to maintain a certain number of outbound peers.
    fn maintain_connections(&mut self, addrs: &mut A)
        ensures
            final(self).keeps(old(self)),
            final(self).last_idle() == old(self).last_idle(),
            outbound_total(old(self).peers()) <= old(self).settings().target_outbound_peers
                ==> outbound_total(final(self).peers()) <= old(
                self,
            ).settings().target_outbound_peers,
            outbound_total(old(self).peers()) >= old(self).settings().target_outbound_peers ==> {
                &&& final(self).peers() == old(self).peers()
                &&& final(self).upstream() == old(self).upstream()
                &&& *final(addrs) == *old(addrs)
            },
            final(self).replaces_missing(
                old(self),
                old(self).peers(),
                Seq::empty(),
                Seq::empty(),
                *old(addrs),
                *final(addrs),
            ),
    {
        let delta: usize = self.missing();
        let required = self.config.required_services;
        let ghost source = *addrs;

        let preferred = draw(addrs, self.config.preferred_services, delta);
        let ghost first = preferred@;
        let ghost between = *addrs;
        let mut addresses = keep_offering(preferred, required);
        let ghost kept = addresses@;
        if addresses.len() < delta {
            let missing: usize = delta - addresses.len();
            let more = draw(addrs, required, missing);
            let ghost second = more@;
            let mut rest = keep_offering(more, required);
            addresses.append(&mut rest);
            assert(completes_with(
                self.settings(),
                missing as nat,
                kept,
                between,
                second,
                addresses@,
                *addrs,
            ));
        }
        let ghost drawn = addresses@;
        let ghost outputs = redial_outputs(self.peers(), drawn);
        proof {
            let config = self.settings();
            assert(replenishes_with(
                config,
                self.peers(),
                source,
                first,
                between,
                drawn,
                *addrs,
            ));
            assert(replenishes(config, self.peers(), source, drawn, *addrs));
            self.lemma_peers_finite();
            lemma_replenishes(config, self.peers(), source, drawn, *addrs);
            lemma_redialled(self.peers(), drawn);
            lemma_redial_nothing(self.peers());
            assert(Seq::empty() + outputs + Seq::empty() =~= outputs);
        }
        self.dial(addresses);
        assert(self.replaces_missing_with(
            old(self),
            old(self).peers(),
            drawn,
            Seq::empty(),
            Seq::empty(),
            source,
            *addrs,
        ));
    }

    /// The number of outbound peers that are missing from the target.
    fn missing(&self) -> (count: usize)
        ensures
            count == self.settings().missing_peers(self.peers()),
    {
        let current: usize = self.outbound();
        let target: usize = self.config.target_outbound_peers;
        if current < target {
            target - current
        } else {
            0
        }
    }

    /// Connects to those of the first `count` addresses to be retried that are
    /// disconnected, but to no more than `max` of them.
    fn reconnect(&mut self, count: usize, max: usize)
        requires
            count <= old(self).settings().retry@.len(),
        ensures
            final(self).keeps(old(self)),
            final(self).last_idle() == old(self).last_idle(),
            ({
                let first = at_most(
                    newcomers(old(self).peers(), old(self).settings().retry@.take(count as int)),
                    max as nat,
                );
                &&& final(self).peers() == dialled(old(self).peers(), first)
                &&& sent(old(self).upstream(), connect_outputs(first), final(self).upstream())
            }),
    {
        let ghost before = *self;
        let ghost retry = self.config.retry@.take(count as int);
        let mut i: usize = 0;
        let mut opened: usize = 0;
        proof {
            assert(retry.take(0) =~= Seq::empty());
            assert(dialled(before.peers(), newcomers(before.peers(), retry.take(0)))
                =~= before.peers());
            assert(connect_outputs(newcomers(before.peers(), retry.take(0))) =~= Seq::empty());
        }
        while i < count && opened < max
            invariant
                i <= count,
                opened <= i,
                opened <= max,
                count == retry.len(),
                count <= before.config.retry@.len(),
                retry == before.config.retry@.take(count as int),
                self.settings() == before.settings(),
                self.rng() == before.rng(),
                self.last_idle() == before.last_idle(),
                opened == newcomers(before.peers(), retry.take(i as int)).len(),
                self.peers() == dialled(
                    before.peers(),
                    newcomers(before.peers(), retry.take(i as int)),
                ),
                sent(
                    before.upstream(),
                    connect_outputs(newcomers(before.peers(), retry.take(i as int))),
                    self.upstream(),
                ),
            decreases count - i,
        {
            let addr = self.config.retry[i];
            let ghost earlier = newcomers(before.peers(), retry.take(i as int));
            let ghost previous = *self;
            let asked = self.connect(&addr);
            proof {
                assert(addr == retry[i as int]);
                assert(retry.take(i as int).push(addr) =~= retry.take(i + 1));
                lemma_newcomers_push(before.peers(), retry.take(i as int), addr);
                if asked {
                    let request = Output::Connect(addr, CONNECTION_TIMEOUT);
                    lemma_sent_push(
                        before.upstream(),
                        connect_outputs(earlier),
                        previous.upstream(),
                        request,
                        self.upstream(),
                    );
                    assert(connect_outputs(earlier.push(addr)) =~= connect_outputs(earlier).push(
                        request,
                    ));
                }
            }
            if asked {
                opened += 1;
            }
            i += 1;
        }
        proof {
            let all = newcomers(before.peers(), retry);
            let done = newcomers(before.peers(), retry.take(i as int));
            lemma_newcomers_prefix(before.peers(), retry, i as int);
            if i == count {
                assert(retry.take(i as int) =~= retry);
            } else {
                assert(all.take(max as int) =~= done);
            }
            assert(done == at_most(all, max as nat));
            before.lemma_peers_finite();
            lemma_first_newcomers(before.peers(), retry, max as nat);
            lemma_dialled(before.peers(), done);
        }
    }

    /// The number of outbound peers, those that are being connected to included.
    fn outbound(&self) -> (count: usize)
        ensures
            count == outbound_total(self.peers()),
            count == self.peers().dom().filter(
                |addr: PeerId|
                    self.peers()[addr] is Connecting || (self.peers()[addr] is Connected
                        && self.peers()[addr]->link is Outbound),
            ).len(),
    {
        let outbound = self.outbound_peers();
        let connecting = self.connecting_peers();
        proof {
            self.peers.lemma_bounded();
            lemma_total_bounded(self.peers());
            law_outbound_total(self.peers());
            outbound@.unique_seq_to_set();
            connecting@.unique_seq_to_set();
        }
        outbound.len() + connecting.len()
    }

    /// Initialize the connection manager. Must be called once.
    pub fn initialize(&mut self, _time: LocalTime, addrs: &mut A)
        ensures
            final(self).keeps(old(self)),
            final(self).last_idle() == old(self).last_idle(),
            old(self).can_initialize() ==> outbound_total(final(self).peers()) <= old(
                self,
            ).settings().target_outbound_peers,
            ({
                let first = newcomers(old(self).peers(), old(self).settings().first_addrs());
                let peers = dialled(old(self).peers(), first);
                final(self).replaces_missing(
                    old(self),
                    peers,
                    connect_outputs(first) + seq![Output::SetTimeout(IDLE_TIMEOUT)],
                    Seq::empty(),
                    *old(addrs),
                    *final(addrs),
                )
            }),
    {
        let ghost before = *self;
        let ghost first = newcomers(before.peers(), before.settings().first_addrs());
        let count: usize = if self.config.retry.len() <= self.config.target_outbound_peers {
            self.config.retry.len()
        } else {
            self.config.target_outbound_peers
        };
        self.reconnect(count, count);
        proof {
            assert(before.config.retry@.take(count as int) =~= before.settings().first_addrs());
            lemma_newcomers(before.peers(), before.settings().first_addrs());
        }
        let ghost dialling = *self;
        self.upstream.set_timeout(IDLE_TIMEOUT);
        let ghost middle = *self;
        proof {
            lemma_sent_push(
                before.upstream(),
                connect_outputs(first),
                dialling.upstream(),
                Output::SetTimeout(IDLE_TIMEOUT),
                self.upstream(),
            );
            assert(connect_outputs(first).push(Output::SetTimeout(IDLE_TIMEOUT))
                =~= connect_outputs(first) + seq![Output::SetTimeout(IDLE_TIMEOUT)]);
        }
        let ghost source = *addrs;
        self.maintain_connections(addrs);
        proof {
            Self::lemma_replaces_missing(
                &before,
                connect_outputs(first) + seq![Output::SetTimeout(IDLE_TIMEOUT)],
                &middle,
                &*self,
                Seq::empty(),
                &*self,
                source,
                *addrs,
            );
        }
    }

    /// Called when a peer connected. An inbound connection beyond the configured
    /// limit is not allowed: the peer is disconnected again. That the peer is
    /// connected is not told before it has negotiated.
    pub fn peer_connected(
        &mut self,
        address: SocketAddr,
        local_address: SocketAddr,
        link: Link,
        time: LocalTime,
    )
        requires
            !connected(old(self).peers(), address),
        ensures
            final(self).keeps(old(self)),
            final(self).last_idle() == old(self).last_idle(),
            final(self).peers() == admitted(
                old(self).peers(),
                old(self).settings().max_inbound_peers as nat,
                address,
                local_address,
                link,
                time,
            ),
            sent(
                old(self).upstream(),
                if over_limit(
                    old(self).peers(),
                    old(self).settings().max_inbound_peers as nat,
                    link,
                ) {
                    seq![Output::Disconnect(address, DisconnectReason::ConnectionLimit)]
                } else {
                    Seq::empty()
                },
                final(self).upstream(),
            ),
            ({
                let peers = old(self).peers();
                let inbound = peers.dom().filter(
                    |addr: PeerId| peers[addr] is Connected && peers[addr]->link is Inbound,
                );
                if link is Inbound && inbound.len() >= old(self).settings().max_inbound_peers {
                    &&& final(self).peers() == peers.insert(address, Peer::Disconnecting)
                    &&& old(self).upstream().takes(
                        Output::Disconnect(address, DisconnectReason::ConnectionLimit),
                        final(self).upstream(),
                    )
                } else {
                    &&& final(self).upstream() == old(self).upstream()
                    &&& final(self).peers() == peers.insert(
                        address,
                        Peer::Connected {
                            address,
                            local_address,
                            link,
                            services: (ServiceFlags { bits: 0 }),
                            time,
                        },
                    )
                }
            }),
    {
        let ghost before = *self;
        let inbound = self.inbound_peers();
        proof {
            let peers = self.peers();
            assert(standing_set(peers, Standing::Inbound) =~= peers.dom().filter(
                |addr: PeerId| peers[addr] is Connected && peers[addr]->link is Inbound,
            ));
            inbound@.unique_seq_to_set();
            self.lemma_peers_finite();
            lemma_inbound_after_admission(
                self.peers(),
                self.settings().max_inbound_peers as nat,
                address,
                local_address,
                link,
                time,
            );
        }
        if link.is_inbound() && inbound.len() >= self.config.max_inbound_peers {
            // Don't allow inbound connections beyond the configured limit.
            self._disconnect(address, DisconnectReason::ConnectionLimit);
            proof {
                let request = Output::Disconnect(address, DisconnectReason::ConnectionLimit);
                lemma_sent_push(
                    before.upstream(),
                    Seq::empty(),
                    before.upstream(),
                    request,
                    self.upstream(),
                );
                assert(Seq::empty().push(request) =~= seq![request]);
            }
        } else {
            self.peers.insert(
                address,
                Peer::Connected {
                    address,
                    local_address,
                    services: ServiceFlags::none(),
                    link,
                    time,
                },
            );
        }
    }

    /// Call when a peer negotiated. The peer must be connected. Now that the
    /// handshake is complete, it is told that the peer is connected.
    pub fn peer_negotiated(&mut self, address: SocketAddr, flags: ServiceFlags)
        requires
            connected(old(self).peers(), address),
        ensures
            final(self).keeps(old(self)),
            final(self).last_idle() == old(self).last_idle(),
            old(self).upstream().takes(
                Output::Event(Event::Connected(address, old(self).peers()[address]->link)),
                final(self).upstream(),
            ),
            final(self).peers() == negotiated(old(self).peers(), address, flags),
    {
        proof {
            self.lemma_peers_finite();
            lemma_negotiated(self.peers(), address, flags);
        }
        if let Some(Peer::Connected { address: remote, local_address, link, services: _, time }) =
            self.peers.get(&address) {
            let link = *link;
            let peer = Peer::Connected {
                address: *remote,
                local_address: *local_address,
                link,
                services: flags,
                time: *time,
            };
            self.peers.insert(address, peer);
            self.upstream.event(Event::Connected(address, link));
        }
    }

    /// Call when a peer disconnected. The peer must not be disconnected already.
    pub fn peer_disconnected(&mut self, addr: &SocketAddr, addrs: &mut A)
        requires
            !disconnected(old(self).peers(), *addr),
        ensures
            final(self).keeps(old(self)),
            final(self).last_idle() == old(self).last_idle(),
            ({
                let target = old(self).settings().target_outbound_peers;
                let peers = old(self).peers().insert(*addr, Peer::Disconnected);
                let told = seq![Output::Event(Event::Disconnected(*addr))];
                &&& outbound_total(peers) <= target ==> outbound_total(final(self).peers())
                    <= target
                &&& outbound_total(peers) >= target ==> {
                    &&& *final(addrs) == *old(addrs)
                    &&& final(self).peers() == peers
                    &&& sent(old(self).upstream(), told, final(self).upstream())
                }
                &&& if old(self).counts_as_outbound(*addr) {
                    final(self).replaces_missing(
                        old(self),
                        peers,
                        told,
                        Seq::empty(),
                        *old(addrs),
                        *final(addrs),
                    )
                } else {
                    &&& *final(addrs) == *old(addrs)
                    &&& final(self).peers() == peers
                    &&& sent(old(self).upstream(), told, final(self).upstream())
                }
                &&& old(self).peers()[*addr] is Connecting || (old(
                    self,
                ).peers()[*addr] is Connected && old(self).peers()[*addr]->link is Outbound)
                    ==> final(self).replaces_missing(
                    old(self),
                    peers,
                    told,
                    Seq::empty(),
                    *old(addrs),
                    *final(addrs),
                )
            }),
    {
        let ghost before = *self;
        let ghost source = *addrs;
        let ghost event = Output::Event(Event::Disconnected(*addr));
        proof {
            self.lemma_peers_finite();
            lemma_inbound_not_raised(self.peers(), *addr, Peer::Disconnected);
        }
        self.upstream.event(Event::Disconnected(*addr));
        proof {
            lemma_sent_push(
                before.upstream(),
                Seq::empty(),
                before.upstream(),
                event,
                self.upstream(),
            );
            assert(Seq::empty().push(event) =~= seq![event]);
        }

        // If an outbound peer disconnected, we should make sure to maintain
        // our target outbound connection count.
        let previous = self.peers.insert(*addr, Peer::Disconnected);
        let ghost middle = *self;
        let outbound = match previous {
            Some(peer) => Standing::Outbound.covers(&peer) || Standing::Connecting.covers(&peer),
            None => false,
        };
        if outbound {
            self.maintain_connections(addrs);
            proof {
                Self::lemma_replaces_missing(
                    &before,
                    seq![event],
                    &middle,
                    &*self,
                    Seq::empty(),
                    &*self,
                    source,
                    *addrs,
                );
            }
        }
    }

    /// Call when we received a tick. Once the idle time has passed, the addresses to
    /// be retried are connected to again, and other addresses make up for the
    /// outbound peers that are still missing.
    pub fn received_tick(&mut self, local_time: LocalTime, addrs: &mut A)
        requires
            old(self).idle_for(local_time) >= 0,
        ensures
            final(self).keeps(old(self)),
            old(self).idle_for(local_time) >= IDLE_TIMEOUT ==> {
                let target = old(self).settings().target_outbound_peers;
                let retried = old(self).settings().retried(old(self).peers());
                let peers = dialled(old(self).peers(), retried);
                &&& final(self).last_idle() == Some(local_time)
                &&& forall|addr: PeerId| #[trigger]
                    retried.contains(addr) ==> stands(
                        final(self).peers(),
                        addr,
                        Standing::Connecting,
                    )
                &&& outbound_total(old(self).peers()) <= target ==> outbound_total(
                    final(self).peers(),
                ) <= target
                &&& outbound_total(old(self).peers()) >= target ==> {
                    &&& *final(addrs) == *old(addrs)
                    &&& final(self).peers() == old(self).peers()
                    &&& old(self).upstream().takes(
                        Output::SetTimeout(IDLE_TIMEOUT),
                        final(self).upstream(),
                    )
                }
                &&& final(self).replaces_missing(
                    old(self),
                    peers,
                    connect_outputs(retried),
                    seq![Output::SetTimeout(IDLE_TIMEOUT)],
                    *old(addrs),
                    *final(addrs),
                )
            },
            old(self).idle_for(local_time) < IDLE_TIMEOUT ==> {
                &&& *final(self) == *old(self)
                &&& *final(addrs) == *old(addrs)
            },
            match old(self).last_idle() {
                Some(last) => local_time.millis >= last.millis + IDLE_TIMEOUT,
                None => local_time.millis >= IDLE_TIMEOUT,
            } ==> {
                let retried = old(self).settings().retried(old(self).peers());
                &&& final(self).last_idle() == Some(local_time)
                &&& final(self).replaces_missing(
                    old(self),
                    dialled(old(self).peers(), retried),
                    connect_outputs(retried),
                    seq![Output::SetTimeout(IDLE_TIMEOUT)],
                    *old(addrs),
                    *final(addrs),
                )
            },
    {
        let last_idle = match self.last_idle {
            Some(last) => last,
            None => LocalTime::default(),
        };
        if local_time.duration_since(last_idle) >= IDLE_TIMEOUT {
            let ghost before = *self;
            let ghost source = *addrs;
            let ghost retried = self.settings().retried(self.peers());
            let missing: usize = self.missing();
            let count: usize = self.config.retry.len();
            self.reconnect(count, missing);
            let ghost dialling = *self;
            proof {
                let retry = before.config.retry@;
                assert(retry.take(count as int) =~= retry);
                before.lemma_peers_finite();
                lemma_first_newcomers(before.peers(), retry, missing as nat);
                lemma_dialled(before.peers(), retried);
                if missing == 0 {
                    assert(retried =~= Seq::empty());
                    assert(dialled(before.peers(), retried) =~= before.peers());
                    assert(connect_outputs(retried) =~= Seq::empty());
                }
            }
            self.maintain_connections(addrs);
            let ghost middle = *self;
            self.upstream.set_timeout(IDLE_TIMEOUT);
            self.last_idle = Some(local_time);
            proof {
                let timeout = Output::SetTimeout(IDLE_TIMEOUT);
                lemma_sent_push(
                    middle.upstream(),
                    Seq::empty(),
                    middle.upstream(),
                    timeout,
                    self.upstream(),
                );
                assert(Seq::empty().push(timeout) =~= seq![timeout]);
                Self::lemma_replaces_missing(
                    &before,
                    connect_outputs(retried),
                    &dialling,
                    &middle,
                    seq![timeout],
                    &*self,
                    source,
                    *addrs,
                );
            }
        }
    }
}

} // verus!
