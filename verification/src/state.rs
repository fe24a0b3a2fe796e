//! What the peers are to become, and what the network is to be told of it.

use vstd::prelude::*;

use crate::channel::Output;
use crate::connmgr::{CONNECTION_TIMEOUT, Event};
use crate::net::{Address, ServiceFlags, SocketAddr};
use crate::peer::{Link, Peer, PeerId, Source, Standing};
use crate::table::standing_set;
use crate::time::LocalTime;

verus! {

/// Whether a peer is disconnected, or was never heard of.
pub open spec fn disconnected(peers: Map<PeerId, Peer>, addr: PeerId) -> bool {
    !peers.contains_key(addr) || peers[addr] is Disconnected
}

/// Whether a peer is connected.
pub open spec fn connected(peers: Map<PeerId, Peer>, addr: PeerId) -> bool {
    peers.contains_key(addr) && peers[addr] is Connected
}

/// Whether a peer has the given standing.
pub open spec fn stands(peers: Map<PeerId, Peer>, addr: PeerId, standing: Standing) -> bool {
    peers.contains_key(addr) && standing.spec_covers(peers[addr])
}

/// The number of outbound peers, those that are being connected to included.
pub open spec fn outbound_total(peers: Map<PeerId, Peer>) -> nat {
    standing_set(peers, Standing::Outbound).len() + standing_set(peers, Standing::Connecting).len()
}

/// Those of the given addresses that a connection can be opened to, each once,
/// in the order in which they first occur.
pub open spec fn newcomers(peers: Map<PeerId, Peer>, addrs: Seq<PeerId>) -> Seq<PeerId>
    decreases addrs.len(),
{
    if addrs.len() == 0 {
        Seq::empty()
    } else {
        let earlier = newcomers(peers, addrs.drop_last());
        if disconnected(peers, addrs.last()) && !earlier.contains(addrs.last()) {
            earlier.push(addrs.last())
        } else {
            earlier
        }
    }
}

/// The first `max` of the given items, or all of them when there are fewer.
pub open spec fn at_most<T>(items: Seq<T>, max: nat) -> Seq<T> {
    if items.len() <= max {
        items
    } else {
        items.take(max as int)
    }
}

/// The peers once connections to the given addresses have been opened: those
/// addresses are connecting, all others are as before.
pub open spec fn dialled(peers: Map<PeerId, Peer>, addrs: Seq<PeerId>) -> Map<PeerId, Peer> {
    Map::new(
        |addr: PeerId| peers.contains_key(addr) || addrs.contains(addr),
        |addr: PeerId|
            if addrs.contains(addr) {
                Peer::Connecting
            } else {
                peers[addr]
            },
    )
}

/// The requests to connect to the given addresses.
pub open spec fn connect_outputs(addrs: Seq<PeerId>) -> Seq<Output> {
    addrs.map_values(|addr: PeerId| Output::Connect(addr, CONNECTION_TIMEOUT))
}

/// The offers that stand for a socket address, with that address.
pub open spec fn resolved(drawn: Seq<(Address, Source)>) -> Seq<(PeerId, Source)>
    decreases drawn.len(),
{
    if drawn.len() == 0 {
        Seq::empty()
    } else {
        let earlier = resolved(drawn.drop_last());
        match drawn.last().0.spec_socket_addr() {
            Some(addr) => earlier.push((addr, drawn.last().1)),
            None => earlier,
        }
    }
}

/// The addresses of offers.
pub open spec fn addrs_of(offers: Seq<(PeerId, Source)>) -> Seq<PeerId> {
    offers.map_values(|offer: (PeerId, Source)| offer.0)
}

/// The offers that lead to a connection: of each address that a connection can
/// be opened to, the first offer.
pub open spec fn taken_offers(
    peers: Map<PeerId, Peer>,
    offers: Seq<(PeerId, Source)>,
) -> Seq<(PeerId, Source)>
    decreases offers.len(),
{
    if offers.len() == 0 {
        Seq::empty()
    } else {
        let earlier = taken_offers(peers, offers.drop_last());
        if disconnected(peers, offers.last().0) && !addrs_of(earlier).contains(offers.last().0) {
            earlier.push(offers.last())
        } else {
            earlier
        }
    }
}

/// The request to connect and the event that go with each of the given offers.
pub open spec fn offer_outputs(offers: Seq<(PeerId, Source)>) -> Seq<Output>
    decreases offers.len(),
{
    if offers.len() == 0 {
        Seq::empty()
    } else {
        offer_outputs(offers.drop_last()) + seq![
            Output::Connect(offers.last().0, CONNECTION_TIMEOUT),
            Output::Event(Event::Connecting(offers.last().0, offers.last().1)),
        ]
    }
}

/// The peers once connections have been opened to the addresses drawn.
pub open spec fn redialled(
    peers: Map<PeerId, Peer>,
    drawn: Seq<(Address, Source)>,
) -> Map<PeerId, Peer> {
    dialled(peers, newcomers(peers, addrs_of(resolved(drawn))))
}

/// What the network is told when connections are opened to the addresses drawn.
pub open spec fn redial_outputs(
    peers: Map<PeerId, Peer>,
    drawn: Seq<(Address, Source)>,
) -> Seq<Output> {
    offer_outputs(taken_offers(peers, resolved(drawn)))
}

/// Whether a new connection is one too many: it is inbound, and there are as
/// many inbound peers as are allowed.
pub open spec fn over_limit(peers: Map<PeerId, Peer>, max_inbound: nat, link: Link) -> bool {
    link is Inbound && standing_set(peers, Standing::Inbound).len() >= max_inbound
}

/// The peers once a peer has connected.
pub open spec fn admitted(
    peers: Map<PeerId, Peer>,
    max_inbound: nat,
    address: SocketAddr,
    local_address: SocketAddr,
    link: Link,
    time: LocalTime,
) -> Map<PeerId, Peer> {
    if over_limit(peers, max_inbound, link) {
        peers.insert(address, Peer::Disconnecting)
    } else {
        peers.insert(
            address,
            Peer::Connected {
                address,
                local_address,
                link,
                services: ServiceFlags::spec_none(),
                time,
            },
        )
    }
}

/// The peers once a connected peer has told which services it offers.
pub open spec fn negotiated(
    peers: Map<PeerId, Peer>,
    address: SocketAddr,
    flags: ServiceFlags,
) -> Map<PeerId, Peer> {
    match peers[address] {
        Peer::Connected { address: remote, local_address, link, services, time } => peers.insert(
            address,
            Peer::Connected { address: remote, local_address, link, services: flags, time },
        ),
        _ => peers,
    }
}

proof fn lemma_push_contains<T>(s: Seq<T>, x: T)
    ensures
        forall|y: T| #[trigger] s.push(x).contains(y) <==> s.contains(y) || y == x,
{
    assert forall|y: T| #[trigger] s.push(x).contains(y) <==> s.contains(y) || y == x by {
        if s.contains(y) {
            let i = choose|i: int| 0 <= i < s.len() && s[i] == y;
            assert(s.push(x)[i] == y);
        }
        if y == x {
            assert(s.push(x)[s.len() as int] == y);
        }
    }
}

/// The newcomers are those of the given addresses that are disconnected, each once.
pub proof fn lemma_newcomers(peers: Map<PeerId, Peer>, addrs: Seq<PeerId>)
    ensures
        newcomers(peers, addrs).no_duplicates(),
        newcomers(peers, addrs).len() <= addrs.len(),
        forall|addr: PeerId| #[trigger]
            newcomers(peers, addrs).contains(addr) <==> addrs.contains(addr) && disconnected(
                peers,
                addr,
            ),
    decreases addrs.len(),
{
    if addrs.len() > 0 {
        let init = addrs.drop_last();
        lemma_newcomers(peers, init);
        lemma_push_contains(init, addrs.last());
        assert(init.push(addrs.last()) =~= addrs);
        lemma_push_contains(newcomers(peers, init), addrs.last());
    }
}

/// The first newcomers are newcomers still, each once.
pub proof fn lemma_first_newcomers(peers: Map<PeerId, Peer>, addrs: Seq<PeerId>, max: nat)
    ensures
        ({
            let all = newcomers(peers, addrs);
            let first = at_most(all, max);
            &&& first.no_duplicates()
            &&& first.len() == (if all.len() <= max { all.len() } else { max })
            &&& forall|addr: PeerId| #[trigger]
                first.contains(addr) ==> addrs.contains(addr) && disconnected(peers, addr)
        }),
{
    let all = newcomers(peers, addrs);
    let first = at_most(all, max);
    lemma_newcomers(peers, addrs);
    assert forall|addr: PeerId| #[trigger] first.contains(addr) implies all.contains(addr) by {
        let i = choose|i: int| 0 <= i < first.len() && first[i] == addr;
        assert(all[i] == addr);
    }
}

/// The newcomers among the first addresses are the first newcomers.
pub proof fn lemma_newcomers_prefix(peers: Map<PeerId, Peer>, addrs: Seq<PeerId>, count: int)
    requires
        0 <= count <= addrs.len(),
    ensures
        newcomers(peers, addrs.take(count)).is_prefix_of(newcomers(peers, addrs)),
    decreases addrs.len(),
{
    if count == addrs.len() {
        assert(addrs.take(count) =~= addrs);
    } else {
        let init = addrs.drop_last();
        lemma_newcomers_prefix(peers, init, count);
        assert(init.take(count) =~= addrs.take(count));
    }
}

/// One more address is a newcomer exactly when a connection can be opened to it
/// after the earlier newcomers have been dialled; dialling it then is dialling
/// all of them.
pub proof fn lemma_newcomers_push(peers: Map<PeerId, Peer>, addrs: Seq<PeerId>, addr: PeerId)
    ensures
        ({
            let before = newcomers(peers, addrs);
            let after = newcomers(peers, addrs.push(addr));
            if disconnected(dialled(peers, before), addr) {
                &&& after == before.push(addr)
                &&& dialled(peers, after) == dialled(peers, before).insert(addr, Peer::Connecting)
            } else {
                after == before
            }
        }),
{
    let before = newcomers(peers, addrs);
    assert(addrs.push(addr).drop_last() =~= addrs);
    lemma_push_contains(before, addr);
    assert(disconnected(dialled(peers, before), addr) <==> disconnected(peers, addr)
        && !before.contains(addr));
    assert(dialled(peers, before.push(addr)) =~= dialled(peers, before).insert(
        addr,
        Peer::Connecting,
    ));
}

/// The addresses of the offers taken are the newcomers among the addresses offered.
pub proof fn lemma_taken_offers(peers: Map<PeerId, Peer>, offers: Seq<(PeerId, Source)>)
    ensures
        addrs_of(taken_offers(peers, offers)) == newcomers(peers, addrs_of(offers)),
    decreases offers.len(),
{
    if offers.len() > 0 {
        let init = offers.drop_last();
        lemma_taken_offers(peers, init);
        assert(addrs_of(offers).drop_last() =~= addrs_of(init));
        let earlier = taken_offers(peers, init);
        assert(addrs_of(earlier.push(offers.last())) =~= addrs_of(earlier).push(offers.last().0));
        assert(addrs_of(offers).last() == offers.last().0);
    } else {
        assert(addrs_of(taken_offers(peers, offers)) =~= newcomers(peers, addrs_of(offers)));
    }
}

/// Dialling peers that are disconnected makes them connecting, and leaves the
/// connected peers as they are.
pub proof fn lemma_dialled(peers: Map<PeerId, Peer>, addrs: Seq<PeerId>)
    requires
        peers.dom().finite(),
        addrs.no_duplicates(),
        forall|addr: PeerId| #[trigger] addrs.contains(addr) ==> disconnected(peers, addr),
    ensures
        dialled(peers, addrs).dom().finite(),
        standing_set(dialled(peers, addrs), Standing::Outbound) == standing_set(
            peers,
            Standing::Outbound,
        ),
        standing_set(dialled(peers, addrs), Standing::Inbound) == standing_set(
            peers,
            Standing::Inbound,
        ),
        standing_set(dialled(peers, addrs), Standing::Connecting) == standing_set(
            peers,
            Standing::Connecting,
        ).union(addrs.to_set()),
        outbound_total(dialled(peers, addrs)) == outbound_total(peers) + addrs.len(),
{
    broadcast use vstd::set_lib::lemma_set_disjoint_lens;

    let after = dialled(peers, addrs);
    let connecting = standing_set(peers, Standing::Connecting);
    addrs.unique_seq_to_set();
    assert(after.dom() =~= peers.dom().union(addrs.to_set()));
    assert(standing_set(after, Standing::Outbound) =~= standing_set(peers, Standing::Outbound));
    assert(standing_set(after, Standing::Inbound) =~= standing_set(peers, Standing::Inbound));
    assert(standing_set(after, Standing::Connecting) =~= connecting.union(addrs.to_set()));
    assert(connecting.disjoint(addrs.to_set()));
}

/// Each address drawn is dialled at most once, so no more connections are opened
/// than addresses were drawn; no connected peer is touched.
pub proof fn lemma_redialled(peers: Map<PeerId, Peer>, drawn: Seq<(Address, Source)>)
    requires
        peers.dom().finite(),
    ensures
        redialled(peers, drawn).dom().finite(),
        standing_set(redialled(peers, drawn), Standing::Inbound) == standing_set(
            peers,
            Standing::Inbound,
        ),
        standing_set(redialled(peers, drawn), Standing::Outbound) == standing_set(
            peers,
            Standing::Outbound,
        ),
        outbound_total(redialled(peers, drawn)) == outbound_total(peers) + newcomers(
            peers,
            addrs_of(resolved(drawn)),
        ).len(),
        newcomers(peers, addrs_of(resolved(drawn))).len() <= drawn.len(),
{
    let addrs = addrs_of(resolved(drawn));
    lemma_resolved_len(drawn);
    lemma_newcomers(peers, addrs);
    lemma_dialled(peers, newcomers(peers, addrs));
}

/// Where nothing was drawn, nothing changes and nothing is told.
pub proof fn lemma_redial_nothing(peers: Map<PeerId, Peer>)
    ensures
        redialled(peers, Seq::empty()) == peers,
        redial_outputs(peers, Seq::empty()) == Seq::<Output>::empty(),
{
    let none = Seq::<(Address, Source)>::empty();
    assert(addrs_of(resolved(none)) =~= Seq::empty());
    assert(redialled(peers, none) =~= peers);
    assert(taken_offers(peers, resolved(none)) =~= Seq::empty());
}

proof fn lemma_resolved_len(drawn: Seq<(Address, Source)>)
    ensures
        resolved(drawn).len() <= drawn.len(),
    decreases drawn.len(),
{
    if drawn.len() > 0 {
        lemma_resolved_len(drawn.drop_last());
    }
}

/// A peer that comes into a state other than connected does not add to the
/// inbound peers.
pub proof fn lemma_inbound_not_raised(peers: Map<PeerId, Peer>, addr: PeerId, peer: Peer)
    requires
        peers.dom().finite(),
        !Standing::Inbound.spec_covers(peer),
    ensures
        standing_set(peers.insert(addr, peer), Standing::Inbound).len() <= standing_set(
            peers,
            Standing::Inbound,
        ).len(),
{
    let before = standing_set(peers, Standing::Inbound);
    let after = standing_set(peers.insert(addr, peer), Standing::Inbound);
    assert(after =~= before.remove(addr));
    vstd::set_lib::lemma_len_subset(after, before);
}

/// A peer that connects does not bring the inbound peers over the limit.
pub proof fn lemma_inbound_after_admission(
    peers: Map<PeerId, Peer>,
    max_inbound: nat,
    address: SocketAddr,
    local_address: SocketAddr,
    link: Link,
    time: LocalTime,
)
    requires
        peers.dom().finite(),
    ensures
        ({
            let before = standing_set(peers, Standing::Inbound);
            let after = standing_set(
                admitted(peers, max_inbound, address, local_address, link, time),
                Standing::Inbound,
            );
            before.len() <= max_inbound ==> after.len() <= max_inbound
        }),
{
    let before = standing_set(peers, Standing::Inbound);
    let admitted_peers = admitted(peers, max_inbound, address, local_address, link, time);
    let peer = admitted_peers[address];
    if Standing::Inbound.spec_covers(peer) {
        assert(standing_set(admitted_peers, Standing::Inbound) =~= before.insert(address));
    } else {
        assert(admitted_peers =~= peers.insert(address, peer));
        lemma_inbound_not_raised(peers, address, peer);
    }
}

/// Negotiating changes nothing but the services of the peer: all peers stand as
/// they stood before.
pub proof fn lemma_negotiated(peers: Map<PeerId, Peer>, address: SocketAddr, flags: ServiceFlags)
    requires
        connected(peers, address),
    ensures
        negotiated(peers, address, flags).dom() == peers.dom(),
        forall|standing: Standing|
            #![trigger standing_set(negotiated(peers, address, flags), standing)]
            standing_set(negotiated(peers, address, flags), standing) == standing_set(
                peers,
                standing,
            ),
{
    assert(negotiated(peers, address, flags).dom() =~= peers.dom());
    assert forall|standing: Standing|
        #![trigger standing_set(negotiated(peers, address, flags), standing)]
        standing_set(negotiated(peers, address, flags), standing) == standing_set(
            peers,
            standing,
        ) by {
        assert(standing_set(negotiated(peers, address, flags), standing) =~= standing_set(
            peers,
            standing,
        ));
    }
}

/// How one more address changes what dialling does.
pub proof fn lemma_redial_push(
    peers: Map<PeerId, Peer>,
    drawn: Seq<(Address, Source)>,
    next: (Address, Source),
)
    ensures
        ({
            let before = redialled(peers, drawn);
            let after = redialled(peers, drawn.push(next));
            let outputs = redial_outputs(peers, drawn.push(next));
            match next.0.spec_socket_addr() {
                Some(addr) => if disconnected(before, addr) {
                    &&& after == before.insert(addr, Peer::Connecting)
                    &&& outputs == redial_outputs(peers, drawn) + seq![
                        Output::Connect(addr, CONNECTION_TIMEOUT),
                        Output::Event(Event::Connecting(addr, next.1)),
                    ]
                } else {
                    after == before && outputs == redial_outputs(peers, drawn)
                },
                None => after == before && outputs == redial_outputs(peers, drawn),
            }
        }),
{
    assert(drawn.push(next).drop_last() =~= drawn);
    let offers = resolved(drawn);
    if let Some(addr) = next.0.spec_socket_addr() {
        let offer = (addr, next.1);
        assert(resolved(drawn.push(next)) == offers.push(offer));
        assert(offers.push(offer).drop_last() =~= offers);
        assert(addrs_of(offers.push(offer)) =~= addrs_of(offers).push(addr));
        lemma_newcomers_push(peers, addrs_of(offers), addr);
        lemma_newcomers(peers, addrs_of(offers));
        lemma_taken_offers(peers, offers);
        let taken = taken_offers(peers, offers);
        assert(taken.push(offer).drop_last() =~= taken);
    }
}

/// The outbound peers are among the peers that are known.
pub proof fn lemma_total_bounded(peers: Map<PeerId, Peer>)
    requires
        peers.dom().finite(),
    ensures
        outbound_total(peers) <= peers.dom().len(),
{
    broadcast use vstd::set_lib::lemma_set_disjoint_lens;

    let outbound = standing_set(peers, Standing::Outbound);
    let connecting = standing_set(peers, Standing::Connecting);
    assert(outbound.disjoint(connecting));
    vstd::set_lib::lemma_len_subset(outbound.union(connecting), peers.dom());
}

} // verus!
