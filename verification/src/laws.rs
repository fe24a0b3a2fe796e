//! What holds of the connections, and of start-up, as a whole.

use std::collections::VecDeque;

use vstd::prelude::*;
use vstd::std_specs::convert::FromSpec;

use crate::channel::{sent, Output, Upstream};
use crate::client::{
    resumes, starts, AddressBook, ClientConfig, Error, Network, Next, Request, Startup,
};
use crate::connmgr::{
    completes_with, lemma_replenishes, replenishes, replenishes_with, Config, ConnectionManager,
    Event, CONNECTION_TIMEOUT, IDLE_TIMEOUT,
};
use crate::net::{octets_value, segments_value, Address, ServiceFlags, SocketAddr};
use crate::peer::{Link, Peer, PeerId, Source, Standing};
use crate::source::{
    draws, gives, lemma_all_offering, lemma_offering_nothing, lemma_queue_draws, offering,
    offers_services, AddressSource,
};
use crate::state::{
    addrs_of, admitted, at_most, connect_outputs, connected, dialled, disconnected, lemma_dialled,
    lemma_first_newcomers, lemma_newcomers, lemma_redial_nothing, lemma_redial_push,
    lemma_redialled, lemma_taken_offers, negotiated, newcomers, offer_outputs, outbound_total,
    over_limit, redial_outputs, redialled, resolved, stands, taken_offers,
};
use crate::table::standing_set;
use crate::time::LocalTime;

verus! {

/// A peer is connected, connecting, disconnecting or disconnected, and no two of
/// these at once; a peer that was never heard of is disconnected. A connected
/// peer is either inbound or outbound, and no other peer is.
pub proof fn law_one_state_per_peer(peers: Map<PeerId, Peer>, addr: PeerId)
    ensures
        ({
            let is_connected = connected(peers, addr);
            let is_connecting = stands(peers, addr, Standing::Connecting);
            let is_disconnecting = peers.contains_key(addr) && peers[addr] is Disconnecting;
            let is_disconnected = disconnected(peers, addr);
            let is_inbound = stands(peers, addr, Standing::Inbound);
            let is_outbound = stands(peers, addr, Standing::Outbound);
            &&& is_connected || is_connecting || is_disconnecting || is_disconnected
            &&& is_connected ==> !is_connecting && !is_disconnecting && !is_disconnected
            &&& is_connecting ==> !is_disconnecting && !is_disconnected
            &&& is_disconnecting ==> !is_disconnected
            &&& is_connected <==> is_inbound || is_outbound
            &&& !(is_inbound && is_outbound)
        }),
{
}

/// Connections are opened to the peers that were drawn and can be connected to,
/// and to no others: these peers are connecting afterwards, and every other peer
/// is as it was before.
pub proof fn law_offers_are_taken(
    peers: Map<PeerId, Peer>,
    drawn: Seq<(Address, Source)>,
    addr: PeerId,
)
    ensures
        ({
            let offered = exists|i: int|
                0 <= i < drawn.len() && (#[trigger] drawn[i]).0.spec_socket_addr() == Some(addr);
            let after = redialled(peers, drawn);
            if offered && disconnected(peers, addr) {
                stands(after, addr, Standing::Connecting)
            } else {
                &&& after.contains_key(addr) <==> peers.contains_key(addr)
                &&& peers.contains_key(addr) ==> after[addr] == peers[addr]
            }
        }),
{
    lemma_newcomers(peers, addrs_of(resolved(drawn)));
    lemma_resolved_contains(drawn, addr);
}

/// The addresses resolved are those that the addresses drawn stand for.
proof fn lemma_resolved_contains(drawn: Seq<(Address, Source)>, addr: PeerId)
    ensures
        addrs_of(resolved(drawn)).contains(addr) <==> exists|i: int|
            0 <= i < drawn.len() && (#[trigger] drawn[i]).0.spec_socket_addr() == Some(addr),
    decreases drawn.len(),
{
    if drawn.len() > 0 {
        let init = drawn.drop_last();
        lemma_resolved_contains(init, addr);
        let earlier = addrs_of(resolved(init));
        let now = addrs_of(resolved(drawn));
        match drawn.last().0.spec_socket_addr() {
            Some(last) => {
                assert(now =~= earlier.push(last));
                if earlier.contains(addr) {
                    let k = choose|k: int| 0 <= k < earlier.len() && earlier[k] == addr;
                    assert(now[k] == addr);
                }
                if last == addr {
                    assert(now[earlier.len() as int] == addr);
                }
            },
            None => {
                assert(now =~= earlier);
            },
        }
        if now.contains(addr) {
            if earlier.contains(addr) {
                let i = choose|i: int|
                    0 <= i < init.len() && (#[trigger] init[i]).0.spec_socket_addr() == Some(addr);
                assert(drawn[i].0.spec_socket_addr() == Some(addr));
            } else {
                assert(drawn[drawn.len() - 1].0.spec_socket_addr() == Some(addr));
            }
        }
        if exists|i: int|
            0 <= i < drawn.len() && (#[trigger] drawn[i]).0.spec_socket_addr() == Some(addr) {
            let i = choose|i: int|
                0 <= i < drawn.len() && (#[trigger] drawn[i]).0.spec_socket_addr() == Some(addr);
            if i < init.len() {
                assert(init[i].0.spec_socket_addr() == Some(addr));
            }
        }
    } else {
        assert(addrs_of(resolved(drawn)) =~= Seq::empty());
    }
}

/// Whether the offer at `i` is the first one of an address.
pub open spec fn is_first_offer(offers: Seq<(PeerId, Source)>, i: int, addr: PeerId) -> bool {
    &&& 0 <= i < offers.len()
    &&& offers[i].0 == addr
    &&& forall|j: int| 0 <= j < i ==> (#[trigger] offers[j]).0 != addr
}

/// Every peer that becomes connecting is asked for once, and the source of the
/// first offer of its address is told right after; nothing else is asked for or
/// told.
pub proof fn law_one_request_per_connection(
    peers: Map<PeerId, Peer>,
    drawn: Seq<(Address, Source)>,
)
    ensures
        ({
            let dialled_peers = newcomers(peers, addrs_of(resolved(drawn)));
            let taken = taken_offers(peers, resolved(drawn));
            let outputs = redial_outputs(peers, drawn);
            &&& dialled_peers.no_duplicates()
            &&& taken.len() == dialled_peers.len()
            &&& outputs.len() == 2 * dialled_peers.len()
            &&& forall|k: int|
                #![trigger dialled_peers[k]]
                0 <= k < dialled_peers.len() ==> {
                    &&& taken[k].0 == dialled_peers[k]
                    &&& exists|i: int|
                        #[trigger] is_first_offer(resolved(drawn), i, dialled_peers[k])
                            && resolved(drawn)[i] == taken[k]
                    &&& outputs[2 * k] == Output::Connect(dialled_peers[k], CONNECTION_TIMEOUT)
                    &&& outputs[2 * k + 1] == Output::Event(
                        Event::Connecting(dialled_peers[k], taken[k].1),
                    )
                }
        }),
{
    let offers = resolved(drawn);
    let taken = taken_offers(peers, offers);
    lemma_newcomers(peers, addrs_of(offers));
    lemma_taken_offers(peers, offers);
    lemma_offer_outputs(taken);
    assert forall|k: int|
        #![trigger newcomers(peers, addrs_of(offers))[k]]
        0 <= k < taken.len() implies newcomers(peers, addrs_of(offers))[k] == taken[k].0 && (
    exists|i: int|
        #[trigger] is_first_offer(offers, i, newcomers(peers, addrs_of(offers))[k]) && offers[i]
            == taken[k]) by {
        assert(addrs_of(taken)[k] == taken[k].0);
        lemma_first_offer_taken(peers, offers, k);
    }
}

/// An offer that is taken is the first one of its address.
proof fn lemma_first_offer_taken(peers: Map<PeerId, Peer>, offers: Seq<(PeerId, Source)>, k: int)
    requires
        0 <= k < taken_offers(peers, offers).len(),
    ensures
        exists|i: int|
            #[trigger] is_first_offer(offers, i, taken_offers(peers, offers)[k].0) && offers[i]
                == taken_offers(peers, offers)[k],
    decreases offers.len(),
{
    let init = offers.drop_last();
    let earlier = taken_offers(peers, init);
    let offer = taken_offers(peers, offers)[k];
    if k < earlier.len() {
        lemma_first_offer_taken(peers, init, k);
        let i = choose|i: int|
            #[trigger] is_first_offer(init, i, earlier[k].0) && init[i] == earlier[k];
        assert forall|j: int| 0 <= j < i implies (#[trigger] offers[j]).0 != offer.0 by {
            assert(init[j] == offers[j]);
        }
        assert(is_first_offer(offers, i, offer.0));
    } else {
        let last = offers.len() - 1;
        lemma_taken_offers(peers, init);
        lemma_newcomers(peers, addrs_of(init));
        assert forall|j: int| 0 <= j < last implies (#[trigger] offers[j]).0 != offer.0 by {
            assert(addrs_of(init)[j] == offers[j].0);
            assert(addrs_of(init).contains(offers[j].0));
        }
        assert(is_first_offer(offers, last, offer.0));
    }
}

proof fn lemma_offer_outputs(offers: Seq<(PeerId, Source)>)
    ensures
        offer_outputs(offers).len() == 2 * offers.len(),
        forall|k: int|
            #![trigger offers[k]]
            0 <= k < offers.len() ==> {
                &&& offer_outputs(offers)[2 * k] == Output::Connect(offers[k].0, CONNECTION_TIMEOUT)
                &&& offer_outputs(offers)[2 * k + 1] == Output::Event(
                    Event::Connecting(offers[k].0, offers[k].1),
                )
            },
    decreases offers.len(),
{
    if offers.len() > 0 {
        let init = offers.drop_last();
        lemma_offer_outputs(init);
        assert forall|k: int|
            #![trigger offers[k]]
            0 <= k < offers.len() implies {
            &&& offer_outputs(offers)[2 * k] == Output::Connect(offers[k].0, CONNECTION_TIMEOUT)
            &&& offer_outputs(offers)[2 * k + 1] == Output::Event(
                Event::Connecting(offers[k].0, offers[k].1),
            )
        } by {
            if k < init.len() {
                assert(init[k] == offers[k]);
            }
        }
    }
}

/// When as many addresses are drawn as outbound peers are missing from the target,
/// and they stand for different peers that can be connected to, the target is
/// reached.
pub proof fn law_target_reached(
    target: nat,
    peers: Map<PeerId, Peer>,
    drawn: Seq<(Address, Source)>,
)
    requires
        peers.dom().finite(),
        outbound_total(peers) + drawn.len() == target,
        forall|i: int|
            0 <= i < drawn.len() ==> {
                &&& (#[trigger] drawn[i]).0.spec_socket_addr() is Some
                &&& disconnected(peers, drawn[i].0.spec_socket_addr()->0)
            },
        forall|i: int, j: int|
            0 <= i < j < drawn.len() ==> (#[trigger] drawn[i]).0.spec_socket_addr() != (
            #[trigger] drawn[j]).0.spec_socket_addr(),
    ensures
        outbound_total(redialled(peers, drawn)) == target,
{
    lemma_redialled(peers, drawn);
    lemma_all_newcomers(peers, drawn);
}

proof fn lemma_all_newcomers(peers: Map<PeerId, Peer>, drawn: Seq<(Address, Source)>)
    requires
        forall|i: int|
            0 <= i < drawn.len() ==> {
                &&& (#[trigger] drawn[i]).0.spec_socket_addr() is Some
                &&& disconnected(peers, drawn[i].0.spec_socket_addr()->0)
            },
        forall|i: int, j: int|
            0 <= i < j < drawn.len() ==> (#[trigger] drawn[i]).0.spec_socket_addr() != (
            #[trigger] drawn[j]).0.spec_socket_addr(),
    ensures
        newcomers(peers, addrs_of(resolved(drawn))).len() == drawn.len(),
    decreases drawn.len(),
{
    if drawn.len() > 0 {
        let init = drawn.drop_last();
        assert forall|i: int| 0 <= i < init.len() implies {
            &&& (#[trigger] init[i]).0.spec_socket_addr() is Some
            &&& disconnected(peers, init[i].0.spec_socket_addr()->0)
        } by {
            assert(init[i] == drawn[i]);
        }
        assert forall|i: int, j: int| 0 <= i < j < init.len() implies (
        #[trigger] init[i]).0.spec_socket_addr() != (#[trigger] init[j]).0.spec_socket_addr() by {
            assert(init[i] == drawn[i]);
            assert(init[j] == drawn[j]);
        }
        lemma_all_newcomers(peers, init);
        let earlier = addrs_of(resolved(init));
        let last = drawn[drawn.len() - 1].0.spec_socket_addr()->0;
        assert(addrs_of(resolved(drawn)) =~= earlier.push(last));
        assert(earlier.push(last).drop_last() =~= earlier);
        lemma_newcomers(peers, earlier);
        lemma_resolved_contains(init, last);
        if earlier.contains(last) {
            let i = choose|i: int|
                0 <= i < init.len() && (#[trigger] init[i]).0.spec_socket_addr() == Some(last);
            assert(drawn[i].0.spec_socket_addr() == drawn[drawn.len() - 1].0.spec_socket_addr());
        }
    }
}

/// A queue of addresses is drawn from at its front: first as many addresses as
/// outbound peers are missing, and then as many as are still missing without those
/// whose peers do not offer the required services; fewer when the queue is short.
pub proof fn law_queue_replenishes(
    config: Config,
    peers: Map<PeerId, Peer>,
    before: VecDeque<(Address, Source)>,
    drawn: Seq<(Address, Source)>,
    after: VecDeque<(Address, Source)>,
)
    requires
        replenishes(config, peers, before, drawn, after),
    ensures
        ({
            let missing = config.missing_peers(peers);
            let first = at_most(before@, missing);
            let rest = before@.skip(first.len() as int);
            let kept = offering(first, config.required_services);
            if kept.len() < missing {
                let second = at_most(rest, (missing - kept.len()) as nat);
                &&& drawn == kept + offering(second, config.required_services)
                &&& after@ == rest.skip(second.len() as int)
            } else {
                drawn == kept && after@ == rest
            }
        }),
{
    let required = config.required_services;
    let missing = config.missing_peers(peers);
    let (preferred, between) = choose|
        preferred: Seq<(Address, Source)>,
        between: VecDeque<(Address, Source)>,
    | #[trigger]
        replenishes_with(config, peers, before, preferred, between, drawn, after);
    let kept = offering(preferred, required);
    lemma_queue_draws(before, config.preferred_services, missing, preferred, between);
    assert(preferred =~= at_most(before@, missing));
    if kept.len() < missing {
        let count = (missing - kept.len()) as nat;
        let more = choose|more: Seq<(Address, Source)>| #[trigger]
            completes_with(config, count, kept, between, more, drawn, after);
        lemma_queue_draws(between, required, count, more, after);
        assert(more =~= at_most(between@, count));
    }
}

/// A queue of addresses whose peers all offer the required services loses what is
/// drawn and nothing else: as many addresses as outbound peers are missing, or all
/// of them when there are fewer.
pub proof fn law_suitable_queue_replenishes(
    config: Config,
    peers: Map<PeerId, Peer>,
    before: VecDeque<(Address, Source)>,
    drawn: Seq<(Address, Source)>,
    after: VecDeque<(Address, Source)>,
)
    requires
        replenishes(config, peers, before, drawn, after),
        forall|i: int|
            0 <= i < before@.len() ==> (#[trigger] before@[i]).0.services.spec_has(
                config.required_services,
            ),
    ensures
        drawn == at_most(before@, config.missing_peers(peers)),
        drawn == before@.take(drawn.len() as int),
        after@ == before@.skip(drawn.len() as int),
        after@.len() > 0 ==> outbound_total(peers) + drawn.len()
            >= config.target_outbound_peers,
        drawn.len() > 0 ==> outbound_total(peers) + drawn.len() <= config.target_outbound_peers,
{
    let missing = config.missing_peers(peers);
    let first = at_most(before@, missing);
    let rest = before@.skip(first.len() as int);
    law_queue_replenishes(config, peers, before, drawn, after);
    assert forall|i: int| 0 <= i < first.len() implies (#[trigger] first[i]).0.services.spec_has(
        config.required_services,
    ) by {
        assert(first[i] == before@[i]);
    }
    lemma_all_offering(first, config.required_services);
    assert(drawn == first && after@ == rest) by {
        if first.len() < missing {
            assert(rest =~= Seq::empty());
            lemma_offering_nothing(config.required_services);
            assert(drawn =~= first);
            assert(after@ =~= rest);
        }
    }
    assert(first =~= before@.take(first.len() as int));
}

/// Where no services are required, every address will do.
pub proof fn law_no_services_required(drawn: Seq<(Address, Source)>)
    ensures
        offering(drawn, ServiceFlags::spec_none()) == drawn,
{
    assert forall|i: int| 0 <= i < drawn.len() implies (#[trigger] drawn[i]).0.services.spec_has(
        ServiceFlags::spec_none(),
    ) by {
        drawn[i].0.services.lemma_has_none();
    }
    lemma_all_offering(drawn, ServiceFlags::spec_none());
}

/// A peer that becomes connecting when missing peers are replaced has an address
/// that was drawn and that offers the required services, whatever services are
/// preferred and whatever the address source gives.
pub proof fn law_required_services<A: AddressSource>(
    config: Config,
    peers: Map<PeerId, Peer>,
    before: A,
    drawn: Seq<(Address, Source)>,
    after: A,
    addr: PeerId,
)
    requires
        replenishes(config, peers, before, drawn, after),
        stands(redialled(peers, drawn), addr, Standing::Connecting),
        !stands(peers, addr, Standing::Connecting),
    ensures
        exists|i: int|
            {
                &&& 0 <= i < drawn.len()
                &&& (#[trigger] drawn[i]).0.spec_socket_addr() == Some(addr)
                &&& drawn[i].0.services.spec_has(config.required_services)
            },
{
    lemma_replenishes(config, peers, before, drawn, after);
    law_offers_are_taken(peers, drawn, addr);
    let i = choose|i: int|
        0 <= i < drawn.len() && (#[trigger] drawn[i]).0.spec_socket_addr() == Some(addr);
    assert(drawn[i].0.services.spec_has(config.required_services));
}

/// When there are as many outbound peers as the target or more, nothing is drawn
/// and the address source is left alone; no peer changes, and nothing is asked for
/// or told.
pub proof fn law_nothing_missing<A: AddressSource>(
    config: Config,
    peers: Map<PeerId, Peer>,
    before: A,
    drawn: Seq<(Address, Source)>,
    after: A,
)
    requires
        outbound_total(peers) >= config.target_outbound_peers,
        replenishes(config, peers, before, drawn, after),
    ensures
        drawn == Seq::<(Address, Source)>::empty(),
        after == before,
        redialled(peers, drawn) == peers,
        redial_outputs(peers, drawn) == Seq::<Output>::empty(),
{
    lemma_replenishes(config, peers, before, drawn, after);
    lemma_redial_nothing(peers);
}

/// Addresses to be retried are retried: each of them that is disconnected is
/// connected to again and asked for once, whatever is drawn afterwards, unless the
/// target is reached with those before it.
pub proof fn law_retry(config: Config, peers: Map<PeerId, Peer>, drawn: Seq<(Address, Source)>)
    requires
        peers.dom().finite(),
    ensures
        ({
            let due = newcomers(peers, config.retry@);
            let retried = config.retried(peers);
            let between = dialled(peers, retried);
            let after = redialled(between, drawn);
            &&& retried.no_duplicates()
            &&& retried.is_prefix_of(due)
            &&& retried != due ==> outbound_total(between) >= config.target_outbound_peers
            &&& retried.len() > 0 ==> outbound_total(between) <= config.target_outbound_peers
            &&& forall|addr: PeerId| #[trigger]
                retried.contains(addr) ==> stands(after, addr, Standing::Connecting)
            &&& forall|addr: PeerId| #[trigger]
                config.retry@.contains(addr) && disconnected(peers, addr) && outbound_total(
                    between,
                ) < config.target_outbound_peers ==> stands(after, addr, Standing::Connecting)
            &&& connect_outputs(retried).len() == retried.len()
            &&& forall|k: int|
                0 <= k < retried.len() ==> #[trigger] connect_outputs(retried)[k]
                    == Output::Connect(retried[k], CONNECTION_TIMEOUT)
        }),
{
    let due = newcomers(peers, config.retry@);
    let missing = config.missing_peers(peers);
    let retried = config.retried(peers);
    let between = dialled(peers, retried);
    lemma_newcomers(peers, config.retry@);
    lemma_first_newcomers(peers, config.retry@, missing);
    lemma_dialled(peers, retried);
    lemma_newcomers(between, addrs_of(resolved(drawn)));
}

/// Where there is no address to be retried, none is.
pub proof fn law_nothing_to_retry(config: Config, peers: Map<PeerId, Peer>)
    requires
        config.retry@.len() == 0,
    ensures
        config.retried(peers) == Seq::<PeerId>::empty(),
        dialled(peers, config.retried(peers)) == peers,
        connect_outputs(config.retried(peers)) == Seq::<Output>::empty(),
{
    assert(config.retried(peers) =~= Seq::empty());
    assert(dialled(peers, config.retried(peers)) =~= peers);
    assert(connect_outputs(config.retried(peers)) =~= Seq::empty());
}

/// That a peer is connected is never told when connections are opened: it takes a
/// handshake.
pub proof fn law_dialling_tells_of_no_connection(
    peers: Map<PeerId, Peer>,
    addrs: Seq<PeerId>,
    drawn: Seq<(Address, Source)>,
    addr: PeerId,
    link: Link,
)
    ensures
        !connect_outputs(addrs).contains(Output::Event(Event::Connected(addr, link))),
        !redial_outputs(peers, drawn).contains(Output::Event(Event::Connected(addr, link))),
{
    let taken = taken_offers(peers, resolved(drawn));
    lemma_no_connection_told(taken, addr, link);
}

proof fn lemma_no_connection_told(offers: Seq<(PeerId, Source)>, addr: PeerId, link: Link)
    ensures
        !offer_outputs(offers).contains(Output::Event(Event::Connected(addr, link))),
    decreases offers.len(),
{
    if offers.len() > 0 {
        let init = offer_outputs(offers.drop_last());
        let outputs = offer_outputs(offers);
        lemma_no_connection_told(offers.drop_last(), addr, link);
        assert forall|i: int| 0 <= i < outputs.len() implies outputs[i] != Output::Event(
            Event::Connected(addr, link),
        ) by {
            if i < init.len() {
                assert(init.contains(init[i]));
            }
        }
    }
}

/// A peer that is connected to, connects over an outbound link and disconnects
/// again counts toward the target from the request on until it disconnects. Then
/// it can be connected to once more, and as many outbound peers are left as there
/// were at first.
pub proof fn law_outbound_lifecycle(
    peers: Map<PeerId, Peer>,
    max_inbound: nat,
    addr: SocketAddr,
    local_address: SocketAddr,
    time: LocalTime,
)
    requires
        peers.dom().finite(),
        disconnected(peers, addr),
    ensures
        ({
            let dialling = peers.insert(addr, Peer::Connecting);
            let up = admitted(dialling, max_inbound, addr, local_address, Link::Outbound, time);
            let down = up.insert(addr, Peer::Disconnected);
            &&& stands(dialling, addr, Standing::Connecting)
            &&& outbound_total(dialling) == outbound_total(peers) + 1
            &&& stands(up, addr, Standing::Outbound)
            &&& outbound_total(up) == outbound_total(peers) + 1
            &&& disconnected(down, addr)
            &&& outbound_total(down) == outbound_total(peers)
        }),
{
    let dialling = peers.insert(addr, Peer::Connecting);
    let up = admitted(dialling, max_inbound, addr, local_address, Link::Outbound, time);
    let down = up.insert(addr, Peer::Disconnected);
    let outbound = standing_set(peers, Standing::Outbound);
    let connecting = standing_set(peers, Standing::Connecting);
    assert(standing_set(dialling, Standing::Outbound) =~= outbound);
    assert(standing_set(dialling, Standing::Connecting) =~= connecting.insert(addr));
    assert(standing_set(up, Standing::Outbound) =~= outbound.insert(addr));
    assert(standing_set(up, Standing::Connecting) =~= connecting);
    assert(standing_set(down, Standing::Outbound) =~= outbound);
    assert(standing_set(down, Standing::Connecting) =~= connecting);
}

/// Opening connections to more addresses after some is opening connections to all
/// of them: the order in which they are asked for, and how often, does not matter
/// to where the peers end up.
pub proof fn law_dialling_is_cumulative(
    peers: Map<PeerId, Peer>,
    first: Seq<PeerId>,
    second: Seq<PeerId>,
)
    ensures
        ({
            let between = dialled(peers, newcomers(peers, first));
            dialled(between, newcomers(between, second)) == dialled(
                peers,
                newcomers(peers, first + second),
            )
        }),
{
    let between = dialled(peers, newcomers(peers, first));
    let after = dialled(between, newcomers(between, second));
    let at_once = dialled(peers, newcomers(peers, first + second));
    lemma_newcomers(peers, first);
    lemma_newcomers(between, second);
    lemma_newcomers(peers, first + second);
    assert forall|addr: PeerId| #[trigger]
        (first + second).contains(addr) <==> first.contains(addr) || second.contains(addr) by {
        if first.contains(addr) {
            let i = choose|i: int| 0 <= i < first.len() && first[i] == addr;
            assert((first + second)[i] == addr);
        }
        if second.contains(addr) {
            let i = choose|i: int| 0 <= i < second.len() && second[i] == addr;
            assert((first + second)[first.len() + i] == addr);
        }
    }
    assert forall|addr: PeerId|
        after.contains_key(addr) <==> at_once.contains_key(addr) by {
        assert((first + second).contains(addr) <==> first.contains(addr) || second.contains(addr));
    }
    assert(after =~= at_once);
}

/// Once a tick has been acted upon, ticks are ignored until the idle time has
/// passed again.
pub proof fn law_ticks_wait<U, A>(
    manager: ConnectionManager<U, A>,
    last: LocalTime,
    now: LocalTime,
)
    requires
        manager.last_idle() == Some(last),
    ensures
        manager.idle_for(now) >= IDLE_TIMEOUT <==> now.millis >= last.millis + IDLE_TIMEOUT,
{
}

/// An IPv4 address, written as an IPv6 address that has it mapped, stands for
/// itself.
pub proof fn law_mapped_ipv4_resolves(octets: Seq<u8>, address: Address)
    requires
        octets.len() == 4,
        address.address@ == seq![
            0u16,
            0,
            0,
            0,
            0,
            0xFFFF,
            (octets[0] * 0x100 + octets[1]) as u16,
            (octets[2] * 0x100 + octets[3]) as u16,
        ],
    ensures
        address.spec_socket_addr() == Some(
            SocketAddr::V4 { ipv4: octets_value(octets), port: address.port },
        ),
{
}

/// A start-up asks for no more than two address books: after the second, the
/// client is run or start-up fails.
pub proof fn law_startup_ends<T, E>(
    startup: Startup<T>,
    first: Result<AddressBook, E>,
    between: Startup<T>,
    request: Request,
    second: Result<AddressBook, E>,
    next: Next<T, E>,
)
    requires
        resumes(startup, first, Next::Ask(between, request)),
        resumes(between, second, next),
    ensures
        !(next is Ask),
{
}

/// A client that is told which peers to connect to is run with the address book
/// made of these peers, and aims at as many connections as there are peers.
pub proof fn law_given_peers_are_used<T, E>(
    connect: Seq<SocketAddr>,
    listen: Seq<SocketAddr>,
    network: Network,
    defaults: ClientConfig<T>,
    startup: Startup<T>,
    request: Request,
    book: AddressBook,
    next: Next<T, E>,
)
    requires
        connect.len() > 0,
        starts(connect, listen, network, defaults, startup, request),
        resumes(startup, Ok(book), next),
    ensures
        request matches Request::Import(addrs) && addrs@ == connect,
        next matches Next::Launch(config) && config.address_book == book
            && config.target_outbound_peers == connect.len() && config.network == network,
{
}

/// A client that is not told which peers to connect to is not run with an empty
/// stored address book.
pub proof fn law_stored_book_not_empty<T, E>(
    listen: Seq<SocketAddr>,
    network: Network,
    defaults: ClientConfig<T>,
    startup: Startup<T>,
    request: Request,
    answer: Result<AddressBook, E>,
    next: Next<T, E>,
)
    requires
        starts(Seq::empty(), listen, network, defaults, startup, request),
        resumes(startup, answer, next),
    ensures
        next matches Next::Launch(config) ==> config.address_book.addrs@.len() > 0,
{
}

/// The state of a peer is what it is asked for by: a peer that was never heard of,
/// or that is no longer connected, is disconnected; a connected peer is inbound or
/// outbound as its link is.
pub proof fn law_states(peers: Map<PeerId, Peer>, addr: PeerId)
    ensures
        connected(peers, addr) <==> peers.contains_key(addr) && peers[addr] is Connected,
        disconnected(peers, addr) <==> (peers.contains_key(addr) ==> peers[addr] is Disconnected),
        stands(peers, addr, Standing::Connecting) <==> peers.contains_key(addr)
            && peers[addr] is Connecting,
        stands(peers, addr, Standing::Inbound) <==> peers.contains_key(addr)
            && peers[addr] is Connected && peers[addr]->link is Inbound,
        stands(peers, addr, Standing::Outbound) <==> peers.contains_key(addr)
            && peers[addr] is Connected && peers[addr]->link is Outbound,
        standing_set(peers, Standing::Connecting).contains(addr) <==> peers.contains_key(addr)
            && peers[addr] is Connecting,
        standing_set(peers, Standing::Inbound).contains(addr) <==> peers.contains_key(addr)
            && peers[addr] is Connected && peers[addr]->link is Inbound,
        standing_set(peers, Standing::Outbound).contains(addr) <==> peers.contains_key(addr)
            && peers[addr] is Connected && peers[addr]->link is Outbound,
{
}

/// Toward the target count the peers that are connecting and those that are
/// connected over an outbound link, each once, and no others.
pub proof fn law_outbound_total(peers: Map<PeerId, Peer>)
    requires
        peers.dom().finite(),
    ensures
        outbound_total(peers) == peers.dom().filter(
            |addr: PeerId|
                peers[addr] is Connecting || (peers[addr] is Connected
                    && peers[addr]->link is Outbound),
        ).len(),
        (forall|addr: PeerId| #[trigger]
            peers.contains_key(addr) ==> !(peers[addr] is Connecting) && !(peers[addr] is Connected
                && peers[addr]->link is Outbound)) ==> outbound_total(peers) == 0,
{
    broadcast use vstd::set_lib::lemma_set_disjoint_lens;

    let counted = peers.dom().filter(
        |addr: PeerId|
            peers[addr] is Connecting || (peers[addr] is Connected
                && peers[addr]->link is Outbound),
    );
    let outbound = standing_set(peers, Standing::Outbound);
    let connecting = standing_set(peers, Standing::Connecting);
    assert(outbound.disjoint(connecting));
    assert(counted =~= outbound.union(connecting));
    if forall|addr: PeerId| #[trigger]
        peers.contains_key(addr) ==> !(peers[addr] is Connecting) && !(peers[addr] is Connected
            && peers[addr]->link is Outbound) {
        assert(counted =~= Set::empty());
    }
}

/// A peer that comes into a new state counts toward the target exactly when it is
/// connecting or connected over an outbound link. Whatever becomes of it, an
/// inbound peer takes no place from the outbound ones.
pub proof fn law_what_counts_as_outbound(peers: Map<PeerId, Peer>, addr: PeerId, peer: Peer)
    requires
        peers.dom().finite(),
    ensures
        ({
            let counted = peers.contains_key(addr) && (peers[addr] is Connecting || (
            peers[addr] is Connected && peers[addr]->link is Outbound));
            let counts = peer is Connecting || (peer is Connected && peer->link is Outbound);
            let others = outbound_total(peers) - (if counted { 1int } else { 0 });
            outbound_total(peers.insert(addr, peer)) == others + (if counts { 1int } else { 0 })
        }),
{
    let after = peers.insert(addr, peer);
    law_outbound_total(peers);
    law_outbound_total(after);
    let before_set = peers.dom().filter(
        |a: PeerId|
            peers[a] is Connecting || (peers[a] is Connected && peers[a]->link is Outbound),
    );
    let after_set = after.dom().filter(
        |a: PeerId|
            after[a] is Connecting || (after[a] is Connected && after[a]->link is Outbound),
    );
    if peer is Connecting || (peer is Connected && peer->link is Outbound) {
        assert(after_set =~= before_set.insert(addr));
    } else {
        assert(after_set =~= before_set.remove(addr));
    }
}

/// A peer that connects is admitted, unless it connects over an inbound link and
/// as many peers are connected over one as are allowed; outbound and connecting
/// peers take no place from the inbound ones. A peer that is turned down is being
/// disconnected. No other peer changes.
pub proof fn law_admission(
    peers: Map<PeerId, Peer>,
    max_inbound: nat,
    address: SocketAddr,
    local_address: SocketAddr,
    link: Link,
    time: LocalTime,
)
    ensures
        ({
            let inbound = peers.dom().filter(
                |addr: PeerId| peers[addr] is Connected && peers[addr]->link is Inbound,
            );
            let after = admitted(peers, max_inbound, address, local_address, link, time);
            if link is Inbound && inbound.len() >= max_inbound {
                &&& over_limit(peers, max_inbound, link)
                &&& after == peers.insert(address, Peer::Disconnecting)
            } else {
                &&& !over_limit(peers, max_inbound, link)
                &&& after == peers.insert(
                    address,
                    Peer::Connected {
                        address,
                        local_address,
                        link,
                        services: (ServiceFlags { bits: 0 }),
                        time,
                    },
                )
            }
        }),
{
    let inbound = peers.dom().filter(
        |addr: PeerId| peers[addr] is Connected && peers[addr]->link is Inbound,
    );
    assert(inbound =~= standing_set(peers, Standing::Inbound));
}

/// Inbound connections are admitted one after the other until the limit is
/// reached: one that is admitted adds one inbound peer, and one that is turned down
/// adds none.
pub proof fn law_admissions_add_up(
    peers: Map<PeerId, Peer>,
    max_inbound: nat,
    address: SocketAddr,
    local_address: SocketAddr,
    time: LocalTime,
)
    requires
        peers.dom().finite(),
        !(peers.contains_key(address) && peers[address] is Connected),
    ensures
        ({
            let after = admitted(peers, max_inbound, address, local_address, Link::Inbound, time);
            let count = peers.dom().filter(
                |addr: PeerId| peers[addr] is Connected && peers[addr]->link is Inbound,
            ).len();
            let count_after = after.dom().filter(
                |addr: PeerId| after[addr] is Connected && after[addr]->link is Inbound,
            ).len();
            if count < max_inbound {
                &&& after[address] is Connected && after[address]->link is Inbound
                &&& count_after == count + 1
            } else {
                &&& after[address] is Disconnecting
                &&& count_after == count
            }
        }),
{
    law_admission(peers, max_inbound, address, local_address, Link::Inbound, time);
    let after = admitted(peers, max_inbound, address, local_address, Link::Inbound, time);
    let inbound = peers.dom().filter(
        |addr: PeerId| peers[addr] is Connected && peers[addr]->link is Inbound,
    );
    let inbound_after = after.dom().filter(
        |addr: PeerId| after[addr] is Connected && after[addr]->link is Inbound,
    );
    if inbound.len() < max_inbound {
        assert(inbound_after =~= inbound.insert(address));
    } else {
        assert(inbound_after =~= inbound);
    }
}

/// Of a peer that negotiates, the services become what it said; all else that is
/// known of it stays, and so does every other peer.
pub proof fn law_negotiation(
    peers: Map<PeerId, Peer>,
    address: SocketAddr,
    flags: ServiceFlags,
    addr: PeerId,
)
    requires
        peers.contains_key(address),
        peers[address] is Connected,
    ensures
        ({
            let after = negotiated(peers, address, flags);
            let peer = peers[address];
            &&& after.contains_key(addr) <==> peers.contains_key(addr)
            &&& addr != address && peers.contains_key(addr) ==> after[addr] == peers[addr]
            &&& after[address] is Connected
            &&& after[address]->services == flags
            &&& after[address]->Connected_address == peer->Connected_address
            &&& after[address]->local_address == peer->local_address
            &&& after[address]->link == peer->link
            &&& after[address]->time == peer->time
        }),
{
}

/// The outbound peers that are missing make up the target together with those
/// that there are; none are missing once it is reached.
pub proof fn law_missing_peers(config: Config, peers: Map<PeerId, Peer>)
    ensures
        outbound_total(peers) <= config.target_outbound_peers ==> outbound_total(peers)
            + config.missing_peers(peers) == config.target_outbound_peers,
        outbound_total(peers) >= config.target_outbound_peers ==> config.missing_peers(peers) == 0,
{
}

/// Of some addresses, those that are disconnected can be connected to, each once.
/// They come in the order in which they first occur.
pub proof fn law_newcomers(peers: Map<PeerId, Peer>, addrs: Seq<PeerId>)
    ensures
        ({
            let fresh = newcomers(peers, addrs);
            &&& fresh.no_duplicates()
            &&& forall|addr: PeerId| #[trigger]
                fresh.contains(addr) <==> addrs.contains(addr) && (peers.contains_key(addr)
                    ==> peers[addr] is Disconnected)
            &&& forall|k: int, l: int, i: int|
                #![trigger fresh[k], fresh[l], addrs[i]]
                0 <= k < l < fresh.len() && 0 <= i < addrs.len() && addrs[i] == fresh[l]
                    ==> addrs.take(i).contains(fresh[k])
        }),
    decreases addrs.len(),
{
    let fresh = newcomers(peers, addrs);
    lemma_newcomers(peers, addrs);
    if addrs.len() > 0 {
        let init = addrs.drop_last();
        let earlier = newcomers(peers, init);
        law_newcomers(peers, init);
        assert forall|k: int, l: int, i: int|
            #![trigger fresh[k], fresh[l], addrs[i]]
            0 <= k < l < fresh.len() && 0 <= i < addrs.len() && addrs[i]
                == fresh[l] implies addrs.take(i).contains(fresh[k]) by {
            assert(fresh[k] == earlier[k]);
            assert(earlier.contains(earlier[k]));
            if i < init.len() {
                assert(init[i] == addrs[i]);
                assert(init.contains(addrs[i]));
                assert(earlier.contains(fresh[l]));
                assert(l < earlier.len());
                assert(fresh[l] == earlier[l]);
                assert(init.take(i) =~= addrs.take(i));
            } else {
                assert(addrs.take(i) =~= init);
            }
        }
    }
}

/// Opening connections makes the peers connected to connecting and leaves all
/// others as they are; each connection is asked for once, in order.
pub proof fn law_dialling(peers: Map<PeerId, Peer>, addrs: Seq<PeerId>, addr: PeerId)
    ensures
        addrs.contains(addr) ==> dialled(peers, addrs).contains_key(addr) && dialled(
            peers,
            addrs,
        )[addr] is Connecting,
        !addrs.contains(addr) ==> {
            &&& dialled(peers, addrs).contains_key(addr) <==> peers.contains_key(addr)
            &&& peers.contains_key(addr) ==> dialled(peers, addrs)[addr] == peers[addr]
        },
        connect_outputs(addrs).len() == addrs.len(),
        forall|k: int|
            0 <= k < addrs.len() ==> #[trigger] connect_outputs(addrs)[k] == Output::Connect(
                addrs[k],
                3_000,
            ),
{
}

/// At initialization the first of the addresses to be retried are connected to,
/// as many as the target; whatever is drawn afterwards, they are not disconnected.
pub proof fn law_initial_peers(
    config: Config,
    peers: Map<PeerId, Peer>,
    drawn: Seq<(Address, Source)>,
)
    ensures
        ({
            let first = newcomers(peers, config.first_addrs());
            let after = redialled(dialled(peers, first), drawn);
            &&& config.first_addrs().is_prefix_of(config.retry@)
            &&& config.first_addrs().len() <= config.target_outbound_peers
            &&& config.first_addrs() != config.retry@ ==> config.first_addrs().len()
                == config.target_outbound_peers
            &&& forall|i: int|
                0 <= i < config.retry@.len() && i < config.target_outbound_peers && (
                peers.contains_key(config.retry@[i]) ==> peers[config.retry@[i]] is Disconnected)
                    ==> after.contains_key(#[trigger] config.retry@[i])
                    && after[config.retry@[i]] is Connecting
        }),
{
    let retry = config.retry@;
    let first = newcomers(peers, config.first_addrs());
    let between = dialled(peers, first);
    let after = redialled(between, drawn);
    lemma_newcomers(peers, config.first_addrs());
    lemma_newcomers(between, addrs_of(resolved(drawn)));
    assert forall|i: int|
        0 <= i < retry.len() && i < config.target_outbound_peers && (peers.contains_key(retry[i])
            ==> peers[retry[i]] is Disconnected) implies after.contains_key(#[trigger] retry[i])
        && after[retry[i]] is Connecting by {
        assert(config.first_addrs()[i] == retry[i]);
        assert(config.first_addrs().contains(retry[i]));
        assert(first.contains(retry[i]));
    }
}

/// Whether the address drawn at `i` stands for a peer that is disconnected, and no
/// address drawn earlier stands for the same peer.
pub open spec fn opens_connection(
    peers: Map<PeerId, Peer>,
    drawn: Seq<(Address, Source)>,
    i: int,
) -> bool {
    &&& 0 <= i < drawn.len()
    &&& drawn[i].0.spec_socket_addr() matches Some(addr)
    &&& peers.contains_key(addr) ==> peers[addr] is Disconnected
    &&& forall|j: int| 0 <= j < i ==> (#[trigger] drawn[j]).0.spec_socket_addr() != Some(addr)
}

/// Which of the addresses drawn are connected to: `picks` are their positions. They
/// are all those that stand for a peer that is disconnected and that no address
/// drawn earlier stands for. In the order in which they were drawn, each is asked
/// for, and its source is told right after; nothing else is asked for or told.
pub proof fn law_requests_follow_offers(
    peers: Map<PeerId, Peer>,
    drawn: Seq<(Address, Source)>,
) -> (picks: Seq<int>)
    ensures
        ({
            let outputs = redial_outputs(peers, drawn);
            &&& outputs.len() == 2 * picks.len()
            &&& forall|k: int|
                #![trigger picks[k]]
                0 <= k < picks.len() ==> {
                    let (address, source) = drawn[picks[k]];
                    let addr = address.spec_socket_addr()->0;
                    &&& opens_connection(peers, drawn, picks[k])
                    &&& outputs[2 * k] == Output::Connect(addr, 3_000)
                    &&& outputs[2 * k + 1] == Output::Event(Event::Connecting(addr, source))
                }
            &&& forall|k: int, l: int|
                0 <= k < l < picks.len() ==> #[trigger] picks[k] < #[trigger] picks[l]
            &&& forall|i: int| #[trigger]
                opens_connection(peers, drawn, i) ==> picks.contains(i)
        }),
    decreases drawn.len(),
{
    if drawn.len() == 0 {
        lemma_redial_nothing(peers);
        assert(drawn =~= Seq::empty());
        Seq::empty()
    } else {
        let init = drawn.drop_last();
        let last = drawn.len() - 1;
        let earlier = law_requests_follow_offers(peers, init);
        let before = redial_outputs(peers, init);
        let outputs = redial_outputs(peers, drawn);
        lemma_opens_connection(peers, drawn);
        let picks = if opens_connection(peers, drawn, last) {
            earlier.push(last)
        } else {
            earlier
        };
        assert forall|k: int|
            #![trigger picks[k]]
            0 <= k < picks.len() implies {
            let (address, source) = drawn[picks[k]];
            let addr = address.spec_socket_addr()->0;
            &&& opens_connection(peers, drawn, picks[k])
            &&& outputs[2 * k] == Output::Connect(addr, 3_000)
            &&& outputs[2 * k + 1] == Output::Event(Event::Connecting(addr, source))
        } by {
            if k < earlier.len() {
                assert(picks[k] == earlier[k]);
                assert(opens_connection(peers, init, earlier[k]));
                assert(init[earlier[k]] == drawn[earlier[k]]);
                assert(outputs[2 * k] == before[2 * k]);
                assert(outputs[2 * k + 1] == before[2 * k + 1]);
            }
        }
        assert forall|k: int, l: int| 0 <= k < l < picks.len() implies #[trigger] picks[k]
            < #[trigger] picks[l] by {
            assert(picks[k] == earlier[k]);
            assert(opens_connection(peers, init, earlier[k]));
            if l < earlier.len() {
                assert(picks[l] == earlier[l]);
            }
        }
        assert forall|i: int| #[trigger] opens_connection(peers, drawn, i) implies picks.contains(
            i,
        ) by {
            if i < last {
                assert(opens_connection(peers, init, i));
                let k = choose|k: int| 0 <= k < earlier.len() && earlier[k] == i;
                assert(picks[k] == i);
            } else {
                assert(picks[earlier.len() as int] == i);
            }
        }
        picks
    }
}

/// One more address drawn does not matter to the earlier ones; what is asked for
/// and told on its account comes last.
proof fn lemma_opens_connection(peers: Map<PeerId, Peer>, drawn: Seq<(Address, Source)>)
    requires
        drawn.len() > 0,
    ensures
        ({
            let init = drawn.drop_last();
            let last = drawn.len() - 1;
            let addr = drawn.last().0.spec_socket_addr()->0;
            &&& forall|i: int| #[trigger]
                opens_connection(peers, init, i) ==> i < last && opens_connection(peers, drawn, i)
            &&& forall|i: int|
                i < last && #[trigger] opens_connection(peers, drawn, i) ==> opens_connection(
                    peers,
                    init,
                    i,
                )
            &&& redial_outputs(peers, drawn) == (if opens_connection(peers, drawn, last) {
                redial_outputs(peers, init) + seq![
                    Output::Connect(addr, CONNECTION_TIMEOUT),
                    Output::Event(Event::Connecting(addr, drawn.last().1)),
                ]
            } else {
                redial_outputs(peers, init)
            })
        }),
{
    let init = drawn.drop_last();
    let last = drawn.len() - 1;
    assert forall|j: int| 0 <= j < last implies #[trigger] init[j] == drawn[j] by {}
    assert forall|i: int| #[trigger] opens_connection(peers, init, i) implies i < last
        && opens_connection(peers, drawn, i) by {
        assert(init[i] == drawn[i]);
        assert forall|j: int| 0 <= j < i implies (#[trigger] drawn[j]).0.spec_socket_addr() != Some(
            drawn[i].0.spec_socket_addr()->0,
        ) by {
            assert(init[j] == drawn[j]);
        }
    }
    assert(init.push(drawn.last()) =~= drawn);
    lemma_redial_push(peers, init, drawn.last());
    if let Some(addr) = drawn.last().0.spec_socket_addr() {
        law_offers_are_taken(peers, init, addr);
        let offered = exists|j: int|
            0 <= j < init.len() && (#[trigger] init[j]).0.spec_socket_addr() == Some(addr);
        if offered {
            let j = choose|j: int|
                0 <= j < init.len() && (#[trigger] init[j]).0.spec_socket_addr() == Some(addr);
            assert(drawn[j].0.spec_socket_addr() == Some(addr));
        } else {
            assert forall|j: int| 0 <= j < last implies (#[trigger] drawn[j]).0.spec_socket_addr()
                != Some(addr) by {
                assert(init[j] == drawn[j]);
            }
        }
        assert(opens_connection(peers, drawn, last) <==> !offered && disconnected(peers, addr));
    }
}

/// Services are among others when each of their bits is. Of the addresses drawn,
/// exactly those are kept whose services have the required ones among them, in
/// order.
pub proof fn law_offering(drawn: Seq<(Address, Source)>, services: ServiceFlags)
    ensures
        ServiceFlags::spec_none().bits == 0,
        forall|flags: ServiceFlags| #[trigger]
            flags.spec_has(services) <==> flags.bits & services.bits == services.bits,
        offering(drawn, services) == drawn.filter(
            |offer: (Address, Source)| offer.0.services.bits & services.bits == services.bits,
        ),
{
    let suits = |offer: (Address, Source)|
        offer.0.services.bits & services.bits == services.bits;
    assert(suits =~= offers_services(services));
}

/// How addresses are drawn from a source: `states` are what the source is in turn.
/// Each address drawn is the answer to one request for the given services, until
/// as many as asked for are drawn or the source has none left.
pub proof fn law_drawing<A: AddressSource>(
    before: A,
    services: ServiceFlags,
    max: nat,
    drawn: Seq<(Address, Source)>,
    after: A,
) -> (states: Seq<A>)
    requires
        draws(before, services, max, drawn, after),
    ensures
        states.len() == drawn.len() + 1,
        states[0] == before,
        forall|i: int|
            #![trigger drawn[i]]
            0 <= i < drawn.len() ==> states[i].samples(services, Some(drawn[i]), states[i + 1]),
        drawn.len() <= max,
        if drawn.len() < max {
            states.last().samples(services, None, after)
        } else {
            states.last() == after
        },
{
    if drawn.len() < max {
        let between = choose|between: A|
            gives(before, services, drawn, between) && #[trigger] between.samples(
                services,
                None,
                after,
            );
        lemma_giving(before, services, drawn, between)
    } else {
        lemma_giving(before, services, drawn, after)
    }
}

proof fn lemma_giving<A: AddressSource>(
    before: A,
    services: ServiceFlags,
    given: Seq<(Address, Source)>,
    after: A,
) -> (states: Seq<A>)
    requires
        gives(before, services, given, after),
    ensures
        states.len() == given.len() + 1,
        states[0] == before,
        states.last() == after,
        forall|i: int|
            #![trigger given[i]]
            0 <= i < given.len() ==> states[i].samples(services, Some(given[i]), states[i + 1]),
    decreases given.len(),
{
    if given.len() == 0 {
        seq![after]
    } else {
        let init = given.drop_last();
        let between = choose|between: A|
            gives(before, services, init, between) && #[trigger] between.samples(
                services,
                Some(given.last()),
                after,
            );
        let earlier = lemma_giving(before, services, init, between);
        let states = earlier.push(after);
        assert forall|i: int|
            #![trigger given[i]]
            0 <= i < given.len() implies states[i].samples(
            services,
            Some(given[i]),
            states[i + 1],
        ) by {
            if i < init.len() {
                assert(init[i] == given[i]);
            }
        }
        states
    }
}

/// How missing peers are replaced: `asked` are the addresses drawn for the
/// preferred services, what the source is then, and the addresses drawn for the
/// required services. As many of the former are asked for as peers are missing, and
/// as many of the latter as are missing still; of both, those that offer the
/// required services are taken, in order.
pub proof fn law_replenishing<A: AddressSource>(
    config: Config,
    peers: Map<PeerId, Peer>,
    before: A,
    drawn: Seq<(Address, Source)>,
    after: A,
) -> (asked: (Seq<(Address, Source)>, A, Seq<(Address, Source)>))
    requires
        replenishes(config, peers, before, drawn, after),
    ensures
        ({
            let target = config.target_outbound_peers as int;
            let required = config.required_services;
            let missing = target - outbound_total(peers);
            let suits = |offer: (Address, Source)|
                offer.0.services.bits & required.bits == required.bits;
            let (preferred, between, more) = asked;
            let kept = preferred.filter(suits);
            if missing <= 0 {
                drawn == Seq::<(Address, Source)>::empty() && after == before
            } else {
                &&& draws(before, config.preferred_services, missing as nat, preferred, between)
                &&& if kept.len() < missing {
                    &&& draws(between, required, (missing - kept.len()) as nat, more, after)
                    &&& drawn == kept + more.filter(suits)
                } else {
                    drawn == kept && after == between
                }
            }
        }),
{
    let required = config.required_services;
    let missing = config.missing_peers(peers);
    let (preferred, between) = choose|preferred: Seq<(Address, Source)>, between: A| #[trigger]
        replenishes_with(config, peers, before, preferred, between, drawn, after);
    let kept = offering(preferred, required);
    let count = (missing - kept.len()) as nat;
    let more = choose|more: Seq<(Address, Source)>| #[trigger]
        completes_with(config, count, kept, between, more, drawn, after);
    lemma_replenishes(config, peers, before, drawn, after);
    law_offering(preferred, required);
    law_offering(more, required);
    (preferred, between, more)
}

/// No more peers are replaced than are missing; and if fewer are, then the source
/// said that it has no more addresses of peers with the required services. This
/// holds of every source that is asked for the required services and gives
/// addresses of peers that offer them.
pub proof fn law_shortfall_means_exhausted<A: AddressSource>(
    config: Config,
    peers: Map<PeerId, Peer>,
    before: A,
    drawn: Seq<(Address, Source)>,
    after: A,
)
    requires
        replenishes(config, peers, before, drawn, after),
        forall|state: A, offer: (Address, Source), next: A| #[trigger]
            state.samples(config.required_services, Some(offer), next) ==> (
            offer.0.services.bits & config.required_services.bits)
                == config.required_services.bits,
    ensures
        drawn.len() > 0 ==> outbound_total(peers) + drawn.len() <= config.target_outbound_peers,
        outbound_total(peers) + drawn.len() < config.target_outbound_peers ==> exists|state: A|
            #[trigger] state.samples(config.required_services, None, after),
{
    let required = config.required_services;
    let target = config.target_outbound_peers as int;
    let missing = target - outbound_total(peers);
    lemma_replenishes(config, peers, before, drawn, after);
    let (preferred, between, more) = law_replenishing(config, peers, before, drawn, after);
    if outbound_total(peers) + drawn.len() < target {
        law_offering(preferred, required);
        law_offering(more, required);
        let kept = offering(preferred, required);
        let count = (missing - kept.len()) as nat;
        let states = law_drawing(between, required, count, more, after);
        if more.len() == count {
            assert forall|i: int| 0 <= i < more.len() implies (
            #[trigger] more[i]).0.services.spec_has(required) by {
                assert(states[i].samples(required, Some(more[i]), states[i + 1]));
            }
            lemma_all_offering(more, required);
            assert(drawn.len() == missing);
        }
    }
}

/// What replacing the missing peers comes to: `drawn` are the addresses that they
/// are replaced with. These are dialled, and what the network is handed for them
/// stands between what it is handed first and what it is handed last.
pub proof fn law_missing_are_replaced<U: Upstream, A: AddressSource>(
    before: ConnectionManager<U, A>,
    peers: Map<PeerId, Peer>,
    first: Seq<Output>,
    last: Seq<Output>,
    source: A,
    after: ConnectionManager<U, A>,
    rest: A,
) -> (drawn: Seq<(Address, Source)>)
    requires
        after.replaces_missing(&before, peers, first, last, source, rest),
    ensures
        replenishes(before.settings(), peers, source, drawn, rest),
        after.peers() == redialled(peers, drawn),
        sent(
            before.upstream(),
            first + redial_outputs(peers, drawn) + last,
            after.upstream(),
        ),
{
    choose|drawn: Seq<(Address, Source)>| #[trigger]
        after.replaces_missing_with(&before, peers, drawn, first, last, source, rest)
}

/// What is handed to the network is handed to it one by one: `states` are what the
/// receiver is in turn.
pub proof fn law_sending<U: Upstream>(before: U, outputs: Seq<Output>, after: U) -> (states: Seq<U>)
    requires
        sent(before, outputs, after),
    ensures
        states.len() == outputs.len() + 1,
        states[0] == before,
        states.last() == after,
        forall|i: int|
            #![trigger outputs[i]]
            0 <= i < outputs.len() ==> states[i].takes(outputs[i], states[i + 1]),
    decreases outputs.len(),
{
    if outputs.len() == 0 {
        seq![after]
    } else {
        let init = outputs.drop_last();
        let between = choose|between: U|
            sent(before, init, between) && #[trigger] between.takes(outputs.last(), after);
        let earlier = law_sending(before, init, between);
        let states = earlier.push(after);
        assert forall|i: int|
            #![trigger outputs[i]]
            0 <= i < outputs.len() implies states[i].takes(outputs[i], states[i + 1]) by {
            if i < init.len() {
                assert(init[i] == outputs[i]);
            }
        }
        states
    }
}

/// When the missing peers are replaced from a queue that holds enough addresses of
/// different peers, all disconnected and with the required services, there are as
/// many outbound peers afterwards as the target.
pub proof fn law_queue_fills_the_target<U: Upstream>(
    before: ConnectionManager<U, VecDeque<(Address, Source)>>,
    peers: Map<PeerId, Peer>,
    first: Seq<Output>,
    last: Seq<Output>,
    queue: VecDeque<(Address, Source)>,
    after: ConnectionManager<U, VecDeque<(Address, Source)>>,
    rest: VecDeque<(Address, Source)>,
)
    requires
        peers.dom().finite(),
        after.replaces_missing(&before, peers, first, last, queue, rest),
        outbound_total(peers) <= before.settings().target_outbound_peers,
        outbound_total(peers) + queue@.len() >= before.settings().target_outbound_peers,
        forall|i: int|
            0 <= i < queue@.len() ==> {
                let required = before.settings().required_services.bits;
                &&& (#[trigger] queue@[i]).0.services.bits & required == required
                &&& queue@[i].0.spec_socket_addr() matches Some(addr)
                &&& peers.contains_key(addr) ==> peers[addr] is Disconnected
            },
        forall|i: int, j: int|
            0 <= i < j < queue@.len() ==> (#[trigger] queue@[i]).0.spec_socket_addr() != (
            #[trigger] queue@[j]).0.spec_socket_addr(),
    ensures
        outbound_total(after.peers()) == before.settings().target_outbound_peers,
        rest@ == queue@.skip(before.settings().target_outbound_peers - outbound_total(peers)),
{
    let config = before.settings();
    let drawn = law_missing_are_replaced(before, peers, first, last, queue, after, rest);
    assert forall|i: int| 0 <= i < queue@.len() implies (
    #[trigger] queue@[i]).0.services.spec_has(config.required_services) by {}
    law_suitable_queue_replenishes(config, peers, queue, drawn, rest);
    assert(outbound_total(peers) + drawn.len() == config.target_outbound_peers);
    assert forall|i: int| 0 <= i < drawn.len() implies {
        &&& (#[trigger] drawn[i]).0.spec_socket_addr() is Some
        &&& disconnected(peers, drawn[i].0.spec_socket_addr()->0)
    } by {
        assert(drawn[i] == queue@[i]);
    }
    assert forall|i: int, j: int| 0 <= i < j < drawn.len() implies (
    #[trigger] drawn[i]).0.spec_socket_addr() != (#[trigger] drawn[j]).0.spec_socket_addr() by {
        assert(drawn[i] == queue@[i]);
        assert(drawn[j] == queue@[j]);
    }
    law_target_reached(config.target_outbound_peers as nat, peers, drawn);
}

/// A peer that is connecting, or connected over an outbound link, counts as
/// outbound, whatever the other peers are; no other peer does. So whenever such a
/// peer disconnects and the missing peers are replaced on its account, from a queue
/// that holds enough addresses of different peers, all disconnected and with the
/// required services, the target is met again.
pub proof fn law_lost_peer_is_replaced<U: Upstream>(
    before: ConnectionManager<U, VecDeque<(Address, Source)>>,
    addr: PeerId,
    queue: VecDeque<(Address, Source)>,
    after: ConnectionManager<U, VecDeque<(Address, Source)>>,
    rest: VecDeque<(Address, Source)>,
)
    requires
        before.counts_as_outbound(addr) ==> after.replaces_missing(
            &before,
            before.peers().insert(addr, Peer::Disconnected),
            seq![Output::Event(Event::Disconnected(addr))],
            Seq::empty(),
            queue,
            rest,
        ),
    ensures
        ({
            let target = before.settings().target_outbound_peers;
            let required = before.settings().required_services.bits;
            let peers = before.peers().insert(addr, Peer::Disconnected);
            let outbound = before.peers().contains_key(addr) && (
            before.peers()[addr] is Connecting || (before.peers()[addr] is Connected
                && before.peers()[addr]->link is Outbound));
            let enough = {
                &&& outbound_total(peers) <= target <= outbound_total(peers) + queue@.len()
                &&& forall|i: int|
                    0 <= i < queue@.len() ==> {
                        &&& (#[trigger] queue@[i]).0.services.bits & required == required
                        &&& queue@[i].0.spec_socket_addr() matches Some(other)
                        &&& peers.contains_key(other) ==> peers[other] is Disconnected
                    }
                &&& forall|i: int, j: int|
                    0 <= i < j < queue@.len() ==> (#[trigger] queue@[i]).0.spec_socket_addr() != (
                    #[trigger] queue@[j]).0.spec_socket_addr()
            };
            &&& before.counts_as_outbound(addr) <==> outbound
            &&& outbound && enough ==> outbound_total(after.peers()) == target
        }),
{
    let target = before.settings().target_outbound_peers;
    let required = before.settings().required_services.bits;
    let peers = before.peers().insert(addr, Peer::Disconnected);
    before.lemma_peers_finite();
    if before.counts_as_outbound(addr) && outbound_total(peers) <= target <= outbound_total(peers)
        + queue@.len() && (forall|i: int|
        0 <= i < queue@.len() ==> {
            &&& (#[trigger] queue@[i]).0.services.bits & required == required
            &&& queue@[i].0.spec_socket_addr() matches Some(other)
            &&& peers.contains_key(other) ==> peers[other] is Disconnected
        }) && (forall|i: int, j: int|
        0 <= i < j < queue@.len() ==> (#[trigger] queue@[i]).0.spec_socket_addr() != (
        #[trigger] queue@[j]).0.spec_socket_addr()) {
        law_queue_fills_the_target(
            before,
            peers,
            seq![Output::Event(Event::Disconnected(addr))],
            Seq::empty(),
            queue,
            after,
            rest,
        );
    }
}

/// The idle time is counted from the last tick that was acted upon, and from the
/// epoch when there was none. So the first tick is acted upon at any time of at
/// least a minute since the epoch, and a later one a minute after the last.
pub proof fn law_idle_time<U, A>(manager: ConnectionManager<U, A>, now: LocalTime)
    ensures
        IDLE_TIMEOUT == 60_000,
        match manager.last_idle() {
            Some(last) => {
                &&& manager.idle_for(now) == now.millis - last.millis
                &&& manager.idle_for(now) >= IDLE_TIMEOUT <==> now.millis >= last.millis + 60_000
            },
            None => {
                &&& manager.idle_for(now) == now.millis
                &&& manager.idle_for(now) >= IDLE_TIMEOUT <==> now.millis >= 60_000
            },
        },
{
}

/// What an operation keeps: the settings and the generator are the same, every
/// peer that was known is known, and where no more peers were connected over an
/// inbound link than are allowed, no more are.
pub proof fn law_kept<U, A>(before: ConnectionManager<U, A>, after: ConnectionManager<U, A>)
    requires
        after.keeps(&before),
    ensures
        after.settings() == before.settings(),
        after.rng() == before.rng(),
        forall|addr: PeerId| #[trigger]
            before.peers().contains_key(addr) ==> after.peers().contains_key(addr),
        before.peers().dom().filter(
            |addr: PeerId|
                before.peers()[addr] is Connected && before.peers()[addr]->link is Inbound,
        ).len() <= before.settings().max_inbound_peers ==> after.peers().dom().filter(
            |addr: PeerId|
                after.peers()[addr] is Connected && after.peers()[addr]->link is Inbound,
        ).len() <= before.settings().max_inbound_peers,
{
    let inbound = before.peers().dom().filter(
        |addr: PeerId| before.peers()[addr] is Connected && before.peers()[addr]->link is Inbound,
    );
    let inbound_after = after.peers().dom().filter(
        |addr: PeerId| after.peers()[addr] is Connected && after.peers()[addr]->link is Inbound,
    );
    assert(inbound =~= standing_set(before.peers(), Standing::Inbound));
    assert(inbound_after =~= standing_set(after.peers(), Standing::Inbound));
}

/// The text of an event names the peer, and the source or the direction of the
/// link, as they are.
pub proof fn law_event_text(peer: PeerId, found: Source, addr: Seq<char>, source: Seq<char>)
    ensures
        Event::Connecting(peer, found).spec_text(addr, source) == "Connecting to peer "@ + addr
            + " from source `"@ + source + "`"@,
        Event::Connected(peer, Link::Inbound).spec_text(addr, source) == addr
            + ": Peer connected ("@ + "Inbound"@ + ")"@,
        Event::Connected(peer, Link::Outbound).spec_text(addr, source) == addr
            + ": Peer connected ("@ + "Outbound"@ + ")"@,
        Event::Disconnected(peer).spec_text(addr, source) == "Disconnected from "@ + addr,
{
}

/// What an address stands for: nothing when it begins with the Tor prefix; the IPv4
/// address of its last two segments when the five first are zero and the sixth is
/// all zeros or all ones; and else the IPv6 address of its eight segments. The port
/// is its own.
pub proof fn law_addresses_resolve(address: Address)
    ensures
        ({
            let s = address.address@;
            let tor = s[0] == 0xFD87 && s[1] == 0xD87E && s[2] == 0xEB43;
            let embedded = s[0] == 0 && s[1] == 0 && s[2] == 0 && s[3] == 0 && s[4] == 0 && (s[5]
                == 0 || s[5] == 0xFFFF);
            match address.spec_socket_addr() {
                None => tor,
                Some(SocketAddr::V4 { ipv4, port }) => {
                    &&& !tor && embedded
                    &&& ipv4 == s[6] * 0x1_0000 + s[7]
                    &&& port == address.port
                },
                Some(SocketAddr::V6 { ipv6, port, flowinfo, scope_id }) => {
                    &&& !tor && !embedded
                    &&& ipv6 == s[0] * 0x1_0000_0000_0000_0000_0000_0000_0000 + s[1]
                        * 0x1_0000_0000_0000_0000_0000_0000 + s[2]
                        * 0x1_0000_0000_0000_0000_0000 + s[3] * 0x1_0000_0000_0000_0000 + s[4]
                        * 0x1_0000_0000_0000 + s[5] * 0x1_0000_0000 + s[6] * 0x1_0000 + s[7]
                    &&& port == address.port
                    &&& flowinfo == 0
                    &&& scope_id == 0
                },
            }
        }),
{
    let s = address.address@;
    lemma_segments_value_push(s, 0);
    lemma_segments_value_push(s, 1);
    lemma_segments_value_push(s, 2);
    lemma_segments_value_push(s, 3);
    lemma_segments_value_push(s, 4);
    lemma_segments_value_push(s, 5);
    lemma_segments_value_push(s, 6);
    lemma_segments_value_push(s, 7);
    assert(segments_value(s.take(0)) == 0);
    assert(s.take(8) =~= s);
}

proof fn lemma_segments_value_push(s: Seq<u16>, i: int)
    requires
        0 <= i < s.len(),
    ensures
        segments_value(s.take(i + 1)) == segments_value(s.take(i)) * 0x1_0000 + s[i],
{
    assert(s.take(i + 1).drop_last() =~= s.take(i));
}

/// The four octets of an IPv4 address are its digits, the first being the most
/// significant; a socket address made of octets and a port has these octets and
/// this port.
pub proof fn law_octets(octets: [u8; 4], port: u16)
    ensures
        octets_value(octets@) == octets@[0] * 0x100_0000 + octets@[1] * 0x1_0000 + octets@[2]
            * 0x100 + octets@[3],
        <SocketAddr as FromSpec<([u8; 4], u16)>>::obeys_from_spec(),
        ({
            let addr = <SocketAddr as FromSpec<([u8; 4], u16)>>::from_spec((octets, port));
            &&& addr is V4
            &&& addr->ipv4 == octets@[0] * 0x100_0000 + octets@[1] * 0x1_0000 + octets@[2] * 0x100
                + octets@[3]
            &&& addr->V4_port == port
        }),
{
}

/// How a client is started: peers to connect to make up the address book and set
/// the target, and without any the book stored under `peers` is asked for. It
/// listens where it is told to, and else on any address and port. All other
/// settings are the default ones.
pub proof fn law_start<T>(
    connect: Seq<SocketAddr>,
    listen: Seq<SocketAddr>,
    network: Network,
    defaults: ClientConfig<T>,
    startup: Startup<T>,
    request: Request,
)
    requires
        starts(connect, listen, network, defaults, startup, request),
    ensures
        connect.len() == 0 ==> {
            &&& startup.origin is Stored
            &&& request is Load
            &&& request->Load_0@ == "peers"@
            &&& startup.config.target_outbound_peers == defaults.target_outbound_peers
        },
        connect.len() > 0 ==> {
            &&& startup.origin is Given
            &&& request is Import
            &&& request->Import_0@ == connect
            &&& startup.config.target_outbound_peers == connect.len()
        },
        listen.len() > 0 ==> startup.config.listen@ == listen,
        listen.len() == 0 ==> startup.config.listen@ == seq![SocketAddr::V4 { ipv4: 0, port: 0 }],
        startup.config.network == network,
        startup.config.timeout == 30_000,
        startup.config.address_book == defaults.address_book,
        startup.config.rest == defaults.rest,
{
}

/// How a start-up goes on: only an empty stored address book leads to another
/// request, which is for the DNS seeds and the port of the network; any other book
/// is the one that the client is run with, wherever it comes from, and nothing else
/// in the configuration changes. An error ends the start-up, and is told apart by
/// whether the stored book was asked for.
pub proof fn law_last_answer_is_used<T, E>(
    startup: Startup<T>,
    answer: Result<AddressBook, E>,
    next: Next<T, E>,
)
    requires
        resumes(startup, answer, next),
    ensures
        match answer {
            Ok(book) => if startup.origin is Stored && book.addrs@.len() == 0 {
                &&& next is Ask
                &&& next->Ask_0.origin is Seeds
                &&& next->Ask_0.config == startup.config
                &&& next->Ask_1 is Bootstrap
                &&& next->Ask_1->Bootstrap_1 == startup.config.network.port
                &&& next->Ask_1->Bootstrap_0@.len() == startup.config.network.seeds@.len()
                &&& forall|i: int|
                    0 <= i < startup.config.network.seeds@.len()
                        ==> (#[trigger] next->Ask_1->Bootstrap_0@[i])@
                        == startup.config.network.seeds@[i]@
            } else {
                &&& next is Launch
                &&& next->Launch_0.address_book == book
                &&& next->Launch_0.network == startup.config.network
                &&& next->Launch_0.listen == startup.config.listen
                &&& next->Launch_0.timeout == startup.config.timeout
                &&& next->Launch_0.target_outbound_peers == startup.config.target_outbound_peers
                &&& next->Launch_0.rest == startup.config.rest
            },
            Err(error) => {
                &&& next is Fail
                &&& startup.origin is Stored ==> next->Fail_0 == Error::AddressBook(error)
                &&& !(startup.origin is Stored) ==> next->Fail_0 == Error::Other(error)
            },
        },
{
}

/// A client that is not told which peers to connect to, and has none stored, is run
/// with the address book that the DNS seeds give; where the seeds fail, it is not
/// run.
pub proof fn law_seeds_are_used<T, E>(
    listen: Seq<SocketAddr>,
    network: Network,
    defaults: ClientConfig<T>,
    startup: Startup<T>,
    request: Request,
    stored: AddressBook,
    between: Next<T, E>,
    answer: Result<AddressBook, E>,
    next: Next<T, E>,
)
    requires
        starts(Seq::empty(), listen, network, defaults, startup, request),
        stored.addrs@.len() == 0,
        resumes(startup, Ok(stored), between),
        between is Ask,
        resumes(between->Ask_0, answer, next),
    ensures
        answer matches Ok(book) ==> next is Launch && next->Launch_0.address_book == book
            && next->Launch_0.network == network && next->Launch_0.target_outbound_peers
            == defaults.target_outbound_peers,
        answer matches Err(error) ==> next == Next::<T, E>::Fail(Error::Other(error)),
{
}

} // verus!
