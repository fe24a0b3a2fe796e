//! The channel to the network: what the protocol asks of it, in order.

use vstd::prelude::*;

use crate::connmgr::{Connect, Event, Events};
use crate::net::SocketAddr;
use crate::peer::{DisconnectReason, PeerId};
use crate::time::{LocalDuration, Timeout};

verus! {

/// Something asked of the network, or told to it.
#[derive(Debug, PartialEq, Eq)]
pub enum Output {
    /// Connect to the peer, and give up after the timeout.
    Connect(SocketAddr, Timeout),
    /// Disconnect the peer.
    Disconnect(PeerId, DisconnectReason),
    /// An event took place.
    Event(Event),
    /// Wake the protocol up after this time.
    SetTimeout(LocalDuration),
}

/// A receiver of outputs. Each receiver says for itself what an output does to it.
pub trait Upstream: Sized {
    /// Whether `after` is what this receiver may become when it is handed `output`.
    spec fn takes(self, output: Output, after: Self) -> bool;
}

/// Ability to disconnect from peers.
pub trait Disconnect: Upstream {
    /// Disconnect from peer.
    fn disconnect(&mut self, addr: PeerId, reason: DisconnectReason)
        ensures
            old(self).takes(Output::Disconnect(addr, reason), *final(self)),
    ;
}

/// Ability to be woken up in the future.
pub trait SetTimeout: Upstream {
    /// Ask to be woken up in the given amount of time.
    fn set_timeout(&mut self, timeout: LocalDuration)
        ensures
            old(self).takes(Output::SetTimeout(timeout), *final(self)),
    ;
}

/// Whether `after` is what `before` may become when it is handed the given
/// outputs, one by one in this order, and nothing else.
pub open spec fn sent<U: Upstream>(before: U, outputs: Seq<Output>, after: U) -> bool
    decreases outputs.len(),
{
    if outputs.len() == 0 {
        before == after
    } else {
        exists|between: U|
            sent(before, outputs.drop_last(), between) && #[trigger] between.takes(
                outputs.last(),
                after,
            )
    }
}

/// Handing over one more output extends what was sent by it.
pub proof fn lemma_sent_push<U: Upstream>(
    before: U,
    outputs: Seq<Output>,
    between: U,
    output: Output,
    after: U,
)
    requires
        sent(before, outputs, between),
        between.takes(output, after),
    ensures
        sent(before, outputs.push(output), after),
{
    let extended = outputs.push(output);
    assert(extended.drop_last() =~= outputs);
    assert(between.takes(extended.last(), after));
}

/// What is sent first and what is sent next is sent in all.
pub proof fn lemma_sent_concat<U: Upstream>(
    before: U,
    first: Seq<Output>,
    between: U,
    second: Seq<Output>,
    after: U,
)
    requires
        sent(before, first, between),
        sent(between, second, after),
    ensures
        sent(before, first + second, after),
    decreases second.len(),
{
    if second.len() == 0 {
        assert(first + second =~= first);
    } else {
        let inner = choose|inner: U|
            sent(between, second.drop_last(), inner) && #[trigger] inner.takes(
                second.last(),
                after,
            );
        lemma_sent_concat(before, first, between, second.drop_last(), inner);
        lemma_sent_push(before, first + second.drop_last(), inner, second.last(), after);
        assert((first + second.drop_last()).push(second.last()) =~= first + second);
    }
}

/// A channel that keeps the outputs until they are taken.
#[derive(Debug)]
pub struct Channel {
    outputs: Vec<Output>,
}

impl View for Channel {
    type V = Seq<Output>;

    closed spec fn view(&self) -> Seq<Output> {
        self.outputs@
    }
}

impl Channel {
    /// A channel that holds nothing.
    pub fn new() -> (channel: Channel)
        ensures
            channel@ == Seq::<Output>::empty(),
    {
        Channel { outputs: Vec::new() }
    }

    /// Takes out the outputs, the oldest first.
    pub fn drain(&mut self) -> (outputs: Vec<Output>)
        ensures
            outputs@ == old(self)@,
            final(self)@ == Seq::<Output>::empty(),
    {
        let mut outputs: Vec<Output> = Vec::new();
        std::mem::swap(&mut outputs, &mut self.outputs);
        outputs
    }
}

impl Upstream for Channel {
    open spec fn takes(self, output: Output, after: Self) -> bool {
        after@ == self@.push(output)
    }
}

impl Connect for Channel {
    fn connect(&mut self, addr: SocketAddr, timeout: Timeout) {
        self.outputs.push(Output::Connect(addr, timeout));
    }
}

impl Disconnect for Channel {
    fn disconnect(&mut self, addr: PeerId, reason: DisconnectReason) {
        self.outputs.push(Output::Disconnect(addr, reason));
    }
}

impl Events for Channel {
    fn event(&mut self, event: Event) {
        self.outputs.push(Output::Event(event));
    }
}

impl SetTimeout for Channel {
    fn set_timeout(&mut self, timeout: LocalDuration) {
        self.outputs.push(Output::SetTimeout(timeout));
    }
}

/// The unit drops whatever it is handed.
impl Upstream for () {
    open spec fn takes(self, output: Output, after: Self) -> bool {
        true
    }
}

impl Connect for () {
    fn connect(&mut self, addr: SocketAddr, timeout: Timeout) {
    }
}

impl Disconnect for () {
    fn disconnect(&mut self, addr: PeerId, reason: DisconnectReason) {
    }
}

impl Events for () {
    fn event(&mut self, event: Event) {
    }
}

impl SetTimeout for () {
    fn set_timeout(&mut self, timeout: LocalDuration) {
    }
}

/// A channel holds what was sent to it, in order, after what it held before.
pub proof fn lemma_channel_keeps_outputs(before: Channel, outputs: Seq<Output>, after: Channel)
    requires
        sent(before, outputs, after),
    ensures
        after@ == before@ + outputs,
    decreases outputs.len(),
{
    if outputs.len() == 0 {
        assert(before@ + outputs =~= before@);
    } else {
        let between = choose|between: Channel|
            sent(before, outputs.drop_last(), between) && #[trigger] between.takes(
                outputs.last(),
                after,
            );
        lemma_channel_keeps_outputs(before, outputs.drop_last(), between);
        assert(after@ =~= before@ + outputs);
    }
}

} // verus!
