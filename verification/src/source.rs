//! Where the addresses of peers come from.

use std::collections::VecDeque;

use vstd::prelude::*;

use crate::net::{Address, ServiceFlags};
use crate::peer::Source;

verus! {

/// A source of peer addresses. Each source says for itself which addresses it
/// gives, and what becomes of it.
pub trait AddressSource: Sized {
    /// Whether this source may answer a request for an address of a peer that
    /// offers `services` with `sample`, and be `after` from then on.
    spec fn samples(
        self,
        services: ServiceFlags,
        sample: Option<(Address, Source)>,
        after: Self,
    ) -> bool;

    /// The next address of a peer that offers the given services. Returns `None`
    /// if there are no addresses left.
    fn sample(&mut self, services: ServiceFlags) -> (sample: Option<(Address, Source)>)
        ensures
            old(self).samples(services, sample, *final(self)),
    ;
}

/// A queue gives its addresses in order, whatever the services.
impl AddressSource for VecDeque<(Address, Source)> {
    open spec fn samples(
        self,
        services: ServiceFlags,
        sample: Option<(Address, Source)>,
        after: Self,
    ) -> bool {
        match sample {
            Some(first) => self@.len() > 0 && first == self@[0] && after@ == self@.drop_first(),
            None => self@.len() == 0 && after@ == self@,
        }
    }

    fn sample(&mut self, services: ServiceFlags) -> (sample: Option<(Address, Source)>) {
        self.pop_front()
    }
}

/// Whether `after` is what `before` may become when it gives exactly the
/// addresses `given`, in this order, to as many requests for `services`.
pub open spec fn gives<A: AddressSource>(
    before: A,
    services: ServiceFlags,
    given: Seq<(Address, Source)>,
    after: A,
) -> bool
    decreases given.len(),
{
    if given.len() == 0 {
        before == after
    } else {
        exists|between: A|
            gives(before, services, given.drop_last(), between) && #[trigger] between.samples(
                services,
                Some(given.last()),
                after,
            )
    }
}

/// Whether `after` is what `before` may become when addresses of peers that
/// offer `services` are drawn from it and `drawn` is what comes out: `max`
/// addresses, or fewer when the source said that there are no more.
pub open spec fn draws<A: AddressSource>(
    before: A,
    services: ServiceFlags,
    max: nat,
    drawn: Seq<(Address, Source)>,
    after: A,
) -> bool {
    if drawn.len() < max {
        exists|between: A|
            gives(before, services, drawn, between) && #[trigger] between.samples(
                services,
                None,
                after,
            )
    } else {
        drawn.len() == max && gives(before, services, drawn, after)
    }
}

/// Draws up to `max` addresses of peers that offer `services`.
pub fn draw<A: AddressSource>(source: &mut A, services: ServiceFlags, max: usize) -> (drawn: Vec<
    (Address, Source),
>)
    ensures
        draws(*old(source), services, max as nat, drawn@, *final(source)),
{
    let ghost before = *source;
    let mut drawn: Vec<(Address, Source)> = Vec::new();
    while drawn.len() < max
        invariant
            drawn@.len() <= max,
            before == *old(source),
            gives(before, services, drawn@, *source),
        decreases max - drawn@.len(),
    {
        let ghost between = *source;
        match source.sample(services) {
            Some(sample) => {
                let ghost given = drawn@;
                drawn.push(sample);
                assert(drawn@.drop_last() =~= given);
                assert(between.samples(services, Some(drawn@.last()), *source));
            },
            None => {
                return drawn;
            },
        }
    }
    drawn
}

/// What it takes to offer all of the given services.
pub open spec fn offers_services(services: ServiceFlags) -> spec_fn((Address, Source)) -> bool {
    |offer: (Address, Source)| offer.0.services.spec_has(services)
}

/// Those of the addresses drawn whose peers offer all of the given services, in
/// order.
pub open spec fn offering(
    drawn: Seq<(Address, Source)>,
    services: ServiceFlags,
) -> Seq<(Address, Source)> {
    drawn.filter(offers_services(services))
}

/// Keeps those of the addresses drawn whose peers offer all of the given services.
pub fn keep_offering(drawn: Vec<(Address, Source)>, services: ServiceFlags) -> (kept: Vec<
    (Address, Source),
>)
    ensures
        kept@ == offering(drawn@, services),
        kept@.len() <= drawn@.len(),
{
    let mut kept: Vec<(Address, Source)> = Vec::new();
    let mut i: usize = 0;
    proof {
        lemma_offering_nothing(services);
        assert(drawn@.take(0) =~= Seq::empty());
    }
    while i < drawn.len()
        invariant
            i <= drawn@.len(),
            kept@ == offering(drawn@.take(i as int), services),
        decreases drawn@.len() - i,
    {
        proof {
            lemma_offering_push(drawn@.take(i as int), drawn@[i as int], services);
            assert(drawn@.take(i as int).push(drawn@[i as int]) =~= drawn@.take(i + 1));
        }
        if drawn[i].0.services.has(services) {
            kept.push(drawn[i]);
        }
        i += 1;
    }
    proof {
        assert(drawn@.take(drawn@.len() as int) =~= drawn@);
        drawn@.lemma_filter_len(offers_services(services));
    }
    kept
}

/// Nothing is kept of nothing.
pub proof fn lemma_offering_nothing(services: ServiceFlags)
    ensures
        offering(Seq::empty(), services) == Seq::<(Address, Source)>::empty(),
{
    reveal(Seq::filter);
}

/// One more address is kept exactly when its peer offers the services.
proof fn lemma_offering_push(
    drawn: Seq<(Address, Source)>,
    offer: (Address, Source),
    services: ServiceFlags,
)
    ensures
        offering(drawn.push(offer), services) == (if offer.0.services.spec_has(services) {
            offering(drawn, services).push(offer)
        } else {
            offering(drawn, services)
        }),
{
    reveal(Seq::filter);
    assert(drawn.push(offer).drop_last() =~= drawn);
}

/// All addresses are kept when all of their peers offer the services.
pub proof fn lemma_all_offering(drawn: Seq<(Address, Source)>, services: ServiceFlags)
    requires
        forall|i: int| 0 <= i < drawn.len() ==> (#[trigger] drawn[i]).0.services.spec_has(services),
    ensures
        offering(drawn, services) == drawn,
    decreases drawn.len(),
{
    if drawn.len() == 0 {
        lemma_offering_nothing(services);
        assert(drawn =~= Seq::empty());
    } else {
        let init = drawn.drop_last();
        assert forall|i: int| 0 <= i < init.len() implies (
        #[trigger] init[i]).0.services.spec_has(services) by {
            assert(init[i] == drawn[i]);
        }
        lemma_all_offering(init, services);
        assert(drawn[drawn.len() - 1].0.services.spec_has(services));
        lemma_offering_push(init, drawn.last(), services);
        assert(init.push(drawn.last()) =~= drawn);
    }
}

/// A queue that gives some addresses has them at its front, and loses them.
proof fn lemma_queue_gives(
    before: VecDeque<(Address, Source)>,
    services: ServiceFlags,
    given: Seq<(Address, Source)>,
    after: VecDeque<(Address, Source)>,
)
    requires
        gives(before, services, given, after),
    ensures
        before@ == given + after@,
    decreases given.len(),
{
    if given.len() == 0 {
        assert(given + after@ =~= after@);
    } else {
        let between = choose|between: VecDeque<(Address, Source)>|
            gives(before, services, given.drop_last(), between) && #[trigger] between.samples(
                services,
                Some(given.last()),
                after,
            );
        lemma_queue_gives(before, services, given.drop_last(), between);
        assert(between@ =~= seq![given.last()] + after@);
        assert(given.drop_last() + between@ =~= given + after@);
    }
}

/// What is drawn from a queue is its front, as long as was asked for or as there
/// is; the rest stays, in order.
pub proof fn lemma_queue_draws(
    before: VecDeque<(Address, Source)>,
    services: ServiceFlags,
    max: nat,
    drawn: Seq<(Address, Source)>,
    after: VecDeque<(Address, Source)>,
)
    requires
        draws(before, services, max, drawn, after),
    ensures
        drawn.len() == (if before@.len() < max { before@.len() } else { max }),
        drawn == before@.take(drawn.len() as int),
        after@ == before@.skip(drawn.len() as int),
{
    if drawn.len() < max {
        let between = choose|between: VecDeque<(Address, Source)>|
            gives(before, services, drawn, between) && #[trigger] between.samples(
                services,
                None,
                after,
            );
        lemma_queue_gives(before, services, drawn, between);
    } else {
        lemma_queue_gives(before, services, drawn, after);
    }
    assert(drawn =~= before@.take(drawn.len() as int));
    assert(after@ =~= before@.skip(drawn.len() as int));
}

} // verus!
