//! The table of the peers that are known.

use vstd::prelude::*;

use crate::peer::{Peer, PeerId, Standing};

verus! {

/// The peers that are known, with the state of each. No peer occurs twice.
#[derive(Debug)]
pub struct PeerTable {
    entries: Vec<(PeerId, Peer)>,
}

/// The peers of `peers` that have the given standing.
pub open spec fn standing_set(peers: Map<PeerId, Peer>, standing: Standing) -> Set<PeerId> {
    peers.dom().filter(|addr: PeerId| standing.spec_covers(peers[addr]))
}

/// What a list of entries maps each peer to.
spec fn entries_map(entries: Seq<(PeerId, Peer)>) -> Map<PeerId, Peer>
    decreases entries.len(),
{
    if entries.len() == 0 {
        Map::empty()
    } else {
        entries_map(entries.drop_last()).insert(entries.last().0, entries.last().1)
    }
}

/// Whether no peer has two entries.
spec fn entries_distinct(entries: Seq<(PeerId, Peer)>) -> bool {
    forall|i: int, j: int|
        0 <= i < j < entries.len() ==> (#[trigger] entries[i]).0 != (#[trigger] entries[j]).0
}

proof fn lemma_entries_map(entries: Seq<(PeerId, Peer)>)
    requires
        entries_distinct(entries),
    ensures
        entries_map(entries).dom().finite(),
        entries_map(entries).dom().len() == entries.len(),
        forall|i: int|
            0 <= i < entries.len() ==> {
                &&& entries_map(entries).contains_key((#[trigger] entries[i]).0)
                &&& entries_map(entries)[entries[i].0] == entries[i].1
            },
        forall|addr: PeerId| #[trigger]
            entries_map(entries).contains_key(addr) ==> exists|i: int|
                0 <= i < entries.len() && (#[trigger] entries[i]).0 == addr,
    decreases entries.len(),
{
    if entries.len() > 0 {
        let init = entries.drop_last();
        lemma_entries_map(init);
        let last = entries.last();
        assert(!entries_map(init).contains_key(last.0));
        assert forall|i: int| 0 <= i < entries.len() implies {
            &&& entries_map(entries).contains_key((#[trigger] entries[i]).0)
            &&& entries_map(entries)[entries[i].0] == entries[i].1
        } by {
            if i < init.len() {
                assert(init[i] == entries[i]);
            }
        }
        assert forall|addr: PeerId| #[trigger]
            entries_map(entries).contains_key(addr) implies exists|i: int|
            0 <= i < entries.len() && (#[trigger] entries[i]).0 == addr by {
            if addr == last.0 {
                assert(entries[entries.len() - 1].0 == addr);
            } else {
                let i = choose|i: int| 0 <= i < init.len() && (#[trigger] init[i]).0 == addr;
                assert(entries[i].0 == addr);
            }
        }
    }
}

proof fn lemma_entries_map_bounded(entries: Seq<(PeerId, Peer)>)
    ensures
        entries_map(entries).dom().finite(),
        entries_map(entries).dom().len() <= entries.len(),
    decreases entries.len(),
{
    if entries.len() > 0 {
        lemma_entries_map_bounded(entries.drop_last());
    }
}

/// Replacing the state in one entry replaces it in the map.
proof fn lemma_entries_map_update(entries: Seq<(PeerId, Peer)>, i: int, peer: Peer)
    requires
        entries_distinct(entries),
        0 <= i < entries.len(),
    ensures
        entries_distinct(entries.update(i, (entries[i].0, peer))),
        entries_map(entries.update(i, (entries[i].0, peer))) == entries_map(entries).insert(
            entries[i].0,
            peer,
        ),
{
    let updated = entries.update(i, (entries[i].0, peer));
    assert forall|j: int, k: int| 0 <= j < k < updated.len() implies (#[trigger] updated[j]).0 != (
    #[trigger] updated[k]).0 by {
        assert(updated[j].0 == entries[j].0);
        assert(updated[k].0 == entries[k].0);
    }
    lemma_entries_map(entries);
    lemma_entries_map(updated);
    let left = entries_map(updated);
    let right = entries_map(entries).insert(entries[i].0, peer);
    assert forall|addr: PeerId| left.contains_key(addr) <==> right.contains_key(addr) by {
        if left.contains_key(addr) {
            let j = choose|j: int| 0 <= j < updated.len() && (#[trigger] updated[j]).0 == addr;
            assert(entries[j].0 == addr);
        }
        if right.contains_key(addr) {
            if addr == entries[i].0 {
                assert(updated[i].0 == addr);
            } else {
                let j = choose|j: int| 0 <= j < entries.len() && (#[trigger] entries[j]).0 == addr;
                assert(updated[j].0 == addr);
            }
        }
    }
    assert forall|addr: PeerId| left.contains_key(addr) implies left[addr] == right[addr] by {
        let j = choose|j: int| 0 <= j < updated.len() && (#[trigger] updated[j]).0 == addr;
        assert(entries[j].0 == addr);
        if j == i {
            assert(updated[i].1 == peer);
        } else {
            assert(updated[j] == entries[j]);
            assert(entries[j].0 != entries[i].0);
        }
    }
    assert(left =~= right);
}

impl View for PeerTable {
    type V = Map<PeerId, Peer>;

    closed spec fn view(&self) -> Map<PeerId, Peer> {
        entries_map(self.entries@)
    }
}

impl PeerTable {
    #[verifier::type_invariant]
    spec fn wf(self) -> bool {
        entries_distinct(self.entries@)
    }

    /// A table with no peers.
    pub fn new() -> (table: PeerTable)
        ensures
            table@ == Map::<PeerId, Peer>::empty(),
    {
        PeerTable { entries: Vec::new() }
    }

    /// A table is finite, and its size fits in a `usize`.
    pub proof fn lemma_bounded(&self)
        ensures
            self@.dom().finite(),
            self@.dom().len() <= usize::MAX,
    {
        lemma_entries_map_bounded(self.entries@);
        assert(self.entries.len() == self.entries@.len());
    }

    /// The position of a peer among the entries.
    fn position(&self, addr: &PeerId) -> (position: Option<usize>)
        ensures
            match position {
                Some(i) => i < self.entries@.len() && self.entries@[i as int].0 == *addr,
                None => !self@.contains_key(*addr),
            },
    {
        proof {
            use_type_invariant(self);
            lemma_entries_map(self.entries@);
        }
        let mut i: usize = 0;
        while i < self.entries.len()
            invariant
                i <= self.entries@.len(),
                forall|j: int| 0 <= j < i ==> (#[trigger] self.entries@[j]).0 != *addr,
            decreases self.entries@.len() - i,
        {
            if self.entries[i].0 == *addr {
                return Some(i);
            }
            i += 1;
        }
        None
    }

    /// The state of a peer, if it is known.
    pub fn get(&self, addr: &PeerId) -> (peer: Option<&Peer>)
        ensures
            match peer {
                Some(peer) => self@.contains_key(*addr) && *peer == self@[*addr],
                None => !self@.contains_key(*addr),
            },
    {
        match self.position(addr) {
            Some(i) => {
                proof {
                    use_type_invariant(self);
                    lemma_entries_map(self.entries@);
                }
                Some(&self.entries[i].1)
            },
            None => None,
        }
    }

    /// Sets the state of a peer and hands back the state it had, if it was known.
    pub fn insert(&mut self, addr: PeerId, peer: Peer) -> (previous: Option<Peer>)
        ensures
            final(self)@ == old(self)@.insert(addr, peer),
            previous == (if old(self)@.contains_key(addr) {
                Some(old(self)@[addr])
            } else {
                None
            }),
    {
        let position = self.position(&addr);
        proof {
            use_type_invariant(&*self);
            lemma_entries_map(self.entries@);
        }
        let mut entries: Vec<(PeerId, Peer)> = Vec::new();
        std::mem::swap(&mut entries, &mut self.entries);
        let ghost before = entries@;
        match position {
            Some(i) => {
                let previous = entries[i].1;
                proof {
                    lemma_entries_map_update(before, i as int, peer);
                }
                entries[i] = (addr, peer);
                self.entries = entries;
                Some(previous)
            },
            None => {
                entries.push((addr, peer));
                assert(entries@.drop_last() =~= before);
                assert(entries_distinct(entries@)) by {
                    assert forall|j: int, k: int| 0 <= j < k < entries@.len() implies (
                    #[trigger] entries@[j]).0 != (#[trigger] entries@[k]).0 by {
                        assert(entries@[j] == before[j]);
                        if k < before.len() {
                            assert(entries@[k] == before[k]);
                        }
                    }
                }
                self.entries = entries;
                None
            },
        }
    }

    /// The peers that have the given standing, each once.
    pub fn select(&self, standing: Standing) -> (selected: Vec<PeerId>)
        ensures
            selected@.no_duplicates(),
            selected@.to_set() == standing_set(self@, standing),
    {
        proof {
            use_type_invariant(self);
            lemma_entries_map(self.entries@);
        }
        let mut selected: Vec<PeerId> = Vec::new();
        let mut i: usize = 0;
        while i < self.entries.len()
            invariant
                i <= self.entries@.len(),
                entries_distinct(self.entries@),
                selected@.no_duplicates(),
                forall|addr: PeerId| #[trigger]
                    selected@.contains(addr) ==> exists|j: int|
                        0 <= j < i && (#[trigger] self.entries@[j]).0 == addr
                            && standing.spec_covers(self.entries@[j].1),
                forall|j: int|
                    0 <= j < i && standing.spec_covers((#[trigger] self.entries@[j]).1)
                        ==> selected@.contains(self.entries@[j].0),
            decreases self.entries@.len() - i,
        {
            let ghost before = selected@;
            if standing.covers(&self.entries[i].1) {
                selected.push(self.entries[i].0);
                proof {
                    assert(selected@ == before.push(self.entries@[i as int].0));
                    assert(!before.contains(self.entries@[i as int].0));
                    assert forall|addr: PeerId| before.contains(addr) implies selected@.contains(
                        addr,
                    ) by {
                        let k = choose|k: int| 0 <= k < before.len() && before[k] == addr;
                        assert(selected@[k] == addr);
                    }
                    assert(selected@[before.len() as int] == self.entries@[i as int].0);
                    assert forall|addr: PeerId| #[trigger]
                        selected@.contains(addr) implies exists|j: int|
                        0 <= j < i + 1 && (#[trigger] self.entries@[j]).0 == addr
                            && standing.spec_covers(self.entries@[j].1) by {
                        if addr == self.entries@[i as int].0 {
                        } else {
                            let k = choose|k: int| 0 <= k < selected@.len() && selected@[k] == addr;
                            assert(before[k] == addr);
                            assert(before.contains(addr));
                        }
                    }
                }
            }
            i += 1;
        }
        proof {
            assert forall|addr: PeerId|
                selected@.to_set().contains(addr) <==> standing_set(self@, standing).contains(
                    addr,
                ) by {
                if selected@.contains(addr) {
                    let j = choose|j: int|
                        0 <= j < self.entries@.len() && (#[trigger] self.entries@[j]).0 == addr
                            && standing.spec_covers(self.entries@[j].1);
                    assert(self@[self.entries@[j].0] == self.entries@[j].1);
                }
                if standing_set(self@, standing).contains(addr) {
                    assert(self@.contains_key(addr));
                    let j = choose|j: int|
                        0 <= j < self.entries@.len() && (#[trigger] self.entries@[j]).0 == addr;
                    assert(self@[self.entries@[j].0] == self.entries@[j].1);
                }
            }
            assert(selected@.to_set() =~= standing_set(self@, standing));
        }
        selected
    }
}

} // verus!
