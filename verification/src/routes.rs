//! The peer-address routing table, shared between the demultiplexer and connecting callers.
//!
//! Entries are pruned when the owning connection drops, so a closed connection cannot leave a dead
//! sender behind for a peer reusing the same address to be routed into. Each entry carries a generation
//! so a dropping connection removes only its own route and never a newer one installed for the same
//! address by a peer that redialed before the old drop ran.

use vstd::prelude::*;

verus! {

/// A peer's socket address.
#[derive(Debug, Clone, Copy, PartialEq, Eq, Hash, Structural)]
pub enum PeerAddr {
    /// An IPv4 socket address.
    V4 {
        /// The four octets, most significant first.
        ip: u32,
        /// The port.
        port: u16,
    },
    /// An IPv6 socket address.
    V6 {
        /// The sixteen octets, most significant first.
        ip6: u128,
        /// The port.
        port: u16,
        /// The flow information.
        flowinfo: u32,
        /// The scope id.
        scope_id: u32,
    },
}

/// One entry in the routing table: the way into a connection, tagged with the generation that installed
/// it. `T` is whatever carries frames to the connection.
pub struct Route<T> {
    /// The generation that installed this route.
    pub generation: u64,
    /// The inbound-frame sender of the connection.
    pub inbound: T,
}

/// What a routing table knows.
#[verifier::reject_recursive_types(T)]
pub struct Routing<T> {
    /// The live routes.
    pub routes: Map<PeerAddr, Route<T>>,
    /// The generation that the next route to be installed will get.
    pub next: u64,
}

impl<T> Routing<T> {
    /// No routes.
    pub open spec fn fresh() -> Self {
        Routing { routes: Map::empty(), next: 0 }
    }

    /// The table with a new route for `peer`, in place of any older one.
    pub open spec fn installed(self, peer: PeerAddr, inbound: T) -> Self {
        Routing {
            routes: self.routes.insert(peer, Route { generation: self.next, inbound }),
            next: self.next.wrapping_add(1),
        }
    }

    /// The table without any route for `peer`.
    pub open spec fn removed(self, peer: PeerAddr) -> Self {
        Routing { routes: self.routes.remove(peer), ..self }
    }

    /// Whether the route for `peer` is the one installed at `generation`.
    pub open spec fn is_at(self, peer: PeerAddr, generation: u64) -> bool {
        self.routes.contains_key(peer) && self.routes[peer].generation == generation
    }

    /// The table without the route for `peer`, if that is the one installed at `generation`.
    pub open spec fn pruned(self, peer: PeerAddr, generation: u64) -> Self {
        if self.is_at(peer, generation) {
            self.removed(peer)
        } else {
            self
        }
    }

    /// Every route in the table was installed at an earlier generation. This holds until generations
    /// wrap around.
    pub open spec fn unwrapped(self) -> bool {
        forall|peer: PeerAddr| #[trigger]
            self.routes.contains_key(peer) ==> self.routes[peer].generation < self.next
    }
}

/// A peer-address routing table.
pub struct RouteTable<T> {
    entries: Vec<(PeerAddr, Route<T>)>,
    generations: u64,
}

impl<T> RouteTable<T> {
    /// No address has two routes.
    #[verifier::type_invariant]
    pub closed spec fn distinct(self) -> bool {
        forall|i: int, j: int|
            0 <= i < j < self.entries@.len() ==> (#[trigger] self.entries@[i]).0 != (
            #[trigger] self.entries@[j]).0
    }

    spec fn has(self, peer: PeerAddr) -> bool {
        exists|i: int| 0 <= i < self.entries@.len() && (#[trigger] self.entries@[i]).0 == peer
    }

    spec fn at(self, peer: PeerAddr) -> int {
        choose|i: int| 0 <= i < self.entries@.len() && (#[trigger] self.entries@[i]).0 == peer
    }

    proof fn lemma_at(self, i: int)
        requires
            self.distinct(),
            0 <= i < self.entries@.len(),
        ensures
            self@.routes.contains_key(self.entries@[i].0),
            self@.routes[self.entries@[i].0] == self.entries@[i].1,
    {
        let peer = self.entries@[i].0;
        let j = self.at(peer);
        assert(self.entries@[i].0 == peer);
        assert(0 <= j < self.entries@.len() && self.entries@[j].0 == peer);
        assert(i == j);
    }
}

impl<T> View for RouteTable<T> {
    type V = Routing<T>;

    closed spec fn view(&self) -> Routing<T> {
        Routing {
            routes: Map::new(|peer: PeerAddr| self.has(peer), |peer: PeerAddr|
                self.entries@[self.at(peer)].1),
            next: self.generations,
        }
    }
}

impl<T> RouteTable<T> {
    /// A table without routes.
    pub fn new() -> (table: Self)
        ensures
            table@ == Routing::<T>::fresh(),
    {
        let table = RouteTable { entries: Vec::new(), generations: 0 };
        assert(table@.routes =~= Map::empty());
        table
    }

    /// Where the entry for `peer` stands, if there is one.
    fn position(&self, peer: PeerAddr) -> (position: Option<usize>)
        ensures
            match position {
                Some(i) => i < self.entries@.len() && self.entries@[i as int].0 == peer,
                None => !self.has(peer),
            },
    {
        let mut i: usize = 0;
        while i < self.entries.len()
            invariant
                i <= self.entries@.len(),
                forall|j: int| 0 <= j < i ==> (#[trigger] self.entries@[j]).0 != peer,
            decreases self.entries@.len() - i,
        {
            if self.entries[i].0 == peer {
                return Some(i);
            }
            i = i + 1;
        }
        None
    }

    /// The live route for `peer`, if there is one.
    pub fn get(&self, peer: PeerAddr) -> (route: Option<&Route<T>>)
        ensures
            match route {
                Some(route) => self@.routes.contains_key(peer) && self@.routes[peer] == *route,
                None => !self@.routes.contains_key(peer),
            },
    {
        proof {
            use_type_invariant(self);
        }
        match self.position(peer) {
            Some(i) => {
                proof {
                    self.lemma_at(i as int);
                }
                Some(&self.entries[i].1)
            },
            None => None,
        }
    }

    /// Install a route for `peer`, replacing any older one, and return its generation.
    pub fn install(&mut self, peer: PeerAddr, inbound: T) -> (generation: u64)
        ensures
            generation == old(self)@.next,
            final(self)@ == old(self)@.installed(peer, inbound),
    {
        self.remove(peer);
        proof {
            use_type_invariant(&*self);
        }
        let ghost before = *self;
        let generation: u64 = self.generations;
        let ghost route = Route { generation, inbound };
        let mut entries: Vec<(PeerAddr, Route<T>)> = Vec::new();
        std::mem::swap(&mut entries, &mut self.entries);
        entries.push((peer, Route { generation, inbound }));
        proof {
            assert(entries@ =~= before.entries@.push((peer, route)));
            assert forall|i: int, j: int| 0 <= i < j < entries@.len() implies (
            #[trigger] entries@[i]).0 != (#[trigger] entries@[j]).0 by {
                assert(entries@[i] == before.entries@[i]);
                if j < before.entries@.len() {
                    assert(entries@[j] == before.entries@[j]);
                } else {
                    before.lemma_at(i);
                }
            }
        }
        self.entries = entries;
        self.generations = self.generations.wrapping_add(1);
        proof {
            let after = *self;
            assert(after.entries@ == before.entries@.push((peer, route)));
            assert forall|other: PeerAddr| #[trigger]
                after@.routes.contains_key(other) <==> before@.routes.insert(
                    peer,
                    route,
                ).contains_key(other) by {
                if before.has(other) {
                    let i = before.at(other);
                    assert(after.entries@[i] == before.entries@[i]);
                    after.lemma_at(i);
                }
                if other == peer {
                    after.lemma_at(before.entries@.len() as int);
                }
                if after.has(other) && other != peer {
                    let i = after.at(other);
                    assert(after.entries@[i] == before.entries@[i]);
                    before.lemma_at(i);
                }
            }
            assert forall|other: PeerAddr| #[trigger]
                after@.routes.contains_key(other) implies after@.routes[other]
                == before@.routes.insert(peer, route)[other] by {
                let i = after.at(other);
                after.lemma_at(i);
                if other != peer {
                    assert(after.entries@[i] == before.entries@[i]);
                    before.lemma_at(i);
                } else {
                    after.lemma_at(before.entries@.len() as int);
                }
            }
            assert(after@.routes =~= before@.routes.insert(peer, route));
            assert(after@.routes =~= old(self)@.routes.insert(peer, route));
        }
        generation
    }

    /// Remove any route for `peer`.
    pub fn remove(&mut self, peer: PeerAddr)
        ensures
            final(self)@ == old(self)@.removed(peer),
    {
        proof {
            use_type_invariant(&*self);
        }
        let ghost before = *self;
        match self.position(peer) {
            Some(at) => {
                let mut entries: Vec<(PeerAddr, Route<T>)> = Vec::new();
                std::mem::swap(&mut entries, &mut self.entries);
                entries.swap_remove(at);
                let ghost last = before.entries@.len() - 1;
                proof {
                    assert forall|i: int| 0 <= i < entries@.len() implies #[trigger] entries@[i]
                        == before.entries@[if i == at { last } else { i }] by {}
                    assert forall|i: int, j: int| 0 <= i < j < entries@.len() implies (
                    #[trigger] entries@[i]).0 != (#[trigger] entries@[j]).0 by {
                        let k = if i == at { last } else { i };
                        let l = if j == at { last } else { j };
                        assert(before.entries@[k].0 != before.entries@[l].0);
                    }
                }
                self.entries = entries;
                proof {
                    let after = *self;
                    assert forall|other: PeerAddr| #[trigger]
                        after@.routes.contains_key(other) <==> before@.routes.remove(
                            peer,
                        ).contains_key(other) by {
                        if after.has(other) {
                            let i = after.at(other);
                            let k = if i == at { last } else { i };
                            assert(after.entries@[i] == before.entries@[k]);
                            before.lemma_at(k);
                            assert(before.entries@[at as int].0 != before.entries@[k].0);
                        }
                        if before.has(other) && other != peer {
                            let k = before.at(other);
                            let i = if k == last { at as int } else { k };
                            assert(after.entries@[i] == before.entries@[k]);
                            after.lemma_at(i);
                        }
                    }
                    assert forall|other: PeerAddr| #[trigger]
                        after@.routes.contains_key(other) implies after@.routes[other]
                        == before@.routes[other] by {
                        let i = after.at(other);
                        let k = if i == at { last } else { i };
                        after.lemma_at(i);
                        assert(after.entries@[i] == before.entries@[k]);
                        before.lemma_at(k);
                    }
                    assert(after@.routes =~= before@.routes.remove(peer));
                }
            },
            None => {
                assert(self@.routes =~= before@.routes.remove(peer));
            },
        }
    }

    /// Remove `peer`'s route only if it is still the one installed at `generation`. A newer route for
    /// the same address (a peer that redialed before an old connection's drop ran) is left in place.
    pub fn prune_route(&mut self, peer: PeerAddr, generation: u64)
        ensures
            final(self)@ == old(self)@.pruned(peer, generation),
    {
        let owned = match self.get(peer) {
            Some(route) => route.generation == generation,
            None => false,
        };
        if owned {
            self.remove(peer);
        }
    }
}

// ---------------------------------------------------------------------------------------------------
// Laws
// ---------------------------------------------------------------------------------------------------
/// Installing, removing and pruning keep every route's generation below the next one, until generations
/// run out.
pub proof fn law_generations_grow<T>(table: Routing<T>, peer: PeerAddr, inbound: T, generation: u64)
    requires
        table.unwrapped(),
        table.next < u64::MAX,
    ensures
        Routing::<T>::fresh().unwrapped(),
        table.installed(peer, inbound).unwrapped(),
        table.removed(peer).unwrapped(),
        table.pruned(peer, generation).unwrapped(),
{
}

/// A drop removes only its own route: a connection that was installed at an earlier generation leaves
/// the route of a newer connection at the same address in place, and every other address alone.
pub proof fn law_a_drop_never_prunes_a_newer_route<T>(
    table: Routing<T>,
    peer: PeerAddr,
    inbound: T,
    earlier: u64,
)
    requires
        earlier < table.next,
    ensures
        table.installed(peer, inbound).pruned(peer, earlier) == table.installed(peer, inbound),
        forall|other: PeerAddr|
            other != peer ==> {
                &&& #[trigger] table.pruned(peer, earlier).routes.contains_key(other)
                    == table.routes.contains_key(other)
                &&& table.pruned(peer, earlier).routes[other] == table.routes[other]
            },
{
}

/// A closed connection does not black-hole its address: once its own drop has run, the address has no
/// route, whatever route it had before.
pub proof fn law_a_drop_frees_the_address<T>(table: Routing<T>, peer: PeerAddr, inbound: T)
    ensures
        !table.installed(peer, inbound).pruned(peer, table.next).routes.contains_key(peer),
{
}

/// An address that was dialed again is routed to the new connection, never to the old one.
pub proof fn law_a_reopened_address_reaches_the_new_connection<T>(
    table: Routing<T>,
    peer: PeerAddr,
    old_inbound: T,
    new_inbound: T,
)
    ensures
        table.installed(peer, old_inbound).installed(peer, new_inbound).routes[peer].inbound
            == new_inbound,
{
}

/// Opening a connection concerns one peer: after an install the peer's address has the new route, with
/// the generation that was next, and every other address has exactly the route it had, or none if it had
/// none. Generations are handed out one after the other.
pub proof fn law_an_install_changes_one_address<T>(
    table: Routing<T>,
    peer: PeerAddr,
    inbound: T,
    other: PeerAddr,
)
    ensures
        ({
            let after = table.installed(peer, inbound);
            &&& after.routes.contains_key(peer)
            &&& after.routes[peer].generation == table.next
            &&& after.routes[peer].inbound == inbound
            &&& other != peer ==> after.routes.contains_key(other) == table.routes.contains_key(other)
            &&& other != peer && table.routes.contains_key(other) ==> after.routes[other]
                == table.routes[other]
            &&& table.next < u64::MAX ==> after.next == table.next + 1
            &&& table.next == u64::MAX ==> after.next == 0
        }),
{
}

/// Removing a route concerns one peer: afterwards the peer's address has no route, and every other
/// address has exactly the route it had, or none if it had none.
pub proof fn law_a_removal_changes_one_address<T>(table: Routing<T>, peer: PeerAddr, other: PeerAddr)
    ensures
        ({
            let after = table.removed(peer);
            &&& !after.routes.contains_key(peer)
            &&& other != peer ==> after.routes.contains_key(other) == table.routes.contains_key(other)
            &&& other != peer && table.routes.contains_key(other) ==> after.routes[other]
                == table.routes[other]
            &&& after.next == table.next
        }),
{
}

/// A drop prunes its own route and nothing else: if the peer's route has the given generation, the
/// address has no route afterwards, however many routes were installed since; any other route, at that
/// address or elsewhere, stays as it is.
pub proof fn law_a_drop_prunes_exactly_its_own_route<T>(
    table: Routing<T>,
    peer: PeerAddr,
    generation: u64,
    other: PeerAddr,
)
    ensures
        ({
            let after = table.pruned(peer, generation);
            let own = |addr: PeerAddr|
                addr == peer && table.routes.contains_key(addr) && table.routes[addr].generation
                    == generation;
            &&& own(other) ==> !after.routes.contains_key(other)
            &&& !own(other) ==> after.routes.contains_key(other) == table.routes.contains_key(other)
            &&& !own(other) && table.routes.contains_key(other) ==> after.routes[other]
                == table.routes[other]
            &&& after.next == table.next
        }),
{
}

/// One change of a routing table.
pub enum Change<T> {
    /// A connection with `peer` is opened.
    Install { peer: PeerAddr, inbound: T },
    /// The route of `peer` is found dead.
    Remove { peer: PeerAddr },
    /// A connection with `peer` is dropped.
    Prune { peer: PeerAddr, generation: u64 },
}

impl<T> Routing<T> {
    /// A fresh table after `changes`.
    pub open spec fn after(changes: Seq<Change<T>>) -> Self
        decreases changes.len(),
    {
        if changes.len() == 0 {
            Routing::fresh()
        } else {
            let before = Routing::after(changes.drop_last());
            match changes.last() {
                Change::Install { peer, inbound } => before.installed(peer, inbound),
                Change::Remove { peer } => before.removed(peer),
                Change::Prune { peer, generation } => before.pruned(peer, generation),
            }
        }
    }
}

/// How many routes were installed in `changes`.
pub open spec fn installs<T>(changes: Seq<Change<T>>) -> nat
    decreases changes.len(),
{
    if changes.len() == 0 {
        0
    } else if changes.last() is Install {
        installs(changes.drop_last()) + 1
    } else {
        installs(changes.drop_last())
    }
}

/// The generation of the route that change `i` installs: how many routes were installed before it, as
/// far as 64 bits can tell.
pub open spec fn generation_of<T>(changes: Seq<Change<T>>, i: int) -> u64 {
    (installs(changes.take(i)) % 0x1_0000_0000_0000_0000) as u64
}

/// Whether `change` does away with the route of `peer` that has `generation`: it installs another for
/// the same peer, removes the peer's route, or drops the connection of that generation.
pub open spec fn displaces<T>(change: Change<T>, peer: PeerAddr, generation: u64) -> bool {
    match change {
        Change::Install { peer: at, inbound: _ } => at == peer,
        Change::Remove { peer: at } => at == peer,
        Change::Prune { peer: at, generation: of } => at == peer && of == generation,
    }
}

/// Whether change `i` installed a route for `peer` that no later change did away with.
pub open spec fn lives<T>(changes: Seq<Change<T>>, i: int, peer: PeerAddr) -> bool {
    &&& 0 <= i < changes.len()
    &&& changes[i] is Install
    &&& changes[i]->Install_peer == peer
    &&& forall|j: int|
        i < j < changes.len() ==> !displaces(#[trigger] changes[j], peer, generation_of(changes, i))
}

/// More changes never mean fewer installs, and the next generation counts them.
proof fn lemma_installs<T>(changes: Seq<Change<T>>, i: int)
    requires
        0 <= i <= changes.len(),
    ensures
        installs(changes.take(i)) <= installs(changes),
        i < changes.len() && changes[i] is Install ==> installs(changes.take(i)) < installs(changes),
        Routing::after(changes).next == installs(changes) % 0x1_0000_0000_0000_0000,
    decreases changes.len(),
{
    if changes.len() > 0 {
        let fewer = changes.drop_last();
        if i < changes.len() {
            lemma_installs(fewer, i);
            assert(fewer.take(i) =~= changes.take(i));
        } else {
            lemma_installs(fewer, 0);
            assert(changes.take(i) =~= changes);
        }
    } else {
        assert(changes.take(i) =~= changes);
    }
}

/// An endpoint serves many peers at once: after any changes, each address has a route exactly if one was
/// installed there that was not displaced since, and then it is that route: the last one installed
/// there, under the generation it was given. What happens to other addresses does not matter.
pub proof fn law_each_address_has_its_last_route<T>(changes: Seq<Change<T>>, peer: PeerAddr)
    ensures
        Routing::after(changes).routes.contains_key(peer) <==> exists|i: int| lives(changes, i, peer),
        forall|i: int| #[trigger]
            lives(changes, i, peer) ==> Routing::after(changes).routes[peer] == (Route {
                generation: generation_of(changes, i),
                inbound: changes[i]->inbound,
            }),
    decreases changes.len(),
{
    let after = Routing::after(changes);
    if changes.len() > 0 {
        let fewer = changes.drop_last();
        let before = Routing::after(fewer);
        let last = changes.len() - 1;
        law_each_address_has_its_last_route(fewer, peer);
        lemma_installs(fewer, 0);
        assert(changes.take(last) =~= fewer);
        assert forall|i: int| 0 <= i < last implies generation_of(changes, i) == generation_of(
            fewer,
            i,
        ) by {
            assert(changes.take(i) =~= fewer.take(i));
        }
        assert forall|i: int| 0 <= i < last implies (lives(changes, i, peer) <==> lives(fewer, i, peer)
            && !displaces(changes[last], peer, generation_of(changes, i))) by {
            assert(generation_of(changes, i) == generation_of(fewer, i));
            if lives(changes, i, peer) {
                assert forall|j: int| i < j < fewer.len() implies !displaces(
                    #[trigger] fewer[j],
                    peer,
                    generation_of(fewer, i),
                ) by {
                    assert(fewer[j] == changes[j]);
                }
            }
            if lives(fewer, i, peer) && !displaces(changes[last], peer, generation_of(changes, i)) {
                assert forall|j: int| i < j < changes.len() implies !displaces(
                    #[trigger] changes[j],
                    peer,
                    generation_of(changes, i),
                ) by {
                    if j < last {
                        assert(fewer[j] == changes[j]);
                    }
                }
            }
        }
        let installs_here = changes[last] is Install && changes[last]->Install_peer == peer;
        if installs_here {
            assert(lives(changes, last, peer));
        }
        assert forall|i: int| #[trigger] lives(changes, i, peer) implies after.routes.contains_key(peer)
            && after.routes[peer] == (Route {
            generation: generation_of(changes, i),
            inbound: changes[i]->inbound,
        }) by {
            if i < last {
                assert(lives(fewer, i, peer));
                assert(generation_of(changes, i) == generation_of(fewer, i));
            }
        }
        if after.routes.contains_key(peer) && !installs_here {
            assert(before.routes.contains_key(peer));
            let i = choose|i: int| lives(fewer, i, peer);
            assert(generation_of(changes, i) == generation_of(fewer, i));
            assert(lives(changes, i, peer));
        }
    }
}

/// A dropped connection leaves nothing behind: whatever else was opened and dropped since it was opened,
/// once its drop has run no address has a route of its generation. This holds until generations run out.
pub proof fn law_a_dropped_connection_leaves_no_route<T>(changes: Seq<Change<T>>, i: int, other: PeerAddr)
    requires
        0 <= i < changes.len(),
        changes[i] is Install,
        installs(changes) <= u64::MAX,
    ensures
        ({
            let generation = generation_of(changes, i);
            let dropped = changes.push(Change::Prune { peer: changes[i]->Install_peer, generation });
            let after = Routing::after(dropped);
            after.routes.contains_key(other) ==> after.routes[other].generation != generation
        }),
{
    let generation = generation_of(changes, i);
    let prune = Change::Prune { peer: changes[i]->Install_peer, generation };
    let dropped = changes.push(prune);
    let after = Routing::after(dropped);
    assert(dropped.drop_last() =~= changes);
    law_each_address_has_its_last_route(dropped, other);
    if after.routes.contains_key(other) {
        let j = choose|j: int| lives(dropped, j, other);
        assert(dropped[changes.len() as int] == prune);
        assert(dropped.take(j) =~= changes.take(j));
        lemma_installs(changes, i);
        lemma_installs(changes, j);
        if j < i {
            lemma_installs(changes.take(i), j);
            assert(changes.take(i).take(j) =~= changes.take(j));
        } else if i < j {
            lemma_installs(changes.take(j), i);
            assert(changes.take(j).take(i) =~= changes.take(i));
        }
    }
}

} // verus!
