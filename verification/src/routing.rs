use crate::table::{
    distinct,
    holds,
    index_of,
    lemma_entry,
    lemma_keyed,
    lemma_put,
    lemma_size,
    table_of,
};
use crate::time::{Duration, Timestamp};
use crate::types::{PeerId, UserId};
use vstd::prelude::*;

verus! {

/// An estimate of a link's reliability, held as the bit pattern of an
/// IEEE 754 single-precision number (what `f32::to_bits` gives). Qualities
/// are compared as those numbers compare.
#[derive(Debug, Clone, Copy, PartialEq, Eq, Hash)]
pub struct LinkQuality(pub u32);

impl LinkQuality {
    /// The bit pattern without its sign bit.
    pub open spec fn magnitude(self) -> int {
        if self.0 >= 0x8000_0000 {
            self.0 - 0x8000_0000
        } else {
            self.0 as int
        }
    }

    /// Whether the pattern is not a number: all exponent bits set and a
    /// fraction other than zero.
    pub open spec fn is_nan(self) -> bool {
        self.magnitude() > 0x7f80_0000
    }

    /// An integer that orders the numbers: the magnitude, negated where the
    /// sign bit is set. Both zeros rank 0.
    pub open spec fn rank(self) -> int {
        if self.0 >= 0x8000_0000 {
            -self.magnitude()
        } else {
            self.magnitude()
        }
    }

    /// The order `>` of the numbers: false whenever either side is not a
    /// number.
    pub open spec fn better_than(self, other: LinkQuality) -> bool {
        !self.is_nan() && !other.is_nan() && self.rank() > other.rank()
    }

    /// The quality with the given bit pattern.
    pub fn from_bits(bits: u32) -> (q: LinkQuality)
        ensures
            q.0 == bits,
    {
        LinkQuality(bits)
    }

    /// The bit pattern of the quality.
    pub fn to_bits(&self) -> (bits: u32)
        ensures
            bits == self.0,
    {
        self.0
    }

    /// Whether the quality is not a number.
    pub fn is_not_a_number(&self) -> (r: bool)
        ensures
            r == self.is_nan(),
    {
        let magnitude: u32 = if self.0 >= 0x8000_0000 {
            self.0 - 0x8000_0000
        } else {
            self.0
        };
        magnitude > 0x7f80_0000
    }

    fn rank_value(&self) -> (r: i64)
        ensures
            r == self.rank(),
    {
        if self.0 >= 0x8000_0000 {
            -((self.0 - 0x8000_0000) as i64)
        } else {
            self.0 as i64
        }
    }

    /// Whether this quality is strictly better than `other`.
    pub fn is_better_than(&self, other: &LinkQuality) -> (r: bool)
        ensures
            r == self.better_than(*other),
    {
        !self.is_not_a_number() && !other.is_not_a_number() && self.rank_value()
            > other.rank_value()
    }
}

/// Routing information for a single destination.
#[derive(Debug, Clone, Copy, PartialEq, Eq)]
pub struct RouteInfo {
    pub destination: UserId,
    pub next_hop: PeerId,
    pub hop_count: u8,
    pub last_updated: Timestamp,
    pub link_quality: LinkQuality,
}

impl RouteInfo {
    /// Whether the route is expired at `now`: its age, the time from its
    /// last update to `now`, exceeds `max_age`. A route updated after `now`
    /// has no such age and is not expired.
    pub open spec fn expired_at(self, max_age: Duration, now: Timestamp) -> bool {
        now.nanos() - self.last_updated.nanos() > max_age.nanos()
    }

    /// Whether an offer of `hop_count` hops at `link_quality` is a strict
    /// improvement on this route: fewer hops, or as many at a better quality.
    pub open spec fn improved_by(self, hop_count: u8, link_quality: LinkQuality) -> bool {
        hop_count < self.hop_count || (hop_count == self.hop_count && link_quality.better_than(
            self.link_quality,
        ))
    }

    /// Whether the route is expired at `now`.
    pub fn is_expired_at(&self, max_age: &Duration, now: &Timestamp) -> (r: bool)
        ensures
            r == self.expired_at(*max_age, *now),
    {
        match now.duration_since(&self.last_updated) {
            Some(age) => age.longer_than(max_age),
            None => false,
        }
    }

    /// Whether the route is expired by the system clock.
    pub fn is_expired(&self, max_age: &Duration) -> (r: bool)
        ensures
            exists|now: Timestamp| r == #[trigger] self.expired_at(*max_age, now),
    {
        let now = Timestamp::now();
        self.is_expired_at(max_age, &now)
    }

    /// Whether an offer of `hop_count` hops at `link_quality` is a strict
    /// improvement on this route.
    pub fn is_improved_by(&self, hop_count: u8, link_quality: &LinkQuality) -> (r: bool)
        ensures
            r == self.improved_by(hop_count, *link_quality),
    {
        hop_count < self.hop_count || (hop_count == self.hop_count && link_quality.is_better_than(
            &self.link_quality,
        ))
    }
}

/// A routing table: for each destination the best route known so far.
pub struct RoutingEngine {
    routes: Vec<RouteInfo>,
    max_age: Duration,
}

impl View for RoutingEngine {
    type V = Map<UserId, RouteInfo>;

    /// The table: each destination with a route, and that route.
    closed spec fn view(&self) -> Map<UserId, RouteInfo> {
        Self::table(self.routes@)
    }
}

impl RoutingEngine {
    spec fn key() -> spec_fn(RouteInfo) -> UserId {
        |route: RouteInfo| route.destination
    }

    spec fn whole() -> spec_fn(RouteInfo) -> RouteInfo {
        |route: RouteInfo| route
    }

    spec fn table(routes: Seq<RouteInfo>) -> Map<UserId, RouteInfo> {
        table_of(routes, Self::key(), Self::whole())
    }

    #[verifier::type_invariant]
    spec fn one_route_per_destination(self) -> bool {
        distinct(self.routes@, Self::key())
    }

    /// The age beyond which a cleanup removes a route.
    pub closed spec fn max_age(&self) -> Duration {
        self.max_age
    }

    /// The table after an offer for `destination` made at `now`: the offer
    /// is entered where the table has no route for the destination or a
    /// route that the offer strictly improves on; otherwise nothing changes.
    pub open spec fn updated(
        table: Map<UserId, RouteInfo>,
        destination: UserId,
        next_hop: PeerId,
        hop_count: u8,
        link_quality: LinkQuality,
        now: Timestamp,
    ) -> Map<UserId, RouteInfo> {
        if !table.contains_key(destination) || table[destination].improved_by(
            hop_count,
            link_quality,
        ) {
            table.insert(
                destination,
                RouteInfo { destination, next_hop, hop_count, last_updated: now, link_quality },
            )
        } else {
            table
        }
    }

    /// The table after a cleanup at `now`: the routes that are not expired.
    pub open spec fn swept(table: Map<UserId, RouteInfo>, max_age: Duration, now: Timestamp) -> Map<
        UserId,
        RouteInfo,
    > {
        Map::new(
            |d: UserId| table.contains_key(d) && !table[d].expired_at(max_age, now),
            |d: UserId| table[d],
        )
    }

    /// Create a new routing engine with an empty table.
    pub fn new(max_age: Duration) -> (engine: RoutingEngine)
        ensures
            engine@ == Map::<UserId, RouteInfo>::empty(),
            engine.max_age() == max_age,
    {
        let engine = RoutingEngine { routes: Vec::new(), max_age };
        assert(engine@ =~= Map::<UserId, RouteInfo>::empty());
        engine
    }

    fn position(&self, destination: &UserId) -> (r: Option<usize>)
        ensures
            match r {
                Some(i) => i < self.routes@.len() && self.routes@[i as int].destination
                    == *destination,
                None => !holds(self.routes@, Self::key(), *destination),
            },
    {
        let mut i: usize = 0;
        while i < self.routes.len()
            invariant
                i <= self.routes@.len(),
                forall|j: int|
                    0 <= j < i ==> #[trigger] (Self::key())(self.routes@[j]) != *destination,
            decreases self.routes@.len() - i,
        {
            if self.routes[i].destination.same(destination) {
                return Some(i);
            }
            i += 1;
        }
        None
    }

    /// Retrieve the next hop for a destination, if the table has a route.
    pub fn next_hop(&self, destination: &UserId) -> (r: Option<PeerId>)
        ensures
            r == if self@.contains_key(*destination) {
                Some(self@[*destination].next_hop)
            } else {
                None
            },
    {
        proof {
            use_type_invariant(self);
        }
        match self.position(destination) {
            Some(i) => {
                proof {
                    lemma_entry(self.routes@, Self::key(), i as int);
                }
                Some(self.routes[i].next_hop)
            },
            None => None,
        }
    }

    /// Update or insert a route as of `now`. An existing route is replaced
    /// only by an offer with fewer hops, or with as many hops and a better
    /// link quality.
    pub fn update_route_at(
        &mut self,
        destination: UserId,
        next_hop: PeerId,
        hop_count: u8,
        link_quality: LinkQuality,
        now: Timestamp,
    )
        ensures
            final(self)@ == Self::updated(
                old(self)@,
                destination,
                next_hop,
                hop_count,
                link_quality,
                now,
            ),
            final(self).max_age() == old(self).max_age(),
    {
        proof {
            use_type_invariant(&*self);
        }
        let offer = RouteInfo { destination, next_hop, hop_count, last_updated: now, link_quality };
        let ghost before = self.routes@;
        match self.position(&destination) {
            Some(i) => {
                proof {
                    lemma_entry(before, Self::key(), i as int);
                }
                if self.routes[i].is_improved_by(hop_count, &link_quality) {
                    let mut routes = self.take_routes();
                    routes.set(i, offer);
                    proof {
                        lemma_put(before, routes@, Self::key(), Self::whole(), i as int);
                    }
                    self.routes = routes;
                }
            },
            None => {
                let mut routes = self.take_routes();
                routes.push(offer);
                proof {
                    lemma_put(before, routes@, Self::key(), Self::whole(), before.len() as int);
                }
                self.routes = routes;
            },
        }
    }

    /// Update or insert a route, stamped with the reading of the system
    /// clock. An existing route is replaced only by an offer with fewer hops,
    /// or with as many hops and a better link quality.
    pub fn update_route(
        &mut self,
        destination: UserId,
        next_hop: PeerId,
        hop_count: u8,
        link_quality: LinkQuality,
    )
        ensures
            exists|now: Timestamp|
                final(self)@ == #[trigger] Self::updated(
                    old(self)@,
                    destination,
                    next_hop,
                    hop_count,
                    link_quality,
                    now,
                ),
            final(self).max_age() == old(self).max_age(),
    {
        let now = Timestamp::now();
        self.update_route_at(destination, next_hop, hop_count, link_quality, now);
    }

    /// Remove the routes that are expired at `now`.
    pub fn cleanup_at(&mut self, now: Timestamp)
        ensures
            final(self)@ == Self::swept(old(self)@, old(self).max_age(), now),
            final(self).max_age() == old(self).max_age(),
    {
        proof {
            use_type_invariant(&*self);
        }
        let routes = self.take_routes();
        let max_age = self.max_age;
        let mut kept: Vec<RouteInfo> = Vec::new();
        let mut i: usize = 0;
        while i < routes.len()
            invariant
                i <= routes@.len(),
                distinct(routes@, Self::key()),
                distinct(kept@, Self::key()),
                forall|k: int|
                    0 <= k < kept@.len() ==> !(#[trigger] kept@[k]).expired_at(max_age, now)
                        && Self::occurs(routes@, kept@[k], i as int),
                forall|j: int|
                    0 <= j < i && !(#[trigger] routes@[j]).expired_at(max_age, now)
                        ==> Self::occurs(kept@, routes@[j], kept@.len() as int),
            decreases routes@.len() - i,
        {
            let route = routes[i];
            let ghost kept_before = kept@;
            if !route.is_expired_at(&max_age, &now) {
                kept.push(route);
                proof {
                    assert(Self::occurs(routes@, route, i + 1)) by {
                        assert(routes@[i as int] == route);
                    }
                    assert forall|a: int, b: int| 0 <= a < b < kept@.len() implies #[trigger] (
                    Self::key())(kept@[a]) != #[trigger] (Self::key())(kept@[b]) by {
                        if b == kept_before.len() {
                            assert(kept@[a] == kept_before[a]);
                            let j = Self::place(routes@, kept_before[a], i as int);
                            assert((Self::key())(routes@[j]) != (Self::key())(routes@[i as int]));
                        } else {
                            assert((Self::key())(kept_before[a]) != (Self::key())(kept_before[b]));
                        }
                    }
                    assert(Self::occurs(kept@, route, kept@.len() as int)) by {
                        assert(kept@[kept_before.len() as int] == route);
                    }
                }
            }
            proof {
                assert forall|k: int| 0 <= k < kept@.len() implies Self::occurs(
                    routes@,
                    #[trigger] kept@[k],
                    i + 1,
                ) by {
                    if k < kept_before.len() {
                        assert(kept@[k] == kept_before[k]);
                        let j = Self::place(routes@, kept_before[k], i as int);
                        assert(routes@[j] == kept@[k]);
                    }
                }
                assert forall|j: int|
                    0 <= j < i + 1 && !(#[trigger] routes@[j]).expired_at(
                        max_age,
                        now,
                    ) implies Self::occurs(kept@, routes@[j], kept@.len() as int) by {
                    if j < i {
                        let k = Self::place(kept_before, routes@[j], kept_before.len() as int);
                        assert(kept@[k] == routes@[j]);
                    }
                }
            }
            i += 1;
        }
        proof {
            Self::lemma_swept(routes@, kept@, max_age, now);
        }
        self.routes = kept;
    }

    /// Remove the routes that are expired by the system clock.
    pub fn cleanup(&mut self)
        ensures
            exists|now: Timestamp|
                final(self)@ == #[trigger] Self::swept(old(self)@, old(self).max_age(), now),
            final(self).max_age() == old(self).max_age(),
    {
        let now = Timestamp::now();
        self.cleanup_at(now);
    }

    /// The table holds each route under the destination that the route
    /// names.
    pub proof fn lemma_keyed_by_destination(&self)
        ensures
            forall|d: UserId|
                self@.contains_key(d) ==> (#[trigger] self@[d]).destination == d,
    {
        assert forall|d: UserId| self@.contains_key(d) implies (#[trigger] self@[d]).destination
            == d by {
            lemma_keyed(self.routes@, Self::key(), d);
        }
    }

    /// A snapshot of the table: every route once, in no particular order.
    pub fn dump(&self) -> (snapshot: Vec<RouteInfo>)
        ensures
            self@.dom().finite(),
            snapshot@.len() == self@.dom().len(),
            forall|d: UserId|
                self@.contains_key(d) ==> (#[trigger] self@[d]).destination == d,
            forall|i: int|
                0 <= i < snapshot@.len() ==> self@.contains_key(
                    (#[trigger] snapshot@[i]).destination,
                ) && self@[snapshot@[i].destination] == snapshot@[i],
            forall|d: UserId|
                self@.contains_key(d) ==> exists|i: int|
                    0 <= i < snapshot@.len() && #[trigger] snapshot@[i] == self@[d],
            forall|i: int, j: int|
                0 <= i < j < snapshot@.len() ==> (#[trigger] snapshot@[i]).destination
                    != (#[trigger] snapshot@[j]).destination,
    {
        proof {
            use_type_invariant(self);
        }
        let mut snapshot: Vec<RouteInfo> = Vec::new();
        let mut i: usize = 0;
        while i < self.routes.len()
            invariant
                i <= self.routes@.len(),
                snapshot@ == self.routes@.take(i as int),
            decreases self.routes@.len() - i,
        {
            snapshot.push(self.routes[i]);
            assert(snapshot@ =~= self.routes@.take(i + 1));
            i += 1;
        }
        proof {
            assert(snapshot@ =~= self.routes@);
            lemma_size(self.routes@, Self::key(), Self::whole());
            self.lemma_keyed_by_destination();
            assert forall|k: int| 0 <= k < snapshot@.len() implies self@.contains_key(
                (#[trigger] snapshot@[k]).destination,
            ) && self@[snapshot@[k].destination] == snapshot@[k] by {
                lemma_entry(self.routes@, Self::key(), k);
            }
            assert forall|d: UserId| self@.contains_key(d) implies exists|k: int|
                0 <= k < snapshot@.len() && #[trigger] snapshot@[k] == self@[d] by {
                let k = index_of(self.routes@, Self::key(), d);
                assert(snapshot@[k] == self@[d]);
            }
            assert forall|a: int, b: int| 0 <= a < b < snapshot@.len() implies (
            #[trigger] snapshot@[a]).destination != (#[trigger] snapshot@[b]).destination by {
                assert((Self::key())(self.routes@[a]) != (Self::key())(self.routes@[b]));
            }
        }
        snapshot
    }

    spec fn occurs(routes: Seq<RouteInfo>, route: RouteInfo, upto: int) -> bool {
        exists|j: int| 0 <= j < upto && j < routes.len() && #[trigger] routes[j] == route
    }

    spec fn place(routes: Seq<RouteInfo>, route: RouteInfo, upto: int) -> int {
        choose|j: int| 0 <= j < upto && j < routes.len() && #[trigger] routes[j] == route
    }

    proof fn lemma_swept(
        routes: Seq<RouteInfo>,
        kept: Seq<RouteInfo>,
        max_age: Duration,
        now: Timestamp,
    )
        requires
            distinct(routes, Self::key()),
            distinct(kept, Self::key()),
            forall|k: int|
                0 <= k < kept.len() ==> !(#[trigger] kept[k]).expired_at(max_age, now)
                    && Self::occurs(routes, kept[k], routes.len() as int),
            forall|j: int|
                0 <= j < routes.len() && !(#[trigger] routes[j]).expired_at(max_age, now)
                    ==> Self::occurs(kept, routes[j], kept.len() as int),
        ensures
            Self::table(kept) == Self::swept(Self::table(routes), max_age, now),
    {
        let before = Self::table(routes);
        let after = Self::table(kept);
        let target = Self::swept(before, max_age, now);
        assert forall|d: UserId| after.contains_key(d) implies target.contains_key(d) && target[d]
            == after[d] by {
            let k = index_of(kept, Self::key(), d);
            let j = Self::place(routes, kept[k], routes.len() as int);
            lemma_entry(routes, Self::key(), j);
        }
        assert forall|d: UserId| target.contains_key(d) implies after.contains_key(d) by {
            let j = index_of(routes, Self::key(), d);
            let k = Self::place(kept, routes[j], kept.len() as int);
            lemma_entry(kept, Self::key(), k);
        }
        assert(after =~= target);
    }

    /// Moves the routes out and leaves an empty table behind.
    fn take_routes(&mut self) -> (routes: Vec<RouteInfo>)
        ensures
            routes@ == old(self).routes@,
            final(self).routes@ == Seq::<RouteInfo>::empty(),
            final(self).max_age == old(self).max_age,
    {
        let mut routes: Vec<RouteInfo> = Vec::new();
        core::mem::swap(&mut self.routes, &mut routes);
        routes
    }
}

} // verus!
