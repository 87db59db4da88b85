use crate::routing::{LinkQuality, RouteInfo, RoutingEngine};
use crate::time::{Duration, Timestamp};
use crate::types::{PeerId, UserId};
use vstd::prelude::*;

verus! {

/// One offer of a route towards a destination: the arguments of a route
/// update other than the destination, and the time at which it is made.
pub struct Offer {
    pub next_hop: PeerId,
    pub hop_count: u8,
    pub link_quality: LinkQuality,
    pub at: Timestamp,
}

impl Offer {
    /// The route that entering this offer for `destination` puts in the table.
    pub open spec fn route(self, destination: UserId) -> RouteInfo {
        RouteInfo {
            destination,
            next_hop: self.next_hop,
            hop_count: self.hop_count,
            last_updated: self.at,
            link_quality: self.link_quality,
        }
    }

    /// Whether this offer is strictly better than `other`: fewer hops, or as
    /// many hops at a better link quality.
    pub open spec fn beats(self, other: Offer) -> bool {
        self.hop_count < other.hop_count || (self.hop_count == other.hop_count
            && self.link_quality.better_than(other.link_quality))
    }
}

/// The table after the offers were made for `destination` one after another.
pub open spec fn replay(
    table: Map<UserId, RouteInfo>,
    destination: UserId,
    offers: Seq<Offer>,
) -> Map<UserId, RouteInfo>
    decreases offers.len(),
{
    if offers.len() == 0 {
        table
    } else {
        let last = offers.last();
        RoutingEngine::updated(
            replay(table, destination, offers.drop_last()),
            destination,
            last.next_hop,
            last.hop_count,
            last.link_quality,
            last.at,
        )
    }
}

/// Whether `k` is the place of the best offer, and of the first such where
/// several are equally good: no offer beats it, and it beats every offer
/// made before it.
pub open spec fn is_first_best(offers: Seq<Offer>, k: int) -> bool {
    &&& 0 <= k < offers.len()
    &&& forall|j: int| 0 <= j < offers.len() ==> !(#[trigger] offers[j]).beats(offers[k])
    &&& forall|j: int| 0 <= j < k ==> offers[k].beats(#[trigger] offers[j])
}

/// The place at which a replay finds the offer it keeps.
pub open spec fn first_best(offers: Seq<Offer>) -> int
    decreases offers.len(),
{
    if offers.len() <= 1 {
        0
    } else {
        let k = first_best(offers.drop_last());
        if offers.last().beats(offers[k]) {
            offers.len() - 1
        } else {
            k
        }
    }
}

/// Whether every offer carries a link quality that is a number.
pub open spec fn all_numbers(offers: Seq<Offer>) -> bool {
    forall|j: int| 0 <= j < offers.len() ==> !(#[trigger] offers[j]).link_quality.is_nan()
}

/// An offer is entered, and its peer becomes the next hop, whenever the
/// table has no route for the destination or one that the offer strictly
/// improves on.
pub proof fn lemma_entered_offer_is_next_hop(
    table: Map<UserId, RouteInfo>,
    destination: UserId,
    next_hop: PeerId,
    hop_count: u8,
    link_quality: LinkQuality,
    now: Timestamp,
)
    requires
        !table.contains_key(destination) || table[destination].improved_by(
            hop_count,
            link_quality,
        ),
    ensures
        RoutingEngine::updated(
            table,
            destination,
            next_hop,
            hop_count,
            link_quality,
            now,
        ).contains_key(destination),
        RoutingEngine::updated(
            table,
            destination,
            next_hop,
            hop_count,
            link_quality,
            now,
        )[destination].next_hop == next_hop,
{
}

/// After any offer the table has a route for the destination, other
/// destinations keep theirs, and an offer that is no strict improvement
/// leaves the table as it was.
pub proof fn lemma_update_touches_one_destination(
    table: Map<UserId, RouteInfo>,
    destination: UserId,
    next_hop: PeerId,
    hop_count: u8,
    link_quality: LinkQuality,
    now: Timestamp,
)
    ensures
        ({
            let after = RoutingEngine::updated(
                table,
                destination,
                next_hop,
                hop_count,
                link_quality,
                now,
            );
            &&& after.contains_key(destination)
            &&& after.remove(destination) == table.remove(destination)
            &&& (table.contains_key(destination) && !table[destination].improved_by(
                hop_count,
                link_quality,
            ) ==> after == table)
        }),
{
    let after = RoutingEngine::updated(table, destination, next_hop, hop_count, link_quality, now);
    assert(after.remove(destination) =~= table.remove(destination));
}

/// A route whose age at `now` exceeds `max_age` is in the table before a
/// cleanup at `now` and gone after it.
pub proof fn lemma_cleanup_removes_aged(
    table: Map<UserId, RouteInfo>,
    destination: UserId,
    max_age: Duration,
    now: Timestamp,
)
    requires
        table.contains_key(destination),
        now.nanos() - table[destination].last_updated.nanos() > max_age.nanos(),
    ensures
        !RoutingEngine::swept(table, max_age, now).contains_key(destination),
{
}

/// A route that was updated after `now` stays through a cleanup at `now`,
/// whatever `max_age` is.
pub proof fn lemma_cleanup_keeps_later_stamped(
    table: Map<UserId, RouteInfo>,
    destination: UserId,
    max_age: Duration,
    now: Timestamp,
)
    requires
        table.contains_key(destination),
        table[destination].last_updated.nanos() >= now.nanos(),
    ensures
        RoutingEngine::swept(table, max_age, now).contains_key(destination),
        RoutingEngine::swept(table, max_age, now)[destination] == table[destination],
{
}

/// After a cleanup at `now` no route in the table is expired at `now`, and
/// every route that was not expired is still there, unchanged.
pub proof fn lemma_cleanup_leaves_the_fresh(
    table: Map<UserId, RouteInfo>,
    max_age: Duration,
    now: Timestamp,
)
    ensures
        forall|d: UserId| #[trigger]
            RoutingEngine::swept(table, max_age, now).contains_key(d) ==> table.contains_key(d)
                && RoutingEngine::swept(table, max_age, now)[d] == table[d]
                && !table[d].expired_at(max_age, now),
        forall|d: UserId|
            table.contains_key(d) && !(#[trigger] table[d]).expired_at(max_age, now)
                ==> RoutingEngine::swept(table, max_age, now).contains_key(d),
{
}

/// A replay changes no destination but the one the offers are for.
pub proof fn lemma_replay_touches_one_destination(
    table: Map<UserId, RouteInfo>,
    destination: UserId,
    offers: Seq<Offer>,
)
    ensures
        replay(table, destination, offers).remove(destination) == table.remove(destination),
    decreases offers.len(),
{
    if offers.len() > 0 {
        let last = offers.last();
        let before = replay(table, destination, offers.drop_last());
        lemma_replay_touches_one_destination(table, destination, offers.drop_last());
        lemma_update_touches_one_destination(
            before,
            destination,
            last.next_hop,
            last.hop_count,
            last.link_quality,
            last.at,
        );
    }
}

/// Replaying offers for a destination that the table has no route for
/// leaves the route of the best offer: the one with the fewest hops and,
/// among those, the best link quality; where several are equally good, the
/// one made first. The link qualities must all be numbers.
pub proof fn lemma_replay_keeps_first_best(
    table: Map<UserId, RouteInfo>,
    destination: UserId,
    offers: Seq<Offer>,
)
    requires
        !table.contains_key(destination),
        offers.len() > 0,
        all_numbers(offers),
    ensures
        is_first_best(offers, first_best(offers)),
        replay(table, destination, offers).contains_key(destination),
        replay(table, destination, offers)[destination] == offers[first_best(offers)].route(
            destination,
        ),
    decreases offers.len(),
{
    let last = offers.last();
    let earlier = offers.drop_last();
    if offers.len() == 1 {
        assert(earlier.len() == 0);
        assert(replay(table, destination, earlier) == table);
    } else {
        lemma_replay_keeps_first_best(table, destination, earlier);
        let k = first_best(earlier);
        assert(earlier[k] == offers[k]);
        assert forall|j: int| 0 <= j < earlier.len() implies !(#[trigger] offers[j]).beats(
            offers[k],
        ) by {
            assert(offers[j] == earlier[j]);
        }
        assert forall|j: int| 0 <= j < k implies offers[k].beats(#[trigger] offers[j]) by {
            assert(offers[j] == earlier[j]);
        }
        if last.beats(offers[k]) {
            assert forall|j: int| 0 <= j < offers.len() implies !(#[trigger] offers[j]).beats(
                last,
            ) by {
                if j < earlier.len() {
                    assert(!offers[j].beats(offers[k]));
                }
            }
            assert forall|j: int| 0 <= j < offers.len() - 1 implies last.beats(
                #[trigger] offers[j],
            ) by {
                assert(!offers[j].beats(offers[k]));
                assert(!offers[j].link_quality.is_nan());
                assert(!offers[k].link_quality.is_nan());
                assert(!last.link_quality.is_nan());
            }
        }
    }
}

/// Replaying offers for a destination that the table already has a route
/// for: the route stays where no offer strictly improves on it; otherwise
/// the first of the best offers replaces it. The link qualities, that of
/// the route included, must all be numbers.
pub proof fn lemma_replay_over_existing_route(
    table: Map<UserId, RouteInfo>,
    destination: UserId,
    offers: Seq<Offer>,
)
    requires
        table.contains_key(destination),
        !table[destination].link_quality.is_nan(),
        all_numbers(offers),
    ensures
        replay(table, destination, offers).contains_key(destination),
        (forall|j: int|
            0 <= j < offers.len() ==> !table[destination].improved_by(
                (#[trigger] offers[j]).hop_count,
                offers[j].link_quality,
            )) ==> replay(table, destination, offers) == table,
        (exists|j: int|
            0 <= j < offers.len() && table[destination].improved_by(
                (#[trigger] offers[j]).hop_count,
                offers[j].link_quality,
            )) ==> is_first_best(offers, first_best(offers)) && replay(
            table,
            destination,
            offers,
        )[destination] == offers[first_best(offers)].route(destination),
    decreases offers.len(),
{
    let held = table[destination];
    if offers.len() > 0 {
        let last = offers.last();
        let earlier = offers.drop_last();
        let before = replay(table, destination, earlier);
        lemma_replay_over_existing_route(table, destination, earlier);
        assert forall|j: int| 0 <= j < earlier.len() implies earlier[j] == offers[j] by {}
        let some_earlier = exists|j: int|
            0 <= j < earlier.len() && held.improved_by(
                (#[trigger] earlier[j]).hop_count,
                earlier[j].link_quality,
            );
        if some_earlier {
            let w = choose|j: int|
                0 <= j < earlier.len() && held.improved_by(
                    (#[trigger] earlier[j]).hop_count,
                    earlier[j].link_quality,
                );
            assert(held.improved_by(offers[w].hop_count, offers[w].link_quality));
            let k = first_best(earlier);
            assert(earlier[k] == offers[k]);
            assert(is_first_best(earlier, k));
            if offers.len() == 1 {
                assert(false);
            }
            if last.beats(offers[k]) {
                assert forall|j: int| 0 <= j < offers.len() implies !(
                #[trigger] offers[j]).beats(last) by {
                    if j < earlier.len() {
                        assert(!earlier[j].beats(earlier[k]));
                    }
                }
                assert forall|j: int| 0 <= j < offers.len() - 1 implies last.beats(
                    #[trigger] offers[j],
                ) by {
                    assert(!earlier[j].beats(earlier[k]));
                    assert(!offers[j].link_quality.is_nan());
                    assert(!offers[k].link_quality.is_nan());
                    assert(!last.link_quality.is_nan());
                }
            } else {
                assert forall|j: int| 0 <= j < offers.len() implies !(
                #[trigger] offers[j]).beats(offers[k]) by {
                    if j < earlier.len() {
                        assert(!earlier[j].beats(earlier[k]));
                    }
                }
                assert forall|j: int| 0 <= j < k implies offers[k].beats(#[trigger] offers[j]) by {
                    assert(earlier[k].beats(earlier[j]));
                }
            }
        } else {
            assert forall|j: int| 0 <= j < earlier.len() implies !held.improved_by(
                (#[trigger] earlier[j]).hop_count,
                earlier[j].link_quality,
            ) by {}
            assert(before == table);
            if held.improved_by(last.hop_count, last.link_quality) {
                lemma_first_best_is_last(offers, held);
            } else {
                assert forall|j: int| 0 <= j < offers.len() implies !held.improved_by(
                    (#[trigger] offers[j]).hop_count,
                    offers[j].link_quality,
                ) by {
                    if j < earlier.len() {
                        assert(offers[j] == earlier[j]);
                    }
                }
            }
        }
    }
}

/// Where only the last offer improves on a route, the last offer is the
/// first best of them all.
proof fn lemma_first_best_is_last(offers: Seq<Offer>, held: RouteInfo)
    requires
        offers.len() > 0,
        all_numbers(offers),
        !held.link_quality.is_nan(),
        held.improved_by(offers.last().hop_count, offers.last().link_quality),
        forall|j: int|
            0 <= j < offers.len() - 1 ==> !held.improved_by(
                (#[trigger] offers[j]).hop_count,
                offers[j].link_quality,
            ),
    ensures
        first_best(offers) == offers.len() - 1,
        is_first_best(offers, offers.len() - 1),
{
    let last = offers.last();
    assert forall|j: int| 0 <= j < offers.len() - 1 implies last.beats(#[trigger] offers[j]) by {
        assert(!held.improved_by(offers[j].hop_count, offers[j].link_quality));
        assert(!offers[j].link_quality.is_nan());
        assert(!last.link_quality.is_nan());
    }
    if offers.len() > 1 {
        let earlier = offers.drop_last();
        let k = first_best(earlier);
        lemma_first_best_in_range(earlier);
        assert(earlier[k] == offers[k]);
        assert(last.beats(offers[k]));
    }
}

/// The first best of a sequence with offers in it is the place of one.
proof fn lemma_first_best_in_range(offers: Seq<Offer>)
    requires
        offers.len() > 0,
    ensures
        0 <= first_best(offers) < offers.len(),
    decreases offers.len(),
{
    if offers.len() > 1 {
        lemma_first_best_in_range(offers.drop_last());
    }
}

} // verus!
