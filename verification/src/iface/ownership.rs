//! What becomes of the slots of a routing table when its routes are edited or
//! reconciled with learned ones.

use vstd::prelude::*;
use crate::config::IFACE_MAX_ROUTE_COUNT;
use crate::iface::route::{
    added, asked_while_room, chosen, configured_count, configured_has, first_route_to, has_route_to, identity_unique,
    identities_distinct, is_first_to, kept, learned_as, learned_has, learned_part, learned_room,
    offers, rebuilt, reconciled, refreshed, routes_of, valid_slots, with_route, without_route_to,
    Identity, Learned, LearnedRoute, Route, Slot,
};

verus! {

/// Whether every two candidates have distinct identities.
pub open spec fn candidates_distinct(candidates: Seq<Option<LearnedRoute>>) -> bool {
    forall|a: int, b: int|
        0 <= a < b < candidates.len() && candidates[a] is Some && candidates[b] is Some ==> (
        #[trigger] candidates[a])->0.identity() != (#[trigger] candidates[b])->0.identity()
}

/// Whether the routes can become the learned routes of a table with these
/// slots.
pub(crate) open spec fn can_join(slots: Seq<Slot>, cs: Seq<LearnedRoute>) -> bool {
    &&& identities_distinct(cs)
    &&& cs.len() + configured_count(slots) <= IFACE_MAX_ROUTE_COUNT
    &&& forall|k: int| 0 <= k < cs.len() ==> !configured_has(slots, (#[trigger] cs[k]).identity())
}

/// There are no more configured slots than slots.
pub(crate) proof fn lemma_configured_count(slots: Seq<Slot>)
    ensures
        configured_count(slots) <= slots.len(),
    decreases slots.len(),
{
    if slots.len() > 0 {
        lemma_configured_count(slots.drop_last());
    }
}

/// The chosen candidates can become the learned routes.
pub(crate) proof fn lemma_chosen(slots: Seq<Slot>, candidates: Seq<Option<LearnedRoute>>, room: nat)
    requires
        candidates_distinct(candidates),
    ensures
        chosen(slots, candidates, room).len() <= room,
        identities_distinct(chosen(slots, candidates, room)),
        forall|k: int|
            0 <= k < chosen(slots, candidates, room).len() ==> !configured_has(
                slots,
                (#[trigger] chosen(slots, candidates, room)[k]).identity(),
            ) && candidates.contains(Some(chosen(slots, candidates, room)[k])),
    decreases candidates.len(),
{
    let cs = chosen(slots, candidates, room);
    if candidates.len() > 0 {
        let first = candidates.drop_last();
        let rest = chosen(slots, first, room);
        lemma_chosen(slots, first, room);
        assert forall|k: int| 0 <= k < cs.len() implies !configured_has(
            slots,
            (#[trigger] cs[k]).identity(),
        ) && candidates.contains(Some(cs[k])) by {
            if k < rest.len() {
                assert(cs[k] == rest[k]);
                let i = choose|i: int| 0 <= i < first.len() && first[i] == Some(rest[k]);
                assert(candidates[i] == Some(cs[k]));
            } else {
                assert(candidates[candidates.len() - 1] == Some(cs[k]));
            }
        }
        assert forall|i: int, j: int| 0 <= i < j < cs.len() implies (#[trigger] cs[i]).identity()
            != (#[trigger] cs[j]).identity() by {
            assert(cs[i] == rest[i]);
            if j < rest.len() {
                assert(cs[j] == rest[j]);
            } else {
                let m = choose|m: int| 0 <= m < first.len() && first[m] == Some(rest[i]);
                assert(candidates[m] == Some(cs[i]));
                assert(candidates[candidates.len() - 1] == Some(cs[j]));
            }
        }
    }
}

/// A slot is learned if its route is one that was learned.
pub(crate) proof fn lemma_learned_slot(slots: Seq<Slot>, j: int)
    requires
        valid_slots(slots),
        0 <= j < slots.len(),
    ensures
        learned_part(slots, slots[j].route) == slots[j].learned,
{
    if let Some(l) = slots[j].learned {
        assert(learned_as(slots, slots[j].route, l));
    }
    assert forall|l: Learned| learned_as(slots, slots[j].route, l) implies slots[j].learned
        == Some(l) by {
        let i = choose|i: int|
            0 <= i < slots.len() && (#[trigger] slots[i]).route == slots[j].route
                && slots[i].learned == Some(l);
        assert(i == j);
    }
}

/// A table can hold the first of the slots that it can hold.
pub(crate) proof fn lemma_prefix_valid(slots: Seq<Slot>, n: int)
    requires
        valid_slots(slots),
        0 <= n <= slots.len(),
    ensures
        valid_slots(slots.take(n)),
{
    let some = slots.take(n);
    assert forall|i: int| 0 <= i < some.len() && (#[trigger] some[i]).learned is Some implies {
        &&& some[i].route.identity() is Some
        &&& some[i].route.preferred_until is None
        &&& forall|j: int|
            0 <= j < some.len() && j != i ==> (#[trigger] some[j]).route.identity()
                != some[i].route.identity()
    } by {
        assert(some[i] == slots[i]);
        assert forall|j: int| 0 <= j < some.len() && j != i implies (
        #[trigger] some[j]).route.identity() != some[i].route.identity() by {
            assert(some[j] == slots[j]);
        }
    }
}

/// After an edit by the application, the table can hold the slots.
pub(crate) proof fn lemma_rebuilt_valid(slots: Seq<Slot>, routes: Seq<Route>)
    requires
        valid_slots(slots),
        routes.len() <= IFACE_MAX_ROUTE_COUNT,
    ensures
        valid_slots(rebuilt(slots, routes)),
{
    let after = rebuilt(slots, routes);
    assert forall|i: int| 0 <= i < after.len() && (#[trigger] after[i]).learned is Some implies {
        &&& after[i].route.identity() is Some
        &&& after[i].route.preferred_until is None
        &&& forall|j: int|
            0 <= j < after.len() && j != i ==> (#[trigger] after[j]).route.identity()
                != after[i].route.identity()
    } by {
        let l = choose|l: Learned| learned_as(slots, routes[i], l);
        assert(learned_as(slots, routes[i], l));
        let m = choose|m: int|
            0 <= m < slots.len() && (#[trigger] slots[m]).route == routes[i] && slots[m].learned
                == Some(l);
        assert(slots[m].route == routes[i]);
        assert forall|j: int| 0 <= j < after.len() && j != i implies (
        #[trigger] after[j]).route.identity() != after[i].route.identity() by {
            assert(after[j].route == routes[j]);
        }
    }
}

/// What the slots that stay are: configured ones, and chosen ones that were in
/// the table before. Each of the latter stands for another chosen route; the
/// result holds their positions.
proof fn lemma_kept(slots: Seq<Slot>, cs: Seq<LearnedRoute>) -> (hits: Set<int>)
    requires
        valid_slots(slots),
        identities_distinct(cs),
    ensures
        hits.finite(),
        kept(slots, cs).len() == configured_count(slots) + hits.len(),
        forall|m: int| #[trigger]
            hits.contains(m) ==> 0 <= m < cs.len() && learned_has(slots, cs[m].identity()),
        forall|m: int|
            0 <= m < cs.len() && learned_has(slots, (#[trigger] cs[m]).identity())
                ==> hits.contains(m),
        forall|x: int|
            0 <= x < kept(slots, cs).len() ==> {
                let t = #[trigger] kept(slots, cs)[x];
                ||| t.learned is None && slots.contains(t)
                ||| exists|m: int| #[trigger]
                    hits.contains(m) && t == cs[m].slot()
            },
        forall|x: int, y: int|
            0 <= x < y < kept(slots, cs).len() && (kept(slots, cs)[x].learned is Some && kept(
                slots,
                cs,
            )[y].learned is Some) ==> #[trigger] kept(slots, cs)[x].route.identity()
                != #[trigger] kept(slots, cs)[y].route.identity(),
    decreases slots.len(),
{
    if slots.len() == 0 {
        Set::empty()
    } else {
        let first = slots.drop_last();
        let s = slots.last();
        assert(first =~= slots.take(slots.len() - 1));
        lemma_prefix_valid(slots, slots.len() - 1);
        let before = lemma_kept(first, cs);
        let rest = kept(first, cs);
        let all = kept(slots, cs);
        assert(slots[slots.len() - 1] == s);
        assert forall|m: int| #[trigger] before.contains(m) implies learned_has(
            slots,
            cs[m].identity(),
        ) by {
            let i = choose|i: int|
                0 <= i < first.len() && (#[trigger] first[i]).learned is Some
                    && first[i].route.identity() == Some(cs[m].identity());
            assert(slots[i] == first[i]);
        }
        assert forall|t: Slot| first.contains(t) implies slots.contains(t) by {
            let i = choose|i: int| 0 <= i < first.len() && first[i] == t;
            assert(slots[i] == t);
        }
        assert forall|m: int|
            0 <= m < cs.len() && learned_has(
                slots,
                (#[trigger] cs[m]).identity(),
            ) implies s.learned is Some && s.route.identity() == Some(cs[m].identity())
            || before.contains(m) by {
            let i = choose|i: int|
                0 <= i < slots.len() && (#[trigger] slots[i]).learned is Some
                    && slots[i].route.identity() == Some(cs[m].identity());
            if i < first.len() {
                assert(first[i] == slots[i]);
                assert(learned_has(first, cs[m].identity()));
            }
        }
        if s.learned is None {
            assert(all == rest.push(s));
            assert forall|x: int| 0 <= x < all.len() implies {
                let t = #[trigger] all[x];
                ||| t.learned is None && slots.contains(t)
                ||| exists|m: int| #[trigger] before.contains(m) && t == cs[m].slot()
            } by {
                if x < rest.len() {
                    assert(all[x] == rest[x]);
                }
            }
            assert forall|x: int, y: int|
                0 <= x < y < all.len() && (all[x].learned is Some
                    && all[y].learned is Some) implies #[trigger] all[x].route.identity()
                != #[trigger] all[y].route.identity() by {
                assert(all[x] == rest[x] && all[y] == rest[y]);
            }
            before
        } else {
            let id = s.route.identity()->0;
            if offers(cs, id) {
                let m = choose|m: int| 0 <= m < cs.len() && (#[trigger] cs[m]).identity() == id;
                let hits = before.insert(m);
                assert(all == rest.push(cs[m].slot()));
                assert(!before.contains(m)) by {
                    if before.contains(m) {
                        let i = choose|i: int|
                            0 <= i < first.len() && (#[trigger] first[i]).learned is Some
                                && first[i].route.identity() == Some(cs[m].identity());
                        assert(slots[i] == first[i]);
                    }
                }
                assert(learned_has(slots, cs[m].identity()));
                assert(hits.contains(m));
                assert forall|x: int| 0 <= x < all.len() implies {
                    let t = #[trigger] all[x];
                    ||| t.learned is None && slots.contains(t)
                    ||| exists|m: int| #[trigger] hits.contains(m) && t == cs[m].slot()
                } by {
                    if x < rest.len() {
                        assert(all[x] == rest[x]);
                        if !(rest[x].learned is None && first.contains(rest[x])) {
                            let n = choose|n: int| #[trigger]
                                before.contains(n) && rest[x] == cs[n].slot();
                            assert(hits.contains(n));
                        }
                    }
                }
                assert forall|x: int, y: int|
                    0 <= x < y < all.len() && (all[x].learned is Some
                        && all[y].learned is Some) implies #[trigger] all[x].route.identity()
                    != #[trigger] all[y].route.identity() by {
                    assert(all[x] == rest[x]);
                    if y < rest.len() {
                        assert(all[y] == rest[y]);
                    } else {
                        let n = choose|n: int| #[trigger]
                            before.contains(n) && rest[x] == cs[n].slot();
                        assert(before.contains(n));
                        assert(n != m);
                        if n < m {
                            assert(cs[n].identity() != cs[m].identity());
                        } else {
                            assert(cs[m].identity() != cs[n].identity());
                        }
                    }
                }
                hits
            } else {
                assert(all == rest);
                before
            }
        }
    }
}

/// Whether the slot is that of a route at one of the positions.
spec fn stands_for(positions: Set<int>, cs: Seq<LearnedRoute>, t: Slot) -> bool {
    exists|m: int| #[trigger] positions.contains(m) && t == cs[m].slot()
}

/// What the slots that are new are: chosen routes that were not in the table
/// before. The result holds their positions.
proof fn lemma_added(slots: Seq<Slot>, cs: Seq<LearnedRoute>) -> (fresh: Set<int>)
    requires
        identities_distinct(cs),
    ensures
        fresh.finite(),
        added(slots, cs).len() == fresh.len(),
        forall|m: int| #[trigger]
            fresh.contains(m) ==> 0 <= m < cs.len() && !learned_has(slots, cs[m].identity()),
        forall|m: int|
            0 <= m < cs.len() && !learned_has(slots, (#[trigger] cs[m]).identity())
                ==> fresh.contains(m),
        forall|x: int|
            0 <= x < added(slots, cs).len() ==> stands_for(
                fresh,
                cs,
                #[trigger] added(slots, cs)[x],
            ),
        forall|x: int, y: int|
            0 <= x < y < added(slots, cs).len() ==> #[trigger] added(
                slots,
                cs,
            )[x].route.identity() != #[trigger] added(slots, cs)[y].route.identity(),
    decreases cs.len(),
{
    if cs.len() == 0 {
        Set::empty()
    } else {
        let first = cs.drop_last();
        let before = lemma_added(slots, first);
        let rest = added(slots, first);
        let all = added(slots, cs);
        let m = cs.len() - 1;
        assert forall|n: int|
            0 <= n < m && !learned_has(
                slots,
                (#[trigger] cs[n]).identity(),
            ) implies before.contains(n) by {
            assert(first[n] == cs[n]);
        }
        if learned_has(slots, cs.last().identity()) {
            assert forall|x: int| 0 <= x < all.len() implies stands_for(
                before,
                cs,
                #[trigger] all[x],
            ) by {
                assert(stands_for(before, first, rest[x]));
                let n = choose|n: int| #[trigger] before.contains(n) && rest[x] == first[n].slot();
                assert(before.contains(n) && all[x] == cs[n].slot());
            }
            before
        } else {
            let fresh = before.insert(m);
            assert(all == rest.push(cs[m].slot()));
            assert forall|x: int| 0 <= x < all.len() implies stands_for(
                fresh,
                cs,
                #[trigger] all[x],
            ) by {
                if x < rest.len() {
                    assert(stands_for(before, first, rest[x]));
                    let n = choose|n: int| #[trigger]
                        before.contains(n) && rest[x] == first[n].slot();
                    assert(fresh.contains(n) && all[x] == cs[n].slot());
                } else {
                    assert(fresh.contains(m));
                }
            }
            assert forall|x: int, y: int| 0 <= x < y < all.len() implies #[trigger] all[x].route.identity()
                != #[trigger] all[y].route.identity() by {
                assert(all[x] == rest[x]);
                if y < rest.len() {
                    assert(all[y] == rest[y]);
                } else {
                    assert(stands_for(before, first, rest[x]));
                    let n = choose|n: int| #[trigger]
                        before.contains(n) && rest[x] == first[n].slot();
                    assert(cs[n].identity() != cs[m].identity());
                }
            }
            fresh
        }
    }
}

/// A table that was reconciled holds its configured routes and the chosen ones.
pub(crate) proof fn lemma_reconciled_len(slots: Seq<Slot>, cs: Seq<LearnedRoute>)
    requires
        valid_slots(slots),
        identities_distinct(cs),
    ensures
        (kept(slots, cs) + added(slots, cs)).len() == configured_count(slots) + cs.len(),
{
    let hits = lemma_kept(slots, cs);
    let fresh = lemma_added(slots, cs);
    assert(hits.disjoint(fresh));
    vstd::set_lib::lemma_set_disjoint_lens(hits, fresh);
    let range = vstd::set_lib::set_int_range(0, cs.len() as int);
    vstd::set_lib::lemma_int_range(0, cs.len() as int);
    assert forall|m: int| range.contains(m) <==> hits.union(fresh).contains(m) by {
        if range.contains(m) {
            let _ = cs[m].identity();
            assert(learned_has(slots, cs[m].identity()) || !learned_has(slots, cs[m].identity()));
        }
    }
    assert(range =~= hits.union(fresh));
}

/// The number of configured slots grows with the slots.
proof fn lemma_configured_prefix(slots: Seq<Slot>, n: int)
    requires
        0 <= n <= slots.len(),
    ensures
        configured_count(slots.take(n)) <= configured_count(slots),
    decreases slots.len(),
{
    if n == slots.len() {
        assert(slots.take(n) =~= slots);
    } else {
        assert(slots.drop_last().take(n) =~= slots.take(n));
        lemma_configured_prefix(slots.drop_last(), n);
    }
}

/// A table can hold what the first slots and the first of the chosen routes
/// make.
pub(crate) proof fn lemma_joined_valid(slots: Seq<Slot>, cs: Seq<LearnedRoute>, j: int, k: int)
    requires
        valid_slots(slots),
        can_join(slots, cs),
        0 <= j <= slots.len(),
        0 <= k <= cs.len(),
    ensures
        valid_slots(kept(slots.take(j), cs) + added(slots, cs.take(k))),
{
    let some = slots.take(j);
    let part = cs.take(k);
    let a = kept(some, cs);
    let b = added(slots, part);
    let all = a + b;
    lemma_prefix_valid(slots, j);
    let hits = lemma_kept(some, cs);
    let fresh = lemma_added(slots, part);
    assert forall|m: int| #[trigger] hits.contains(m) implies learned_has(
        slots,
        cs[m].identity(),
    ) by {
        let i = choose|i: int|
            0 <= i < some.len() && (#[trigger] some[i]).learned is Some && some[i].route.identity()
                == Some(cs[m].identity());
        assert(slots[i] == some[i]);
    }
    // No more are learned than were chosen.
    assert(hits.disjoint(fresh)) by {
        assert forall|m: int| !(hits.contains(m) && fresh.contains(m)) by {
            if hits.contains(m) && fresh.contains(m) {
                assert(part[m] == cs[m]);
            }
        }
    }
    vstd::set_lib::lemma_set_disjoint_lens(hits, fresh);
    let range = vstd::set_lib::set_int_range(0, cs.len() as int);
    vstd::set_lib::lemma_int_range(0, cs.len() as int);
    assert(hits.union(fresh).subset_of(range));
    vstd::set_lib::lemma_len_subset(hits.union(fresh), range);
    lemma_configured_prefix(slots, j);
    assert(all.len() <= IFACE_MAX_ROUTE_COUNT);
    // A configured slot that stays has no chosen identity.
    assert forall|x: int, m: int|
        0 <= x < a.len() && a[x].learned is None && 0 <= m < cs.len() implies #[trigger] a[x].route.identity()
        != Some(#[trigger] cs[m].identity()) by {
        let t = a[x];
        if some.contains(t) {
            let i = choose|i: int| 0 <= i < some.len() && some[i] == t;
            assert(slots[i] == t);
            assert(!configured_has(slots, cs[m].identity()));
        } else {
            let n = choose|n: int| #[trigger] hits.contains(n) && t == cs[n].slot();
            assert(false);
        }
    }
    assert forall|x: int, y: int| 0 <= x < y < all.len() && (all[x].learned is Some
        || all[y].learned is Some) implies #[trigger] all[x].route.identity()
        != #[trigger] all[y].route.identity() by {
        if y < a.len() {
            assert(all[x] == a[x] && all[y] == a[y]);
            if a[x].learned is Some && a[y].learned is Some {
            } else if a[x].learned is Some {
                let m = choose|m: int| #[trigger] hits.contains(m) && a[x] == cs[m].slot();
                assert(a[y].route.identity() != Some(cs[m].identity()));
            } else {
                let m = choose|m: int| #[trigger] hits.contains(m) && a[y] == cs[m].slot();
                assert(a[x].route.identity() != Some(cs[m].identity()));
            }
        } else {
            let v = y - a.len();
            assert(all[y] == b[v]);
            assert(stands_for(fresh, part, b[v]));
            let m = choose|m: int| #[trigger] fresh.contains(m) && b[v] == part[m].slot();
            assert(part[m] == cs[m]);
            if x < a.len() {
                assert(all[x] == a[x]);
                if a[x].learned is Some {
                    let n = choose|n: int| #[trigger] hits.contains(n) && a[x] == cs[n].slot();
                    assert(hits.contains(n));
                } else {
                    assert(a[x].route.identity() != Some(cs[m].identity()));
                }
            } else {
                assert(all[x] == b[x - a.len()]);
                let _ = b[x - a.len()].route.identity();
                let _ = b[v].route.identity();
            }
        }
    }
    assert forall|i: int| 0 <= i < all.len() && (#[trigger] all[i]).learned is Some implies {
        &&& all[i].route.identity() is Some
        &&& all[i].route.preferred_until is None
        &&& forall|j: int|
            0 <= j < all.len() && j != i ==> (#[trigger] all[j]).route.identity()
                != all[i].route.identity()
    } by {
        if i < a.len() {
            assert(all[i] == a[i]);
            let m = choose|m: int| #[trigger] hits.contains(m) && a[i] == cs[m].slot();
            assert(hits.contains(m));
        } else {
            assert(all[i] == b[i - a.len()]);
            assert(stands_for(fresh, part, b[i - a.len()]));
            let m = choose|m: int| #[trigger]
                fresh.contains(m) && b[i - a.len()] == part[m].slot();
            assert(fresh.contains(m));
        }
        assert forall|j: int| 0 <= j < all.len() && j != i implies (
        #[trigger] all[j]).route.identity() != all[i].route.identity() by {
            if j < i {
                assert(all[j].route.identity() != all[i].route.identity());
            } else {
                assert(all[i].route.identity() != all[j].route.identity());
            }
        }
    }
}

/// The configured slots, in their order.
pub open spec fn configured_slots(slots: Seq<Slot>) -> Seq<Slot> {
    slots.filter(|s: Slot| s.learned is None)
}

/// Reconciling never adds, removes, changes or reorders a configured route.
pub proof fn law_reconcile_keeps_configured(
    slots: Seq<Slot>,
    candidates: Seq<Option<LearnedRoute>>,
)
    ensures
        configured_slots(reconciled(slots, candidates)) == configured_slots(slots),
{
    let cs = chosen(slots, candidates, learned_room(slots));
    let f = |s: Slot| s.learned is None;
    lemma_kept_configured(slots, cs);
    lemma_added_configured(slots, cs);
    Seq::filter_distributes_over_add(kept(slots, cs), added(slots, cs), f);
    assert(configured_slots(slots) + Seq::<Slot>::empty() =~= configured_slots(slots));
}

proof fn lemma_kept_configured(slots: Seq<Slot>, cs: Seq<LearnedRoute>)
    ensures
        configured_slots(kept(slots, cs)) == configured_slots(slots),
    decreases slots.len(),
{
    reveal(Seq::filter);
    if slots.len() > 0 {
        lemma_kept_configured(slots.drop_last(), cs);
        let rest = kept(slots.drop_last(), cs);
        if let Some(t) = refreshed(slots.last(), cs) {
            assert(rest.push(t).drop_last() =~= rest);
        }
    }
}

proof fn lemma_added_configured(slots: Seq<Slot>, cs: Seq<LearnedRoute>)
    ensures
        configured_slots(added(slots, cs)) == Seq::<Slot>::empty(),
    decreases cs.len(),
{
    reveal(Seq::filter);
    if cs.len() > 0 {
        lemma_added_configured(slots, cs.drop_last());
        let rest = added(slots, cs.drop_last());
        assert(rest.push(cs.last().slot()).drop_last() =~= rest);
    }
}

/// A reconciled table is one that a table can be: among other things, it does
/// not hold too many routes.
pub proof fn law_reconciled_is_valid(slots: Seq<Slot>, candidates: Seq<Option<LearnedRoute>>)
    requires
        valid_slots(slots),
        candidates_distinct(candidates),
    ensures
        valid_slots(reconciled(slots, candidates)),
{
    let cs = chosen(slots, candidates, learned_room(slots));
    lemma_configured_count(slots);
    lemma_chosen(slots, candidates, learned_room(slots));
    lemma_joined_valid(slots, cs, slots.len() as int, cs.len() as int);
    assert(slots.take(slots.len() as int) =~= slots);
    assert(cs.take(cs.len() as int) =~= cs);
}

/// The learned routes of a reconciled table are exactly the chosen candidates.
/// In particular, a route that is no longer a candidate has left the table.
pub proof fn law_reconciled_learned_are_chosen(
    slots: Seq<Slot>,
    candidates: Seq<Option<LearnedRoute>>,
    t: Slot,
)
    requires
        valid_slots(slots),
        candidates_distinct(candidates),
        t.learned is Some,
    ensures
        reconciled(slots, candidates).contains(t) <==> exists|c: LearnedRoute| #[trigger]
            chosen(slots, candidates, learned_room(slots)).contains(c) && t == c.slot(),
{
    let cs = chosen(slots, candidates, learned_room(slots));
    lemma_chosen(slots, candidates, learned_room(slots));
    let hits = lemma_kept(slots, cs);
    let fresh = lemma_added(slots, cs);
    let a = kept(slots, cs);
    let b = added(slots, cs);
    let all = a + b;
    if all.contains(t) {
        let x = choose|x: int| 0 <= x < all.len() && all[x] == t;
        let m = if x < a.len() {
            assert(a[x] == t);
            choose|m: int| #[trigger] hits.contains(m) && t == cs[m].slot()
        } else {
            assert(b[x - a.len()] == t);
            assert(stands_for(fresh, cs, t));
            choose|m: int| #[trigger] fresh.contains(m) && t == cs[m].slot()
        };
        assert(cs.contains(cs[m]));
    }
    if exists|c: LearnedRoute| #[trigger] cs.contains(c) && t == c.slot() {
        let c = choose|c: LearnedRoute| #[trigger] cs.contains(c) && t == c.slot();
        let m = choose|m: int| 0 <= m < cs.len() && cs[m] == c;
        if learned_has(slots, c.identity()) {
            lemma_kept_has(slots, cs, m);
            let x = choose|x: int| 0 <= x < a.len() && a[x] == t;
            assert(all[x] == t);
        } else {
            lemma_added_has(slots, cs, m);
            let x = choose|x: int| 0 <= x < b.len() && b[x] == t;
            assert(all[a.len() + x] == t);
        }
    }
}

/// A chosen route that was in the table stays.
proof fn lemma_kept_has(slots: Seq<Slot>, cs: Seq<LearnedRoute>, m: int)
    requires
        valid_slots(slots),
        identities_distinct(cs),
        0 <= m < cs.len(),
        learned_has(slots, cs[m].identity()),
    ensures
        kept(slots, cs).contains(cs[m].slot()),
    decreases slots.len(),
{
    let first = slots.drop_last();
    assert(first =~= slots.take(slots.len() - 1));
    lemma_prefix_valid(slots, slots.len() - 1);
    let i = choose|i: int|
        0 <= i < slots.len() && (#[trigger] slots[i]).learned is Some && slots[i].route.identity()
            == Some(cs[m].identity());
    let all = kept(slots, cs);
    if i == slots.len() - 1 {
        let id = cs[m].identity();
        assert(cs[m].identity() == id);
        let n = choose|n: int| 0 <= n < cs.len() && (#[trigger] cs[n]).identity() == id;
        assert(n == m);
        assert(all.last() == cs[m].slot());
    } else {
        assert(first[i] == slots[i]);
        lemma_kept_has(first, cs, m);
        let rest = kept(first, cs);
        let x = choose|x: int| 0 <= x < rest.len() && rest[x] == cs[m].slot();
        assert(all[x] == rest[x]);
    }
}

/// A chosen route that was not in the table is added.
proof fn lemma_added_has(slots: Seq<Slot>, cs: Seq<LearnedRoute>, m: int)
    requires
        0 <= m < cs.len(),
        !learned_has(slots, cs[m].identity()),
    ensures
        added(slots, cs).contains(cs[m].slot()),
    decreases cs.len(),
{
    let first = cs.drop_last();
    let all = added(slots, cs);
    if m == cs.len() - 1 {
        assert(all.last() == cs[m].slot());
    } else {
        assert(first[m] == cs[m]);
        lemma_added_has(slots, first, m);
        let rest = added(slots, first);
        let x = choose|x: int| 0 <= x < rest.len() && rest[x] == cs[m].slot();
        assert(all[x] == rest[x]);
    }
}

/// Editing the routes without changing any of them changes no ownership.
pub proof fn law_rebuilding_unchanged_routes(slots: Seq<Slot>)
    requires
        valid_slots(slots),
    ensures
        rebuilt(slots, routes_of(slots)) == slots,
{
    let routes = routes_of(slots);
    let after = rebuilt(slots, routes);
    assert forall|j: int| 0 <= j < slots.len() implies after[j] == slots[j] by {
        lemma_learned_slot(slots, j);
        if slots[j].learned is Some {
            assert(identity_unique(routes, j)) by {
                assert forall|i: int| 0 <= i < routes.len() && i != j implies (
                #[trigger] routes[i]).identity() != routes[j].identity() by {
                    assert(routes[i] == slots[i].route);
                }
            }
        }
    }
    assert(after =~= slots);
}

/// A route that an application appends is configured. It leaves the ownership
/// of every slot of another prefix or router as it was.
pub proof fn law_appended_route_is_configured(slots: Seq<Slot>, route: Route)
    requires
        valid_slots(slots),
    ensures
        with_route(slots, route).len() == slots.len() + 1,
        with_route(slots, route).last() == (Slot { route, learned: None }),
        forall|j: int|
            0 <= j < slots.len() && slots[j].route.identity() != route.identity()
                ==> #[trigger] with_route(slots, route)[j] == slots[j],
{
    let routes = routes_of(slots).push(route);
    let after = with_route(slots, route);
    let n = slots.len() as int;
    assert(routes[n] == route);
    assert(after[n].learned is None) by {
        if exists|l: Learned| learned_as(slots, route, l) {
            let l = choose|l: Learned| learned_as(slots, route, l);
            let i = choose|i: int|
                0 <= i < slots.len() && (#[trigger] slots[i]).route == route && slots[i].learned
                    == Some(l);
            assert(routes[i] == slots[i].route);
            assert(!identity_unique(routes, n));
        }
    }
    assert forall|j: int|
        0 <= j < slots.len() && slots[j].route.identity() != route.identity() implies #[trigger] with_route(
        slots, route)[j] == slots[j] by {
        assert(routes[j] == slots[j].route);
        lemma_learned_slot(slots, j);
        if slots[j].learned is Some {
            assert(identity_unique(routes, j)) by {
                assert forall|i: int| 0 <= i < routes.len() && i != j implies (
                #[trigger] routes[i]).identity() != routes[j].identity() by {
                    if i < n {
                        assert(routes[i] == slots[i].route);
                    }
                }
            }
        }
    }
}

/// Where an application appends a route with the prefix and router of a learned
/// one, nothing tells the two apart any more: both are configured.
pub proof fn law_duplicate_drops_ownership(slots: Seq<Slot>, route: Route, j: int)
    requires
        valid_slots(slots),
        0 <= j < slots.len(),
        slots[j].route.identity() == route.identity(),
    ensures
        with_route(slots, route)[j] == (Slot { route: slots[j].route, learned: None }),
        with_route(slots, route).last() == (Slot { route, learned: None }),
{
    let routes = routes_of(slots).push(route);
    let n = slots.len() as int;
    assert(routes[n] == route);
    assert(routes[j] == slots[j].route);
    assert(!identity_unique(routes, j));
    assert(!identity_unique(routes, n));
}

/// Reconciling a second time with the same candidates changes nothing.
pub proof fn law_reconcile_is_idempotent(slots: Seq<Slot>, candidates: Seq<Option<LearnedRoute>>)
    requires
        valid_slots(slots),
        candidates_distinct(candidates),
    ensures
        reconciled(reconciled(slots, candidates), candidates) == reconciled(slots, candidates),
{
    let room = learned_room(slots);
    let cs = chosen(slots, candidates, room);
    let all = reconciled(slots, candidates);
    law_reconcile_keeps_configured(slots, candidates);
    lemma_configured_filter(slots);
    lemma_configured_filter(all);
    lemma_chosen(slots, candidates, room);
    law_reconciled_is_valid(slots, candidates);
    assert(learned_room(all) == room);
    lemma_chosen_same(slots, all, candidates, room);
    assert forall|t: Slot| all.contains(t) && t.learned is Some implies exists|c: LearnedRoute|
        #[trigger] cs.contains(c) && t == c.slot() by {
        law_reconciled_learned_are_chosen(slots, candidates, t);
    }
    lemma_kept_same(all, cs);
    assert forall|m: int| 0 <= m < cs.len() implies learned_has(
        all,
        (#[trigger] cs[m]).identity(),
    ) by {
        assert(cs.contains(cs[m]));
        law_reconciled_learned_are_chosen(slots, candidates, cs[m].slot());
        let x = choose|x: int| 0 <= x < all.len() && all[x] == cs[m].slot();
        assert(all[x].learned is Some);
    }
    lemma_added_none(all, cs);
    assert(all + Seq::<Slot>::empty() =~= all);
}

/// Configured slots are counted and looked up by the configured slots alone.
pub(crate) proof fn lemma_configured_filter(slots: Seq<Slot>)
    ensures
        configured_count(slots) == configured_slots(slots).len(),
        forall|id: Identity| #[trigger]
            configured_has(slots, id) <==> configured_has(configured_slots(slots), id),
    decreases slots.len(),
{
    reveal(Seq::filter);
    if slots.len() > 0 {
        let first = slots.drop_last();
        let some = configured_slots(slots);
        let rest = configured_slots(first);
        lemma_configured_filter(first);
        assert forall|id: Identity| #[trigger]
            configured_has(slots, id) <==> configured_has(some, id) by {
            if configured_has(slots, id) {
                let i = choose|i: int|
                    0 <= i < slots.len() && (#[trigger] slots[i]).learned is None
                        && slots[i].route.identity() == Some(id);
                if i < first.len() {
                    assert(first[i] == slots[i]);
                    assert(configured_has(first, id));
                    assert(configured_has(rest, id));
                    let k = choose|k: int|
                        0 <= k < rest.len() && (#[trigger] rest[k]).learned is None
                            && rest[k].route.identity() == Some(id);
                    assert(some[k] == rest[k]);
                } else {
                    assert(some.last() == slots[i]);
                    assert(some[some.len() - 1] == slots[i]);
                }
            }
            if configured_has(some, id) {
                let k = choose|k: int|
                    0 <= k < some.len() && (#[trigger] some[k]).learned is None
                        && some[k].route.identity() == Some(id);
                if k < rest.len() {
                    assert(rest[k] == some[k]);
                    assert(configured_has(first, id));
                    let i = choose|i: int|
                        0 <= i < first.len() && (#[trigger] first[i]).learned is None
                            && first[i].route.identity() == Some(id);
                    assert(slots[i] == first[i]);
                } else {
                    assert(slots[slots.len() - 1] == some[k]);
                }
            }
        }
    }
}

/// The choice depends on the configured slots only.
proof fn lemma_chosen_same(
    a: Seq<Slot>,
    b: Seq<Slot>,
    candidates: Seq<Option<LearnedRoute>>,
    room: nat,
)
    requires
        forall|id: Identity| #[trigger] configured_has(a, id) <==> configured_has(b, id),
    ensures
        chosen(a, candidates, room) == chosen(b, candidates, room),
    decreases candidates.len(),
{
    if candidates.len() > 0 {
        lemma_chosen_same(a, b, candidates.drop_last(), room);
        if let Some(c) = candidates.last() {
            assert(configured_has(a, c.identity()) <==> configured_has(b, c.identity()));
        }
    }
}

/// Slots that are up to date stay as they are.
proof fn lemma_kept_same(slots: Seq<Slot>, cs: Seq<LearnedRoute>)
    requires
        identities_distinct(cs),
        forall|t: Slot|
            slots.contains(t) && t.learned is Some ==> exists|c: LearnedRoute| #[trigger]
                cs.contains(c) && t == c.slot(),
    ensures
        kept(slots, cs) == slots,
    decreases slots.len(),
{
    if slots.len() > 0 {
        let first = slots.drop_last();
        let s = slots.last();
        assert forall|t: Slot| first.contains(t) && t.learned is Some implies exists|c: LearnedRoute|
            #[trigger] cs.contains(c) && t == c.slot() by {
            let i = choose|i: int| 0 <= i < first.len() && first[i] == t;
            assert(slots[i] == t);
            assert(slots.contains(t));
        }
        lemma_kept_same(first, cs);
        assert(slots[slots.len() - 1] == s);
        if s.learned is Some {
            assert(slots.contains(s));
            let c = choose|c: LearnedRoute| #[trigger] cs.contains(c) && s == c.slot();
            let m = choose|m: int| 0 <= m < cs.len() && cs[m] == c;
            let id = c.identity();
            assert(cs[m].identity() == id);
            let n = choose|n: int| 0 <= n < cs.len() && (#[trigger] cs[n]).identity() == id;
            assert(n == m);
        }
        assert(first.push(s) =~= slots);
    } else {
        assert(slots =~= Seq::<Slot>::empty());
    }
}

/// Nothing is added where every chosen route is in the table.
proof fn lemma_added_none(slots: Seq<Slot>, cs: Seq<LearnedRoute>)
    requires
        forall|m: int| 0 <= m < cs.len() ==> learned_has(slots, (#[trigger] cs[m]).identity()),
    ensures
        added(slots, cs) == Seq::<Slot>::empty(),
    decreases cs.len(),
{
    if cs.len() > 0 {
        let first = cs.drop_last();
        assert(learned_has(slots, cs[cs.len() - 1].identity()));
        assert forall|m: int| 0 <= m < first.len() implies learned_has(
            slots,
            (#[trigger] first[m]).identity(),
        ) by {
            assert(first[m] == cs[m]);
        }
        lemma_added_none(slots, first);
    }
}

/// A default route that is added is found, unless the table held several.
pub proof fn law_added_route_is_found(slots: Seq<Slot>, route: Route)
    requires
        !has_route_to(without_route_to(slots, route.cidr), route.cidr),
    ensures
        first_route_to(
            with_route(without_route_to(slots, route.cidr), route),
            route.cidr,
        ) == Some(route),
{
    let rest = without_route_to(slots, route.cidr);
    let after = with_route(rest, route);
    let n = rest.len() as int;
    assert(after[n].route == route);
    assert forall|j: int| 0 <= j < n implies (#[trigger] after[j]).route.cidr != route.cidr by {
        assert(after[j].route == rest[j].route);
    }
    assert(is_first_to(after, route.cidr, n));
    let i = choose|i: int| is_first_to(after, route.cidr, i);
    assert(is_first_to(after, route.cidr, i));
    assert(after[i].route.cidr == route.cidr && after[n].route.cidr == route.cidr);
}

/// Once the room for learned routes is used up, further candidates make no
/// difference.
pub proof fn law_no_candidate_beyond_the_room(
    slots: Seq<Slot>,
    candidates: Seq<Option<LearnedRoute>>,
    more: Seq<Option<LearnedRoute>>,
)
    requires
        chosen(slots, candidates, learned_room(slots)).len() >= learned_room(slots),
    ensures
        chosen(slots, candidates + more, learned_room(slots)) == chosen(
            slots,
            candidates,
            learned_room(slots),
        ),
        reconciled(slots, candidates + more) == reconciled(slots, candidates),
    decreases more.len(),
{
    if more.len() == 0 {
        assert(candidates + more =~= candidates);
    } else {
        law_no_candidate_beyond_the_room(slots, candidates, more.drop_last());
        assert((candidates + more).drop_last() =~= candidates + more.drop_last());
    }
}

/// No candidate is asked for where configured routes fill the table.
pub proof fn law_full_table_asks_for_nothing(
    slots: Seq<Slot>,
    candidates: Seq<Option<LearnedRoute>>,
    count: nat,
)
    requires
        learned_room(slots) == 0,
        asked_while_room(slots, candidates, count),
    ensures
        candidates.len() == 0,
{
}

} // verus!
