//! Collisions among all bodies of a collection.
//!
//! Every unordered pair of distinct bodies is examined exactly once, in the
//! order `(0, 1), (0, 2), .., (1, 2), ..`. Pairs are resolved one after the
//! other, so a later pair sees the velocities that earlier pairs left behind.
//! The order of examination is laid down by [`all_pairs`] alone; the impulse
//! arithmetic of [`crate::collision`] knows nothing of it.
//!
//! A caller that knows which pairs can overlap, from a grid or a tree, hands
//! those pairs to [`resolve_pairs`] instead. Leaving out pairs that do not
//! overlap never changes the outcome: see [`broad_phase_is_sound`].

use vstd::prelude::*;
use vstd::seq_lib::lemma_no_dup_in_concat;
use crate::body::Body;
use crate::collision::{
    along_normal, check_collision, distance_squared, overlapping, resolution, resolve_collision,
    velocity_a_after, velocity_b_after, Resolution,
};

verus! {

/// A detected collision: the indices of the two bodies, the smaller first,
/// and how the pair was treated.
#[derive(Clone, Copy, Debug, PartialEq, Eq, Structural)]
pub struct CollisionEvent {
    pub first: usize,
    pub second: usize,
    pub resolution: Resolution,
}

/// Bodies `i` and `j` of the collection overlap.
pub open spec fn pair_overlaps(s: Seq<Body>, i: int, j: int) -> bool {
    overlapping(s[i].position, s[i].radius as int, s[j].position, s[j].radius as int)
}

/// How the pair `(i, j)` is treated, given that it overlaps.
pub open spec fn pair_resolution(s: Seq<Body>, i: int, j: int) -> Resolution {
    resolution(s[i].position, s[i].velocity, s[j].position, s[j].velocity)
}

/// The collection after the pair `(i, j)` has been examined: unchanged unless
/// the two bodies overlap, and then only in the two velocities.
pub open spec fn resolved_pair(s: Seq<Body>, i: int, j: int, bounce_factor: int) -> Seq<Body> {
    if pair_overlaps(s, i, j) {
        let a = s[i];
        let b = s[j];
        let vel_a = velocity_a_after(a.position, a.velocity, b.position, b.velocity, bounce_factor);
        let vel_b = velocity_b_after(a.position, a.velocity, b.position, b.velocity, bounce_factor);
        s.update(i, Body { velocity: vel_a, ..a }).update(j, Body { velocity: vel_b, ..b })
    } else {
        s
    }
}

/// The event that examining the pair `(i, j)` reports, if any.
pub open spec fn pair_event(s: Seq<Body>, i: int, j: int) -> Option<CollisionEvent> {
    if pair_overlaps(s, i, j) {
        Some(
            CollisionEvent {
                first: i as usize,
                second: j as usize,
                resolution: pair_resolution(s, i, j),
            },
        )
    } else {
        None
    }
}

/// The pairs `(i, i + 1), .., (i, j - 1)`.
pub open spec fn row(i: int, j: int) -> Seq<(int, int)>
    decreases j - i,
{
    if j <= i + 1 {
        Seq::empty()
    } else {
        row(i, j - 1).push((i, j - 1))
    }
}

/// The pairs of `n` bodies whose first index is below `i`, row after row.
pub open spec fn rows(n: int, i: int) -> Seq<(int, int)>
    decreases i,
{
    if i <= 0 {
        Seq::empty()
    } else {
        rows(n, i - 1) + row(i - 1, n)
    }
}

/// The unordered pairs of `n` bodies in the order of examination.
pub open spec fn all_pairs(n: int) -> Seq<(int, int)> {
    rows(n, n)
}

/// The collection after the given pairs have been examined in turn.
pub open spec fn after_pairs(s: Seq<Body>, pairs: Seq<(int, int)>, bounce_factor: int) -> Seq<Body>
    decreases pairs.len(),
{
    if pairs.len() == 0 {
        s
    } else {
        let before = after_pairs(s, pairs.drop_last(), bounce_factor);
        resolved_pair(before, pairs.last().0, pairs.last().1, bounce_factor)
    }
}

/// The events reported while the given pairs are examined in turn.
pub open spec fn events_of(s: Seq<Body>, pairs: Seq<(int, int)>, bounce_factor: int) -> Seq<
    CollisionEvent,
>
    decreases pairs.len(),
{
    if pairs.len() == 0 {
        Seq::empty()
    } else {
        let before = after_pairs(s, pairs.drop_last(), bounce_factor);
        let earlier = events_of(s, pairs.drop_last(), bounce_factor);
        match pair_event(before, pairs.last().0, pairs.last().1) {
            Some(event) => earlier.push(event),
            None => earlier,
        }
    }
}

/// Examines one pair of distinct bodies and resolves their collision if they
/// overlap. Returns the event, if there was a collision.
pub fn resolve_pair(bodies: &mut Vec<Body>, i: usize, j: usize, bounce_factor: i32) -> (event:
    Option<CollisionEvent>)
    requires
        i < old(bodies)@.len(),
        j < old(bodies)@.len(),
        i != j,
    ensures
        final(bodies)@ == resolved_pair(old(bodies)@, i as int, j as int, bounce_factor as int),
        event == pair_event(old(bodies)@, i as int, j as int),
{
    let a: Body = bodies[i];
    let b: Body = bodies[j];
    if !check_collision(a.position, a.radius, b.position, b.radius) {
        return None;
    }
    let mut vel_a = a.velocity;
    let mut vel_b = b.velocity;
    let outcome = resolve_collision(a.position, &mut vel_a, b.position, &mut vel_b, bounce_factor);
    bodies.set(i, Body { position: a.position, velocity: vel_a, radius: a.radius });
    bodies.set(j, Body { position: b.position, velocity: vel_b, radius: b.radius });
    Some(CollisionEvent { first: i, second: j, resolution: outcome })
}

/// The pairs of a list of index pairs, as whole numbers.
pub open spec fn indices(pairs: Seq<(usize, usize)>) -> Seq<(int, int)> {
    pairs.map_values(|p: (usize, usize)| (p.0 as int, p.1 as int))
}

/// Every pair of the list names two different bodies of a collection of `n`.
pub open spec fn candidates_ok(pairs: Seq<(usize, usize)>, n: int) -> bool {
    forall|k: int|
        0 <= k < pairs.len() ==> (#[trigger] pairs[k]).0 < n && pairs[k].1 < n && pairs[k].0
            != pairs[k].1
}

/// Examines the given pairs in turn and resolves the collisions found.
/// Returns the detected collisions in the order of examination.
pub fn resolve_pairs(bodies: &mut Vec<Body>, pairs: &Vec<(usize, usize)>, bounce_factor: i32) -> (events:
    Vec<CollisionEvent>)
    requires
        candidates_ok(pairs@, old(bodies)@.len() as int),
    ensures
        final(bodies)@ == after_pairs(old(bodies)@, indices(pairs@), bounce_factor as int),
        events@ == events_of(old(bodies)@, indices(pairs@), bounce_factor as int),
{
    let n: usize = bodies.len();
    let mut events: Vec<CollisionEvent> = Vec::new();
    let mut k: usize = 0;
    assert(indices(pairs@).take(0) =~= Seq::<(int, int)>::empty());
    while k < pairs.len()
        invariant
            k <= pairs@.len(),
            n == old(bodies)@.len(),
            bodies@.len() == n,
            candidates_ok(pairs@, n as int),
            bodies@ == after_pairs(
                old(bodies)@,
                indices(pairs@).take(k as int),
                bounce_factor as int,
            ),
            events@ == events_of(
                old(bodies)@,
                indices(pairs@).take(k as int),
                bounce_factor as int,
            ),
        decreases pairs@.len() - k,
    {
        let pair: (usize, usize) = pairs[k];
        proof {
            let done = indices(pairs@).take(k as int);
            let next = indices(pairs@).take(k + 1);
            assert(next =~= done.push((pair.0 as int, pair.1 as int)));
            assert(next.drop_last() =~= done);
            assert(next.last() == (pair.0 as int, pair.1 as int));
        }
        let event = resolve_pair(bodies, pair.0, pair.1, bounce_factor);
        match event {
            Some(e) => {
                events.push(e);
            },
            None => {},
        }
        k = k + 1;
    }
    assert(indices(pairs@).take(k as int) =~= indices(pairs@));
    events
}

/// Examines every unordered pair of distinct bodies once and resolves the
/// collisions found. Returns the detected collisions in the order of
/// examination.
pub fn resolve_collisions(bodies: &mut Vec<Body>, bounce_factor: i32) -> (events: Vec<
    CollisionEvent,
>)
    ensures
        final(bodies)@ == after_pairs(
            old(bodies)@,
            all_pairs(old(bodies)@.len() as int),
            bounce_factor as int,
        ),
        events@ == events_of(
            old(bodies)@,
            all_pairs(old(bodies)@.len() as int),
            bounce_factor as int,
        ),
{
    let n: usize = bodies.len();
    let mut events: Vec<CollisionEvent> = Vec::new();
    let mut i: usize = 0;
    while i < n
        invariant
            i <= n,
            n == old(bodies)@.len(),
            bodies@.len() == n,
            bodies@ == after_pairs(old(bodies)@, rows(n as int, i as int), bounce_factor as int),
            events@ == events_of(old(bodies)@, rows(n as int, i as int), bounce_factor as int),
        decreases n - i,
    {
        let mut j: usize = i + 1;
        assert(rows(n as int, i as int) + row(i as int, j as int) =~= rows(n as int, i as int));
        while j < n
            invariant
                i < n,
                i < j <= n,
                n == old(bodies)@.len(),
                bodies@.len() == n,
                bodies@ == after_pairs(
                    old(bodies)@,
                    rows(n as int, i as int) + row(i as int, j as int),
                    bounce_factor as int,
                ),
                events@ == events_of(
                    old(bodies)@,
                    rows(n as int, i as int) + row(i as int, j as int),
                    bounce_factor as int,
                ),
            decreases n - j,
        {
            let ghost done = rows(n as int, i as int) + row(i as int, j as int);
            let ghost next = rows(n as int, i as int) + row(i as int, j + 1);
            proof {
                assert(next =~= done.push((i as int, j as int)));
                assert(next.drop_last() =~= done);
                assert(next.last() == (i as int, j as int));
            }
            let event = resolve_pair(bodies, i, j, bounce_factor);
            match event {
                Some(e) => {
                    events.push(e);
                },
                None => {},
            }
            j = j + 1;
        }
        i = i + 1;
    }
    events
}

/// Every pair of the sequence names two bodies of a collection of `n`.
pub open spec fn pairs_in_range(pairs: Seq<(int, int)>, n: int) -> bool {
    forall|k: int|
        0 <= k < pairs.len() ==> 0 <= (#[trigger] pairs[k]).0 < n && 0 <= pairs[k].1 < n
}

/// What a row holds, place by place.
proof fn lemma_row(i: int, j: int)
    ensures
        row(i, j).len() == if j > i + 1 {
            j - i - 1
        } else {
            0
        },
        forall|k: int| 0 <= k < row(i, j).len() ==> #[trigger] row(i, j)[k] == (i, i + 1 + k),
    decreases j - i,
{
    if j > i + 1 {
        lemma_row(i, j - 1);
    }
}

/// What the first `i` rows hold.
proof fn lemma_rows(n: int, i: int)
    requires
        0 <= i <= n,
    ensures
        rows(n, i).no_duplicates(),
        forall|k: int|
            0 <= k < rows(n, i).len() ==> 0 <= (#[trigger] rows(n, i)[k]).0 < i && rows(n, i)[k].0
                < rows(n, i)[k].1 < n,
        forall|a: int, b: int| 0 <= a < i && a < b < n ==> rows(n, i).contains((a, b)),
        2 * rows(n, i).len() == i * (2 * n - i - 1),
    decreases i,
{
    if i > 0 {
        let earlier = rows(n, i - 1);
        let last = row(i - 1, n);
        lemma_rows(n, i - 1);
        lemma_row(i - 1, n);
        assert(last.no_duplicates());
        lemma_no_dup_in_concat(earlier, last);
        assert forall|a: int, b: int| 0 <= a < i && a < b < n implies rows(n, i).contains(
            (a, b),
        ) by {
            if a < i - 1 {
                assert(earlier.contains((a, b)));
                let k = choose|k: int| 0 <= k < earlier.len() && earlier[k] == (a, b);
                assert(rows(n, i)[k] == (a, b));
            } else {
                let k = earlier.len() + (b - a - 1);
                assert(last[b - a - 1] == (a, b));
                assert(rows(n, i)[k] == (a, b));
            }
        }
        assert(2 * (earlier.len() + last.len()) == i * (2 * n - i - 1)) by (nonlinear_arith)
            requires
                2 * earlier.len() == (i - 1) * (2 * n - (i - 1) - 1),
                last.len() == n - i,
        ;
    }
}

/// The order of examination holds every unordered pair of distinct bodies
/// exactly once and nothing else: no pair is repeated, no body is paired with
/// itself, and `n` bodies give `n * (n - 1) / 2` pairs.
pub proof fn every_pair_is_examined_once(n: int)
    requires
        n >= 0,
    ensures
        all_pairs(n).no_duplicates(),
        forall|k: int|
            0 <= k < all_pairs(n).len() ==> 0 <= (#[trigger] all_pairs(n)[k]).0 < all_pairs(
                n,
            )[k].1 < n,
        forall|a: int, b: int| 0 <= a < b < n ==> all_pairs(n).contains((a, b)),
        2 * all_pairs(n).len() == n * (n - 1),
        pairs_in_range(all_pairs(n), n),
{
    lemma_rows(n, n);
    assert(n * (2 * n - n - 1) == n * (n - 1)) by (nonlinear_arith);
}

/// Examining pairs never adds, removes or moves a body and never changes a
/// radius: only velocities change.
pub proof fn resolver_changes_velocities_only(
    s: Seq<Body>,
    pairs: Seq<(int, int)>,
    bounce_factor: i32,
)
    requires
        pairs_in_range(pairs, s.len() as int),
    ensures
        after_pairs(s, pairs, bounce_factor as int).len() == s.len(),
        forall|i: int|
            0 <= i < s.len() ==> (#[trigger] after_pairs(s, pairs, bounce_factor as int)[i]).position
                == s[i].position && after_pairs(s, pairs, bounce_factor as int)[i].radius
                == s[i].radius,
    decreases pairs.len(),
{
    if pairs.len() > 0 {
        let earlier = pairs.drop_last();
        assert forall|k: int| 0 <= k < earlier.len() implies 0 <= (#[trigger] earlier[k]).0
            < s.len() && 0 <= earlier[k].1 < s.len() by {
            assert(earlier[k] == pairs[k]);
        }
        resolver_changes_velocities_only(s, earlier, bounce_factor);
        assert(pairs.last() == pairs[pairs.len() - 1]);
    }
}

/// Two bodies whose centres are at least the sum of their radii apart are
/// left as they are, and no event is reported for them.
pub proof fn distant_pair_is_untouched(s: Seq<Body>, i: int, j: int, bounce_factor: i32)
    requires
        distance_squared(s[i].position, s[j].position) >= (s[i].radius + s[j].radius) * (
        s[i].radius + s[j].radius),
    ensures
        resolved_pair(s, i, j, bounce_factor as int) == s,
        pair_event(s, i, j).is_none(),
{
}

/// Two bodies that already separate along the collision normal are left as
/// they are, even though they overlap.
pub proof fn separating_pair_is_untouched(s: Seq<Body>, i: int, j: int, bounce_factor: i32)
    requires
        0 <= i < s.len(),
        0 <= j < s.len(),
        along_normal(s[i].position, s[i].velocity, s[j].position, s[j].velocity) > 0,
    ensures
        resolved_pair(s, i, j, bounce_factor as int) == s,
{
    assert(resolved_pair(s, i, j, bounce_factor as int) =~= s);
}

/// Where none of the examined pairs overlaps, nothing changes and no event
/// is reported.
proof fn lemma_no_overlap(s: Seq<Body>, pairs: Seq<(int, int)>, bounce_factor: int)
    requires
        forall|k: int| 0 <= k < pairs.len() ==> !pair_overlaps(s, (#[trigger] pairs[k]).0, pairs[k].1),
    ensures
        after_pairs(s, pairs, bounce_factor) == s,
        events_of(s, pairs, bounce_factor) == Seq::<CollisionEvent>::empty(),
    decreases pairs.len(),
{
    if pairs.len() > 0 {
        let earlier = pairs.drop_last();
        assert forall|k: int| 0 <= k < earlier.len() implies !pair_overlaps(
            s,
            (#[trigger] earlier[k]).0,
            earlier[k].1,
        ) by {
            assert(earlier[k] == pairs[k]);
        }
        lemma_no_overlap(s, earlier, bounce_factor);
        assert(pairs.last() == pairs[pairs.len() - 1]);
    }
}

/// Whether two bodies overlap does not depend on how many pairs have been
/// examined before.
proof fn lemma_overlap_is_stable(
    s: Seq<Body>,
    pairs: Seq<(int, int)>,
    bounce_factor: i32,
    i: int,
    j: int,
)
    requires
        pairs_in_range(pairs, s.len() as int),
        0 <= i < s.len(),
        0 <= j < s.len(),
    ensures
        pair_overlaps(after_pairs(s, pairs, bounce_factor as int), i, j) == pair_overlaps(s, i, j),
{
    resolver_changes_velocities_only(s, pairs, bounce_factor);
}

/// The test that keeps the pairs of bodies of `s` that overlap.
pub open spec fn overlaps_in(s: Seq<Body>) -> spec_fn((int, int)) -> bool {
    |p: (int, int)| pair_overlaps(s, p.0, p.1)
}

/// Pairs that do not overlap can be left out of the examination: the bodies
/// end up the same and the same events are reported.
pub proof fn skipping_distant_pairs_changes_nothing(
    s: Seq<Body>,
    pairs: Seq<(int, int)>,
    bounce_factor: i32,
)
    requires
        pairs_in_range(pairs, s.len() as int),
    ensures
        pairs_in_range(pairs.filter(overlaps_in(s)), s.len() as int),
        after_pairs(s, pairs, bounce_factor as int) == after_pairs(
            s,
            pairs.filter(overlaps_in(s)),
            bounce_factor as int,
        ),
        events_of(s, pairs, bounce_factor as int) == events_of(
            s,
            pairs.filter(overlaps_in(s)),
            bounce_factor as int,
        ),
    decreases pairs.len(),
{
    reveal(Seq::filter);
    if pairs.len() > 0 {
        let earlier = pairs.drop_last();
        let last = pairs.last();
        let kept = earlier.filter(overlaps_in(s));
        assert forall|k: int| 0 <= k < earlier.len() implies 0 <= (#[trigger] earlier[k]).0
            < s.len() && 0 <= earlier[k].1 < s.len() by {
            assert(earlier[k] == pairs[k]);
        }
        assert(last == pairs[pairs.len() - 1]);
        skipping_distant_pairs_changes_nothing(s, earlier, bounce_factor);
        lemma_overlap_is_stable(s, earlier, bounce_factor, last.0, last.1);
        if overlaps_in(s)(last) {
            let all = kept.push(last);
            assert(pairs.filter(overlaps_in(s)) == all);
            assert(all.drop_last() =~= kept);
            assert(all.last() == last);
        }
    }
}

/// A broad phase is sound when it proposes the overlapping pairs in the order
/// of examination, with or without pairs that do not overlap among them:
/// examining its candidates gives what examining every pair gives.
pub proof fn broad_phase_is_sound(s: Seq<Body>, candidates: Seq<(int, int)>, bounce_factor: i32)
    requires
        pairs_in_range(candidates, s.len() as int),
        candidates.filter(overlaps_in(s)) == all_pairs(s.len() as int).filter(overlaps_in(s)),
    ensures
        after_pairs(s, candidates, bounce_factor as int) == after_pairs(
            s,
            all_pairs(s.len() as int),
            bounce_factor as int,
        ),
        events_of(s, candidates, bounce_factor as int) == events_of(
            s,
            all_pairs(s.len() as int),
            bounce_factor as int,
        ),
{
    every_pair_is_examined_once(s.len() as int);
    skipping_distant_pairs_changes_nothing(s, candidates, bounce_factor);
    skipping_distant_pairs_changes_nothing(s, all_pairs(s.len() as int), bounce_factor);
}

/// A collection in which no two bodies overlap passes through the resolver
/// unchanged, and no event is reported.
pub proof fn distant_bodies_are_untouched(s: Seq<Body>, bounce_factor: i32)
    requires
        forall|i: int, j: int| 0 <= i < j < s.len() ==> !pair_overlaps(s, i, j),
    ensures
        after_pairs(s, all_pairs(s.len() as int), bounce_factor as int) == s,
        events_of(s, all_pairs(s.len() as int), bounce_factor as int) == Seq::<
            CollisionEvent,
        >::empty(),
{
    every_pair_is_examined_once(s.len() as int);
    lemma_no_overlap(s, all_pairs(s.len() as int), bounce_factor as int);
}

} // verus!
