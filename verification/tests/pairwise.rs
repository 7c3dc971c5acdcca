use particle_physics::body::{Body, Vec3};
use particle_physics::collision::Resolution;
use particle_physics::pairwise::{resolve_collisions, resolve_pair, resolve_pairs, CollisionEvent};

const HALF: i32 = 32768;
const BOUNCE: i32 = 45875;
const ONE: i32 = 65536;

fn sphere(x: i32, vx: i32) -> Body {
    Body { position: Vec3::new(x, 0, 0), velocity: Vec3::new(vx, 0, 0), radius: HALF }
}

fn event(first: usize, second: usize, resolution: Resolution) -> CollisionEvent {
    CollisionEvent { first, second, resolution }
}

#[test]
fn two_overlapping_bodies_bounce_and_report_one_event() {
    let mut bodies = vec![sphere(0, -19661), sphere(26214, 19661)];
    let events = resolve_collisions(&mut bodies, BOUNCE);
    assert_eq!(events, vec![event(0, 1, Resolution::Bounced)]);
    assert_eq!(bodies, vec![sphere(0, 13763), sphere(26214, -13763)]);
    assert!(bodies[0].velocity.x > 0);
    assert!(bodies[1].velocity.x < 0);
}

#[test]
fn bodies_apart_are_untouched_and_report_nothing() {
    let before = vec![sphere(0, -19661), sphere(65536, 19661), sphere(200_000, 5)];
    let mut bodies = before.clone();
    let events = resolve_collisions(&mut bodies, BOUNCE);
    assert!(events.is_empty());
    assert_eq!(bodies, before);
}

#[test]
fn separating_overlap_is_reported_and_untouched() {
    let before = vec![sphere(0, 19661), sphere(26214, -19661)];
    let mut bodies = before.clone();
    let events = resolve_collisions(&mut bodies, BOUNCE);
    assert_eq!(events, vec![event(0, 1, Resolution::Separating)]);
    assert_eq!(bodies, before);
}

#[test]
fn coincident_overlap_is_reported_and_untouched() {
    let before = vec![sphere(7, -19661), sphere(7, 19661)];
    let mut bodies = before.clone();
    let events = resolve_collisions(&mut bodies, BOUNCE);
    assert_eq!(events, vec![event(0, 1, Resolution::Coincident)]);
    assert_eq!(bodies, before);
}

#[test]
fn pairs_are_examined_in_order_and_see_earlier_results() {
    let mut bodies = vec![sphere(0, -6000), sphere(30000, 0), sphere(60000, 9000)];
    let events = resolve_collisions(&mut bodies, ONE);
    assert_eq!(
        events,
        vec![
            event(0, 1, Resolution::Bounced),
            event(0, 2, Resolution::Bounced),
            event(1, 2, Resolution::Bounced),
        ]
    );
    assert_eq!(bodies, vec![sphere(0, 9000), sphere(30000, 0), sphere(60000, -6000)]);
}

#[test]
fn three_bodies_with_energy_loss() {
    let mut bodies = vec![sphere(0, -6000), sphere(30000, 0), sphere(60000, 9000)];
    let events = resolve_collisions(&mut bodies, BOUNCE);
    assert_eq!(events.len(), 3);
    assert_eq!(bodies, vec![sphere(0, 7515), sphere(30000, -268), sphere(60000, -4247)]);
}

#[test]
fn every_pair_is_reported_once() {
    let n = 6usize;
    let mut bodies: Vec<Body> = (0..n).map(|k| sphere(k as i32, 0)).collect();
    let events = resolve_collisions(&mut bodies, BOUNCE);
    let mut expected = Vec::new();
    for i in 0..n {
        for j in (i + 1)..n {
            expected.push(event(i, j, Resolution::Bounced));
        }
    }
    assert_eq!(events.len(), n * (n - 1) / 2);
    assert_eq!(events, expected);
}

#[test]
fn positions_and_radii_are_never_changed() {
    let mut bodies = vec![sphere(0, -6000), sphere(30000, 0), sphere(60000, 9000)];
    let before = bodies.clone();
    resolve_collisions(&mut bodies, BOUNCE);
    for (after, old) in bodies.iter().zip(before.iter()) {
        assert_eq!(after.position, old.position);
        assert_eq!(after.radius, old.radius);
    }
}

#[test]
fn empty_and_single_collections_have_no_pairs() {
    let mut none: Vec<Body> = Vec::new();
    assert!(resolve_collisions(&mut none, BOUNCE).is_empty());
    let mut one = vec![sphere(0, -6000)];
    assert!(resolve_collisions(&mut one, BOUNCE).is_empty());
    assert_eq!(one, vec![sphere(0, -6000)]);
}

#[test]
fn resolve_pair_reports_the_pair_it_was_given() {
    let mut bodies = vec![sphere(0, -19661), sphere(500_000, 0), sphere(26214, 19661)];
    let found = resolve_pair(&mut bodies, 0, 2, BOUNCE);
    assert_eq!(found, Some(event(0, 2, Resolution::Bounced)));
    assert_eq!(bodies, vec![sphere(0, 13763), sphere(500_000, 0), sphere(26214, -13763)]);
}

#[test]
fn resolve_pair_on_distant_bodies_reports_nothing() {
    let before = vec![sphere(0, -19661), sphere(500_000, 0), sphere(26214, 19661)];
    let mut bodies = before.clone();
    assert_eq!(resolve_pair(&mut bodies, 0, 1, BOUNCE), None);
    assert_eq!(bodies, before);
}

#[test]
fn resolve_pair_takes_the_first_index_as_body_a() {
    let mut bodies = vec![sphere(0, -19661), sphere(26214, 19661)];
    let found = resolve_pair(&mut bodies, 1, 0, BOUNCE);
    assert_eq!(found, Some(event(1, 0, Resolution::Bounced)));
    assert_eq!(bodies, vec![sphere(0, 13763), sphere(26214, -13763)]);
}

#[test]
fn resolve_pairs_examines_the_given_pairs_in_the_given_order() {
    let mut bodies = vec![sphere(0, -6000), sphere(30000, 0), sphere(60000, 9000)];
    let events = resolve_pairs(&mut bodies, &vec![(1, 2), (0, 1)], ONE);
    assert_eq!(events, vec![event(1, 2, Resolution::Bounced), event(0, 1, Resolution::Bounced)]);
    assert_eq!(bodies, vec![sphere(0, 9000), sphere(30000, -6000), sphere(60000, 0)]);
}

#[test]
fn resolve_pairs_on_no_pairs_changes_nothing() {
    let before = vec![sphere(0, -6000), sphere(30000, 0)];
    let mut bodies = before.clone();
    let events = resolve_pairs(&mut bodies, &Vec::new(), BOUNCE);
    assert!(events.is_empty());
    assert_eq!(bodies, before);
}

#[test]
fn resolve_pairs_on_every_pair_is_the_full_scan() {
    let start = vec![sphere(0, -6000), sphere(30000, 0), sphere(60000, 9000), sphere(400_000, 1)];
    let mut scanned = start.clone();
    let scanned_events = resolve_collisions(&mut scanned, BOUNCE);
    let mut listed = start.clone();
    let every = vec![(0, 1), (0, 2), (0, 3), (1, 2), (1, 3), (2, 3)];
    let listed_events = resolve_pairs(&mut listed, &every, BOUNCE);
    assert_eq!(listed, scanned);
    assert_eq!(listed_events, scanned_events);
}

#[test]
fn leaving_out_distant_pairs_gives_the_full_scan() {
    let start = vec![sphere(0, -6000), sphere(30000, 0), sphere(60000, 9000), sphere(400_000, 1)];
    let mut scanned = start.clone();
    let scanned_events = resolve_collisions(&mut scanned, BOUNCE);
    let mut narrowed = start.clone();
    let near = vec![(0, 1), (0, 2), (1, 2)];
    let narrowed_events = resolve_pairs(&mut narrowed, &near, BOUNCE);
    assert_eq!(narrowed, scanned);
    assert_eq!(narrowed_events, scanned_events);
    assert_eq!(scanned[3], start[3]);
}
