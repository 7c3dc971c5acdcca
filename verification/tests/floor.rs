use particle_physics::body::{Body, Vec3};
use particle_physics::floor::{floor_offset, resolve_floor, resolve_floor_body};

const FLOOR_HEIGHT: i32 = 65536;
const BOUNCE: i32 = 45875;

fn ball(position: (i32, i32, i32), velocity: (i32, i32, i32)) -> Body {
    Body {
        position: Vec3::new(position.0, position.1, position.2),
        velocity: Vec3::new(velocity.0, velocity.1, velocity.2),
        radius: 32768,
    }
}

#[test]
fn floor_offset_is_half_the_height() {
    assert_eq!(floor_offset(65536), 32768);
    assert_eq!(floor_offset(0), 0);
    assert_eq!(floor_offset(-65536), -32768);
}

#[test]
fn floor_offset_rounds_odd_heights_away_from_zero() {
    assert_eq!(floor_offset(3), 2);
    assert_eq!(floor_offset(-3), -2);
    assert_eq!(floor_offset(1), 1);
    assert_eq!(floor_offset(-1), -1);
}

#[test]
fn floor_offset_of_extreme_heights() {
    assert_eq!(floor_offset(i32::MAX), 1_073_741_824);
    assert_eq!(floor_offset(i32::MIN), -1_073_741_824);
}

#[test]
fn body_just_above_the_plane_is_untouched() {
    let before = ball((5, 32769, 7), (11, -655_360, 13));
    let mut b = before;
    let contact = resolve_floor_body(&mut b, FLOOR_HEIGHT, BOUNCE);
    assert!(!contact);
    assert_eq!(b, before);
}

#[test]
fn body_below_the_plane_is_clamped_and_reflected() {
    let mut b = ball((5, 20000, 7), (11, -655_360, 13));
    let contact = resolve_floor_body(&mut b, FLOOR_HEIGHT, BOUNCE);
    assert!(contact);
    assert_eq!(b.position, Vec3::new(5, 32768, 7));
    assert_eq!(b.velocity, Vec3::new(11, 458_750, 13));
    assert_eq!(b.radius, 32768);
}

#[test]
fn body_touching_the_plane_counts_as_contact() {
    let mut b = ball((5, 32768, 7), (11, -655_360, 13));
    let contact = resolve_floor_body(&mut b, FLOOR_HEIGHT, BOUNCE);
    assert!(contact);
    assert_eq!(b.position, Vec3::new(5, 32768, 7));
    assert_eq!(b.velocity, Vec3::new(11, 458_750, 13));
}

#[test]
fn rising_body_below_the_plane_is_reflected_downwards() {
    let mut b = ball((5, 100, 7), (11, 655_360, 13));
    resolve_floor_body(&mut b, FLOOR_HEIGHT, BOUNCE);
    assert_eq!(b.position.y, 32768);
    assert_eq!(b.velocity.y, -458_750);
}

#[test]
fn body_at_rest_on_the_plane_stays_at_rest() {
    let before = ball((5, 32768, 7), (11, 0, 13));
    let mut b = before;
    assert!(resolve_floor_body(&mut b, FLOOR_HEIGHT, BOUNCE));
    assert_eq!(b, before);
    assert!(resolve_floor_body(&mut b, FLOOR_HEIGHT, BOUNCE));
    assert_eq!(b, before);
}

#[test]
fn reflected_velocity_saturates() {
    let mut down = ball((0, 0, 0), (0, i32::MIN, 0));
    resolve_floor_body(&mut down, FLOOR_HEIGHT, 3 * 65536);
    assert_eq!(down.velocity.y, i32::MAX);
    let mut up = ball((0, 0, 0), (0, i32::MAX, 0));
    resolve_floor_body(&mut up, FLOOR_HEIGHT, 3 * 65536);
    assert_eq!(up.velocity.y, i32::MIN);
}

#[test]
fn perfectly_elastic_floor_flips_the_sign_only() {
    let mut b = ball((0, 0, 0), (0, -123_457, 0));
    resolve_floor_body(&mut b, FLOOR_HEIGHT, 65536);
    assert_eq!(b.velocity.y, 123_457);
}

#[test]
fn perfectly_inelastic_floor_stops_the_body() {
    let mut b = ball((0, 0, 0), (0, -123_457, 0));
    resolve_floor_body(&mut b, FLOOR_HEIGHT, 0);
    assert_eq!(b.velocity.y, 0);
}

#[test]
fn resolve_floor_treats_each_body_on_its_own() {
    let airborne = ball((0, 40000, 0), (1, -2, 3));
    let sunken = ball((5, 20000, 7), (11, -655_360, 13));
    let mut bodies = vec![airborne, sunken];
    resolve_floor(&mut bodies, FLOOR_HEIGHT, BOUNCE);
    assert_eq!(bodies[0], airborne);
    assert_eq!(bodies[1], ball((5, 32768, 7), (11, 458_750, 13)));
}

#[test]
fn resolve_floor_twice_on_a_resting_collection_changes_nothing() {
    let resting = ball((5, 32768, 7), (0, 0, 0));
    let mut bodies = vec![resting, resting];
    resolve_floor(&mut bodies, FLOOR_HEIGHT, BOUNCE);
    let once = bodies.clone();
    resolve_floor(&mut bodies, FLOOR_HEIGHT, BOUNCE);
    assert_eq!(bodies, once);
    assert_eq!(bodies, vec![resting, resting]);
}
