use particle_physics::body::Vec3;
use particle_physics::collision::{
    check_collision, resolve_collision, squared_distance, Resolution,
};

const HALF: i32 = 32768;
const BOUNCE: i32 = 45875;
const ONE: i32 = 65536;

#[test]
fn squared_distance_is_the_sum_of_squares() {
    assert_eq!(squared_distance(Vec3::new(0, 0, 0), Vec3::new(3, 4, 12)), 169);
    assert_eq!(squared_distance(Vec3::new(1, 1, 1), Vec3::new(1, 1, 1)), 0);
    assert_eq!(squared_distance(Vec3::new(-1, 2, -3), Vec3::new(1, -2, 3)), 56);
}

#[test]
fn squared_distance_across_the_whole_range() {
    let low = Vec3::new(i32::MIN, i32::MIN, i32::MIN);
    let high = Vec3::new(i32::MAX, i32::MAX, i32::MAX);
    let side: i128 = (1 << 32) - 1;
    assert_eq!(squared_distance(low, high), 3 * side * side);
    assert_eq!(squared_distance(high, low), 3 * side * side);
}

#[test]
fn overlapping_spheres_collide() {
    assert!(check_collision(Vec3::new(0, 0, 0), HALF, Vec3::new(26214, 0, 0), HALF));
    assert!(check_collision(Vec3::new(0, 0, 0), HALF, Vec3::new(65535, 0, 0), HALF));
}

#[test]
fn tangent_spheres_do_not_collide() {
    assert!(!check_collision(Vec3::new(0, 0, 0), HALF, Vec3::new(65536, 0, 0), HALF));
    assert!(!check_collision(Vec3::new(0, 0, 0), 3, Vec3::new(3, 4, 0), 2));
}

#[test]
fn distant_spheres_do_not_collide() {
    assert!(!check_collision(Vec3::new(0, 0, 0), HALF, Vec3::new(65537, 0, 0), HALF));
    assert!(!check_collision(Vec3::new(0, 0, 0), HALF, Vec3::new(0, 262_144, 0), HALF));
    let low = Vec3::new(i32::MIN, i32::MIN, i32::MIN);
    let high = Vec3::new(i32::MAX, i32::MAX, i32::MAX);
    assert!(!check_collision(low, i32::MAX, high, i32::MAX));
}

#[test]
fn detection_uses_all_three_axes() {
    assert!(check_collision(Vec3::new(0, 0, 0), 3, Vec3::new(2, 3, 6), 5));
    assert!(!check_collision(Vec3::new(0, 0, 0), 3, Vec3::new(2, 3, 6), 4));
}

#[test]
fn coincident_spheres_collide() {
    assert!(check_collision(Vec3::new(7, 8, 9), 1, Vec3::new(7, 8, 9), 1));
}

#[test]
fn spheres_without_reach_never_collide() {
    assert!(!check_collision(Vec3::new(0, 0, 0), 0, Vec3::new(0, 0, 0), 0));
    assert!(!check_collision(Vec3::new(0, 0, 0), -5, Vec3::new(1, 0, 0), 2));
}

#[test]
fn approaching_spheres_reverse_their_velocities() {
    let mut vel_a = Vec3::new(-19661, 0, 0);
    let mut vel_b = Vec3::new(19661, 0, 0);
    let outcome = resolve_collision(
        Vec3::new(0, 0, 0),
        &mut vel_a,
        Vec3::new(26214, 0, 0),
        &mut vel_b,
        BOUNCE,
    );
    assert_eq!(outcome, Resolution::Bounced);
    assert_eq!(vel_a, Vec3::new(13763, 0, 0));
    assert_eq!(vel_b, Vec3::new(-13763, 0, 0));
}

#[test]
fn separating_spheres_are_left_alone() {
    let mut vel_a = Vec3::new(19661, 0, 0);
    let mut vel_b = Vec3::new(-19661, 0, 0);
    let outcome = resolve_collision(
        Vec3::new(0, 0, 0),
        &mut vel_a,
        Vec3::new(26214, 0, 0),
        &mut vel_b,
        BOUNCE,
    );
    assert_eq!(outcome, Resolution::Separating);
    assert_eq!(vel_a, Vec3::new(19661, 0, 0));
    assert_eq!(vel_b, Vec3::new(-19661, 0, 0));
}

#[test]
fn coincident_centres_are_skipped() {
    let mut vel_a = Vec3::new(-19661, 5, 0);
    let mut vel_b = Vec3::new(19661, 0, -5);
    let outcome = resolve_collision(
        Vec3::new(3, 3, 3),
        &mut vel_a,
        Vec3::new(3, 3, 3),
        &mut vel_b,
        BOUNCE,
    );
    assert_eq!(outcome, Resolution::Coincident);
    assert_eq!(vel_a, Vec3::new(-19661, 5, 0));
    assert_eq!(vel_b, Vec3::new(19661, 0, -5));
}

#[test]
fn no_relative_motion_along_the_normal_gives_no_impulse() {
    let mut vel_a = Vec3::new(100, 7, 0);
    let mut vel_b = Vec3::new(100, -7, 0);
    let outcome = resolve_collision(
        Vec3::new(0, 0, 0),
        &mut vel_a,
        Vec3::new(10, 0, 0),
        &mut vel_b,
        BOUNCE,
    );
    assert_eq!(outcome, Resolution::Bounced);
    assert_eq!(vel_a, Vec3::new(100, 7, 0));
    assert_eq!(vel_b, Vec3::new(100, -7, 0));
}

#[test]
fn elastic_bounce_along_an_axis_exchanges_normal_components() {
    let mut vel_a = Vec3::new(-5, 7, 1);
    let mut vel_b = Vec3::new(3, -2, 9);
    let outcome = resolve_collision(
        Vec3::new(0, 0, 0),
        &mut vel_a,
        Vec3::new(10, 0, 0),
        &mut vel_b,
        ONE,
    );
    assert_eq!(outcome, Resolution::Bounced);
    assert_eq!(vel_a, Vec3::new(3, 7, 1));
    assert_eq!(vel_b, Vec3::new(-5, -2, 9));
}

#[test]
fn elastic_bounce_along_a_diagonal_exchanges_normal_components() {
    let pos_a = Vec3::new(0, 0, 0);
    let pos_b = Vec3::new(300, 400, 0);
    let mut vel_a = Vec3::new(-500, 0, 0);
    let mut vel_b = Vec3::new(0, 0, 0);
    let outcome = resolve_collision(pos_a, &mut vel_a, pos_b, &mut vel_b, ONE);
    assert_eq!(outcome, Resolution::Bounced);
    assert_eq!(vel_a, Vec3::new(-320, 240, 0));
    assert_eq!(vel_b, Vec3::new(-180, -240, 0));
    let along = |v: Vec3| 300 * v.x as i64 + 400 * v.y as i64;
    assert_eq!(along(vel_a), 0);
    assert_eq!(along(vel_b), -150_000);
}

#[test]
fn bounce_conserves_the_sum_of_velocities() {
    let pos_a = Vec3::new(0, 0, 0);
    let pos_b = Vec3::new(16384, 16384, 16384);
    let mut vel_a = Vec3::new(-65536, 0, 0);
    let mut vel_b = Vec3::new(0, 32768, 0);
    let outcome = resolve_collision(pos_a, &mut vel_a, pos_b, &mut vel_b, BOUNCE);
    assert_eq!(outcome, Resolution::Bounced);
    assert_eq!(vel_a, Vec3::new(-37683, 27853, 27853));
    assert_eq!(vel_b, Vec3::new(-27853, 4915, -27853));
    assert_eq!(vel_a.x + vel_b.x, -65536);
    assert_eq!(vel_a.y + vel_b.y, 32768);
    assert_eq!(vel_a.z + vel_b.z, 0);
}

#[test]
fn rounding_can_break_the_exact_exchange() {
    let mut vel_a = Vec3::new(-1, 0, 0);
    let mut vel_b = Vec3::new(0, 0, 0);
    let outcome = resolve_collision(
        Vec3::new(0, 0, 0),
        &mut vel_a,
        Vec3::new(1, 1, 0),
        &mut vel_b,
        ONE,
    );
    assert_eq!(outcome, Resolution::Bounced);
    assert_eq!(vel_a, Vec3::new(0, 1, 0));
    assert_eq!(vel_b, Vec3::new(-1, -1, 0));
}

#[test]
fn bounce_at_the_ends_of_the_range_saturates() {
    let mut vel_a = Vec3::new(i32::MIN, 0, 0);
    let mut vel_b = Vec3::new(i32::MAX, 0, 0);
    let outcome = resolve_collision(
        Vec3::new(i32::MIN, 0, 0),
        &mut vel_a,
        Vec3::new(i32::MAX, 0, 0),
        &mut vel_b,
        i32::MAX,
    );
    assert_eq!(outcome, Resolution::Bounced);
    assert_eq!(vel_a, Vec3::new(i32::MAX, 0, 0));
    assert_eq!(vel_b, Vec3::new(i32::MIN, 0, 0));
}
