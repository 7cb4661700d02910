use pursuit_engine::enemies::{enemy_chase, spawn_enemies, Spawner, CHASE_SPEED};
use pursuit_engine::math::{isqrt, pursuit_velocity, Vec2i};
use pursuit_engine::timer::RepeatTimer;

#[test]
fn isqrt_exact_values() {
    assert_eq!(isqrt(0), 0);
    assert_eq!(isqrt(1), 1);
    assert_eq!(isqrt(2), 1);
    assert_eq!(isqrt(3), 1);
    assert_eq!(isqrt(4), 2);
    assert_eq!(isqrt(2500), 50);
    assert_eq!(isqrt(999_999), 999);
    assert_eq!(isqrt(1_000_000), 1000);
    assert_eq!(isqrt(u64::MAX), 0xFFFF_FFFF);
}

#[test]
fn pursuit_three_four_five_has_exact_speed() {
    let from = Vec2i { x: 0, y: 0 };
    let to = Vec2i { x: 30, y: 40 };
    let v = pursuit_velocity(from, to, 10_000);
    assert_eq!(v.x, 6_000);
    assert_eq!(v.y, 8_000);
    assert_eq!(v.x * v.x + v.y * v.y, 10_000i64 * 10_000);
}

#[test]
fn pursuit_axis_aligned_is_exactly_speed() {
    let from = Vec2i { x: 100, y: 50 };
    let right = pursuit_velocity(from, Vec2i { x: 600, y: 50 }, 10_000);
    assert_eq!((right.x, right.y), (10_000, 0));
    let left = pursuit_velocity(from, Vec2i { x: -600, y: 50 }, 10_000);
    assert_eq!((left.x, left.y), (-10_000, 0));
    let up = pursuit_velocity(from, Vec2i { x: 100, y: 5_000 }, 10_000);
    assert_eq!((up.x, up.y), (0, 10_000));
    let down = pursuit_velocity(from, Vec2i { x: 100, y: -5_000 }, 10_000);
    assert_eq!((down.x, down.y), (0, -10_000));
}

#[test]
fn pursuit_zero_distance_is_zero_vector() {
    let p = Vec2i { x: 123, y: -456 };
    let v = pursuit_velocity(p, p, 10_000);
    assert_eq!((v.x, v.y), (0, 0));
}

#[test]
fn pursuit_magnitude_close_to_speed_in_general() {
    // the fixed-point output differs from the ideal magnitude only by
    // rounding: the squared magnitude stays within a whisker of speed^2
    let from = Vec2i { x: -1_000, y: 2_000 };
    for to in [
        Vec2i { x: 777, y: -31_415 },
        Vec2i { x: 100_000, y: 99_999 },
        Vec2i { x: -123_456, y: 654_321 },
    ] {
        let v = pursuit_velocity(from, to, 10_000);
        let mag2 = v.x * v.x + v.y * v.y;
        let speed2 = 10_000i64 * 10_000;
        assert!((mag2 - speed2).abs() < speed2 / 100);
    }
}

#[test]
fn chase_points_every_enemy_at_target() {
    let mut spawner = Spawner { timer: RepeatTimer::new(1000) };
    let a = spawn_enemies(&mut spawner, 1000, 0).unwrap();
    let mut spawner = Spawner { timer: RepeatTimer::new(1000) };
    let b = spawn_enemies(&mut spawner, 1000, u32::MAX).unwrap();
    let mut enemies = vec![a, b];
    let target = Vec2i { x: 100_000, y: 0 };
    enemy_chase(target, &mut enemies);
    // enemy a sits at (100_000, 100_000): straight down toward the target
    assert_eq!((enemies[0].vel.x, enemies[0].vel.y), (0, -CHASE_SPEED));
    // enemy b sits strictly right of and above the target
    assert!(enemies[1].vel.x < 0 && enemies[1].vel.y < 0);
    // positions and attack state are untouched by steering
    assert_eq!(enemies[0].pos.x, a.pos.x);
    assert_eq!(enemies[1].fighter, b.fighter);
}
