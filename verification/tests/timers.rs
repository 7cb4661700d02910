use pursuit_engine::enemies::{spawn_enemies, Spawner};
use pursuit_engine::timer::RepeatTimer;

#[test]
fn repeat_timer_fires_once_per_period() {
    let mut t = RepeatTimer::new(1000);
    for _ in 0..9 {
        t.tick(100);
        assert!(!t.just_finished);
    }
    t.tick(100);
    assert!(t.just_finished);
    assert_eq!(t.elapsed, 0);
    t.tick(100);
    assert!(!t.just_finished);
    assert_eq!(t.elapsed, 100);
}

#[test]
fn repeat_timer_single_fire_even_for_large_delta() {
    let mut t = RepeatTimer::new(1000);
    t.tick(2500);
    assert!(t.just_finished);
    assert_eq!(t.elapsed, 500);
    t.tick(500);
    assert!(t.just_finished);
    assert_eq!(t.elapsed, 0);
}

#[test]
fn repeat_timer_paused_accumulates_nothing() {
    let mut t = RepeatTimer::new(1000);
    t.tick(400);
    t.pause();
    t.tick(5000);
    assert!(!t.just_finished);
    assert_eq!(t.elapsed, 400);
    t.unpause();
    t.tick(600);
    assert!(t.just_finished);
    assert_eq!(t.elapsed, 0);
}

#[test]
fn spawner_fires_exactly_on_period() {
    let mut spawner = Spawner { timer: RepeatTimer::new(1000) };
    for _ in 0..9 {
        assert!(spawn_enemies(&mut spawner, 100, 7).is_none());
    }
    let spawned = spawn_enemies(&mut spawner, 100, 7);
    assert!(spawned.is_some());
    assert!(spawn_enemies(&mut spawner, 100, 7).is_none());
}

#[test]
fn spawn_position_on_diagonal_inside_band() {
    let mut spawner = Spawner { timer: RepeatTimer::new(1000) };
    let e = spawn_enemies(&mut spawner, 1000, 0).unwrap();
    assert_eq!(e.pos.x, 100_000);
    assert_eq!(e.pos.y, 100_000);

    let mut spawner = Spawner { timer: RepeatTimer::new(1000) };
    let e = spawn_enemies(&mut spawner, 1000, u32::MAX).unwrap();
    assert_eq!(e.pos.x, 199_999);
    assert_eq!(e.pos.y, 199_999);

    let mut spawner = Spawner { timer: RepeatTimer::new(1000) };
    let e = spawn_enemies(&mut spawner, 1000, 1u32 << 31).unwrap();
    assert_eq!(e.pos.x, 150_000);
    assert_eq!(e.pos.y, 150_000);

    for rand in [0u32, 1, 12_345_678, 0x8000_0000, u32::MAX] {
        let mut spawner = Spawner { timer: RepeatTimer::new(1000) };
        let e = spawn_enemies(&mut spawner, 1000, rand).unwrap();
        assert_eq!(e.pos.x, e.pos.y);
        assert!((100_000..200_000).contains(&e.pos.x));
    }
}

#[test]
fn spawned_enemy_starts_paused_at_full_health() {
    let mut spawner = Spawner { timer: RepeatTimer::new(1000) };
    let e = spawn_enemies(&mut spawner, 1000, 42).unwrap();
    assert!(e.fighter.ticker.paused);
    assert_eq!(e.fighter.ticker.period, 1000);
    assert_eq!(e.fighter.ticker.elapsed, 0);
    assert_eq!(e.fighter.damage, 2);
    assert_eq!(e.fighter.collision_left, None);
    assert_eq!(e.living.current_health, 5);
    assert_eq!(e.vel.x, 0);
    assert_eq!(e.vel.y, 0);
}
