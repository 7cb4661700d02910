use pursuit_engine::enemies::{
    enemy_set_attacking, enemy_trigger_attack, spawn_enemies, ContactEvent, Living, Spawner,
};
use pursuit_engine::math::Vec2i;
use pursuit_engine::timer::RepeatTimer;
use pursuit_engine::world::World;

fn one_enemy() -> pursuit_engine::enemies::Enemy {
    let mut spawner = Spawner { timer: RepeatTimer::new(1000) };
    spawn_enemies(&mut spawner, 1000, 0).unwrap()
}

#[test]
fn contact_fires_at_every_period_multiple() {
    let mut enemies = vec![one_enemy()];
    let mut player = Living::new(100);
    enemy_set_attacking(&mut enemies, &vec![ContactEvent::Begin(0)], 0);
    let mut fire_steps = Vec::new();
    for step in 1..=35u64 {
        let before = player.current_health;
        enemy_trigger_attack(&mut enemies, &mut player, 100, step * 100);
        if player.current_health != before {
            fire_steps.push(step);
        }
    }
    // fires exactly as accumulated contact time reaches 1000, 2000, 3000
    assert_eq!(fire_steps, vec![10, 20, 30]);
    assert_eq!(player.current_health, 94);
}

#[test]
fn damage_per_fire_is_the_fixed_constant() {
    let mut enemies = vec![one_enemy()];
    let mut player = Living::new(100);
    enemy_set_attacking(&mut enemies, &vec![ContactEvent::Begin(0)], 0);
    let mut seen = Vec::new();
    for step in 1..=30u64 {
        let before = player.current_health;
        enemy_trigger_attack(&mut enemies, &mut player, 100, step * 100);
        let drop = before - player.current_health;
        assert!(drop == 0 || drop == 2);
        if drop != 0 {
            seen.push(drop);
        }
    }
    assert_eq!(seen, vec![2, 2, 2]);
}

#[test]
fn no_contact_means_no_damage_and_no_progress() {
    let mut enemies = vec![one_enemy()];
    let mut player = Living::new(100);
    for step in 1..=50u64 {
        enemy_trigger_attack(&mut enemies, &mut player, 100, step * 100);
    }
    assert_eq!(player.current_health, 100);
    assert_eq!(enemies[0].fighter.ticker.elapsed, 0);
}

#[test]
fn contact_gap_reconciles_with_time_since_end() {
    let mut enemies = vec![one_enemy()];
    let mut player = Living::new(100);
    enemy_set_attacking(&mut enemies, &vec![ContactEvent::Begin(0)], 0);
    for step in 1..=4u64 {
        enemy_trigger_attack(&mut enemies, &mut player, 100, step * 100);
    }
    assert_eq!(enemies[0].fighter.ticker.elapsed, 400);
    // contact ends at t=400: the ticker pauses and the instant is recorded
    enemy_set_attacking(&mut enemies, &vec![ContactEvent::End(0)], 400);
    assert_eq!(enemies[0].fighter.collision_left, Some(400));
    // contact begins again at t=600; that step's update advances the
    // ticker by now - 400 = 200 in place of the delta, and clears the record
    enemy_set_attacking(&mut enemies, &vec![ContactEvent::Begin(0)], 600);
    enemy_trigger_attack(&mut enemies, &mut player, 100, 600);
    assert_eq!(enemies[0].fighter.ticker.elapsed, 600);
    assert_eq!(enemies[0].fighter.collision_left, None);
    assert_eq!(player.current_health, 100);
    // progress is 400 plus elapsed-since-the-recorded-instant: the next
    // fire lands when that sum reaches the period, at t=1000
    for step in 7..=10u64 {
        let before = player.current_health;
        enemy_trigger_attack(&mut enemies, &mut player, 100, step * 100);
        if step < 10 {
            assert_eq!(player.current_health, before);
        } else {
            assert_eq!(player.current_health, before - 2);
        }
    }
}

#[test]
fn end_and_begin_in_one_tick_keep_progress() {
    let mut enemies = vec![one_enemy()];
    let mut player = Living::new(100);
    enemy_set_attacking(&mut enemies, &vec![ContactEvent::Begin(0)], 0);
    for step in 1..=4u64 {
        enemy_trigger_attack(&mut enemies, &mut player, 100, step * 100);
    }
    // both events land in the tick ending at t=500, in event order
    enemy_set_attacking(
        &mut enemies,
        &vec![ContactEvent::End(0), ContactEvent::Begin(0)],
        500,
    );
    enemy_trigger_attack(&mut enemies, &mut player, 100, 500);
    // the update right after the end advances by now - 500 = 0: progress
    // is kept, neither reset nor double-counted
    assert_eq!(enemies[0].fighter.ticker.elapsed, 400);
    assert!(!enemies[0].fighter.ticker.paused);
    assert_eq!(enemies[0].fighter.collision_left, None);
}

#[test]
fn pause_freezes_progress_until_next_contact() {
    let mut enemies = vec![one_enemy()];
    let mut player = Living::new(100);
    enemy_set_attacking(&mut enemies, &vec![ContactEvent::Begin(0)], 0);
    for step in 1..=4u64 {
        enemy_trigger_attack(&mut enemies, &mut player, 100, step * 100);
    }
    enemy_set_attacking(&mut enemies, &vec![ContactEvent::End(0)], 400);
    // long out of contact: the record is cleared on the next update and
    // the paused ticker holds its progress
    for step in 5..=20u64 {
        enemy_trigger_attack(&mut enemies, &mut player, 100, step * 100);
    }
    assert_eq!(enemies[0].fighter.ticker.elapsed, 400);
    assert_eq!(enemies[0].fighter.collision_left, None);
    assert_eq!(player.current_health, 100);
}

#[test]
fn world_end_to_end_three_fires_by_t3500() {
    let mut w = World::new(Vec2i { x: 0, y: 0 }, 100);
    // one enemy present at t=0, in contact from t=0 on
    w.enemies.push(one_enemy());
    for step in 0..35u64 {
        let events = if step == 0 { vec![ContactEvent::Begin(0)] } else { Vec::new() };
        w.step(100, 0, &events);
    }
    assert_eq!(w.time, 3500);
    // fires at t=1000, 2000, 3000: damage 2 each
    assert_eq!(w.player.current_health, 94);
    // the spawner added its own enemies at t=1000, 2000, 3000; none of
    // them ever touched the target
    assert_eq!(w.enemies.len(), 4);
}

#[test]
fn world_health_never_increases() {
    let mut w = World::new(Vec2i { x: 500, y: 500 }, 50);
    w.enemies.push(one_enemy());
    let mut last = w.player.current_health;
    for step in 0..40u64 {
        let events = if step == 0 { vec![ContactEvent::Begin(0)] } else { Vec::new() };
        w.step(100, 12345, &events);
        assert!(w.player.current_health <= last);
        last = w.player.current_health;
    }
}

#[test]
fn world_without_contact_leaves_health_alone() {
    let mut w = World::new(Vec2i { x: 0, y: 0 }, 7);
    for _ in 0..50u64 {
        w.step(100, 99, &Vec::new());
    }
    assert_eq!(w.player.current_health, 7);
    assert_eq!(w.enemies.len(), 5);
}

#[test]
fn world_spawns_on_its_own_period() {
    let mut w = World::new(Vec2i { x: 0, y: 0 }, 10);
    for step in 1..=25u64 {
        w.step(100, 0, &Vec::new());
        let expected = (step / 10) as usize;
        assert_eq!(w.enemies.len(), expected);
    }
}
