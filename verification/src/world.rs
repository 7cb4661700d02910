//! Per-tick orchestration: one simulation context owning the spawner, the
//! enemy roster and the target, and one `step` that runs the fixed update
//! sequence — advance the clock, spawn, steer, apply the tick's contact
//! events, then advance every attack timer and resolve its damage. Events
//! are always applied before timers advance, so a firing never uses stale
//! pause state from before this tick's events.

use vstd::prelude::*;
use crate::math::coord_ok;
use crate::math::Vec2i;
use crate::timer::RepeatTimer;
use crate::enemies::apply_events;
use crate::enemies::chase_all;
use crate::enemies::collision_ok;
use crate::enemies::damage_total;
use crate::enemies::enemy_chase;
use crate::enemies::enemy_set_attacking;
use crate::enemies::enemy_trigger_attack;
use crate::enemies::enemy_wf;
use crate::enemies::events_ok;
use crate::enemies::fighter_wf;
use crate::enemies::lemma_apply_events_frame;
use crate::enemies::lemma_damage_total_bounds;
use crate::enemies::lemma_idle_enemies_deal_no_damage;
use crate::enemies::lemma_spawn_position;
use crate::enemies::new_enemy_spec;
use crate::enemies::spawn_enemies;
use crate::enemies::update_all;
use crate::enemies::ContactEvent;
use crate::enemies::Enemy;
use crate::enemies::Living;
use crate::enemies::Spawner;
use crate::enemies::DAMAGE_LIMIT;
use crate::enemies::SPAWN_PERIOD;

verus! {

/// Largest simulation instant the engine accepts; far below `u64` range,
/// so every per-tick sum stays representable.
pub const TIME_LIMIT: u64 = 0x4000_0000_0000_0000;

/// The simulation context passed through every tick: monotonic time since
/// start, the spawner, the enemy roster, and the single target's position
/// and health pool.
pub struct World {
    pub time: u64,
    pub spawner: Spawner,
    pub player_pos: Vec2i,
    pub player: Living,
    pub enemies: Vec<Enemy>,
}

impl World {
    /// A valid context: bounded clock, valid spawner timer, target within
    /// coordinate bounds, every enemy valid with no contact-end instant in
    /// the future.
    pub open spec fn wf(self) -> bool {
        &&& self.time <= TIME_LIMIT
        &&& self.spawner.timer.wf()
        &&& coord_ok(self.player_pos)
        &&& forall|i: int| 0 <= i < self.enemies@.len() ==> enemy_wf(#[trigger] self.enemies@[i])
        &&& forall|i: int|
            0 <= i < self.enemies@.len() ==> collision_ok(#[trigger] self.enemies@[i], self.time)
    }

    /// The instant this tick ends at.
    pub open spec fn step_now(self, delta: u64) -> u64 {
        (self.time + delta) as u64
    }

    /// The roster after the spawn phase: one new enemy exactly when the
    /// spawn timer fires.
    pub open spec fn step_spawned(self, delta: u64, rand: u32) -> Seq<Enemy> {
        if self.spawner.timer.tick_spec(delta).just_finished {
            self.enemies@.push(new_enemy_spec(rand))
        } else {
            self.enemies@
        }
    }

    /// The roster after spawn, steering and this tick's contact events.
    pub open spec fn step_contacted(
        self,
        delta: u64,
        rand: u32,
        events: Seq<ContactEvent>,
    ) -> Seq<Enemy> {
        apply_events(
            chase_all(self.step_spawned(delta, rand), self.player_pos),
            events,
            self.step_now(delta),
        )
    }

    /// The roster at the end of the tick: after the attack timers advance.
    pub open spec fn step_enemies(
        self,
        delta: u64,
        rand: u32,
        events: Seq<ContactEvent>,
    ) -> Seq<Enemy> {
        update_all(self.step_contacted(delta, rand, events), delta, self.step_now(delta))
    }

    /// The damage this tick deals to the target.
    pub open spec fn step_damage(self, delta: u64, rand: u32, events: Seq<ContactEvent>) -> int {
        damage_total(self.step_contacted(delta, rand, events), delta, self.step_now(delta))
    }

    /// Damage in a tick is never negative: across steps the target's
    /// health decreases monotonically.
    pub proof fn lemma_step_damage_nonneg(self, delta: u64, rand: u32, events: Seq<ContactEvent>)
        requires
            self.wf(),
            self.time + delta <= TIME_LIMIT,
            events_ok(events, self.step_spawned(delta, rand).len() as int),
        ensures
            0 <= self.step_damage(delta, rand, events),
    {
        let now = self.step_now(delta);
        lemma_spawn_position(rand);
        let spawned = self.step_spawned(delta, rand);
        let chased = chase_all(spawned, self.player_pos);
        assert(forall|i: int| 0 <= i < chased.len() ==> enemy_wf(#[trigger] chased[i]));
        assert(forall|i: int| 0 <= i < chased.len() ==> collision_ok(#[trigger] chased[i], now));
        lemma_apply_events_frame(chased, events, now);
        let contacted = self.step_contacted(delta, rand, events);
        assert(forall|i: int|
            0 <= i < contacted.len() ==> fighter_wf((#[trigger] contacted[i]).fighter));
        lemma_damage_total_bounds(contacted, delta, now);
    }

    /// A tick with no contact events and no enemy in contact deals no
    /// damage: the target's health is unaffected while every attack
    /// ticker is paused.
    pub proof fn lemma_step_idle_no_damage(self, delta: u64, rand: u32)
        requires
            self.wf(),
            self.time + delta <= TIME_LIMIT,
            forall|i: int|
                0 <= i < self.enemies@.len() ==> (#[trigger] self.enemies@[i]).fighter.ticker.paused,
        ensures
            self.step_damage(delta, rand, Seq::<ContactEvent>::empty()) == 0,
    {
        let now = self.step_now(delta);
        lemma_spawn_position(rand);
        let spawned = self.step_spawned(delta, rand);
        let chased = chase_all(spawned, self.player_pos);
        assert(self.step_contacted(delta, rand, Seq::<ContactEvent>::empty()) == chased);
        assert(forall|i: int|
            0 <= i < chased.len() ==> (#[trigger] chased[i]).fighter.ticker.paused);
        lemma_idle_enemies_deal_no_damage(chased, delta, now);
    }

    /// A fresh context at time zero: running spawn timer at zero progress,
    /// no enemies, the target at `player_pos` with `player_health` points.
    pub fn new(player_pos: Vec2i, player_health: i64) -> (w: World)
        requires
            coord_ok(player_pos),
        ensures
            w.time == 0,
            w.spawner.timer == (RepeatTimer {
                period: SPAWN_PERIOD,
                elapsed: 0,
                paused: false,
                just_finished: false,
            }),
            w.player_pos == player_pos,
            w.player.current_health == player_health,
            w.enemies@ == Seq::<Enemy>::empty(),
            w.wf(),
    {
        let w = World {
            time: 0,
            spawner: Spawner { timer: RepeatTimer::new(SPAWN_PERIOD) },
            player_pos,
            player: Living::new(player_health),
            enemies: Vec::new(),
        };
        proof {
            assert(w.enemies@ =~= Seq::<Enemy>::empty());
        }
        w
    }

    /// One simulation tick: advances the clock by `delta`, spawns when the
    /// spawn timer fires (placed by `rand`), steers every enemy toward the
    /// target, applies this tick's contact events in order, then advances
    /// every attack timer and subtracts each firing enemy's damage from
    /// the target's health.
    pub fn step(&mut self, delta: u64, rand: u32, events: &Vec<ContactEvent>)
        requires
            old(self).wf(),
            old(self).time + delta <= TIME_LIMIT,
            events_ok(events@, old(self).step_spawned(delta, rand).len() as int),
            old(self).player.current_health - (old(self).enemies@.len() + 1) * (
            DAMAGE_LIMIT as int) >= i64::MIN,
        ensures
            final(self).time == old(self).time + delta,
            final(self).player_pos == old(self).player_pos,
            final(self).spawner.timer == old(self).spawner.timer.tick_spec(delta),
            final(self).enemies@ == old(self).step_enemies(delta, rand, events@),
            final(self).player.current_health == old(self).player.current_health - old(
                self,
            ).step_damage(delta, rand, events@),
            final(self).wf(),
    {
        let now = self.time + delta;
        self.time = now;
        let spawned = spawn_enemies(&mut self.spawner, delta, rand);
        match spawned {
            Option::Some(e) => {
                self.enemies.push(e);
            },
            Option::None => {},
        }
        proof {
            lemma_spawn_position(rand);
            assert(self.enemies@ == old(self).step_spawned(delta, rand));
            assert(forall|i: int|
                0 <= i < self.enemies@.len() ==> enemy_wf(#[trigger] self.enemies@[i]));
            assert(forall|i: int|
                0 <= i < self.enemies@.len() ==> collision_ok(#[trigger] self.enemies@[i], now));
        }
        let ghost spawned_seq = self.enemies@;
        enemy_chase(self.player_pos, &mut self.enemies);
        proof {
            assert(forall|i: int|
                0 <= i < self.enemies@.len() ==> enemy_wf(#[trigger] self.enemies@[i]));
            assert(forall|i: int|
                0 <= i < self.enemies@.len() ==> collision_ok(#[trigger] self.enemies@[i], now));
        }
        let ghost chased_seq = self.enemies@;
        enemy_set_attacking(&mut self.enemies, events, now);
        proof {
            lemma_apply_events_frame(chased_seq, events@, now);
            assert(forall|i: int|
                0 <= i < self.enemies@.len() ==> enemy_wf(#[trigger] self.enemies@[i]));
            assert(forall|i: int|
                0 <= i < self.enemies@.len() ==> collision_ok(#[trigger] self.enemies@[i], now));
        }
        enemy_trigger_attack(&mut self.enemies, &mut self.player, delta, now);
    }
}

} // verus!
