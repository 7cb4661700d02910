//! Enemy lifecycle and combat timing: interval-based spawning with
//! randomized placement, pursuit steering for every live enemy, and the
//! per-enemy attack timer that pauses and resumes on contact events while
//! dealing periodic damage to the target.
//!
//! Each update works on plain inputs handed in by the caller: the elapsed
//! delta, the monotonic time since start, one random word, and the contact
//! events the physics collaborator drained this tick.

use vstd::prelude::*;
use vstd::pervasive::VecAdditionalExecFns;
use vstd::arithmetic::div_mod::lemma_div_is_ordered;
use vstd::arithmetic::div_mod::lemma_div_pos_is_pos;
use vstd::arithmetic::div_mod::lemma_fundamental_div_mod_converse;
use vstd::arithmetic::mul::lemma_mul_inequality;
use crate::math::coord_ok;
use crate::math::pursuit_spec;
use crate::math::pursuit_velocity;
use crate::math::Vec2i;
use crate::math::COORD_LIMIT;
use crate::math::POS_SCALE;
use crate::timer::RepeatTimer;
use crate::timer::PERIOD_LIMIT;

verus! {

/// Duration between two spawns, in time sub-units.
pub const SPAWN_PERIOD: u64 = 1000;

/// Duration between two damage ticks of an enemy in contact.
pub const ATTACK_PERIOD: u64 = 1000;

/// Health points an enemy in contact takes from the target per firing.
pub const ENEMY_DAMAGE: i32 = 2;

/// Health pool a fresh enemy starts with.
pub const ENEMY_MAX_HEALTH: i64 = 5;

/// Largest damage value a well-formed fighter may carry.
pub const DAMAGE_LIMIT: i32 = 1_000_000;

/// Lowest spawn coordinate: one hundred world units out, in sub-units.
pub const SPAWN_BASE: i64 = 100 * POS_SCALE;

/// Width of the spawn coordinate range: one hundred world units.
pub const SPAWN_SPAN: i64 = 100 * POS_SCALE;

/// One more than the largest random word; spawn placement reads the word
/// as a fraction of this range.
pub const RAND_RANGE: u64 = 0x1_0000_0000;

/// Speed at which enemies pursue the target: ten world units per time
/// unit, in sub-units.
pub const CHASE_SPEED: i64 = 10 * POS_SCALE;

/// A health pool. It is deliberately not clamped at zero: damage may drive
/// it negative.
#[derive(Clone, Copy, PartialEq, Eq, Debug)]
pub struct Living {
    pub current_health: i64,
}

impl Living {
    /// A full health pool.
    pub fn new(max_health: i64) -> (l: Living)
        ensures
            l.current_health == max_health,
    {
        Living { current_health: max_health }
    }
}

/// The attack state of one enemy: its fixed damage, the repeating timer
/// that accumulates in-contact time, and, right after a contact ended, the
/// instant at which it ended.
#[derive(Clone, Copy, PartialEq, Eq, Debug)]
pub struct Fighter {
    pub damage: i32,
    pub ticker: RepeatTimer,
    pub collision_left: Option<u64>,
}

/// One hostile actor: position and velocity in fixed-point sub-units, its
/// own health pool, and its attack state.
#[derive(Clone, Copy, PartialEq, Eq, Debug)]
pub struct Enemy {
    pub pos: Vec2i,
    pub vel: Vec2i,
    pub living: Living,
    pub fighter: Fighter,
}

/// The process-wide spawner state: the repeating spawn interval timer.
#[derive(Clone, Copy, PartialEq, Eq, Debug)]
pub struct Spawner {
    pub timer: RepeatTimer,
}

/// One contact notification from the physics collaborator, carrying the
/// index of the enemy whose body it concerns.
#[derive(Clone, Copy, PartialEq, Eq, Debug)]
pub enum ContactEvent {
    Begin(usize),
    End(usize),
}

/// A valid fighter: a valid ticker and a bounded, nonnegative damage.
pub open spec fn fighter_wf(f: Fighter) -> bool {
    &&& f.ticker.wf()
    &&& 0 <= f.damage <= DAMAGE_LIMIT
}

/// A valid enemy: a valid fighter at a position within coordinate bounds.
pub open spec fn enemy_wf(e: Enemy) -> bool {
    &&& fighter_wf(e.fighter)
    &&& coord_ok(e.pos)
}

/// A recorded contact-end instant never lies in the future of `now`.
pub open spec fn collision_ok(e: Enemy, now: u64) -> bool {
    match e.fighter.collision_left {
        Option::Some(t) => t <= now,
        Option::None => true,
    }
}

/// The spawn coordinate that the random word `rand` places: the base plus
/// `rand / RAND_RANGE` of the span, used for both axes.
pub open spec fn spawn_coord(rand: u32) -> int {
    SPAWN_BASE + (rand * SPAWN_SPAN) / (RAND_RANGE as int)
}

/// The enemy a spawn request creates: placed on the diagonal at the
/// randomized coordinate, at rest, at full health, with its attack ticker
/// created paused at zero progress.
pub open spec fn new_enemy_spec(rand: u32) -> Enemy {
    Enemy {
        pos: Vec2i { x: spawn_coord(rand) as i64, y: spawn_coord(rand) as i64 },
        vel: Vec2i { x: 0, y: 0 },
        living: Living { current_health: ENEMY_MAX_HEALTH },
        fighter: Fighter {
            damage: ENEMY_DAMAGE,
            ticker: RepeatTimer {
                period: ATTACK_PERIOD,
                elapsed: 0,
                paused: true,
                just_finished: false,
            },
            collision_left: Option::None,
        },
    }
}

/// The randomized spawn offset lies in `[0, SPAWN_SPAN)`.
pub proof fn lemma_spawn_offset_range(rand: u32)
    ensures
        0 <= (rand * SPAWN_SPAN) / (RAND_RANGE as int) < SPAWN_SPAN,
{
    lemma_mul_inequality(rand as int, 0xFFFF_FFFF, SPAWN_SPAN as int);
    lemma_div_is_ordered(0, rand * SPAWN_SPAN, RAND_RANGE as int);
    lemma_div_is_ordered(rand * SPAWN_SPAN, 0xFFFF_FFFF * SPAWN_SPAN, RAND_RANGE as int);
    lemma_fundamental_div_mod_converse(
        0xFFFF_FFFF * SPAWN_SPAN,
        RAND_RANGE as int,
        SPAWN_SPAN - 1,
        RAND_RANGE - SPAWN_SPAN,
    );
    lemma_div_pos_is_pos(rand * SPAWN_SPAN, RAND_RANGE as int);
}

/// Every spawn position lies on the diagonal, inside the spawn band: both
/// coordinates are equal and fall in `[SPAWN_BASE, SPAWN_BASE + SPAWN_SPAN)`.
pub proof fn lemma_spawn_position(rand: u32)
    ensures
        new_enemy_spec(rand).pos.x == new_enemy_spec(rand).pos.y,
        SPAWN_BASE <= new_enemy_spec(rand).pos.x < SPAWN_BASE + SPAWN_SPAN,
        enemy_wf(new_enemy_spec(rand)),
{
    lemma_spawn_offset_range(rand);
}

/// Advances the spawn interval timer by `delta`; exactly when it fires,
/// hands back the one enemy to create this update, placed by `rand`.
pub fn spawn_enemies(spawner: &mut Spawner, delta: u64, rand: u32) -> (spawned: Option<Enemy>)
    requires
        old(spawner).timer.wf(),
        old(spawner).timer.elapsed + delta <= u64::MAX,
    ensures
        final(spawner).timer == old(spawner).timer.tick_spec(delta),
        final(spawner).timer.wf(),
        spawned == if old(spawner).timer.tick_spec(delta).just_finished {
            Option::Some(new_enemy_spec(rand))
        } else {
            Option::None::<Enemy>
        },
{
    spawner.timer.tick(delta);
    if spawner.timer.just_finished {
        proof {
            lemma_spawn_offset_range(rand);
        }
        let offset = ((rand as u64) * (SPAWN_SPAN as u64)) / RAND_RANGE;
        let coord = SPAWN_BASE + (offset as i64);
        Option::Some(
            Enemy {
                pos: Vec2i { x: coord, y: coord },
                vel: Vec2i { x: 0, y: 0 },
                living: Living { current_health: ENEMY_MAX_HEALTH },
                fighter: Fighter {
                    damage: ENEMY_DAMAGE,
                    ticker: RepeatTimer {
                        period: ATTACK_PERIOD,
                        elapsed: 0,
                        paused: true,
                        just_finished: false,
                    },
                    collision_left: Option::None,
                },
            },
        )
    } else {
        Option::None
    }
}

/// One enemy after steering: its velocity points at the target with the
/// fixed chase speed; everything else is untouched.
pub open spec fn chase_one(e: Enemy, target: Vec2i) -> Enemy {
    Enemy { vel: pursuit_spec(e.pos, target, CHASE_SPEED), ..e }
}

/// All enemies after steering.
pub open spec fn chase_all(s: Seq<Enemy>, target: Vec2i) -> Seq<Enemy> {
    s.map_values(|e: Enemy| chase_one(e, target))
}

/// Steers every live enemy toward the target position.
pub fn enemy_chase(target: Vec2i, enemies: &mut Vec<Enemy>)
    requires
        coord_ok(target),
        forall|i: int| 0 <= i < old(enemies)@.len() ==> enemy_wf(#[trigger] old(enemies)@[i]),
    ensures
        final(enemies)@ == chase_all(old(enemies)@, target),
{
    let n = enemies.len();
    let mut i: usize = 0;
    while i < n
        invariant
            n == old(enemies)@.len(),
            i <= n,
            enemies@.len() == n,
            coord_ok(target),
            forall|j: int| 0 <= j < n ==> enemy_wf(#[trigger] old(enemies)@[j]),
            forall|j: int| 0 <= j < i ==> enemies@[j] == chase_one(#[trigger] old(enemies)@[j], target),
            forall|j: int| i <= j < n ==> enemies@[j] == #[trigger] old(enemies)@[j],
        decreases n - i,
    {
        let mut e = enemies[i];
        proof {
            assert(e == old(enemies)@[i as int]);
            assert(enemy_wf(old(enemies)@[i as int]));
        }
        e.vel = pursuit_velocity(e.pos, target, CHASE_SPEED);
        enemies.set(i, e);
        i = i + 1;
    }
    proof {
        assert(enemies@ =~= chase_all(old(enemies)@, target));
    }
}

/// One enemy after a contact-begin: its attack ticker resumes; the progress
/// already accumulated is kept.
pub open spec fn begin_contact(e: Enemy) -> Enemy {
    Enemy {
        fighter: Fighter { ticker: RepeatTimer { paused: false, ..e.fighter.ticker }, ..e.fighter },
        ..e
    }
}

/// One enemy after a contact-end at instant `now`: its attack ticker is
/// paused and the instant is recorded for the reconciliation on the next
/// update.
pub open spec fn end_contact(e: Enemy, now: u64) -> Enemy {
    Enemy {
        fighter: Fighter {
            ticker: RepeatTimer { paused: true, ..e.fighter.ticker },
            collision_left: Option::Some(now),
            ..e.fighter
        },
        ..e
    }
}

/// The index of the enemy an event concerns.
pub open spec fn event_index(ev: ContactEvent) -> int {
    match ev {
        ContactEvent::Begin(i) => i as int,
        ContactEvent::End(i) => i as int,
    }
}

/// Every event's index falls inside a roster of `n` enemies.
pub open spec fn events_ok(events: Seq<ContactEvent>, n: int) -> bool {
    forall|k: int| 0 <= k < events.len() ==> 0 <= #[trigger] event_index(events[k]) < n
}

/// The roster after one contact event.
pub open spec fn apply_event(s: Seq<Enemy>, ev: ContactEvent, now: u64) -> Seq<Enemy> {
    match ev {
        ContactEvent::Begin(i) => s.update(i as int, begin_contact(s[i as int])),
        ContactEvent::End(i) => s.update(i as int, end_contact(s[i as int], now)),
    }
}

/// The roster after a whole tick's contact events, applied in event order.
pub open spec fn apply_events(s: Seq<Enemy>, events: Seq<ContactEvent>, now: u64) -> Seq<Enemy>
    decreases events.len(),
{
    if events.len() == 0 {
        s
    } else {
        apply_event(apply_events(s, events.drop_last(), now), events.last(), now)
    }
}

/// Contact events keep the roster's length.
pub proof fn lemma_apply_events_len(s: Seq<Enemy>, events: Seq<ContactEvent>, now: u64)
    requires
        events_ok(events, s.len() as int),
    ensures
        apply_events(s, events, now).len() == s.len(),
    decreases events.len(),
{
    if events.len() > 0 {
        let evs0 = events.drop_last();
        assert(events_ok(evs0, s.len() as int)) by {
            assert(forall|k: int| 0 <= k < evs0.len() ==> evs0[k] == #[trigger] events[k]);
        }
        lemma_apply_events_len(s, evs0, now);
        let prev = apply_events(s, evs0, now);
        assert(event_index(events[events.len() - 1]) < s.len());
        match events.last() {
            ContactEvent::Begin(i) => {
                assert(apply_event(prev, events.last(), now) == prev.update(
                    i as int,
                    begin_contact(prev[i as int]),
                ));
            },
            ContactEvent::End(i) => {
                assert(apply_event(prev, events.last(), now) == prev.update(
                    i as int,
                    end_contact(prev[i as int], now),
                ));
            },
        }
    }
}

/// Contact events touch only attack state: the roster keeps its length,
/// validity, position, velocity and health, and every recorded contact-end
/// instant afterwards is at most `now`.
pub proof fn lemma_apply_events_frame(s: Seq<Enemy>, events: Seq<ContactEvent>, now: u64)
    requires
        events_ok(events, s.len() as int),
        forall|i: int| 0 <= i < s.len() ==> collision_ok(#[trigger] s[i], now),
    ensures
        apply_events(s, events, now).len() == s.len(),
        forall|i: int|
            0 <= i < s.len() ==> {
                let e2 = #[trigger] apply_events(s, events, now)[i];
                &&& e2.pos == s[i].pos
                &&& e2.vel == s[i].vel
                &&& e2.living == s[i].living
                &&& e2.fighter.damage == s[i].fighter.damage
                &&& e2.fighter.ticker.period == s[i].fighter.ticker.period
                &&& e2.fighter.ticker.elapsed == s[i].fighter.ticker.elapsed
                &&& collision_ok(e2, now)
                &&& (enemy_wf(s[i]) ==> enemy_wf(e2))
            },
    decreases events.len(),
{
    if events.len() > 0 {
        let evs0 = events.drop_last();
        assert(events_ok(evs0, s.len() as int)) by {
            assert(forall|k: int| 0 <= k < evs0.len() ==> evs0[k] == #[trigger] events[k]);
        }
        lemma_apply_events_frame(s, evs0, now);
        let prev = apply_events(s, evs0, now);
        let ev = events.last();
        assert(event_index(events[events.len() - 1]) < s.len());
        let cur = apply_events(s, events, now);
        assert(cur == apply_event(prev, ev, now));
        assert forall|i: int| 0 <= i < s.len() implies {
            let e2 = #[trigger] cur[i];
            &&& e2.pos == s[i].pos
            &&& e2.vel == s[i].vel
            &&& e2.living == s[i].living
            &&& e2.fighter.damage == s[i].fighter.damage
            &&& e2.fighter.ticker.period == s[i].fighter.ticker.period
            &&& e2.fighter.ticker.elapsed == s[i].fighter.ticker.elapsed
            &&& collision_ok(e2, now)
            &&& (enemy_wf(s[i]) ==> enemy_wf(e2))
        } by {
            let j = event_index(ev);
            if i == j {
                match ev {
                    ContactEvent::Begin(_) => {
                        assert(cur[i] == begin_contact(prev[i]));
                    },
                    ContactEvent::End(_) => {
                        assert(cur[i] == end_contact(prev[i], now));
                    },
                }
            } else {
                assert(cur[i] == prev[i]);
            }
        }
    }
}

/// One fighter after the per-update advance: with no contact-end recorded
/// the ticker advances by `delta`; with one recorded at `t`, the record is
/// cleared and the ticker advances by `now - t` instead, for this one
/// update.
pub open spec fn fighter_update(f: Fighter, delta: u64, now: u64) -> Fighter {
    match f.collision_left {
        Option::None => Fighter { ticker: f.ticker.tick_spec(delta), ..f },
        Option::Some(t) => Fighter {
            ticker: f.ticker.tick_spec((now - t) as u64),
            collision_left: Option::None,
            ..f
        },
    }
}

/// Whether the fighter's ticker fires on this update.
pub open spec fn fighter_fires(f: Fighter, delta: u64, now: u64) -> bool {
    fighter_update(f, delta, now).ticker.just_finished
}

/// One enemy after the per-update advance of its fighter.
pub open spec fn update_enemy(e: Enemy, delta: u64, now: u64) -> Enemy {
    Enemy { fighter: fighter_update(e.fighter, delta, now), ..e }
}

/// All enemies after the per-update advance.
pub open spec fn update_all(s: Seq<Enemy>, delta: u64, now: u64) -> Seq<Enemy> {
    s.map_values(|e: Enemy| update_enemy(e, delta, now))
}

/// Total damage the roster deals this update: the fixed damage of each
/// enemy whose ticker fires, and nothing from any other.
pub open spec fn damage_total(s: Seq<Enemy>, delta: u64, now: u64) -> int
    decreases s.len(),
{
    if s.len() == 0 {
        0
    } else {
        damage_total(s.drop_last(), delta, now) + if fighter_fires(s.last().fighter, delta, now) {
            s.last().fighter.damage as int
        } else {
            0
        }
    }
}

/// Damage dealt in one update is never negative and never exceeds one
/// `DAMAGE_LIMIT` per enemy: under continuous contact the target's health
/// decreases monotonically, and never by more than the roster can deal.
pub proof fn lemma_damage_total_bounds(s: Seq<Enemy>, delta: u64, now: u64)
    requires
        forall|i: int| 0 <= i < s.len() ==> fighter_wf(#[trigger] s[i].fighter),
    ensures
        0 <= damage_total(s, delta, now) <= s.len() * (DAMAGE_LIMIT as int),
    decreases s.len(),
{
    if s.len() == 0 {
    } else {
        assert(forall|i: int|
            0 <= i < s.drop_last().len() ==> #[trigger] s.drop_last()[i] == s[i]);
        lemma_damage_total_bounds(s.drop_last(), delta, now);
        assert(fighter_wf(s[s.len() - 1].fighter));
        lemma_mul_inequality(s.len() - 1, s.len() as int, DAMAGE_LIMIT as int);
    }
}

/// While no enemy is in contact — every attack ticker paused — no damage
/// is dealt: the target's health is unaffected.
pub proof fn lemma_idle_enemies_deal_no_damage(s: Seq<Enemy>, delta: u64, now: u64)
    requires
        forall|i: int| 0 <= i < s.len() ==> (#[trigger] s[i]).fighter.ticker.paused,
    ensures
        damage_total(s, delta, now) == 0,
    decreases s.len(),
{
    if s.len() > 0 {
        assert(forall|i: int|
            0 <= i < s.drop_last().len() ==> #[trigger] s.drop_last()[i] == s[i]);
        lemma_idle_enemies_deal_no_damage(s.drop_last(), delta, now);
        assert(s[s.len() - 1].fighter.ticker.paused);
    }
}

/// An enemy in unbroken contact fires exactly on the updates where its
/// accumulated in-contact time crosses a multiple of the attack period:
/// with `total` the time accumulated since the ticker last read zero, one
/// update by `delta` fires exactly when `total + delta` reaches the next
/// multiple of the period, never twice, and afterwards the ticker again
/// holds the remainder — so firings fall at the period, twice the period,
/// three times the period, and so on, of in-contact time.
pub proof fn lemma_contact_fires_each_period(f: Fighter, delta: u64, now: u64, total: int)
    requires
        fighter_wf(f),
        !f.ticker.paused,
        f.collision_left is None,
        total >= 0,
        f.ticker.elapsed == total % (f.ticker.period as int),
    ensures
        fighter_fires(f, delta, now) <==> (total + delta) / (f.ticker.period as int) > total / (
        f.ticker.period as int),
        fighter_update(f, delta, now).ticker.elapsed == (total + delta) % (f.ticker.period as int),
        fighter_update(f, delta, now).collision_left is None,
        !fighter_update(f, delta, now).ticker.paused,
        fighter_update(f, delta, now).ticker.period == f.ticker.period,
{
    crate::timer::lemma_tick_fires_on_crossing(f.ticker, delta, total);
}

/// Total duration of a sequence of update deltas.
pub open spec fn sum_deltas(ds: Seq<u64>) -> int
    decreases ds.len(),
{
    if ds.len() == 0 {
        0
    } else {
        sum_deltas(ds.drop_last()) + ds.last()
    }
}

/// The fighter after a whole sequence of updates, oldest first.
pub open spec fn run_fighter(f: Fighter, ds: Seq<u64>, now: u64) -> Fighter
    decreases ds.len(),
{
    if ds.len() == 0 {
        f
    } else {
        fighter_update(run_fighter(f, ds.drop_last(), now), ds.last(), now)
    }
}

/// How many of the updates in the sequence fire.
pub open spec fn count_fires(f: Fighter, ds: Seq<u64>, now: u64) -> int
    decreases ds.len(),
{
    if ds.len() == 0 {
        0
    } else {
        count_fires(f, ds.drop_last(), now) + if fighter_fires(
            run_fighter(f, ds.drop_last(), now),
            ds.last(),
            now,
        ) {
            1int
        } else {
            0int
        }
    }
}

proof fn lemma_sum_deltas_nonneg(ds: Seq<u64>)
    ensures
        sum_deltas(ds) >= 0,
    decreases ds.len(),
{
    if ds.len() > 0 {
        lemma_sum_deltas_nonneg(ds.drop_last());
    }
}

/// The fire schedule under unbroken contact: a fighter in contact from the
/// start, updated by any sequence of deltas none larger than its period,
/// fires exactly `floor(total / period)` times over the sequence — one
/// firing for the period, one for twice the period, and so on — and ends
/// holding `total % period` as progress. No firing is lost, duplicated or
/// shifted by how the total is cut into deltas.
pub proof fn lemma_unbroken_contact_fire_schedule(f: Fighter, ds: Seq<u64>, now: u64)
    requires
        fighter_wf(f),
        !f.ticker.paused,
        f.collision_left is None,
        f.ticker.elapsed == 0,
        forall|k: int| 0 <= k < ds.len() ==> #[trigger] ds[k] <= f.ticker.period,
    ensures
        run_fighter(f, ds, now).ticker.elapsed == sum_deltas(ds) % (f.ticker.period as int),
        count_fires(f, ds, now) == sum_deltas(ds) / (f.ticker.period as int),
        run_fighter(f, ds, now).ticker.period == f.ticker.period,
        !run_fighter(f, ds, now).ticker.paused,
        run_fighter(f, ds, now).collision_left is None,
        fighter_wf(run_fighter(f, ds, now)),
    decreases ds.len(),
{
    let p = f.ticker.period as int;
    if ds.len() == 0 {
        vstd::arithmetic::div_mod::lemma_small_mod(0, f.ticker.period as nat);
        vstd::arithmetic::div_mod::lemma_div_of0(p);
    } else {
        let ds0 = ds.drop_last();
        assert(forall|k: int| 0 <= k < ds0.len() ==> ds0[k] == #[trigger] ds[k]);
        lemma_unbroken_contact_fire_schedule(f, ds0, now);
        lemma_sum_deltas_nonneg(ds0);
        let f1 = run_fighter(f, ds0, now);
        let total0 = sum_deltas(ds0);
        let d = ds.last();
        lemma_contact_fires_each_period(f1, d, now, total0);
        let q = total0 / p;
        let q2 = (total0 + d) / p;
        vstd::arithmetic::div_mod::lemma_div_is_ordered(total0, total0 + d, p);
        vstd::arithmetic::div_mod::lemma_fundamental_div_mod(total0, p);
        vstd::arithmetic::div_mod::lemma_fundamental_div_mod(total0 + d, p);
        vstd::arithmetic::div_mod::lemma_mod_bound(total0, p);
        vstd::arithmetic::div_mod::lemma_mod_bound(total0 + d, p);
        assert(q2 <= q + 1) by (nonlinear_arith)
            requires
                total0 == p * q + total0 % p,
                total0 + d == p * q2 + (total0 + d) % p,
                0 <= total0 % p < p,
                0 <= (total0 + d) % p < p,
                0 <= d <= p,
                p > 0;
    }
}

/// The reconciliation rule for the first update after a contact gap: with
/// a contact-end recorded at `t` and contact since resumed, the update
/// advances the ticker by `now - t` in place of `delta`, clears the
/// record, and — when no firing results — leaves the accumulated progress
/// at exactly its frozen value plus `now - t`: neither double-counted nor
/// reset.
pub proof fn lemma_resume_reconciliation(f: Fighter, delta: u64, now: u64, t: u64)
    requires
        fighter_wf(f),
        !f.ticker.paused,
        f.collision_left == Option::Some(t),
        t <= now,
    ensures
        fighter_update(f, delta, now) == (Fighter {
            ticker: f.ticker.tick_spec((now - t) as u64),
            collision_left: Option::None,
            ..f
        }),
        f.ticker.elapsed + (now - t) < f.ticker.period ==> fighter_update(
            f,
            delta,
            now,
        ).ticker.elapsed == f.ticker.elapsed + (now - t),
{
}

/// Applies one tick's contact events, in event order: a begin resumes the
/// enemy's attack ticker; an end pauses it and records `now` as the
/// instant the contact left.
pub fn enemy_set_attacking(enemies: &mut Vec<Enemy>, events: &Vec<ContactEvent>, now: u64)
    requires
        events_ok(events@, old(enemies)@.len() as int),
    ensures
        final(enemies)@ == apply_events(old(enemies)@, events@, now),
{
    let n = events.len();
    let mut k: usize = 0;
    while k < n
        invariant
            n == events@.len(),
            k <= n,
            events_ok(events@, old(enemies)@.len() as int),
            enemies@.len() == old(enemies)@.len(),
            enemies@ == apply_events(old(enemies)@, events@.take(k as int), now),
        decreases n - k,
    {
        proof {
            assert(events_ok(events@.take(k as int), old(enemies)@.len() as int)) by {
                assert(forall|j: int|
                    0 <= j < k ==> events@.take(k as int)[j] == #[trigger] events@[j]);
            }
            lemma_apply_events_len(old(enemies)@, events@.take(k as int), now);
            assert(event_index(events@[k as int]) < enemies@.len());
        }
        let ev = events[k];
        match ev {
            ContactEvent::Begin(j) => {
                let mut e = enemies[j];
                e.fighter.ticker.paused = false;
                enemies.set(j, e);
            },
            ContactEvent::End(j) => {
                let mut e = enemies[j];
                e.fighter.ticker.paused = true;
                e.fighter.collision_left = Option::Some(now);
                enemies.set(j, e);
            },
        }
        proof {
            assert(events@.take(k + 1).drop_last() =~= events@.take(k as int));
            assert(events@.take(k + 1).last() == events@[k as int]);
            assert(enemies@ =~= apply_events(old(enemies)@, events@.take(k + 1), now));
        }
        k = k + 1;
    }
    proof {
        assert(events@.take(n as int) =~= events@);
    }
}

/// Advances every enemy's attack ticker — by the delta, or by the
/// reconciliation duration after a contact gap — and subtracts each firing
/// enemy's fixed damage from the target's health pool, in roster order.
pub fn enemy_trigger_attack(enemies: &mut Vec<Enemy>, player: &mut Living, delta: u64, now: u64)
    requires
        forall|i: int| 0 <= i < old(enemies)@.len() ==> enemy_wf(#[trigger] old(enemies)@[i]),
        forall|i: int| 0 <= i < old(enemies)@.len() ==> collision_ok(#[trigger] old(enemies)@[i], now),
        delta <= u64::MAX - PERIOD_LIMIT,
        now <= u64::MAX - PERIOD_LIMIT,
        old(player).current_health - old(enemies)@.len() * (DAMAGE_LIMIT as int) >= i64::MIN,
    ensures
        final(enemies)@ == update_all(old(enemies)@, delta, now),
        forall|i: int| 0 <= i < old(enemies)@.len() ==> enemy_wf(#[trigger] final(enemies)@[i]),
        forall|i: int|
            0 <= i < old(enemies)@.len() ==> (#[trigger] final(enemies)@[i]).fighter.collision_left
                is None,
        final(player).current_health == old(player).current_health - damage_total(
            old(enemies)@,
            delta,
            now,
        ),
{
    let n = enemies.len();
    let mut i: usize = 0;
    while i < n
        invariant
            n == old(enemies)@.len(),
            i <= n,
            enemies@.len() == n,
            delta <= u64::MAX - PERIOD_LIMIT,
            now <= u64::MAX - PERIOD_LIMIT,
            forall|j: int| 0 <= j < n ==> enemy_wf(#[trigger] old(enemies)@[j]),
            forall|j: int| 0 <= j < n ==> collision_ok(#[trigger] old(enemies)@[j], now),
            forall|j: int|
                0 <= j < i ==> enemies@[j] == update_enemy(#[trigger] old(enemies)@[j], delta, now),
            forall|j: int| 0 <= j < i ==> enemy_wf(#[trigger] enemies@[j]),
            forall|j: int| 0 <= j < i ==> (#[trigger] enemies@[j]).fighter.collision_left is None,
            forall|j: int| i <= j < n ==> enemies@[j] == #[trigger] old(enemies)@[j],
            old(player).current_health - n * (DAMAGE_LIMIT as int) >= i64::MIN,
            player.current_health == old(player).current_health - damage_total(
                old(enemies)@.take(i as int),
                delta,
                now,
            ),
        decreases n - i,
    {
        proof {
            assert(forall|j: int|
                0 <= j < i ==> #[trigger] old(enemies)@.take(i as int)[j] == old(enemies)@[j]);
            lemma_damage_total_bounds(old(enemies)@.take(i as int), delta, now);
            lemma_mul_inequality(i as int, n as int, DAMAGE_LIMIT as int);
        }
        let mut e = enemies[i];
        match e.fighter.collision_left {
            Option::None => {
                e.fighter.ticker.tick(delta);
            },
            Option::Some(t) => {
                e.fighter.collision_left = Option::None;
                e.fighter.ticker.tick(now - t);
            },
        }
        if e.fighter.ticker.just_finished {
            player.current_health = player.current_health - (e.fighter.damage as i64);
        }
        enemies.set(i, e);
        proof {
            assert(e == update_enemy(old(enemies)@[i as int], delta, now));
            assert(old(enemies)@.take(i + 1).drop_last() =~= old(enemies)@.take(i as int));
            assert(old(enemies)@.take(i + 1).last() == old(enemies)@[i as int]);
        }
        i = i + 1;
    }
    proof {
        assert(old(enemies)@.take(n as int) =~= old(enemies)@);
        assert(enemies@ =~= update_all(old(enemies)@, delta, now));
    }
}

} // verus!
