use bevy_playground::collision::Contact;
use bevy_playground::damage::{drain, DamagePolicy};
use bevy_playground::entity::{Blink, CircularCollider, Color, Entity, Life, Role};
use bevy_playground::feedback::{mix, BlinkStyle};
use bevy_playground::fixed::{LIMIT, UNIT};
use bevy_playground::intent::{direction_of_keys, ShootingTimer};
use bevy_playground::kinematics::{accelerate, advance};
use bevy_playground::lifecycle::{Anchor, Axis, Fence, Laser};
use bevy_playground::tick::{Config, Input, Outcome, Range};
use bevy_playground::vector::Vec2;
use bevy_playground::world::{SpawnError, World};

const DT: u32 = 16_667;
const DRAG: u32 = 950_000;
const THRUST: i64 = 1_000 * UNIT;

fn ship(x: i64, y: i64, radius: i64, health: i64) -> Entity {
    let mut e = Entity::new(Role::Prop, Vec2::new(x, y));
    e.collider = Some(CircularCollider { radius });
    e.health = Some(health);
    e
}

fn pilot(x: i64, y: i64) -> Entity {
    let mut e = Entity::new(Role::Player, Vec2::new(x, y));
    e.velocity = Some(Vec2::zero());
    e.acceleration = Some(Vec2::zero());
    e
}

fn red() -> Color {
    Color::new(5 * 1_000_000, 0, 0, 1_000_000)
}

fn style() -> BlinkStyle {
    BlinkStyle { duration: 300_000, alert: red(), neutral: Color::white() }
}

fn bolt() -> Laser {
    Laser { speed: 300 * UNIT, radius: 10 * UNIT, health: 10 * UNIT, scale: UNIT, color: Color::white() }
}

fn config(policy: DamagePolicy) -> Config {
    Config {
        drag: DRAG,
        thrust: THRUST,
        policy,
        threshold: 1,
        style: style(),
        laser: bolt(),
        range: None,
        fence: None,
    }
}

fn idle() -> Input {
    Input { intent: Vec2::zero(), target: None, fire: false }
}

#[test]
fn mutual_health_lets_the_weaker_set_the_damage() {
    let mut world = World::new();
    let strong = world.spawn(ship(0, 0, 500_000, 1_000 * UNIT)).unwrap();
    let weak = world.spawn(ship(300_000, 0, 500_000, 10_000)).unwrap();
    let damages = world.handle_collisions(DamagePolicy::MutualHealth);
    assert_eq!(damages, vec![10_000, 10_000]);
    assert_eq!(world.get(strong).unwrap().health, Some(999_990_000));
    assert_eq!(world.get(weak).unwrap().health, Some(0));
    world.mark_dead(1);
    assert_eq!(world.life(strong), Life::Alive);
    assert_eq!(world.life(weak), Life::PendingDestroy);
    assert_eq!(world.sweep(), 1);
    assert_eq!(world.life(strong), Life::Alive);
    assert_eq!(world.life(weak), Life::Destroyed);
    assert_eq!(world.len(), 1);
}

#[test]
fn mutual_health_scenario_in_one_tick() {
    let mut world = World::new();
    let strong = world.spawn(ship(0, 0, 500_000, 1_000 * UNIT)).unwrap();
    let weak = world.spawn(ship(300_000, 0, 500_000, 10_000)).unwrap();
    let done = world.tick(99, &idle(), DT, &config(DamagePolicy::MutualHealth));
    assert_eq!(done, Outcome { removed: 1, shot: None });
    let left = world.get(strong).unwrap();
    assert_eq!(left.health, Some(999_990_000));
    assert_eq!(left.blink, Blink::Flashing(0));
    assert_eq!(left.color, red());
    assert_eq!(world.get(weak), None);
}

#[test]
fn three_way_pile_up_destroys_all_at_once() {
    let mut world = World::new();
    let a = world.spawn(ship(0, 0, 500_000, 2 * UNIT)).unwrap();
    let b = world.spawn(ship(100_000, 0, 500_000, 2 * UNIT)).unwrap();
    let c = world.spawn(ship(0, 100_000, 500_000, 2 * UNIT)).unwrap();
    let pairs = world.detect();
    assert_eq!(
        pairs,
        vec![
            Contact { first: 0, second: 1 },
            Contact { first: 0, second: 2 },
            Contact { first: 1, second: 2 },
        ]
    );
    let damages = world.handle_collisions(DamagePolicy::Fixed(UNIT));
    assert_eq!(damages, vec![2_000_000, 2_000_000, 2_000_000]);
    for id in [a, b, c] {
        assert_eq!(world.get(id).unwrap().health, Some(0));
        assert_eq!(world.life(id), Life::Alive);
    }
    world.mark_dead(1);
    for id in [a, b, c] {
        assert_eq!(world.life(id), Life::PendingDestroy);
    }
    assert_eq!(world.sweep(), 3);
    assert_eq!(world.len(), 0);
}

#[test]
fn one_held_key_accelerates_the_player() {
    let mut world = World::new();
    let player = world.spawn(pilot(0, 0)).unwrap();
    let right = direction_of_keys(false, false, false, true);
    assert_eq!(right, Vec2::new(UNIT, 0));
    world.handle_player_movement(player, &right, THRUST);
    assert_eq!(world.get(player).unwrap().acceleration, Some(Vec2::new(THRUST, 0)));
    world.handle_acceleration(DRAG, DT);
    let after = world.get(player).unwrap();
    assert_eq!(after.velocity, Some(Vec2::new(16_667_000, 0)));
    assert_eq!(after.acceleration, Some(Vec2::zero()));
    assert_eq!(after.position, Vec2::zero());
    world.move_entities(DT);
    assert_eq!(world.get(player).unwrap().position, Vec2::new(277_788, 0));
}

#[test]
fn player_coasts_on_the_next_tick() {
    let mut world = World::new();
    let player = world.spawn(pilot(0, 0)).unwrap();
    let cfg = config(DamagePolicy::MutualHealth);
    let held = Input { intent: Vec2::new(UNIT, 0), target: None, fire: false };
    world.tick(player, &held, DT, &cfg);
    let first = world.get(player).unwrap();
    assert_eq!(first.velocity, Some(Vec2::new(16_667_000, 0)));
    assert_eq!(first.position, Vec2::new(277_788, 0));
    world.tick(player, &idle(), DT, &cfg);
    let second = world.get(player).unwrap();
    assert_eq!(second.velocity, Some(Vec2::new(16_403_100, 0)));
    assert_eq!(second.position, Vec2::new(551_178, 0));
}

#[test]
fn velocity_component_formula() {
    assert_eq!(accelerate(0, 1_000 * UNIT, DRAG, DT), 16_667_000);
    assert_eq!(accelerate(UNIT, 0, DRAG, DT), UNIT - 15_834);
    assert_eq!(accelerate(-UNIT, 0, DRAG, DT), -UNIT + 15_834);
    assert_eq!(accelerate(1, 0, 1, 1), 0);
    assert_eq!(accelerate(0, 0, DRAG, DT), 0);
    assert_eq!(accelerate(LIMIT, LIMIT, 0, 2_000_000), LIMIT);
    assert_eq!(accelerate(UNIT, 0, 2_000_000, 1_000_000), -UNIT);
}

#[test]
fn position_component_formula() {
    assert_eq!(advance(0, 300 * UNIT, DT), 5_000_100);
    assert_eq!(advance(0, -300 * UNIT, DT), -5_000_100);
    assert_eq!(advance(7, 1, 999_999), 7);
    assert_eq!(advance(7, -1, 999_999), 7);
    assert_eq!(advance(LIMIT, UNIT, 1_000_000), LIMIT);
    assert_eq!(advance(-LIMIT, -UNIT, 1_000_000), -LIMIT);
}

#[test]
fn entity_without_acceleration_keeps_its_velocity() {
    let mut world = World::new();
    let mut prop = Entity::new(Role::Projectile, Vec2::zero());
    prop.velocity = Some(Vec2::new(300 * UNIT, 0));
    let id = world.spawn(prop).unwrap();
    world.handle_acceleration(DRAG, DT);
    world.move_entities(DT);
    let e = world.get(id).unwrap();
    assert_eq!(e.velocity, Some(Vec2::new(300 * UNIT, 0)));
    assert_eq!(e.position, Vec2::new(5_000_100, 0));
}

#[test]
fn entity_without_velocity_stays() {
    let mut world = World::new();
    let id = world.spawn(ship(5, 6, UNIT, UNIT)).unwrap();
    world.handle_acceleration(DRAG, DT);
    world.move_entities(DT);
    assert_eq!(world.get(id).unwrap().position, Vec2::new(5, 6));
}

#[test]
fn keys_map_to_directions() {
    assert_eq!(direction_of_keys(false, false, false, false), Vec2::zero());
    assert_eq!(direction_of_keys(true, false, false, false), Vec2::new(0, UNIT));
    assert_eq!(direction_of_keys(false, true, false, false), Vec2::new(0, -UNIT));
    assert_eq!(direction_of_keys(false, false, true, false), Vec2::new(-UNIT, 0));
    assert_eq!(direction_of_keys(true, true, true, true), Vec2::new(UNIT, -UNIT));
}

#[test]
fn diagonal_intent_is_normalised() {
    let mut world = World::new();
    let player = world.spawn(pilot(0, 0)).unwrap();
    world.handle_player_movement(player, &Vec2::new(UNIT, UNIT), THRUST);
    assert_eq!(
        world.get(player).unwrap().acceleration,
        Some(Vec2::new(707_106_000, 707_106_000))
    );
}

#[test]
fn fresh_intent_replaces_unconsumed_acceleration() {
    let mut world = World::new();
    let player = world.spawn(pilot(0, 0)).unwrap();
    world.handle_player_movement(player, &Vec2::new(UNIT, 0), THRUST);
    world.handle_player_movement(player, &Vec2::new(0, -UNIT), THRUST);
    assert_eq!(world.get(player).unwrap().acceleration, Some(Vec2::new(0, -THRUST)));
}

#[test]
fn zero_intent_changes_nothing() {
    let mut world = World::new();
    let player = world.spawn(pilot(0, 0)).unwrap();
    world.handle_player_movement(player, &Vec2::new(UNIT, 0), THRUST);
    world.handle_player_movement(player, &Vec2::zero(), THRUST);
    assert_eq!(world.get(player).unwrap().acceleration, Some(Vec2::new(THRUST, 0)));
}

#[test]
fn intent_needs_an_acceleration_component() {
    let mut world = World::new();
    let id = world.spawn(ship(0, 0, UNIT, UNIT)).unwrap();
    world.handle_player_movement(id, &Vec2::new(UNIT, 0), THRUST);
    assert_eq!(world.get(id).unwrap().acceleration, None);
}

#[test]
fn absent_player_is_a_no_op() {
    let mut world = World::new();
    let other = world.spawn(pilot(1, 2)).unwrap();
    let before = world.get(other).unwrap();
    world.handle_player_movement(77, &Vec2::new(UNIT, 0), THRUST);
    world.handle_player_orientation(77, Some(Vec2::new(5, 5)));
    assert_eq!(world.player_shooting(77, true, &bolt()), None);
    assert_eq!(world.get(other), Some(before));
    assert_eq!(world.len(), 1);
}

#[test]
fn player_turns_toward_the_pointer() {
    let mut world = World::new();
    let player = world.spawn(pilot(-300 * UNIT, 0)).unwrap();
    world.handle_player_orientation(player, Some(Vec2::new(300 * UNIT, 100 * UNIT)));
    assert_eq!(world.get(player).unwrap().forward, Vec2::new(986_393, 164_398));
    world.handle_player_orientation(player, None);
    assert_eq!(world.get(player).unwrap().forward, Vec2::new(986_393, 164_398));
    world.handle_player_orientation(player, Some(Vec2::new(-300 * UNIT, 0)));
    assert_eq!(world.get(player).unwrap().forward, Vec2::new(986_393, 164_398));
    world.handle_player_orientation(player, Some(Vec2::new(-300 * UNIT, -1)));
    assert_eq!(world.get(player).unwrap().forward, Vec2::new(0, -UNIT));
}

#[test]
fn shooting_timer_needs_an_interval() {
    assert_eq!(ShootingTimer::new(0), None);
    assert_eq!(ShootingTimer::new(5), Some(ShootingTimer { elapsed: 0, interval: 5 }));
}

#[test]
fn shooting_timer_repeats() {
    let mut timer = ShootingTimer::new(2_000_000).unwrap();
    assert!(!timer.tick(1_999_999));
    assert_eq!(timer.elapsed, 1_999_999);
    assert!(timer.tick(1));
    assert_eq!(timer.elapsed, 0);
    assert!(!timer.tick(500_000));
    assert!(timer.tick(1_600_000));
    assert_eq!(timer.elapsed, 100_000);
    assert_eq!(timer.interval, 2_000_000);
}

#[test]
fn shooting_timer_fires_once_for_a_long_tick() {
    let mut timer = ShootingTimer::new(1_000).unwrap();
    assert!(timer.tick(u32::MAX));
    assert_eq!(timer.elapsed, u32::MAX % 1_000);
    let mut late = ShootingTimer { elapsed: u32::MAX - 1, interval: u32::MAX };
    assert!(late.tick(u32::MAX));
    assert_eq!(late.elapsed, u32::MAX - 1);
}

#[test]
fn shot_leaves_along_the_heading() {
    let mut world = World::new();
    let player = world.spawn(pilot(-300 * UNIT, 7)).unwrap();
    world.handle_player_orientation(player, Some(Vec2::new(-300 * UNIT, 8)));
    assert_eq!(world.player_shooting(player, false, &bolt()), None);
    assert_eq!(world.len(), 1);
    let shot = world.player_shooting(player, true, &bolt()).unwrap();
    assert_eq!(world.len(), 2);
    let e = world.get(shot).unwrap();
    assert_eq!(e.id, shot);
    assert_eq!(e.role, Role::Projectile);
    assert_eq!(e.life, Life::Alive);
    assert_eq!(e.position, Vec2::new(-300 * UNIT, 7));
    assert_eq!(e.forward, Vec2::new(0, UNIT));
    assert_eq!(e.velocity, Some(Vec2::new(0, 300 * UNIT)));
    assert_eq!(e.acceleration, None);
    assert_eq!(e.collider, Some(CircularCollider { radius: 10 * UNIT }));
    assert_eq!(e.health, Some(10 * UNIT));
    assert_eq!(e.blink, Blink::Inactive);
}

#[test]
fn no_shot_without_a_free_id() {
    let mut world = World::starting_at(u64::MAX - 1);
    let player = world.spawn(pilot(0, 0)).unwrap();
    assert_eq!(player, u64::MAX - 1);
    assert_eq!(world.player_shooting(player, true, &bolt()), None);
    assert_eq!(world.len(), 1);
}

#[test]
fn spawn_refuses_what_cannot_be_stored() {
    let mut world = World::new();
    assert_eq!(world.spawn(ship(LIMIT + 1, 0, UNIT, UNIT)), Err(SpawnError::Invalid));
    assert_eq!(world.spawn(ship(0, 0, -1, UNIT)), Err(SpawnError::Invalid));
    assert_eq!(world.spawn(ship(0, 0, UNIT, -LIMIT - 1)), Err(SpawnError::Invalid));
    let mut lost = Entity::new(Role::Prop, Vec2::zero());
    lost.forward = Vec2::zero();
    assert_eq!(world.spawn(lost), Err(SpawnError::Invalid));
    let mut fast = Entity::new(Role::Prop, Vec2::zero());
    fast.velocity = Some(Vec2::new(0, LIMIT + 1));
    assert_eq!(world.spawn(fast), Err(SpawnError::Invalid));
    assert_eq!(world.len(), 0);
}

#[test]
fn spawn_stops_when_ids_run_out() {
    let mut world = World::starting_at(u64::MAX);
    assert_eq!(world.spawn(ship(0, 0, UNIT, UNIT)), Err(SpawnError::Exhausted));
    assert_eq!(world.spawn(ship(LIMIT + 1, 0, UNIT, UNIT)), Err(SpawnError::Invalid));
    assert_eq!(world.len(), 0);
}

#[test]
fn spawn_hands_out_ids_in_order() {
    let mut world = World::new();
    let mut named = ship(0, 0, UNIT, UNIT);
    named.id = 500;
    assert_eq!(world.spawn(named), Ok(0));
    assert_eq!(world.spawn(named), Ok(1));
    assert_eq!(world.at(0).id, 0);
    assert_eq!(world.at(1).id, 1);
    assert_eq!(world.position_of(1), Some(1));
    assert_eq!(world.position_of(2), None);
    assert_eq!(world.get(2), None);
    assert_eq!(world.life(2), Life::Destroyed);
}

#[test]
fn touching_circles_do_not_overlap() {
    let a = CircularCollider { radius: 500_000 };
    let b = CircularCollider { radius: 500_000 };
    let origin = Vec2::zero();
    assert!(!a.collides_with(&origin, &b, &Vec2::new(UNIT, 0)));
    assert!(a.collides_with(&origin, &b, &Vec2::new(UNIT - 1, 0)));
    assert!(!a.collides_with(&origin, &b, &Vec2::new(UNIT + 1, 0)));
    assert!(a.collides_with(&origin, &b, &Vec2::new(600_000, 799_999)));
    assert!(!a.collides_with(&origin, &b, &Vec2::new(600_000, 800_000)));
}

#[test]
fn points_never_overlap() {
    let a = CircularCollider { radius: 0 };
    let origin = Vec2::zero();
    assert!(!a.collides_with(&origin, &a, &origin));
    let b = CircularCollider { radius: 1 };
    assert!(a.collides_with(&origin, &b, &origin));
}

#[test]
fn colliders_at_the_edge_of_the_plane() {
    let a = CircularCollider { radius: LIMIT };
    let far = Vec2::new(LIMIT, LIMIT);
    let back = Vec2::new(-LIMIT, -LIMIT);
    assert!(!a.collides_with(&far, &a, &back));
    assert!(a.collides_with(&far, &a, &Vec2::new(LIMIT, -LIMIT + 1)));
    assert!(!a.collides_with(&far, &a, &Vec2::new(LIMIT, -LIMIT)));
}

#[test]
fn entity_without_collider_is_never_hit() {
    let mut world = World::new();
    world.spawn(pilot(0, 0)).unwrap();
    world.spawn(ship(0, 0, UNIT, UNIT)).unwrap();
    assert_eq!(world.detect(), Vec::<Contact>::new());
    assert_eq!(world.handle_collisions(DamagePolicy::Fixed(UNIT)), vec![0, 0]);
}

#[test]
fn collider_without_health_deals_no_damage() {
    let mut world = World::new();
    let mut wall = Entity::new(Role::Prop, Vec2::zero());
    wall.collider = Some(CircularCollider { radius: UNIT });
    world.spawn(wall).unwrap();
    let id = world.spawn(ship(0, 0, UNIT, 3 * UNIT)).unwrap();
    assert_eq!(world.detect(), vec![Contact { first: 0, second: 1 }]);
    assert_eq!(world.handle_collisions(DamagePolicy::Fixed(UNIT)), vec![0, 0]);
    assert_eq!(world.get(id).unwrap().health, Some(3 * UNIT));
}

#[test]
fn detection_reports_each_pair_once() {
    let mut world = World::new();
    world.spawn(ship(0, 0, UNIT, UNIT)).unwrap();
    world.spawn(ship(10 * UNIT, 0, UNIT, UNIT)).unwrap();
    world.spawn(ship(UNIT, 0, UNIT, UNIT)).unwrap();
    world.spawn(ship(9 * UNIT, 0, UNIT, UNIT)).unwrap();
    assert_eq!(
        world.detect(),
        vec![Contact { first: 0, second: 2 }, Contact { first: 1, second: 3 }]
    );
}

#[test]
fn damage_comes_from_the_health_before_the_tick() {
    let mut world = World::new();
    let a = world.spawn(ship(0, 0, UNIT, 5 * UNIT)).unwrap();
    let b = world.spawn(ship(1, 0, UNIT, 3 * UNIT)).unwrap();
    let c = world.spawn(ship(2, 0, UNIT, 4 * UNIT)).unwrap();
    let damages = world.handle_collisions(DamagePolicy::MutualHealth);
    assert_eq!(damages, vec![7 * UNIT as i128, 6 * UNIT as i128, 7 * UNIT as i128]);
    assert_eq!(world.get(a).unwrap().health, Some(-2 * UNIT));
    assert_eq!(world.get(b).unwrap().health, Some(-3 * UNIT));
    assert_eq!(world.get(c).unwrap().health, Some(-3 * UNIT));
}

#[test]
fn accumulate_counts_what_it_is_given() {
    let mut world = World::new();
    world.spawn(ship(0, 0, UNIT, 5 * UNIT)).unwrap();
    world.spawn(ship(50 * UNIT, 0, UNIT, 3 * UNIT)).unwrap();
    world.spawn(ship(90 * UNIT, 0, UNIT, 4 * UNIT)).unwrap();
    let pairs = vec![
        Contact { first: 0, second: 1 },
        Contact { first: 1, second: 2 },
        Contact { first: 0, second: 1 },
    ];
    assert_eq!(
        world.accumulate(DamagePolicy::MutualHealth, &pairs),
        vec![6 * UNIT as i128, 9 * UNIT as i128, 3 * UNIT as i128]
    );
    assert_eq!(world.accumulate(DamagePolicy::Fixed(-2), &pairs), vec![-4, -6, -2]);
    assert_eq!(world.accumulate(DamagePolicy::Fixed(7), &Vec::new()), vec![0, 0, 0]);
    assert_eq!(world.at(1).health, Some(3 * UNIT));
}

#[test]
fn apply_damage_lowers_health_once() {
    let mut world = World::new();
    let a = world.spawn(ship(0, 0, UNIT, 5 * UNIT)).unwrap();
    let b = world.spawn(pilot(0, 0)).unwrap();
    let c = world.spawn(ship(0, 0, UNIT, -LIMIT + 1)).unwrap();
    world.apply_damage(&vec![UNIT as i128, 9, 2]);
    assert_eq!(world.get(a).unwrap().health, Some(4 * UNIT));
    assert_eq!(world.get(b).unwrap().health, None);
    assert_eq!(world.get(c).unwrap().health, Some(-LIMIT));
}

#[test]
fn drain_saturates() {
    assert_eq!(drain(5, 3), 2);
    assert_eq!(drain(5, -3), 8);
    assert_eq!(drain(5, i128::MAX), -LIMIT);
    assert_eq!(drain(5, i128::MIN), LIMIT);
    assert_eq!(drain(i64::MIN, 0), -LIMIT);
    assert_eq!(drain(i64::MAX, (1i128 << 64) + 5), -LIMIT);
    assert_eq!(drain(LIMIT, 2 * LIMIT as i128), -LIMIT);
    assert_eq!(drain(-LIMIT, -2 * LIMIT as i128), LIMIT);
}

#[test]
fn policy_damage() {
    let a = ship(0, 0, UNIT, 5);
    let b = ship(0, 0, UNIT, 3);
    let c = pilot(0, 0);
    assert_eq!(DamagePolicy::MutualHealth.damage(&a, &b), 3);
    assert_eq!(DamagePolicy::MutualHealth.damage(&b, &a), 3);
    assert_eq!(DamagePolicy::Fixed(9).damage(&a, &b), 9);
    assert_eq!(DamagePolicy::Fixed(9).damage(&a, &c), 0);
    assert_eq!(DamagePolicy::MutualHealth.damage(&c, &a), 0);
    assert!(DamagePolicy::Fixed(LIMIT).is_valid());
    assert!(!DamagePolicy::Fixed(LIMIT + 1).is_valid());
    assert!(DamagePolicy::MutualHealth.is_valid());
}

#[test]
fn flash_channel_formula() {
    assert_eq!(mix(5_000_000, 1_000_000, 100_000, 300_000), 3_666_666);
    assert_eq!(mix(0, 1_000_000, 100_000, 300_000), 333_333);
    assert_eq!(mix(5_000_000, 1_000_000, 0, 300_000), 5_000_000);
    assert_eq!(mix(5_000_000, 1_000_000, 300_000, 300_000), 1_000_000);
    assert_eq!(mix(u32::MAX, u32::MAX, 7, u32::MAX), u32::MAX);
    assert_eq!(mix(u32::MAX, 0, 1, u32::MAX), u32::MAX - 1);
}

#[test]
fn hit_starts_the_flash_and_time_fades_it() {
    let mut world = World::new();
    let id = world.spawn(ship(0, 0, UNIT, UNIT)).unwrap();
    world.handle_blinking(&vec![0], DT, &style());
    assert_eq!(world.get(id).unwrap().blink, Blink::Inactive);
    assert_eq!(world.get(id).unwrap().color, Color::white());
    world.handle_blinking(&vec![1], DT, &style());
    assert_eq!(world.get(id).unwrap().blink, Blink::Flashing(0));
    assert_eq!(world.get(id).unwrap().color, red());
    world.handle_blinking(&vec![0], DT, &style());
    assert_eq!(world.get(id).unwrap().blink, Blink::Flashing(16_667));
    assert_eq!(world.get(id).unwrap().color, Color::new(4_777_773, 55_556, 55_556, 1_000_000));
    world.handle_blinking(&vec![-5], 83_333, &style());
    assert_eq!(world.get(id).unwrap().blink, Blink::Flashing(100_000));
    assert_eq!(world.get(id).unwrap().color, Color::new(3_666_666, 333_333, 333_333, 1_000_000));
    world.handle_blinking(&vec![0], 199_999, &style());
    assert_eq!(world.get(id).unwrap().blink, Blink::Flashing(299_999));
    world.handle_blinking(&vec![0], 1, &style());
    assert_eq!(world.get(id).unwrap().blink, Blink::Inactive);
    assert_eq!(world.get(id).unwrap().color, Color::white());
}

#[test]
fn second_hit_restarts_the_flash() {
    let mut world = World::new();
    let id = world.spawn(ship(0, 0, UNIT, UNIT)).unwrap();
    world.handle_blinking(&vec![1], DT, &style());
    world.handle_blinking(&vec![0], 200_000, &style());
    assert_eq!(world.get(id).unwrap().blink, Blink::Flashing(200_000));
    world.handle_blinking(&vec![3], DT, &style());
    assert_eq!(world.get(id).unwrap().blink, Blink::Flashing(0));
    assert_eq!(world.get(id).unwrap().color, red());
}

#[test]
fn flash_without_duration_ends_on_the_next_tick() {
    let instant = BlinkStyle { duration: 0, alert: red(), neutral: Color::white() };
    let mut world = World::new();
    let id = world.spawn(ship(0, 0, UNIT, UNIT)).unwrap();
    world.handle_blinking(&vec![1], 0, &instant);
    assert_eq!(world.get(id).unwrap().blink, Blink::Flashing(0));
    world.handle_blinking(&vec![0], 0, &instant);
    assert_eq!(world.get(id).unwrap().blink, Blink::Inactive);
    assert_eq!(world.get(id).unwrap().color, Color::white());
}

#[test]
fn long_tick_does_not_wrap_the_flash() {
    let long = BlinkStyle { duration: u32::MAX, alert: red(), neutral: Color::white() };
    let mut world = World::new();
    let id = world.spawn(ship(0, 0, UNIT, UNIT)).unwrap();
    world.handle_blinking(&vec![1], 0, &long);
    world.handle_blinking(&vec![0], u32::MAX - 1, &long);
    assert_eq!(world.get(id).unwrap().blink, Blink::Flashing(u32::MAX - 1));
    world.handle_blinking(&vec![0], u32::MAX, &long);
    assert_eq!(world.get(id).unwrap().blink, Blink::Inactive);
}

#[test]
fn lasers_are_removed_beyond_the_range() {
    let mut world = World::new();
    let player = world.spawn(pilot(0, 0)).unwrap();
    let shot = world.player_shooting(player, true, &bolt()).unwrap();
    let mut rock = ship(5_000 * UNIT, 0, UNIT, UNIT);
    rock.role = Role::Prop;
    let rock = world.spawn(rock).unwrap();
    world.despawn_lasers(Anchor::Entity(player), 1_000 * UNIT);
    assert_eq!(world.life(shot), Life::Alive);
    let mut e = world.get(shot).unwrap();
    e.position = Vec2::new(600 * UNIT, 800 * UNIT);
    world.replace(1, e);
    world.despawn_lasers(Anchor::Entity(player), 1_000 * UNIT);
    assert_eq!(world.life(shot), Life::Alive);
    e.position = Vec2::new(600 * UNIT, 800 * UNIT + 1);
    world.replace(1, e);
    world.despawn_lasers(Anchor::Entity(404), 1_000 * UNIT);
    assert_eq!(world.life(shot), Life::Alive);
    world.despawn_lasers(Anchor::Entity(player), 1_000 * UNIT);
    assert_eq!(world.life(shot), Life::PendingDestroy);
    assert_eq!(world.life(rock), Life::Alive);
    assert_eq!(world.sweep(), 1);
    assert_eq!(world.life(shot), Life::Destroyed);
    assert_eq!(world.position_of(rock), Some(1));
}

#[test]
fn range_from_a_fixed_point() {
    let mut world = World::new();
    let mut shot = Entity::new(Role::Projectile, Vec2::new(700 * UNIT + 1, 0));
    shot.velocity = Some(Vec2::new(300 * UNIT, 0));
    let id = world.spawn(shot).unwrap();
    let left = Vec2::new(-300 * UNIT, 0);
    world.despawn_lasers(Anchor::Point(left), 1_000 * UNIT + 1);
    assert_eq!(world.life(id), Life::Alive);
    world.despawn_lasers(Anchor::Point(left), 1_000 * UNIT);
    assert_eq!(world.life(id), Life::PendingDestroy);
}

#[test]
fn negative_range_removes_every_projectile() {
    let mut world = World::new();
    let id = world.spawn(Entity::new(Role::Projectile, Vec2::zero())).unwrap();
    let prop = world.spawn(Entity::new(Role::Prop, Vec2::zero())).unwrap();
    world.despawn_lasers(Anchor::Point(Vec2::zero()), 0);
    assert_eq!(world.life(id), Life::Alive);
    world.despawn_lasers(Anchor::Point(Vec2::zero()), -1);
    assert_eq!(world.life(id), Life::PendingDestroy);
    assert_eq!(world.life(prop), Life::Alive);
}

#[test]
fn fence_turns_a_moving_entity_round() {
    let fence = Fence { axis: Axis::X, min: 100 * UNIT, max: 500 * UNIT };
    let mut world = World::new();
    let mut bus = Entity::new(Role::Prop, Vec2::new(500 * UNIT, 200 * UNIT));
    bus.velocity = Some(Vec2::new(100 * UNIT, 0));
    let bus = world.spawn(bus).unwrap();
    let tree = world.spawn(Entity::new(Role::Prop, Vec2::new(-300 * UNIT, 0))).unwrap();
    world.bounce(&fence);
    assert_eq!(world.get(bus).unwrap().velocity, Some(Vec2::new(100 * UNIT, 0)));
    world.move_entities(DT);
    world.bounce(&fence);
    let turned = world.get(bus).unwrap();
    assert_eq!(turned.position, Vec2::new(500 * UNIT + 1_666_700, 200 * UNIT));
    assert_eq!(turned.velocity, Some(Vec2::new(-100 * UNIT, 0)));
    assert_eq!(turned.forward, Vec2::new(-UNIT, 0));
    assert_eq!(world.life(bus), Life::Alive);
    let still = world.get(tree).unwrap();
    assert_eq!(still.forward, Vec2::new(UNIT, 0));
    world.move_entities(DT);
    world.bounce(&fence);
    assert_eq!(world.get(bus).unwrap().position, Vec2::new(500 * UNIT, 200 * UNIT));
    assert_eq!(world.get(bus).unwrap().velocity, Some(Vec2::new(-100 * UNIT, 0)));
}

#[test]
fn fence_on_the_other_axis() {
    let fence = Fence { axis: Axis::Y, min: -5, max: 5 };
    let mut world = World::new();
    let mut low = Entity::new(Role::Prop, Vec2::new(1_000, -6));
    low.velocity = Some(Vec2::new(3, -4));
    let low = world.spawn(low).unwrap();
    let mut inside = Entity::new(Role::Prop, Vec2::new(1_000, -5));
    inside.velocity = Some(Vec2::new(3, -4));
    let inside = world.spawn(inside).unwrap();
    world.bounce(&fence);
    assert_eq!(world.get(low).unwrap().velocity, Some(Vec2::new(-3, 4)));
    assert_eq!(world.get(inside).unwrap().velocity, Some(Vec2::new(3, -4)));
}

#[test]
fn lights_toggle() {
    let mut world = World::new();
    let lamp = world.spawn(Entity::new(Role::Light, Vec2::zero())).unwrap();
    let tree = world.spawn(Entity::new(Role::Prop, Vec2::zero())).unwrap();
    world.toggle_lights();
    assert!(!world.get(lamp).unwrap().visible);
    assert!(world.get(tree).unwrap().visible);
    world.toggle_lights();
    assert!(world.get(lamp).unwrap().visible);
    assert!(world.get(tree).unwrap().visible);
}

#[test]
fn tick_runs_the_systems_in_order() {
    let mut cfg = config(DamagePolicy::MutualHealth);
    cfg.range = Some(Range { anchor: Anchor::Entity(0), limit: 1_000 * UNIT });
    let mut world = World::new();
    let player = world.spawn(pilot(-300 * UNIT, 0)).unwrap();
    let enemy = world.spawn(ship(300 * UNIT, 0, 10 * UNIT, 100 * UNIT)).unwrap();
    let aim = Input { intent: Vec2::zero(), target: Some(Vec2::new(300 * UNIT, 0)), fire: true };
    let done = world.tick(player, &aim, DT, &cfg);
    let shot = done.shot.unwrap();
    assert_eq!(done.removed, 0);
    assert_eq!(world.get(shot).unwrap().position, Vec2::new(-300 * UNIT, 0));
    assert_eq!(world.get(shot).unwrap().velocity, Some(Vec2::new(300 * UNIT, 0)));
    let mut ticks = 0;
    while world.get(shot).is_some() {
        let done = world.tick(player, &idle(), DT, &cfg);
        assert_eq!(done.shot, None);
        ticks += 1;
        assert!(ticks < 200);
    }
    assert_eq!(ticks, 116);
    let hit = world.get(enemy).unwrap();
    assert_eq!(hit.health, Some(90 * UNIT));
    assert_eq!(hit.blink, Blink::Flashing(0));
    assert_eq!(hit.color, red());
    assert_eq!(world.len(), 2);
    for _ in 0..17 {
        world.tick(player, &idle(), DT, &cfg);
    }
    assert_eq!(world.get(enemy).unwrap().blink, Blink::Flashing(283_339));
    world.tick(player, &idle(), DT, &cfg);
    assert_eq!(world.get(enemy).unwrap().blink, Blink::Inactive);
    assert_eq!(world.get(enemy).unwrap().color, Color::white());
}

#[test]
fn destroyed_player_fires_no_more() {
    let cfg = config(DamagePolicy::Fixed(UNIT));
    let mut world = World::new();
    let mut player = pilot(0, 0);
    player.collider = Some(CircularCollider { radius: UNIT });
    player.health = Some(UNIT);
    let player = world.spawn(player).unwrap();
    world.spawn(ship(0, 0, UNIT, 5 * UNIT)).unwrap();
    let fire = Input { intent: Vec2::zero(), target: None, fire: true };
    let done = world.tick(player, &fire, DT, &cfg);
    assert_eq!(done, Outcome { removed: 1, shot: None });
    assert_eq!(world.life(player), Life::Destroyed);
    assert_eq!(world.len(), 1);
}

#[test]
fn validity_checks() {
    let cfg = config(DamagePolicy::Fixed(UNIT));
    assert!(cfg.is_valid());
    let mut bad = cfg;
    bad.policy = DamagePolicy::Fixed(LIMIT + 1);
    assert!(!bad.is_valid());
    let mut bad = cfg;
    bad.laser.radius = -1;
    assert!(!bad.is_valid());
    let mut bad = cfg;
    bad.range = Some(Range { anchor: Anchor::Point(Vec2::new(LIMIT + 1, 0)), limit: 0 });
    assert!(!bad.is_valid());
    assert!(idle().is_valid());
    assert!(!Input { intent: Vec2::new(LIMIT + 1, 0), target: None, fire: false }.is_valid());
    assert!(!Input { intent: Vec2::zero(), target: Some(Vec2::new(0, LIMIT + 1)), fire: false }
        .is_valid());
    assert!(bolt().is_valid());
    assert!(ship(0, 0, 0, 0).is_valid());
    assert!(CircularCollider { radius: LIMIT }.is_valid());
    assert!(!CircularCollider { radius: LIMIT + 1 }.is_valid());
}
