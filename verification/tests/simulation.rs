use blobsim::math::Vec2;
use blobsim::simulation::{color_similarity, Color, Simulation};

fn v(x: i32, y: i32) -> Vec2 {
    Vec2 { x, y }
}

fn plain_blob(sim: &mut Simulation, pos: Vec2, max_hunger: i64) -> blobsim::keyed_set::Key<blobsim::simulation::Blob> {
    sim.insert_blob(
        pos,
        10,                                    // radius
        Color { r: 200, g: 10, b: 10, a: 255 },
        0,                                     // speed
        0,                                     // rotation speed
        0,                                     // pov (cosine threshold)
        100,                                   // sight depth
        Color { r: 10, g: 200, b: 10, a: 255 },
        512,                                   // attraction
        512,                                   // repulsion
        max_hunger,
        0,                                     // attack
        0,                                     // defence
        512,                                   // hunger reduction
        0,                                     // hunger division
    )
}

#[test]
fn test_hunger_increases_by_timestep_without_food() {
    let mut sim = Simulation::new(v(1000, 1000));
    let k = plain_blob(&mut sim, v(500, 500), 1000000);
    let report = sim.step(1024);
    assert_eq!(report.fed_blobs.len(), 0);
    assert_eq!(report.removed_blobs.len(), 0);
    let b = sim.get_blob(k).unwrap();
    assert_eq!(b.hunger, 1024);
    assert_eq!(b.alive_time, 1024);
    let report = sim.step(512);
    assert_eq!(report.fed_blobs.len(), 0);
    let b = sim.get_blob(k).unwrap();
    assert_eq!(b.hunger, 1536);
    assert_eq!(b.alive_time, 1536);
}

#[test]
fn test_feeding_applies_exact_formula_and_removes_food() {
    let mut sim = Simulation::new(v(1000, 1000));
    let k = plain_blob(&mut sim, v(100, 100), 100000);
    let f = sim.insert_food(v(105, 105));
    sim.get_blob_mut(k).unwrap().hunger = 50000;

    let report = sim.step(1024);

    // hunger' = max((h - reduction * max_hunger / SCALE) / 1, 0) + timestep
    //         = max((50000 * 1024 - 512 * 100000) / 1024, 0) + 1024 = 0 + 1024
    let b = sim.get_blob(k).unwrap();
    assert_eq!(b.hunger, 1024);
    assert!(sim.get_food(f).is_none());
    assert_eq!(report.eaten_foods, vec![f]);
    assert_eq!(report.fed_blobs, vec![k]);
    assert_eq!(report.removed_blobs.len(), 0);
    assert_eq!(report.spawned_foods.len(), 0);
}

#[test]
fn test_starved_blob_becomes_food() {
    let mut sim = Simulation::new(v(1000, 1000));
    let k = plain_blob(&mut sim, v(300, 400), 512);
    let report = sim.step(1024);

    // Conservation: one blob removed, one food spawned, at the blob's
    // last position.
    assert_eq!(report.removed_blobs, vec![k]);
    assert_eq!(report.spawned_foods.len(), 1);
    assert!(sim.get_blob(k).is_none());
    let food = sim.get_food(report.spawned_foods[0]).unwrap();
    assert_eq!(food.pos(), v(300, 400));
}

#[test]
fn test_combat_removes_defeated_blob() {
    let mut sim = Simulation::new(v(1000, 1000));
    let strong = sim.insert_blob(
        v(100, 100),
        10,
        Color { r: 1, g: 2, b: 3, a: 255 },
        0,
        0,
        0,
        50,
        Color { r: 1, g: 2, b: 3, a: 255 },
        0,
        0,
        1000000,
        1000000, // attack
        1000000, // defence
        0,
        0,
    );
    let weak = sim.insert_blob(
        v(105, 105),
        10,
        Color { r: 9, g: 9, b: 9, a: 255 },
        0,
        0,
        0,
        50,
        Color { r: 9, g: 9, b: 9, a: 255 },
        0,
        0,
        1000000,
        0, // attack
        0, // defence
        0,
        0,
    );
    let report = sim.step(16);
    assert_eq!(report.removed_blobs, vec![weak]);
    assert_eq!(report.spawned_foods.len(), 1);
    assert!(sim.get_blob(strong).is_some());
    assert!(sim.get_blob(weak).is_none());
    // The spawned food sits where the defeated blob stood.
    let food = sim.get_food(report.spawned_foods[0]).unwrap();
    assert_eq!(food.pos(), v(105, 105));
}

#[test]
fn test_boundary_reflection_all_edges() {
    let mut sim = Simulation::new(v(1000, 1000));
    let k = plain_blob(&mut sim, v(990, 500), 1000000);
    {
        let b = sim.get_blob_mut(k).unwrap();
        b.direction = Vec2 { x: 65536, y: 0 };
        b.speed = 1024;
    }
    sim.step(1024);
    let b = sim.get_blob(k).unwrap();
    assert_eq!(b.pos(), v(1000, 500));
    assert_eq!(b.direction, Vec2 { x: -65536, y: 0 });

    let k = plain_blob(&mut sim, v(10, 500), 1000000);
    {
        let b = sim.get_blob_mut(k).unwrap();
        b.direction = Vec2 { x: -65536, y: 0 };
        b.speed = 1024;
    }
    sim.step(1024);
    let b = sim.get_blob(k).unwrap();
    assert_eq!(b.pos(), v(0, 500));
    assert_eq!(b.direction, Vec2 { x: 65536, y: 0 });

    let k = plain_blob(&mut sim, v(500, 990), 1000000);
    {
        let b = sim.get_blob_mut(k).unwrap();
        b.direction = Vec2 { x: 0, y: 65536 };
        b.speed = 1024;
    }
    sim.step(1024);
    let b = sim.get_blob(k).unwrap();
    assert_eq!(b.pos(), v(500, 1000));
    assert_eq!(b.direction, Vec2 { x: 0, y: -65536 });

    let k = plain_blob(&mut sim, v(500, 10), 1000000);
    {
        let b = sim.get_blob_mut(k).unwrap();
        b.direction = Vec2 { x: 0, y: -65536 };
        b.speed = 1024;
    }
    sim.step(1024);
    let b = sim.get_blob(k).unwrap();
    assert_eq!(b.pos(), v(500, 0));
    assert_eq!(b.direction, Vec2 { x: 0, y: 65536 });
}

#[test]
fn test_remove_food_is_idempotent() {
    let mut sim = Simulation::new(v(1000, 1000));
    let f = sim.insert_food(v(10, 10));
    assert!(sim.remove_food(f).is_some());
    assert!(sim.remove_food(f).is_none());
    assert!(sim.remove_food(f).is_none());
}

#[test]
fn test_remove_blob_is_idempotent() {
    let mut sim = Simulation::new(v(1000, 1000));
    let k = plain_blob(&mut sim, v(10, 10), 1000);
    assert!(sim.remove_blob(k).is_some());
    assert!(sim.remove_blob(k).is_none());
}

#[test]
fn test_select_finds_entities_at_point() {
    let mut sim = Simulation::new(v(1000, 1000));
    let k = plain_blob(&mut sim, v(50, 50), 1000000);
    let f = sim.insert_food(v(52, 48));

    let (blobs, foods) = sim.select(v(55, 55));
    assert_eq!(blobs, vec![k]);
    assert!(foods.is_empty());

    let (blobs, foods) = sim.select(v(51, 49));
    assert_eq!(blobs, vec![k]);
    assert_eq!(foods, vec![f]);

    let (blobs, foods) = sim.select(v(800, 800));
    assert!(blobs.is_empty());
    assert!(foods.is_empty());
}

#[test]
fn test_set_blob_pos_moves_hit_test() {
    let mut sim = Simulation::new(v(1000, 1000));
    let k = plain_blob(&mut sim, v(50, 50), 1000000);
    sim.set_blob_pos(k, v(200, 200));
    let (blobs, _) = sim.select(v(205, 205));
    assert_eq!(blobs, vec![k]);
    let (blobs, _) = sim.select(v(55, 55));
    assert!(blobs.is_empty());
}

#[test]
fn test_color_similarity_exact_values() {
    let red = Color { r: 255, g: 0, b: 0, a: 255 };
    let green = Color { r: 0, g: 255, b: 0, a: 255 };
    assert_eq!(color_similarity(&red, &red), 1024);
    // Hues 120 degrees apart with full saturation and value:
    // 1024 - (2 * 120 * 1024) / 180 = -341.
    assert_eq!(color_similarity(&red, &green), -341);
    // Alpha is ignored.
    let red2 = Color { r: 255, g: 0, b: 0, a: 0 };
    assert_eq!(color_similarity(&red, &red2), 1024);
}

#[test]
fn test_sim_accessors() {
    let mut sim = Simulation::new(v(640, 480));
    assert_eq!(sim.size(), v(640, 480));
    let k = plain_blob(&mut sim, v(10, 20), 1000);
    let b = sim.get_blob(k).unwrap();
    assert_eq!(b.pos(), v(10, 20));
    assert_eq!(b.radius(), 10);
    assert_eq!(b.sight_depth(), 100);
    assert_eq!(b.direction(), Vec2 { x: 0, y: 0 });
    assert_eq!(b.hunger, 0);
    let f = sim.insert_food(v(30, 40));
    assert_eq!(sim.get_food(f).unwrap().pos(), v(30, 40));
}

#[test]
fn test_steering_moves_blob_toward_seen_food() {
    let mut sim = Simulation::new(v(2000, 2000));
    let food_green = Color { r: 0, g: 228, b: 48, a: 255 };
    let k = sim.insert_blob(
        v(100, 100),
        10,
        Color { r: 50, g: 50, b: 50, a: 255 },
        1024,       // speed: one coordinate unit per time unit
        1024,       // rotation speed: a full blend per second
        -1024,      // pov cosine -1: sees the whole circle around it
        150,
        food_green, // favorite color: exactly the food color
        512,
        512,
        1000000,
        0,
        0,
        0,
        0,
    );
    sim.get_blob_mut(k).unwrap().direction = Vec2 { x: 65536, y: 0 };
    sim.insert_food(v(200, 100));

    sim.step(1024);

    // The food is due east, matching the favorite color exactly, so the
    // steering target is the current heading; the blob advances by
    // speed * timestep east (65536 * 1024 * 1024 / 2^26 = 1024 units).
    let b = sim.get_blob(k).unwrap();
    assert_eq!(b.direction, Vec2 { x: 65536, y: 0 });
    assert_eq!(b.pos(), v(1124, 100));
}

#[test]
fn test_field_of_view_excludes_objects_behind() {
    let mut sim = Simulation::new(v(2000, 2000));
    let food_green = Color { r: 0, g: 228, b: 48, a: 255 };
    let k = sim.insert_blob(
        v(100, 100),
        10,
        Color { r: 50, g: 50, b: 50, a: 255 },
        1024,
        1024,
        1024,       // pov cosine 1: only objects straight ahead are seen
        150,
        food_green,
        512,
        512,
        1000000,
        0,
        0,
        0,
        0,
    );
    sim.get_blob_mut(k).unwrap().direction = Vec2 { x: 65536, y: 0 };
    // The food sits at a right angle to the heading: out of view, so the
    // blob keeps its heading and just moves on.
    sim.insert_food(v(100, 200));

    sim.step(1024);

    let b = sim.get_blob(k).unwrap();
    assert_eq!(b.direction, Vec2 { x: 65536, y: 0 });
    assert_eq!(b.pos(), v(1124, 100));
}

#[test]
fn test_eat_applies_formula_and_removes_from_arena() {
    let mut sim = Simulation::new(v(1000, 1000));
    let k = plain_blob(&mut sim, v(100, 100), 100000);
    let f = sim.insert_food(v(500, 500));
    sim.get_blob_mut(k).unwrap().hunger = 60000;

    // Eat straight from the arenas: hunger drops by the feeding formula
    // ((60000 * 1024 - 512 * 100000) / 1024 = 10000) and the food's
    // arena entry is gone.
    let blob = sim.blobs.get_mut(k).unwrap();
    blob.eat(&mut sim.foods, f);
    assert_eq!(blob.hunger, 10000);
    assert!(sim.foods.get(f).is_none());
}

#[test]
fn test_steering_survives_heavy_cancellation() {
    // Four equally attractive objects: two due east, two barely west of
    // antipodal. The weighted directions nearly cancel, but the summed
    // vector is nonzero, so a target must come out: the normalized sum,
    // due east.
    let mut sim = Simulation::new(v(200000, 200000));
    let food_green = Color { r: 0, g: 228, b: 48, a: 255 };
    let k = sim.insert_blob(
        v(70000, 70000),
        10,
        Color { r: 50, g: 50, b: 50, a: 255 },
        0,
        0,
        -1024,
        100,
        food_green,
        512,
        512,
        1000000,
        0,
        0,
        0,
        0,
    );
    let blob = sim.get_blob(k).unwrap();
    let seen = vec![
        blobsim::simulation::SeenObject { color: food_green, pos: v(70100, 70000) },
        blobsim::simulation::SeenObject { color: food_green, pos: v(70100, 70000) },
        blobsim::simulation::SeenObject { color: food_green, pos: v(4465, 70363) },
        blobsim::simulation::SeenObject { color: food_green, pos: v(4465, 69637) },
    ];
    let bs = blob.prepare_step(&seen);
    assert_eq!(bs.target_direction, Some(Vec2 { x: 65536, y: 0 }));
}

#[test]
fn test_both_touching_blobs_feed_on_one_food() {
    // Two blobs touch the same food in one snapshot: both apply the
    // feeding formula; only the first removal takes effect, so exactly
    // one food is eaten.
    let mut sim = Simulation::new(v(1000, 1000));
    let a = plain_blob(&mut sim, v(100, 100), 100000);
    let b = plain_blob(&mut sim, v(108, 100), 100000);
    let f = sim.insert_food(v(104, 100));
    sim.get_blob_mut(a).unwrap().hunger = 50000;
    sim.get_blob_mut(b).unwrap().hunger = 50000;

    let report = sim.step(1024);

    assert_eq!(sim.get_blob(a).unwrap().hunger, 1024);
    assert_eq!(sim.get_blob(b).unwrap().hunger, 1024);
    assert!(sim.get_food(f).is_none());
    assert_eq!(report.eaten_foods, vec![f]);
    assert_eq!(report.fed_blobs, vec![a, b]);
    assert_eq!(report.removed_blobs.len(), 0);
}
