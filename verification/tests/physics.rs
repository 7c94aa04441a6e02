use blobsim::math::Vec2;
use blobsim::physics::{Circle, CollisionMatrix, Layer, LayerMask, World};

fn circle(x: i32, y: i32, radius: i32, layer: Layer) -> Circle {
    Circle { center: Vec2 { x, y }, radius, layer }
}

#[test]
fn test_2_body_collision() {
    let mut w = World::new(CollisionMatrix::new());
    let a = w.circles.insert(circle(5, 4, 2, Layer::new(0)));
    let b = w.circles.insert(circle(6, 6, 1, Layer::new(0)));

    let c = w.collisions();
    assert_eq!(c.get(&a), Some(&vec![b]));
    assert_eq!(c.get(&b), Some(&vec![a]));

    w.circles.get_mut(b).unwrap().center.x += 2;

    let c = w.collisions();
    assert!(c.get(&a).is_none());
    assert!(c.get(&b).is_none());
}

#[test]
fn test_3_body_collision() {
    let mut w = World::new(CollisionMatrix::new());
    let a = w.circles.insert(circle(5, 4, 2, Layer::new(0)));
    let b = w.circles.insert(circle(7, 6, 1, Layer::new(0)));
    let c = w.circles.insert(circle(3, 7, 2, Layer::new(0)));

    let r = w.collisions();
    assert_eq!(r.get(&a), Some(&vec![c, b]));
    assert_eq!(r.get(&b), Some(&vec![a]));
    assert_eq!(r.get(&c), Some(&vec![a]));

    w.circles.get_mut(c).unwrap().radius += 2;

    let r = w.collisions();
    assert_eq!(r.get(&a), Some(&vec![c, b]));
    assert_eq!(r.get(&b), Some(&vec![c, a]));
    assert_eq!(r.get(&c), Some(&vec![a, b]));
}

#[test]
fn test_directional_layer_filtering() {
    // Layer 0's entry masks in layer 1, layer 1's entry is empty: the
    // layer-0 circle reports the layer-1 circle, but not the other way
    // around.
    let l0 = Layer::new(0);
    let l1 = Layer::new(1);
    let mut mask = LayerMask::empty();
    mask.add(l1);
    let mut matrix = CollisionMatrix::new();
    matrix.insert(l0, mask);
    matrix.insert(l1, LayerMask::empty());

    let mut w = World::new(matrix);
    let a = w.circles.insert(circle(0, 0, 2, l0));
    let b = w.circles.insert(circle(1, 0, 2, l1));

    let r = w.collisions();
    assert_eq!(r.get(&a), Some(&vec![b]));
    assert!(r.get(&b).is_none());
}

#[test]
fn test_absent_matrix_entry_is_permissive() {
    // A layer without a matrix entry collides with everything.
    let mut matrix = CollisionMatrix::new();
    matrix.insert(Layer::new(1), LayerMask::empty());
    let mut w = World::new(matrix);
    let a = w.circles.insert(circle(0, 0, 1, Layer::new(0)));
    let b = w.circles.insert(circle(1, 1, 1, Layer::new(1)));

    let r = w.collisions();
    assert_eq!(r.get(&a), Some(&vec![b]));
    assert!(r.get(&b).is_none());
}

#[test]
fn test_exact_circle_intersection() {
    let a = circle(0, 0, 3, Layer::new(0));
    let b = circle(6, 8, 7, Layer::new(0));
    // distance 10, radius sum 10: just touching counts as intersecting.
    assert!(a.intersects(&b));
    let c = circle(6, 8, 6, Layer::new(0));
    assert!(!a.intersects(&c));
    assert!(a.intersects_x_axis(&c));
}

#[test]
fn test_no_partners_without_contact() {
    // The empty world computes an empty result, and a lone circle has no
    // partners.
    let mut w = World::new(CollisionMatrix::new());
    w.collisions();
    let a = w.circles.insert(circle(5, 5, 2, Layer::new(0)));
    let r = w.collisions();
    assert!(r.get(&a).is_none());
}

#[test]
fn test_layer_mask_membership() {
    let l0 = Layer::new(0);
    let l3 = Layer::new(3);
    let l7 = Layer::new(7);
    let mask = LayerMask::new(vec![l0, l7]);
    assert!(mask.contains(&l0));
    assert!(mask.contains(&l7));
    assert!(!mask.contains(&l3));
    assert!(!LayerMask::empty().contains(&l0));
}
