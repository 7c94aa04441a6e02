use blobsim::math::{cos_at_least, isqrt, normalize_dir, Vec2};

#[test]
fn test_isqrt_exact_values() {
    assert_eq!(isqrt(0), 0);
    assert_eq!(isqrt(1), 1);
    assert_eq!(isqrt(15), 3);
    assert_eq!(isqrt(16), 4);
    assert_eq!(isqrt(17), 4);
    assert_eq!(isqrt(1 << 40), 1 << 20);
    assert_eq!(isqrt(u128::MAX), (1 << 64) - 1);
}

#[test]
fn test_normalize_direction() {
    // A 3-4-5 triangle scaled up: the length is exactly 50000.
    let d = normalize_dir(30000, 40000);
    assert_eq!(d, Vec2 { x: 39321, y: 52428 });
    let d = normalize_dir(-30000, 40000);
    assert_eq!(d, Vec2 { x: -39321, y: 52428 });
    let d = normalize_dir(0, -7);
    assert_eq!(d, Vec2 { x: 0, y: -65536 });
}

#[test]
fn test_cos_threshold() {
    // Facing along +x; a target straight ahead is within any view cone.
    assert!(cos_at_least(65536, 0, 100, 0, 1024));
    // A target at 45 degrees is outside a 0-degree cone but inside 90.
    assert!(!cos_at_least(65536, 0, 100, 100, 1024));
    assert!(cos_at_least(65536, 0, 100, 100, 0));
    // A target behind is outside a 90-degree cone but inside 180.
    assert!(!cos_at_least(65536, 0, -100, 0, 0));
    assert!(cos_at_least(65536, 0, -100, 0, -1024));
}
