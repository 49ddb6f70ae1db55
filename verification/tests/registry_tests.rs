use game_relay::registry::{MotionOutcome, Registry};
use game_relay::{Color, Image, Point};

fn tiny_image(seed: u8) -> Image {
    Image {
        width: 1,
        height: 1,
        pixels: vec![Color { r: seed, g: seed, b: seed }],
    }
}

#[test]
fn register_issues_increasing_ids_without_gaps() {
    let mut reg = Registry::new();
    let (id0, p0, others0) = reg.register(tiny_image(1));
    let (id1, p1, others1) = reg.register(tiny_image(2));
    let (id2, _p2, others2) = reg.register(tiny_image(3));
    assert_eq!(id0, 0);
    assert_eq!(id1, 1);
    assert_eq!(id2, 2);
    assert_eq!(p0, Point { x: 0, y: 0 });
    assert_eq!(p1, Point { x: 0, y: 0 });
    assert_eq!(others0.len(), 0);
    assert_eq!(others1.len(), 1);
    assert_eq!(others2.len(), 2);
}

#[test]
fn snapshot_of_later_register_contains_earlier_id() {
    let mut reg = Registry::new();
    let (id0, _, _) = reg.register(tiny_image(9));
    let (_, _, others) = reg.register(tiny_image(2));
    assert_eq!(others.len(), 1);
    assert_eq!(others[0].id, id0);
    assert_eq!(others[0].image.pixels[0], Color { r: 9, g: 9, b: 9 });
}

#[test]
fn apply_motion_accumulates_exact_integer_sums() {
    let mut reg = Registry::new();
    let (id, _, _) = reg.register(tiny_image(0));
    let r1 = reg.apply_motion(id, Point { x: 10, y: 0 });
    assert!(matches!(r1, MotionOutcome::Moved(p) if p == Point { x: 10, y: 0 }));
    let r2 = reg.apply_motion(id, Point { x: -3, y: 5 });
    assert!(matches!(r2, MotionOutcome::Moved(p) if p == Point { x: 7, y: 5 }));
    let all = reg.snapshot_others(usize::MAX);
    assert_eq!(all.len(), 1);
    assert_eq!(all[0].position, Point { x: 7, y: 5 });
}

#[test]
fn apply_motion_unknown_id_is_dropped() {
    let mut reg = Registry::new();
    reg.register(tiny_image(0));
    let r = reg.apply_motion(99, Point { x: 1, y: 1 });
    assert!(matches!(r, MotionOutcome::UnknownId));
    assert_eq!(reg.len(), 1);
}

#[test]
fn apply_motion_overflow_leaves_position_untouched() {
    let mut reg = Registry::new();
    let (id, _, _) = reg.register(tiny_image(0));
    let r1 = reg.apply_motion(id, Point { x: i32::MAX, y: 0 });
    assert!(matches!(r1, MotionOutcome::Moved(p) if p == Point { x: i32::MAX, y: 0 }));
    let r2 = reg.apply_motion(id, Point { x: 1, y: 0 });
    assert!(matches!(r2, MotionOutcome::OutOfRange));
    let all = reg.snapshot_others(usize::MAX);
    assert_eq!(all[0].position, Point { x: i32::MAX, y: 0 });
}

#[test]
fn unregister_twice_removes_once() {
    let mut reg = Registry::new();
    let (id, _, _) = reg.register(tiny_image(0));
    reg.register(tiny_image(1));
    assert_eq!(reg.len(), 2);
    assert!(reg.unregister(id));
    assert_eq!(reg.len(), 1);
    assert!(!reg.unregister(id));
    assert_eq!(reg.len(), 1);
}

#[test]
fn ids_are_never_reused_after_unregister() {
    let mut reg = Registry::new();
    let (id0, _, _) = reg.register(tiny_image(0));
    assert!(reg.unregister(id0));
    let (id1, _, _) = reg.register(tiny_image(1));
    assert_eq!(id1, 1);
    assert_ne!(id0, id1);
}

#[test]
fn fifty_registrations_fill_the_registry_with_distinct_ids() {
    let mut reg = Registry::new();
    for k in 0..50u8 {
        reg.register(tiny_image(k));
    }
    assert_eq!(reg.len(), 50);
    let ids = reg.session_ids();
    assert_eq!(ids.len(), 50);
    for (k, id) in ids.iter().enumerate() {
        assert_eq!(*id, k);
    }
}
