use game_sync::geometry::{step, Color, Image, Point};
use game_sync::registry::{RegistryError, SessionRegistry};

fn opaque(w: usize, h: usize) -> Image {
    Image::from_pixels(w, h, vec![Color::new(200, 10, 10); w * h]).unwrap()
}

#[test]
fn register_hands_out_increasing_ids() {
    let mut reg = SessionRegistry::new();
    let ids: Vec<u32> = (0..5).map(|_| reg.register().unwrap()).collect();
    assert_eq!(ids, vec![1, 2, 3, 4, 5]);
    assert!(reg.deregister(5));
    assert!(reg.deregister(2));
    assert_eq!(reg.register().unwrap(), 6);
    assert_eq!(reg.all_ids(), vec![1, 3, 4, 6]);
}

#[test]
fn new_session_starts_at_origin() {
    let mut reg = SessionRegistry::new();
    let id = reg.register().unwrap();
    assert_eq!(reg.position_of(id), Some(Point::new(0, 0)));
}

#[test]
fn motion_clamps_each_step() {
    let mut reg = SessionRegistry::new();
    let id = reg.register().unwrap();
    assert_eq!(reg.apply_motion(id, Point::new(10, 20)), Ok(Point::new(10, 20)));
    assert_eq!(reg.apply_motion(id, Point::new(-30, 0)), Ok(Point::new(0, 20)));
    assert_eq!(reg.apply_motion(id, Point::new(1000, 1000)), Ok(Point::new(800, 600)));
    assert_eq!(reg.apply_motion(id, Point::new(i32::MIN, i32::MAX)), Ok(Point::new(0, 600)));
    assert_eq!(reg.position_of(id), Some(Point::new(0, 600)));
}

#[test]
fn motion_follows_running_sum_inside_world() {
    let mut reg = SessionRegistry::new();
    let id = reg.register().unwrap();
    let deltas = [(10, 0), (0, 10), (-5, 7), (300, 100), (-10, -10)];
    let (mut sx, mut sy) = (0i64, 0i64);
    for (dx, dy) in deltas {
        sx += dx;
        sy += dy;
        let p = reg.apply_motion(id, Point::new(dx as i32, dy as i32)).unwrap();
        assert_eq!(p, Point::new(sx.clamp(0, 800) as i32, sy.clamp(0, 600) as i32));
    }
}

#[test]
fn step_clamps() {
    assert_eq!(step(Point::new(795, 5), Point::new(10, -10)), Point::new(800, 0));
}

#[test]
fn unknown_session_is_reported() {
    let mut reg = SessionRegistry::new();
    assert_eq!(reg.apply_motion(9, Point::new(1, 1)), Err(RegistryError::UnknownSession));
    assert!(matches!(reg.apply_image(9, opaque(1, 1)), Err(RegistryError::UnknownSession)));
    assert!(!reg.deregister(9));
}

#[test]
fn apply_image_places_in_bounds_and_snapshots_everyone() {
    let mut reg = SessionRegistry::new();
    let a = reg.register().unwrap();
    let b = reg.register().unwrap();
    for _ in 0..50 {
        let (p, snapshot) = reg.apply_image(a, opaque(2, 2)).unwrap();
        assert!(p.x >= 0 && p.x < 800 && p.y >= 0 && p.y < 600);
        let ids: Vec<u32> = snapshot.iter().map(|s| s.id).collect();
        assert_eq!(ids, vec![a, b]);
        assert_eq!(snapshot[0].position, p);
        assert_eq!(snapshot[0].image.width, 2);
        assert_eq!(snapshot[1].image.width, 0);
    }
}

#[test]
fn place_image_is_exact() {
    let mut reg = SessionRegistry::new();
    let a = reg.register().unwrap();
    let snapshot = reg.place_image(a, opaque(1, 2), Point::new(3, 4)).unwrap();
    assert_eq!(snapshot.len(), 1);
    assert_eq!(snapshot[0].position, Point::new(3, 4));
    assert_eq!(snapshot[0].image.height, 2);
    assert_eq!(reg.position_of(a), Some(Point::new(3, 4)));
}

#[test]
fn other_ids_excludes_sender() {
    let mut reg = SessionRegistry::new();
    for _ in 0..3 {
        reg.register().unwrap();
    }
    assert_eq!(reg.other_ids(2), vec![1, 3]);
    assert_eq!(reg.other_ids(7), vec![1, 2, 3]);
    assert_eq!(reg.len(), 3);
}

#[test]
fn ids_are_consecutive_across_removals() {
    let mut reg = SessionRegistry::new();
    let a = reg.register().unwrap();
    let b = reg.register().unwrap();
    assert!(reg.deregister(b));
    let c = reg.register().unwrap();
    assert!(reg.deregister(a));
    let d = reg.register().unwrap();
    assert_eq!(vec![a, b, c, d], vec![1, 2, 3, 4]);
    assert_eq!(reg.all_ids(), vec![c, d]);
}
