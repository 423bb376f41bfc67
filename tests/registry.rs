use signal_relay::Registry;

fn name(s: &str) -> String {
    s.to_string()
}

#[test]
fn empty_registry_has_no_rooms() {
    let r = Registry::new();
    assert!(!r.contains_room(&name("lobby")));
    assert!(r.broadcast(&name("lobby"), 1).is_empty());
}

#[test]
fn join_creates_room() {
    let mut r = Registry::new();
    assert!(r.join(&name("lobby"), 1));
    assert!(r.contains_room(&name("lobby")));
    assert!(!r.contains_room(&name("Lobby")));
}

#[test]
fn peer_cannot_join_two_rooms() {
    let mut r = Registry::new();
    assert!(r.join(&name("a"), 7));
    assert!(!r.join(&name("b"), 7));
    assert!(!r.join(&name("a"), 7));
    assert!(!r.contains_room(&name("b")));
    assert_eq!(r.broadcast(&name("a"), 0), vec![7]);
}

#[test]
fn broadcast_skips_sender() {
    let mut r = Registry::new();
    r.join(&name("a"), 1);
    r.join(&name("a"), 2);
    r.join(&name("a"), 3);
    let to = r.broadcast(&name("a"), 2);
    assert_eq!(to, vec![1, 3]);
    assert!(!to.contains(&2));
}

#[test]
fn broadcast_reaches_only_the_room() {
    let mut r = Registry::new();
    r.join(&name("a"), 1);
    r.join(&name("a"), 2);
    r.join(&name("b"), 3);
    r.join(&name("b"), 4);
    assert_eq!(r.broadcast(&name("a"), 1), vec![2]);
    assert_eq!(r.broadcast(&name("b"), 4), vec![3]);
}

#[test]
fn broadcast_to_absent_room_is_empty() {
    let mut r = Registry::new();
    r.join(&name("a"), 1);
    assert!(r.broadcast(&name("zzz"), 1).is_empty());
}

#[test]
fn leave_is_idempotent() {
    let mut r = Registry::new();
    r.join(&name("a"), 1);
    r.join(&name("a"), 2);
    r.leave(&name("a"), 1);
    r.leave(&name("a"), 1);
    r.leave(&name("nowhere"), 1);
    assert!(r.contains_room(&name("a")));
    assert_eq!(r.broadcast(&name("a"), 9), vec![2]);
}

#[test]
fn last_leave_removes_room() {
    let mut r = Registry::new();
    r.join(&name("a"), 1);
    r.join(&name("a"), 2);
    r.leave(&name("a"), 2);
    assert!(r.contains_room(&name("a")));
    r.leave(&name("a"), 1);
    assert!(!r.contains_room(&name("a")));
}

#[test]
fn rejoin_after_removal_starts_empty() {
    let mut r = Registry::new();
    r.join(&name("a"), 1);
    r.join(&name("a"), 2);
    r.leave(&name("a"), 1);
    r.leave(&name("a"), 2);
    assert!(r.join(&name("a"), 3));
    assert!(r.broadcast(&name("a"), 3).is_empty());
    assert_eq!(r.broadcast(&name("a"), 0), vec![3]);
}

#[test]
fn rooms_present_exactly_when_occupied() {
    let mut r = Registry::new();
    r.join(&name("x"), 1);
    r.join(&name("y"), 2);
    r.join(&name("x"), 3);
    r.leave(&name("y"), 2);
    r.leave(&name("x"), 1);
    assert!(r.contains_room(&name("x")));
    assert!(!r.contains_room(&name("y")));
    r.leave(&name("x"), 3);
    assert!(!r.contains_room(&name("x")));
    r.join(&name("y"), 1);
    assert!(r.contains_room(&name("y")));
}

#[test]
fn left_peer_may_join_elsewhere() {
    let mut r = Registry::new();
    r.join(&name("a"), 1);
    r.leave(&name("a"), 1);
    assert!(r.join(&name("b"), 1));
    assert!(!r.contains_room(&name("a")));
}
