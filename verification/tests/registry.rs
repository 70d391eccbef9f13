use stryke_terminal::common::{insert, next_id, put_session, remove, session_ids, take_session, Registry, Session};
use stryke_terminal::screens::Screen;
use stryke_terminal::streams::Stream;

fn fresh() -> Session {
    Session { screen: Screen::new(10, 2), stream: Stream::new_bytes() }
}

#[test]
fn ids_start_at_one_and_increase() {
    let mut reg = Registry::new();
    assert_eq!(insert(&mut reg, fresh()), 1);
    assert_eq!(insert(&mut reg, fresh()), 2);
    assert_eq!(next_id(&mut reg), 3);
    assert_eq!(insert(&mut reg, fresh()), 4);
    assert_eq!(session_ids(&reg), vec![1, 2, 4]);
}

#[test]
fn removing_a_session() {
    let mut reg = Registry::new();
    let a = insert(&mut reg, fresh());
    let b = insert(&mut reg, fresh());
    assert!(remove(&mut reg, a));
    assert!(!remove(&mut reg, a));
    assert_eq!(session_ids(&reg), vec![b]);
    assert!(!remove(&mut reg, 99));
}

#[test]
fn a_taken_session_keeps_its_state() {
    let mut reg = Registry::new();
    let id = insert(&mut reg, fresh());
    let mut s = take_session(&mut reg, id).unwrap();
    assert!(session_ids(&reg).is_empty());
    s.feed_str("hi");
    put_session(&mut reg, id, s);
    let s = take_session(&mut reg, id).unwrap();
    assert_eq!(s.screen.display()[0].trim_end(), "hi");
    assert!(take_session(&mut reg, 7).is_none());
}

#[test]
fn ids_are_not_reused_and_only_handed_out_ids_can_hold_a_session() {
    let mut reg = Registry::new();
    let a = insert(&mut reg, fresh());
    assert!(remove(&mut reg, a));
    let b = insert(&mut reg, fresh());
    assert!(b > a);
    assert!(reg.can_hold(a) && reg.can_hold(b));
    assert!(!reg.can_hold(b + 1));
    assert_eq!(session_ids(&reg), vec![b]);
}
