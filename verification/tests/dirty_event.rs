use pi_world::archetype::Row;
use pi_world::dirty::Dirty;
use pi_world::event::EventVec;
use pi_world::world::{Entity, Tick};

#[test]
fn dirty_records_only_when_someone_listens() {
    let mut d = Dirty::default();
    d.record(Entity(1), Row(0), Tick(5));
    assert!(d.settle());
    d.insert_listener(Tick(7), Tick(0));
    d.record(Entity(1), Row(0), Tick(5));
    d.record(Entity(2), Row(1), Tick(6));
    assert_eq!(d.listener_len(), 1);
    let mut found = Vec::new();
    d.find_listener(3, Tick(7), &mut found);
    assert_eq!(found, vec![(3, 0)]);
    d.find_listener(3, Tick(8), &mut found);
    assert_eq!(found.len(), 1);
}

#[test]
fn dirty_clears_only_after_every_listener_read() {
    let mut d = Dirty::default();
    d.insert_listener(Tick(1), Tick(4));
    d.insert_listener(Tick(2), Tick(9));
    d.record(Entity(1), Row(0), Tick(3));
    d.record(Entity(2), Row(1), Tick(3));
    assert_eq!(d.get_iter(0, Tick(10)), (0, 2));
    assert!(!d.settle());
    assert_eq!(d.get_iter(1, Tick(u32::MAX)), (0, 2));
    assert!(d.settle());
    assert_eq!(d.get_iter(0, Tick(11)), (0, 0));
}

#[test]
fn dirty_can_clear_takes_smallest_tick() {
    let mut d = Dirty::default();
    d.insert_listener(Tick(1), Tick(4));
    d.insert_listener(Tick(2), Tick(9));
    assert_eq!(d.can_clear(), Some(0));
    d.record(Entity(1), Row(0), Tick(3));
    assert_eq!(d.can_clear(), None);
    // changes at ticks not past the smallest listener tick need no record
    d.record(Entity(2), Row(0), Tick(4));
    d.record(Entity(3), Row(0), Tick(5));
    d.get_iter(0, Tick(u32::MAX));
    d.get_iter(1, Tick(u32::MAX));
    assert_eq!(d.can_clear(), Some(2));
}

#[test]
fn event_lists_count_unread_per_listener() {
    let mut ev: EventVec<u32> = EventVec::new("ev".to_string());
    assert_eq!(ev.name(), "ev");
    let a = ev.insert_listener();
    let b = ev.insert_listener();
    ev.record(10);
    ev.record(11);
    assert_eq!(ev.len(a), 2);
    assert_eq!(ev.get_iter(a), (0, 2));
    assert_eq!(ev.len(a), 0);
    assert_eq!(ev.len(b), 2);
    ev.record(12);
    assert_eq!(ev.can_clear(), Err((3, 0)));
    ev.mark_read(b);
    assert_eq!(ev.can_clear(), Err((3, 2)));
    ev.mark_read(a);
    assert_eq!(ev.can_clear(), Ok(3));
    assert!(ev.settle());
    assert_eq!(ev.len(a), 0);
    assert_eq!(ev.can_clear(), Ok(0));
}

#[test]
fn event_settle_keeps_what_someone_has_not_read() {
    let mut ev: EventVec<u32> = EventVec::new("ev".to_string());
    let a = ev.insert_listener();
    let b = ev.insert_listener();
    for i in 0..4 {
        ev.record(i);
    }
    ev.mark_read(a);
    assert_eq!(ev.get_iter(b), (0, 4));
    ev.record(4);
    ev.record(5);
    // a read 4, b read 4 of 6: the first 4 can go
    assert!(!ev.settle_with_capacity(0));
    assert_eq!(ev.len(a), 2);
    assert_eq!(ev.len(b), 2);
    assert_eq!(ev.get_iter(a), (0, 2));
    // with room to spare nothing is dropped
    assert!(!ev.settle_with_capacity(100));
    assert_eq!(ev.get_iter(b), (0, 2));
}

#[test]
fn event_clear_part_shifts_reads() {
    let mut ev: EventVec<u8> = EventVec::new("x".to_string());
    let a = ev.insert_listener();
    ev.record(1);
    ev.record(2);
    ev.record(3);
    ev.get_iter(a);
    ev.record(4);
    ev.clear_part(2);
    assert_eq!(ev.len(a), 1);
    ev.clear();
    assert_eq!(ev.len(a), 0);
}
