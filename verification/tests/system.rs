use pi_world::system::{Relation, SystemMeta, TypeInfo};
use std::any::TypeId;

fn meta_info() -> TypeInfo {
    TypeInfo::new(TypeId::of::<SystemMeta>(), "pi_world::system::SystemMeta".to_string())
}

#[test]
fn test_system_meta() {
    let mut meta: SystemMeta = SystemMeta::new(meta_info());
    meta.relate(Relation::Read(1usize.into()));
    meta.relate(Relation::Write(2usize.into()));
    meta.related_ok();
    assert!(meta.check_conflict().is_none()); // checks itself
    let mut meta: SystemMeta = SystemMeta::new(meta_info());
    meta.relate(Relation::Read(1usize.into()));
    meta.relate(Relation::Write(2usize.into()));
    meta.related_ok();
    meta.relate(Relation::Read(1usize.into()));
    meta.relate(Relation::Write(3usize.into()));
    meta.related_ok();
    assert!(meta.check_conflict().is_none()); // reads and writes
    let mut meta: SystemMeta = SystemMeta::new(meta_info());
    meta.relate(Relation::Read(1usize.into()));
    meta.relate(Relation::Write(2usize.into()));
    meta.relate(Relation::Without(3usize.into()));
    meta.related_ok();
    meta.relate(Relation::Read(1usize.into()));
    meta.relate(Relation::Write(2usize.into()));
    meta.relate(Relation::With(3usize.into()));
    meta.related_ok();
    assert!(meta.check_conflict().is_none()); // reads and writes with `Without`
    let mut meta: SystemMeta = SystemMeta::new(meta_info());
    meta.param_set_start();
    meta.relate(Relation::Read(1usize.into()));
    meta.relate(Relation::Write(2usize.into()));
    meta.relate(Relation::Without(3usize.into()));
    meta.related_ok();
    meta.relate(Relation::Write(1usize.into()));
    meta.relate(Relation::Write(2usize.into()));
    meta.relate(Relation::Without(3usize.into()));
    meta.related_ok();
    meta.param_set_end();
    meta.relate(Relation::Read(1usize.into()));
    meta.relate(Relation::Write(2usize.into()));
    meta.relate(Relation::With(3usize.into()));
    meta.related_ok();
    assert!(meta.check_conflict().is_none()); // reads and writes of a parameter set
    let mut meta: SystemMeta = SystemMeta::new(meta_info());
    meta.relate(Relation::Read(1usize.into()));
    meta.relate(Relation::Write(2usize.into()));
    meta.relate(Relation::Without(3usize.into()));
    meta.related_ok();
    meta.relate(Relation::WriteAll);
    meta.related_ok();
}

#[test]
fn write_against_read_conflicts() {
    let mut meta = SystemMeta::new(meta_info());
    meta.relate(Relation::Read(1usize.into()));
    meta.related_ok();
    meta.relate(Relation::Write(1usize.into()));
    meta.related_ok();
    assert_eq!(meta.check_conflict(), Some((0, 1)));
}

#[test]
fn conflicts_inside_a_group() {
    let mut meta = SystemMeta::new(meta_info());
    meta.relate(Relation::Write(4usize.into()));
    meta.relate(Relation::OptRead(4usize.into()));
    let group = meta.related_ok();
    assert_eq!(group.len(), 2);
    assert_eq!(meta.check_conflict(), Some((0, 0)));
}

#[test]
fn write_all_conflicts_with_any_access() {
    let mut meta = SystemMeta::new(meta_info());
    meta.relate(Relation::Read(9usize.into()));
    meta.related_ok();
    meta.relate(Relation::WriteAll);
    meta.related_ok();
    assert_eq!(meta.check_conflict(), Some((0, 1)));
}

#[test]
fn alternatives_do_not_separate() {
    let mut meta = SystemMeta::new(meta_info());
    meta.relate(Relation::Write(1usize.into()));
    meta.relate(Relation::Or);
    meta.relate(Relation::With(3usize.into()));
    meta.relate(Relation::With(4usize.into()));
    meta.relate(Relation::End);
    meta.related_ok();
    meta.relate(Relation::Write(1usize.into()));
    meta.relate(Relation::Without(3usize.into()));
    meta.related_ok();
    assert_eq!(meta.check_conflict(), Some((0, 1)));
}
