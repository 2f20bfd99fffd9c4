use pi_world::archetype::{
    Archetype, ArchetypeDepend, ArchetypeDependResult, ArchetypeIndex, ArchetypeInfo, ComponentInfo, Flags, Row,
};
use pi_world::world::ComponentIndex;

fn ci(v: &[u32]) -> Vec<ComponentIndex> {
    v.iter().map(|x| ComponentIndex(*x)).collect()
}

fn ks(v: &[ComponentIndex]) -> Vec<u32> {
    v.iter().map(|c| c.0).collect()
}

fn infos() -> Vec<ComponentInfo> {
    (0..8u32)
        .map(|i| {
            let mut c = ComponentInfo::create(100 + i as u128, format!("C{}", i), 4, 0);
            c.index = ComponentIndex(i);
            c
        })
        .collect()
}

#[test]
fn rows_and_archetype_indices() {
    assert_eq!(Row(5).index(), 5);
    assert!(Row::null().is_null());
    assert_eq!(Row::from(3u32), Row(3));
    assert_eq!(Row::from(4usize), Row(4));
    assert_eq!(ArchetypeIndex(2).index(), 2);
    assert!(ArchetypeIndex::null().is_null());
    assert_eq!(ArchetypeIndex::from(9u32), ArchetypeIndex(9));
}

#[test]
fn flags_union_and_contains() {
    let mut f = Flags::empty();
    assert!(f.is_empty());
    f.insert(Flags::from_bits(Flags::READ));
    f.insert(Flags::from_bits(Flags::WRITE));
    assert!(f.contains(Flags::from_bits(Flags::READ)));
    assert!(f.contains(Flags::from_bits(Flags::READ | Flags::WRITE)));
    assert!(!f.contains(Flags::from_bits(Flags::WITHOUT)));
    assert_eq!(f.bits(), 0b1100);
}

#[test]
fn alter_plans_added_moved_and_removed_columns() {
    let infos = infos();
    let ar = Archetype::new(ArchetypeInfo::new(ci(&[1, 3, 5])), &infos);
    let ops = [
        (ComponentIndex(0), true),
        (ComponentIndex(3), false),
        (ComponentIndex(3), true),
        (ComponentIndex(4), false),
        (ComponentIndex(5), true),
        (ComponentIndex(6), true),
    ];
    let mut adding = ci(&[9]);
    let mut moving = Vec::new();
    let mut removing = Vec::new();
    let info = ar.alter(&ops, &mut adding, &mut moving, &mut removing, false);
    assert_eq!(ks(&info.sorted_components), vec![0, 1, 5, 6]);
    assert_eq!(ks(&adding), vec![9, 0, 5, 6]);
    assert_eq!(ks(&moving), vec![1]);
    assert_eq!(ks(&removing), vec![3]);
}

#[test]
fn alter_counts_existing_added_columns_as_moved_when_asked() {
    let infos = infos();
    let ar = Archetype::new(ArchetypeInfo::new(ci(&[2, 4])), &infos);
    let ops = [(ComponentIndex(4), true), (ComponentIndex(7), true)];
    let mut adding = Vec::new();
    let mut moving = Vec::new();
    let mut removing = Vec::new();
    let info = ar.alter(&ops, &mut adding, &mut moving, &mut removing, true);
    assert_eq!(ks(&info.sorted_components), vec![2, 4, 7]);
    assert_eq!(ks(&adding), vec![7]);
    assert_eq!(ks(&moving), vec![2, 4]);
    assert!(removing.is_empty());
}

#[test]
fn alter_without_operations_moves_everything() {
    let infos = infos();
    let ar = Archetype::new(ArchetypeInfo::new(ci(&[0, 1])), &infos);
    let mut adding = Vec::new();
    let mut moving = Vec::new();
    let mut removing = Vec::new();
    let info = ar.alter(&[], &mut adding, &mut moving, &mut removing, false);
    assert_eq!(ks(&info.sorted_components), vec![0, 1]);
    assert_eq!(ks(&moving), vec![0, 1]);
    assert!(adding.is_empty() && removing.is_empty());
}

#[test]
fn archetype_name_joins_component_names() {
    let infos = infos();
    let ar = Archetype::new(ArchetypeInfo::new(ci(&[1, 3, 5])), &infos);
    assert_eq!(ar.name(), "C1+C3+C5");
    assert_eq!(ar.column_len(), 3);
    assert!(!ar.ready());
    assert!(ar.index().is_null());
    let empty = Archetype::new(ArchetypeInfo::new(Vec::new()), &infos);
    assert_eq!(empty.name(), "");
    assert!(empty.is_empty_columns());
}

#[test]
fn archetype_id_depends_on_components_only() {
    let a = ArchetypeInfo::new(ci(&[1, 2]));
    let b = ArchetypeInfo::new(ci(&[1, 2]));
    let c = ArchetypeInfo::new(ci(&[1, 3]));
    assert_eq!(a.id, b.id);
    assert_ne!(a.id, c.id);
}

#[test]
fn sort_orders_components() {
    let info = ArchetypeInfo::sort(ci(&[5, 1, 3]));
    assert_eq!(ks(&info.sorted_components), vec![1, 3, 5]);
    assert_eq!(info.id, ArchetypeInfo::new(ci(&[1, 3, 5])).id);
}

#[test]
fn component_info_basics() {
    let c = ComponentInfo::create(0xabc, "Pos".to_string(), 12, 1);
    assert_eq!(c.name(), "Pos");
    assert_eq!(c.size(), 12);
    assert!(c.is_tick());
    assert!(c.index.is_null());
    assert_eq!(c.id(), 0xabc);
    let v = vec![ComponentInfo::create(0b0110, "a".to_string(), 1, 0), ComponentInfo::create(0b0011, "b".to_string(), 1, 0)];
    assert_eq!(ComponentInfo::calc_id(&v), 0b0101);
}

#[test]
fn depend_result_merges_flags_and_alterations() {
    let mut r = ArchetypeDependResult::new();
    r.merge(ArchetypeDepend::Flag(Flags::from_bits(Flags::READ)));
    r.merge(ArchetypeDepend::Alter((1, "x".to_string(), Vec::new())));
    assert_eq!(r.flag.bits(), Flags::READ);
    assert_eq!(r.alters.len(), 1);
    r.merge(ArchetypeDepend::Flag(Flags::from_bits(Flags::WITHOUT)));
    r.merge(ArchetypeDepend::Alter((2, "y".to_string(), Vec::new())));
    assert_eq!(r.alters.len(), 1);
    r.insert(&ci(&[4, 6]));
    assert!(r.flag.contains(Flags::from_bits(Flags::WRITE)));
    assert_eq!(ks(&r.writes), vec![4, 6]);
    r.clear();
    assert!(r.flag.is_empty());
    assert!(r.writes.is_empty() && r.alters.is_empty());
}

#[test]
fn alter_counts_a_first_operation_on_the_largest_component() {
    let infos = infos();
    let ar = Archetype::new(ArchetypeInfo::new(ci(&[0])), &infos);
    let ops = [(ComponentIndex(u32::MAX), true), (ComponentIndex(u32::MAX), false)];
    let mut adding = Vec::new();
    let mut moving = Vec::new();
    let mut removing = Vec::new();
    let info = ar.alter(&ops, &mut adding, &mut moving, &mut removing, false);
    // of two operations on one component only the first counts
    assert_eq!(ks(&info.sorted_components), vec![0, u32::MAX]);
    assert_eq!(ks(&adding), vec![u32::MAX]);
    assert_eq!(ks(&moving), vec![0]);
    assert!(removing.is_empty());
}

#[test]
fn archetype_ids_tell_component_sets_apart() {
    assert_eq!(ArchetypeInfo::new(ci(&[1, 2])).id, ArchetypeInfo::new(ci(&[1, 2])).id);
    assert_ne!(ArchetypeInfo::new(ci(&[1, 2])).id, ArchetypeInfo::new(ci(&[1, 3])).id);
}
