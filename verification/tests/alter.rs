use pi_world::alter::{AState, ArchetypeMapping, LocalIndex};
use pi_world::archetype::{Archetype, ArchetypeIndex, ArchetypeInfo, ComponentInfo, Row};
use pi_world::column::Column;
use pi_world::world::{ComponentIndex, Entity};

fn info(i: u32) -> ComponentInfo {
    let mut c = ComponentInfo::create(300 + i as u128, format!("A{}", i), 2, 1);
    c.index = ComponentIndex(i);
    c
}

fn infos() -> Vec<ComponentInfo> {
    (0..4u32).map(info).collect()
}

#[test]
fn local_indices() {
    assert!(LocalIndex::null().is_null());
    assert_eq!(LocalIndex(3).index(), 3);
}

#[test]
fn mappings_record_moves_and_dirty_places() {
    let mut m = ArchetypeMapping::new(ArchetypeIndex(0), ArchetypeIndex(5));
    assert_eq!(m.dst_index, ArchetypeIndex(-1));
    let mut dirty = Vec::new();
    m.push(Row(0), Row(3), Entity(7), LocalIndex(2), &mut dirty);
    m.push(Row(1), Row(4), Entity(8), LocalIndex(2), &mut dirty);
    // only the first marked row puts the mapping among the changed ones
    assert_eq!(dirty, vec![LocalIndex(2)]);
    assert_eq!(m.moves, vec![(Row(0), Row(3), Entity(7)), (Row(1), Row(4), Entity(8))]);
    m.set_dst(ArchetypeIndex(6));
    assert_eq!((m.dst, m.dst_index), (ArchetypeIndex(6), ArchetypeIndex(6)));
}

#[test]
fn places_of_archetypes_among_mappings() {
    let mut st = AState::new(Vec::new());
    st.push_map(ArchetypeIndex(4), 0);
    st.push_map(ArchetypeIndex(6), 1);
    assert_eq!(st.check(ArchetypeIndex(4)), Some(LocalIndex(0)));
    assert_eq!(st.check(ArchetypeIndex(5)), None);
    assert_eq!(st.check(ArchetypeIndex(6)), Some(LocalIndex(1)));
    assert_eq!(st.check(ArchetypeIndex(7)), None);
    assert_eq!(st.check(ArchetypeIndex(3)), None);
}

#[test]
fn find_mapping_plans_once_and_moves_rows() {
    let infos = infos();
    let mut src = Archetype::new(ArchetypeInfo::new(vec![ComponentIndex(1), ComponentIndex(3)]), &infos);
    src.set_index(ArchetypeIndex(0));
    let mut st = AState::new(vec![(ComponentIndex(2), true), (ComponentIndex(3), false)]);
    let mut m = ArchetypeMapping::new(ArchetypeIndex(0), ArchetypeIndex(9));
    // the world finds (or makes) the planned archetype at index 1
    let (is_new, moved) = st.find_mapping(&src, &mut m, false, |plan: &ArchetypeInfo| {
        assert_eq!(plan.sorted_components, vec![ComponentIndex(1), ComponentIndex(2)]);
        ArchetypeIndex(1)
    });
    assert!(is_new && moved);
    assert_eq!((m.dst, m.dst_index), (ArchetypeIndex(1), ArchetypeIndex(1)));
    assert_eq!((m.add_indexs.clone(), m.move_indexs.clone(), m.removed_indexs.clone()), (0..1, 0..1, 0..1));
    // a mapping that has its target is not planned again
    let (again, moved_again) = st.find_mapping(&src, &mut m, false, |_: &ArchetypeInfo| ArchetypeIndex(5));
    assert!(!again && !moved_again);
    assert_eq!(m.dst_index, ArchetypeIndex(1));
    assert_eq!((m.add_indexs.clone(), m.move_indexs.clone(), m.removed_indexs.clone()), (0..1, 0..1, 0..1));

    let mut columns: Vec<Column> = (0..4u32).map(|i| Column::new(info(i))).collect();
    for c in columns.iter_mut() {
        c.init_blob(ArchetypeIndex(0));
        c.init_blob(ArchetypeIndex(1));
    }
    columns[1].write_row(ArchetypeIndex(0), Row(0), vec![1, 1]);
    columns[1].write_row(ArchetypeIndex(0), Row(1), vec![2, 2]);
    let mut dirty = Vec::new();
    m.push(Row(1), Row(0), Entity(11), LocalIndex(0), &mut dirty);
    st.move_columns(&m, &mut columns);
    assert_eq!(columns[1].blob_ref(ArchetypeIndex(1)).unwrap().get_row(Row(0)), Some(vec![2u8, 2]));
    // the source keeps its rows, and columns that do not move are untouched
    assert_eq!(columns[1].blob_ref(ArchetypeIndex(0)).unwrap().get_row(Row(1)), Some(vec![2u8, 2]));
    assert!(columns[2].blob_ref(ArchetypeIndex(1)).unwrap().get_row(Row(0)).is_none());
    st.remove_columns(&m, &mut columns);
    assert!(columns[3].blob_ref(ArchetypeIndex(1)).unwrap().get_row(Row(0)).is_none());
}

#[test]
fn find_mapping_keeps_an_unchanged_archetype_as_its_own_target() {
    let infos = infos();
    let mut src = Archetype::new(ArchetypeInfo::new(vec![ComponentIndex(1), ComponentIndex(3)]), &infos);
    src.set_index(ArchetypeIndex(4));
    // adding a component the archetype has changes nothing
    let mut st = AState::new(vec![(ComponentIndex(3), true)]);
    let mut m = ArchetypeMapping::new(ArchetypeIndex(4), ArchetypeIndex(9));
    let (is_new, moved) = st.find_mapping(&src, &mut m, true, |_: &ArchetypeInfo| ArchetypeIndex(7));
    assert!(is_new && !moved);
    assert_eq!((m.dst, m.dst_index), (ArchetypeIndex(4), ArchetypeIndex(4)));
}
