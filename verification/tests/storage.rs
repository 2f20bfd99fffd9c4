use pi_world::archetype::{ArchetypeIndex, ComponentInfo, Row};
use pi_world::blob::{BucketsBlob, VecBlob};
use pi_world::blob_vec::BlobVec;
use pi_world::column::{BlobTicks, Column, ColumnInfo};
use pi_world::components::{ComponentsIter, ComponentsVec};
use pi_world::event::EventVec;
use pi_world::filter::Changed;
use pi_world::multi_res::ResVec;
use pi_world::world::{Entity, Tick};

#[test]
fn blob_vec_counts_whole_blobs() {
    let mut v = BlobVec::new(4);
    assert!(v.is_empty());
    assert_eq!(v.alloc_zeroed(), 0);
    assert_eq!(v.alloc_zeroed(), 4);
    assert_eq!(v.len(), 2);
    assert_eq!(v.get(1), Some(4));
    assert_eq!(v.get(2), None);
}

#[test]
fn components_vec_rows() {
    let mut v = ComponentsVec::new(8);
    assert!(v.is_empty());
    assert_eq!(v.alloc_row(), (Row(0), 0));
    assert_eq!(v.alloc_row(), (Row(1), 8));
    assert_eq!(v.len(), 16);
    assert_eq!(v.get(Row(1)), Some(8));
    assert_eq!(v.get(Row(2)), None);
    let mut it = v.iter();
    assert_eq!(it.components_size(), 8);
    assert_eq!(it.size_hint(), (2, Some(2)));
    assert_eq!(it.next(), Some(0));
    assert_eq!(it.size_hint(), (1, Some(1)));
    assert_eq!(it.next(), Some(8));
    assert_eq!(it.next(), None);
    assert_eq!(it.index(), 2);
    assert_eq!(it.size_hint(), (0, Some(0)));
    let mut e = ComponentsIter::empty();
    assert_eq!(e.size_hint(), (0, Some(0)));
    assert_eq!(e.next(), None);
    assert_eq!(e.index(), 0);
    assert_eq!(e.components_size(), 0);
}

#[test]
fn buckets_blob_capacity_counts_whole_buckets() {
    let mut b = BucketsBlob::default();
    assert_eq!(b.vec_capacity(), usize::MAX);
    assert_eq!(b.memsize(), 24);
    b.set_vec_capacity(10);
    assert_eq!(b.capacity(5), 10);
    assert_eq!(b.capacity(10), 10);
    // entry 0 past the vector is in the first bucket of 32
    assert_eq!(b.capacity(11), 10 + 32);
    // entry 32 past the vector starts the second bucket of 64
    assert_eq!(b.capacity(10 + 33), 10 + 96);
    assert_eq!(b.memsize(), 34);
    let mut v = VecBlob::default();
    v.set_vec_capacity(7);
    assert_eq!(v.capacity(100), 7);
    v.settle(1, 2, 3);
    assert_eq!(v.vec_capacity(), 7);
}

#[test]
fn ticks_never_go_back() {
    let mut info = ColumnInfo::new(ComponentInfo::create(1, "T".to_string(), 4, 1));
    info.changed = Some(EventVec::new("changed".to_string()));
    info.added = Some(EventVec::new("added".to_string()));
    let l = info.changed.as_mut().unwrap().insert_listener();
    let mut t = BlobTicks::new();
    assert_eq!(t.get_tick_unchecked(Row(3)), Tick(0));
    t.added_tick(&mut info, Entity(1), Row(3), Tick(5));
    assert_eq!(t.get_tick_unchecked(Row(3)), Tick(5));
    assert_eq!(t.get_tick_unchecked(Row(1)), Tick(0));
    t.changed_tick(&mut info, Entity(1), Row(3), Tick(4));
    assert_eq!(t.get_tick_unchecked(Row(3)), Tick(5));
    assert_eq!(info.changed.as_ref().unwrap().len(l), 0);
    t.changed_tick(&mut info, Entity(1), Row(3), Tick(8));
    assert_eq!(t.get_tick_unchecked(Row(3)), Tick(8));
    assert_eq!(info.changed.as_ref().unwrap().len(l), 1);
    assert!(Changed::<u8>::filter(Some(&t), Row(3), Tick(8)));
    assert!(!Changed::<u8>::filter(Some(&t), Row(3), Tick(7)));
    assert!(Changed::<u8>::filter(None, Row(3), Tick(0)));
}

#[test]
fn untracked_component_keeps_no_ticks() {
    let mut info = ColumnInfo::new(ComponentInfo::create(1, "T".to_string(), 4, 0));
    let mut t = BlobTicks::new();
    t.changed_tick(&mut info, Entity(1), Row(0), Tick(9));
    assert_eq!(t.get_tick_unchecked(Row(0)), Tick(0));
}

#[test]
fn res_vec_keeps_instances_in_order() {
    let mut r: ResVec<&str> = ResVec::new();
    assert_eq!(r.insert("a"), 0);
    assert_eq!(r.insert("b"), 1);
    assert_eq!(r.len(), 2);
    assert_eq!(r.get(1).unwrap().value, "b");
    assert_eq!(r.get(1).unwrap().tick, Tick(0));
    assert!(r.get(2).is_none());
    assert_eq!(r.iter().len(), 2);
}

#[test]
fn column_settle_moves_rows_then_truncates() {
    let mut c = Column::new(ComponentInfo::create(7, "P".to_string(), 1, 0));
    let ai = ArchetypeIndex(2);
    assert!(!c.contains(ai));
    c.init_blob(ai);
    assert!(c.contains(ai));
    assert!(!c.contains(ArchetypeIndex(1)));
    for r in 0..4u32 {
        c.write_row(ai, Row(r), vec![r as u8 + 10]);
    }
    // the rows went to the first bucket; the next one is not allocated
    assert_eq!(c.blob_ref(ai).unwrap().get_row(Row(3)), Some(vec![13u8]));
    assert_eq!(c.blob_ref(ai).unwrap().get_row(Row(5)), Some(vec![]));
    assert_eq!(c.blob_ref(ai).unwrap().get_row(Row(40)), None);
    // row 1 was removed: the last row moves into its place
    c.settle_by_index(ai, 3, 0, &vec![(Row(3), Row(1))]);
    let b = c.blob_ref(ai).unwrap();
    assert_eq!(b.get_row(Row(0)), Some(vec![10u8]));
    assert_eq!(b.get_row(Row(1)), Some(vec![13u8]));
    assert_eq!(b.get_row(Row(2)), Some(vec![12u8]));
    // the settled blob holds a whole bucket's rows; those past `len` are empty
    assert_eq!(b.get_row(Row(3)), Some(vec![]));
    assert_eq!(b.get_row(Row(31)), Some(vec![]));
    assert_eq!(b.get_row(Row(40)), None);
    assert!(c.blob_ref(ArchetypeIndex(0)).is_none());
    assert_eq!(c.blob_ref_unchecked(ai).get_row(Row(0)), Some(vec![10u8]));
}

#[test]
fn zero_sized_column_settles_nothing() {
    let mut c = Column::new(ComponentInfo::create(8, "Z".to_string(), 0, 0));
    let ai = ArchetypeIndex(0);
    c.init_blob(ai);
    c.write_row(ai, Row(0), vec![]);
    c.write_row(ai, Row(1), vec![]);
    c.settle_by_index(ai, 0, 0, &vec![]);
    assert!(c.blob_ref(ai).unwrap().get_row(Row(1)).is_some());
}

#[test]
fn buckets_blob_rows_move_into_the_vector_on_settle() {
    let mut b = BucketsBlob::default();
    b.set_vec_capacity(2);
    b.load_alloc_multiple(0, vec![1]);
    b.load_alloc_multiple(1, vec![2]);
    // row 3 is entry 1 of the first bucket, which gets allocated
    b.load_alloc_multiple(3, vec![4]);
    assert_eq!(b.get_multiple(3), Some(vec![4]));
    assert_eq!(b.get_multiple(2), Some(vec![]));
    assert_eq!(b.get_multiple(2 + 32), None);
    assert_eq!(b.get_multiple_unchecked(0), vec![1]);
    b.settle(4, 0);
    // the vector now ends where the bucket of row 4 ends
    assert_eq!(b.vec_capacity(), 32);
    assert_eq!(b.get_multiple(0), Some(vec![1]));
    assert_eq!(b.get_multiple(1), Some(vec![2]));
    assert_eq!(b.get_multiple(2), Some(vec![]));
    assert_eq!(b.get_multiple(3), Some(vec![4]));
    assert_eq!(b.get_multiple(31), Some(vec![]));
    assert_eq!(b.get_multiple(33), None);
}

#[test]
fn buckets_blob_remain_settle_within_the_vector() {
    let mut b = BucketsBlob::default();
    b.set_vec_capacity(10);
    for i in 0..5u8 {
        b.load_alloc_multiple(i as usize, vec![i]);
    }
    b.load_alloc_multiple(12, vec![9]);
    b.remain_settle(2..4, 4, 0);
    assert_eq!(b.vec_capacity(), 10);
    assert_eq!(b.get_multiple(0), Some(vec![2]));
    assert_eq!(b.get_multiple(1), Some(vec![3]));
    assert_eq!(b.get_multiple(2), Some(vec![]));
    // the buckets stay when `len` stays within the vector
    assert_eq!(b.get_multiple(12), Some(vec![9]));
    // the capacity grows to `len + additional`
    b.remain_settle(0..2, 4, 20);
    assert_eq!(b.vec_capacity(), 24);
    b.remain_settle(0..1, 15, 0);
    assert_eq!(b.vec_capacity(), 24);
    assert_eq!(b.get_multiple(0), Some(vec![2]));
    assert_eq!(b.get_multiple(1), Some(vec![]));
    assert_eq!(b.get_multiple(16), Some(vec![]));
    // a range reaching the buckets drops them
    // (row 12 went to the buckets while the capacity was 10; it now reads at 26)
    b.remain_settle(0..30, 30, 3);
    assert_eq!(b.vec_capacity(), 96);
    assert_eq!(b.get_multiple(0), Some(vec![2]));
    assert_eq!(b.get_multiple(26), Some(vec![9]));
    assert_eq!(b.get_multiple(100), None);
}

#[test]
fn vec_blob_grows_to_take_a_row() {
    let mut v = VecBlob::default();
    v.set_vec_capacity(0);
    assert_eq!(v.get_multiple(0), None);
    v.load_alloc_multiple(2, vec![7, 7]);
    assert_eq!(v.vec_capacity(), 3);
    assert_eq!(v.get_multiple(2), Some(vec![7, 7]));
    assert_eq!(v.get_multiple(1), Some(vec![]));
    assert_eq!(v.get_multiple(3), None);
    assert_eq!(v.get_multiple_unchecked(2), vec![7, 7]);
    v.load_alloc_multiple(0, vec![1]);
    assert_eq!(v.vec_capacity(), 3);
    v.settle(1, 1, 1);
    assert_eq!(v.vec_capacity(), 3);
    assert_eq!(v.get_multiple(0), Some(vec![1]));
    // settling grows the capacity to `len + additional`, keeping the rows
    v.settle(4, 3, 1);
    assert_eq!(v.vec_capacity(), 7);
    assert_eq!(v.get_multiple(2), Some(vec![7, 7]));
    assert_eq!(v.get_multiple(6), Some(vec![]));
}

#[test]
fn column_settle_moves_ticks_of_tracked_rows() {
    let mut c = Column::new(ComponentInfo::create(9, "T".to_string(), 1, 1));
    let ai = ArchetypeIndex(0);
    c.init_blob(ai);
    for r in 0..3u32 {
        c.write_row(ai, Row(r), vec![r as u8]);
        c.added_tick(ai, Entity(r as u64), Row(r), Tick(r + 1));
    }
    // an older tick does not replace a newer one
    c.changed_tick(ai, Entity(2), Row(2), Tick(2));
    c.changed_tick(ai, Entity(0), Row(0), Tick(7));
    let b = c.blob_ref(ai).unwrap();
    assert_eq!(b.get_tick_unchecked(Row(2)), Tick(3));
    assert_eq!(b.get_tick_unchecked(Row(0)), Tick(7));
    // row 1 was removed: the last row and its tick move into its place
    c.settle_by_index(ai, 2, 0, &vec![(Row(2), Row(1))]);
    let b = c.blob_ref(ai).unwrap();
    assert_eq!(b.get_row(Row(1)), Some(vec![2u8]));
    assert_eq!(b.get_tick_unchecked(Row(0)), Tick(7));
    assert_eq!(b.get_tick_unchecked(Row(1)), Tick(3));
    assert_eq!(b.get_tick_unchecked(Row(2)), Tick(0));
}

fn transform(v: f32) -> Vec<u8> {
    [v; 16].iter().flat_map(|f| f.to_le_bytes()).collect()
}

#[test]
fn test_columns() {
    // a Transform is sixteen f32 values, with no change tracking
    let mut cc = Column::new(ComponentInfo::create(0, "Transform".to_string(), 64, 0));
    cc.init_blob(ArchetypeIndex(0));
    cc.write_row(ArchetypeIndex(0), Row(0), transform(0.0));
    cc.write_row(ArchetypeIndex(0), Row(1), transform(1.0));
    let c = cc.blob_ref_unchecked(ArchetypeIndex(0));
    assert_eq!(c.get_row(Row(0)), Some(transform(0.0)));
    assert_eq!(c.get_row(Row(1)), Some(transform(1.0)));
    let action = Vec::new();
    cc.settle_by_index(ArchetypeIndex(0), 2, 0, &action);
    let c = cc.blob_ref_unchecked(ArchetypeIndex(0));
    assert_eq!(c.get_row(Row(0)), Some(transform(0.0)));
    assert_eq!(c.get_row(Row(1)), Some(transform(1.0)));
}
