use std::collections::HashSet;

use segment_manager::DeleteCursor;
use segment_manager::SegmentEntry;
use segment_manager::SegmentMeta;
use segment_manager::SegmentRegister;

fn entry(id: u64, num_docs: u32, delete_opstamp: u64) -> SegmentEntry {
    SegmentEntry::new(
        SegmentMeta::new(id, num_docs, delete_opstamp, Vec::new()),
        DeleteCursor { position: 0 },
    )
}

#[test]
fn register_inserts_and_overwrites() {
    let mut register = SegmentRegister::default();
    register.register_segment_entry(entry(1, 5, 0));
    register.register_segment_entry(entry(2, 6, 0));
    assert_eq!(register.get(1), Some(entry(1, 5, 0)));
    // registering the same id again overwrites in place
    register.register_segment_entry(entry(1, 4, 2));
    assert_eq!(register.get(1), Some(entry(1, 4, 2)));
    assert_eq!(register.segment_entries(), vec![entry(1, 4, 2), entry(2, 6, 0)]);
}

#[test]
fn remove_deletes_only_the_named_id() {
    let mut register = SegmentRegister::default();
    register.register_segment_entry(entry(1, 5, 0));
    register.register_segment_entry(entry(2, 6, 0));
    register.remove_segment(1);
    assert_eq!(register.get(1), None);
    assert_eq!(register.get(2), Some(entry(2, 6, 0)));
    // removing an absent id is a no-op
    register.remove_segment(42);
    assert_eq!(register.segment_entries(), vec![entry(2, 6, 0)]);
}

#[test]
fn contains_all_requires_every_id() {
    let mut register = SegmentRegister::default();
    register.register_segment_entry(entry(1, 5, 0));
    register.register_segment_entry(entry(2, 6, 0));
    assert!(register.contains_all(&[1, 2]));
    assert!(register.contains_all(&[2]));
    assert!(register.contains_all(&[]));
    assert!(!register.contains_all(&[1, 3]));
}

#[test]
fn new_pairs_each_meta_with_the_cursor() {
    let register = SegmentRegister::new(
        vec![
            SegmentMeta::new(1, 5, 0, Vec::new()),
            SegmentMeta::new(2, 6, 1, Vec::new()),
        ],
        &DeleteCursor { position: 9 },
    );
    let entries = register.segment_entries();
    assert_eq!(entries.len(), 2);
    assert!(entries.iter().all(|e| e.delete_cursor.position == 9));
    assert_eq!(register.segment_metas().iter().map(|m| m.id()).collect::<Vec<_>>(), vec![1, 2]);
}

#[test]
fn clear_empties_the_register() {
    let mut register = SegmentRegister::default();
    register.register_segment_entry(entry(1, 5, 0));
    register.clear();
    assert!(register.segment_entries().is_empty());
    assert!(!register.contains_all(&[1]));
}

#[test]
fn mergeable_segments_exclude_in_flight_ids() {
    let mut register = SegmentRegister::default();
    register.register_segment_entry(entry(1, 5, 0));
    register.register_segment_entry(entry(2, 6, 0));
    register.register_segment_entry(entry(3, 7, 0));
    let mut excluded = HashSet::new();
    excluded.insert(2u64);
    let mergeable = register.get_mergeable_segments(&excluded);
    assert_eq!(mergeable.iter().map(|m| m.id()).collect::<Vec<_>>(), vec![1, 3]);
}
