use std::collections::HashSet;

use segment_manager::get_mergeable_segments;
use segment_manager::DeleteCursor;
use segment_manager::SegmentEntry;
use segment_manager::SegmentError;
use segment_manager::SegmentManager;
use segment_manager::SegmentMeta;

fn meta(id: u64, num_docs: u32, delete_opstamp: u64) -> SegmentMeta {
    SegmentMeta::new(id, num_docs, delete_opstamp, Vec::new())
}

fn meta_with_files(id: u64, num_docs: u32, delete_opstamp: u64, files: &[&str]) -> SegmentMeta {
    SegmentMeta::new(
        id,
        num_docs,
        delete_opstamp,
        files.iter().map(|f| f.to_string()).collect(),
    )
}

fn entry(id: u64, num_docs: u32, delete_opstamp: u64) -> SegmentEntry {
    SegmentEntry::new(meta(id, num_docs, delete_opstamp), DeleteCursor { position: 0 })
}

fn empty_manager() -> SegmentManager {
    SegmentManager::from_segments(Vec::new(), &DeleteCursor { position: 0 })
}

fn ids_of(entries: &[SegmentEntry]) -> Vec<u64> {
    entries.iter().map(|e| e.segment_id()).collect()
}

#[test]
fn from_segments_starts_committed() {
    let manager = SegmentManager::from_segments(
        vec![meta(1, 10, 0), meta(2, 20, 0)],
        &DeleteCursor { position: 7 },
    );
    let entries = manager.segment_entries();
    assert_eq!(ids_of(&entries), vec![1, 2]);
    assert_eq!(entries[0].delete_cursor.position, 7);
    assert!(manager.committed_in_the_future_entries().is_empty());
}

#[test]
fn add_segment_is_uncommitted() {
    let mut manager = empty_manager();
    manager.add_segment(entry(1, 5, 0));
    assert_eq!(ids_of(&manager.segment_entries()), vec![1]);
    // nothing is committed yet
    assert!(manager.committed_segment_metas().is_empty());
}

#[test]
fn commit_replaces_previous_state() {
    let mut manager = empty_manager();
    manager.add_segment(entry(1, 5, 0));
    manager.commit(vec![entry(2, 6, 0), entry(3, 7, 0)]);
    // the uncommitted segment is discarded; exactly the given entries remain
    let entries = manager.segment_entries();
    assert_eq!(ids_of(&entries), vec![2, 3]);
    let metas = manager.committed_segment_metas();
    assert_eq!(metas.iter().map(|m| m.id()).collect::<Vec<_>>(), vec![2, 3]);
}

#[test]
fn commit_then_segment_entries_yields_exactly_the_entries() {
    let mut manager = empty_manager();
    manager.add_segment(entry(9, 1, 0));
    let committed = vec![entry(4, 5, 1), entry(5, 6, 2)];
    manager.commit(vec![entry(4, 5, 1), entry(5, 6, 2)]);
    assert_eq!(manager.segment_entries(), committed);
}

#[test]
fn commit_clears_future_deletes() {
    let mut manager = empty_manager();
    manager.commit(vec![entry(1, 5, 0)]);
    manager.soft_commit(vec![entry(1, 5, 4)]);
    assert_eq!(manager.committed_in_the_future_entries().len(), 1);
    manager.commit(vec![entry(1, 5, 0)]);
    assert!(manager.committed_in_the_future_entries().is_empty());
}

#[test]
fn start_merge_returns_requested_entries() {
    let mut manager = empty_manager();
    manager.add_segment(entry(1, 5, 0));
    manager.add_segment(entry(2, 6, 0));
    let entries = manager.start_merge(&[2, 1]).unwrap();
    assert_eq!(ids_of(&entries), vec![2, 1]);
    assert_eq!(entries[0], entry(2, 6, 0));
    assert_eq!(entries[1], entry(1, 5, 0));
}

#[test]
fn start_merge_returns_latest_registered_entry() {
    let mut manager = empty_manager();
    manager.add_segment(entry(1, 9, 0));
    manager.add_segment(entry(1, 5, 3));
    let entries = manager.start_merge(&[1]).unwrap();
    assert_eq!(entries, vec![entry(1, 5, 3)]);
}

#[test]
fn start_merge_rejects_mixed_classes() {
    let mut manager = empty_manager();
    manager.commit(vec![entry(1, 5, 0)]);
    manager.add_segment(entry(2, 6, 0));
    let result = manager.start_merge(&[1, 2]);
    assert!(matches!(result, Err(SegmentError::InvalidArgument(_))));
    // and nothing was mutated
    assert_eq!(ids_of(&manager.segment_entries()), vec![2, 1]);
}

#[test]
fn start_merge_rejects_missing_ids() {
    let mut manager = empty_manager();
    manager.commit(vec![entry(1, 5, 0)]);
    let result = manager.start_merge(&[1, 99]);
    assert!(matches!(result, Err(SegmentError::InvalidArgument(_))));
}

#[test]
fn end_merge_collapses_sources_in_place() {
    let mut manager = empty_manager();
    manager.add_segment(entry(1, 5, 0));
    let started = manager.start_merge(&[1]).unwrap();
    assert_eq!(started, vec![entry(1, 5, 0)]);
    manager.end_merge(&[1], entry(10, 5, 0));
    // the merged segment replaced its source, still uncommitted
    assert_eq!(manager.segment_entries(), vec![entry(10, 5, 0)]);
    assert!(manager.committed_segment_metas().is_empty());
}

#[test]
fn end_merge_in_committed_class() {
    let mut manager = empty_manager();
    manager.commit(vec![entry(1, 5, 0), entry(2, 6, 0), entry(3, 7, 0)]);
    manager.end_merge(&[1, 2], entry(10, 11, 0));
    let entries = manager.segment_entries();
    assert_eq!(ids_of(&entries), vec![3, 10]);
}

#[test]
fn end_merge_with_stale_sources_changes_nothing() {
    let mut manager = empty_manager();
    manager.add_segment(entry(1, 5, 0));
    // a hard commit races the merge and discards its sources
    manager.commit(vec![entry(2, 6, 0)]);
    let before = manager.segment_entries();
    let future_before = manager.committed_in_the_future_entries();
    manager.end_merge(&[1], entry(10, 5, 0));
    assert_eq!(manager.segment_entries(), before);
    assert_eq!(manager.committed_in_the_future_entries(), future_before);
}

#[test]
fn soft_commit_same_opstamp_is_a_no_op() {
    let mut manager = empty_manager();
    manager.commit(vec![entry(1, 5, 3)]);
    manager.soft_commit(vec![entry(1, 5, 3)]);
    assert_eq!(manager.segment_entries(), vec![entry(1, 5, 3)]);
    assert!(manager.committed_in_the_future_entries().is_empty());
}

#[test]
fn soft_commit_advances_opstamp_into_the_future_class() {
    let mut manager = empty_manager();
    manager.commit(vec![entry(1, 5, 3)]);
    manager.soft_commit(vec![entry(1, 5, 4)]);
    // the committed snapshot still shows the old opstamp
    assert_eq!(manager.segment_entries(), vec![entry(1, 5, 3)]);
    // the future-deletes class holds the new one
    assert_eq!(manager.committed_in_the_future_entries(), vec![entry(1, 5, 4)]);
}

#[test]
fn soft_commit_overwrites_uncommitted_entries() {
    let mut manager = empty_manager();
    manager.add_segment(entry(1, 9, 0));
    manager.soft_commit(vec![entry(1, 5, 2)]);
    assert_eq!(manager.segment_entries(), vec![entry(1, 5, 2)]);
    assert!(manager.committed_in_the_future_entries().is_empty());
}

#[test]
fn soft_commit_ignores_unknown_segments() {
    let mut manager = empty_manager();
    manager.commit(vec![entry(1, 5, 0)]);
    manager.soft_commit(vec![entry(42, 5, 1)]);
    assert_eq!(manager.segment_entries(), vec![entry(1, 5, 0)]);
    assert!(manager.committed_in_the_future_entries().is_empty());
}

#[test]
fn soft_commit_is_idempotent() {
    let mut once = empty_manager();
    once.commit(vec![entry(1, 5, 3), entry(2, 6, 0)]);
    once.add_segment(entry(3, 7, 0));
    let mut twice = empty_manager();
    twice.commit(vec![entry(1, 5, 3), entry(2, 6, 0)]);
    twice.add_segment(entry(3, 7, 0));

    let delta = || vec![entry(1, 5, 4), entry(3, 7, 2)];
    once.soft_commit(delta());
    twice.soft_commit(delta());
    twice.soft_commit(delta());

    assert_eq!(once.segment_entries(), twice.segment_entries());
    assert_eq!(
        once.committed_in_the_future_entries(),
        twice.committed_in_the_future_entries()
    );
}

#[test]
fn committed_segment_metas_drops_empty_segments() {
    let mut manager = empty_manager();
    manager.commit(vec![entry(1, 5, 0), entry(2, 0, 0)]);
    let metas = manager.committed_segment_metas();
    assert_eq!(metas.len(), 1);
    assert_eq!(metas[0].id(), 1);
    assert!(metas.iter().all(|m| m.num_docs() > 0));
    // the empty segment is gone from the registry, not only from the answer
    assert_eq!(ids_of(&manager.segment_entries()), vec![1]);
}

#[test]
fn committed_segment_metas_after_add_and_commit_of_empty_segment() {
    let mut manager = empty_manager();
    manager.add_segment(entry(7, 0, 0));
    let uncommitted = manager.segment_entries();
    manager.commit(uncommitted);
    assert!(manager.committed_segment_metas().is_empty());
}

#[test]
fn get_mergeable_segments_splits_by_class_and_excludes() {
    let mut manager = empty_manager();
    manager.commit(vec![entry(1, 5, 0), entry(2, 6, 0)]);
    manager.add_segment(entry(3, 7, 0));
    manager.add_segment(entry(4, 8, 0));
    let mut in_merge = HashSet::new();
    in_merge.insert(2u64);
    in_merge.insert(3u64);
    let (committed, uncommitted) = get_mergeable_segments(&in_merge, &manager);
    assert_eq!(committed.iter().map(|m| m.id()).collect::<Vec<_>>(), vec![1]);
    assert_eq!(uncommitted.iter().map(|m| m.id()).collect::<Vec<_>>(), vec![4]);
}

#[test]
fn list_files_covers_every_live_segment() {
    let mut manager = empty_manager();
    manager.commit(vec![SegmentEntry::new(
        meta_with_files(1, 5, 0, &["1.idx", "1.store"]),
        DeleteCursor { position: 0 },
    )]);
    manager.add_segment(SegmentEntry::new(
        meta_with_files(2, 3, 0, &["2.idx"]),
        DeleteCursor { position: 0 },
    ));
    let files = manager.list_files();
    assert_eq!(files[0], "meta.json");
    assert!(files.contains(&"1.idx".to_string()));
    assert!(files.contains(&"1.store".to_string()));
    assert!(files.contains(&"2.idx".to_string()));
    assert_eq!(files.len(), 4);
}

#[test]
fn list_files_includes_future_delete_state() {
    let mut manager = empty_manager();
    manager.commit(vec![SegmentEntry::new(
        meta_with_files(1, 5, 0, &["1.idx"]),
        DeleteCursor { position: 0 },
    )]);
    manager.soft_commit(vec![SegmentEntry::new(
        meta_with_files(1, 5, 2, &["1.idx", "1.del"]),
        DeleteCursor { position: 0 },
    )]);
    let files = manager.list_files();
    assert!(files.contains(&"1.del".to_string()));
}
