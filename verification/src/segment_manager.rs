//! The coordinator: three registers behind one owner, and the atomic
//! state transitions between them.
//!
//! The manager tracks three overlapping visibility classes: `uncommitted`
//! (segments built since the last commit), `committed` (the last hard-commit
//! snapshot), and `committed_in_the_future` (committed segments whose delete
//! opstamp a soft commit advanced past the snapshot). A segment id lives in
//! at most one of `uncommitted` and `committed`; it may appear in both
//! `committed` and `committed_in_the_future` while a newer delete state waits
//! for the next hard commit.
//!
//! Every mutating operation takes the manager exclusively, so each compound
//! transition (commit, soft commit, merge end, garbage collection) is atomic
//! to its callers: no reader of the results can observe a half-applied one.
//! Callers that share a manager across threads wrap it in a single
//! shared-read/exclusive-write lock around the whole value.

use vstd::prelude::*;

use std::collections::HashSet;

use crate::segment::SegmentEntry;
use crate::segment::SegmentEntryView;
use crate::segment::SegmentId;
use crate::segment::SegmentMeta;
use crate::segment::DeleteCursor;
use crate::segment::string_views;
use crate::segment_register::contains_all_ids;
use crate::segment_register::entries_with_cursor;
use crate::segment_register::entry_for;
use crate::segment_register::has_id;
use crate::segment_register::lemma_register_fold_fresh;
use crate::segment_register::lemma_register_step;
use crate::segment_register::lemma_remove_ids;
use crate::segment_register::mergeable_of;
use crate::segment_register::meta_views_of;
use crate::segment_register::metas_of;
use crate::segment_register::register_fold;
use crate::segment_register::register_step;
use crate::segment_register::remove_ids;
use crate::segment_register::unique_ids;
use crate::segment_register::views_of;
use crate::segment_register::SegmentRegister;

verus! {

/// The error a caller gets back from an operation handed an argument the
/// registry cannot act on.
#[derive(Debug, PartialEq, Eq)]
pub enum SegmentError {
    /// The requested segment-id set is not wholly contained in exactly one of
    /// the uncommitted or committed classes.
    InvalidArgument(String),
}

/// The three visibility classes, one composite value so that every compound
/// transition mutates them together.
struct SegmentRegisters {
    uncommitted: SegmentRegister,
    committed: SegmentRegister,
    committed_in_the_future: SegmentRegister,
}

/// The segment manager stores the list of segments and their state, and
/// guarantees the atomicity of the changes, merges especially.
pub struct SegmentManager {
    registers: SegmentRegisters,
}

impl SegmentManager {
    /// The register of segments built since the last commit.
    pub closed spec fn uncommitted(&self) -> SegmentRegister {
        self.registers.uncommitted
    }

    /// The register holding the last hard-commit snapshot.
    pub closed spec fn committed(&self) -> SegmentRegister {
        self.registers.committed
    }

    /// The register of committed segments whose delete opstamp a soft commit
    /// advanced beyond the snapshot.
    pub closed spec fn committed_in_the_future(&self) -> SegmentRegister {
        self.registers.committed_in_the_future
    }

    /// Well-formedness: each register keys its entries uniquely, and no id is
    /// both uncommitted and committed at once.
    pub open spec fn inv(&self) -> bool {
        &&& self.uncommitted().wf()
        &&& self.committed().wf()
        &&& self.committed_in_the_future().wf()
        &&& forall|id: SegmentId|
            !(#[trigger] self.uncommitted().contains_id(id)
                && #[trigger] self.committed().contains_id(id))
    }

    /// A manager whose committed register is initialized from a list of
    /// persisted metadata records, each paired with the given shared
    /// delete-queue cursor; the other registers start empty. This is the path
    /// used when opening an existing index.
    pub fn from_segments(segment_metas: Vec<SegmentMeta>, delete_cursor: &DeleteCursor) -> (res:
        SegmentManager)
        ensures
            res.inv(),
            res.uncommitted().view_seq() == Seq::<SegmentEntryView>::empty(),
            res.committed_in_the_future().view_seq() == Seq::<SegmentEntryView>::empty(),
            res.committed().view_seq() == register_fold(
                Seq::<SegmentEntryView>::empty(),
                entries_with_cursor(meta_views_of(segment_metas@), delete_cursor.position),
            ),
    {
        SegmentManager {
            registers: SegmentRegisters {
                uncommitted: SegmentRegister::new_empty(),
                committed: SegmentRegister::new(segment_metas, delete_cursor),
                committed_in_the_future: SegmentRegister::new_empty(),
            },
        }
    }

    /// Registers a freshly built segment into the uncommitted class. The
    /// segment is new, so its id is not part of the committed snapshot.
    pub fn add_segment(&mut self, segment_entry: SegmentEntry)
        requires
            old(self).inv(),
            !old(self).committed().contains_id(segment_entry@.meta.segment_id),
        ensures
            final(self).inv(),
            final(self).uncommitted().view_seq() == register_step(
                old(self).uncommitted().view_seq(),
                segment_entry@,
            ),
            final(self).committed() == old(self).committed(),
            final(self).committed_in_the_future() == old(self).committed_in_the_future(),
    {
        self.registers.uncommitted.register_segment_entry(segment_entry);
    }

    /// Snapshot of all uncommitted and committed entries, as copies; used for
    /// status reporting.
    pub fn segment_entries(&self) -> (res: Vec<SegmentEntry>)
        ensures
            views_of(res@) == self.uncommitted().view_seq() + self.committed().view_seq(),
    {
        let mut segment_entries = self.registers.uncommitted.segment_entries();
        let mut committed_entries = self.registers.committed.segment_entries();
        segment_entries.append(&mut committed_entries);
        proof {
            assert(views_of(segment_entries@) =~= self.uncommitted().view_seq()
                + self.committed().view_seq());
        }
        segment_entries
    }

    /// Snapshot of the entries whose delete opstamp waits for the next hard
    /// commit, as copies.
    pub fn committed_in_the_future_entries(&self) -> (res: Vec<SegmentEntry>)
        ensures
            views_of(res@) == self.committed_in_the_future().view_seq(),
    {
        self.registers.committed_in_the_future.segment_entries()
    }

    /// Hard commit: atomically replaces the whole committed snapshot by the
    /// given entries and discards any uncommitted work and any pending
    /// future-delete bookkeeping.
    pub fn commit(&mut self, segment_entries: Vec<SegmentEntry>)
        requires
            old(self).inv(),
        ensures
            final(self).inv(),
            final(self).uncommitted().view_seq() == Seq::<SegmentEntryView>::empty(),
            final(self).committed_in_the_future().view_seq() == Seq::<SegmentEntryView>::empty(),
            final(self).committed().view_seq() == register_fold(
                Seq::<SegmentEntryView>::empty(),
                views_of(segment_entries@),
            ),
    {
        self.registers.committed.clear();
        self.registers.committed_in_the_future.clear();
        self.registers.uncommitted.clear();
        let n = segment_entries.len();
        let mut i: usize = 0;
        proof {
            assert(views_of(segment_entries@).subrange(0, 0) =~= Seq::<SegmentEntryView>::empty());
        }
        while i < n
            invariant
                i <= n,
                n == segment_entries@.len(),
                self.uncommitted().view_seq() == Seq::<SegmentEntryView>::empty(),
                self.committed_in_the_future().view_seq() == Seq::<SegmentEntryView>::empty(),
                self.committed().wf(),
                self.committed().view_seq() == register_fold(
                    Seq::<SegmentEntryView>::empty(),
                    views_of(segment_entries@).subrange(0, i as int),
                ),
            decreases n - i,
        {
            let entry = segment_entries[i].clone();
            proof {
                let l = views_of(segment_entries@);
                assert(l.subrange(0, i + 1 as int).drop_last() =~= l.subrange(0, i as int));
                assert(l.subrange(0, i + 1 as int).last() == entry@);
            }
            self.registers.committed.register_segment_entry(entry);
            i = i + 1;
        }
        proof {
            assert(views_of(segment_entries@).subrange(0, n as int) =~= views_of(
                segment_entries@,
            ));
        }
    }
}

impl Default for SegmentManager {
    /// A manager with all three registers empty.
    fn default() -> (res: SegmentManager)
        ensures
            res.inv(),
            res.uncommitted().view_seq() == Seq::<SegmentEntryView>::empty(),
            res.committed().view_seq() == Seq::<SegmentEntryView>::empty(),
            res.committed_in_the_future().view_seq() == Seq::<SegmentEntryView>::empty(),
    {
        SegmentManager {
            registers: SegmentRegisters {
                uncommitted: SegmentRegister::new_empty(),
                committed: SegmentRegister::new_empty(),
                committed_in_the_future: SegmentRegister::new_empty(),
            },
        }
    }
}

/// Merge candidates, split by visibility class: the metadata of every
/// committed and every uncommitted segment not already part of an in-flight
/// merge. Committed and uncommitted segments are never merged together, so
/// the two lists are kept apart.
pub fn get_mergeable_segments(
    in_merge_segment_ids: &HashSet<SegmentId>,
    segment_manager: &SegmentManager,
) -> (res: (Vec<SegmentMeta>, Vec<SegmentMeta>))
    ensures
        meta_views_of(res.0@) == mergeable_of(
            segment_manager.committed().view_seq(),
            in_merge_segment_ids@,
        ),
        meta_views_of(res.1@) == mergeable_of(
            segment_manager.uncommitted().view_seq(),
            in_merge_segment_ids@,
        ),
{
    (
        segment_manager.registers.committed.get_mergeable_segments(in_merge_segment_ids),
        segment_manager.registers.uncommitted.get_mergeable_segments(in_merge_segment_ids),
    )
}

/// The file paths owned by the entries of `s`, in order.
pub open spec fn files_of(s: Seq<SegmentEntryView>) -> Seq<Seq<char>>
    decreases s.len(),
{
    if s.len() == 0 {
        Seq::empty()
    } else {
        files_of(s.drop_last()) + s.last().meta.files
    }
}

/// Appends a copy of every file path owned by the register's entries.
fn append_register_files(files: &mut Vec<String>, register: &SegmentRegister)
    ensures
        string_views(final(files)@) == string_views(old(files)@) + files_of(register.view_seq()),
{
    let entries = register.segment_entries();
    let n = entries.len();
    let mut i: usize = 0;
    proof {
        assert(string_views(files@) =~= string_views(old(files)@) + files_of(
            register.view_seq().subrange(0, 0),
        ));
    }
    while i < n
        invariant
            i <= n,
            n == entries@.len(),
            views_of(entries@) == register.view_seq(),
            files@.len() == old(files)@.len() + files_of(
                register.view_seq().subrange(0, i as int),
            ).len(),
            string_views(files@) == string_views(old(files)@) + files_of(
                register.view_seq().subrange(0, i as int),
            ),
        decreases n - i,
    {
        let ghost reg_prefix = files_of(register.view_seq().subrange(0, i as int));
        let ghost entry_files = entries@[i as int]@.meta.files;
        let m = entries[i].meta.files.len();
        let mut j: usize = 0;
        proof {
            assert(string_views(files@) =~= string_views(old(files)@) + reg_prefix
                + entry_files.subrange(0, 0));
        }
        while j < m
            invariant
                j <= m,
                i < n,
                n == entries@.len(),
                m == entries@[i as int].meta.files@.len(),
                entry_files == entries@[i as int]@.meta.files,
                reg_prefix == files_of(register.view_seq().subrange(0, i as int)),
                files@.len() == old(files)@.len() + reg_prefix.len() + j,
                string_views(files@) == string_views(old(files)@) + reg_prefix
                    + entry_files.subrange(0, j as int),
            decreases m - j,
        {
            let ghost before_push = files@;
            files.push(entries[i].meta.files[j].clone());
            proof {
                assert forall|k: int| 0 <= k < before_push.len() implies string_views(files@)[k]
                    == string_views(before_push)[k] by {
                    assert(files@[k] == before_push[k]);
                }
                assert(string_views(files@)[before_push.len() as int] == entry_files[j as int]);
                assert(string_views(old(files)@).len() == old(files)@.len());
                assert(string_views(before_push) == string_views(old(files)@) + reg_prefix
                    + entry_files.subrange(0, j as int));
                assert(entry_files.subrange(0, j + 1 as int) =~= entry_files.subrange(
                    0,
                    j as int,
                ).push(entry_files[j as int]));
                let lhs = string_views(files@);
                let rhs = string_views(old(files)@) + reg_prefix + entry_files.subrange(
                    0,
                    j + 1 as int,
                );
                let base = old(files)@.len() + reg_prefix.len();
                assert(lhs.len() == rhs.len());
                assert forall|k: int| 0 <= k < lhs.len() implies lhs[k] == rhs[k] by {
                    if k < before_push.len() {
                        assert(lhs[k] == string_views(before_push)[k]);
                        if k >= base {
                            assert(string_views(before_push)[k] == entry_files.subrange(
                                0,
                                j as int,
                            )[k - base]);
                            assert(rhs[k] == entry_files.subrange(0, j + 1 as int)[k - base]);
                        }
                    } else {
                        assert(k == base + j);
                        assert(lhs[k] == entry_files[j as int]);
                        assert(rhs[k] == entry_files.subrange(0, j + 1 as int)[j as int]);
                    }
                }
                assert(lhs =~= rhs);
            }
            j = j + 1;
        }
        proof {
            assert(entry_files.subrange(0, m as int) =~= entry_files);
            assert(register.view_seq().subrange(0, i + 1 as int).drop_last()
                =~= register.view_seq().subrange(0, i as int));
            assert(register.view_seq().subrange(0, i + 1 as int).last() == register.view_seq()[i as int]);
            assert(string_views(files@) =~= string_views(old(files)@) + files_of(
                register.view_seq().subrange(0, i + 1 as int),
            ));
        }
        i = i + 1;
    }
    proof {
        assert(register.view_seq().subrange(0, n as int) =~= register.view_seq());
    }
}

/// The entries of `s` still holding live documents, in order.
pub open spec fn nonempty_of(s: Seq<SegmentEntryView>) -> Seq<SegmentEntryView>
    decreases s.len(),
{
    if s.len() == 0 {
        Seq::empty()
    } else if s.last().meta.num_docs == 0 {
        nonempty_of(s.drop_last())
    } else {
        nonempty_of(s.drop_last()).push(s.last())
    }
}

/// Every entry `nonempty_of` keeps holds at least one live document.
pub proof fn lemma_nonempty_positive(s: Seq<SegmentEntryView>)
    ensures
        forall|i: int| 0 <= i < nonempty_of(s).len() ==> (#[trigger] nonempty_of(s)[i]).meta.num_docs > 0,
    decreases s.len(),
{
    if s.len() > 0 {
        lemma_nonempty_positive(s.drop_last());
        let kept = nonempty_of(s.drop_last());
        assert forall|i: int| 0 <= i < nonempty_of(s).len() implies (#[trigger] nonempty_of(
            s,
        )[i]).meta.num_docs > 0 by {
            if s.last().meta.num_docs != 0 && i == kept.len() {
                assert(nonempty_of(s)[i] == s.last());
            } else {
                assert(nonempty_of(s)[i] == kept[i]);
            }
        }
    }
}

/// The last entry of `l` carrying `id`, if any: the one whose value survives
/// when every entry of `l` is applied in order.
pub open spec fn last_entry_for(l: Seq<SegmentEntryView>, id: SegmentId) -> Option<SegmentEntryView>
    decreases l.len(),
{
    if l.len() == 0 {
        None
    } else if l.last().meta.segment_id == id {
        Some(l.last())
    } else {
        last_entry_for(l.drop_last(), id)
    }
}

/// The last entry of `l` that a soft commit registers into the
/// future-deletes class for `id`: its segment is committed and its delete
/// opstamp differs from the committed one.
pub open spec fn last_future_entry(
    l: Seq<SegmentEntryView>,
    committed: Seq<SegmentEntryView>,
    id: SegmentId,
) -> Option<SegmentEntryView>
    decreases l.len(),
{
    if l.len() == 0 {
        None
    } else if l.last().meta.segment_id == id && has_id(committed, id) && l.last().meta.delete_opstamp
        != entry_for(committed, id).meta.delete_opstamp {
        Some(l.last())
    } else {
        last_future_entry(l.drop_last(), committed, id)
    }
}

/// How `last_entry_for` grows when one entry is appended to the delta.
pub proof fn lemma_last_entry_push(l: Seq<SegmentEntryView>, e: SegmentEntryView)
    ensures
        forall|id: SegmentId|
            #[trigger] last_entry_for(l.push(e), id) == (if e.meta.segment_id == id {
                Some(e)
            } else {
                last_entry_for(l, id)
            }),
{
    assert(l.push(e).drop_last() =~= l);
    assert(l.push(e).last() == e);
}

/// How `last_future_entry` grows when one entry is appended to the delta.
pub proof fn lemma_last_future_push(
    l: Seq<SegmentEntryView>,
    e: SegmentEntryView,
    committed: Seq<SegmentEntryView>,
)
    ensures
        forall|id: SegmentId|
            #[trigger] last_future_entry(l.push(e), committed, id) == (if e.meta.segment_id == id
                && has_id(committed, id) && e.meta.delete_opstamp != entry_for(
                committed,
                id,
            ).meta.delete_opstamp {
                Some(e)
            } else {
                last_future_entry(l, committed, id)
            }),
{
    assert(l.push(e).drop_last() =~= l);
    assert(l.push(e).last() == e);
}

/// Relation between a manager before and after `soft_commit(l)`: the
/// committed snapshot is untouched; an uncommitted segment named by the delta
/// is overwritten by the delta's last entry for it; a committed segment whose
/// delta entry carries a different delete opstamp gets that entry registered
/// into the future-deletes class; an entry whose opstamp equals the committed
/// one, or whose id is in neither register, changes nothing.
pub open spec fn soft_commit_rel(
    pre: SegmentManager,
    post: SegmentManager,
    l: Seq<SegmentEntryView>,
) -> bool {
    &&& post.committed() == pre.committed()
    &&& (forall|id: SegmentId|
        #[trigger] post.uncommitted().contains_id(id) <==> pre.uncommitted().contains_id(id))
    &&& (forall|id: SegmentId|
        pre.uncommitted().contains_id(id) ==> #[trigger] post.uncommitted().spec_get(id) == (
        match last_entry_for(l, id) {
            Some(e) => if !pre.committed().contains_id(id) {
                e
            } else {
                pre.uncommitted().spec_get(id)
            },
            None => pre.uncommitted().spec_get(id),
        }))
    &&& (forall|id: SegmentId|
        #[trigger] post.committed_in_the_future().contains_id(id) <==> (
        pre.committed_in_the_future().contains_id(id) || last_future_entry(
            l,
            pre.committed().view_seq(),
            id,
        ) is Some))
    &&& (forall|id: SegmentId|
        post.committed_in_the_future().contains_id(id)
            ==> #[trigger] post.committed_in_the_future().spec_get(id) == (match last_future_entry(
            l,
            pre.committed().view_seq(),
            id,
        ) {
            Some(e) => e,
            None => pre.committed_in_the_future().spec_get(id),
        }))
}

/// Relation between a manager before and after `end_merge(before, after)`:
/// whichever of the uncommitted or committed registers holds all the merged
/// segments loses them and gains the merged entry, the other registers stay;
/// when neither holds them all, a hard commit has raced the merge, its result
/// is stale, and nothing changes.
pub open spec fn end_merge_rel(
    pre: SegmentManager,
    post: SegmentManager,
    before: Seq<SegmentId>,
    after: SegmentEntryView,
) -> bool {
    if contains_all_ids(pre.uncommitted().view_seq(), before) {
        &&& post.uncommitted().view_seq() == register_step(
            remove_ids(pre.uncommitted().view_seq(), before),
            after,
        )
        &&& post.committed() == pre.committed()
        &&& post.committed_in_the_future() == pre.committed_in_the_future()
    } else if contains_all_ids(pre.committed().view_seq(), before) {
        &&& post.committed().view_seq() == register_step(
            remove_ids(pre.committed().view_seq(), before),
            after,
        )
        &&& post.uncommitted() == pre.uncommitted()
        &&& post.committed_in_the_future() == pre.committed_in_the_future()
    } else {
        post == pre
    }
}

impl SegmentManager {
    /// Marks a list of segments as in merge and returns copies of their
    /// current entries, so the merge worker knows the delete state to honor.
    ///
    /// The ids must be either all uncommitted or all committed: a merge result
    /// lands back in the visibility class it came from, so the classes are
    /// never mixed. A mixed or partially missing id set is rejected with
    /// [`SegmentError::InvalidArgument`] and nothing is mutated.
    ///
    /// A committed segment is merged from its committed entry even while the
    /// future-deletes class carries a newer delete opstamp for it; the newer
    /// state folds back in only at the next hard commit.
    pub fn start_merge(&self, segment_ids: &[SegmentId]) -> (res: Result<
        Vec<SegmentEntry>,
        SegmentError,
    >)
        requires
            self.inv(),
        ensures
            res is Ok <==> (contains_all_ids(self.uncommitted().view_seq(), segment_ids@)
                || contains_all_ids(self.committed().view_seq(), segment_ids@)),
            (res matches Ok(entries) ==> ({
                let source = if contains_all_ids(self.uncommitted().view_seq(), segment_ids@) {
                    self.uncommitted()
                } else {
                    self.committed()
                };
                &&& entries@.len() == segment_ids@.len()
                &&& (forall|i: int|
                    0 <= i < segment_ids@.len() ==> views_of(entries@)[i] == source.spec_get(
                        #[trigger] segment_ids@[i],
                    ))
                &&& (forall|i: int|
                    0 <= i < segment_ids@.len() ==> views_of(entries@)[i].meta.segment_id == (
                    #[trigger] segment_ids@[i]))
            })),
    {
        let in_uncommitted = self.registers.uncommitted.contains_all(segment_ids);
        let in_committed = self.registers.committed.contains_all(segment_ids);
        if !in_uncommitted && !in_committed {
            return Err(
                SegmentError::InvalidArgument(
                    String::from_str(
                        "merge requested for segments that are not all uncommitted or all committed",
                    ),
                ),
            );
        }
        let ghost source_spec = if in_uncommitted {
            self.uncommitted()
        } else {
            self.committed()
        };
        let mut segment_entries: Vec<SegmentEntry> = Vec::new();
        let n = segment_ids.len();
        let mut i: usize = 0;
        while i < n
            invariant
                i <= n,
                n == segment_ids@.len(),
                self.inv(),
                in_uncommitted == contains_all_ids(self.uncommitted().view_seq(), segment_ids@),
                in_uncommitted || in_committed,
                !in_uncommitted ==> contains_all_ids(self.committed().view_seq(), segment_ids@),
                source_spec == (if in_uncommitted {
                    self.uncommitted()
                } else {
                    self.committed()
                }),
                segment_entries@.len() == i,
                forall|j: int|
                    0 <= j < i ==> views_of(segment_entries@)[j] == source_spec.spec_get(
                        #[trigger] segment_ids@[j],
                    ),
                forall|j: int|
                    0 <= j < i ==> views_of(segment_entries@)[j].meta.segment_id == (
                    #[trigger] segment_ids@[j]),
            decreases n - i,
        {
            let segment_id = segment_ids[i];
            let looked_up = if in_uncommitted {
                self.registers.uncommitted.get(segment_id)
            } else {
                self.registers.committed.get(segment_id)
            };
            proof {
                assert(has_id(source_spec.view_seq(), segment_ids@[i as int]));
                let s = source_spec.view_seq();
                let idx = crate::segment_register::index_of_id(s, segment_ids@[i as int]);
                assert(0 <= idx < s.len() && s[idx].meta.segment_id == segment_ids@[i as int]);
            }
            let segment_entry = looked_up.unwrap();
            segment_entries.push(segment_entry);
            proof {
                assert(forall|j: int|
                    0 <= j < i ==> views_of(segment_entries@)[j] == source_spec.spec_get(
                        #[trigger] segment_ids@[j],
                    ));
            }
            i = i + 1;
        }
        Ok(segment_entries)
    }

    /// Lands a finished merge: removes every source segment from the register
    /// that holds them all and registers the merged entry into that same
    /// register, atomically. When neither register holds all the sources, a
    /// hard commit has raced the merge; the stale result is silently dropped
    /// and the registers stay as they are. The merged segment is new, so its
    /// id is in neither register.
    pub fn end_merge(
        &mut self,
        before_merge_segment_ids: &[SegmentId],
        after_merge_segment_entry: SegmentEntry,
    )
        requires
            old(self).inv(),
            !old(self).uncommitted().contains_id(after_merge_segment_entry@.meta.segment_id),
            !old(self).committed().contains_id(after_merge_segment_entry@.meta.segment_id),
        ensures
            final(self).inv(),
            end_merge_rel(
                *old(self),
                *final(self),
                before_merge_segment_ids@,
                after_merge_segment_entry@,
            ),
    {
        let in_uncommitted = self.registers.uncommitted.contains_all(before_merge_segment_ids);
        let in_committed = self.registers.committed.contains_all(before_merge_segment_ids);
        if in_uncommitted {
            let ghost pre = old(self).uncommitted().view_seq();
            let n = before_merge_segment_ids.len();
            let mut i: usize = 0;
            while i < n
                invariant
                    i <= n,
                    n == before_merge_segment_ids@.len(),
                    self.uncommitted().wf(),
                    self.uncommitted().view_seq() == remove_ids(
                        pre,
                        before_merge_segment_ids@.subrange(0, i as int),
                    ),
                    forall|id: SegmentId|
                        #[trigger] self.uncommitted().contains_id(id) ==> old(
                            self,
                        ).uncommitted().contains_id(id),
                    self.committed() == old(self).committed(),
                    self.committed_in_the_future() == old(self).committed_in_the_future(),
                decreases n - i,
            {
                proof {
                    assert(before_merge_segment_ids@.subrange(0, i + 1 as int).drop_last()
                        =~= before_merge_segment_ids@.subrange(0, i as int));
                }
                self.registers.uncommitted.remove_segment(before_merge_segment_ids[i]);
                i = i + 1;
            }
            proof {
                assert(before_merge_segment_ids@.subrange(0, n as int)
                    =~= before_merge_segment_ids@);
            }
            self.registers.uncommitted.register_segment_entry(after_merge_segment_entry);
        } else if in_committed {
            let ghost pre = old(self).committed().view_seq();
            let n = before_merge_segment_ids.len();
            let mut i: usize = 0;
            while i < n
                invariant
                    i <= n,
                    n == before_merge_segment_ids@.len(),
                    self.committed().wf(),
                    self.committed().view_seq() == remove_ids(
                        pre,
                        before_merge_segment_ids@.subrange(0, i as int),
                    ),
                    forall|id: SegmentId|
                        #[trigger] self.committed().contains_id(id) ==> old(
                            self,
                        ).committed().contains_id(id),
                    self.uncommitted() == old(self).uncommitted(),
                    self.committed_in_the_future() == old(self).committed_in_the_future(),
                decreases n - i,
            {
                proof {
                    assert(before_merge_segment_ids@.subrange(0, i + 1 as int).drop_last()
                        =~= before_merge_segment_ids@.subrange(0, i as int));
                }
                self.registers.committed.remove_segment(before_merge_segment_ids[i]);
                i = i + 1;
            }
            proof {
                assert(before_merge_segment_ids@.subrange(0, n as int)
                    =~= before_merge_segment_ids@);
            }
            self.registers.committed.register_segment_entry(after_merge_segment_entry);
        }
        // else: a merge that raced with a hard commit; its sources are gone,
        // so the stale result must not be applied
    }

    /// Deletes from the committed register every segment whose live document
    /// count has dropped to zero.
    fn remove_empty_segments(&mut self)
        requires
            old(self).inv(),
        ensures
            final(self).inv(),
            final(self).committed().view_seq() == nonempty_of(old(self).committed().view_seq()),
            final(self).uncommitted() == old(self).uncommitted(),
            final(self).committed_in_the_future() == old(self).committed_in_the_future(),
    {
        let ghost snap = old(self).committed().view_seq();
        let entries = self.registers.committed.segment_entries();
        let n = entries.len();
        let mut i: usize = 0;
        proof {
            assert(nonempty_of(snap.subrange(0, 0)) + snap.subrange(0, n as int) =~= snap);
        }
        while i < n
            invariant
                i <= n,
                n == entries@.len(),
                views_of(entries@) == snap,
                unique_ids(snap),
                self.committed().wf(),
                self.committed().view_seq() == nonempty_of(snap.subrange(0, i as int))
                    + snap.subrange(i as int, n as int),
                forall|id: SegmentId|
                    #[trigger] self.committed().contains_id(id) ==> old(
                        self,
                    ).committed().contains_id(id),
                self.uncommitted() == old(self).uncommitted(),
                self.committed_in_the_future() == old(self).committed_in_the_future(),
            decreases n - i,
        {
            let ghost prefix = nonempty_of(snap.subrange(0, i as int));
            let ghost cur = self.committed().view_seq();
            proof {
                assert(snap.subrange(0, i + 1 as int).drop_last() =~= snap.subrange(0, i as int));
                assert(snap.subrange(0, i + 1 as int).last() == snap[i as int]);
                assert(cur[prefix.len() as int] == snap[i as int]);
                assert(entries@[i as int]@ == snap[i as int]);
            }
            if entries[i].meta.num_docs == 0 {
                proof {
                    crate::segment_register::lemma_entry_at_index(cur, prefix.len() as int);
                }
                self.registers.committed.remove_segment(entries[i].meta.segment_id);
                proof {
                    assert(self.committed().view_seq() == cur.remove(prefix.len() as int));
                    assert(cur.remove(prefix.len() as int) =~= nonempty_of(
                        snap.subrange(0, i + 1 as int),
                    ) + snap.subrange(i + 1 as int, n as int));
                }
            } else {
                proof {
                    assert(self.committed().view_seq() =~= nonempty_of(
                        snap.subrange(0, i + 1 as int),
                    ) + snap.subrange(i + 1 as int, n as int));
                }
            }
            i = i + 1;
        }
        proof {
            assert(snap.subrange(0, n as int) =~= snap);
            assert(snap.subrange(n as int, n as int) =~= Seq::<SegmentEntryView>::empty());
            assert(nonempty_of(snap) + Seq::<SegmentEntryView>::empty() =~= nonempty_of(snap));
        }
    }

    /// Soft commit: applies incremental delete-opstamp advances without
    /// replacing the committed snapshot. For each given entry, in order: an
    /// entry whose id is committed with the same delete opstamp is a no-op;
    /// one whose id is committed with a different opstamp is registered into
    /// the future-deletes class, deferring the fold-in to the next hard
    /// commit; one whose id is uncommitted overwrites the uncommitted entry;
    /// one whose id is in neither register is a stale update and is ignored.
    pub fn soft_commit(&mut self, segment_entries: Vec<SegmentEntry>)
        requires
            old(self).inv(),
        ensures
            final(self).inv(),
            soft_commit_rel(*old(self), *final(self), views_of(segment_entries@)),
    {
        let ghost l = views_of(segment_entries@);
        let n = segment_entries.len();
        let mut i: usize = 0;
        proof {
            assert(l.subrange(0, 0) =~= Seq::<SegmentEntryView>::empty());
            assert(soft_commit_rel(*old(self), *self, l.subrange(0, 0)));
        }
        while i < n
            invariant
                i <= n,
                n == segment_entries@.len(),
                l == views_of(segment_entries@),
                self.inv(),
                soft_commit_rel(*old(self), *self, l.subrange(0, i as int)),
            decreases n - i,
        {
            let ghost prefix = l.subrange(0, i as int);
            let segment_entry = segment_entries[i].clone();
            let segment_id = segment_entry.segment_id();
            proof {
                assert(l.subrange(0, i + 1 as int) =~= prefix.push(l[i as int]));
                assert(segment_entry@ == l[i as int]);
                lemma_last_entry_push(prefix, segment_entry@);
                lemma_last_future_push(prefix, segment_entry@, old(self).committed().view_seq());
            }
            match self.registers.committed.get(segment_id) {
                Some(committed_segment_entry) => {
                    if committed_segment_entry.meta.delete_opstamp
                        == segment_entry.meta.delete_opstamp {
                        // nothing changed for this segment: no need to do anything
                        proof {
                            assert(soft_commit_rel(*old(self), *self, l.subrange(0, i + 1 as int)));
                        }
                    } else {
                        // the delta carries deletes sent after the last commit:
                        // keep them in the dedicated register until the next one
                        self.registers.committed_in_the_future.register_segment_entry(
                            segment_entry,
                        );
                        proof {
                            assert(soft_commit_rel(*old(self), *self, l.subrange(0, i + 1 as int)));
                        }
                    }
                },
                None => {
                    if self.registers.uncommitted.get(segment_id).is_some() {
                        // overwrite the previous uncommitted entry
                        self.registers.uncommitted.register_segment_entry(segment_entry);
                        proof {
                            assert(soft_commit_rel(*old(self), *self, l.subrange(0, i + 1 as int)));
                        }
                    } else {
                        // a stale update for a segment no register knows: ignored
                        proof {
                            assert(soft_commit_rel(*old(self), *self, l.subrange(0, i + 1 as int)));
                        }
                    }
                },
            }
            i = i + 1;
        }
        proof {
            assert(l.subrange(0, n as int) =~= l);
        }
    }

    /// The files useful to the index: the index metadata file, plus every
    /// file owned by every currently known segment, whatever its visibility
    /// class. This is the retention set a garbage-collection pass must not
    /// delete; lock files and files already superseded but not yet removed
    /// are not in it.
    pub fn list_files(&self) -> (res: Vec<String>)
        ensures
            string_views(res@) == seq!["meta.json"@] + files_of(self.uncommitted().view_seq())
                + files_of(self.committed().view_seq()) + files_of(
                self.committed_in_the_future().view_seq(),
            ),
    {
        let mut files: Vec<String> = Vec::new();
        files.push(String::from_str("meta.json"));
        proof {
            assert(string_views(files@) =~= seq!["meta.json"@]);
        }
        append_register_files(&mut files, &self.registers.uncommitted);
        append_register_files(&mut files, &self.registers.committed);
        append_register_files(&mut files, &self.registers.committed_in_the_future);
        files
    }

    /// First deletes every committed segment with zero live documents, then
    /// returns the committed metadata list: deletes can empty a segment, and
    /// an empty segment carries no searchable content, so it vanishes from
    /// the logical registry as a side effect of asking what is committed.
    /// No returned record reports zero live documents.
    pub fn committed_segment_metas(&mut self) -> (res: Vec<SegmentMeta>)
        requires
            old(self).inv(),
        ensures
            final(self).inv(),
            final(self).committed().view_seq() == nonempty_of(old(self).committed().view_seq()),
            final(self).uncommitted() == old(self).uncommitted(),
            final(self).committed_in_the_future() == old(self).committed_in_the_future(),
            meta_views_of(res@) == metas_of(final(self).committed().view_seq()),
            forall|i: int|
                0 <= i < meta_views_of(res@).len() ==> (#[trigger] meta_views_of(
                    res@,
                )[i]).num_docs > 0,
    {
        self.remove_empty_segments();
        proof {
            lemma_nonempty_positive(old(self).committed().view_seq());
        }
        self.registers.committed.segment_metas()
    }
}

/// A hard commit of entries whose ids are pairwise distinct, followed by the
/// snapshot query, yields exactly those entries: the committed class holds
/// them in order and the uncommitted class is empty, whatever the prior
/// state was.
pub proof fn lemma_commit_then_segment_entries(post: SegmentManager, l: Seq<SegmentEntryView>)
    requires
        unique_ids(l),
        post.uncommitted().view_seq() == Seq::<SegmentEntryView>::empty(),
        post.committed().view_seq() == register_fold(Seq::<SegmentEntryView>::empty(), l),
    ensures
        post.uncommitted().view_seq() + post.committed().view_seq() == l,
{
    lemma_register_fold_fresh(Seq::<SegmentEntryView>::empty(), l);
    assert(Seq::<SegmentEntryView>::empty() + l =~= l);
    assert(post.uncommitted().view_seq() + post.committed().view_seq() =~= l);
}

/// Soft commit is idempotent: reapplying a delta with identical delete
/// opstamps leaves the same observable committed, uncommitted and
/// future-deletes state as applying it once, because the committed snapshot
/// it decides against never changes.
pub proof fn lemma_soft_commit_idempotent(
    first: SegmentManager,
    once: SegmentManager,
    twice: SegmentManager,
    l: Seq<SegmentEntryView>,
)
    requires
        soft_commit_rel(first, once, l),
        soft_commit_rel(once, twice, l),
    ensures
        twice.committed() == once.committed(),
        forall|id: SegmentId|
            #[trigger] twice.uncommitted().contains_id(id) <==> once.uncommitted().contains_id(id),
        forall|id: SegmentId|
            once.uncommitted().contains_id(id) ==> #[trigger] twice.uncommitted().spec_get(id)
                == once.uncommitted().spec_get(id),
        forall|id: SegmentId|
            #[trigger] twice.committed_in_the_future().contains_id(id)
                <==> once.committed_in_the_future().contains_id(id),
        forall|id: SegmentId|
            once.committed_in_the_future().contains_id(id)
                ==> #[trigger] twice.committed_in_the_future().spec_get(id)
                == once.committed_in_the_future().spec_get(id),
{
    assert(once.committed() == first.committed());
    assert forall|id: SegmentId| #[trigger] twice.committed_in_the_future().contains_id(id)
        <==> once.committed_in_the_future().contains_id(id) by {
        assert(once.committed_in_the_future().contains_id(id)
            <==> (first.committed_in_the_future().contains_id(id) || last_future_entry(
            l,
            first.committed().view_seq(),
            id,
        ) is Some));
    }
    assert forall|id: SegmentId|
        once.uncommitted().contains_id(id) implies #[trigger] twice.uncommitted().spec_get(id)
        == once.uncommitted().spec_get(id) by {
        assert(first.uncommitted().contains_id(id));
    }
    assert forall|id: SegmentId|
        once.committed_in_the_future().contains_id(id)
            implies #[trigger] twice.committed_in_the_future().spec_get(id)
            == once.committed_in_the_future().spec_get(id) by {
        assert(twice.committed_in_the_future().contains_id(id));
    }
}

/// A merge whose source set is no longer fully present in any register — a
/// hard commit discarded the sources while the merge ran — leaves the
/// registers exactly as they were.
pub proof fn lemma_end_merge_stale_is_dropped(
    pre: SegmentManager,
    post: SegmentManager,
    before: Seq<SegmentId>,
    after: SegmentEntryView,
)
    requires
        end_merge_rel(pre, post, before, after),
        !contains_all_ids(pre.uncommitted().view_seq(), before),
        !contains_all_ids(pre.committed().view_seq(), before),
    ensures
        post == pre,
{
}

/// After a merge lands, none of its source segments remain retrievable from
/// the register that held them, and the merged entry is retrievable from that
/// same register.
pub proof fn lemma_end_merge_sources_gone(
    pre: SegmentManager,
    post: SegmentManager,
    before: Seq<SegmentId>,
    after: SegmentEntryView,
)
    requires
        pre.inv(),
        !pre.uncommitted().contains_id(after.meta.segment_id),
        !pre.committed().contains_id(after.meta.segment_id),
        end_merge_rel(pre, post, before, after),
    ensures
        contains_all_ids(pre.uncommitted().view_seq(), before) ==> ((forall|i: int|
            0 <= i < before.len() ==> !post.uncommitted().contains_id(#[trigger] before[i]))
            && post.uncommitted().contains_id(after.meta.segment_id)
            && post.uncommitted().spec_get(after.meta.segment_id) == after),
        !contains_all_ids(pre.uncommitted().view_seq(), before) && contains_all_ids(
            pre.committed().view_seq(),
            before,
        ) ==> ((forall|i: int|
            0 <= i < before.len() ==> !post.committed().contains_id(#[trigger] before[i]))
            && post.committed().contains_id(after.meta.segment_id)
            && post.committed().spec_get(after.meta.segment_id) == after),
{
    if contains_all_ids(pre.uncommitted().view_seq(), before) {
        let s = pre.uncommitted().view_seq();
        lemma_remove_ids(s, before);
        lemma_register_step(remove_ids(s, before), after);
        assert forall|i: int| 0 <= i < before.len() implies !post.uncommitted().contains_id(
            #[trigger] before[i],
        ) by {
            assert(before.contains(before[i]));
            assert(has_id(s, before[i]));
            assert(before[i] != after.meta.segment_id);
            assert(!has_id(remove_ids(s, before), before[i]));
        }
    } else if contains_all_ids(pre.committed().view_seq(), before) {
        let s = pre.committed().view_seq();
        lemma_remove_ids(s, before);
        lemma_register_step(remove_ids(s, before), after);
        assert forall|i: int| 0 <= i < before.len() implies !post.committed().contains_id(
            #[trigger] before[i],
        ) by {
            assert(before.contains(before[i]));
            assert(has_id(s, before[i]));
            assert(before[i] != after.meta.segment_id);
            assert(!has_id(remove_ids(s, before), before[i]));
        }
    }
}

} // verus!
