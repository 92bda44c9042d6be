//! The data carried by the registry: segment identity, per-segment metadata,
//! and the entry (metadata plus delete-queue cursor) that a register stores.

use vstd::prelude::*;

verus! {

/// Globally unique identifier of one immutable on-disk segment. Identifiers
/// are never reused over the lifetime of an index.
pub type SegmentId = u64;

/// A position in the global delete queue: how far pending deletes have been
/// replayed against a segment. The queue itself lives outside the registry;
/// only the position is tracked here.
#[derive(Clone, Copy, Debug, PartialEq, Eq, Structural)]
pub struct DeleteCursor {
    pub position: u64,
}

/// The character sequences of a sequence of strings.
pub open spec fn string_views(s: Seq<String>) -> Seq<Seq<char>> {
    s.map_values(|x: String| x@)
}

/// Mathematical value of a [`SegmentMeta`]: the same fields, with the owned
/// file paths as sequences of characters.
#[verifier::ext_equal]
pub struct SegmentMetaView {
    pub segment_id: SegmentId,
    pub num_docs: u32,
    pub delete_opstamp: u64,
    pub files: Seq<Seq<char>>,
}

/// Immutable metadata of one segment: its identity, the number of live
/// documents, the delete opstamp (the logical timestamp up to which delete
/// operations have been folded into the segment), and the file paths the
/// segment owns on disk.
///
/// Two values for the same [`SegmentId`] differ only in the deletes applied;
/// identity-wise they are interchangeable.
#[derive(Debug, PartialEq, Eq)]
pub struct SegmentMeta {
    pub segment_id: SegmentId,
    pub num_docs: u32,
    pub delete_opstamp: u64,
    pub files: Vec<String>,
}

impl View for SegmentMeta {
    type V = SegmentMetaView;

    open spec fn view(&self) -> SegmentMetaView {
        SegmentMetaView {
            segment_id: self.segment_id,
            num_docs: self.num_docs,
            delete_opstamp: self.delete_opstamp,
            files: string_views(self.files@),
        }
    }
}

impl Clone for SegmentMeta {
    fn clone(&self) -> (res: Self)
        ensures
            res@ == self@,
    {
        let files = self.files.clone();
        proof {
            assert(string_views(files@) =~= string_views(self.files@));
        }
        SegmentMeta {
            segment_id: self.segment_id,
            num_docs: self.num_docs,
            delete_opstamp: self.delete_opstamp,
            files,
        }
    }
}

impl SegmentMeta {
    pub fn new(segment_id: SegmentId, num_docs: u32, delete_opstamp: u64, files: Vec<String>) -> (
        res: SegmentMeta)
        ensures
            res@ == (SegmentMetaView {
                segment_id,
                num_docs,
                delete_opstamp,
                files: string_views(files@),
            }),
    {
        SegmentMeta { segment_id, num_docs, delete_opstamp, files }
    }

    pub fn id(&self) -> (res: SegmentId)
        ensures
            res == self@.segment_id,
    {
        self.segment_id
    }

    pub fn num_docs(&self) -> (res: u32)
        ensures
            res == self@.num_docs,
    {
        self.num_docs
    }

    pub fn delete_opstamp(&self) -> (res: u64)
        ensures
            res == self@.delete_opstamp,
    {
        self.delete_opstamp
    }
}

/// Mathematical value of a [`SegmentEntry`].
#[verifier::ext_equal]
pub struct SegmentEntryView {
    pub meta: SegmentMetaView,
    pub delete_cursor: u64,
}

/// The unit tracked by a register: a segment's metadata together with the
/// cursor recording how far pending deletes have been replayed against it.
/// Exactly one entry per [`SegmentId`] lives in a given register.
#[derive(Debug, PartialEq, Eq)]
pub struct SegmentEntry {
    pub meta: SegmentMeta,
    pub delete_cursor: DeleteCursor,
}

impl View for SegmentEntry {
    type V = SegmentEntryView;

    open spec fn view(&self) -> SegmentEntryView {
        SegmentEntryView { meta: self.meta@, delete_cursor: self.delete_cursor.position }
    }
}

impl Clone for SegmentEntry {
    fn clone(&self) -> (res: Self)
        ensures
            res@ == self@,
    {
        SegmentEntry { meta: self.meta.clone(), delete_cursor: self.delete_cursor }
    }
}

impl SegmentEntry {
    pub fn new(meta: SegmentMeta, delete_cursor: DeleteCursor) -> (res: SegmentEntry)
        ensures
            res@ == (SegmentEntryView { meta: meta@, delete_cursor: delete_cursor.position }),
    {
        SegmentEntry { meta, delete_cursor }
    }

    pub fn segment_id(&self) -> (res: SegmentId)
        ensures
            res == self@.meta.segment_id,
    {
        self.meta.segment_id
    }

    pub fn meta(&self) -> (res: &SegmentMeta)
        ensures
            res@ == self@.meta,
    {
        &self.meta
    }
}

} // verus!
