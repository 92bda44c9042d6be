//! A register: one visibility class of segments, keyed by segment id.
//!
//! The register is a mapping from [`SegmentId`] to [`SegmentEntry`] with
//! unique keys and no significant order. Its contents are modelled as the
//! sequence of entry values it stores, and the spec functions of this module
//! (`has_id`, `entry_for`, `register_step`, ...) describe membership,
//! retrieval and the effect of each operation on that sequence.

use vstd::prelude::*;

use crate::segment::SegmentEntry;
use crate::segment::SegmentEntryView;
use crate::segment::SegmentId;
use crate::segment::SegmentMeta;
use crate::segment::SegmentMetaView;
use crate::segment::DeleteCursor;

verus! {

/// The mathematical values of a sequence of stored entries.
pub open spec fn views_of(s: Seq<SegmentEntry>) -> Seq<SegmentEntryView> {
    s.map_values(|e: SegmentEntry| e@)
}

/// The mathematical values of a sequence of metadata records.
pub open spec fn meta_views_of(s: Seq<SegmentMeta>) -> Seq<SegmentMetaView> {
    s.map_values(|m: SegmentMeta| m@)
}

/// The metadata of each entry of `s`, in order.
pub open spec fn metas_of(s: Seq<SegmentEntryView>) -> Seq<SegmentMetaView> {
    s.map_values(|e: SegmentEntryView| e.meta)
}

/// The entry each metadata record of `metas` makes when paired with the
/// delete-queue position `position`.
pub open spec fn entries_with_cursor(metas: Seq<SegmentMetaView>, position: u64) -> Seq<
    SegmentEntryView,
> {
    metas.map_values(|m: SegmentMetaView| SegmentEntryView { meta: m, delete_cursor: position })
}

/// True when some entry of `s` carries the id `id`.
pub open spec fn has_id(s: Seq<SegmentEntryView>, id: SegmentId) -> bool {
    exists|i: int| 0 <= i < s.len() && (#[trigger] s[i]).meta.segment_id == id
}

/// An index of `s` whose entry carries `id` (the index, once ids are unique).
pub open spec fn index_of_id(s: Seq<SegmentEntryView>, id: SegmentId) -> int {
    choose|i: int| 0 <= i < s.len() && (#[trigger] s[i]).meta.segment_id == id
}

/// The entry of `s` carrying `id`; meaningful when `has_id(s, id)` holds.
pub open spec fn entry_for(s: Seq<SegmentEntryView>, id: SegmentId) -> SegmentEntryView {
    s[index_of_id(s, id)]
}

/// No two entries of `s` carry the same id.
pub open spec fn unique_ids(s: Seq<SegmentEntryView>) -> bool {
    forall|i: int, j: int|
        0 <= i < j < s.len() ==> (#[trigger] s[i]).meta.segment_id != (
        #[trigger] s[j]).meta.segment_id
}

/// Effect of registering `e`: overwrite the entry with the same id if one is
/// present, append `e` otherwise.
pub open spec fn register_step(s: Seq<SegmentEntryView>, e: SegmentEntryView) -> Seq<
    SegmentEntryView,
> {
    if has_id(s, e.meta.segment_id) {
        s.update(index_of_id(s, e.meta.segment_id), e)
    } else {
        s.push(e)
    }
}

/// Effect of registering every entry of `l` into `s`, in order.
pub open spec fn register_fold(s: Seq<SegmentEntryView>, l: Seq<SegmentEntryView>) -> Seq<
    SegmentEntryView,
>
    decreases l.len(),
{
    if l.len() == 0 {
        s
    } else {
        register_step(register_fold(s, l.drop_last()), l.last())
    }
}

/// Effect of removing the entry carrying `id`, a no-op when none does.
pub open spec fn remove_id(s: Seq<SegmentEntryView>, id: SegmentId) -> Seq<SegmentEntryView> {
    if has_id(s, id) {
        s.remove(index_of_id(s, id))
    } else {
        s
    }
}

/// Effect of removing every id of `ids` from `s`, in order.
pub open spec fn remove_ids(s: Seq<SegmentEntryView>, ids: Seq<SegmentId>) -> Seq<SegmentEntryView>
    decreases ids.len(),
{
    if ids.len() == 0 {
        s
    } else {
        remove_id(remove_ids(s, ids.drop_last()), ids.last())
    }
}

/// Every id of `ids` is carried by some entry of `s`.
pub open spec fn contains_all_ids(s: Seq<SegmentEntryView>, ids: Seq<SegmentId>) -> bool {
    forall|i: int| 0 <= i < ids.len() ==> has_id(s, #[trigger] ids[i])
}

/// The metadata of the entries of `s` whose id is not in `excluded`, in order.
pub open spec fn mergeable_of(s: Seq<SegmentEntryView>, excluded: Set<SegmentId>) -> Seq<
    SegmentMetaView,
>
    decreases s.len(),
{
    if s.len() == 0 {
        Seq::empty()
    } else if excluded.contains(s.last().meta.segment_id) {
        mergeable_of(s.drop_last(), excluded)
    } else {
        mergeable_of(s.drop_last(), excluded).push(s.last().meta)
    }
}

/// Once ids are unique, the entry at any index carrying an id is the entry
/// `entry_for` denotes, at the index `index_of_id` denotes.
pub proof fn lemma_entry_at_index(s: Seq<SegmentEntryView>, i: int)
    requires
        unique_ids(s),
        0 <= i < s.len(),
    ensures
        index_of_id(s, s[i].meta.segment_id) == i,
        entry_for(s, s[i].meta.segment_id) == s[i],
        has_id(s, s[i].meta.segment_id),
{
    let id = s[i].meta.segment_id;
    assert(has_id(s, id));
    let j = index_of_id(s, id);
    assert(0 <= j < s.len() && s[j].meta.segment_id == id);
    if i < j {
        assert(s[i].meta.segment_id != s[j].meta.segment_id);
    } else if j < i {
        assert(s[j].meta.segment_id != s[i].meta.segment_id);
    }
}

/// Pointwise description of `register_step`: the given entry becomes
/// retrievable under its id, every other id keeps its entry, and uniqueness
/// is preserved.
pub proof fn lemma_register_step(s: Seq<SegmentEntryView>, e: SegmentEntryView)
    requires
        unique_ids(s),
    ensures
        unique_ids(register_step(s, e)),
        has_id(register_step(s, e), e.meta.segment_id),
        entry_for(register_step(s, e), e.meta.segment_id) == e,
        forall|id: SegmentId|
            #[trigger] has_id(register_step(s, e), id) <==> (has_id(s, id) || id
                == e.meta.segment_id),
        forall|id: SegmentId|
            id != e.meta.segment_id && has_id(s, id) ==> #[trigger] entry_for(
                register_step(s, e),
                id,
            ) == entry_for(s, id),
{
    let eid = e.meta.segment_id;
    let t = register_step(s, e);
    if has_id(s, eid) {
        let k = index_of_id(s, eid);
        assert(0 <= k < s.len() && s[k].meta.segment_id == eid);
        assert(t == s.update(k, e));
        assert forall|i: int, j: int| 0 <= i < j < t.len() implies (#[trigger] t[i]).meta.segment_id
            != (#[trigger] t[j]).meta.segment_id by {
            assert(s[i].meta.segment_id != s[j].meta.segment_id);
        }
        assert(t[k] == e);
        lemma_entry_at_index(t, k);
        assert forall|id: SegmentId| #[trigger] has_id(t, id) implies (has_id(s, id) || id
            == eid) by {
            let i = index_of_id(t, id);
            assert(0 <= i < t.len() && t[i].meta.segment_id == id);
            if i != k {
                assert(s[i].meta.segment_id == id);
            }
        }
        assert forall|id: SegmentId| has_id(s, id) implies has_id(t, id) by {
            let i = index_of_id(s, id);
            assert(0 <= i < s.len() && s[i].meta.segment_id == id);
            if i == k {
                assert(t[k].meta.segment_id == eid);
                assert(id == eid);
            } else {
                assert(t[i].meta.segment_id == id);
            }
        }
        assert forall|id: SegmentId| id != eid && has_id(s, id) implies #[trigger] entry_for(t, id)
            == entry_for(s, id) by {
            let i = index_of_id(s, id);
            assert(0 <= i < s.len() && s[i].meta.segment_id == id);
            lemma_entry_at_index(s, i);
            assert(i != k);
            assert(t[i] == s[i]);
            lemma_entry_at_index(t, i);
        }
    } else {
        assert(t == s.push(e));
        assert forall|i: int, j: int| 0 <= i < j < t.len() implies (#[trigger] t[i]).meta.segment_id
            != (#[trigger] t[j]).meta.segment_id by {
            if j < s.len() {
                assert(s[i].meta.segment_id != s[j].meta.segment_id);
            } else {
                assert(t[j] == e);
                assert(t[i] == s[i]);
                assert(has_id(s, s[i].meta.segment_id));
            }
        }
        assert(t[s.len() as int] == e);
        lemma_entry_at_index(t, s.len() as int);
        assert forall|id: SegmentId| #[trigger] has_id(t, id) implies (has_id(s, id) || id
            == eid) by {
            let i = index_of_id(t, id);
            assert(0 <= i < t.len() && t[i].meta.segment_id == id);
            if i < s.len() {
                assert(s[i].meta.segment_id == id);
            }
        }
        assert forall|id: SegmentId| has_id(s, id) implies has_id(t, id) by {
            let i = index_of_id(s, id);
            assert(t[i].meta.segment_id == id);
        }
        assert forall|id: SegmentId| id != eid && has_id(s, id) implies #[trigger] entry_for(t, id)
            == entry_for(s, id) by {
            let i = index_of_id(s, id);
            assert(0 <= i < s.len() && s[i].meta.segment_id == id);
            lemma_entry_at_index(s, i);
            assert(t[i] == s[i]);
            lemma_entry_at_index(t, i);
        }
    }
}

/// Registering an entry is idempotent: registering it again changes nothing.
pub proof fn lemma_register_step_idempotent(s: Seq<SegmentEntryView>, e: SegmentEntryView)
    requires
        unique_ids(s),
    ensures
        register_step(register_step(s, e), e) == register_step(s, e),
{
    let eid = e.meta.segment_id;
    lemma_register_step(s, e);
    let t = register_step(s, e);
    let k = index_of_id(t, eid);
    assert(0 <= k < t.len() && t[k].meta.segment_id == eid);
    lemma_entry_at_index(t, k);
    assert(t[k] == e);
    assert(register_step(t, e) == t.update(k, e));
    assert(t.update(k, e) =~= t);
}

/// Pointwise description of `remove_id`: the id stops being retrievable,
/// every other id keeps its entry, and uniqueness is preserved.
pub proof fn lemma_remove_id(s: Seq<SegmentEntryView>, id: SegmentId)
    requires
        unique_ids(s),
    ensures
        unique_ids(remove_id(s, id)),
        !has_id(remove_id(s, id), id),
        forall|other: SegmentId|
            #[trigger] has_id(remove_id(s, id), other) <==> (has_id(s, other) && other != id),
        forall|other: SegmentId|
            other != id && has_id(s, other) ==> #[trigger] entry_for(remove_id(s, id), other)
                == entry_for(s, other),
{
    let t = remove_id(s, id);
    if has_id(s, id) {
        let k = index_of_id(s, id);
        assert(0 <= k < s.len() && s[k].meta.segment_id == id);
        assert(t == s.remove(k));
        assert(t.len() == s.len() - 1);
        assert forall|i: int| 0 <= i < t.len() implies #[trigger] t[i] == (if i < k {
            s[i]
        } else {
            s[i + 1]
        }) by {}
        assert forall|i: int, j: int| 0 <= i < j < t.len() implies (#[trigger] t[i]).meta.segment_id
            != (#[trigger] t[j]).meta.segment_id by {
            let si = if i < k { i } else { i + 1 };
            let sj = if j < k { j } else { j + 1 };
            assert(s[si].meta.segment_id != s[sj].meta.segment_id);
        }
        assert forall|other: SegmentId| #[trigger] has_id(t, other) implies (has_id(s, other)
            && other != id) by {
            let i = index_of_id(t, other);
            assert(0 <= i < t.len() && t[i].meta.segment_id == other);
            let si = if i < k { i } else { i + 1 };
            assert(s[si].meta.segment_id == other);
            assert(si != k);
            if si < k {
                assert(s[si].meta.segment_id != s[k].meta.segment_id);
            } else {
                assert(s[k].meta.segment_id != s[si].meta.segment_id);
            }
        }
        assert forall|other: SegmentId| other != id && has_id(s, other) implies has_id(
            t,
            other,
        ) by {
            let i = index_of_id(s, other);
            assert(0 <= i < s.len() && s[i].meta.segment_id == other);
            assert(i != k);
            let ti = if i < k { i } else { i - 1 };
            assert(t[ti] == s[i]);
        }
        assert forall|other: SegmentId| other != id && has_id(s, other) implies #[trigger] entry_for(
            t,
            other,
        ) == entry_for(s, other) by {
            let i = index_of_id(s, other);
            assert(0 <= i < s.len() && s[i].meta.segment_id == other);
            assert(i != k);
            let ti = if i < k { i } else { i - 1 };
            assert(t[ti] == s[i]);
            lemma_entry_at_index(s, i);
            lemma_entry_at_index(t, ti);
        }
    } else {
        assert(t == s);
    }
}

/// Pointwise description of `remove_ids`: exactly the listed ids stop being
/// retrievable, every other id keeps its entry, and uniqueness is preserved.
pub proof fn lemma_remove_ids(s: Seq<SegmentEntryView>, ids: Seq<SegmentId>)
    requires
        unique_ids(s),
    ensures
        unique_ids(remove_ids(s, ids)),
        forall|id: SegmentId|
            #[trigger] has_id(remove_ids(s, ids), id) <==> (has_id(s, id) && !ids.contains(id)),
        forall|id: SegmentId|
            !ids.contains(id) && has_id(s, id) ==> #[trigger] entry_for(remove_ids(s, ids), id)
                == entry_for(s, id),
    decreases ids.len(),
{
    if ids.len() == 0 {
        assert(forall|id: SegmentId| !ids.contains(id));
    } else {
        let front = ids.drop_last();
        let last = ids.last();
        lemma_remove_ids(s, front);
        let t = remove_ids(s, front);
        lemma_remove_id(t, last);
        assert forall|id: SegmentId| #[trigger] ids.contains(id) implies (front.contains(id) || id
            == last) by {
            let i = choose|i: int| 0 <= i < ids.len() && ids[i] == id;
            if i < ids.len() - 1 {
                assert(front[i] == id);
                assert(front.contains(id));
            }
        }
        assert forall|id: SegmentId| front.contains(id) implies ids.contains(id) by {
            let i = choose|i: int| 0 <= i < front.len() && front[i] == id;
            assert(ids[i] == id);
        }
        assert(ids[ids.len() - 1] == last);
        assert(ids.contains(last));
    }
}

/// Registering every entry of a list whose ids are pairwise distinct and all
/// fresh appends them in order.
pub proof fn lemma_register_fold_fresh(s: Seq<SegmentEntryView>, l: Seq<SegmentEntryView>)
    requires
        unique_ids(s),
        unique_ids(l),
        forall|i: int| 0 <= i < l.len() ==> !has_id(s, (#[trigger] l[i]).meta.segment_id),
    ensures
        register_fold(s, l) == s + l,
        unique_ids(register_fold(s, l)),
    decreases l.len(),
{
    if l.len() == 0 {
        assert(register_fold(s, l) =~= s + l);
    } else {
        let front = l.drop_last();
        lemma_register_fold_fresh(s, front);
        let t = register_fold(s, front);
        assert(t == s + front);
        let e = l.last();
        assert(!has_id(t, e.meta.segment_id)) by {
            if has_id(t, e.meta.segment_id) {
                let i = index_of_id(t, e.meta.segment_id);
                assert(0 <= i < t.len() && t[i].meta.segment_id == e.meta.segment_id);
                if i < s.len() {
                    assert(s[i] == t[i]);
                    assert(has_id(s, l[l.len() - 1].meta.segment_id));
                } else {
                    assert(t[i] == front[i - s.len()]);
                    assert(l[i - s.len()] == front[i - s.len()]);
                    assert(l[i - s.len()].meta.segment_id != l[l.len() - 1].meta.segment_id);
                }
            }
        }
        lemma_register_step(t, e);
        assert(register_fold(s, l) == t.push(e));
        assert(t.push(e) =~= s + l);
    }
}

/// One visibility class of segments: a keyed collection of [`SegmentEntry`]
/// values with unique ids. Callers receive copies of entries, never live
/// references into the register.
pub struct SegmentRegister {
    entries: Vec<SegmentEntry>,
}

impl SegmentRegister {
    /// The stored entries, in storage order.
    pub closed spec fn view_seq(&self) -> Seq<SegmentEntryView> {
        views_of(self.entries@)
    }

    /// Well-formedness: no two entries share an id.
    pub open spec fn wf(&self) -> bool {
        unique_ids(self.view_seq())
    }

    /// Membership of an id.
    pub open spec fn contains_id(&self, id: SegmentId) -> bool {
        has_id(self.view_seq(), id)
    }

    /// The entry registered under `id`; meaningful when `contains_id` holds.
    pub open spec fn spec_get(&self, id: SegmentId) -> SegmentEntryView {
        entry_for(self.view_seq(), id)
    }

    /// An empty register.
    pub fn new_empty() -> (res: SegmentRegister)
        ensures
            res.view_seq() == Seq::<SegmentEntryView>::empty(),
            res.wf(),
    {
        let res = SegmentRegister { entries: Vec::new() };
        proof {
            assert(res.view_seq() =~= Seq::<SegmentEntryView>::empty());
        }
        res
    }

    /// A register holding one entry per given metadata record, each paired
    /// with the given delete-queue cursor.
    pub fn new(segment_metas: Vec<SegmentMeta>, delete_cursor: &DeleteCursor) -> (res:
        SegmentRegister)
        ensures
            res.wf(),
            res.view_seq() == register_fold(
                Seq::<SegmentEntryView>::empty(),
                entries_with_cursor(meta_views_of(segment_metas@), delete_cursor.position),
            ),
    {
        let ghost entry_views = entries_with_cursor(
            meta_views_of(segment_metas@),
            delete_cursor.position,
        );
        let mut res = SegmentRegister::new_empty();
        let mut metas = segment_metas;
        let n = metas.len();
        // take the metas out in order, registering each
        let mut i: usize = 0;
        proof {
            assert(register_fold(Seq::<SegmentEntryView>::empty(), entry_views.subrange(0, 0))
                =~= res.view_seq());
        }
        while i < n
            invariant
                n == metas@.len(),
                i <= n,
                entry_views.len() == n,
                forall|j: int|
                    0 <= j < n ==> entry_views[j] == (SegmentEntryView {
                        meta: (#[trigger] metas@[j])@,
                        delete_cursor: delete_cursor.position,
                    }),
                res.wf(),
                res.view_seq() == register_fold(
                    Seq::<SegmentEntryView>::empty(),
                    entry_views.subrange(0, i as int),
                ),
            decreases n - i,
        {
            let meta = metas[i].clone();
            let entry = SegmentEntry::new(meta, *delete_cursor);
            proof {
                assert(entry@ == entry_views[i as int]);
                assert(entry_views.subrange(0, i + 1 as int).drop_last() =~= entry_views.subrange(
                    0,
                    i as int,
                ));
            }
            res.register_segment_entry(entry);
            i = i + 1;
        }
        proof {
            assert(entry_views.subrange(0, n as int) =~= entry_views);
        }
        res
    }

    /// Insert or overwrite the entry for the given entry's id. Idempotent; no
    /// error condition.
    pub fn register_segment_entry(&mut self, entry: SegmentEntry)
        requires
            old(self).wf(),
        ensures
            final(self).wf(),
            final(self).view_seq() == register_step(old(self).view_seq(), entry@),
            final(self).contains_id(entry@.meta.segment_id),
            final(self).spec_get(entry@.meta.segment_id) == entry@,
            forall|id: SegmentId|
                #[trigger] final(self).contains_id(id) <==> (old(self).contains_id(id) || id
                    == entry@.meta.segment_id),
            forall|id: SegmentId|
                id != entry@.meta.segment_id && old(self).contains_id(id)
                    ==> #[trigger] final(self).spec_get(id) == old(self).spec_get(id),
    {
        proof {
            lemma_register_step(self.view_seq(), entry@);
        }
        let id = entry.segment_id();
        match self.position_of(id) {
            Some(i) => {
                proof {
                    lemma_entry_at_index(self.view_seq(), i as int);
                }
                self.entries[i] = entry;
                proof {
                    assert(self.view_seq() =~= register_step(old(self).view_seq(), entry@));
                }
            },
            None => {
                self.entries.push(entry);
                proof {
                    assert(self.view_seq() =~= register_step(old(self).view_seq(), entry@));
                }
            },
        }
    }

    /// Delete the entry for `id` if one is present; a no-op otherwise.
    pub fn remove_segment(&mut self, id: SegmentId)
        requires
            old(self).wf(),
        ensures
            final(self).wf(),
            final(self).view_seq() == remove_id(old(self).view_seq(), id),
            !final(self).contains_id(id),
            forall|other: SegmentId|
                #[trigger] final(self).contains_id(other) <==> (old(self).contains_id(other)
                    && other != id),
            forall|other: SegmentId|
                other != id && old(self).contains_id(other) ==> #[trigger] final(self).spec_get(
                    other,
                ) == old(self).spec_get(other),
    {
        proof {
            lemma_remove_id(self.view_seq(), id);
        }
        match self.position_of(id) {
            Some(i) => {
                proof {
                    lemma_entry_at_index(self.view_seq(), i as int);
                }
                self.entries.remove(i);
                proof {
                    assert(self.view_seq() =~= remove_id(old(self).view_seq(), id));
                }
            },
            None => {
                proof {
                    assert(self.view_seq() =~= remove_id(old(self).view_seq(), id));
                }
            },
        }
    }

    /// A copy of the entry registered under `id`, if any.
    pub fn get(&self, id: SegmentId) -> (res: Option<SegmentEntry>)
        requires
            self.wf(),
        ensures
            res is Some <==> self.contains_id(id),
            res matches Some(e) ==> e@ == self.spec_get(id),
    {
        match self.position_of(id) {
            Some(i) => {
                proof {
                    lemma_entry_at_index(self.view_seq(), i as int);
                }
                Some(self.entries[i].clone())
            },
            None => None,
        }
    }

    /// True iff every id of `segment_ids` is registered.
    pub fn contains_all(&self, segment_ids: &[SegmentId]) -> (res: bool)
        ensures
            res == contains_all_ids(self.view_seq(), segment_ids@),
    {
        let n = segment_ids.len();
        let mut i: usize = 0;
        while i < n
            invariant
                i <= n,
                n == segment_ids@.len(),
                forall|j: int| 0 <= j < i ==> has_id(self.view_seq(), #[trigger] segment_ids@[j]),
            decreases n - i,
        {
            if self.position_of(segment_ids[i]).is_none() {
                return false;
            }
            i = i + 1;
        }
        true
    }

    /// Copies of all entries, in storage order.
    pub fn segment_entries(&self) -> (res: Vec<SegmentEntry>)
        ensures
            views_of(res@) == self.view_seq(),
    {
        let mut res: Vec<SegmentEntry> = Vec::new();
        let n = self.entries.len();
        let mut i: usize = 0;
        while i < n
            invariant
                i <= n,
                n == self.entries@.len(),
                res@.len() == i,
                views_of(res@) =~= self.view_seq().subrange(0, i as int),
            decreases n - i,
        {
            res.push(self.entries[i].clone());
            proof {
                assert(views_of(res@) =~= self.view_seq().subrange(0, i + 1 as int));
            }
            i = i + 1;
        }
        proof {
            assert(self.view_seq().subrange(0, n as int) =~= self.view_seq());
        }
        res
    }

    /// Copies of the metadata of all entries, in storage order.
    pub fn segment_metas(&self) -> (res: Vec<SegmentMeta>)
        ensures
            meta_views_of(res@) == metas_of(self.view_seq()),
    {
        let mut res: Vec<SegmentMeta> = Vec::new();
        let n = self.entries.len();
        let mut i: usize = 0;
        while i < n
            invariant
                i <= n,
                n == self.entries@.len(),
                res@.len() == i,
                meta_views_of(res@) =~= metas_of(self.view_seq()).subrange(0, i as int),
            decreases n - i,
        {
            res.push(self.entries[i].meta.clone());
            proof {
                assert(meta_views_of(res@) =~= metas_of(self.view_seq()).subrange(0, i + 1 as int));
            }
            i = i + 1;
        }
        proof {
            assert(metas_of(self.view_seq()).subrange(0, n as int) =~= metas_of(self.view_seq()));
        }
        res
    }

    /// Metadata of every entry whose id is not in `excluded_ids`: the
    /// candidates a merge policy may pick, the ids already in an in-flight
    /// merge being excluded.
    pub fn get_mergeable_segments(&self, excluded_ids: &std::collections::HashSet<SegmentId>) -> (
        res: Vec<SegmentMeta>)
        ensures
            meta_views_of(res@) == mergeable_of(self.view_seq(), excluded_ids@),
    {
        broadcast use vstd::std_specs::hash::group_hash_axioms;

        let mut res: Vec<SegmentMeta> = Vec::new();
        let n = self.entries.len();
        let mut i: usize = 0;
        proof {
            assert(meta_views_of(res@) =~= mergeable_of(
                self.view_seq().subrange(0, 0),
                excluded_ids@,
            ));
        }
        while i < n
            invariant
                i <= n,
                n == self.entries@.len(),
                meta_views_of(res@) == mergeable_of(
                    self.view_seq().subrange(0, i as int),
                    excluded_ids@,
                ),
            decreases n - i,
        {
            proof {
                assert(self.view_seq().subrange(0, i + 1 as int).drop_last()
                    =~= self.view_seq().subrange(0, i as int));
                assert(self.view_seq().subrange(0, i + 1 as int).last() == self.view_seq()[i as int]);
            }
            if !excluded_ids.contains(&self.entries[i].meta.segment_id) {
                res.push(self.entries[i].meta.clone());
                proof {
                    assert(meta_views_of(res@) =~= mergeable_of(
                        self.view_seq().subrange(0, i + 1 as int),
                        excluded_ids@,
                    ));
                }
            }
            i = i + 1;
        }
        proof {
            assert(self.view_seq().subrange(0, n as int) =~= self.view_seq());
        }
        res
    }

    /// Remove all entries.
    pub fn clear(&mut self)
        ensures
            final(self).wf(),
            final(self).view_seq() == Seq::<SegmentEntryView>::empty(),
    {
        self.entries.clear();
        proof {
            assert(self.view_seq() =~= Seq::<SegmentEntryView>::empty());
        }
    }

    /// The storage index of the entry carrying `id`, if one is present.
    fn position_of(&self, id: SegmentId) -> (res: Option<usize>)
        ensures
            res matches Some(i) ==> i < self.view_seq().len()
                && self.view_seq()[i as int].meta.segment_id == id,
            res is None ==> !self.contains_id(id),
    {
        let n = self.entries.len();
        let mut i: usize = 0;
        while i < n
            invariant
                i <= n,
                n == self.entries@.len(),
                forall|j: int| 0 <= j < i ==> (#[trigger] self.view_seq()[j]).meta.segment_id != id,
            decreases n - i,
        {
            if self.entries[i].meta.segment_id == id {
                return Some(i);
            }
            i = i + 1;
        }
        None
    }
}

impl Default for SegmentRegister {
    fn default() -> (res: SegmentRegister)
        ensures
            res.view_seq() == Seq::<SegmentEntryView>::empty(),
            res.wf(),
    {
        SegmentRegister::new_empty()
    }
}

} // verus!
