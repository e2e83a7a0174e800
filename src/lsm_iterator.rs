//! The top-level cursor: hides deleted keys and repeated user keys.
use vstd::prelude::*;
use vstd::slice::slice_to_vec;
use crate::key::{Key, bytes_equal};
use crate::iterator::{EntryView, IterError, MemTableIterator, StorageIterator};
use crate::merge_iterator::MergeIterator;

verus! {

/// The merged stream that the top-level cursor reads.
pub type LsmIteratorInner = MergeIterator<MemTableIterator>;

/// What a reader sees of a merged stream. An entry whose user key equals
/// `last`, the user key just shown, is skipped; so is a tombstone (an empty
/// value), after which no user key counts as just shown.
pub open spec fn visible(s: Seq<EntryView>, last: Option<Seq<u8>>) -> Seq<EntryView>
    decreases s.len(),
{
    if s.len() == 0 {
        Seq::empty()
    } else if last is Some && s[0].0.0 == last->0 {
        visible(s.drop_first(), last)
    } else if s[0].1.len() == 0 {
        visible(s.drop_first(), None)
    } else {
        seq![s[0]] + visible(s.drop_first(), Some(s[0].0.0))
    }
}

/// The stream with its leading tombstones removed.
pub open spec fn skip_deleted(s: Seq<EntryView>) -> Seq<EntryView>
    decreases s.len(),
{
    if s.len() > 0 && s[0].1.len() == 0 {
        skip_deleted(s.drop_first())
    } else {
        s
    }
}

/// The stream with its leading entries of user key `raw` removed.
pub open spec fn drop_user_key(s: Seq<EntryView>, raw: Seq<u8>) -> Seq<EntryView>
    decreases s.len(),
{
    if s.len() > 0 && s[0].0.0 == raw {
        drop_user_key(s.drop_first(), raw)
    } else {
        s
    }
}

/// A reader never sees a tombstone, and sees only entries of the stream.
pub proof fn lemma_visible_no_tombstones(s: Seq<EntryView>, last: Option<Seq<u8>>)
    ensures
        forall|i: int| 0 <= i < visible(s, last).len() ==>
            (#[trigger] visible(s, last)[i]).1.len() > 0 && s.contains(visible(s, last)[i]),
    decreases s.len(),
{
    if s.len() > 0 {
        let t = s.drop_first();
        lemma_visible_no_tombstones(t, last);
        lemma_visible_no_tombstones(t, None);
        lemma_visible_no_tombstones(t, Some(s[0].0.0));
        let v = visible(s, last);
        assert forall|i: int| 0 <= i < v.len() implies (#[trigger] v[i]).1.len() > 0 && s.contains(v[i]) by {
            if !(last is Some && s[0].0.0 == last->0) && s[0].1.len() != 0 && i == 0 {
                assert(s[0] == v[0]);
            } else {
                let w = if last is Some && s[0].0.0 == last->0 {
                    visible(t, last)
                } else if s[0].1.len() == 0 {
                    visible(t, None)
                } else {
                    visible(t, Some(s[0].0.0))
                };
                let wi = if !(last is Some && s[0].0.0 == last->0) && s[0].1.len() != 0 {
                    i - 1
                } else {
                    i
                };
                assert(v[i] == w[wi]);
                let j = choose|j: int| 0 <= j < t.len() && t[j] == w[wi];
                assert(s[j + 1] == t[j]);
            }
        }
    }
}

/// A user key whose every entry in the stream is a tombstone is never seen.
pub proof fn lemma_deleted_key_hidden(s: Seq<EntryView>, raw: Seq<u8>)
    requires
        forall|i: int| 0 <= i < s.len() && (#[trigger] s[i]).0.0 == raw ==> s[i].1.len() == 0,
    ensures
        forall|i: int| 0 <= i < visible(s, None).len() ==> (#[trigger] visible(s, None)[i]).0.0 != raw,
{
    lemma_visible_no_tombstones(s, None);
    assert forall|i: int| 0 <= i < visible(s, None).len() implies (#[trigger] visible(s, None)[i]).0.0 != raw by {
        let x = visible(s, None)[i];
        let j = choose|j: int| 0 <= j < s.len() && s[j] == x;
    }
}

/// Iterator over what a reader sees of the write buffers: deleted keys are
/// hidden, and each user key is shown once.
pub struct LsmIterator {
    inner: LsmIteratorInner,
}

impl LsmIterator {
    /// The merged stream underneath.
    pub closed spec fn inner_entries(&self) -> Seq<EntryView> {
        self.inner.entries()
    }

    /// The merged stream underneath is consistent.
    pub closed spec fn inner_consistent(&self) -> bool {
        self.inner.inv()
    }

    /// Some source underneath may still fail a step.
    pub closed spec fn inner_fallible(&self) -> bool {
        self.inner.fallible()
    }

    /// The first step of the merged stream underneath fails.
    pub closed spec fn inner_step_fails(&self) -> bool {
        self.inner.step_fails()
    }

    /// The error of that failing step.
    pub closed spec fn inner_step_error(&self) -> IterError {
        self.inner.step_error()
    }

    /// Wraps a merged stream, stepping past its leading tombstones.
    pub fn new(iter: LsmIteratorInner) -> (r: Result<Self, IterError>)
        requires
            iter.inv(),
        ensures
            r matches Ok(l) ==> l.inv() && l.entries() == visible(iter.entries(), None)
                && l.inner_entries() == skip_deleted(iter.entries()),
            !iter.fallible() ==> (r matches Ok(l) && !l.fallible()),
            iter.entries().len() == 0 || iter.entries()[0].1.len() > 0 ==> r is Ok,
            iter.entries().len() > 0 && iter.entries()[0].1.len() == 0 && iter.step_fails()
                ==> (r matches Err(e) && e == iter.step_error()),
    {
        let mut lsm_iter = LsmIterator { inner: iter };
        match lsm_iter.skip_tombstones() {
            Ok(()) => Ok(lsm_iter),
            Err(e) => Err(e),
        }
    }

    /// Steps the merged stream past tombstones until it rests on a live
    /// entry or ends.
    pub fn skip_tombstones(&mut self) -> (r: Result<(), IterError>)
        requires
            old(self).inner_consistent(),
        ensures
            r is Ok ==> final(self).inv()
                && final(self).inner_entries() == skip_deleted(old(self).inner_entries())
                && visible(final(self).inner_entries(), None) == visible(old(self).inner_entries(), None),
            !old(self).inner_fallible() ==> r is Ok && !final(self).inner_fallible(),
            old(self).inner_entries().len() == 0 || old(self).inner_entries()[0].1.len() > 0 ==> r is Ok
                && *final(self) == *old(self),
            old(self).inner_entries().len() > 0 && old(self).inner_entries()[0].1.len() == 0
                && old(self).inner_step_fails() ==> r == Err::<(), IterError>(old(self).inner_step_error()),
    {
        loop
            invariant
                self.inner.entries().len() <= old(self).inner.entries().len(),
                self.inner.entries().len() == old(self).inner.entries().len() ==> *self == *old(self),
                old(self).inner.entries().len() == 0 || old(self).inner.entries()[0].1.len() > 0
                    ==> *self == *old(self),
                old(self).inner.entries().len() > 0 && old(self).inner.entries()[0].1.len() == 0
                    && old(self).inner.step_fails() ==> *self == *old(self),
                self.inner.inv(),
                skip_deleted(self.inner.entries()) == skip_deleted(old(self).inner.entries()),
                visible(self.inner.entries(), None) == visible(old(self).inner.entries(), None),
                !old(self).inner.fallible() ==> !self.inner.fallible(),
            ensures
                self.inner.entries().len() <= old(self).inner.entries().len(),
                self.inner.entries().len() == old(self).inner.entries().len() ==> *self == *old(self),
                old(self).inner.entries().len() == 0 || old(self).inner.entries()[0].1.len() > 0
                    ==> *self == *old(self),
                old(self).inner.entries().len() > 0 && old(self).inner.entries()[0].1.len() == 0
                    && old(self).inner.step_fails() ==> *self == *old(self),
                !old(self).inner.fallible() ==> !self.inner.fallible(),
                self.inner.inv(),
                skip_deleted(self.inner.entries()) == skip_deleted(old(self).inner.entries()),
                visible(self.inner.entries(), None) == visible(old(self).inner.entries(), None),
                self.inner.entries().len() > 0 ==> self.inner.entries()[0].1.len() > 0,
            decreases self.inner.entries().len(),
        {
            if !self.inner.is_valid() {
                break;
            }
            if self.inner.value().len() != 0 {
                break;
            }
            let r = self.inner.next();
            if let Err(e) = r {
                return Err(e);
            }
        }
        Ok(())
    }
}

impl StorageIterator for LsmIterator {
    open spec fn entries(&self) -> Seq<EntryView> {
        visible(self.inner_entries(), None)
    }

    open spec fn inv(&self) -> bool {
        self.wf()
    }

    open spec fn fallible(&self) -> bool {
        self.inner_fallible()
    }

    open spec fn step_fails(&self) -> bool {
        self.inner_step_fails()
    }

    open spec fn step_error(&self) -> IterError {
        self.inner_step_error()
    }

    open spec fn tolerates_end(&self) -> bool {
        false
    }

    fn is_valid(&self) -> (r: bool) {
        self.inner.is_valid()
    }

    fn key(&self) -> (r: &Key) {
        self.inner.key()
    }

    fn value(&self) -> (r: &[u8]) {
        self.inner.value()
    }

    /// The merged stream steps once, then past the rest of the user key just
    /// shown, then past tombstones.
    fn next(&mut self) -> (r: Result<(), IterError>)
        ensures
            r is Ok ==> final(self).inner_entries() == skip_deleted(
                drop_user_key(old(self).inner_entries().drop_first(), old(self).inner_entries()[0].0.0),
            ),
    {
        let ghost orig = self.inner.entries();
        let current_key = slice_to_vec(self.inner.key().raw_ref());
        let ghost target = visible(orig.drop_first(), Some(current_key@));
        let r = self.inner.next();
        if let Err(e) = r {
            return Err(e);
        }
        // The merged stream may repeat a user key under another
        // disambiguator: only the first of them is shown.
        loop
            invariant
                self.inner.inv(),
                visible(self.inner.entries(), Some(current_key@)) == target,
                drop_user_key(self.inner.entries(), current_key@) == drop_user_key(orig.drop_first(), current_key@),
                !old(self).inner.fallible() ==> !self.inner.fallible(),
                !old(self).inner.step_fails(),
            ensures
                !old(self).inner.step_fails(),
                drop_user_key(self.inner.entries(), current_key@) == self.inner.entries(),
                drop_user_key(self.inner.entries(), current_key@) == drop_user_key(orig.drop_first(), current_key@),
                !old(self).inner.fallible() ==> !self.inner.fallible(),
                self.inner.inv(),
                visible(self.inner.entries(), Some(current_key@)) == target,
                self.inner.entries().len() > 0 ==> self.inner.entries()[0].0.0 != current_key@,
            decreases self.inner.entries().len(),
        {
            if !self.inner.is_valid() {
                break;
            }
            if !bytes_equal(self.inner.key().raw_ref(), current_key.as_slice()) {
                break;
            }
            let r = self.inner.next();
            if let Err(e) = r {
                return Err(e);
            }
        }
        assert(visible(self.inner.entries(), None) == target);
        assert(visible(orig, None).drop_first() =~= target);
        self.skip_tombstones()
    }
}

impl LsmIterator {
    /// The user key of the current entry, without its disambiguator.
    pub fn key(&self) -> (r: &[u8])
        requires
            self.inv(),
            self.entries().len() > 0,
        ensures
            r@ == self.entries()[0].0.0,
    {
        self.inner.key().raw_ref()
    }

    /// The merged stream is consistent and rests on a live entry or at its end.
    pub closed spec fn wf(&self) -> bool {
        &&& self.inner.inv()
        &&& self.inner.entries().len() > 0 ==> self.inner.entries()[0].1.len() > 0
    }
}

/// The cursor is valid exactly when the merged stream underneath is, and
/// then shows that stream's current entry.
pub proof fn lemma_valid_matches_inner(l: LsmIterator)
    requires
        l.inv(),
    ensures
        (l.entries().len() > 0) == (l.inner_entries().len() > 0),
        l.entries().len() > 0 ==> l.entries()[0] == l.inner_entries()[0],
{
}

} // verus!
