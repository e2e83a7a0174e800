//! A wrapper that stays invalid, and keeps failing, once a step has failed.
use vstd::prelude::*;
use crate::key::Key;
use crate::iterator::{EntryView, IterError, StorageIterator, advance};

verus! {

/// After a failed step, `next` fails with `IterError::Invalid`, and
/// `is_valid` is false, from then on. Past the end, `next` does nothing.
pub struct FusedIterator<I> {
    iter: I,
    has_errored: bool,
}

impl<I: StorageIterator> FusedIterator<I> {
    /// Whether a step has failed.
    pub closed spec fn is_broken(&self) -> bool {
        self.has_errored
    }

    /// The wrapped cursor.
    pub closed spec fn wrapped(&self) -> I {
        self.iter
    }

    pub fn new(iter: I) -> (r: Self)
        requires
            iter.inv(),
        ensures
            r.inv(),
            !r.is_broken(),
            r.wrapped() == iter,
            r.entries() == iter.entries(),
    {
        FusedIterator { iter, has_errored: false }
    }
}

/// A broken wrapper is consistent and shows no entry, so `is_valid` answers
/// false; with the `ensures` of `next`, which fails with `IterError::Invalid`
/// and leaves it broken, this holds for every later call.
pub proof fn lemma_fail_sticky<I: StorageIterator>(f: FusedIterator<I>)
    requires
        f.is_broken(),
    ensures
        f.inv(),
        f.entries().len() == 0,
{
}

impl<I: StorageIterator> StorageIterator for FusedIterator<I> {
    open spec fn entries(&self) -> Seq<EntryView> {
        if self.is_broken() {
            Seq::empty()
        } else {
            self.wrapped().entries()
        }
    }

    open spec fn inv(&self) -> bool {
        self.is_broken() || self.wrapped().inv()
    }

    open spec fn fallible(&self) -> bool {
        self.is_broken() || self.wrapped().fallible()
    }

    open spec fn step_fails(&self) -> bool {
        self.is_broken() || (self.wrapped().entries().len() > 0 && self.wrapped().step_fails())
    }

    open spec fn step_error(&self) -> IterError {
        if self.is_broken() {
            IterError::Invalid
        } else {
            self.wrapped().step_error()
        }
    }

    open spec fn tolerates_end(&self) -> bool {
        true
    }

    fn is_valid(&self) -> (r: bool) {
        if self.has_errored {
            return false;
        }
        self.iter.is_valid()
    }

    fn key(&self) -> (r: &Key) {
        self.iter.key()
    }

    fn value(&self) -> (r: &[u8]) {
        self.iter.value()
    }

    fn next(&mut self) -> (r: Result<(), IterError>)
        ensures
            old(self).is_broken() ==> r == Err::<(), IterError>(IterError::Invalid) && *final(self) == *old(self),
            !old(self).is_broken() && old(self).wrapped().entries().len() == 0 ==> r is Ok
                && *final(self) == *old(self),
            r is Ok ==> !final(self).is_broken(),
            r is Err <==> final(self).is_broken(),
            r is Err && !old(self).is_broken() ==> old(self).wrapped().entries().len() > 0,
            !old(self).is_broken() && old(self).wrapped().entries().len() > 0 && r is Ok ==>
                final(self).wrapped().inv()
                && final(self).wrapped().entries() == advance(old(self).wrapped().entries()),
            !old(self).is_broken() && old(self).wrapped().entries().len() > 0
                && old(self).wrapped().step_fails() ==> r == Err::<(), IterError>(
                old(self).wrapped().step_error()),
    {
        if self.has_errored {
            return Err(IterError::Invalid);
        }
        if !self.iter.is_valid() {
            return Ok(());
        }
        let r = self.iter.next();
        if let Err(e) = r {
            self.has_errored = true;
            return Err(e);
        }
        Ok(())
    }
}

} // verus!
