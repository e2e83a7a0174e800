//! The capability shared by every cursor in the library, and an in-memory source.
use vstd::prelude::*;
use crate::key::{Key, KeyView, key_lt};

verus! {

/// One position of a stream: a key and its value.
pub type EntryView = (KeyView, Seq<u8>);

/// What a failed step reports.
#[derive(Clone, Debug)]
pub enum IterError {
    /// A source could not step past the entry at this position.
    Source(usize),
    /// The cursor failed before and refuses to move again.
    Invalid,
}

/// The stream after one step: the first entry dropped, if there is one.
pub open spec fn advance(s: Seq<EntryView>) -> Seq<EntryView> {
    if s.len() > 0 {
        s.drop_first()
    } else {
        s
    }
}

/// Keys strictly increase along the stream.
pub open spec fn strictly_sorted(s: Seq<EntryView>) -> bool {
    forall|i: int, j: int| 0 <= i < j < s.len() ==> key_lt(#[trigger] s[i].0, #[trigger] s[j].0)
}

/// A forward cursor over key-value entries.
pub trait StorageIterator {
    /// The entries from the current position to the end, current first.
    spec fn entries(&self) -> Seq<EntryView>;

    /// The cursor's internal consistency.
    spec fn inv(&self) -> bool;

    /// Whether some later step may fail; when false, every step succeeds.
    spec fn fallible(&self) -> bool;

    /// Whether the first step that `next` makes on what lies underneath
    /// fails; `next` then fails with `step_error`.
    spec fn step_fails(&self) -> bool;

    /// The error of that failing step.
    spec fn step_error(&self) -> IterError;

    /// Whether `next` may also be called past the end; other cursors allow it
    /// only at a valid position.
    spec fn tolerates_end(&self) -> bool;

    fn is_valid(&self) -> (r: bool)
        requires
            self.inv(),
        ensures
            r == (self.entries().len() > 0),
    ;

    fn key(&self) -> (r: &Key)
        requires
            self.inv(),
            self.entries().len() > 0,
        ensures
            r@ == self.entries()[0].0,
    ;

    fn value(&self) -> (r: &[u8])
        requires
            self.inv(),
            self.entries().len() > 0,
        ensures
            r@ == self.entries()[0].1,
    ;

    /// Steps past the current entry. After an error the cursor may be left
    /// inconsistent.
    fn next(&mut self) -> (r: Result<(), IterError>)
        requires
            old(self).inv(),
            old(self).entries().len() > 0 || old(self).tolerates_end(),
        ensures
            r is Ok ==> final(self).inv() && final(self).entries() == advance(old(self).entries()),
            !old(self).fallible() ==> r is Ok && !final(self).fallible(),
            old(self).step_fails() ==> r == Err::<(), IterError>(old(self).step_error()),
    ;
}

/// A cursor over a sorted run of entries held in memory, such as a snapshot
/// of a write buffer. It may be given a position whose step fails, as a
/// source backed by damaged storage would.
pub struct MemTableIterator {
    keys: Vec<Key>,
    values: Vec<Vec<u8>>,
    pos: usize,
    fail_at: Option<usize>,
}

impl MemTableIterator {
    /// The position reached so far.
    pub closed spec fn position(&self) -> nat {
        self.pos as nat
    }

    /// The position whose step fails, if any.
    pub closed spec fn failing_position(&self) -> Option<nat> {
        match self.fail_at {
            Some(p) => Some(p as nat),
            None => None,
        }
    }

    /// Keys and values pair up and the position lies within the run.
    pub closed spec fn well_formed(&self) -> bool {
        self.keys.len() == self.values.len() && self.pos <= self.keys.len()
    }

    /// All entries of the run, from the first.
    pub closed spec fn all_entries(&self) -> Seq<EntryView> {
        Seq::new(self.keys.len() as nat, |i: int| (self.keys@[i]@, self.values@[i]@))
    }

    /// A cursor at the first of the given entries. Keys and values pair up by
    /// position.
    pub fn new(keys: Vec<Key>, values: Vec<Vec<u8>>) -> (r: MemTableIterator)
        requires
            keys.len() == values.len(),
        ensures
            r.inv(),
            r.position() == 0,
            r.failing_position() is None,
            r.all_entries() == Seq::new(keys.len() as nat, |i: int| (keys@[i]@, values@[i]@)),
            r.entries() == r.all_entries(),
    {
        let r = MemTableIterator { keys, values, pos: 0, fail_at: None };
        assert(r.entries() =~= r.all_entries());
        r
    }

    /// A cursor like `new`, whose step from position `fail_at` fails.
    pub fn with_failure(keys: Vec<Key>, values: Vec<Vec<u8>>, fail_at: usize) -> (r: MemTableIterator)
        requires
            keys.len() == values.len(),
        ensures
            r.inv(),
            r.position() == 0,
            r.failing_position() == Some(fail_at as nat),
            r.all_entries() == Seq::new(keys.len() as nat, |i: int| (keys@[i]@, values@[i]@)),
            r.entries() == r.all_entries(),
    {
        let r = MemTableIterator { keys, values, pos: 0, fail_at: Some(fail_at) };
        assert(r.entries() =~= r.all_entries());
        r
    }

    /// A step reports an error exactly at the failing position.
    pub fn advance_checked(&mut self) -> (r: Result<(), IterError>)
        requires
            old(self).inv(),
            old(self).entries().len() > 0,
        ensures
            r is Err <==> old(self).failing_position() == Some(old(self).position()),
            r is Err ==> r == Err::<(), IterError>(IterError::Source(old(self).position() as usize)),
            final(self).inv(),
            final(self).failing_position() == old(self).failing_position(),
            final(self).all_entries() == old(self).all_entries(),
            r is Ok ==> final(self).entries() == old(self).entries().drop_first()
                && final(self).position() == old(self).position() + 1,
            r is Err ==> final(self).entries() == old(self).entries(),
    {
        if self.fail_at == Some(self.pos) {
            return Err(IterError::Source(self.pos));
        }
        self.pos = self.pos + 1;
        assert(self.entries() =~= old(self).entries().drop_first());
        Ok(())
    }
}

impl StorageIterator for MemTableIterator {
    open spec fn entries(&self) -> Seq<EntryView> {
        self.all_entries().subrange(self.position() as int, self.all_entries().len() as int)
    }

    open spec fn inv(&self) -> bool {
        self.well_formed()
    }

    open spec fn fallible(&self) -> bool {
        self.failing_position() matches Some(p) && p >= self.position()
    }

    open spec fn step_fails(&self) -> bool {
        self.failing_position() == Some(self.position())
    }

    open spec fn step_error(&self) -> IterError {
        IterError::Source(self.position() as usize)
    }

    open spec fn tolerates_end(&self) -> bool {
        false
    }

    fn is_valid(&self) -> (r: bool) {
        self.pos < self.keys.len()
    }

    fn key(&self) -> (r: &Key) {
        &self.keys[self.pos]
    }

    fn value(&self) -> (r: &[u8]) {
        self.values[self.pos].as_slice()
    }

    fn next(&mut self) -> (r: Result<(), IterError>)
        ensures
            r is Err <==> old(self).step_fails(),
    {
        self.advance_checked()
    }
}

} // verus!
