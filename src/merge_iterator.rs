//! The k-way priority merge over sorted sources.
use vstd::prelude::*;
use crate::key::{Key, key_lt, lemma_key_order};
use crate::iterator::{EntryView, IterError, StorageIterator};
use crate::merge_spec::{
    advance_all, all_empty, is_first_min, lemma_merge_all_empty, lemma_merge_all_first,
    lemma_merge_all_step, merge_all,
};

verus! {

/// What each source has left, in source order.
pub open spec fn remaining_of<I: StorageIterator>(v: Seq<Box<I>>) -> Seq<Seq<EntryView>> {
    Seq::new(v.len(), |i: int| v[i].entries())
}

/// Source `j` is not `c` and sits on the same key as `c`.
pub open spec fn stale_at(rs: Seq<Seq<EntryView>>, c: int, j: int) -> bool {
    &&& 0 <= j < rs.len()
    &&& j != c
    &&& rs[j].len() > 0
    &&& rs[j][0].0 == rs[c][0].0
}

/// The first source from index `i` on that a step beginning at `c` advances:
/// the first stale one, else `c` itself.
pub open spec fn first_stepped_from(rs: Seq<Seq<EntryView>>, c: int, i: int) -> int
    decreases rs.len() - i,
{
    if i >= rs.len() || i < 0 {
        c
    } else if stale_at(rs, c, i) {
        i
    } else {
        first_stepped_from(rs, c, i + 1)
    }
}

proof fn lemma_first_stepped(rs: Seq<Seq<EntryView>>, c: int, i: int)
    requires
        0 <= i <= rs.len(),
    ensures
        first_stepped_from(rs, c, i) == c ==> forall|g: int| i <= g < rs.len() ==> !stale_at(rs, c, g),
        first_stepped_from(rs, c, i) != c ==> i <= first_stepped_from(rs, c, i) < rs.len()
            && stale_at(rs, c, first_stepped_from(rs, c, i))
            && forall|g: int| i <= g < first_stepped_from(rs, c, i) ==> !stale_at(rs, c, g),
    decreases rs.len() - i,
{
    if i < rs.len() {
        lemma_first_stepped(rs, c, i + 1);
    }
}

/// The index of the source with the smallest current key, the smallest index
/// among equal keys; `None` when every source is exhausted.
fn find_min<I: StorageIterator>(iters: &Vec<Box<I>>) -> (r: Option<usize>)
    requires
        forall|j: int| 0 <= j < iters.len() ==> (#[trigger] iters@[j]).inv(),
    ensures
        match r {
            Some(c) => is_first_min(remaining_of(iters@), c as int),
            None => all_empty(remaining_of(iters@)),
        },
{
    let ghost rs = remaining_of(iters@);
    let mut best: Option<usize> = None;
    let mut i: usize = 0;
    while i < iters.len()
        invariant
            0 <= i <= iters.len(),
            rs == remaining_of(iters@),
            forall|j: int| 0 <= j < iters.len() ==> (#[trigger] iters@[j]).inv(),
            match best {
                Some(b) => b < i && rs[b as int].len() > 0 && forall|j: int|
                    0 <= j < i && (#[trigger] rs[j]).len() > 0 ==> !key_lt(rs[j][0].0, rs[b as int][0].0)
                        && (rs[j][0].0 == rs[b as int][0].0 ==> b <= j),
                None => forall|j: int| 0 <= j < i ==> (#[trigger] rs[j]).len() == 0,
            },
        decreases iters.len() - i,
    {
        if iters[i].is_valid() {
            match best {
                None => {
                    best = Some(i);
                    proof {
                        lemma_key_order(rs[i as int][0].0, rs[i as int][0].0, rs[i as int][0].0);
                    }
                },
                Some(b) => {
                    if iters[i].key().less_than(iters[b].key()) {
                        best = Some(i);
                        proof {
                            let ki = rs[i as int][0].0;
                            let kb = rs[b as int][0].0;
                            assert forall|j: int| 0 <= j <= i && (#[trigger] rs[j]).len() > 0 implies
                                !key_lt(rs[j][0].0, ki) && (rs[j][0].0 == ki ==> i <= j) by {
                                lemma_key_order(rs[j][0].0, ki, kb);
                                lemma_key_order(ki, kb, ki);
                            }
                        }
                    } else {
                        proof {
                            lemma_key_order(rs[i as int][0].0, rs[b as int][0].0, rs[i as int][0].0);
                        }
                    }
                },
            }
        }
        i = i + 1;
    }
    best
}

/// Merges sources of one type into one stream in key order. Where several
/// sources hold the same key, the one with the smallest index is surfaced and
/// the others step past it unseen. The source holding the smallest
/// (key, index) pair is found by a scan over all sources after each step.
pub struct MergeIterator<I> {
    iters: Vec<Box<I>>,
    current: Option<usize>,
}

impl<I: StorageIterator> MergeIterator<I> {
    /// What each source has left, in priority order.
    pub closed spec fn remaining(&self) -> Seq<Seq<EntryView>> {
        remaining_of(self.iters@)
    }

    /// The sources, in priority order.
    pub closed spec fn sources(&self) -> Seq<I> {
        Seq::new(self.iters@.len(), |j: int| *self.iters@[j])
    }

    /// The source that a step advances first.
    pub closed spec fn first_stepped(&self) -> int {
        match self.current {
            Some(c) => first_stepped_from(self.remaining(), c as int, 0),
            None => 0,
        }
    }

    /// Takes ownership of the sources; index order is priority order, the
    /// first winning ties.
    pub fn create(iters: Vec<Box<I>>) -> (r: Self)
        requires
            forall|j: int| 0 <= j < iters.len() ==> (#[trigger] iters@[j]).inv(),
        ensures
            r.inv(),
            r.remaining() == remaining_of(iters@),
            r.entries() == merge_all(remaining_of(iters@)),
            r.sources() == Seq::new(iters@.len(), |j: int| *iters@[j]),
    {
        let current = find_min(&iters);
        MergeIterator { iters, current }
    }

    /// The source positions agree with `current`.
    pub closed spec fn well_formed(&self) -> bool {
        &&& forall|j: int| 0 <= j < self.iters.len() ==> (#[trigger] self.iters@[j]).inv()
        &&& match self.current {
            Some(c) => is_first_min(self.remaining(), c as int),
            None => all_empty(self.remaining()),
        }
    }
}

impl<I: StorageIterator> StorageIterator for MergeIterator<I> {
    open spec fn entries(&self) -> Seq<EntryView> {
        merge_all(self.remaining())
    }

    open spec fn inv(&self) -> bool {
        self.well_formed()
    }

    open spec fn fallible(&self) -> bool {
        exists|j: int| 0 <= j < self.remaining().len() && (#[trigger] self.sources()[j]).fallible()
    }

    open spec fn step_fails(&self) -> bool {
        self.entries().len() > 0 && self.sources()[self.first_stepped()].step_fails()
    }

    open spec fn step_error(&self) -> IterError {
        self.sources()[self.first_stepped()].step_error()
    }

    open spec fn tolerates_end(&self) -> bool {
        false
    }

    fn is_valid(&self) -> (r: bool) {
        proof {
            lemma_merge_all_empty(self.remaining());
        }
        self.current.is_some()
    }

    fn key(&self) -> (r: &Key) {
        proof {
            lemma_merge_all_empty(self.remaining());
        }
        let c = self.current.unwrap();
        proof {
            lemma_merge_all_first(self.remaining(), c as int);
        }
        self.iters[c].key()
    }

    fn value(&self) -> (r: &[u8]) {
        proof {
            lemma_merge_all_empty(self.remaining());
        }
        let c = self.current.unwrap();
        proof {
            lemma_merge_all_first(self.remaining(), c as int);
        }
        self.iters[c].value()
    }

    /// Every source on the surfaced key steps once; the others are untouched.
    fn next(&mut self) -> (r: Result<(), IterError>)
        ensures
            r is Ok ==> final(self).remaining() == advance_all(old(self).remaining(), old(self).entries()[0].0),
    {
        proof {
            lemma_merge_all_empty(self.remaining());
        }
        let c = self.current.unwrap();
        let ghost rs0 = self.remaining();
        let ghost iters0 = self.iters@;
        let ghost f0 = first_stepped_from(rs0, c as int, 0);
        proof {
            lemma_first_stepped(rs0, c as int, 0);
        }
        proof {
            if !self.fallible() {
                assert forall|j: int| 0 <= j < self.iters.len() implies !(#[trigger] self.iters@[j]).fallible() by {
                    assert(self.sources()[j] == *self.iters@[j]);
                }
            }
        }
        let ghost k = rs0[c as int][0].0;
        let ghost target = advance_all(rs0, k);
        proof {
            assert(rs0[c as int].len() > 0);
            lemma_merge_all_first(rs0, c as int);
            lemma_merge_all_step(rs0);
        }
        let n = self.iters.len();
        let mut i: usize = 0;
        // Sources behind the current one that sit on the same key hold stale
        // versions of it: step each past that key.
        while i < n
            invariant
                n == self.iters.len(),
                c < n,
                0 <= i <= n,
                rs0.len() == n,
                target.len() == n,
                rs0[c as int].len() > 0,
                k == rs0[c as int][0].0,
                target == advance_all(rs0, k),
                forall|j: int| 0 <= j < n ==> (#[trigger] self.iters@[j]).inv(),
                !old(self).fallible() ==> forall|j: int| 0 <= j < n ==> !(#[trigger] self.iters@[j]).fallible(),
                rs0 == old(self).remaining(),
                iters0 == old(self).iters@,
                f0 == first_stepped_from(rs0, c as int, 0),
                f0 == old(self).first_stepped(),
                (forall|g: int| 0 <= g < i ==> !stale_at(rs0, c as int, g)) ==> self.iters@ == iters0
                    && f0 == first_stepped_from(rs0, c as int, i as int),
                old(self).step_fails() ==> f0 == c || f0 >= i,
                forall|j: int|
                    0 <= j < n ==> (#[trigger] self.iters@[j]).entries() == if j < i && j != c {
                        target[j]
                    } else {
                        rs0[j]
                    },
            decreases n - i,
        {
            proof {
                lemma_first_stepped(rs0, c as int, 0);
            }
            if i != c && self.iters[i].is_valid() {
                let same = self.iters[i].key().same_as(self.iters[c].key());
                if same {
                    proof {
                        assert(stale_at(rs0, c as int, i as int));
                        if old(self).step_fails() {
                            assert(f0 == i);
                            assert(self.iters@ == iters0);
                            assert(old(self).sources()[i as int] == *iters0[i as int]);
                        }
                    }
                    let r = self.iters[i].next();
                    if let Err(e) = r {
                        return Err(e);
                    }
                }
            }
            proof {
                if forall|g: int| 0 <= g < i ==> !stale_at(rs0, c as int, g) {
                    if !stale_at(rs0, c as int, i as int) {
                        assert forall|g: int| 0 <= g < i + 1 implies !stale_at(rs0, c as int, g) by {}
                    }
                }
            }
            i = i + 1;
        }
        proof {
            if old(self).step_fails() && f0 == c {
                assert forall|g: int| 0 <= g < n implies !stale_at(rs0, c as int, g) by {}
                assert(self.iters@ == iters0);
                assert(old(self).sources()[c as int] == *iters0[c as int]);
            }
        }
        let r = self.iters[c].next();
        if let Err(e) = r {
            return Err(e);
        }
        assert(self.remaining() =~= target);
        self.current = find_min(&self.iters);
        proof {
            if !old(self).fallible() {
                assert forall|j: int| 0 <= j < self.remaining().len() implies !(#[trigger] self.sources()[j]).fallible() by {
                    assert(self.sources()[j] == *self.iters@[j]);
                }
            }
        }
        Ok(())
    }
}

} // verus!
