//! The mathematical model of a priority merge of several streams.
use vstd::prelude::*;
use crate::key::{KeyView, key_lt, lemma_key_order};
use crate::iterator::{EntryView, strictly_sorted};

verus! {

/// Merge of two streams where `a` wins ties: on equal keys the entry of `a`
/// is kept and that of `b` dropped.
pub open spec fn merge2(a: Seq<EntryView>, b: Seq<EntryView>) -> Seq<EntryView>
    decreases a.len() + b.len(),
{
    if a.len() == 0 {
        b
    } else if b.len() == 0 {
        a
    } else if key_lt(a[0].0, b[0].0) {
        seq![a[0]] + merge2(a.drop_first(), b)
    } else if a[0].0 == b[0].0 {
        seq![a[0]] + merge2(a.drop_first(), b.drop_first())
    } else {
        seq![b[0]] + merge2(a, b.drop_first())
    }
}

/// Merge of many streams, where a stream of smaller index wins ties.
pub open spec fn merge_all(rs: Seq<Seq<EntryView>>) -> Seq<EntryView>
    decreases rs.len(),
{
    if rs.len() == 0 {
        Seq::empty()
    } else {
        merge2(rs[0], merge_all(rs.drop_first()))
    }
}

/// Stream `c` holds the smallest head key, and no stream before it holds that key.
pub open spec fn is_first_min(rs: Seq<Seq<EntryView>>, c: int) -> bool {
    &&& 0 <= c < rs.len()
    &&& rs[c].len() > 0
    &&& forall|j: int|
        0 <= j < rs.len() && (#[trigger] rs[j]).len() > 0 ==> !key_lt(rs[j][0].0, rs[c][0].0)
            && (rs[j][0].0 == rs[c][0].0 ==> c <= j)
}

/// Every stream empty.
pub open spec fn all_empty(rs: Seq<Seq<EntryView>>) -> bool {
    forall|j: int| 0 <= j < rs.len() ==> (#[trigger] rs[j]).len() == 0
}

/// Each stream whose head has key `k` steps past it.
pub open spec fn advance_all(rs: Seq<Seq<EntryView>>, k: KeyView) -> Seq<Seq<EntryView>> {
    Seq::new(
        rs.len(),
        |i: int|
            if rs[i].len() > 0 && rs[i][0].0 == k {
                rs[i].drop_first()
            } else {
                rs[i]
            },
    )
}

pub proof fn lemma_merge_all_empty(rs: Seq<Seq<EntryView>>)
    ensures
        (merge_all(rs).len() == 0) == all_empty(rs),
    decreases rs.len(),
{
    if rs.len() > 0 {
        let rest = rs.drop_first();
        lemma_merge_all_empty(rest);
        assert forall|j: int| 0 <= j < rest.len() implies rest[j] == rs[j + 1] by {}
        if all_empty(rest) && rs[0].len() == 0 {
            assert forall|j: int| 0 <= j < rs.len() implies (#[trigger] rs[j]).len() == 0 by {
                if j > 0 {
                    assert(rs[j] == rest[j - 1]);
                }
            }
        }
        if !all_empty(rest) {
            let j = choose|j: int| 0 <= j < rest.len() && (#[trigger] rest[j]).len() != 0;
            assert(rs[j + 1].len() != 0);
        }
        reveal_with_fuel(merge2, 2);
    }
}

/// First-min positions are unique.
pub proof fn lemma_first_min_unique(rs: Seq<Seq<EntryView>>, c: int, d: int)
    requires
        is_first_min(rs, c),
        is_first_min(rs, d),
    ensures
        c == d,
{
    lemma_key_order(rs[c][0].0, rs[d][0].0, rs[d][0].0);
    assert(rs[c].len() > 0);
    assert(rs[d].len() > 0);
}

/// A non-empty merge starts with the head of some first-min stream.
pub proof fn lemma_merge_all_head(rs: Seq<Seq<EntryView>>)
    requires
        !all_empty(rs),
    ensures
        exists|h: int| is_first_min(rs, h) && merge_all(rs).len() > 0 && merge_all(rs)[0] == rs[h][0],
    decreases rs.len(),
{
    lemma_merge_all_empty(rs);
    let rest = rs.drop_first();
    assert forall|j: int| 0 <= j < rest.len() implies rest[j] == rs[j + 1] by {}
    let m = merge_all(rest);
    lemma_merge_all_empty(rest);
    if rs[0].len() == 0 {
        let j = choose|j: int| 0 <= j < rs.len() && (#[trigger] rs[j]).len() != 0;
        assert(rest[j - 1].len() != 0);
        lemma_merge_all_head(rest);
        let h = choose|h: int| is_first_min(rest, h) && m.len() > 0 && m[0] == rest[h][0];
        assert forall|j: int| 0 <= j < rs.len() && (#[trigger] rs[j]).len() > 0 implies
            !key_lt(rs[j][0].0, rs[h + 1][0].0) && (rs[j][0].0 == rs[h + 1][0].0 ==> h + 1 <= j) by {
            assert(rs[j] == rest[j - 1]);
        }
        assert(is_first_min(rs, h + 1));
    } else if all_empty(rest) {
        assert forall|j: int| 0 <= j < rs.len() && (#[trigger] rs[j]).len() > 0 implies
            !key_lt(rs[j][0].0, rs[0][0].0) && (rs[j][0].0 == rs[0][0].0 ==> 0 <= j) by {
            if j > 0 {
                assert(rs[j] == rest[j - 1]);
            }
            lemma_key_order(rs[0][0].0, rs[0][0].0, rs[0][0].0);
        }
        assert(is_first_min(rs, 0));
    } else {
        lemma_merge_all_head(rest);
        let h = choose|h: int| is_first_min(rest, h) && m.len() > 0 && m[0] == rest[h][0];
        let ka = rs[0][0].0;
        let kb = m[0].0;
        lemma_key_order(ka, kb, ka);
        if key_lt(ka, kb) || ka == kb {
            assert forall|j: int| 0 <= j < rs.len() && (#[trigger] rs[j]).len() > 0 implies
                !key_lt(rs[j][0].0, rs[0][0].0) && (rs[j][0].0 == rs[0][0].0 ==> 0 <= j) by {
                if j > 0 {
                    assert(rs[j] == rest[j - 1]);
                    lemma_key_order(rs[j][0].0, kb, ka);
                    lemma_key_order(kb, rs[j][0].0, ka);
                    lemma_key_order(ka, kb, rs[j][0].0);
                } else {
                    lemma_key_order(ka, ka, ka);
                }
            }
            assert(is_first_min(rs, 0));
        } else {
            assert(key_lt(kb, ka));
            assert forall|j: int| 0 <= j < rs.len() && (#[trigger] rs[j]).len() > 0 implies
                !key_lt(rs[j][0].0, rs[h + 1][0].0) && (rs[j][0].0 == rs[h + 1][0].0 ==> h + 1 <= j) by {
                if j > 0 {
                    assert(rs[j] == rest[j - 1]);
                }
            }
            assert(is_first_min(rs, h + 1));
        }
    }
}

/// The head of a merge is the head of the first-min stream.
pub proof fn lemma_merge_all_first(rs: Seq<Seq<EntryView>>, c: int)
    requires
        is_first_min(rs, c),
    ensures
        merge_all(rs).len() > 0,
        merge_all(rs)[0] == rs[c][0],
{
    assert(rs[c].len() > 0);
    lemma_merge_all_head(rs);
    let h = choose|h: int| is_first_min(rs, h) && merge_all(rs).len() > 0 && merge_all(rs)[0] == rs[h][0];
    lemma_first_min_unique(rs, c, h);
}

/// Stepping every stream past the merge's first key leaves the rest of the merge.
pub proof fn lemma_merge_all_step(rs: Seq<Seq<EntryView>>)
    requires
        !all_empty(rs),
    ensures
        merge_all(rs).len() > 0,
        merge_all(advance_all(rs, merge_all(rs)[0].0)) == merge_all(rs).drop_first(),
    decreases rs.len(),
{
    lemma_merge_all_empty(rs);
    let k = merge_all(rs)[0].0;
    let rest = rs.drop_first();
    assert forall|j: int| 0 <= j < rest.len() implies rest[j] == rs[j + 1] by {}
    let adv = advance_all(rs, k);
    assert(adv.drop_first() =~= advance_all(rest, k));
    let m = merge_all(rest);
    lemma_merge_all_empty(rest);
    let a = rs[0];
    if a.len() == 0 {
        assert(!all_empty(rest)) by {
            let j = choose|j: int| 0 <= j < rs.len() && (#[trigger] rs[j]).len() != 0;
            assert(rest[j - 1].len() != 0);
        }
        lemma_merge_all_step(rest);
        assert(adv[0] == a);
    } else if all_empty(rest) {
        assert(advance_all(rest, k) =~= rest);
        assert(adv[0] == a.drop_first());
        lemma_merge_all_empty(rest);
        assert(merge2(a.drop_first(), m) =~= a.drop_first()) by {
            reveal_with_fuel(merge2, 2);
        }
    } else {
        lemma_merge_all_head(rest);
        let h = choose|h: int| is_first_min(rest, h) && m.len() > 0 && m[0] == rest[h][0];
        let ka = a[0].0;
        let kb = m[0].0;
        lemma_key_order(ka, kb, ka);
        if key_lt(ka, kb) {
            assert(advance_all(rest, k) =~= rest) by {
                assert forall|j: int| 0 <= j < rest.len() && (#[trigger] rest[j]).len() > 0
                    implies rest[j][0].0 != ka by {
                    lemma_key_order(ka, kb, rest[j][0].0);
                    lemma_key_order(kb, rest[j][0].0, kb);
                }
            }
            assert(merge_all(rs).drop_first() =~= merge2(a.drop_first(), m));
        } else if ka == kb {
            lemma_merge_all_step(rest);
            assert(merge_all(rs).drop_first() =~= merge2(a.drop_first(), m.drop_first()));
        } else {
            lemma_merge_all_step(rest);
            assert(adv[0] == a);
            assert(merge_all(rs).drop_first() =~= merge2(a, m.drop_first()));
        }
    }
}

/// Some entry of the stream has key `k`.
pub open spec fn has_key(s: Seq<EntryView>, k: KeyView) -> bool {
    exists|i: int| 0 <= i < s.len() && (#[trigger] s[i]).0 == k
}

proof fn lemma_sorted_tail(s: Seq<EntryView>)
    requires
        strictly_sorted(s),
        s.len() > 0,
    ensures
        strictly_sorted(s.drop_first()),
        forall|x: EntryView| #[trigger] s.drop_first().contains(x) ==> key_lt(s[0].0, x.0),
        forall|k: KeyView| #[trigger] has_key(s, k) <==> (s[0].0 == k || has_key(s.drop_first(), k)),
        forall|x: EntryView| #[trigger] s.contains(x) <==> (x == s[0] || s.drop_first().contains(x)),
{
    let t = s.drop_first();
    assert forall|i: int, j: int| 0 <= i < j < t.len() implies key_lt(#[trigger] t[i].0, #[trigger] t[j].0) by {
        assert(t[i] == s[i + 1] && t[j] == s[j + 1]);
    }
    assert forall|x: EntryView| #[trigger] t.contains(x) implies key_lt(s[0].0, x.0) by {
        let i = choose|i: int| 0 <= i < t.len() && t[i] == x;
        assert(t[i] == s[i + 1]);
    }
    assert forall|k: KeyView| #[trigger] has_key(s, k) <==> (s[0].0 == k || has_key(t, k)) by {
        if has_key(s, k) && s[0].0 != k {
            let i = choose|i: int| 0 <= i < s.len() && (#[trigger] s[i]).0 == k;
            assert(t[i - 1] == s[i]);
        }
        if has_key(t, k) {
            let i = choose|i: int| 0 <= i < t.len() && (#[trigger] t[i]).0 == k;
            assert(t[i] == s[i + 1]);
        }
        if s[0].0 == k {
            assert(s[0].0 == k);
        }
    }
    assert forall|x: EntryView| #[trigger] s.contains(x) <==> (x == s[0] || t.contains(x)) by {
        if s.contains(x) && x != s[0] {
            let i = choose|i: int| 0 <= i < s.len() && s[i] == x;
            assert(t[i - 1] == s[i]);
        }
        if t.contains(x) {
            let i = choose|i: int| 0 <= i < t.len() && t[i] == x;
            assert(t[i] == s[i + 1]);
        }
        if x == s[0] {
            assert(s[0] == x);
        }
    }
}

proof fn lemma_sorted_cons(x: EntryView, t: Seq<EntryView>)
    requires
        strictly_sorted(t),
        forall|y: EntryView| #[trigger] t.contains(y) ==> key_lt(x.0, y.0),
    ensures
        strictly_sorted(seq![x] + t),
        forall|y: EntryView| #[trigger] (seq![x] + t).contains(y) <==> (y == x || t.contains(y)),
{
    let s = seq![x] + t;
    assert(s.drop_first() =~= t);
    assert forall|i: int, j: int| 0 <= i < j < s.len() implies key_lt(#[trigger] s[i].0, #[trigger] s[j].0) by {
        if i == 0 {
            assert(t.contains(t[j - 1]));
        } else {
            assert(s[i] == t[i - 1] && s[j] == t[j - 1]);
        }
    }
    assert forall|y: EntryView| #[trigger] s.contains(y) <==> (y == x || t.contains(y)) by {
        if s.contains(y) && y != x {
            let i = choose|i: int| 0 <= i < s.len() && s[i] == y;
            assert(t[i - 1] == s[i]);
        }
        if t.contains(y) {
            let i = choose|i: int| 0 <= i < t.len() && t[i] == y;
            assert(s[i + 1] == t[i]);
        }
        if y == x {
            assert(s[0] == y);
        }
    }
}

/// Merging two sorted streams gives a sorted stream holding every entry of
/// `a`, and every entry of `b` whose key `a` lacks.
pub proof fn lemma_merge2_sorted(a: Seq<EntryView>, b: Seq<EntryView>)
    requires
        strictly_sorted(a),
        strictly_sorted(b),
    ensures
        strictly_sorted(merge2(a, b)),
        forall|x: EntryView| #[trigger] merge2(a, b).contains(x) <==>
            (a.contains(x) || (b.contains(x) && !has_key(a, x.0))),
    decreases a.len() + b.len(),
{
    if a.len() == 0 {
        assert forall|x: EntryView| #[trigger] merge2(a, b).contains(x) <==>
            (a.contains(x) || (b.contains(x) && !has_key(a, x.0))) by {}
    } else if b.len() == 0 {
        assert forall|x: EntryView| #[trigger] merge2(a, b).contains(x) <==>
            (a.contains(x) || (b.contains(x) && !has_key(a, x.0))) by {}
    } else {
        lemma_sorted_tail(a);
        lemma_sorted_tail(b);
        let a0 = a[0];
        let b0 = b[0];
        let at = a.drop_first();
        let bt = b.drop_first();
        lemma_key_order(a0.0, b0.0, a0.0);
        assert(a.contains(a0));
        assert(b.contains(b0));
        if key_lt(a0.0, b0.0) {
            lemma_merge2_sorted(at, b);
            let m = merge2(at, b);
            assert forall|y: EntryView| #[trigger] m.contains(y) implies key_lt(a0.0, y.0) by {
                if !at.contains(y) {
                    assert(b.contains(y));
                    if y != b0 {
                        assert(bt.contains(y));
                        lemma_key_order(a0.0, b0.0, y.0);
                    }
                }
            }
            lemma_sorted_cons(a0, m);
            assert forall|x: EntryView| #[trigger] merge2(a, b).contains(x) <==>
                (a.contains(x) || (b.contains(x) && !has_key(a, x.0))) by {
                if b.contains(x) {
                    if x != b0 {
                        assert(bt.contains(x));
                        lemma_key_order(a0.0, b0.0, x.0);
                    }
                    lemma_key_order(a0.0, x.0, a0.0);
                    assert(has_key(a, x.0) == has_key(at, x.0));
                }
            }
        } else if a0.0 == b0.0 {
            lemma_merge2_sorted(at, bt);
            let m = merge2(at, bt);
            assert forall|y: EntryView| #[trigger] m.contains(y) implies key_lt(a0.0, y.0) by {
                if !at.contains(y) {
                    assert(bt.contains(y));
                }
            }
            lemma_sorted_cons(a0, m);
            assert forall|x: EntryView| #[trigger] merge2(a, b).contains(x) <==>
                (a.contains(x) || (b.contains(x) && !has_key(a, x.0))) by {
                if b.contains(x) {
                    if x != b0 {
                        assert(bt.contains(x));
                        lemma_key_order(a0.0, x.0, a0.0);
                        assert(has_key(a, x.0) == has_key(at, x.0));
                    } else {
                        assert(has_key(a, x.0));
                    }
                }
                if at.contains(x) {
                    lemma_key_order(a0.0, x.0, a0.0);
                }
                if bt.contains(x) {
                    lemma_key_order(a0.0, x.0, a0.0);
                }
            }
        } else {
            assert(key_lt(b0.0, a0.0));
            lemma_merge2_sorted(a, bt);
            let m = merge2(a, bt);
            assert forall|y: EntryView| #[trigger] m.contains(y) implies key_lt(b0.0, y.0) by {
                if a.contains(y) && y != a0 {
                    assert(at.contains(y));
                    lemma_key_order(b0.0, a0.0, y.0);
                }
            }
            lemma_sorted_cons(b0, m);
            assert(!has_key(a, b0.0)) by {
                if has_key(a, b0.0) {
                    let i = choose|i: int| 0 <= i < a.len() && (#[trigger] a[i]).0 == b0.0;
                    if i > 0 {
                        assert(at.contains(a[i]));
                        lemma_key_order(b0.0, a0.0, b0.0);
                    }
                }
            }
            assert forall|x: EntryView| #[trigger] merge2(a, b).contains(x) <==>
                (a.contains(x) || (b.contains(x) && !has_key(a, x.0))) by {
                if x == b0 {
                    assert(merge2(a, b)[0] == x);
                }
            }
        }
    }
}

/// Every stream has strictly increasing keys.
pub open spec fn all_sorted(rs: Seq<Seq<EntryView>>) -> bool {
    forall|i: int| 0 <= i < rs.len() ==> strictly_sorted(#[trigger] rs[i])
}

/// Entry `x` belongs to stream `i`, and no stream before `i` holds its key.
pub open spec fn wins(rs: Seq<Seq<EntryView>>, i: int, x: EntryView) -> bool {
    &&& 0 <= i < rs.len()
    &&& rs[i].contains(x)
    &&& forall|j: int| 0 <= j < i ==> !has_key(#[trigger] rs[j], x.0)
}

/// Every key that some stream holds.
pub open spec fn key_union(rs: Seq<Seq<EntryView>>) -> Set<KeyView> {
    Set::new(|k: KeyView| exists|i: int| 0 <= i < rs.len() && has_key(#[trigger] rs[i], k))
}

proof fn lemma_merge_all_sorted(rs: Seq<Seq<EntryView>>)
    requires
        all_sorted(rs),
    ensures
        strictly_sorted(merge_all(rs)),
        forall|x: EntryView| #[trigger] merge_all(rs).contains(x) <==> exists|i: int| wins(rs, i, x),
    decreases rs.len(),
{
    if rs.len() == 0 {
        assert forall|x: EntryView| #[trigger] merge_all(rs).contains(x) <==> exists|i: int| wins(rs, i, x) by {}
    } else {
        let rest = rs.drop_first();
        assert forall|j: int| 0 <= j < rest.len() implies rest[j] == rs[j + 1] by {}
        lemma_merge_all_sorted(rest);
        let m = merge_all(rest);
        lemma_merge2_sorted(rs[0], m);
        assert forall|x: EntryView| #[trigger] merge_all(rs).contains(x) <==> exists|i: int| wins(rs, i, x) by {
            if rs[0].contains(x) {
                assert(wins(rs, 0, x));
            } else if m.contains(x) && !has_key(rs[0], x.0) {
                let i = choose|i: int| wins(rest, i, x);
                assert forall|j: int| 0 <= j < i + 1 implies !has_key(#[trigger] rs[j], x.0) by {
                    if j > 0 {
                        assert(rs[j] == rest[j - 1]);
                    }
                }
                assert(wins(rs, i + 1, x));
            }
            if exists|i: int| wins(rs, i, x) {
                let i = choose|i: int| wins(rs, i, x);
                if i > 0 {
                    assert forall|j: int| 0 <= j < i - 1 implies !has_key(#[trigger] rest[j], x.0) by {
                        assert(rs[j + 1] == rest[j]);
                    }
                    assert(wins(rest, i - 1, x));
                    assert(!has_key(rs[0], x.0));
                }
            }
        }
    }
}

proof fn lemma_first_holder(rs: Seq<Seq<EntryView>>, i: int, k: KeyView)
    requires
        0 <= i < rs.len(),
        has_key(rs[i], k),
    ensures
        exists|i0: int, x: EntryView| wins(rs, i0, x) && x.0 == k,
    decreases i,
{
    if exists|j: int| 0 <= j < i && has_key(#[trigger] rs[j], k) {
        let j = choose|j: int| 0 <= j < i && has_key(#[trigger] rs[j], k);
        lemma_first_holder(rs, j, k);
    } else {
        let p = choose|p: int| 0 <= p < rs[i].len() && (#[trigger] rs[i][p]).0 == k;
        assert(rs[i].contains(rs[i][p]));
        assert(wins(rs, i, rs[i][p]));
    }
}

/// Given sorted sources, the merged stream has strictly increasing keys: it
/// never goes back and never repeats a key.
pub proof fn lemma_merge_total_order(rs: Seq<Seq<EntryView>>)
    requires
        all_sorted(rs),
    ensures
        strictly_sorted(merge_all(rs)),
{
    lemma_merge_all_sorted(rs);
}

/// Given sorted sources, the merged stream holds exactly the entries that come
/// from the first source holding their key: where sources `i < j` share a
/// key, the entry of `i` is surfaced and that of `j` never is.
pub proof fn lemma_merge_priority(rs: Seq<Seq<EntryView>>)
    requires
        all_sorted(rs),
    ensures
        forall|x: EntryView| #[trigger] merge_all(rs).contains(x) <==> exists|i: int| wins(rs, i, x),
{
    lemma_merge_all_sorted(rs);
}

/// Given sorted sources, the merged stream has one entry per distinct key:
/// the sum of the source sizes less the keys that recur across sources.
pub proof fn lemma_merge_exhaustion(rs: Seq<Seq<EntryView>>)
    requires
        all_sorted(rs),
    ensures
        merge_all(rs).len() == key_union(rs).len(),
{
    lemma_merge_all_sorted(rs);
    let m = merge_all(rs);
    let ks = m.map_values(|e: EntryView| e.0);
    assert forall|i: int, j: int| 0 <= i < ks.len() && 0 <= j < ks.len() && i != j implies ks[i] != ks[j] by {
        lemma_key_order(m[i].0, m[j].0, m[i].0);
    }
    assert(ks.no_duplicates());
    ks.unique_seq_to_set();
    assert forall|k: KeyView| ks.to_set().contains(k) <==> key_union(rs).contains(k) by {
        if ks.to_set().contains(k) {
            let p = choose|p: int| 0 <= p < ks.len() && ks[p] == k;
            assert(m.contains(m[p]));
            let i = choose|i: int| wins(rs, i, m[p]);
            let q = choose|q: int| 0 <= q < rs[i].len() && rs[i][q] == m[p];
            assert(rs[i][q].0 == k);
            assert(has_key(rs[i], k));
        }
        if key_union(rs).contains(k) {
            let i = choose|i: int| 0 <= i < rs.len() && has_key(#[trigger] rs[i], k);
            lemma_first_holder(rs, i, k);
            let (i0, x) = choose|i0: int, x: EntryView| wins(rs, i0, x) && x.0 == k;
            assert(m.contains(x));
            let p = choose|p: int| 0 <= p < m.len() && m[p] == x;
            assert(ks[p] == k);
        }
    }
    assert(ks.to_set() =~= key_union(rs));
}

/// How many entries all streams hold together.
pub open spec fn total_len(rs: Seq<Seq<EntryView>>) -> int
    decreases rs.len(),
{
    if rs.len() == 0 {
        0
    } else {
        rs[0].len() + total_len(rs.drop_first())
    }
}

/// How many streams have their head at key `k`.
pub open spec fn count_at(rs: Seq<Seq<EntryView>>, k: KeyView) -> int
    decreases rs.len(),
{
    if rs.len() == 0 {
        0
    } else {
        (if rs[0].len() > 0 && rs[0][0].0 == k { 1int } else { 0int }) + count_at(rs.drop_first(), k)
    }
}

proof fn lemma_count_at_positive(rs: Seq<Seq<EntryView>>, k: KeyView, j: int)
    requires
        0 <= j < rs.len(),
        rs[j].len() > 0,
        rs[j][0].0 == k,
    ensures
        count_at(rs, k) >= 1,
    decreases rs.len(),
{
    if j > 0 {
        assert(rs.drop_first()[j - 1] == rs[j]);
        lemma_count_at_nonneg(rs.drop_first(), k);
        lemma_count_at_positive(rs.drop_first(), k, j - 1);
    } else {
        lemma_count_at_nonneg(rs.drop_first(), k);
    }
}

proof fn lemma_count_at_nonneg(rs: Seq<Seq<EntryView>>, k: KeyView)
    ensures
        count_at(rs, k) >= 0,
    decreases rs.len(),
{
    if rs.len() > 0 {
        lemma_count_at_nonneg(rs.drop_first(), k);
    }
}

/// A step takes one entry from each stream whose head is at `k`, and nothing
/// from the others: the total falls by the number of such streams.
pub proof fn lemma_advance_all_total(rs: Seq<Seq<EntryView>>, k: KeyView)
    ensures
        total_len(advance_all(rs, k)) == total_len(rs) - count_at(rs, k),
    decreases rs.len(),
{
    if rs.len() > 0 {
        assert(advance_all(rs, k).drop_first() =~= advance_all(rs.drop_first(), k));
        lemma_advance_all_total(rs.drop_first(), k);
    }
}

/// A step of a non-empty merge takes at least the surfaced entry, so the
/// streams' total strictly falls and repeated steps reach the end.
pub proof fn lemma_merge_step_shrinks(rs: Seq<Seq<EntryView>>)
    requires
        !all_empty(rs),
    ensures
        merge_all(rs).len() > 0,
        count_at(rs, merge_all(rs)[0].0) >= 1,
        total_len(advance_all(rs, merge_all(rs)[0].0)) < total_len(rs),
{
    lemma_merge_all_head(rs);
    let h = choose|h: int| is_first_min(rs, h) && merge_all(rs).len() > 0 && merge_all(rs)[0] == rs[h][0];
    lemma_count_at_positive(rs, merge_all(rs)[0].0, h);
    lemma_advance_all_total(rs, merge_all(rs)[0].0);
}

} // verus!
