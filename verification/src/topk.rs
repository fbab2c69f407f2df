//! Bounded descending list of the highest-rated records seen so far.
//!
//! A new record is placed before the first current entry rated strictly
//! below it, so a record that ties an existing rating goes after every
//! earlier arrival of that rating.  When the list is full the last (lowest
//! rated) entry is dropped to make room; a record that beats nobody is
//! appended only while the list is short, and dropped once it is full.

use vstd::prelude::*;
use crate::record::Record;

verus! {

/// Capacity of the retained list.
pub const TOP_K: usize = 10;

/// The bounded descending-by-rating list.
pub struct TopK {
    pub list: Vec<Record>,
}

/// Weakly descending by rating.
pub open spec fn sorted_desc(l: Seq<Record>) -> bool {
    forall|i: int, j: int|
        0 <= i < j < l.len() ==> #[trigger] l[i].rating >= #[trigger] l[j].rating
}

/// Every list entry is rated at least `r`.
pub open spec fn dominates(l: Seq<Record>, r: Record) -> bool {
    forall|i: int| 0 <= i < l.len() ==> #[trigger] l[i].rating >= r.rating
}

/// The first index whose occupant is rated strictly below `v`, or the
/// length when no entry is: the insertion point that keeps the list
/// descending and puts a tie after its earlier arrivals.
pub open spec fn insert_pos(l: Seq<Record>, v: u64) -> int
    decreases l.len(),
{
    if l.len() == 0 {
        0
    } else if l.first().rating < v {
        0
    } else {
        1 + insert_pos(l.drop_first(), v)
    }
}

/// The whole effect of one record on the retained list.
pub open spec fn topk_step(l: Seq<Record>, r: Record) -> Seq<Record> {
    let pos = insert_pos(l, r.rating);
    if pos < l.len() {
        let base = if l.len() >= TOP_K {
            l.drop_last()
        } else {
            l
        };
        base.insert(pos, r)
    } else if l.len() < TOP_K {
        l.push(r)
    } else {
        l
    }
}

/// The retained list determined by a whole history of accepted records.
pub open spec fn topk_fold(h: Seq<Record>) -> Seq<Record>
    decreases h.len(),
{
    if h.len() == 0 {
        Seq::empty()
    } else {
        topk_step(topk_fold(h.drop_last()), h.last())
    }
}

/// Appending one record advances the fold by one step.
pub proof fn lemma_topk_fold_push(h: Seq<Record>, r: Record)
    ensures
        topk_fold(h.push(r)) == topk_step(topk_fold(h), r),
{
    assert(h.push(r).drop_last() =~= h);
    assert(h.push(r).last() == r);
}

/// The retained list against the history of accepted records: sorted,
/// exactly as long as the history up to the capacity, drawn from the
/// history, complete while short, and anything left out is rated no higher
/// than anything retained.
pub open spec fn topk_inv(l: Seq<Record>, h: Seq<Record>) -> bool {
    &&& sorted_desc(l)
    &&& l.len() == if h.len() < TOP_K {
        h.len() as int
    } else {
        TOP_K as int
    }
    &&& forall|i: int| 0 <= i < l.len() ==> h.contains(#[trigger] l[i])
    &&& l.len() < TOP_K ==> forall|j: int| 0 <= j < h.len() ==> l.contains(#[trigger] h[j])
    &&& forall|j: int| 0 <= j < h.len() ==> l.contains(#[trigger] h[j]) || dominates(l, h[j])
}

/// The insertion point splits the list into entries rated at least `v`
/// and, from it on, entries rated strictly below `v`.
pub proof fn lemma_insert_pos(l: Seq<Record>, v: u64)
    ensures
        0 <= insert_pos(l, v) <= l.len(),
        forall|k: int| 0 <= k < insert_pos(l, v) ==> #[trigger] l[k].rating >= v,
        insert_pos(l, v) < l.len() ==> l[insert_pos(l, v)].rating < v,
    decreases l.len(),
{
    if l.len() > 0 && !(l.first().rating < v) {
        let t = l.drop_first();
        lemma_insert_pos(t, v);
        assert forall|k: int| 0 <= k < insert_pos(l, v) implies #[trigger] l[k].rating >= v by {
            if k > 0 {
                assert(t[k - 1] == l[k]);
            }
        }
        if insert_pos(l, v) < l.len() {
            assert(t[insert_pos(l, v) - 1] == l[insert_pos(l, v)]);
        }
    }
}

/// One step of the retainer preserves the whole invariant against the
/// history extended by the new record.
#[verifier::rlimit(100)]
pub proof fn lemma_topk_step_inv(l: Seq<Record>, h: Seq<Record>, r: Record)
    requires
        topk_inv(l, h),
    ensures
        topk_inv(topk_step(l, r), h.push(r)),
{
    lemma_insert_pos(l, r.rating);
    let pos = insert_pos(l, r.rating);
    let v = r.rating;
    let l2 = topk_step(l, r);
    let h2 = h.push(r);
    assert(forall|j: int| 0 <= j < h.len() ==> #[trigger] h2[j] == h[j]);
    assert(h2[h.len() as int] == r);
    assert forall|x: Record| h.contains(x) implies h2.contains(x) by {
        let j = choose|j: int| 0 <= j < h.len() && h[j] == x;
        assert(h2[j] == x);
    }
    assert(h2.contains(r));
    if pos < l.len() {
        let base = if l.len() >= TOP_K {
            l.drop_last()
        } else {
            l
        };
        base.insert_ensures(pos, r);
        assert(forall|k: int| 0 <= k < base.len() ==> #[trigger] base[k] == l[k]);
        // every element of the new list is an element of the base or the new record
        assert forall|x: Record| l2.contains(x) implies x == r || l.contains(x) by {
            let k = choose|k: int| 0 <= k < l2.len() && l2[k] == x;
            if k < pos {
                assert(base[k] == x);
            } else if k > pos {
                assert(base[k - 1] == x);
            }
        }
        // the base survives insertion, and so does the new record
        assert forall|x: Record| base.contains(x) || x == r implies l2.contains(x) by {
            if x == r {
                assert(l2[pos] == x);
            } else {
                let k = choose|k: int| 0 <= k < base.len() && base[k] == x;
                if k < pos {
                    assert(l2[k] == x);
                } else {
                    assert(l2[k + 1] == x);
                }
            }
        }
        assert(sorted_desc(l2)) by {
            assert forall|i: int, j: int|
                0 <= i < j < l2.len() implies #[trigger] l2[i].rating >= #[trigger] l2[j].rating by {
                if j < pos {
                    assert(l2[i] == l[i] && l2[j] == l[j]);
                } else if i < pos && j == pos {
                    assert(l2[i] == l[i] && l[i].rating >= v);
                } else if i < pos && j > pos {
                    assert(l2[i] == l[i] && l2[j] == base[j - 1]);
                    assert(base[j - 1] == l[j - 1]);
                    assert(l[i].rating >= v && v > l[pos].rating);
                    if j - 1 > pos {
                        assert(l[pos].rating >= l[j - 1].rating);
                    }
                } else if i == pos {
                    assert(l2[j] == base[j - 1] && base[j - 1] == l[j - 1]);
                    assert(v > l[pos].rating);
                    if j - 1 > pos {
                        assert(l[pos].rating >= l[j - 1].rating);
                    }
                } else {
                    assert(l2[i] == l[i - 1] && l2[j] == l[j - 1]);
                }
            }
        }
        assert forall|i: int| 0 <= i < l2.len() implies h2.contains(#[trigger] l2[i]) by {
            if l2[i] == r {
            } else {
                assert(l.contains(l2[i]));
            }
        }
        if l2.len() < TOP_K {
            assert(l.len() < TOP_K);
            assert(base == l);
            assert forall|j: int| 0 <= j < h2.len() implies l2.contains(#[trigger] h2[j]) by {
                if j < h.len() {
                    assert(l.contains(h[j]));
                } else {
                    assert(h2[j] == r);
                }
            }
        }
        assert forall|j: int| 0 <= j < h2.len() implies l2.contains(#[trigger] h2[j]) || dominates(
            l2, h2[j]) by {
            if j == h.len() {
                assert(l2.contains(r));
            } else {
                let x = h[j];
                if l.contains(x) {
                    let k = choose|k: int| 0 <= k < l.len() && l[k] == x;
                    if k < base.len() {
                        assert(base[k] == x);
                        assert(l2.contains(x));
                    } else {
                        // x was the dropped last entry: everything retained
                        // is rated at least as high
                        assert(l.len() >= TOP_K && k == l.len() - 1);
                        assert forall|i: int| 0 <= i < l2.len() implies #[trigger] l2[i].rating
                            >= x.rating by {
                            if l2[i] == r {
                                assert(v > l[pos].rating);
                                assert(l[pos].rating >= x.rating);
                            } else {
                                assert(l.contains(l2[i]));
                                let m = choose|m: int| 0 <= m < l.len() && l[m] == l2[i];
                                if m < l.len() - 1 {
                                    assert(l[m].rating >= l[l.len() - 1].rating);
                                }
                            }
                        }
                    }
                } else {
                    assert(dominates(l, x));
                    assert forall|i: int| 0 <= i < l2.len() implies #[trigger] l2[i].rating
                        >= x.rating by {
                        if l2[i] == r {
                            assert(v > l[pos].rating);
                            assert(l[pos].rating >= x.rating);
                        } else {
                            assert(l.contains(l2[i]));
                            let m = choose|m: int| 0 <= m < l.len() && l[m] == l2[i];
                            assert(l[m].rating >= x.rating);
                        }
                    }
                }
            }
        }
    } else {
        // the record beats nobody: append while short, drop when full
        if l.len() < TOP_K {
            assert(l2 == l.push(r));
            assert(forall|k: int| 0 <= k < l.len() ==> #[trigger] l2[k] == l[k]);
            assert(l2[l.len() as int] == r);
            assert(sorted_desc(l2)) by {
                assert forall|i: int, j: int|
                    0 <= i < j < l2.len() implies #[trigger] l2[i].rating >= #[trigger] l2[
                    j].rating by {
                    if j == l.len() {
                        assert(l2[i] == l[i] && l[i].rating >= v);
                    }
                }
            }
            assert forall|i: int| 0 <= i < l2.len() implies h2.contains(#[trigger] l2[i]) by {
                if i < l.len() {
                    assert(h.contains(l[i]));
                }
            }
            assert forall|j: int| 0 <= j < h2.len() implies l2.contains(#[trigger] h2[j]) by {
                if j < h.len() {
                    assert(l.contains(h[j]));
                    let k = choose|k: int| 0 <= k < l.len() && l[k] == h[j];
                    assert(l2[k] == h[j]);
                } else {
                    assert(l2[l.len() as int] == r);
                }
            }
        } else {
            assert(l2 == l);
            assert forall|j: int| 0 <= j < h2.len() implies l2.contains(#[trigger] h2[j])
                || dominates(l2, h2[j]) by {
                if j == h.len() {
                    // pos == l.len(): every retained entry is rated at least v
                    assert(forall|k: int| 0 <= k < l.len() ==> #[trigger] l[k].rating >= v);
                }
            }
        }
    }
}

impl TopK {
    /// An empty retained list.
    pub fn new() -> (t: TopK)
        ensures
            t.list@ =~= Seq::<Record>::empty(),
    {
        TopK { list: Vec::new() }
    }

    /// Offer one record to the retainer.
    pub fn insert(&mut self, r: &Record)
        requires
            old(self).list@.len() <= TOP_K,
        ensures
            final(self).list@ == topk_step(old(self).list@, *r),
    {
        let ghost l = self.list@;
        let pi: usize = find_insert_pos(&self.list, r.rating);
        if pi < self.list.len() {
            if self.list.len() >= TOP_K {
                self.list.pop();
                proof {
                    assert(self.list@ =~= l.drop_last());
                }
            }
            self.list.insert(pi, r.clone());
        } else if self.list.len() < TOP_K {
            self.list.push(r.clone());
        }
    }
}

/// Scan for the first entry rated strictly below `v`.
fn find_insert_pos(list: &Vec<Record>, v: u64) -> (pi: usize)
    ensures
        pi as int == insert_pos(list@, v),
{
    let ghost l = list@;
    proof {
        lemma_insert_pos(l, v);
    }
    let mut pi: usize = 0;
    while pi < list.len()
        invariant
            l == list@,
            pi <= l.len(),
            forall|k: int| 0 <= k < pi ==> #[trigger] l[k].rating >= v,
            0 <= insert_pos(l, v) <= l.len(),
            forall|k: int| 0 <= k < insert_pos(l, v) ==> #[trigger] l[k].rating >= v,
            insert_pos(l, v) < l.len() ==> l[insert_pos(l, v)].rating < v,
        decreases l.len() - pi,
    {
        if list[pi].rating < v {
            proof {
                assert(pi as int == insert_pos(l, v)) by {
                    if (insert_pos(l, v)) < pi {
                        assert(l[insert_pos(l, v)].rating >= v);
                    }
                }
            }
            return pi;
        }
        pi = pi + 1;
    }
    proof {
        assert(pi as int == insert_pos(l, v)) by {
            if insert_pos(l, v) < l.len() {
                assert(l[insert_pos(l, v)].rating >= v);
            }
        }
    }
    pi
}

} // verus!
