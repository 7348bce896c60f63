use vstd::prelude::*;

verus! {

broadcast use vstd::array::group_array_axioms;

/// A scored item: an index and its score.
pub type Scored = (usize, i32);

/// The first position at or after `i` where an item scored `score` belongs:
/// an empty slot, or a slot whose item scores strictly less. `items.len()` when
/// there is none.
pub open spec fn slot_from(items: Seq<Option<Scored>>, score: i32, i: int) -> int
    decreases items.len() - i,
{
    if i < 0 || i >= items.len() {
        items.len() as int
    } else if match items[i] {
        Some(e) => score > e.1,
        None => true,
    } {
        i
    } else {
        slot_from(items, score, i + 1)
    }
}

/// `items` after inserting `item`: placed at its slot, the items from there on
/// moving one place back and the last one dropping out; unchanged when there is
/// no slot.
pub open spec fn topk_insert(items: Seq<Option<Scored>>, item: Scored) -> Seq<Option<Scored>> {
    let p = slot_from(items, item.1, 0);
    if p < items.len() {
        items.subrange(0, p).push(Some(item)) + items.subrange(p, items.len() - 1)
    } else {
        items
    }
}

/// `a` after inserting, in order, each present item of `b`.
pub open spec fn topk_merge(a: Seq<Option<Scored>>, b: Seq<Option<Scored>>) -> Seq<Option<Scored>>
    decreases b.len(),
{
    if b.len() == 0 {
        a
    } else {
        let prev = topk_merge(a, b.drop_last());
        match b.last() {
            Some(e) => topk_insert(prev, e),
            None => prev,
        }
    }
}

/// The present items come first, in order of nonincreasing score; the empty
/// slots follow.
pub open spec fn topk_sorted(items: Seq<Option<Scored>>) -> bool {
    forall|i: int, j: int|
        0 <= i < j < items.len() && (#[trigger] items[j]) is Some ==> (#[trigger] items[i]) is Some
            && items[i].unwrap().1 >= items[j].unwrap().1
}

proof fn lemma_slot_from(items: Seq<Option<Scored>>, score: i32, i: int)
    requires
        0 <= i <= items.len(),
    ensures
        i <= slot_from(items, score, i) <= items.len(),
        forall|k: int|
            i <= k < slot_from(items, score, i) ==> (#[trigger] items[k]) is Some && score
                <= items[k].unwrap().1,
        slot_from(items, score, i) < items.len() ==> match items[slot_from(items, score, i)] {
            Some(e) => score > e.1,
            None => true,
        },
    decreases items.len() - i,
{
    if i < items.len() {
        lemma_slot_from(items, score, i + 1);
    }
}

/// Inserting into a sorted reducer keeps it sorted and keeps its size.
pub proof fn lemma_insert_sorted(items: Seq<Option<Scored>>, item: Scored)
    requires
        topk_sorted(items),
    ensures
        topk_insert(items, item).len() == items.len(),
        topk_sorted(topk_insert(items, item)),
{
    let p = slot_from(items, item.1, 0);
    lemma_slot_from(items, item.1, 0);
    if p < items.len() {
        let r = topk_insert(items, item);
        assert(r.len() == items.len());
        assert forall|k: int| 0 <= k < r.len() implies #[trigger] r[k] == (if k < p {
            items[k]
        } else if k == p {
            Some(item)
        } else {
            items[k - 1]
        }) by {}
        assert forall|i: int, j: int|
            0 <= i < j < r.len() && (#[trigger] r[j]) is Some implies (#[trigger] r[i]) is Some
                && r[i].unwrap().1 >= r[j].unwrap().1 by {
            if j < p {
                assert(items[j] is Some);
            } else if j == p {
            } else if i < p {
                assert(items[j - 1] is Some);
            } else if i == p {
                assert(items[j - 1] is Some);
                assert(items[p] is Some);
            } else {
                assert(items[j - 1] is Some);
                assert(items[i - 1] is Some);
            }
        }
    }
}

/// In a sorted reducer with at least one slot, an item is taken in exactly
/// when a slot is empty or it scores strictly above the last item kept; what
/// drops out then is the last item.
pub proof fn lemma_insert_taken(items: Seq<Option<Scored>>, item: Scored)
    requires
        topk_sorted(items),
        items.len() > 0,
    ensures
        (slot_from(items, item.1, 0) < items.len()) <==> (items.last() is None || item.1
            > items.last().unwrap().1),
{
    let n = items.len() as int;
    lemma_slot_from(items, item.1, 0);
    let p = slot_from(items, item.1, 0);
    if p < n {
        if items.last() is Some {
            assert(items[p] is Some);
            if p < n - 1 {
                assert(items[p].unwrap().1 >= items[n - 1].unwrap().1);
            }
        }
    } else {
        assert(items[n - 1] is Some);
    }
}

/// The first position from `i` in the list `l` whose score is strictly below
/// `score` (`l.len()` when there is none): in a list sorted by nonincreasing
/// score, the place right after the last entry scoring at least `score`.
pub open spec fn first_below(l: Seq<Scored>, score: i32, i: int) -> int
    decreases l.len() - i,
{
    if i < 0 || i >= l.len() {
        l.len() as int
    } else if score > l[i].1 {
        i
    } else {
        first_below(l, score, i + 1)
    }
}

/// The list `l` with `item` placed right after the last entry scoring at
/// least as much as it.
pub open spec fn insert_after_ties(l: Seq<Scored>, item: Scored) -> Seq<Scored> {
    let p = first_below(l, item.1, 0);
    l.take(p).push(item) + l.skip(p)
}

/// The first `n` slots of `items` hold items, listed.
pub open spec fn present_items(items: Seq<Option<Scored>>, n: int) -> Seq<Scored> {
    Seq::new(n as nat, |i: int| items[i].unwrap())
}

proof fn lemma_slot_from_first_below(items: Seq<Option<Scored>>, n: int, score: i32, i: int)
    requires
        0 <= i <= n <= items.len(),
        forall|k: int| 0 <= k < n ==> (#[trigger] items[k]) is Some,
        forall|k: int| n <= k < items.len() ==> (#[trigger] items[k]) is None,
    ensures
        slot_from(items, score, i) == (if first_below(present_items(items, n), score, i) < n {
            first_below(present_items(items, n), score, i)
        } else if n < items.len() {
            n
        } else {
            items.len() as int
        }),
    decreases n - i,
{
    if i < n {
        lemma_slot_from_first_below(items, n, score, i + 1);
        assert(present_items(items, n)[i] == items[i].unwrap());
    }
}

/// Inserting into a reducer whose `n` items come first, sorted by
/// nonincreasing score: the items afterwards are the first `min(K, n + 1)` of
/// the old list with the new item placed right after the last entry scoring
/// at least as much; so the `K` highest scores seen are kept, in order, and
/// the slots after them stay empty.
pub proof fn lemma_insert_keeps_highest(items: Seq<Option<Scored>>, item: Scored, n: int)
    requires
        topk_sorted(items),
        0 <= n <= items.len(),
        forall|k: int| 0 <= k < n ==> (#[trigger] items[k]) is Some,
        forall|k: int| n <= k < items.len() ==> (#[trigger] items[k]) is None,
    ensures
        topk_insert(items, item).len() == items.len(),
        forall|i: int|
            0 <= i < items.len() ==> #[trigger] topk_insert(items, item)[i] == (if i < n + 1 {
                Some(insert_after_ties(present_items(items, n), item)[i])
            } else {
                None::<Scored>
            }),
{
    let l = present_items(items, n);
    let p = slot_from(items, item.1, 0);
    lemma_slot_from(items, item.1, 0);
    lemma_slot_from_first_below(items, n, item.1, 0);
    let q = first_below(l, item.1, 0);
    let big = insert_after_ties(l, item);
    assert(q <= n) by {
        lemma_first_below_bound(l, item.1, 0);
    }
    assert(big.len() == n + 1);
    let r = topk_insert(items, item);
    if p < items.len() {
        assert(p == q);
        assert forall|i: int| 0 <= i < items.len() implies #[trigger] r[i] == (if i < n + 1 {
            Some(big[i])
        } else {
            None::<Scored>
        }) by {
            if i < p {
                assert(r[i] == items[i]);
                assert(big[i] == l[i]);
            } else if i == p {
                assert(big[i] == item);
            } else {
                assert(r[i] == items[i - 1]);
                if i < n + 1 {
                    assert(big[i] == l[i - 1]);
                }
            }
        }
    } else {
        assert(n == items.len());
        assert(q == n);
        assert forall|i: int| 0 <= i < items.len() implies #[trigger] r[i] == (if i < n + 1 {
            Some(big[i])
        } else {
            None::<Scored>
        }) by {
            assert(big[i] == l[i]);
        }
    }
}

proof fn lemma_first_below_bound(l: Seq<Scored>, score: i32, i: int)
    requires
        0 <= i <= l.len(),
    ensures
        i <= first_below(l, score, i) <= l.len(),
    decreases l.len() - i,
{
    if i < l.len() {
        lemma_first_below_bound(l, score, i + 1);
    }
}

proof fn lemma_merge_sorted(a: Seq<Option<Scored>>, b: Seq<Option<Scored>>)
    requires
        topk_sorted(a),
    ensures
        topk_merge(a, b).len() == a.len(),
        topk_sorted(topk_merge(a, b)),
    decreases b.len(),
{
    if b.len() > 0 {
        lemma_merge_sorted(a, b.drop_last());
        match b.last() {
            Some(e) => lemma_insert_sorted(topk_merge(a, b.drop_last()), e),
            None => {},
        }
    }
}

/// Merging keeps a sorted reducer sorted, whatever is merged into it.
pub proof fn lemma_merge_keeps_sorted(a: Seq<Option<Scored>>, b: Seq<Option<Scored>>)
    requires
        topk_sorted(a),
    ensures
        topk_merge(a, b).len() == a.len(),
        topk_sorted(topk_merge(a, b)),
{
    lemma_merge_sorted(a, b);
}

proof fn lemma_merge_into_empty_prefix(a: Seq<Option<Scored>>, b: Seq<Option<Scored>>, k: int)
    requires
        topk_sorted(b),
        a.len() == b.len(),
        forall|i: int| 0 <= i < a.len() ==> (#[trigger] a[i]) is None,
        0 <= k <= b.len(),
    ensures
        forall|i: int|
            0 <= i < b.len() ==> #[trigger] topk_merge(a, b.take(k))[i] == (if i < k {
                b[i]
            } else {
                None
            }),
        topk_merge(a, b.take(k)).len() == b.len(),
    decreases k,
{
    if k == 0 {
        assert(b.take(0) =~= Seq::<Option<Scored>>::empty());
    } else {
        lemma_merge_into_empty_prefix(a, b, k - 1);
        assert(b.take(k).drop_last() =~= b.take(k - 1));
        let prev = topk_merge(a, b.take(k - 1));
        match b[k - 1] {
            Some(e) => {
                lemma_slot_from(prev, e.1, 0);
                let p = slot_from(prev, e.1, 0);
                if p < k - 1 {
                    assert(b[k - 1] is Some);
                    assert(b[p] is Some);
                    assert(prev[p] == b[p]);
                    assert(e.1 > b[p].unwrap().1);
                    assert(b[p].unwrap().1 >= b[k - 1].unwrap().1);
                }
                assert(prev[k - 1] is None);
                if p > k - 1 {
                    assert(prev[k - 1] is Some);
                }
                assert(p == k - 1);
            },
            None => {
                assert forall|i: int| 0 <= i < b.len() implies #[trigger] prev[i] == (if i < k {
                    b[i]
                } else {
                    None
                }) by {
                    if k - 1 < i < b.len() && b[i] is Some {
                        assert(b[k - 1] is Some);
                    }
                }
            },
        }
    }
}

/// Merging a sorted reducer into an empty one of the same size gives it back.
pub proof fn lemma_merge_into_empty(a: Seq<Option<Scored>>, b: Seq<Option<Scored>>)
    requires
        topk_sorted(b),
        a.len() == b.len(),
        forall|i: int| 0 <= i < a.len() ==> (#[trigger] a[i]) is None,
    ensures
        topk_merge(a, b) == b,
{
    lemma_merge_into_empty_prefix(a, b, b.len() as int);
    assert(b.take(b.len() as int) =~= b);
    assert(topk_merge(a, b) =~= b);
}

/// Merging inserts the present items of the merged slots one by one, in slot
/// order: merging nothing changes nothing, merging one present item is inserting
/// it, an empty slot adds nothing, and merging `b1` then `b2` is merging `b1 + b2`.
pub proof fn lemma_merge_inserts_in_order(
    a: Seq<Option<Scored>>,
    b1: Seq<Option<Scored>>,
    b2: Seq<Option<Scored>>,
    e: Scored,
)
    ensures
        topk_merge(a, Seq::empty()) == a,
        topk_merge(a, seq![Some(e)]) == topk_insert(a, e),
        topk_merge(a, seq![None]) == a,
        topk_merge(a, b1 + b2) == topk_merge(topk_merge(a, b1), b2),
    decreases b2.len(),
{
    assert(seq![Some(e)].drop_last() =~= Seq::<Option<Scored>>::empty());
    assert(seq![None::<Scored>].drop_last() =~= Seq::<Option<Scored>>::empty());
    assert(topk_merge(a, Seq::<Option<Scored>>::empty()) == a);
    assert(seq![Some(e)].last() == Some(e));
    assert(seq![None::<Scored>].last() == None::<Scored>);
    if b2.len() == 0 {
        assert(b1 + b2 =~= b1);
    } else {
        assert((b1 + b2).drop_last() =~= b1 + b2.drop_last());
        assert((b1 + b2).last() == b2.last());
        lemma_merge_inserts_in_order(a, b1, b2.drop_last(), e);
    }
}

/// Where [`insert_after_ties`] puts the new item: after every leading entry that
/// scores at least as much, before the first that scores less, the entries keeping
/// their order around it.
pub proof fn lemma_insert_after_ties_place(l: Seq<Scored>, item: Scored)
    ensures
        insert_after_ties(l, item).len() == l.len() + 1,
        exists|p: int|
            0 <= p <= l.len() && insert_after_ties(l, item)[p] == item && (forall|i: int|
                0 <= i < p ==> #[trigger] insert_after_ties(l, item)[i] == l[i] && l[i].1 >= item.1) && (
            forall|i: int| p < i <= l.len() ==> #[trigger] insert_after_ties(l, item)[i] == l[i - 1]) && (p
                < l.len() ==> l[p].1 < item.1),
{
    let p = first_below(l, item.1, 0);
    lemma_first_below_facts(l, item.1, 0);
    let r = insert_after_ties(l, item);
    assert(r[p] == item);
    assert forall|i: int| 0 <= i < p implies #[trigger] r[i] == l[i] && l[i].1 >= item.1 by {}
    assert forall|i: int| p < i <= l.len() implies #[trigger] r[i] == l[i - 1] by {}
}

proof fn lemma_first_below_facts(l: Seq<Scored>, score: i32, i: int)
    requires
        0 <= i <= l.len(),
    ensures
        i <= first_below(l, score, i) <= l.len(),
        forall|k: int| i <= k < first_below(l, score, i) ==> (#[trigger] l[k]).1 >= score,
        first_below(l, score, i) < l.len() ==> l[first_below(l, score, i)].1 < score,
    decreases l.len() - i,
{
    if i < l.len() {
        lemma_first_below_facts(l, score, i + 1);
    }
}

/// Zero-allocation Top-K reducer.
/// Designed for high-performance, no_std map-reduce tasks (e.g. Rayon parallelism).
#[derive(Clone, Copy, Debug)]
pub struct TopK<const K: usize> {
    pub items: [Option<(usize, i32)>; K],
}

impl<const K: usize> Default for TopK<K> {
    fn default() -> (r: Self)
        ensures
            forall|i: int| 0 <= i < K ==> (#[trigger] r.items@[i]) is None,
    {
        Self::new()
    }
}

impl<const K: usize> TopK<K> {
    /// An empty reducer: every slot is empty.
    pub fn new() -> (r: Self)
        ensures
            r.items@.len() == K,
            forall|i: int| 0 <= i < K ==> (#[trigger] r.items@[i]) is None,
    {
        Self { items: [None; K] }
    }

    /// Add a new item to the TopK structure, maintaining the top K elements.
    pub fn insert(self, item: (usize, i32)) -> (r: Self)
        ensures
            r.items@ == topk_insert(self.items@, item),
    {
        let mut s = self;
        let score = item.1;
        let mut idx: usize = 0;
        while idx < K
            invariant
                idx <= K,
                s == self,
                slot_from(self.items@, score, 0) == slot_from(self.items@, score, idx as int),
            ensures
                idx <= K,
                s == self,
                slot_from(self.items@, score, 0) == idx,
            decreases K - idx,
        {
            let stop = match s.items[idx] {
                Some(existing) => score > existing.1,
                None => true,
            };
            if stop {
                break;
            }
            idx += 1;
        }
        if idx < K {
            let mut j: usize = K - 1;
            while j > idx
                invariant
                    idx <= j < K,
                    s.items@.len() == K,
                    forall|m: int| 0 <= m <= j ==> #[trigger] s.items@[m] == self.items@[m],
                    forall|m: int| j < m < K ==> #[trigger] s.items@[m] == self.items@[m - 1],
                decreases j,
            {
                s.items[j] = s.items[j - 1];
                j -= 1;
            }
            s.items[idx] = Some(item);
            proof {
                assert(s.items@ =~= topk_insert(self.items@, item));
            }
        }
        s
    }

    /// Merge another TopK structure into this one.
    pub fn merge(self, other: Self) -> (r: Self)
        ensures
            r.items@ == topk_merge(self.items@, other.items@),
    {
        let mut merged = self;
        let mut k: usize = 0;
        proof {
            assert(other.items@.take(0) =~= Seq::<Option<Scored>>::empty());
        }
        while k < K
            invariant
                k <= K,
                merged.items@ == topk_merge(self.items@, other.items@.take(k as int)),
            decreases K - k,
        {
            proof {
                assert(other.items@.take(k + 1).drop_last() =~= other.items@.take(k as int));
            }
            match other.items[k] {
                Some(e) => {
                    merged = merged.insert(e);
                },
                None => {},
            }
            k += 1;
        }
        proof {
            assert(other.items@.take(K as int) =~= other.items@);
        }
        merged
    }
}

} // verus!
