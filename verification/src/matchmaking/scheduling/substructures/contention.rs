//! Substructure for scheduler contention mechanics.

use vstd::prelude::*;

use crate::matchmaking::scheduling::states::Contended;
use crate::matchmaking::utils::{clipped_range, visible_len, window_lo};

verus! {

/// The contended tickets of the buckets `lists[start..end]`, bucket by bucket.
pub open spec fn contenders_in(lists: Seq<Seq<Contended>>, start: int, end: int) -> Seq<Contended> {
    if start < end {
        lists.subrange(start, end).flatten()
    } else {
        Seq::empty()
    }
}

/// A sequence of empty lists flattens to nothing.
pub proof fn lemma_flatten_empties<A>(lists: Seq<Seq<A>>)
    requires
        forall|i: int| 0 <= i < lists.len() ==> (#[trigger] lists[i]).len() == 0,
    ensures
        lists.flatten().len() == 0,
    decreases lists.len(),
{
    if lists.len() > 0 {
        lemma_flatten_empties(lists.drop_first());
    }
}

/// Splitting a sequence of lists at `start` and `end` splits its flattening.
pub proof fn lemma_flatten_split<A>(lists: Seq<Seq<A>>, start: int, end: int)
    requires
        0 <= start <= end <= lists.len(),
    ensures
        lists.flatten() == lists.subrange(0, start).flatten() + lists.subrange(start, end).flatten()
            + lists.subrange(end, lists.len() as int).flatten(),
        lists.flatten().len() == lists.subrange(0, start).flatten().len() + lists.subrange(start, end).flatten().len()
            + lists.subrange(end, lists.len() as int).flatten().len(),
{
    let a = lists.subrange(0, start);
    let b = lists.subrange(start, end);
    let c = lists.subrange(end, lists.len() as int);
    assert(lists =~= a + b + c);
    vstd::seq_lib::lemma_flatten_concat(a + b, c);
    vstd::seq_lib::lemma_flatten_concat(a, b);
}

/// Every item of a flattening satisfies what every item of every list does.
pub proof fn lemma_flatten_all<A>(lists: Seq<Seq<A>>, p: spec_fn(A) -> bool)
    requires
        forall|i: int, j: int| 0 <= i < lists.len() && 0 <= j < lists[i].len() ==> p(#[trigger] lists[i][j]),
    ensures
        forall|k: int| 0 <= k < lists.flatten().len() ==> p(#[trigger] lists.flatten()[k]),
    decreases lists.len(),
{
    if lists.len() > 0 {
        let rest = lists.drop_first();
        assert forall|i: int, j: int| 0 <= i < rest.len() && 0 <= j < rest[i].len() implies p(#[trigger] rest[i][j]) by {
            assert(rest[i] == lists[i + 1]);
        }
        lemma_flatten_all(rest, p);
        assert forall|k: int| 0 <= k < lists.flatten().len() implies p(#[trigger] lists.flatten()[k]) by {
            if k < lists[0].len() {
                assert(lists.flatten()[k] == lists[0][k]);
            } else {
                assert(lists.flatten()[k] == rest.flatten()[k - lists[0].len()]);
            }
        }
    }
}

/// Per bucket, the tickets waiting for that bucket's lease to be released.
pub struct Contention {
    contenders: Vec<Vec<Contended>>,
}

impl View for Contention {
    type V = Seq<Seq<Contended>>;

    closed spec fn view(&self) -> Seq<Seq<Contended>> {
        Seq::new(self.contenders@.len(), |i: int| self.contenders@[i]@)
    }
}

impl Contention {
    pub fn new(bucket_count: usize) -> (c: Contention)
        ensures
            c@.len() == bucket_count,
            forall|i: int| 0 <= i < bucket_count ==> (#[trigger] c@[i]).len() == 0,
    {
        let mut contenders: Vec<Vec<Contended>> = Vec::with_capacity(bucket_count);
        let mut i: usize = 0;
        while i < bucket_count
            invariant
                i <= bucket_count,
                contenders@.len() == i,
                forall|j: int| 0 <= j < i ==> (#[trigger] contenders@[j])@.len() == 0,
            decreases bucket_count - i,
        {
            contenders.push(Vec::new());
            i = i + 1;
        }
        Contention { contenders }
    }

    /// Queues `contended` behind the bucket it found leased out.
    pub fn contend_ticket(&mut self, contended: Contended, contended_bucket_index: usize)
        requires
            contended_bucket_index < old(self)@.len(),
        ensures
            final(self)@ == old(self)@.update(
                contended_bucket_index as int,
                old(self)@[contended_bucket_index as int].push(contended),
            ),
            final(self)@.flatten().len() == old(self)@.flatten().len() + 1,
    {
        let ghost old_view = self@;
        let mut list: Vec<Contended> = Vec::new();
        std::mem::swap(&mut list, &mut self.contenders[contended_bucket_index]);
        list.push(contended);
        std::mem::swap(&mut list, &mut self.contenders[contended_bucket_index]);
        proof {
            let i = contended_bucket_index as int;
            assert(self@ =~= old_view.update(i, old_view[i].push(contended)));
            lemma_flatten_split(old_view, i, i + 1);
            lemma_flatten_split(self@, i, i + 1);
            assert(self@.subrange(0, i) =~= old_view.subrange(0, i));
            assert(self@.subrange(i + 1, old_view.len() as int) =~= old_view.subrange(i + 1, old_view.len() as int));
            old_view.subrange(i, i + 1).lemma_flatten_one_element();
            self@.subrange(i, i + 1).lemma_flatten_one_element();
        }
    }

    /// Takes out every ticket contending for a bucket of the window anchored at
    /// `base` with reach `limit`, bucket by bucket in index order.
    pub fn flush_contenders(&mut self, base: usize, limit: usize) -> (flushed: Vec<Contended>)
        requires
            base <= i32::MAX,
            limit <= i32::MAX,
        ensures
            ({
                let start = window_lo(base as int, limit as int);
                let end = start + visible_len(old(self)@.len() as int, base as int, limit as int);
                &&& flushed@ == contenders_in(old(self)@, start, end)
                &&& final(self)@.flatten().len() == old(self)@.flatten().len() - flushed@.len()
                &&& final(self)@.len() == old(self)@.len()
                &&& forall|i: int|
                    0 <= i < old(self)@.len() ==> #[trigger] final(self)@[i] == (if start <= i < end {
                        Seq::<Contended>::empty()
                    } else {
                        old(self)@[i]
                    })
            }),
    {
        let ghost old_view = self@;
        let (start, end) = clipped_range(self.contenders.len(), base, limit);
        let mut flushed: Vec<Contended> = Vec::new();
        let mut i: usize = start;
        while i < end
            invariant
                start <= i <= end <= old_view.len(),
                self@.len() == old_view.len(),
                flushed@ == contenders_in(old_view, start as int, i as int),
                forall|j: int|
                    0 <= j < old_view.len() ==> #[trigger] self@[j] == (if start <= j < i {
                        Seq::<Contended>::empty()
                    } else {
                        old_view[j]
                    }),
            decreases end - i,
        {
            let mut list: Vec<Contended> = Vec::new();
            let ghost before = self@;
            proof { assert(before[i as int] == old_view[i as int]); }
            std::mem::swap(&mut list, &mut self.contenders[i]);
            proof {
                assert(list@ == before[i as int]);
                if i == start {
                    assert(old_view.subrange(start as int, i as int) =~= Seq::<Seq<Contended>>::empty());
                }
                assert(old_view.subrange(start as int, i + 1) =~= old_view.subrange(start as int, i as int).push(old_view[i as int]));
                old_view.subrange(start as int, i as int).lemma_flatten_push(old_view[i as int]);
            }
            flushed.append(&mut list);
            i = i + 1;
            proof {
                assert forall|j: int| 0 <= j < old_view.len() implies #[trigger] self@[j] == (if start <= j < i {
                    Seq::<Contended>::empty()
                } else {
                    old_view[j]
                }) by {
                    if j != i - 1 {
                        assert(self@[j] == before[j]);
                    }
                }
            }
        }
        proof {
            if start < end {
                lemma_flatten_split(old_view, start as int, end as int);
                lemma_flatten_split(self@, start as int, end as int);
                assert(self@.subrange(0, start as int) =~= old_view.subrange(0, start as int));
                assert(self@.subrange(end as int, old_view.len() as int) =~= old_view.subrange(end as int, old_view.len() as int));
                lemma_flatten_empties(self@.subrange(start as int, end as int));
            } else {
                assert(self@ =~= old_view);
            }
        }
        flushed
    }

    /// Number of contending tickets, over all buckets (saturating at
    /// `usize::MAX`).
    pub fn count(&self) -> (n: usize)
        ensures
            n == (if self@.flatten().len() <= usize::MAX { self@.flatten().len() as int } else { usize::MAX as int }),
    {
        let ghost lists = self@;
        let mut total: usize = 0;
        let mut i: usize = 0;
        while i < self.contenders.len()
            invariant
                i <= self.contenders@.len(),
                lists == self@,
                total == (if lists.subrange(0, i as int).flatten().len() <= usize::MAX {
                    lists.subrange(0, i as int).flatten().len() as int
                } else {
                    usize::MAX as int
                }),
            decreases self.contenders@.len() - i,
        {
            proof {
                assert(lists.subrange(0, i + 1) =~= lists.subrange(0, i as int).push(lists[i as int]));
                lists.subrange(0, i as int).lemma_flatten_push(lists[i as int]);
            }
            total = total.saturating_add(self.contenders[i].len());
            i = i + 1;
        }
        proof { assert(lists.subrange(0, lists.len() as int) =~= lists); }
        total
    }

    /// Per bucket, the anchors of the tickets contending for it.
    pub fn scan(&self) -> (view: Vec<Vec<usize>>)
        ensures
            view@.len() == self@.len(),
            forall|i: int|
                0 <= i < self@.len() ==> (#[trigger] view@[i])@ == self@[i].map_values(
                    |c: Contended| c.ticket_view().anchor,
                ),
    {
        let mut view: Vec<Vec<usize>> = Vec::with_capacity(self.contenders.len());
        let mut i: usize = 0;
        while i < self.contenders.len()
            invariant
                i <= self.contenders@.len(),
                view@.len() == i,
                forall|j: int|
                    0 <= j < i ==> (#[trigger] view@[j])@ == self@[j].map_values(
                        |c: Contended| c.ticket_view().anchor,
                    ),
            decreases self.contenders@.len() - i,
        {
            let list = &self.contenders[i];
            let mut anchors: Vec<usize> = Vec::with_capacity(list.len());
            let mut k: usize = 0;
            while k < list.len()
                invariant
                    k <= list@.len(),
                    list@ == self@[i as int],
                    anchors@.len() == k,
                    forall|m: int| 0 <= m < k ==> #[trigger] anchors@[m] == list@[m].ticket_view().anchor,
                decreases list@.len() - k,
            {
                anchors.push(list[k].ticket().anchor_bucket_index());
                k = k + 1;
            }
            proof {
                assert(anchors@ =~= self@[i as int].map_values(|c: Contended| c.ticket_view().anchor));
            }
            view.push(anchors);
            i = i + 1;
        }
        view
    }
}

} // verus!
