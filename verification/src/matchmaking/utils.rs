//! Offset-indexed windows over fixed-length containers.

use vstd::prelude::*;
use vstd::std_specs::iter::IteratorSpec;

use std::time::{Duration, SystemTime, UNIX_EPOCH};

verus! {

#[verifier::external_type_specification]
#[verifier::external_body]
pub struct ExSystemTime(SystemTime);

/// `SystemTime::now`: the current wall-clock time. It depends on the machine's
/// clock, so nothing is promised of it.
#[verifier::external_body]
fn system_time_now() -> SystemTime {
    SystemTime::now()
}

/// `SystemTime::duration_since` the Unix epoch, `None` for a time before it.
/// It depends on the clock reading passed in, so nothing is promised of it.
#[verifier::external_body]
fn since_unix_epoch(time: SystemTime) -> Option<Duration> {
    time.duration_since(UNIX_EPOCH).ok()
}

/// `Duration::as_nanos`. Nothing is promised of it: the durations it is
/// applied to are clock readings.
#[verifier::external_body]
fn duration_as_nanos(duration: Duration) -> u128 {
    duration.as_nanos()
}

/// The current time in nanoseconds since the Unix epoch (0 for a clock set
/// before the epoch, `u64::MAX` past the year 2554).
pub fn now() -> u64 {
    match since_unix_epoch(system_time_now()) {
        Some(elapsed) => {
            let nanos = duration_as_nanos(elapsed);
            if nanos <= u64::MAX as u128 {
                nanos as u64
            } else {
                u64::MAX
            }
        },
        None => 0,
    }
}

/// Abstract contents of an offset-indexed window: the window admits offsets
/// in `[-limit, limit]`, and the items it actually holds sit at the contiguous
/// offsets `first, first + 1, ..., first + items.len() - 1`.
pub struct OffsetView<T> {
    pub limit: int,
    pub first: int,
    pub items: Seq<T>,
}

impl<T> OffsetView<T> {
    pub open spec fn covers(self, offset: int) -> bool {
        self.first <= offset < self.first + self.items.len()
    }

    pub open spec fn get(self, offset: int) -> Option<T> {
        if self.covers(offset) {
            Some(self.items[offset - self.first])
        } else {
            None
        }
    }

    /// Every held item lies inside the admitted offsets.
    pub open spec fn wf(self) -> bool {
        &&& self.limit >= 0
        &&& self.items.len() > 0 ==> -self.limit <= self.first && self.first + self.items.len()
            <= self.limit + 1
    }
}

pub open spec fn spec_max(a: int, b: int) -> int {
    if a >= b {
        a
    } else {
        b
    }
}

pub open spec fn spec_min(a: int, b: int) -> int {
    if a <= b {
        a
    } else {
        b
    }
}

/// Left edge (inclusive) of the part of a container of length `len` seen by
/// a window anchored at `base` with reach `limit`.
pub open spec fn window_lo(base: int, limit: int) -> int {
    spec_max(base - limit, 0)
}

/// Right edge (exclusive) of that part.
pub open spec fn window_hi(len: int, base: int, limit: int) -> int {
    spec_min(len, base + limit + 1)
}

/// The window anchored at index `base` of `items`, reaching `limit` indices
/// to either side, clipped to the container.
pub open spec fn clipped_window<T>(items: Seq<T>, base: int, limit: int) -> OffsetView<T> {
    let lo = window_lo(base, limit);
    let hi = window_hi(items.len() as int, base, limit);
    OffsetView {
        limit,
        first: lo - base,
        items: if lo < hi {
            items.subrange(lo, hi)
        } else {
            Seq::empty()
        },
    }
}

pub proof fn lemma_clipped_window_get<T>(items: Seq<T>, base: int, limit: int, offset: int)
    requires
        limit >= 0,
    ensures
        clipped_window(items, base, limit).wf(),
        clipped_window(items, base, limit).get(offset) == (if window_holds(items.len() as int, base, limit, offset) {
            Some(items[base + offset])
        } else {
            None
        }),
{
}

/// Bounds of the materialised part of a container, computed for a window.
struct MaterialisedBounds {
    start: usize,
    end_exclusive: usize,
    base: i32,
}

impl MaterialisedBounds {
    fn len(&self) -> (n: usize)
        ensures
            n == (if self.start <= self.end_exclusive {
                self.end_exclusive - self.start
            } else {
                0
            }),
    {
        self.end_exclusive.saturating_sub(self.start)
    }
}

fn materialised_bounds(container_len: usize, base: i32, limit: i32) -> (b: MaterialisedBounds)
    requires
        base >= 0,
        limit >= 0,
    ensures
        b.start == window_lo(base as int, limit as int),
        b.end_exclusive == window_hi(container_len as int, base as int, limit as int),
        b.base == base - b.start,
        0 <= b.base <= limit,
        b.base <= base,
{
    let base = base as usize;
    let limit = limit as usize;
    let start = base.saturating_sub(limit);
    let unclipped_end_exclusive = base.saturating_add(limit).saturating_add(1);
    let end_exclusive = if container_len < unclipped_end_exclusive {
        container_len
    } else {
        unclipped_end_exclusive
    };
    MaterialisedBounds { start, end_exclusive, base: (base - start) as i32 }
}

/// Bidirectional symmetric limit offset-indexed fixed-length container.
pub struct OffsetIndexedSlice<T> {
    container: Vec<T>,
    base: i32,
    limit: i32,
}

impl<T> View for OffsetIndexedSlice<T> {
    type V = OffsetView<T>;

    closed spec fn view(&self) -> OffsetView<T> {
        clipped_window(self.container@, self.base as int, self.limit as int)
    }
}

impl<T> OffsetIndexedSlice<T> {
    #[verifier::type_invariant]
    spec fn inv(self) -> bool {
        self.limit >= 0
    }

    /// The container index that offset 0 refers to.
    /// The whole container, the entries outside the window included.
    pub closed spec fn contents(&self) -> Seq<T> {
        self.container@
    }

    pub closed spec fn base(&self) -> int {
        self.base as int
    }

    fn materialised_bounds(&self) -> (b: MaterialisedBounds)
        requires
            self.base() >= 0,
        ensures
            b.start == window_lo(self.base as int, self.limit as int),
            b.end_exclusive == window_hi(self.container.len() as int, self.base as int, self.limit as int),
            b.base == self.base - b.start,
            0 <= b.base <= self.limit,
    {
        proof { use_type_invariant(self); }
        materialised_bounds(self.container.len(), self.base, self.limit)
    }

    /// The container range `[start, end)` holding the window's items, and the
    /// anchor that the window gets once its container is trimmed to that range.
    fn visible_bounds(&self) -> (r: (usize, usize, i32))
        requires
            self.base() >= 0,
        ensures
            r.0 <= r.1 <= self.container@.len(),
            self@.items == self.container@.subrange(r.0 as int, r.1 as int),
            r.2 >= 0,
            r.2 == self.base - window_lo(self.base as int, self.limit as int),
            r.1 - r.0 == visible_len(self.container@.len() as int, self.base as int, self.limit as int),
            r.0 < r.1 ==> r.0 == window_lo(self.base as int, self.limit as int),
    {
        proof { use_type_invariant(self); }
        let r = visible_range(self.container.len(), self.base, self.limit);
        proof {
            if r.0 == r.1 {
                assert(self@.items =~= self.container@.subrange(r.0 as int, r.1 as int));
            }
        }
        r
    }

    pub fn new(container: Box<[T]>, base: usize, limit: usize) -> (s: OffsetIndexedSlice<T>)
        requires
            base <= i32::MAX,
            limit <= i32::MAX,
        ensures
            s@ == clipped_window(container@, base as int, limit as int),
            s@.wf(),
            s.base() == base,
    {
        let container = container.into_vec();
        proof { lemma_view_wf(container@, base as int, limit as int); }
        OffsetIndexedSlice { container, base: base as i32, limit: limit as i32 }
    }

    pub fn get_offset(&self, offset: i32) -> (r: Option<&T>)
        ensures
            match r {
                Some(x) => self@.get(offset as int) == Some(*x),
                None => self@.get(offset as int) is None,
            },
            self@.wf(),
            offset < -self@.limit || offset > self@.limit ==> r is None,
    {
        proof {
            use_type_invariant(self);
            lemma_view_wf(self.container@, self.base as int, self.limit as int);
            lemma_clipped_window_get(self.container@, self.base as int, self.limit as int, offset as int);
        }
        let off = offset as i64;
        let lim = self.limit as i64;
        if off > lim || off < -lim {
            return None;
        }
        let index = self.base as i64 + off;
        if 0 <= index && (index as usize) < self.container.len() {
            Some(&self.container[index as usize])
        } else {
            None
        }
    }

    pub fn get_offset_mut(&mut self, offset: i32) -> (r: Option<&mut T>)
        ensures
            final(self)@.limit == old(self)@.limit,
            final(self)@.first == old(self)@.first,
            final(self).base() == old(self).base(),
            match r {
                Some(x) => {
                    &&& old(self)@.get(offset as int) == Some(*x)
                    &&& final(self)@.items == old(self)@.items.update(
                        offset - old(self)@.first,
                        *final(x),
                    )
                },
                None => {
                    &&& old(self)@.get(offset as int) is None
                    &&& final(self)@ == old(self)@
                },
            },
        no_unwind
    {
        proof {
            use_type_invariant(&*self);
            lemma_clipped_window_get(self.container@, self.base as int, self.limit as int, offset as int);
        }
        let off = offset as i64;
        let lim = self.limit as i64;
        if off > lim || off < -lim {
            return None;
        }
        let index = self.base as i64 + off;
        if 0 <= index && (index as usize) < self.container.len() {
            Some(&mut self.container[index as usize])
        } else {
            None
        }
    }

    /// Builds the window anchored at `base` of `container`, mapping each visible
    /// item together with its container index.
    pub fn from_slice_map<'a, S, F: Fn(&'a T, usize) -> S>(
        container: &'a [T],
        base: usize,
        limit: usize,
        mapper: F,
    ) -> (r: OffsetIndexedSlice<S>)
        requires
            base <= i32::MAX,
            limit <= i32::MAX,
            forall|i: int|
                window_lo(base as int, limit as int) <= i < window_hi(container@.len() as int, base as int, limit as int)
                    ==> mapper.requires((&container@[i], i as usize)),
        ensures
            r@.limit == limit,
            r@.first == clipped_window(container@, base as int, limit as int).first,
            r@.items.len() == clipped_window(container@, base as int, limit as int).items.len(),
            forall|k: int|
                0 <= k < r@.items.len() ==> mapper.ensures(
                    (&container@[window_lo(base as int, limit as int) + k], (window_lo(base as int, limit as int) + k) as usize),
                    #[trigger] r@.items[k],
                ),
            r@.wf(),
            r.base() >= 0,
    {
        let (start, end, new_base) = visible_range(container.len(), base as i32, limit as i32);
        let ghost w = clipped_window(container@, base as int, limit as int);
        let mut result: Vec<S> = Vec::with_capacity(end - start);
        let mut i: usize = start;
        while i < end
            invariant
                start <= i <= end <= container@.len(),
                start < end ==> start == window_lo(base as int, limit as int),
                end - start == w.items.len(),
                w == clipped_window(container@, base as int, limit as int),
                result@.len() == i - start,
                start < end ==> end == window_hi(container@.len() as int, base as int, limit as int),
                forall|j: int|
                    window_lo(base as int, limit as int) <= j < window_hi(container@.len() as int, base as int, limit as int)
                        ==> mapper.requires((&container@[j], j as usize)),
                forall|k: int|
                    0 <= k < i - start ==> mapper.ensures(
                        (&container@[window_lo(base as int, limit as int) + k], (window_lo(base as int, limit as int) + k) as usize),
                        #[trigger] result@[k],
                    ),
            decreases end - i,
        {
            result.push(mapper(&container[i], i));
            i = i + 1;
        }
        proof {
            lemma_trimmed_window(result@, base as int, limit as int, container@.len() as int);
            lemma_view_wf(result@, new_base as int, limit as int);
        }
        OffsetIndexedSlice { container: result, base: new_base, limit: limit as i32 }
    }

    /// Builds the window anchored at `base` of `container`, mapping each visible
    /// item in place; stops at the first container index whose mapping fails.
    pub fn try_from_slice_map<S, F: Fn(&mut T) -> Option<S>>(
        container: &mut [T],
        base: usize,
        limit: usize,
        mapper: F,
    ) -> (r: Result<OffsetIndexedSlice<S>, usize>)
        requires
            base <= i32::MAX,
            limit <= i32::MAX,
            forall|j: int, x: &mut T|
                #![trigger call_requires(mapper, (x,)), old(container)@[j]]
                window_lo(base as int, limit as int) <= j < window_hi(old(container)@.len() as int, base as int, limit as int)
                    && *x == old(container)@[j] ==> call_requires(mapper, (x,)),
        ensures
            final(container)@.len() == old(container)@.len(),
            match r {
                Ok(s) => {
                    &&& s@.limit == limit
                    &&& forall|k: int|
                        0 <= k < s@.items.len() ==> mapped_to(
                            mapper,
                            old(container)@[window_lo(base as int, limit as int) + k],
                            Some(#[trigger] s@.items[k]),
                        )
                    &&& s@.first == clipped_window(old(container)@, base as int, limit as int).first
                    &&& s@.items.len() == clipped_window(old(container)@, base as int, limit as int).items.len()
                    &&& s@.wf()
                    &&& s.base() >= 0
                    &&& forall|j: int| 0 <= j < old(container)@.len() && !(window_lo(base as int, limit as int) <= j
                        < window_hi(old(container)@.len() as int, base as int, limit as int))
                        ==> final(container)@[j] == old(container)@[j]
                },
                Err(i) => {
                    &&& window_lo(base as int, limit as int) <= i < window_hi(old(container)@.len() as int, base as int, limit as int)
                    &&& mapped_to(mapper, old(container)@[i as int], None::<S>)
                    &&& forall|j: int|
                        window_lo(base as int, limit as int) <= j < i ==> mapped_some(mapper, #[trigger] old(container)@[j])
                    &&& forall|j: int| 0 <= j < old(container)@.len() && !(window_lo(base as int, limit as int) <= j <= i)
                        ==> final(container)@[j] == old(container)@[j]
                },
            },
    {
        let (start, end, new_base) = visible_range(container.len(), base as i32, limit as i32);
        let ghost initial = container@;
        let mut result: Vec<S> = Vec::with_capacity(end - start);
        let mut failed: Option<usize> = None;
        let ghost mut taken: Seq<&mut T> = Seq::empty();
        let ghost mut refused: Option<&mut T> = None;
        let mut i: usize = start;
        while i < end && failed.is_none()
            invariant
                start <= i <= end <= container@.len(),
                container@.len() == initial.len(),
                start < end ==> start == window_lo(base as int, limit as int) && end == window_hi(initial.len() as int, base as int, limit as int),
                end - start == visible_len(initial.len() as int, base as int, limit as int),
                initial == old(container)@,
                forall|j: int, x: &mut T|
                    #![trigger call_requires(mapper, (x,)), initial[j]]
                    window_lo(base as int, limit as int) <= j < window_hi(initial.len() as int, base as int, limit as int)
                        && *x == initial[j] ==> call_requires(mapper, (x,)),
                result@.len() == i - start,
                taken.len() == i - start,
                forall|k: int|
                    0 <= k < taken.len() ==> call_ensures(mapper, (#[trigger] taken[k],), Some(result@[k])) && *taken[k]
                        == initial[start + k],
                match failed {
                    None => {
                        &&& forall|j: int| 0 <= j < initial.len() && !(start <= j < i) ==> container@[j] == initial[j]
                    },
                    Some(f) => {
                        &&& start <= f < end
                        &&& f == i
                        &&& refused matches Some(x) && call_ensures(mapper, (x,), None::<S>) && *x == initial[f as int]
                        &&& forall|j: int| 0 <= j < initial.len() && !(start <= j <= f) ==> container@[j] == initial[j]
                    },
                },
            decreases end - i + (if failed is None { 1int } else { 0int }),
        {
            proof { assert(container@[i as int] == initial[i as int]); }
            let mapped = mapper(&mut container[i]);
            let ghost witness = choose|x: &mut T| call_ensures(mapper, (x,), mapped) && *x == initial[i as int];
            proof {
                assert(exists|x: &mut T| call_ensures(mapper, (x,), mapped) && *x == initial[i as int]);
            }
            match mapped {
                Some(s) => {
                    let ghost r0 = result@;
                    result.push(s);
                    proof {
                        taken = taken.push(witness);
                        assert forall|k: int| 0 <= k < taken.len() implies call_ensures(mapper, (#[trigger] taken[k],), Some(result@[k]))
                            && *taken[k] == initial[start + k] by {
                            if k < r0.len() {
                                assert(result@[k] == r0[k]);
                            }
                        }
                    }
                    i = i + 1;
                },
                None => {
                    proof { refused = Some(witness); }
                    failed = Some(i);
                },
            }
        }
        if let Some(f) = failed {
            proof {
                let x = refused->0;
                assert(call_ensures(mapper, (x,), None::<S>) && *x == old(container)@[f as int]);
                assert(mapped_to(mapper, old(container)@[f as int], None::<S>));
                assert forall|j: int| window_lo(base as int, limit as int) <= j < f implies mapped_some(
                    mapper, #[trigger] old(container)@[j]) by {
                    let k = j - start;
                    assert(call_ensures(mapper, (taken[k],), Some(result@[k])) && *taken[k] == old(container)@[j]);
                    assert(mapped_to(mapper, old(container)@[j], Some(result@[k])));
                }
            }
            return Err(f);
        }
        proof {
            lemma_trimmed_window(result@, base as int, limit as int, initial.len() as int);
            lemma_view_wf(result@, new_base as int, limit as int);
        }
        let r = OffsetIndexedSlice { container: result, base: new_base, limit: limit as i32 };
        proof {
            assert forall|k: int| 0 <= k < r@.items.len() implies mapped_to(
                mapper, old(container)@[window_lo(base as int, limit as int) + k], Some(#[trigger] r@.items[k])) by {
                assert(r@.items[k] == result@[k]);
                assert(call_ensures(mapper, (taken[k],), Some(result@[k])) && *taken[k] == initial[start + k]);
            }
        }
        Ok(r)
    }

    /// A window of mutable references into `container`.
    pub fn new_mut_view<'a>(container: &'a mut [T], base: usize, limit: usize) -> (r: OffsetIndexedSlice<&'a mut T>)
        requires
            base <= i32::MAX,
            limit <= i32::MAX,
        ensures
            r@.limit == limit,
            r@.first == clipped_window(old(container)@, base as int, limit as int).first,
            r@.items.len() == clipped_window(old(container)@, base as int, limit as int).items.len(),
            forall|k: int| 0 <= k < r@.items.len() ==> *#[trigger] r@.items[k] == clipped_window(old(container)@, base as int, limit as int).items[k],
            r@.wf(),
            r.base() >= 0,
            final(container)@.len() == old(container)@.len(),
            forall|j: int|
                0 <= j < old(container)@.len() ==> #[trigger] final(container)@[j] == (if window_lo(base as int, limit as int) <= j
                    < window_hi(old(container)@.len() as int, base as int, limit as int) {
                    *final(r@.items[j - window_lo(base as int, limit as int)])
                } else {
                    old(container)@[j]
                }),
    {
        let (start, end, new_base) = visible_range(container.len(), base as i32, limit as i32);
        let ghost w = clipped_window(container@, base as int, limit as int);
        let ghost initial = container@;
        proof {
            if start < end {
                assert(w.items == container@.subrange(start as int, end as int));
            }
        }
        let (front, rest) = container.split_at_mut(start);
        proof {
            assert(has_resolved(front));
        }
        let mut rest: &'a mut [T] = rest;
        let mut refs: Vec<&'a mut T> = Vec::with_capacity(end - start);
        let mut i: usize = start;
        while i < end
            invariant
                start <= i <= end <= initial.len(),
                end - start == w.items.len(),
                start < end ==> w.items == initial.subrange(start as int, end as int),
                rest@ == initial.subrange(i as int, initial.len() as int),
                refs@.len() == i - start,
                forall|k: int| 0 <= k < i - start ==> *#[trigger] refs@[k] == w.items[k],
                after_borrow(container)@ == initial.subrange(0, start as int) + Seq::new(refs@.len(), |k: int| *final(refs@[k]))
                    + final(rest)@,
            decreases end - i,
        {
            let current = rest;
            let (head, tail) = current.split_at_mut(1);
            let item = head.first_mut().unwrap();
            refs.push(item);
            rest = tail;
            i = i + 1;
        }
        proof {
            lemma_trimmed_window(refs@, base as int, limit as int, initial.len() as int);
            lemma_view_wf(refs@, new_base as int, limit as int);
        }
        OffsetIndexedSlice { container: refs, base: new_base, limit: limit as i32 }
    }

    /// The window anchored at `base` with reach `limit` over a container of
    /// `container_len` items, given the items that it sees, in order.
    pub(crate) fn from_visible(items: Vec<T>, container_len: usize, base: usize, limit: usize) -> (r:
        OffsetIndexedSlice<T>)
        requires
            base <= i32::MAX,
            limit <= i32::MAX,
            items@.len() == visible_len(container_len as int, base as int, limit as int),
        ensures
            r@ == (OffsetView {
                limit: limit as int,
                first: window_lo(base as int, limit as int) - base,
                items: items@,
            }),
            r@.wf(),
            r.base() >= 0,
    {
        let (_start, _end, new_base) = visible_range(container_len, base as i32, limit as i32);
        proof {
            lemma_trimmed_window(items@, base as int, limit as int, container_len as int);
            lemma_view_wf(items@, new_base as int, limit as int);
        }
        OffsetIndexedSlice { container: items, base: new_base, limit: limit as i32 }
    }

    /// The container index that offset 0 refers to.
    pub(crate) fn base_index(&self) -> (b: i32)
        ensures
            b == self.base(),
    {
        self.base
    }

    /// The offset of the first item held, when any is held.
    pub(crate) fn first_offset(&self) -> (f: i64)
        ensures
            self@.items.len() > 0 ==> f == self@.first,
            -(i32::MAX as int) - 1 <= f <= i32::MAX,
            self@.wf(),
            self@.limit <= i32::MAX,
    {
        proof {
            use_type_invariant(self);
            lemma_view_wf(self.container@, self.base as int, self.limit as int);
        }
        let lo = if self.base as i64 - self.limit as i64 >= 0 {
            self.base as i64 - self.limit as i64
        } else {
            0
        };
        let f = lo - self.base as i64;
        if f > i32::MAX as i64 {
            i32::MAX as i64
        } else {
            f
        }
    }

    /// Pairs up the items of two windows held at the same offsets.
    #[verifier::rlimit(40)]
    pub fn zip<U>(self, other: OffsetIndexedSlice<U>) -> (r: OffsetIndexedSlice<(T, U)>)
        ensures
            r@.limit == spec_min(self@.limit, other@.limit),
            forall|offset: int| #[trigger] r@.get(offset) == zipped_at(self@, other@, offset),
            r@.wf(),
            r@.items.len() > 0 ==> r.base() == -r@.first,
    {
        proof {
            use_type_invariant(&self);
            use_type_invariant(&other);
        }
        let limit = if self.limit <= other.limit { self.limit } else { other.limit };
        let ghost left = self@;
        let ghost right = other@;
        // Container index ranges seen by each window, as offsets.
        let (a_lo, a_hi) = offset_range(self.container.len(), self.base, self.limit);
        let (b_lo, b_hi) = offset_range(other.container.len(), other.base, other.limit);
        let lo = if a_lo >= b_lo { a_lo } else { b_lo };
        let hi = if a_hi <= b_hi { a_hi } else { b_hi };
        if lo >= hi {
            proof {
                assert forall|offset: int| #[trigger] clipped_window(Seq::<(T, U)>::empty(), 0, limit as int).get(offset) == zipped_at(left, right, offset) by {
                    lemma_clipped_window_get(self.container@, self.base as int, self.limit as int, offset);
                    lemma_clipped_window_get(other.container@, other.base as int, other.limit as int, offset);
                }
            }
            return OffsetIndexedSlice { container: Vec::new(), base: 0, limit };
        }
        let self_base = self.base as i64;
        let other_base = other.base as i64;
        let ghost self_items = self.container@;
        let ghost other_items = other.container@;
        let left_part = take_range(self.container, (self_base + lo) as usize, (self_base + hi) as usize);
        let right_part = take_range(other.container, (other_base + lo) as usize, (other_base + hi) as usize);
        let pairs = zip_vecs(left_part, right_part);
        proof {
            assert forall|offset: int| #[trigger] clipped_window(pairs@, -lo, limit as int).get(offset) == zipped_at(left, right, offset) by {
                lemma_clipped_window_get(self_items, self_base as int, left.limit, offset);
                lemma_clipped_window_get(other_items, other_base as int, right.limit, offset);
                lemma_clipped_window_get(pairs@, -lo, limit as int, offset);
                if lo <= offset < hi {
                    assert(pairs@[offset - lo] == (left_part@[offset - lo], right_part@[offset - lo]));
                }
            }
            lemma_view_wf(pairs@, -lo, limit as int);
            lemma_clipped_window_get(pairs@, -lo, limit as int, lo as int);
        }
        OffsetIndexedSlice { container: pairs, base: (-lo) as i32, limit }
    }

    /// Applies `mapper` to every item in the window, keeping its offsets.
    pub fn map<U, F: Fn(&T) -> U>(&self, mapper: F) -> (r: OffsetIndexedSlice<U>)
        requires
            self.base() >= 0,
            forall|k: int| 0 <= k < self@.items.len() ==> mapper.requires((&self@.items[k],)),
        ensures
            r@.limit == self@.limit,
            r@.first == self@.first,
            r@.items.len() == self@.items.len(),
            forall|k: int|
                0 <= k < self@.items.len() ==> mapper.ensures((&self@.items[k],), #[trigger] r@.items[k]),
            r.base() >= 0,
    {
        proof { use_type_invariant(self); }
        let (start, end, new_base) = self.visible_bounds();
        let mut new_container: Vec<U> = Vec::with_capacity(end - start);
        let mut i: usize = start;
        while i < end
            invariant
                start <= i <= end <= self.container@.len(),
                self@.items == self.container@.subrange(start as int, end as int),
                new_container@.len() == i - start,
                forall|j: int| 0 <= j < self@.items.len() ==> mapper.requires((&self@.items[j],)),
                forall|j: int|
                    0 <= j < i - start ==> mapper.ensures((&self@.items[j],), #[trigger] new_container@[j]),
            decreases end - i,
        {
            proof { assert(self@.items[i - start] == self.container@[i as int]); }
            let item = mapper(&self.container[i]);
            new_container.push(item);
            i = i + 1;
        }
        proof {
            lemma_trimmed_window(new_container@, self.base as int, self.limit as int, self.container@.len() as int);
        }
        OffsetIndexedSlice { container: new_container, base: new_base, limit: self.limit }
    }

    /// Applies `mapper` to every item in the window, in offset order.
    pub fn map_in_place<F: FnMut(&mut T)>(&mut self, mapper: F)
        requires
            old(self).base() >= 0,
            forall|k: int, x: &mut T|
                #![trigger call_requires(mapper, (x,)), old(self)@.items[k]]
                0 <= k < old(self)@.items.len() && *x == old(self)@.items[k] ==> call_requires(mapper, (x,)),
        ensures
            final(self)@.limit == old(self)@.limit,
            final(self)@.first == old(self)@.first,
            final(self)@.items.len() == old(self)@.items.len(),
            final(self).base() == old(self).base(),
            forall|k: int| 0 <= k < old(self)@.items.len() ==> called_with(mapper, #[trigger] old(self)@.items[k]),
            final(self).contents().len() == old(self).contents().len(),
            forall|j: int|
                0 <= j < old(self).contents().len() && !(window_lo(old(self).base(), old(self)@.limit) <= j < window_hi(
                    old(self).contents().len() as int,
                    old(self).base(),
                    old(self)@.limit,
                )) ==> #[trigger] final(self).contents()[j] == old(self).contents()[j],
    {
        proof { use_type_invariant(&*self); }
        let ghost given = mapper;
        let mut mapper = mapper;
        let (start, end, new_base) = self.visible_bounds();
        let ghost base = self.base;
        let ghost limit = self.limit;
        let ghost len = self.container@.len();
        let ghost orig = self.container@;
        let mut i: usize = start;
        while i < end
            invariant
                start <= i <= end <= self.container@.len(),
                self.container@.len() == len,
                self.base == base,
                self.limit == limit,
                limit >= 0,
                orig.len() == len,
                old(self)@.items == orig.subrange(start as int, end as int),
                forall|k: int, x: &mut T|
                    #![trigger call_requires(mapper, (x,)), old(self)@.items[k]]
                    0 <= k < old(self)@.items.len() && *x == old(self)@.items[k] ==> call_requires(mapper, (x,)),
                forall|j: int| i <= j < len ==> #[trigger] self.container@[j] == orig[j],
                forall|j: int| 0 <= j < start ==> #[trigger] self.container@[j] == orig[j],
                mapper == given,
                forall|k: int| 0 <= k < i - start ==> called_with(mapper, #[trigger] old(self)@.items[k]),
            decreases end - i,
        {
            proof {
                assert(self.container@[i as int] == old(self)@.items[i - start]);
            }
            let ghost before = self.container@;
            mapper(&mut self.container[i]);
            proof {
                assert(exists|x: &mut T| call_ensures(mapper, (x,), ()) && *x == old(self)@.items[i - start]);
                assert(called_with(mapper, old(self)@.items[i - start]));
                assert forall|j: int| 0 <= j < start implies #[trigger] self.container@[j] == orig[j] by {
                    assert(self.container@[j] == before[j]);
                }
                assert forall|j: int| i + 1 <= j < len implies #[trigger] self.container@[j] == orig[j] by {
                    assert(self.container@[j] == before[j]);
                }
            }
            i = i + 1;
        }
    }

    /// Visits every item in the window, in offset order.
    pub fn scan<F: FnMut(&T)>(&self, mapper: F)
        requires
            self.base() >= 0,
            forall|k: int| 0 <= k < self@.items.len() ==> call_requires(mapper, (&#[trigger] self@.items[k],)),
        ensures
            forall|k: int| 0 <= k < self@.items.len() ==> call_ensures(mapper, (&#[trigger] self@.items[k],), ()),
    {
        let ghost given = mapper;
        let mut mapper = mapper;
        let (start, end, _new_base) = self.visible_bounds();
        let mut i: usize = start;
        while i < end
            invariant
                start <= i <= end <= self.container@.len(),
                self@.items == self.container@.subrange(start as int, end as int),
                mapper == given,
                forall|k: int| 0 <= k < self@.items.len() ==> call_requires(mapper, (&#[trigger] self@.items[k],)),
                forall|k: int| 0 <= k < i - start ==> call_ensures(mapper, (&#[trigger] self@.items[k],), ()),
            decreases end - i,
        {
            proof { assert(self.container@[i as int] == self@.items[i - start]); }
            mapper(&self.container[i]);
            i = i + 1;
        }
    }

    /// The items of the window, in offset order.
    pub fn iter(&self) -> (it: std::slice::Iter<'_, T>)
        requires
            self.base() >= 0,
        ensures
            it.remaining().unref() == self@.items,
            IteratorSpec::decrease(&it) is Some,
            IteratorSpec::initial_value_relation(&it, &it),
    {
        let (start, end, _new_base) = self.visible_bounds();
        let slice = self.container.as_slice();
        let visible = &slice[start..end];
        proof { assert(visible@.as_ref().unref() =~= visible@); }
        visible.iter()
    }

    /// The items of the window, in offset order.
    pub fn into_vec(self) -> (v: Vec<T>)
        requires
            self.base() >= 0,
        ensures
            v@ == self@.items,
    {
        let (start, end, _new_base) = self.visible_bounds();
        take_range(self.container, start, end)
    }

    /// Keeps only the items of the window in the container.
    pub fn trim(self) -> (r: OffsetIndexedSlice<T>)
        requires
            self.base() >= 0,
        ensures
            r@ == self@,
            r.base() >= 0,
            r.contents() == self@.items,
    {
        proof { use_type_invariant(&self); }
        let (start, end, new_base) = self.visible_bounds();
        let limit = self.limit;
        let ghost base = self.base as int;
        let ghost len = self.container@.len() as int;
        let new_container = take_range(self.container, start, end);
        proof { lemma_trimmed_window(new_container@, base, limit as int, len); }
        OffsetIndexedSlice { container: new_container, base: new_base, limit }
    }

    /// Applies `mapper` to every item in the window, consuming it.
    pub fn map_into<U, F: Fn(T) -> U>(self, mapper: F) -> (r: OffsetIndexedSlice<U>)
        requires
            self.base() >= 0,
            forall|k: int| 0 <= k < self@.items.len() ==> mapper.requires((self@.items[k],)),
        ensures
            r@.limit == self@.limit,
            r@.first == self@.first,
            r@.items.len() == self@.items.len(),
            forall|k: int|
                0 <= k < self@.items.len() ==> mapper.ensures((self@.items[k],), #[trigger] r@.items[k]),
            r.base() >= 0,
    {
        proof { use_type_invariant(&self); }
        let (start, end, new_base) = self.visible_bounds();
        let limit = self.limit;
        let ghost old_view = self@;
        let ghost base = self.base as int;
        let ghost len = self.container@.len() as int;
        let trimmed = take_range(self.container, start, end);
        let mut new_container: Vec<U> = Vec::with_capacity(end - start);
        for item in it: trimmed
            invariant
                it.seq() == old_view.items,
                new_container@.len() == it.index(),
                forall|j: int| 0 <= j < old_view.items.len() ==> mapper.requires((old_view.items[j],)),
                forall|j: int|
                    0 <= j < it.index() ==> mapper.ensures((old_view.items[j],), #[trigger] new_container@[j]),
        {
            new_container.push(mapper(item));
        }
        proof { lemma_trimmed_window(new_container@, base, limit as int, len); }
        OffsetIndexedSlice { container: new_container, base: new_base, limit }
    }
}

impl<T: Clone + 'static> OffsetIndexedSlice<T> {
    /// Copies the window anchored at `base` of `container` (always `Some`).
    pub fn from_slice(container: &[T], base: usize, limit: usize) -> (r: Option<OffsetIndexedSlice<T>>)
        requires
            base <= i32::MAX,
            limit <= i32::MAX,
        ensures
            r is Some,
            r->0@.limit == limit,
            r->0@.first == clipped_window(container@, base as int, limit as int).first,
            r->0@.items.len() == clipped_window(container@, base as int, limit as int).items.len(),
            forall|k: int|
                0 <= k < r->0@.items.len() ==> cloned::<T>(
                    clipped_window(container@, base as int, limit as int).items[k],
                    #[trigger] r->0@.items[k],
                ),
            r->0@.wf(),
            r->0.base() >= 0,
    {
        let (start, end, new_base) = visible_range(container.len(), base as i32, limit as i32);
        let ghost w = clipped_window(container@, base as int, limit as int);
        proof {
            if start < end {
                assert(w.items == container@.subrange(start as int, end as int));
            }
        }
        let mut materialised: Vec<T> = Vec::with_capacity(end - start);
        let mut i: usize = start;
        while i < end
            invariant
                start <= i <= end <= container@.len(),
                end - start == w.items.len(),
                start < end ==> w.items == container@.subrange(start as int, end as int),
                materialised@.len() == i - start,
                forall|k: int| 0 <= k < i - start ==> cloned::<T>(w.items[k], #[trigger] materialised@[k]),
            decreases end - i,
        {
            let item = container[i].clone();
            proof { assert(w.items[i - start] == container@[i as int]); }
            materialised.push(item);
            i = i + 1;
        }
        proof {
            lemma_trimmed_window(materialised@, base as int, limit as int, container@.len() as int);
            lemma_view_wf(materialised@, new_base as int, limit as int);
        }
        Some(OffsetIndexedSlice { container: materialised, base: new_base, limit: limit as i32 })
    }
}

/// `mapper` may have been called on `item`, handed to it by mutable
/// reference.
pub open spec fn called_with<T, F: FnMut(&mut T)>(mapper: F, item: T) -> bool {
    exists|x: &mut T| call_ensures(mapper, (x,), ()) && *x == item
}

/// `mapper` may turn `item`, handed to it by mutable reference, into `out`.
pub open spec fn mapped_to<T, S, F: Fn(&mut T) -> Option<S>>(mapper: F, item: T, out: Option<S>) -> bool {
    exists|x: &mut T| call_ensures(mapper, (x,), out) && *x == item
}

/// `mapper` may turn `item`, handed to it by mutable reference, into some
/// value.
pub open spec fn mapped_some<T, S, F: Fn(&mut T) -> Option<S>>(mapper: F, item: T) -> bool {
    exists|v: S| #[trigger] mapped_to(mapper, item, Some(v))
}

/// What the zip of two windows holds at `offset`.
pub open spec fn zipped_at<T, U>(left: OffsetView<T>, right: OffsetView<U>, offset: int) -> Option<(T, U)> {
    match (left.get(offset), right.get(offset)) {
        (Some(t), Some(u)) => Some((t, u)),
        _ => None,
    }
}

/// Pairs the items of two sequences of equal length.
fn zip_vecs<A, B>(left: Vec<A>, right: Vec<B>) -> (r: Vec<(A, B)>)
    requires
        left@.len() == right@.len(),
    ensures
        r@.len() == left@.len(),
        forall|k: int| 0 <= k < r@.len() ==> #[trigger] r@[k] == (left@[k], right@[k]),
{
    let n = right.len();
    let ghost right0 = right@;
    let mut right = right;
    let mut reversed: Vec<B> = Vec::with_capacity(n);
    while right.len() > 0
        invariant
            right@.len() + reversed@.len() == n,
            n == right0.len(),
            right@ == right0.subrange(0, right@.len() as int),
            forall|j: int| 0 <= j < reversed@.len() ==> #[trigger] reversed@[j] == right0[n - 1 - j],
        decreases right@.len(),
    {
        let x = right.pop().unwrap();
        reversed.push(x);
    }
    let mut pairs: Vec<(A, B)> = Vec::with_capacity(n);
    for a in it: left
        invariant
            it.seq().len() == n,
            pairs@.len() == it.index(),
            reversed@.len() == n - it.index(),
            forall|j: int| 0 <= j < reversed@.len() ==> #[trigger] reversed@[j] == right0[n - 1 - j],
            forall|k: int| 0 <= k < it.index() ==> #[trigger] pairs@[k] == (it.seq()[k], right0[k]),
    {
        let b = reversed.pop().unwrap();
        pairs.push((a, b));
    }
    pairs
}

/// The sum of a sequence of counts.
pub open spec fn seq_sum(s: Seq<usize>) -> int
    decreases s.len(),
{
    if s.len() == 0 {
        0
    } else {
        seq_sum(s.drop_last()) + s.last()
    }
}

/// Replacing one count changes the sum by the difference.
pub proof fn lemma_seq_sum_update(s: Seq<usize>, i: int, v: usize)
    requires
        0 <= i < s.len(),
    ensures
        seq_sum(s.update(i, v)) == seq_sum(s) - s[i] + v,
    decreases s.len(),
{
    if i == s.len() - 1 {
        assert(s.update(i, v).drop_last() =~= s.drop_last());
    } else {
        lemma_seq_sum_update(s.drop_last(), i, v);
        assert(s.update(i, v).drop_last() =~= s.drop_last().update(i, v));
    }
}

/// A sequence of zeros sums to zero.
pub proof fn lemma_seq_sum_zeros(s: Seq<usize>)
    requires
        forall|i: int| 0 <= i < s.len() ==> s[i] == 0,
    ensures
        seq_sum(s) == 0,
    decreases s.len(),
{
    if s.len() > 0 {
        lemma_seq_sum_zeros(s.drop_last());
    }
}

/// Number of container items that a window sees.
pub open spec fn visible_len(len: int, base: int, limit: int) -> int {
    if window_lo(base, limit) < window_hi(len, base, limit) {
        window_hi(len, base, limit) - window_lo(base, limit)
    } else {
        0
    }
}

/// The container range `[start, end)` seen by a window, with the anchor that the
/// window gets once its container is trimmed to that range.
fn visible_range(container_len: usize, base: i32, limit: i32) -> (r: (usize, usize, i32))
    requires
        base >= 0,
        limit >= 0,
    ensures
        r.0 <= r.1 <= container_len,
        r.2 >= 0,
        r.2 == base - window_lo(base as int, limit as int),
        r.2 <= limit,
        r.1 - r.0 == visible_len(container_len as int, base as int, limit as int),
        r.0 < r.1 ==> r.0 == window_lo(base as int, limit as int) && r.1 == window_hi(
            container_len as int,
            base as int,
            limit as int,
        ),
{
    let bounds = materialised_bounds(container_len, base, limit);
    if bounds.start < bounds.end_exclusive {
        (bounds.start, bounds.end_exclusive, bounds.base)
    } else {
        (0, 0, bounds.base)
    }
}

/// Whether a window anchored at `base` of a container of length `len` holds an
/// item at `offset`.
pub open spec fn window_holds(len: int, base: int, limit: int, offset: int) -> bool {
    -limit <= offset <= limit && 0 <= base + offset < len
}

/// The offsets `[lo, hi)` at which a window holds items (`lo >= hi` when it
/// holds none).
fn offset_range(container_len: usize, base: i32, limit: i32) -> (r: (i64, i64))
    requires
        limit >= 0,
    ensures
        forall|offset: int| #[trigger] window_holds(container_len as int, base as int, limit as int, offset) == (r.0 <= offset < r.1),
        r.0 < r.1 ==> -limit <= r.0 && r.1 <= limit + 1 && 0 <= base + r.0 && base + r.1 <= container_len,
        -(i32::MAX as int) - 1 <= r.0,
        r.1 <= i32::MAX as int + 1,
{
    let base = base as i64;
    let limit = limit as i64;
    let lo = if -limit >= -base { -limit } else { -base };
    let len_bound: i64 = if container_len as u64 <= 0x2_0000_0000u64 { container_len as i64 } else { 0x2_0000_0000i64 };
    let right = if len_bound - base <= limit + 1 { len_bound - base } else { limit + 1 };
    (lo, right)
}

/// The container indices `[start, end)` seen by the window anchored at `base`
/// with reach `limit`.
pub(crate) fn clipped_range(container_len: usize, base: usize, limit: usize) -> (r: (usize, usize))
    requires
        base <= i32::MAX,
        limit <= i32::MAX,
    ensures
        r.0 <= r.1 <= container_len,
        r.1 - r.0 == visible_len(container_len as int, base as int, limit as int),
        r.0 < r.1 ==> r.0 == window_lo(base as int, limit as int),
        forall|index: int|
            #![trigger window_holds(container_len as int, base as int, limit as int, index - base)]
            (r.0 <= index < r.1) == window_holds(container_len as int, base as int, limit as int, index - base),
{
    let (start, end, _new_base) = visible_range(container_len, base as i32, limit as i32);
    (start, end)
}

/// The items of a clipped window are the slice of the container it sees.
pub proof fn lemma_clipped_window_items<T>(items: Seq<T>, base: int, limit: int)
    requires
        base >= 0,
        limit >= 0,
    ensures
        clipped_window(items, base, limit).items.len() == visible_len(items.len() as int, base, limit),
        clipped_window(items, base, limit).first == window_lo(base, limit) - base,
        visible_len(items.len() as int, base, limit) > 0 ==> clipped_window(items, base, limit).items
            == items.subrange(window_lo(base, limit), window_lo(base, limit) + visible_len(
            items.len() as int,
            base,
            limit,
        )),
{
}

/// The part `[start, end)` of `v`.
fn take_range<T>(v: Vec<T>, start: usize, end: usize) -> (r: Vec<T>)
    requires
        start <= end <= v@.len(),
    ensures
        r@ == v@.subrange(start as int, end as int),
{
    let mut v = v;
    v.truncate(end);
    v.split_off(start)
}

/// A container holding exactly the visible part of a window describes the
/// same window once its anchor is shifted by the clipped left edge.
proof fn lemma_trimmed_window<U>(new_items: Seq<U>, base: int, limit: int, len: int)
    requires
        base >= 0,
        limit >= 0,
        len >= 0,
        new_items.len() == visible_len(len, base, limit),
    ensures
        clipped_window(new_items, base - window_lo(base, limit), limit) == (OffsetView {
            limit,
            first: window_lo(base, limit) - base,
            items: new_items,
        }),
{
    let lo = window_lo(base, limit);
    let n = new_items.len() as int;
    assert(window_lo(base - lo, limit) == 0);
    assert(window_hi(n, base - lo, limit) == n);
    if n > 0 {
        assert(new_items.subrange(0, n) =~= new_items);
    } else {
        assert(new_items =~= Seq::<U>::empty());
    }
}

proof fn lemma_view_wf<T>(items: Seq<T>, base: int, limit: int)
    requires
        limit >= 0,
    ensures
        clipped_window(items, base, limit).wf(),
{
}

} // verus!
