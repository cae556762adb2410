use vstd::prelude::*;

verus! {

/// A closed interval `[beg, end]` of block numbers, with `beg <= end`.
#[derive(Copy, Clone, Debug, PartialEq, Eq, Structural, PartialOrd, Ord, Hash)]
pub struct Interval {
    beg: u32,
    end: u32,
}

/// `a` ends strictly before the block that precedes `b`: the two intervals
/// neither overlap nor touch.
pub open spec fn separated(a: (u32, u32), b: (u32, u32)) -> bool {
    a.1 + 1 < b.0
}

/// The point lies in the closed interval.
pub open spec fn interval_contains(iv: (u32, u32), point: int) -> bool {
    iv.0 <= point <= iv.1
}

/// Some interval of the sequence contains the point.
pub open spec fn seq_has(ivs: Seq<(u32, u32)>, point: int) -> bool {
    exists|i: int| 0 <= i < ivs.len() && #[trigger] interval_contains(ivs[i], point)
}

/// Every interval is non-empty and each one is separated from the next.
pub open spec fn consecutive_separated(ivs: Seq<(u32, u32)>) -> bool {
    &&& forall|i: int| 0 <= i < ivs.len() ==> (#[trigger] ivs[i]).0 <= ivs[i].1
    &&& forall|i: int| 0 < i < ivs.len() ==> separated(#[trigger] ivs[i - 1], ivs[i])
}

/// Every interval is non-empty and any earlier interval is separated from any
/// later one.
pub open spec fn pairwise_separated(ivs: Seq<(u32, u32)>) -> bool {
    &&& forall|i: int| 0 <= i < ivs.len() ==> (#[trigger] ivs[i]).0 <= ivs[i].1
    &&& forall|i: int, j: int| 0 <= i < j < ivs.len() ==> separated(#[trigger] ivs[i], #[trigger] ivs[j])
}

impl View for Interval {
    type V = (u32, u32);

    closed spec fn view(&self) -> (u32, u32) {
        (self.beg, self.end)
    }
}

impl Interval {
    #[verifier::type_invariant]
    spec fn well_formed(self) -> bool {
        self.beg <= self.end
    }

    /// Creates the interval `[beg, end]`; `beg` must not exceed `end`.
    pub fn new(beg: u32, end: u32) -> (iv: Self)
        requires
            beg <= end,
        ensures
            iv@ == (beg, end),
    {
        Interval { beg, end }
    }

    /// The first block of the interval.
    pub fn begin(&self) -> (b: u32)
        ensures
            b == self@.0,
            b <= self@.1,
    {
        proof {
            use_type_invariant(self);
        }
        self.beg
    }

    /// The last block of the interval.
    pub fn end(&self) -> (e: u32)
        ensures
            e == self@.1,
            self@.0 <= e,
    {
        proof {
            use_type_invariant(self);
        }
        self.end
    }
}


/// A set of blocks given as a sequence of intervals, sorted, disjoint and
/// never adjacent: between two intervals at least one block is missing.
#[derive(Debug)]
pub struct Range {
    intervals: Vec<Interval>,
}

/// The views of a sequence of intervals.
pub open spec fn interval_views(ivs: Seq<Interval>) -> Seq<(u32, u32)> {
    ivs.map_values(|iv: Interval| iv@)
}

impl View for Range {
    type V = Seq<(u32, u32)>;

    closed spec fn view(&self) -> Seq<(u32, u32)> {
        interval_views(self.intervals@)
    }
}

impl Range {
    #[verifier::type_invariant]
    spec fn well_formed(self) -> bool {
        pairwise_separated(interval_views(self.intervals@))
    }

    /// The range that holds no block.
    pub fn empty() -> (r: Self)
        ensures
            r@ == Seq::<(u32, u32)>::empty(),
    {
        let r = Range { intervals: Vec::new() };
        assert(r@ =~= Seq::<(u32, u32)>::empty());
        r
    }

    /// Builds a range from intervals that are already sorted and separated:
    /// exactly the inputs on which [`Range::try_new`] succeeds, with the
    /// range it builds.
    pub fn new(intervals: Box<[Interval]>) -> (r: Self)
        requires
            consecutive_separated(interval_views(intervals@)),
        ensures
            r@ == interval_views(intervals@),
    {
        let r = Self::try_new(intervals);
        r.unwrap()
    }

    /// Builds a range from intervals, or `None` when some interval does not
    /// end at least two blocks before the next one begins.
    pub fn try_new(intervals: Box<[Interval]>) -> (r: Option<Self>)
        ensures
            r is Some <==> consecutive_separated(interval_views(intervals@)),
            r matches Some(rg) ==> rg@ == interval_views(intervals@),
    {
        let ghost v = interval_views(intervals@);
        let list = intervals.into_vec();
        let n = list.len();
        if n > 0 {
            let first = &list[0];
            proof {
                use_type_invariant(first);
            }
        }
        let mut i: usize = 1;
        while i < n
            invariant
                n == list@.len(),
                v == interval_views(list@),
                v == interval_views(intervals@),
                1 <= i,
                n > 0 ==> i <= n,
                forall|k: int| 0 <= k < i && k < n ==> (#[trigger] v[k]).0 <= v[k].1,
                forall|a: int, b: int| 0 <= a < b < i && b < n ==> separated(#[trigger] v[a], #[trigger] v[b]),
            decreases n - i,
        {
            let c = list[i];
            let p = list[i - 1];
            proof {
                use_type_invariant(&c);
            }
            assert(v[i as int] == c@ && v[i - 1] == p@);
            if p.end as u64 + 1 >= c.beg as u64 {
                assert(!separated(v[i - 1], v[i as int]));
                return None;
            }
            assert forall|a: int, b: int| 0 <= a < b < i + 1 && b < n implies separated(
                #[trigger] v[a],
                #[trigger] v[b],
            ) by {
                if b == i && a < i - 1 {
                    assert(separated(v[a], v[i - 1]));
                }
            }
            i = i + 1;
        }
        let r = Range { intervals: list };
        Some(r)
    }

    /// Whether some interval of the range holds the block.
    pub fn has(&self, point: u32) -> (b: bool)
        ensures
            b == seq_has(self@, point as int),
    {
        self.containing_interval(point).is_some()
    }

    /// The interval of the range that holds the block, if any. At most one
    /// interval does.
    pub fn find_containing_interval(&self, point: u32) -> (r: Option<Interval>)
        ensures
            r is Some <==> seq_has(self@, point as int),
            r matches Some(iv) ==> {
                &&& interval_contains(iv@, point as int)
                &&& self@.contains(iv@)
                &&& forall|j: int|
                    0 <= j < self@.len() && interval_contains(#[trigger] self@[j], point as int)
                        ==> self@[j] == iv@
            },
    {
        proof {
            use_type_invariant(self);
        }
        match self.containing_interval(point) {
            Some(i) => {
                let iv = self.intervals[i];
                proof {
                    let v = self@;
                    assert(v[i as int] == iv@);
                    assert forall|j: int|
                        0 <= j < v.len() && interval_contains(#[trigger] v[j], point as int)
                            implies v[j] == iv@ by {
                        if j < i {
                            assert(separated(v[j], v[i as int]));
                        } else if j > i {
                            assert(separated(v[i as int], v[j]));
                        }
                    }
                }
                Some(iv)
            },
            None => None,
        }
    }

    /// Index of the interval that holds the block, found by binary search.
    fn containing_interval(&self, point: u32) -> (r: Option<usize>)
        ensures
            r is Some <==> seq_has(self@, point as int),
            r matches Some(i) ==> i < self@.len() && interval_contains(self@[i as int], point as int),
    {
        proof {
            use_type_invariant(self);
        }
        let ghost v = self@;
        let n = self.intervals.len();
        let mut lo: usize = 0;
        let mut hi: usize = n;
        while lo < hi
            invariant
                v == self@,
                n == v.len(),
                v == interval_views(self.intervals@),
                pairwise_separated(v),
                lo <= hi <= n,
                forall|j: int| 0 <= j < lo ==> (#[trigger] v[j]).1 < point,
                forall|j: int| hi <= j < n ==> point < (#[trigger] v[j]).0,
            decreases hi - lo,
        {
            let mid = lo + (hi - lo) / 2;
            let iv = self.intervals[mid];
            assert(v[mid as int] == iv@);
            if point < iv.beg {
                assert forall|j: int| mid <= j < n implies point < (#[trigger] v[j]).0 by {
                    if j > mid {
                        assert(separated(v[mid as int], v[j]));
                    }
                }
                hi = mid;
            } else if iv.end < point {
                assert forall|j: int| 0 <= j < mid + 1 implies (#[trigger] v[j]).1 < point by {
                    if j < mid {
                        assert(separated(v[j], v[mid as int]));
                    }
                }
                lo = mid + 1;
            } else {
                assert(interval_contains(v[mid as int], point as int));
                return Some(mid);
            }
        }
        assert forall|j: int| 0 <= j < n implies !interval_contains(#[trigger] v[j], point as int) by {
            if j < lo {
                assert(v[j].1 < point);
            } else {
                assert(point < v[j].0);
            }
        }
        None
    }

    /// Whether one interval of the range covers the whole given interval.
    /// Because the intervals of a range never touch, this is the same as
    /// every block of the given interval lying in the range.
    pub fn includes(&self, interval: Interval) -> (b: bool)
        ensures
            b == (exists|i: int|
                0 <= i < self@.len() && #[trigger] self@[i].0 <= interval@.0 && interval@.1 <= self@[i].1),
            b == (forall|p: int| interval@.0 <= p <= interval@.1 ==> seq_has(self@, p)),
    {
        proof {
            use_type_invariant(self);
            use_type_invariant(&interval);
        }
        let ghost v = self@;
        if let Some(c) = self.find_containing_interval(interval.beg) {
            let ghost i = choose|i: int| 0 <= i < v.len() && v[i] == c@;
            if c.end >= interval.end {
                assert(v[i].0 <= interval@.0 && interval@.1 <= v[i].1);
                assert forall|p: int| interval@.0 <= p <= interval@.1 implies seq_has(v, p) by {
                    assert(interval_contains(v[i], p));
                }
                true
            } else {
                let ghost q: int = c.end + 1;
                assert(!seq_has(v, q)) by {
                    assert forall|j: int| 0 <= j < v.len() implies !interval_contains(#[trigger] v[j], q) by {
                        if j < i {
                            assert(separated(v[j], v[i]));
                        } else if j > i {
                            assert(separated(v[i], v[j]));
                        }
                    }
                }
                assert forall|k: int|
                    0 <= k < v.len() implies !(#[trigger] v[k].0 <= interval@.0 && interval@.1 <= v[k].1) by {
                    if v[k].0 <= interval@.0 && interval@.1 <= v[k].1 {
                        assert(interval_contains(v[k], interval@.0 as int));
                    }
                }
                false
            }
        } else {
            assert forall|k: int|
                0 <= k < v.len() implies !(#[trigger] v[k].0 <= interval@.0 && interval@.1 <= v[k].1) by {
                if v[k].0 <= interval@.0 && interval@.1 <= v[k].1 {
                    assert(interval_contains(v[k], interval@.0 as int));
                }
            }
            false
        }
    }
}

impl Clone for Range {
    /// A copy holding the same intervals.
    fn clone(&self) -> (r: Self)
        ensures
            r@ == self@,
    {
        proof {
            use_type_invariant(self);
        }
        let n = self.intervals.len();
        let mut copy: Vec<Interval> = Vec::new();
        let mut i: usize = 0;
        while i < n
            invariant
                n == self.intervals@.len(),
                i <= n,
                copy@ == self.intervals@.subrange(0, i as int),
            decreases n - i,
        {
            copy.push(self.intervals[i]);
            i = i + 1;
        }
        assert(copy@ =~= self.intervals@);
        Range { intervals: copy }
    }
}

} // verus!
