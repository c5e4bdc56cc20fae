//! Address intervals and insertion-ordered interval lists.

use vstd::prelude::*;

verus! {

/// A half-open address interval `[begin, end)`.
#[derive(Clone, Copy, PartialEq, Eq, Structural, Debug)]
pub struct Range {
    pub begin: u64,
    pub end: u64,
}

impl Range {
    /// The interval does not run backwards.
    pub open spec fn wf(self) -> bool {
        self.begin <= self.end
    }

    /// Mathematical length of the interval.
    pub open spec fn spec_size(self) -> int {
        self.end - self.begin
    }

    /// Number of addresses covered by this interval.
    pub fn size(&self) -> (r: u64)
        requires
            self.wf(),
        ensures
            r == self.spec_size(),
    {
        self.end - self.begin
    }
}

/// Ordering on ranges: by begin address, then by end address.
pub open spec fn range_leq(a: Range, b: Range) -> bool {
    a.begin < b.begin || (a.begin == b.begin && a.end <= b.end)
}

/// Strict version of `range_leq`.
pub open spec fn range_lt(a: Range, b: Range) -> bool {
    a.begin < b.begin || (a.begin == b.begin && a.end < b.end)
}

fn range_before(a: &Range, b: &Range) -> (r: bool)
    ensures
        r == range_lt(*a, *b),
{
    a.begin < b.begin || (a.begin == b.begin && a.end < b.end)
}

/// The sequence is sorted by `range_leq`.
pub open spec fn ranges_sorted(s: Seq<Range>) -> bool {
    forall|i: int, j: int| 0 <= i < j < s.len() ==> range_leq(s[i], s[j])
}

/// Every range in the sequence is well formed.
pub open spec fn ranges_wf(s: Seq<Range>) -> bool {
    forall|i: int| 0 <= i < s.len() ==> s[i].wf()
}

/// Sum of the lengths of all ranges, with no merging of overlaps.
pub open spec fn sum_sizes(s: Seq<Range>) -> int
    decreases s.len(),
{
    if s.len() == 0 {
        0
    } else {
        sum_sizes(s.drop_last()) + s.last().spec_size()
    }
}

/// Inserting an element anywhere in a sequence inserts it into the multiset.
pub proof fn lemma_insert_to_multiset<A>(s: Seq<A>, i: int, a: A)
    requires
        0 <= i <= s.len(),
    ensures
        s.insert(i, a).to_multiset() == s.to_multiset().insert(a),
{
    broadcast use vstd::seq_lib::group_to_multiset_ensures;

    let t = s.insert(i, a);
    assert(t.remove(i) =~= s);
    assert(t.remove(i).to_multiset() == t.to_multiset().remove(t[i]));
    assert(t.to_multiset().contains(t[i]));
    assert(t.to_multiset() =~= s.to_multiset().insert(a));
}

/// Removing the last element removes it from the multiset.
pub proof fn lemma_drop_last_to_multiset<A>(s: Seq<A>)
    requires
        s.len() > 0,
    ensures
        s.drop_last().to_multiset() == s.to_multiset().remove(s.last()),
{
    broadcast use vstd::seq_lib::group_to_multiset_ensures;

    assert(s.drop_last() =~= s.remove(s.len() - 1));
}

/// Removing an interior element commutes with `drop_last`.
proof fn lemma_sum_sizes_remove(s: Seq<Range>, i: int)
    requires
        0 <= i < s.len(),
    ensures
        sum_sizes(s.remove(i)) == sum_sizes(s) - s[i].spec_size(),
    decreases s.len(),
{
    if i == s.len() - 1 {
        assert(s.remove(i) =~= s.drop_last());
    } else {
        assert(s.remove(i).drop_last() =~= s.drop_last().remove(i));
        assert(s.remove(i).last() == s.last());
        lemma_sum_sizes_remove(s.drop_last(), i);
    }
}

/// The naive size sum is a function of the multiset of ranges alone, so it
/// does not change under any reordering, in particular under sorting.
pub proof fn lemma_sum_sizes_permutation(a: Seq<Range>, b: Seq<Range>)
    requires
        a.to_multiset() == b.to_multiset(),
    ensures
        sum_sizes(a) == sum_sizes(b),
    decreases a.len(),
{
    broadcast use vstd::seq_lib::group_to_multiset_ensures;

    if a.len() == 0 {
        assert(a.to_multiset().len() == 0);
        assert(b.len() == 0);
    } else {
        let x = a.last();
        assert(a.to_multiset().contains(x));
        assert(b.to_multiset().contains(x));
        assert(b.contains(x));
        let i = choose|i: int| 0 <= i < b.len() && b[i] == x;
        lemma_drop_last_to_multiset(a);
        assert(b.remove(i).to_multiset() == b.to_multiset().remove(x));
        lemma_sum_sizes_permutation(a.drop_last(), b.remove(i));
        lemma_sum_sizes_remove(b, i);
    }
}

proof fn lemma_sum_sizes_bound(s: Seq<Range>)
    requires
        ranges_wf(s),
    ensures
        0 <= sum_sizes(s) <= s.len() * (u64::MAX as int),
    decreases s.len(),
{
    if s.len() > 0 {
        lemma_sum_sizes_bound(s.drop_last());
        assert(s.len() * (u64::MAX as int) == (s.len() - 1) * (u64::MAX as int) + u64::MAX)
            by (nonlinear_arith);
    }
}

proof fn lemma_sum_sizes_take_step(s: Seq<Range>, i: int)
    requires
        0 <= i < s.len(),
    ensures
        sum_sizes(s.take(i + 1)) == sum_sizes(s.take(i)) + s[i].spec_size(),
{
    assert(s.take(i + 1).drop_last() =~= s.take(i));
    assert(s.take(i + 1).last() == s[i]);
}

/// An insertion-ordered list of address ranges.  Queries such as `size`
/// assume nothing about order; `sort` must be called explicitly before
/// consumers rely on sortedness.  Overlapping ranges are kept as given:
/// the list never merges or deduplicates.
#[derive(Debug)]
pub struct RangeList {
    pub ranges: Vec<Range>,
}

impl View for RangeList {
    type V = Seq<Range>;

    open spec fn view(&self) -> Seq<Range> {
        self.ranges@
    }
}

impl Default for RangeList {
    /// An empty range list.
    fn default() -> (r: Self)
        ensures
            r@ == Seq::<Range>::empty(),
    {
        RangeList { ranges: Vec::new() }
    }
}

impl RangeList {
    /// Append a range, keeping insertion order.
    pub fn push(&mut self, r: Range)
        ensures
            final(self)@ == old(self)@.push(r),
    {
        self.ranges.push(r);
    }

    /// The ranges in their current order.
    pub fn list(&self) -> (r: &Vec<Range>)
        ensures
            r@ == self@,
    {
        &self.ranges
    }

    /// Sum of the lengths of all ranges; `None` when the sum does not fit
    /// in a `u64`.  Overlaps are counted twice by design: the result is a
    /// coverage approximation, not an exclusive union.
    pub fn size(&self) -> (r: Option<u64>)
        requires
            ranges_wf(self@),
        ensures
            (match r {
                Some(n) => n == sum_sizes(self@),
                None => sum_sizes(self@) > u64::MAX,
            }),
    {
        let ghost s = self@;
        let mut acc: u128 = 0;
        let mut i: usize = 0;
        while i < self.ranges.len()
            invariant
                0 <= i <= self.ranges.len(),
                self@ == s,
                ranges_wf(s),
                acc == sum_sizes(s.take(i as int)),
            decreases self.ranges.len() - i,
        {
            proof {
                lemma_sum_sizes_take_step(s, i as int);
                lemma_sum_sizes_bound(s.take(i as int));
                assert(s.take(i as int).len() * (u64::MAX as int) <= (u64::MAX as int) * (
                u64::MAX as int)) by (nonlinear_arith)
                    requires
                        0 <= s.take(i as int).len() <= u64::MAX as int,
                ;
            }
            let r = self.ranges[i];
            acc = acc + (r.size() as u128);
            i = i + 1;
        }
        proof {
            assert(s.take(s.len() as int) =~= s);
        }
        if acc <= u64::MAX as u128 {
            Some(acc as u64)
        } else {
            None
        }
    }

    /// Sort the ranges by begin address, then end address.  Sorting an
    /// already-sorted list leaves it exactly as it was.
    pub fn sort(&mut self)
        ensures
            final(self)@.to_multiset() == old(self)@.to_multiset(),
            ranges_sorted(final(self)@),
            ranges_sorted(old(self)@) ==> final(self)@ == old(self)@,
    {
        sort_ranges(&mut self.ranges);
    }
}

/// Stable insertion sort on a range vector.
fn sort_ranges(v: &mut Vec<Range>)
    ensures
        final(v)@.to_multiset() == old(v)@.to_multiset(),
        ranges_sorted(final(v)@),
        ranges_sorted(old(v)@) ==> final(v)@ == old(v)@,
{
    let ghost orig = v@;
    if v.len() < 2 {
        return ;
    }
    let mut i: usize = 1;
    while i < v.len()
        invariant
            1 <= i <= v@.len(),
            v@.len() == orig.len(),
            v@.to_multiset() == orig.to_multiset(),
            ranges_sorted(v@.take(i as int)),
            ranges_sorted(orig) ==> v@ == orig,
        decreases v@.len() - i,
    {
        let ghost v0 = v@;
        let x = v.remove(i);
        let ghost v1 = v@;
        let mut p: usize = i;
        while p > 0 && range_before(&x, &v[p - 1])
            invariant
                0 <= p <= i,
                i < v1.len() + 1,
                v@ == v1,
                forall|y: int| p <= y < i ==> range_lt(x, v1[y]),
            decreases p,
        {
            p = p - 1;
        }
        v.insert(p, x);
        proof {
            broadcast use vstd::seq_lib::group_to_multiset_ensures;

            assert(v1 == v0.remove(i as int));
            assert(v0.remove(i as int).to_multiset() == v0.to_multiset().remove(v0[i as int]));
            lemma_insert_to_multiset(v1, p as int, x);
            assert(v@.to_multiset() == orig.to_multiset());
            // The new prefix is sorted: before p the old prefix, x at p,
            // then the shifted remainder of the old prefix.
            assert(forall|y: int| 0 <= y < i ==> v1[y] == v0[y]);
            assert forall|y1: int, y2: int| 0 <= y1 < y2 < i implies range_leq(
                v1[y1],
                v1[y2],
            ) by {
                assert(range_leq(v0.take(i as int)[y1], v0.take(i as int)[y2]));
            }
            assert forall|a: int, b: int| 0 <= a < b < i + 1 implies range_leq(
                v@[a],
                v@[b],
            ) by {
                assert(forall|y: int| 0 <= y < p ==> v@[y] == v1[y]);
                assert(v@[p as int] == x);
                assert(forall|y: int| p < y <= i ==> v@[y] == v1[y - 1]);
                if b < p {
                } else if b == p {
                    assert(p > 0);
                    assert(!range_lt(x, v1[p - 1]));
                    assert(range_leq(v1[a], v1[p - 1]) || a == p - 1);
                } else {
                    assert(range_lt(x, v1[b - 1]) || b - 1 < p);
                    if a < p {
                        if b - 1 < p {
                        } else {
                            assert(a == b - 1 || range_leq(v1[a], v1[b - 1]));
                            if a == b - 1 {
                                assert(range_leq(v@[a], v@[b]));
                            } else {
                                assert(range_lt(x, v1[b - 1]));
                                assert(range_leq(v1[a], v1[b - 1]));
                            }
                        }
                    } else if a == p {
                        assert(v@[a] == x);
                        assert(range_lt(x, v1[b - 1]));
                    } else {
                        assert(range_leq(v1[a - 1], v1[b - 1]));
                    }
                }
            }
            assert(ranges_sorted(v@.take(i + 1))) by {
                assert(forall|y: int| 0 <= y < i + 1 ==> v@.take(i + 1)[y] == v@[y]);
            }
            if ranges_sorted(orig) {
                assert(v0 == orig);
                assert(!(p < i)) by {
                    if p < i {
                        assert(range_lt(x, v1[i - 1]));
                        assert(v1[i - 1] == v0[i - 1]);
                        assert(range_leq(v0[i - 1], v0[i as int]));
                    }
                }
                assert(v@ =~= orig);
            }
        }
        i = i + 1;
    }
    proof {
        assert(v@.take(v@.len() as int) =~= v@);
    }
}

} // verus!
