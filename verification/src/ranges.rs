//! Address ranges to disassemble: sorting them and merging those that overlap or touch.
use std::ops::Range;
use vstd::prelude::*;

verus! {

broadcast use vstd::seq_lib::group_to_multiset_ensures;

/// The starts of `s` never decrease.
pub open spec fn sorted_by_start(s: Seq<Range<usize>>) -> bool {
    forall|i: int, j: int| 0 <= i <= j < s.len() ==> s[i].start <= s[j].start
}

/// No range of `s` ends before it starts.
pub open spec fn well_formed(s: Seq<Range<usize>>) -> bool {
    forall|i: int| 0 <= i < s.len() ==> s[i].start <= #[trigger] s[i].end
}

/// Each range of `s` ends strictly before the next one starts: no overlap, no contact.
pub open spec fn separated(s: Seq<Range<usize>>) -> bool {
    forall|i: int| 0 <= i < s.len() - 1 ==> #[trigger] s[i].end < s[i + 1].start
}

/// The address `x` lies in some range of `s`.
pub open spec fn covers(s: Seq<Range<usize>>, x: int) -> bool {
    exists|i: int| 0 <= i < s.len() && s[i].start <= x < #[trigger] s[i].end
}

/// One step of the merge: a range that starts after the last range of `acc` ends is appended;
/// one that ends inside it is dropped; otherwise the last range is stretched to its end.
pub open spec fn absorb(acc: Seq<Range<usize>>, r: Range<usize>) -> Seq<Range<usize>> {
    if acc.len() == 0 {
        seq![r]
    } else if r.start > acc.last().end {
        acc.push(r)
    } else if r.end <= acc.last().end {
        acc
    } else {
        acc.update(acc.len() - 1, (Range { start: acc.last().start, end: r.end }))
    }
}

/// The ranges of `s`, taken in order, merged one by one.
pub open spec fn absorb_all(s: Seq<Range<usize>>) -> Seq<Range<usize>>
    decreases s.len(),
{
    if s.len() == 0 {
        Seq::empty()
    } else {
        absorb(absorb_all(s.drop_last()), s.last())
    }
}

/// What merging leaves of `ranges` once they are ordered as `sorted` is.
pub open spec fn is_cleanup_of(result: Seq<Range<usize>>, ranges: Seq<Range<usize>>) -> bool {
    exists|sorted: Seq<Range<usize>>|
        #![trigger absorb_all(sorted)]
        {
            &&& sorted.to_multiset() == ranges.to_multiset()
            &&& sorted_by_start(sorted)
            &&& result == absorb_all(sorted)
        }
}

/// A copy of `r`.
fn copy_range(r: &Range<usize>) -> (c: Range<usize>)
    ensures
        c == *r,
{
    Range { start: r.start, end: r.end }
}

/// Orders `v` by start.
fn sort_by_start(v: &mut Vec<Range<usize>>)
    ensures
        final(v)@.len() == old(v)@.len(),
        final(v)@.to_multiset() == old(v)@.to_multiset(),
        sorted_by_start(final(v)@),
{
    let n = v.len();
    let mut i: usize = 1;
    while i < n
        invariant
            n == v@.len(),
            1 <= i,
            v@.to_multiset() == old(v)@.to_multiset(),
            forall|a: int, b: int| 0 <= a <= b < i && b < n ==> v@[a].start <= v@[b].start,
        decreases n - i,
    {
        let mut j: usize = i;
        while j > 0 && v[j - 1].start > v[j].start
            invariant
                n == v@.len(),
                0 <= j <= i < n,
                v@.to_multiset() == old(v)@.to_multiset(),
                forall|a: int, b: int| 0 <= a <= b < j ==> v@[a].start <= v@[b].start,
                forall|a: int, b: int| j < a <= b <= i ==> v@[a].start <= v@[b].start,
                forall|a: int, b: int| 0 <= a < j && j < b <= i ==> v@[a].start <= v@[b].start,
                forall|b: int| j < b <= i ==> v@[j as int].start <= v@[b].start,
            decreases j,
        {
            let lo = copy_range(&v[j - 1]);
            let hi = copy_range(&v[j]);
            let ghost before = v@;
            v.set(j - 1, hi);
            v.set(j, lo);
            proof {
                assert(v@ =~= before.update(j - 1, hi).update(j as int, lo));
                assert(v@.to_multiset() =~= before.to_multiset());
            }
            j = j - 1;
        }
        i = i + 1;
    }
}

/// Merging ranges ordered by start gives separated ranges ordered by start (well-formed where
/// the input is) that cover the same addresses, and none only from none.
proof fn lemma_absorb_all(s: Seq<Range<usize>>)
    requires
        sorted_by_start(s),
    ensures
        well_formed(s) ==> well_formed(absorb_all(s)),
        separated(absorb_all(s)),
        sorted_by_start(absorb_all(s)),
        absorb_all(s).len() > 0 <==> s.len() > 0,
        s.len() > 0 ==> absorb_all(s).last().start <= s.last().start,
        forall|x: int| covers(absorb_all(s), x) <==> covers(s, x),
    decreases s.len(),
{
    if s.len() > 0 {
        let p = s.drop_last();
        let r = s.last();
        lemma_absorb_all(p);
        let acc = absorb_all(p);
        let res = absorb_all(s);
        assert(res == absorb(acc, r));
        assert forall|x: int| covers(res, x) <==> covers(s, x) by {
            if covers(s, x) {
                let i = choose|i: int| 0 <= i < s.len() && s[i].start <= x < #[trigger] s[i].end;
                if i < s.len() - 1 {
                    assert(p[i].start <= x < p[i].end);
                    assert(covers(p, x));
                    assert(covers(acc, x));
                    let k = choose|k: int| 0 <= k < acc.len() && acc[k].start <= x < #[trigger] acc[k].end;
                    if acc.len() > 0 && k == acc.len() - 1 && res.len() == acc.len() {
                        assert(res[k].start <= x < res[k].end);
                    } else {
                        assert(res[k].start <= x < res[k].end);
                    }
                } else {
                    if acc.len() == 0 {
                        assert(res[0].start <= x < res[0].end);
                    } else if r.start > acc.last().end {
                        assert(res[res.len() - 1].start <= x < res[res.len() - 1].end);
                    } else {
                        assert(acc.last().start <= s[s.len() - 2].start);
                        assert(res[res.len() - 1].start <= x < res[res.len() - 1].end);
                    }
                }
            }
            if covers(res, x) {
                let k = choose|k: int| 0 <= k < res.len() && res[k].start <= x < #[trigger] res[k].end;
                if acc.len() == 0 {
                    assert(s[s.len() - 1].start <= x < s[s.len() - 1].end);
                } else if k < acc.len() && res[k] == acc[k] {
                    assert(covers(acc, x));
                    assert(covers(p, x));
                    let i = choose|i: int| 0 <= i < p.len() && p[i].start <= x < #[trigger] p[i].end;
                    assert(s[i].start <= x < s[i].end);
                } else if x < acc.last().end {
                    assert(acc[acc.len() - 1].start <= x < acc[acc.len() - 1].end);
                    assert(covers(acc, x));
                    assert(covers(p, x));
                    let i = choose|i: int| 0 <= i < p.len() && p[i].start <= x < #[trigger] p[i].end;
                    assert(s[i].start <= x < s[i].end);
                } else {
                    assert(s[s.len() - 1].start <= x < s[s.len() - 1].end);
                }
            }
        }
        if acc.len() > 0 {
            assert(acc.last().start <= p.last().start);
            assert(p.last().start <= r.start);
        }
        if well_formed(s) {
            assert(well_formed(p));
            if acc.len() > 0 {
                assert(acc[acc.len() - 1].start <= acc[acc.len() - 1].end);
            }
            assert(s[s.len() - 1].start <= s[s.len() - 1].end);
        }
    }
}

/// Merging keeps at least one range of a non-empty list, and never adds any.
pub proof fn lemma_absorb_all_len(s: Seq<Range<usize>>)
    ensures
        absorb_all(s).len() <= s.len(),
        s.len() > 0 ==> absorb_all(s).len() > 0,
    decreases s.len(),
{
    if s.len() > 0 {
        lemma_absorb_all_len(s.drop_last());
    }
}

/// A list left by merging has as many ranges as its input at most, and at least one where the
/// input has any.
pub proof fn lemma_cleanup_len(result: Seq<Range<usize>>, ranges: Seq<Range<usize>>)
    requires
        is_cleanup_of(result, ranges),
    ensures
        result.len() <= ranges.len(),
        ranges.len() > 0 ==> result.len() > 0,
{
    let sorted = choose|sorted: Seq<Range<usize>>|
        #![trigger absorb_all(sorted)]
        {
            &&& sorted.to_multiset() == ranges.to_multiset()
            &&& sorted_by_start(sorted)
            &&& result == absorb_all(sorted)
        };
    vstd::seq_lib::to_multiset_len(sorted);
    vstd::seq_lib::to_multiset_len(ranges);
    lemma_absorb_all_len(sorted);
}

/// A single range is left as it is.
pub proof fn lemma_cleanup_single(result: Seq<Range<usize>>, ranges: Seq<Range<usize>>)
    requires
        is_cleanup_of(result, ranges),
        ranges.len() == 1,
    ensures
        result == ranges,
{
    let sorted = choose|sorted: Seq<Range<usize>>|
        #![trigger absorb_all(sorted)]
        {
            &&& sorted.to_multiset() == ranges.to_multiset()
            &&& sorted_by_start(sorted)
            &&& result == absorb_all(sorted)
        };
    vstd::seq_lib::to_multiset_len(sorted);
    vstd::seq_lib::to_multiset_len(ranges);
    vstd::seq_lib::to_multiset_contains(sorted, sorted[0]);
    vstd::seq_lib::to_multiset_contains(ranges, sorted[0]);
    assert(sorted.contains(sorted[0]));
    assert(ranges.contains(sorted[0]));
    assert(sorted[0] == ranges[0]);
    assert(sorted =~= ranges);
    assert(absorb_all(sorted.drop_last()) == Seq::<Range<usize>>::empty());
    assert(absorb_all(sorted) =~= ranges);
}

/// Ranges that are the same up to order cover the same addresses, and are well-formed together.
proof fn lemma_same_elements_cover(a: Seq<Range<usize>>, b: Seq<Range<usize>>)
    requires
        a.to_multiset() == b.to_multiset(),
    ensures
        forall|x: int| covers(a, x) <==> covers(b, x),
        well_formed(a) <==> well_formed(b),
{
    assert forall|x: int| covers(a, x) implies covers(b, x) by {
        let i = choose|i: int| 0 <= i < a.len() && a[i].start <= x < #[trigger] a[i].end;
        vstd::seq_lib::to_multiset_contains(a, a[i]);
        vstd::seq_lib::to_multiset_contains(b, a[i]);
        assert(a.contains(a[i]));
        assert(b.contains(a[i]));
        let j = choose|j: int| 0 <= j < b.len() && b[j] == a[i];
        assert(b[j].start <= x < b[j].end);
    }
    assert forall|x: int| covers(b, x) implies covers(a, x) by {
        let i = choose|i: int| 0 <= i < b.len() && b[i].start <= x < #[trigger] b[i].end;
        vstd::seq_lib::to_multiset_contains(a, b[i]);
        vstd::seq_lib::to_multiset_contains(b, b[i]);
        assert(b.contains(b[i]));
        assert(a.contains(b[i]));
        let j = choose|j: int| 0 <= j < a.len() && a[j] == b[i];
        assert(a[j].start <= x < a[j].end);
    }
    if well_formed(a) {
        assert forall|i: int| 0 <= i < b.len() implies b[i].start <= #[trigger] b[i].end by {
            vstd::seq_lib::to_multiset_contains(a, b[i]);
            vstd::seq_lib::to_multiset_contains(b, b[i]);
            assert(b.contains(b[i]));
            assert(a.contains(b[i]));
        }
    }
    if well_formed(b) {
        assert forall|i: int| 0 <= i < a.len() implies a[i].start <= #[trigger] a[i].end by {
            vstd::seq_lib::to_multiset_contains(a, a[i]);
            vstd::seq_lib::to_multiset_contains(b, a[i]);
            assert(a.contains(a[i]));
            assert(b.contains(a[i]));
        }
    }
}

/// Orders `ranges` by start and merges each range into the previous one where it starts at or
/// before that one's end (a range that starts exactly where another ends is merged into it).
///
/// What is left is ordered by start, each range ends before the next one starts, and it covers
/// exactly the addresses that `ranges` covered; where no range ends before it starts, none left
/// does either.
pub fn clean_up_ranges(ranges: &mut Vec<Range<usize>>)
    ensures
        is_cleanup_of(final(ranges)@, old(ranges)@),
        separated(final(ranges)@),
        sorted_by_start(final(ranges)@),
        forall|x: int| covers(final(ranges)@, x) <==> covers(old(ranges)@, x),
        well_formed(old(ranges)@) ==> well_formed(final(ranges)@),
{
    if ranges.len() == 0 {
        proof {
            assert(absorb_all(ranges@) == ranges@);
            assert(sorted_by_start(ranges@));
        }
        return;
    }
    sort_by_start(ranges);
    let ghost sorted = ranges@;
    let n = ranges.len();
    let mut j: usize = 0;
    proof {
        assert(sorted.take(1).drop_last() =~= Seq::<Range<usize>>::empty());
        assert(absorb_all(sorted.take(1).drop_last()) == Seq::<Range<usize>>::empty());
        assert(absorb_all(sorted.take(1)) =~= ranges@.take(1));
    }
    for i in 1..n
        invariant
            n == sorted.len(),
            n == ranges@.len(),
            j < i,
            sorted_by_start(sorted),
            ranges@.take(j + 1) == absorb_all(sorted.take(i as int)),
            forall|k: int| i <= k < n ==> ranges@[k] == sorted[k],
    {
        let ghost acc = ranges@.take(j + 1);
        proof {
            assert(sorted.take(i + 1).drop_last() =~= sorted.take(i as int));
            assert(sorted.take(i + 1).last() == sorted[i as int]);
            assert(acc.last() == ranges@[j as int]);
        }
        if ranges[i].start > ranges[j].end {
            j = j + 1;
            let r = copy_range(&ranges[i]);
            ranges.set(j, r);
            proof {
                assert(ranges@.take(j + 1) =~= acc.push(sorted[i as int]));
            }
        } else if ranges[i].end <= ranges[j].end {
        } else {
            let e = ranges[i].end;
            ranges[j].end = e;
            proof {
                assert(ranges@.take(j + 1) =~= acc.update(j as int, (Range { start: acc.last().start, end: e })));
            }
        }
    }
    proof {
        assert(sorted.take(n as int) =~= sorted);
    }
    ranges.truncate(j + 1);
    proof {
        assert(ranges@ == absorb_all(sorted));
        lemma_same_elements_cover(sorted, old(ranges)@);
        lemma_absorb_all(sorted);
    }
}

/// Separated well-formed ranges each end before any later one starts.
proof fn lemma_separated_increasing(s: Seq<Range<usize>>)
    requires
        well_formed(s),
        separated(s),
    ensures
        forall|i: int, j: int| 0 <= i < j < s.len() ==> #[trigger] s[i].end < #[trigger] s[j].start,
    decreases s.len(),
{
    if s.len() > 0 {
        let p = s.drop_last();
        assert forall|i: int| 0 <= i < p.len() implies p[i].start <= #[trigger] p[i].end by {
            assert(p[i] == s[i]);
        }
        assert forall|i: int| 0 <= i < p.len() - 1 implies #[trigger] p[i].end < p[i + 1].start by {
            assert(p[i] == s[i]);
            assert(p[i + 1] == s[i + 1]);
        }
        lemma_separated_increasing(p);
        assert forall|i: int, j: int| 0 <= i < j < s.len() implies #[trigger] s[i].end < #[trigger] s[j].start by {
            if j < s.len() - 1 {
                assert(p[i].end < p[j].start);
            } else if i < j - 1 {
                assert(p[i].end < p[j - 1].start);
                assert(s[j - 1].start <= s[j - 1].end);
                assert(s[j - 1].end < s[j].start);
            } else {
                assert(s[i].end < s[i + 1].start);
            }
        }
    }
}

/// Merging separated ranges leaves them as they are.
proof fn lemma_absorb_all_clean(s: Seq<Range<usize>>)
    requires
        separated(s),
    ensures
        absorb_all(s) == s,
    decreases s.len(),
{
    if s.len() > 0 {
        let p = s.drop_last();
        assert forall|i: int| 0 <= i < p.len() - 1 implies #[trigger] p[i].end < p[i + 1].start by {
            assert(p[i] == s[i]);
            assert(p[i + 1] == s[i + 1]);
        }
        lemma_absorb_all_clean(p);
        if p.len() > 0 {
            assert(s[s.len() - 2].end < s[s.len() - 1].start);
        }
        assert(p.push(s.last()) =~= s);
    }
}

/// Ordered by start, a reordering of ranges with distinct, increasing starts is those ranges.
proof fn lemma_sorted_permutation_unique(a: Seq<Range<usize>>, b: Seq<Range<usize>>)
    requires
        a.to_multiset() == b.to_multiset(),
        sorted_by_start(a),
        forall|i: int, j: int| 0 <= i < j < b.len() ==> #[trigger] b[i].start < #[trigger] b[j].start,
    ensures
        a == b,
    decreases a.len(),
{
    vstd::seq_lib::to_multiset_len(a);
    vstd::seq_lib::to_multiset_len(b);
    if a.len() == 0 {
        assert(a =~= b);
    } else {
        let x = b.last();
        let y = a.last();
        vstd::seq_lib::to_multiset_contains(b, x);
        vstd::seq_lib::to_multiset_contains(a, x);
        vstd::seq_lib::to_multiset_contains(a, y);
        vstd::seq_lib::to_multiset_contains(b, y);
        assert(b.contains(x));
        assert(a.contains(x));
        assert(a.contains(y));
        assert(b.contains(y));
        let k = choose|k: int| 0 <= k < a.len() && a[k] == x;
        let m = choose|m: int| 0 <= m < b.len() && b[m] == y;
        assert(a[k].start <= a[a.len() - 1].start);
        if m < b.len() - 1 {
            assert(b[m].start < b[b.len() - 1].start);
        }
        assert(y == x);
        vstd::seq_lib::to_multiset_remove(a, a.len() - 1);
        vstd::seq_lib::to_multiset_remove(b, b.len() - 1);
        assert(a.remove(a.len() - 1) =~= a.drop_last());
        assert(b.remove(b.len() - 1) =~= b.drop_last());
        let a2 = a.drop_last();
        let b2 = b.drop_last();
        assert forall|i: int, j: int| 0 <= i <= j < a2.len() implies a2[i].start <= a2[j].start by {
            assert(a2[i] == a[i]);
            assert(a2[j] == a[j]);
        }
        assert forall|i: int, j: int| 0 <= i < j < b2.len() implies #[trigger] b2[i].start < #[trigger] b2[j].start by {
            assert(b2[i] == b[i]);
            assert(b2[j] == b[j]);
        }
        lemma_sorted_permutation_unique(a2, b2);
        assert(a =~= a2.push(y));
        assert(b =~= b2.push(x));
    }
}

/// Cleaning up ranges that are already clean (none ends before it starts, each ends before the
/// next starts) leaves them as they are.
pub proof fn lemma_cleanup_idempotent(ranges: Seq<Range<usize>>, result: Seq<Range<usize>>)
    requires
        well_formed(ranges),
        separated(ranges),
        is_cleanup_of(result, ranges),
    ensures
        result == ranges,
{
    let sorted = choose|sorted: Seq<Range<usize>>|
        #![trigger absorb_all(sorted)]
        {
            &&& sorted.to_multiset() == ranges.to_multiset()
            &&& sorted_by_start(sorted)
            &&& result == absorb_all(sorted)
        };
    lemma_separated_increasing(ranges);
    assert forall|i: int, j: int| 0 <= i < j < ranges.len() implies #[trigger] ranges[i].start < #[trigger] ranges[j].start by {
        assert(ranges[i].start <= ranges[i].end);
        assert(ranges[i].end < ranges[j].start);
    }
    lemma_sorted_permutation_unique(sorted, ranges);
    lemma_absorb_all_clean(ranges);
}

} // verus!
