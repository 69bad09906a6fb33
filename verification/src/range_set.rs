//! The range sets of the `rangemap` crate, as ordered lists of ranges.
use rangemap::RangeSet;
use vstd::prelude::*;

verus! {

/// `rangemap::RangeSet`, a set of numbers kept as ranges.
#[verifier::external_type_specification]
#[verifier::external_body]
#[verifier::reject_recursive_types(T)]
pub struct ExRangeSet<T>(RangeSet<T>);

/// The ranges that a set holds, in order, each as its start and its end.
pub uninterp spec fn range_list(set: RangeSet<u64>) -> Seq<(u64, u64)>;

/// The ranges are in order, none is empty, and no two of them touch.
pub open spec fn apart(list: Seq<(u64, u64)>) -> bool {
    &&& forall|i: int| 0 <= i < list.len() ==> (#[trigger] list[i]).0 < list[i].1
    &&& forall|i: int, j: int|
        0 <= i < j < list.len() ==> (#[trigger] list[i]).1 < (#[trigger] list[j]).0
}

/// Whether the number is in the set.
pub open spec fn covered(list: Seq<(u64, u64)>, x: int) -> bool {
    exists|i: int| 0 <= i < list.len() && (#[trigger] list[i]).0 <= x < list[i].1
}

/// Whether a range of the set begins before `end` and ends behind `start`.
pub open spec fn hits(range: (u64, u64), start: int, end: int) -> bool {
    range.0 < end && start < range.1
}

/// Whether any range of the set begins before `end` and ends behind `start`.
pub open spec fn any_hit(list: Seq<(u64, u64)>, start: int, end: int) -> bool {
    exists|i: int| 0 <= i < list.len() && hits(#[trigger] list[i], start, end)
}

/// The place of the first range that begins before `end` and ends behind `start`.
pub open spec fn is_first_hit(list: Seq<(u64, u64)>, start: int, end: int, at: int) -> bool {
    &&& 0 <= at < list.len()
    &&& hits(list[at], start, end)
    &&& forall|j: int| 0 <= j < at ==> !hits(#[trigger] list[j], start, end)
}

/// The place of the last range that begins before `end` and ends behind `start`.
pub open spec fn is_last_hit(list: Seq<(u64, u64)>, start: int, end: int, at: int) -> bool {
    &&& 0 <= at < list.len()
    &&& hits(list[at], start, end)
    &&& forall|j: int| at < j < list.len() ==> !hits(#[trigger] list[j], start, end)
}

/// The numbers of `after` are those of `before` and those from `start` to `end`.
pub open spec fn is_union(
    before: Seq<(u64, u64)>,
    start: int,
    end: int,
    after: Seq<(u64, u64)>,
) -> bool {
    forall|x: int| #[trigger]
        covered(after, x) <==> covered(before, x) || start <= x < end
}

/// The numbers of `after` are those of `before` without those from `start` to `end`.
pub open spec fn is_difference(
    before: Seq<(u64, u64)>,
    start: int,
    end: int,
    after: Seq<(u64, u64)>,
) -> bool {
    forall|x: int| #[trigger]
        covered(after, x) <==> covered(before, x) && !(start <= x < end)
}

/// `RangeSet::new` is empty.
#[verifier::external_body]
pub(crate) fn new_set() -> (r: RangeSet<u64>)
    ensures
        range_list(r) == Seq::<(u64, u64)>::empty(),
{
    RangeSet::new()
}

/// `RangeSet::insert` adds the numbers of a range, and joins it to the ranges that it touches. It
/// panics if the range is empty.
#[verifier::external_body]
pub(crate) fn insert(set: &mut RangeSet<u64>, start: u64, end: u64)
    requires
        start < end,
        apart(range_list(*old(set))),
    ensures
        apart(range_list(*final(set))),
        is_union(range_list(*old(set)), start as int, end as int, range_list(*final(set))),
{
    set.insert(start..end)
}

/// `RangeSet::remove` takes the numbers of a range out. It panics if the range is empty.
#[verifier::external_body]
pub(crate) fn remove(set: &mut RangeSet<u64>, start: u64, end: u64)
    requires
        start < end,
        apart(range_list(*old(set))),
    ensures
        apart(range_list(*final(set))),
        is_difference(range_list(*old(set)), start as int, end as int, range_list(*final(set))),
{
    set.remove(start..end)
}

/// `RangeSet::len` counts the ranges.
#[verifier::external_body]
pub(crate) fn count(set: &RangeSet<u64>) -> (r: usize)
    ensures
        r == range_list(*set).len(),
{
    set.len()
}

/// `RangeSet::is_empty` tells whether there are no ranges.
#[verifier::external_body]
pub(crate) fn is_empty(set: &RangeSet<u64>) -> (r: bool)
    ensures
        r == (range_list(*set).len() == 0),
{
    set.is_empty()
}

/// `RangeSet::iter` hands out the ranges in order.
#[verifier::external_body]
pub(crate) fn ranges(set: &RangeSet<u64>) -> (r: Vec<(u64, u64)>)
    ensures
        r@ == range_list(*set),
{
    set.iter().map(|range| (range.start, range.end)).collect()
}

/// `RangeSet::overlaps` tells whether a stored range begins before `end` and ends behind `start`.
#[verifier::external_body]
pub(crate) fn overlaps(set: &RangeSet<u64>, start: u64, end: u64) -> (r: bool)
    requires
        apart(range_list(*set)),
    ensures
        r == any_hit(range_list(*set), start as int, end as int),
{
    set.overlaps(&(start..end))
}

/// The first range that `RangeSet::overlapping` hands out: the first that begins before `end` and
/// ends behind `start`.
#[verifier::external_body]
pub(crate) fn first_overlapping(set: &RangeSet<u64>, start: u64, end: u64) -> (r: Option<
    (u64, u64),
>)
    requires
        apart(range_list(*set)),
    ensures
        r is None ==> !any_hit(range_list(*set), start as int, end as int),
        r matches Some(range) ==> exists|at: int|
            #[trigger] is_first_hit(range_list(*set), start as int, end as int, at)
                && range_list(*set)[at] == range,
{
    set.overlapping(start..end).next().map(|range| (range.start, range.end))
}

/// The last range that `RangeSet::overlapping` hands out: the last that begins before `end` and
/// ends behind `start`.
#[verifier::external_body]
pub(crate) fn last_overlapping(set: &RangeSet<u64>, start: u64, end: u64) -> (r: Option<
    (u64, u64),
>)
    requires
        apart(range_list(*set)),
    ensures
        r is None ==> !any_hit(range_list(*set), start as int, end as int),
        r matches Some(range) ==> exists|at: int|
            #[trigger] is_last_hit(range_list(*set), start as int, end as int, at)
                && range_list(*set)[at] == range,
{
    set.overlapping(start..end).next_back().map(|range| (range.start, range.end))
}

/// A set of the numbers from `start` to `end` is kept as that one range.
pub proof fn lemma_one_range(list: Seq<(u64, u64)>, start: u64, end: u64)
    requires
        apart(list),
        start < end,
        forall|x: int| #[trigger] covered(list, x) <==> start <= x < end,
    ensures
        list == seq![(start, end)],
{
    assert(covered(list, start as int));
    let i = choose|i: int| 0 <= i < list.len() && (#[trigger] list[i]).0 <= start < list[i].1;
    assert(covered(list, list[i].0 as int)) by {
        assert(list[i].0 <= list[i].0 < list[i].1);
    }
    assert(covered(list, list[i].1 - 1)) by {
        assert(list[i].0 <= list[i].1 - 1 < list[i].1);
    }
    if list[i].1 < end {
        assert(covered(list, list[i].1 as int));
    }
    assert(list[i] == (start, end));
    if i > 0 {
        assert(list[0].0 <= list[0].0 < list[0].1);
        assert(covered(list, list[0].0 as int));
    }
    if i + 1 < list.len() {
        assert(list[i + 1].0 <= list[i + 1].0 < list[i + 1].1);
        assert(covered(list, list[i + 1].0 as int));
    }
    assert(list =~= seq![(start, end)]);
}

/// There is at most one first range.
pub proof fn lemma_first_hit(list: Seq<(u64, u64)>, start: int, end: int, a: int, b: int)
    requires
        is_first_hit(list, start, end, a),
        is_first_hit(list, start, end, b),
    ensures
        a == b,
{
}

/// There is at most one last range.
pub proof fn lemma_last_hit(list: Seq<(u64, u64)>, start: int, end: int, a: int, b: int)
    requires
        is_last_hit(list, start, end, a),
        is_last_hit(list, start, end, b),
    ensures
        a == b,
{
}

} // verus!
