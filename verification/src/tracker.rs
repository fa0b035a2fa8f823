//! The bookkeeping of written spans: a list of spans of which no two
//! overlap or touch. A new span is merged with every span that it reaches.

use vstd::prelude::*;
use crate::address_range::AddressRange;

verus! {

/// Every span is well formed, and no two of them overlap or touch.
pub open spec fn spans_wf(spans: Seq<AddressRange>) -> bool {
    &&& forall|i: int| 0 <= i < spans.len() ==> (#[trigger] spans[i]).wf()
    &&& forall|i: int, j: int|
        0 <= i < j < spans.len() ==> !(#[trigger] spans[i]).touches(#[trigger] spans[j])
}

/// The spans of `spans` that `range` neither overlaps nor touches, in
/// their order.
pub open spec fn spans_apart(spans: Seq<AddressRange>, range: AddressRange) -> Seq<AddressRange>
    decreases spans.len(),
{
    if spans.len() == 0 {
        spans
    } else if spans.last().touches(range) {
        spans_apart(spans.drop_last(), range)
    } else {
        spans_apart(spans.drop_last(), range).push(spans.last())
    }
}

/// The place of the first span of `spans` that `range` overlaps or
/// touches; the length of `spans` if there is none.
pub open spec fn first_touching(spans: Seq<AddressRange>, range: AddressRange) -> int
    decreases spans.len(),
{
    if spans.len() == 0 {
        0
    } else {
        let before = first_touching(spans.drop_last(), range);
        if before < spans.len() - 1 || spans.last().touches(range) {
            before
        } else {
            spans.len() as int
        }
    }
}

/// The smallest span that holds `range` and every span of `spans` that
/// `range` overlaps or touches.
pub open spec fn hull(spans: Seq<AddressRange>, range: AddressRange) -> AddressRange
    decreases spans.len(),
{
    if spans.len() == 0 {
        range
    } else if spans.last().touches(range) {
        hull(spans.drop_last(), range).join(spans.last())
    } else {
        hull(spans.drop_last(), range)
    }
}

/// The spans after `range` was merged in: those that `range` does not reach
/// stay, and the others give way to one span that holds them and `range`,
/// in the place of the first of them, or at the end if `range` reaches none.
pub open spec fn merged_spans(spans: Seq<AddressRange>, range: AddressRange) -> Seq<AddressRange> {
    spans_apart(spans, range).insert(first_touching(spans, range), hull(spans, range))
}

/// The spans of addresses that were written, none of which overlaps or
/// touches another. Its view is the list of the spans.
pub struct AddressRangeTracker {
    ranges: Vec<AddressRange>,
}

impl View for AddressRangeTracker {
    type V = Seq<AddressRange>;

    closed spec fn view(&self) -> Seq<AddressRange> {
        self.ranges@
    }
}

impl AddressRangeTracker {
    /// The spans are well formed, and no two of them overlap or touch.
    pub open spec fn wf(&self) -> bool {
        spans_wf(self@)
    }

    /// Creates a tracker without spans.
    pub fn new() -> (tracker: AddressRangeTracker)
        ensures
            tracker@ == Seq::<AddressRange>::empty(),
            tracker.wf(),
    {
        AddressRangeTracker { ranges: Vec::new() }
    }

    /// The number of spans.
    pub fn len(&self) -> (n: usize)
        ensures
            n == self@.len(),
    {
        self.ranges.len()
    }

    /// The span at place `index`.
    pub fn get(&self, index: usize) -> (range: AddressRange)
        requires
            index < self@.len(),
        ensures
            range == self@[index as int],
    {
        self.ranges[index]
    }

    /// The spans, in their order.
    pub fn ranges(&self) -> (list: Vec<AddressRange>)
        ensures
            list@ == self@,
    {
        self.ranges.clone()
    }

    /// Merges `range` with every span that it overlaps or touches, and
    /// returns whether there was one. The merged span stands in the place
    /// of the first of them. A span that reaches none is added at the end.
    pub fn merge_or_insert(&mut self, range: AddressRange) -> (merged: bool)
        requires
            old(self).wf(),
            range.wf(),
        ensures
            final(self).wf(),
            final(self)@ == merged_spans(old(self)@, range),
            merged == exists|i: int| 0 <= i < old(self)@.len() && old(self)@[i].touches(range),
    {
        let ghost spans = self.ranges@;
        let count: usize = self.ranges.len();
        let mut kept: Vec<AddressRange> = Vec::with_capacity(count);
        let mut whole: AddressRange = range;
        let mut first: usize = 0;
        let mut i: usize = 0;
        while i < count
            invariant
                i <= count,
                count == spans.len(),
                spans == self.ranges@,
                kept@ == spans_apart(spans.take(i as int), range),
                whole == hull(spans.take(i as int), range),
                first == first_touching(spans.take(i as int), range),
                first <= kept@.len() <= i,
                whole.start <= range.start,
                range.end <= whole.end,
            decreases count - i,
        {
            let current = self.ranges[i];
            assert(spans.take(i + 1).drop_last() =~= spans.take(i as int));
            assert(spans.take(i + 1).last() == current);
            if current.overlaps(&range) {
                whole.merge(current);
            } else {
                kept.push(current);
                if first == i {
                    first = i + 1;
                }
            }
            i += 1;
        }
        proof {
            assert(spans.take(count as int) =~= spans);
            lemma_first_touching(spans, range);
            lemma_merge_keeps_wf(spans, range);
        }
        kept.insert(first, whole);
        self.ranges = kept;
        first < count
    }
}

/// The first span that `range` reaches is one that it reaches, and it
/// reaches none before it.
pub proof fn lemma_first_touching(spans: Seq<AddressRange>, range: AddressRange)
    ensures
        0 <= first_touching(spans, range) <= spans.len(),
        first_touching(spans, range) < spans.len() ==> spans[first_touching(
            spans,
            range,
        )].touches(range),
        forall|k: int|
            0 <= k < first_touching(spans, range) ==> !(#[trigger] spans[k]).touches(range),
        first_touching(spans, range) < spans.len() <==> exists|i: int|
            0 <= i < spans.len() && spans[i].touches(range),
    decreases spans.len(),
{
    if spans.len() > 0 {
        let front = spans.drop_last();
        lemma_first_touching(front, range);
        let first = first_touching(spans, range);
        assert forall|k: int| 0 <= k < first implies !(#[trigger] spans[k]).touches(range) by {
            if k < front.len() {
                assert(front[k] == spans[k]);
            }
        }
        if first < spans.len() {
            if first < front.len() {
                assert(front[first] == spans[first]);
            }
            assert(spans[first].touches(range));
        }
    }
}

/// The place among `spans` of the span that stands at place `k` of
/// those that `range` does not reach.
pub open spec fn place_of_kept(spans: Seq<AddressRange>, range: AddressRange, k: int) -> int
    decreases spans.len(),
{
    if spans.len() == 0 {
        0
    } else if !spans.last().touches(range) && k == spans_apart(spans, range).len() - 1 {
        spans.len() - 1
    } else {
        place_of_kept(spans.drop_last(), range, k)
    }
}

/// Each span that stays through a merge is one of the spans before it,
/// one that `range` does not reach, and the spans that stay keep their
/// order.
pub proof fn lemma_place_of_kept(spans: Seq<AddressRange>, range: AddressRange, k: int)
    requires
        0 <= k < spans_apart(spans, range).len(),
    ensures
        0 <= place_of_kept(spans, range, k) < spans.len(),
        spans[place_of_kept(spans, range, k)] == spans_apart(spans, range)[k],
        !spans[place_of_kept(spans, range, k)].touches(range),
        forall|j: int|
            0 <= j < k ==> place_of_kept(spans, range, j) < place_of_kept(spans, range, k),
    decreases spans.len(),
{
    let kept = spans_apart(spans, range);
    if spans.len() > 0 {
        let front = spans.drop_last();
        if !spans.last().touches(range) && k == kept.len() - 1 {
            assert forall|j: int| 0 <= j < k implies place_of_kept(spans, range, j)
                < place_of_kept(spans, range, k) by {
                lemma_place_of_kept(front, range, j);
            }
        } else {
            lemma_place_of_kept(front, range, k);
            assert(front[place_of_kept(front, range, k)] == spans[place_of_kept(front, range, k)]);
            assert forall|j: int| 0 <= j < k implies place_of_kept(spans, range, j)
                < place_of_kept(spans, range, k) by {
                assert(place_of_kept(spans, range, j) == place_of_kept(front, range, j));
            }
        }
    }
}

/// A span that lies apart from `range`, and from every span that `range`
/// reaches, lies apart from the span that the merge makes of these.
pub proof fn lemma_hull_apart(spans: Seq<AddressRange>, range: AddressRange, other: AddressRange)
    requires
        range.wf(),
        other.wf(),
        !other.touches(range),
        forall|i: int|
            0 <= i < spans.len() && (#[trigger] spans[i]).touches(range) ==> !other.touches(
                spans[i],
            ),
    ensures
        !other.touches(hull(spans, range)),
    decreases spans.len(),
{
    if spans.len() > 0 {
        let front = spans.drop_last();
        assert forall|i: int| 0 <= i < front.len() && (#[trigger] front[i]).touches(
            range,
        ) implies !other.touches(front[i]) by {
            assert(front[i] == spans[i]);
        }
        lemma_hull_apart(front, range, other);
        lemma_hull_holds_range(front, range);
        if spans.last().touches(range) {
            assert(!other.touches(spans[spans.len() - 1]));
        }
    }
}

/// Spans of which no two overlap or touch stay so when a span is put
/// among them that lies apart from each.
pub proof fn lemma_insert_keeps_wf(spans: Seq<AddressRange>, place: int, whole: AddressRange)
    requires
        spans_wf(spans),
        whole.wf(),
        0 <= place <= spans.len(),
        forall|k: int| 0 <= k < spans.len() ==> !(#[trigger] spans[k]).touches(whole),
    ensures
        spans_wf(spans.insert(place, whole)),
{
    let after = spans.insert(place, whole);
    assert forall|i: int| 0 <= i < after.len() implies (#[trigger] after[i]).wf() by {
        if i < place {
            assert(after[i] == spans[i]);
        } else if i > place {
            assert(after[i] == spans[i - 1]);
        }
    }
    assert forall|i: int, j: int| 0 <= i < j < after.len() implies !(#[trigger] after[i]).touches(
        #[trigger] after[j],
    ) by {
        let a = if i < place {
            i
        } else {
            i - 1
        };
        let b = if j < place {
            j
        } else {
            j - 1
        };
        if i != place {
            assert(after[i] == spans[a]);
        }
        if j != place {
            assert(after[j] == spans[b]);
        }
    }
}

/// A merge keeps the spans in order: after it, as before, every span is
/// well formed and no two overlap or touch.
pub proof fn lemma_merge_keeps_wf(spans: Seq<AddressRange>, range: AddressRange)
    requires
        spans_wf(spans),
        range.wf(),
    ensures
        spans_wf(merged_spans(spans, range)),
{
    let kept = spans_apart(spans, range);
    let place = first_touching(spans, range);
    let whole = hull(spans, range);
    lemma_spans_apart(spans, range);
    lemma_hull_holds_range(spans, range);
    assert forall|k: int| 0 <= k < kept.len() implies (#[trigger] kept[k]).wf() && !kept[k].touches(
        whole,
    ) by {
        lemma_place_of_kept(spans, range, k);
        let at = place_of_kept(spans, range, k);
        assert forall|i: int| 0 <= i < spans.len() && (#[trigger] spans[i]).touches(
            range,
        ) implies !kept[k].touches(spans[i]) by {
            if i < at {
                assert(!spans[i].touches(spans[at]));
            } else if at < i {
                assert(!spans[at].touches(spans[i]));
            }
        }
        lemma_hull_apart(spans, range, kept[k]);
    }
    assert forall|i: int, j: int| 0 <= i < j < kept.len() implies !(#[trigger] kept[i]).touches(
        #[trigger] kept[j],
    ) by {
        lemma_place_of_kept(spans, range, i);
        lemma_place_of_kept(spans, range, j);
        assert(!spans[place_of_kept(spans, range, i)].touches(
            spans[place_of_kept(spans, range, j)],
        ));
    }
    lemma_insert_keeps_wf(kept, place, whole);
}

/// The span that comes of a merge holds the span that was merged in.
pub proof fn lemma_hull_holds_range(spans: Seq<AddressRange>, range: AddressRange)
    ensures
        hull(spans, range).start <= range.start,
        range.end <= hull(spans, range).end,
    decreases spans.len(),
{
    if spans.len() > 0 {
        lemma_hull_holds_range(spans.drop_last(), range);
    }
}

/// The spans that stay through a merge are spans that `range` does not
/// reach, and the merged span is put among them.
pub proof fn lemma_spans_apart(spans: Seq<AddressRange>, range: AddressRange)
    ensures
        spans_apart(spans, range).len() <= spans.len(),
        0 <= first_touching(spans, range) <= spans_apart(spans, range).len(),
        forall|k: int|
            0 <= k < spans_apart(spans, range).len() ==> !(#[trigger] spans_apart(
                spans,
                range,
            )[k]).touches(range),
    decreases spans.len(),
{
    if spans.len() > 0 {
        lemma_spans_apart(spans.drop_last(), range);
    }
}

/// A list of spans that `range` does not reach, with one span `whole` put
/// in that holds `range`: up to each length, what a merge of `range` makes
/// of it.
proof fn lemma_merge_into_merged(
    kept: Seq<AddressRange>,
    place: int,
    whole: AddressRange,
    range: AddressRange,
    upto: int,
)
    requires
        0 <= place <= kept.len(),
        0 <= upto <= kept.len() + 1,
        range.wf(),
        whole.start <= range.start,
        range.end <= whole.end,
        forall|k: int| 0 <= k < kept.len() ==> !(#[trigger] kept[k]).touches(range),
    ensures
        ({
            let list = kept.insert(place, whole).take(upto);
            if upto <= place {
                &&& spans_apart(list, range) == kept.take(upto)
                &&& first_touching(list, range) == upto
                &&& hull(list, range) == range
            } else {
                &&& spans_apart(list, range) == kept.take(upto - 1)
                &&& first_touching(list, range) == place
                &&& hull(list, range) == whole
            }
        }),
    decreases upto,
{
    let all = kept.insert(place, whole);
    let list = all.take(upto);
    if upto == 0 {
        assert(kept.take(0) =~= list);
    } else {
        lemma_merge_into_merged(kept, place, whole, range, upto - 1);
        assert(list.drop_last() =~= all.take(upto - 1));
        if upto - 1 < place {
            assert(list.last() == kept[upto - 1]);
            assert(kept.take(upto) =~= kept.take(upto - 1).push(kept[upto - 1]));
        } else if upto - 1 == place {
            assert(list.last() == whole);
            assert(range.join(whole) == whole);
        } else {
            assert(list.last() == kept[upto - 2]);
            assert(kept.take(upto - 1) =~= kept.take(upto - 2).push(kept[upto - 2]));
        }
    }
}

/// Merging a span that was merged before changes nothing: the span is
/// found in the list, and the list stays as it is.
pub proof fn lemma_merge_twice(spans: Seq<AddressRange>, range: AddressRange)
    requires
        range.wf(),
    ensures
        merged_spans(merged_spans(spans, range), range) == merged_spans(spans, range),
        exists|i: int|
            0 <= i < merged_spans(spans, range).len() && merged_spans(spans, range)[i].touches(
                range,
            ),
{
    let kept = spans_apart(spans, range);
    let place = first_touching(spans, range);
    let whole = hull(spans, range);
    let once = merged_spans(spans, range);
    lemma_hull_holds_range(spans, range);
    lemma_spans_apart(spans, range);
    lemma_merge_into_merged(kept, place, whole, range, kept.len() as int + 1);
    assert(once.take(kept.len() as int + 1) =~= once);
    assert(kept.take(kept.len() as int) =~= kept);
    assert(once[place] == whole);
    assert(once[place].touches(range));
}

/// Whether one of the spans of `spans` holds `address`, its end counted in.
pub open spec fn spans_hold(spans: Seq<AddressRange>, address: int) -> bool {
    exists|i: int| 0 <= i < spans.len() && (#[trigger] spans[i]).start <= address <= spans[i].end
}

/// The merged span holds exactly the addresses of `range` and of the
/// spans that `range` overlaps or touches.
pub proof fn lemma_hull_is_union(spans: Seq<AddressRange>, range: AddressRange, address: int)
    requires
        range.wf(),
    ensures
        hull(spans, range).start <= address <= hull(spans, range).end <==> (range.start <= address
            <= range.end || exists|i: int|
            0 <= i < spans.len() && (#[trigger] spans[i]).touches(range) && spans[i].start
                <= address <= spans[i].end),
    decreases spans.len(),
{
    if spans.len() > 0 {
        let front = spans.drop_last();
        let last = spans.last();
        lemma_hull_is_union(front, range, address);
        lemma_hull_holds_range(front, range);
        let in_front = exists|i: int|
            0 <= i < front.len() && (#[trigger] front[i]).touches(range) && front[i].start
                <= address <= front[i].end;
        let in_all = exists|i: int|
            0 <= i < spans.len() && (#[trigger] spans[i]).touches(range) && spans[i].start
                <= address <= spans[i].end;
        if in_front {
            let i = choose|i: int|
                0 <= i < front.len() && (#[trigger] front[i]).touches(range) && front[i].start
                    <= address <= front[i].end;
            assert(spans[i] == front[i]);
        }
        if last.touches(range) && last.start <= address <= last.end {
            assert(spans[spans.len() - 1] == last);
        }
        if in_all {
            let i = choose|i: int|
                0 <= i < spans.len() && (#[trigger] spans[i]).touches(range) && spans[i].start
                    <= address <= spans[i].end;
            if i < front.len() {
                assert(front[i] == spans[i]);
            }
        }
    }
}

/// The spans that stay through a merge are those of the spans before it
/// that `range` does not reach.
pub proof fn lemma_spans_apart_holds(spans: Seq<AddressRange>, range: AddressRange, address: int)
    ensures
        spans_hold(spans_apart(spans, range), address) <==> exists|i: int|
            0 <= i < spans.len() && !(#[trigger] spans[i]).touches(range) && spans[i].start
                <= address <= spans[i].end,
    decreases spans.len(),
{
    let kept = spans_apart(spans, range);
    let apart = exists|i: int|
        0 <= i < spans.len() && !(#[trigger] spans[i]).touches(range) && spans[i].start <= address
            <= spans[i].end;
    if spans.len() > 0 {
        let front = spans.drop_last();
        let last = spans.last();
        let kept_front = spans_apart(front, range);
        lemma_spans_apart_holds(front, range, address);
        if spans_hold(kept, address) {
            let k = choose|k: int|
                0 <= k < kept.len() && (#[trigger] kept[k]).start <= address <= kept[k].end;
            if !last.touches(range) && k == kept.len() - 1 {
                assert(spans[spans.len() - 1] == last);
            } else {
                assert(kept_front[k] == kept[k]);
                let i = choose|i: int|
                    0 <= i < front.len() && !(#[trigger] front[i]).touches(range) && front[i].start
                        <= address <= front[i].end;
                assert(spans[i] == front[i]);
            }
        }
        if apart {
            let i = choose|i: int|
                0 <= i < spans.len() && !(#[trigger] spans[i]).touches(range) && spans[i].start
                    <= address <= spans[i].end;
            if i < front.len() {
                assert(front[i] == spans[i]);
                let k = choose|k: int|
                    0 <= k < kept_front.len() && (#[trigger] kept_front[k]).start <= address
                        <= kept_front[k].end;
                assert(kept[k] == kept_front[k]);
            } else {
                assert(kept[kept.len() - 1] == last);
            }
        }
    }
}

/// A merge adds the addresses of the new span to those that the spans
/// hold, and takes none away.
pub proof fn lemma_merge_holds_union(spans: Seq<AddressRange>, range: AddressRange, address: int)
    requires
        range.wf(),
    ensures
        spans_hold(merged_spans(spans, range), address) <==> (spans_hold(spans, address)
            || range.start <= address <= range.end),
{
    let kept = spans_apart(spans, range);
    let place = first_touching(spans, range);
    let whole = hull(spans, range);
    let after = merged_spans(spans, range);
    lemma_spans_apart(spans, range);
    lemma_hull_is_union(spans, range, address);
    lemma_spans_apart_holds(spans, range, address);
    assert(after[place] == whole);
    if spans_hold(after, address) {
        let k = choose|k: int|
            0 <= k < after.len() && (#[trigger] after[k]).start <= address <= after[k].end;
        if k < place {
            assert(kept[k] == after[k]);
        } else if k > place {
            assert(kept[k - 1] == after[k]);
        }
    }
    if spans_hold(kept, address) {
        let k = choose|k: int|
            0 <= k < kept.len() && (#[trigger] kept[k]).start <= address <= kept[k].end;
        if k < place {
            assert(after[k] == kept[k]);
        } else {
            assert(after[k + 1] == kept[k]);
        }
    }
    if spans_hold(spans, address) {
        let i = choose|i: int|
            0 <= i < spans.len() && (#[trigger] spans[i]).start <= address <= spans[i].end;
        if spans[i].touches(range) {
            assert(whole.start <= address <= whole.end);
        } else {
            assert(spans_hold(kept, address));
        }
    }
}

} // verus!
