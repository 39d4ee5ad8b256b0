use vstd::prelude::*;

verus! {

/// The interval `iv` lies wholly at or below `v`: a scan at `v` moves past it.
pub open spec fn passed(iv: (u32, u32), v: u32) -> bool {
    iv.0 <= v && iv.1 <= v
}

/// The cursor that a query `v` leaves behind when the scan starts at `c`:
/// the first interval from `c` on that `v` has not passed, or the end.
pub open spec fn next_cursor(ivs: Seq<(u32, u32)>, c: int, v: u32) -> int
    decreases ivs.len() - c,
{
    if c < 0 || c >= ivs.len() {
        c
    } else if passed(ivs[c], v) {
        next_cursor(ivs, c + 1, v)
    } else {
        c
    }
}

/// What a query `v` answers when the scan stands at `c`: `None` once every
/// interval has been passed, else whether `v` reaches the candidate's start.
pub open spec fn classify_at(ivs: Seq<(u32, u32)>, c: int, v: u32) -> Option<bool> {
    let k = next_cursor(ivs, c, v);
    if k >= ivs.len() {
        None
    } else {
        Some(ivs[k].0 <= v)
    }
}

/// The cursor after the queries `qs` were asked in order, from the start.
pub open spec fn cursor_after(ivs: Seq<(u32, u32)>, qs: Seq<u32>) -> int
    decreases qs.len(),
{
    if qs.len() == 0 {
        0
    } else {
        next_cursor(ivs, cursor_after(ivs, qs.drop_last()), qs.last())
    }
}

/// The answer to the `i`-th of the queries `qs`, asked in order.
pub open spec fn scan_answer(ivs: Seq<(u32, u32)>, qs: Seq<u32>, i: int) -> Option<bool> {
    classify_at(ivs, cursor_after(ivs, qs.take(i)), qs[i])
}

/// Each interval is well formed and lies wholly before the next one.
pub open spec fn sorted_disjoint(ivs: Seq<(u32, u32)>) -> bool {
    &&& forall|j: int| 0 <= j < ivs.len() ==> (#[trigger] ivs[j]).0 <= ivs[j].1
    &&& forall|j: int, k: int| 0 <= j < k < ivs.len() ==> (#[trigger] ivs[j]).1 <= (#[trigger] ivs[k]).0
}

pub open spec fn non_decreasing(qs: Seq<u32>) -> bool {
    forall|i: int, j: int| 0 <= i <= j < qs.len() ==> qs[i] <= qs[j]
}

/// Some interval of `ivs` holds `v`.
pub open spec fn contains_point(ivs: Seq<(u32, u32)>, v: u32) -> bool {
    exists|j: int| 0 <= j < ivs.len() && (#[trigger] ivs[j]).0 <= v && v < ivs[j].1
}

proof fn lemma_next_cursor(ivs: Seq<(u32, u32)>, c: int, v: u32)
    requires
        0 <= c <= ivs.len(),
    ensures
        c <= next_cursor(ivs, c, v) <= ivs.len(),
        forall|j: int| c <= j < next_cursor(ivs, c, v) ==> passed(#[trigger] ivs[j], v),
        next_cursor(ivs, c, v) < ivs.len() ==> !passed(ivs[next_cursor(ivs, c, v)], v),
    decreases ivs.len() - c,
{
    if c < ivs.len() && passed(ivs[c], v) {
        lemma_next_cursor(ivs, c + 1, v);
    }
}

proof fn lemma_cursor_after(ivs: Seq<(u32, u32)>, qs: Seq<u32>)
    requires
        non_decreasing(qs),
    ensures
        0 <= cursor_after(ivs, qs) <= ivs.len(),
        qs.len() == 0 ==> cursor_after(ivs, qs) == 0,
        qs.len() > 0 ==> forall|j: int|
            0 <= j < cursor_after(ivs, qs) ==> (#[trigger] ivs[j]).1 <= qs.last(),
    decreases qs.len(),
{
    if qs.len() > 0 {
        let prev = qs.drop_last();
        lemma_cursor_after(ivs, prev);
        let c = cursor_after(ivs, prev);
        lemma_next_cursor(ivs, c, qs.last());
        if prev.len() > 0 {
            assert(prev.last() <= qs.last());
        }
    }
}

/// Where the scan stands when the `i`-th query is answered: every interval
/// before it ends at or below that query, and the query has not passed it.
proof fn lemma_answer_cursor(ivs: Seq<(u32, u32)>, qs: Seq<u32>, i: int)
    requires
        non_decreasing(qs),
        0 <= i < qs.len(),
    ensures
        ({
            let k = next_cursor(ivs, cursor_after(ivs, qs.take(i)), qs[i]);
            &&& 0 <= k <= ivs.len()
            &&& forall|j: int| 0 <= j < k ==> (#[trigger] ivs[j]).1 <= qs[i]
            &&& k < ivs.len() ==> !passed(ivs[k], qs[i])
            &&& scan_answer(ivs, qs, i) == (if k >= ivs.len() {
                None
            } else {
                Some(ivs[k].0 <= qs[i])
            })
        }),
{
    let pre = qs.take(i);
    assert(non_decreasing(pre));
    lemma_cursor_after(ivs, pre);
    let c = cursor_after(ivs, pre);
    lemma_next_cursor(ivs, c, qs[i]);
    if i > 0 {
        assert(pre.last() == qs[i - 1]);
    }
}

/// From a cursor that only intervals ending at or below `v` stand before,
/// a query `v` is answered `Some(true)` exactly when some interval holds it,
/// and the cursor it leaves again has only such intervals before it.
pub proof fn lemma_classify_from_cursor(ivs: Seq<(u32, u32)>, c: int, v: u32)
    requires
        sorted_disjoint(ivs),
        0 <= c <= ivs.len(),
        forall|j: int| 0 <= j < c ==> (#[trigger] ivs[j]).1 <= v,
    ensures
        (classify_at(ivs, c, v) == Some(true)) == contains_point(ivs, v),
        c <= next_cursor(ivs, c, v) <= ivs.len(),
        forall|j: int| 0 <= j < next_cursor(ivs, c, v) ==> (#[trigger] ivs[j]).1 <= v,
{
    lemma_next_cursor(ivs, c, v);
    let k = next_cursor(ivs, c, v);
    assert forall|j: int| 0 <= j < k implies (#[trigger] ivs[j]).1 <= v by {
        if j >= c {
            assert(passed(ivs[j], v));
        }
    }
    if contains_point(ivs, v) {
        let j = choose|j: int| 0 <= j < ivs.len() && (#[trigger] ivs[j]).0 <= v && v < ivs[j].1;
        assert(k <= j);
        if k < j {
            assert(ivs[k].1 <= ivs[j].0);
        }
    } else if k < ivs.len() && ivs[k].0 <= v {
        assert(ivs[k].0 <= v && v < ivs[k].1);
    }
}

/// For queries in non-decreasing order over sorted, non-overlapping intervals,
/// the scan says `Some(true)` of a query exactly when some interval holds it.
pub proof fn lemma_scan_matches_containment(ivs: Seq<(u32, u32)>, qs: Seq<u32>, i: int)
    requires
        sorted_disjoint(ivs),
        non_decreasing(qs),
        0 <= i < qs.len(),
    ensures
        (scan_answer(ivs, qs, i) == Some(true)) == contains_point(ivs, qs[i]),
{
    let pre = qs.take(i);
    assert(non_decreasing(pre));
    lemma_cursor_after(ivs, pre);
    if i > 0 {
        assert(pre.last() == qs[i - 1]);
    }
    lemma_classify_from_cursor(ivs, cursor_after(ivs, pre), qs[i]);
}

/// A query below the first interval's start is answered `Some(false)`.
pub proof fn lemma_scan_outside_before_first(ivs: Seq<(u32, u32)>, qs: Seq<u32>, i: int)
    requires
        sorted_disjoint(ivs),
        non_decreasing(qs),
        0 <= i < qs.len(),
        ivs.len() > 0,
        qs[i] < ivs[0].0,
    ensures
        scan_answer(ivs, qs, i) == Some(false),
{
    lemma_answer_cursor(ivs, qs, i);
    let k = next_cursor(ivs, cursor_after(ivs, qs.take(i)), qs[i]);
    if k > 0 {
        assert(ivs[0].1 <= qs[i]);
    }
}

/// A query is answered `None` exactly when it lies at or past the last
/// interval's end, so never while an interval it has not passed remains.
pub proof fn lemma_scan_exhausted_iff_past_end(ivs: Seq<(u32, u32)>, qs: Seq<u32>, i: int)
    requires
        sorted_disjoint(ivs),
        non_decreasing(qs),
        0 <= i < qs.len(),
    ensures
        (scan_answer(ivs, qs, i) is None) == (ivs.len() == 0 || ivs.last().1 <= qs[i]),
{
    lemma_answer_cursor(ivs, qs, i);
    let k = next_cursor(ivs, cursor_after(ivs, qs.take(i)), qs[i]);
    let n = ivs.len();
    if n > 0 && ivs.last().1 <= qs[i] && k < n {
        if k < n - 1 {
            assert(ivs[k].1 <= ivs[n - 1].0);
        }
        assert(passed(ivs[k], qs[i]));
    }
}

/// Once a query has been answered `None`, every later query is too.
pub proof fn lemma_scan_exhausted_stays(ivs: Seq<(u32, u32)>, qs: Seq<u32>, i: int, j: int)
    requires
        sorted_disjoint(ivs),
        non_decreasing(qs),
        0 <= i <= j < qs.len(),
        scan_answer(ivs, qs, i) is None,
    ensures
        scan_answer(ivs, qs, j) is None,
{
    lemma_scan_exhausted_iff_past_end(ivs, qs, i);
    lemma_scan_exhausted_iff_past_end(ivs, qs, j);
}

/// A single forward pass over sorted, non-overlapping half-open intervals that
/// answers, for queries given in non-decreasing order, whether each lies in one.
pub struct SortedIntervalIntersect {
    intervals: Vec<(u32, u32)>,
    cursor: usize,
}

impl SortedIntervalIntersect {
    pub closed spec fn intervals(&self) -> Seq<(u32, u32)> {
        self.intervals@
    }

    pub closed spec fn cursor(&self) -> int {
        self.cursor as int
    }

    pub open spec fn wf(&self) -> bool {
        0 <= self.cursor() <= self.intervals().len()
    }

    /// A scanner over `intervals`, standing before the first of them.
    /// The intervals are meant to be sorted by start and not to overlap.
    pub fn new(intervals: Vec<(u32, u32)>) -> (r: Self)
        ensures
            r.wf(),
            r.intervals() == intervals@,
            r.cursor() == 0,
    {
        SortedIntervalIntersect { intervals, cursor: 0 }
    }

    /// `Some(true)` where `value` lies in the candidate interval, `Some(false)`
    /// where it falls in the gap before it, and `None` once every interval has
    /// been passed. Intervals that `value` has passed are never looked at again.
    pub fn in_interval(&mut self, value: u32) -> (r: Option<bool>)
        requires
            old(self).wf(),
        ensures
            final(self).wf(),
            final(self).intervals() == old(self).intervals(),
            final(self).cursor() == next_cursor(old(self).intervals(), old(self).cursor(), value),
            r == classify_at(old(self).intervals(), old(self).cursor(), value),
    {
        let ghost ivs = self.intervals@;
        let ghost c0 = self.cursor as int;
        let n = self.intervals.len();
        let mut c: usize = self.cursor;
        let mut answer: Option<bool> = None;
        while c < n
            invariant_except_break
                answer is None,
            invariant
                n == ivs.len(),
                self.intervals@ == ivs,
                c0 <= c <= n,
                0 <= c0 <= n,
                next_cursor(ivs, c0, value) == next_cursor(ivs, c as int, value),
            ensures
                c <= n,
                next_cursor(ivs, c0, value) == c as int,
                answer == classify_at(ivs, c0, value),
            decreases n - c,
        {
            let (start, end) = self.intervals[c];
            if value < start {
                answer = Some(false);
                break;
            }
            if value < end {
                answer = Some(true);
                break;
            }
            c = c + 1;
        }
        self.cursor = c;
        answer
    }
}

} // verus!
