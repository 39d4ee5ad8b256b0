use vstd::prelude::*;
use vstd::string::StringSliceAdditionalSpecFns;
use vstd::utf8::encode_utf8;

use crate::interval::{
    classify_at, contains_point, lemma_classify_from_cursor, next_cursor, passed, sorted_disjoint,
    SortedIntervalIntersect,
};
use crate::record::{is_header, is_header_line, position_of, record_position, RecordError};

verus! {

/// What one line does to a scan standing at `c`: the cursor it leaves and
/// whether the line is kept, or the error that stops the job.
/// Header lines are kept and leave the scan where it was; a data line is kept
/// when the scan places its position inside an interval.
pub open spec fn step_line(ivs: Seq<(u32, u32)>, c: int, b: Seq<u8>) -> Result<(int, bool), RecordError> {
    if is_header(b) {
        Ok((c, true))
    } else {
        match position_of(b) {
            Err(e) => Err(e),
            Ok(p) => Ok((next_cursor(ivs, c, p), classify_at(ivs, c, p) == Some(true))),
        }
    }
}

/// The lines that survive filtering `lines` against `ivs` from cursor `c`, in
/// their order, or the error of the first line that has no position.
pub open spec fn filter_from(ivs: Seq<(u32, u32)>, c: int, lines: Seq<Seq<char>>) -> Result<Seq<Seq<char>>, RecordError>
    decreases lines.len(),
{
    if lines.len() == 0 {
        Ok(Seq::empty())
    } else {
        match step_line(ivs, c, encode_utf8(lines[0])) {
            Err(e) => Err(e),
            Ok((k, keep)) => match filter_from(ivs, k, lines.drop_first()) {
                Err(e) => Err(e),
                Ok(rest) => Ok(if keep { seq![lines[0]] + rest } else { rest }),
            },
        }
    }
}

pub open spec fn lines_view(v: Seq<String>) -> Seq<Seq<char>> {
    v.map_values(|s: String| s@)
}

/// `acc` put before what `r` keeps; an error stays as it is.
pub open spec fn prepend(acc: Seq<Seq<char>>, r: Result<Seq<Seq<char>>, RecordError>) -> Result<Seq<Seq<char>>, RecordError> {
    match r {
        Err(e) => Err(e),
        Ok(rest) => Ok(acc + rest),
    }
}

/// A header line, or a data line whose position is below `u32::MAX`.
pub open spec fn header_or_below_max(b: Seq<u8>) -> bool {
    is_header(b) || match position_of(b) {
        Ok(p) => p < u32::MAX,
        Err(_) => false,
    }
}

/// Filtering against the single region `[0, u32::MAX)` keeps every header line
/// and every data line, in their order, where each data line has a position
/// below `u32::MAX` (the region is half-open, so `u32::MAX` itself lies outside).
pub proof fn lemma_full_region_keeps_all(lines: Seq<Seq<char>>)
    requires
        forall|i: int| 0 <= i < lines.len() ==> header_or_below_max(encode_utf8(#[trigger] lines[i])),
    ensures
        filter_from(seq![(0u32, u32::MAX)], 0, lines) == Ok::<Seq<Seq<char>>, RecordError>(lines),
    decreases lines.len(),
{
    if lines.len() > 0 {
        let rest = lines.drop_first();
        assert forall|i: int| 0 <= i < rest.len() implies header_or_below_max(encode_utf8(#[trigger] rest[i])) by {
            assert(rest[i] == lines[i + 1]);
        }
        lemma_full_region_keeps_all(rest);
        let ivs = seq![(0u32, u32::MAX)];
        let b = encode_utf8(lines[0]);
        assert(header_or_below_max(b));
        if !is_header(b) {
            let p = position_of(b)->Ok_0;
            assert(!passed(ivs[0], p));
            assert(next_cursor(ivs, 0, p) == 0);
        }
        assert(step_line(ivs, 0, b) == Ok::<(int, bool), RecordError>((0, true)));
        assert(seq![lines[0]] + rest =~= lines);
    } else {
        assert(lines =~= Seq::<Seq<char>>::empty());
    }
}

/// The position of a data line (meaningful where it has one).
pub open spec fn line_position(l: Seq<char>) -> u32 {
    match position_of(encode_utf8(l)) {
        Ok(p) => p,
        Err(_) => 0,
    }
}

pub open spec fn is_data_line(l: Seq<char>) -> bool {
    !is_header(encode_utf8(l))
}

/// Every data line has a position, and the positions do not decrease.
pub open spec fn sorted_records(lines: Seq<Seq<char>>) -> bool {
    &&& forall|i: int| 0 <= i < lines.len() && is_data_line(#[trigger] lines[i]) ==> position_of(encode_utf8(lines[i])) is Ok
    &&& forall|a: int, b: int|
        0 <= a < b < lines.len() && is_data_line(#[trigger] lines[a]) && is_data_line(#[trigger] lines[b])
            ==> line_position(lines[a]) <= line_position(lines[b])
}

/// The lines that a brute-force check keeps: every header line, and every
/// data line whose position lies in some interval, in their order.
pub open spec fn contained_lines(ivs: Seq<(u32, u32)>, lines: Seq<Seq<char>>) -> Seq<Seq<char>>
    decreases lines.len(),
{
    if lines.len() == 0 {
        Seq::empty()
    } else {
        let rest = contained_lines(ivs, lines.drop_first());
        if !is_data_line(lines[0]) || contains_point(ivs, line_position(lines[0])) {
            seq![lines[0]] + rest
        } else {
            rest
        }
    }
}

proof fn lemma_filter_contained_from(ivs: Seq<(u32, u32)>, c: int, lines: Seq<Seq<char>>)
    requires
        sorted_disjoint(ivs),
        sorted_records(lines),
        0 <= c <= ivs.len(),
        forall|j: int, i: int|
            0 <= j < c && 0 <= i < lines.len() && is_data_line(#[trigger] lines[i])
                ==> (#[trigger] ivs[j]).1 <= line_position(lines[i]),
    ensures
        filter_from(ivs, c, lines) == Ok::<Seq<Seq<char>>, RecordError>(contained_lines(ivs, lines)),
    decreases lines.len(),
{
    if lines.len() > 0 {
        let rest = lines.drop_first();
        assert forall|a: int, b: int|
            0 <= a < b < rest.len() && is_data_line(#[trigger] rest[a]) && is_data_line(#[trigger] rest[b])
            implies line_position(rest[a]) <= line_position(rest[b]) by {
            assert(rest[a] == lines[a + 1] && rest[b] == lines[b + 1]);
        }
        assert forall|i: int| 0 <= i < rest.len() && is_data_line(#[trigger] rest[i])
            implies position_of(encode_utf8(rest[i])) is Ok by {
            assert(rest[i] == lines[i + 1]);
        }
        let b = encode_utf8(lines[0]);
        if is_header(b) {
            assert forall|j: int, i: int|
                0 <= j < c && 0 <= i < rest.len() && is_data_line(#[trigger] rest[i])
                implies (#[trigger] ivs[j]).1 <= line_position(rest[i]) by {
                assert(rest[i] == lines[i + 1]);
            }
            lemma_filter_contained_from(ivs, c, rest);
        } else {
            let p = line_position(lines[0]);
            assert(position_of(b) is Ok);
            assert(forall|j: int| 0 <= j < c ==> (#[trigger] ivs[j]).1 <= p);
            lemma_classify_from_cursor(ivs, c, p);
            let k = next_cursor(ivs, c, p);
            assert forall|j: int, i: int|
                0 <= j < k && 0 <= i < rest.len() && is_data_line(#[trigger] rest[i])
                implies (#[trigger] ivs[j]).1 <= line_position(rest[i]) by {
                assert(rest[i] == lines[i + 1]);
                assert(line_position(lines[0]) <= line_position(lines[i + 1]));
            }
            lemma_filter_contained_from(ivs, k, rest);
        }
    }
}

/// Over sorted, non-overlapping regions and data lines whose positions do not
/// decrease, filtering keeps exactly the header lines and the data lines whose
/// position some region holds, in their order.
pub proof fn lemma_filter_keeps_contained(ivs: Seq<(u32, u32)>, lines: Seq<Seq<char>>)
    requires
        sorted_disjoint(ivs),
        sorted_records(lines),
    ensures
        filter_from(ivs, 0, lines) == Ok::<Seq<Seq<char>>, RecordError>(contained_lines(ivs, lines)),
{
    lemma_filter_contained_from(ivs, 0, lines);
}

/// Filtering is a function of the regions and the lines alone: two runs over
/// the same lines and the same regions keep the same lines, or fail alike.
pub proof fn lemma_filter_repeatable(ivs: Seq<(u32, u32)>, first: Seq<Seq<char>>, second: Seq<Seq<char>>)
    requires
        first == second,
    ensures
        filter_from(ivs, 0, first) == filter_from(ivs, 0, second),
{
}

/// Decides, line by line, which lines of one chromosome's variant file are
/// kept: every header line, and each data line whose position lies in a region.
pub struct RegionFilter {
    scanner: SortedIntervalIntersect,
}

impl RegionFilter {
    pub closed spec fn intervals(&self) -> Seq<(u32, u32)> {
        self.scanner.intervals()
    }

    pub closed spec fn cursor(&self) -> int {
        self.scanner.cursor()
    }

    pub open spec fn wf(&self) -> bool {
        0 <= self.cursor() <= self.intervals().len()
    }

    /// A filter over `regions`, sorted by start and not overlapping.
    pub fn new(regions: Vec<(u32, u32)>) -> (r: Self)
        ensures
            r.wf(),
            r.intervals() == regions@,
            r.cursor() == 0,
    {
        RegionFilter { scanner: SortedIntervalIntersect::new(regions) }
    }

    /// Whether `line` is to be copied to the output; an error where a data
    /// line has no readable position, and then the scan does not move.
    pub fn keep_line(&mut self, line: &str) -> (r: Result<bool, RecordError>)
        requires
            old(self).wf(),
        ensures
            final(self).wf(),
            final(self).intervals() == old(self).intervals(),
            match step_line(old(self).intervals(), old(self).cursor(), line.spec_bytes()) {
                Ok((k, keep)) => r == Ok::<bool, RecordError>(keep) && final(self).cursor() == k,
                Err(e) => r == Err::<bool, RecordError>(e) && final(self).cursor() == old(self).cursor(),
            },
    {
        if is_header_line(line) {
            return Ok(true);
        }
        match record_position(line) {
            Err(e) => Err(e),
            Ok(pos) => {
                let found = self.scanner.in_interval(pos);
                Ok(found == Some(true))
            },
        }
    }
}

/// The lines of `lines` that filtering against `regions` keeps, in order, or
/// the error of the first data line without a readable position.
pub fn filter_lines(lines: &Vec<String>, regions: Vec<(u32, u32)>) -> (r: Result<Vec<String>, RecordError>)
    ensures
        match r {
            Ok(v) => filter_from(regions@, 0, lines_view(lines@)) == Ok::<Seq<Seq<char>>, RecordError>(lines_view(v@)),
            Err(e) => filter_from(regions@, 0, lines_view(lines@)) == Err::<Seq<Seq<char>>, RecordError>(e),
        },
{
    let ghost ivs = regions@;
    let ghost all = lines_view(lines@);
    let mut filter = RegionFilter::new(regions);
    let mut out: Vec<String> = Vec::new();
    let mut i: usize = 0;
    let mut failure: Option<RecordError> = None;
    assert(all.skip(0) =~= all);
    proof {
        if let Ok(t) = filter_from(ivs, 0, all) {
            assert(Seq::<Seq<char>>::empty() + t =~= t);
        }
    }
    while i < lines.len()
        invariant_except_break
            failure is None,
        invariant
            i <= lines@.len(),
            all == lines_view(lines@),
            filter.wf(),
            filter.intervals() == ivs,
            filter_from(ivs, 0, all) == prepend(lines_view(out@), filter_from(ivs, filter.cursor(), all.skip(i as int))),
        ensures
            match failure {
                Some(e) => filter_from(ivs, 0, all) == Err::<Seq<Seq<char>>, RecordError>(e),
                None => i == lines@.len(),
            },
        decreases lines@.len() - i,
    {
        let ghost c = filter.cursor();
        let ghost rest = all.skip(i as int);
        assert(rest[0] == lines@[i as int]@);
        assert(rest.drop_first() =~= all.skip(i as int + 1));
        let line = &lines[i];
        match filter.keep_line(line.as_str()) {
            Err(e) => {
                assert(filter_from(ivs, c, rest) == Err::<Seq<Seq<char>>, RecordError>(e));
                failure = Some(e);
                break;
            },
            Ok(keep) => {
                if keep {
                    let ghost before = lines_view(out@);
                    out.push(line.clone());
                    assert(lines_view(out@) =~= before + seq![lines@[i as int]@]);
                    proof {
                        let x = lines@[i as int]@;
                        if let Ok(t) = filter_from(ivs, filter.cursor(), all.skip(i as int + 1)) {
                            assert(before + seq![x] + t =~= before + (seq![x] + t));
                        }
                    }
                }
            },
        }
        i = i + 1;
    }
    if let Some(e) = failure {
        return Err(e);
    }
    assert(all.skip(i as int) =~= Seq::<Seq<char>>::empty());
    assert(lines_view(out@) + Seq::<Seq<char>>::empty() =~= lines_view(out@));
    Ok(out)
}

} // verus!
