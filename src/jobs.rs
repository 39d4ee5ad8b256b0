use vstd::prelude::*;

use crate::checksum::{md5_hex_of, Md5ConsumerWriter};
use crate::record::RecordError;

verus! {

broadcast use vstd::seq_lib::group_to_multiset_ensures;

/// One row of the download manifest: where a chromosome's file lies and the
/// MD5 digest it must have.
pub struct URLDownloadRecord {
    pub chromosome: String,
    pub md5sum: String,
    pub url: String,
}

/// One row of the region table: the half-open region `[start, end)`.
pub struct BEDRecord {
    pub chromosome: String,
    pub start: u32,
    pub end: u32,
}

/// The work for one chromosome: its manifest values and its regions.
pub struct Job {
    pub chromosome: String,
    pub md5sum: String,
    pub url: String,
    pub regions: Vec<(u32, u32)>,
}

pub open spec fn sorted_by_start(s: Seq<(u32, u32)>) -> bool {
    forall|a: int, b: int| 0 <= a < b < s.len() ==> (#[trigger] s[a]).0 <= (#[trigger] s[b]).0
}

/// The index of the first manifest row from `i` on for chromosome `c`, or -1.
pub open spec fn first_entry_from(urls: Seq<URLDownloadRecord>, c: Seq<char>, i: int) -> int
    decreases urls.len() - i,
{
    if i < 0 || i >= urls.len() {
        -1
    } else if urls[i].chromosome@ == c {
        i
    } else {
        first_entry_from(urls, c, i + 1)
    }
}

/// The manifest row that counts for chromosome `c`: the first one, or -1.
pub open spec fn first_entry(urls: Seq<URLDownloadRecord>, c: Seq<char>) -> int {
    first_entry_from(urls, c, 0)
}

/// The regions of chromosome `c`, in the order of the table.
pub open spec fn regions_in(bed: Seq<BEDRecord>, c: Seq<char>) -> Seq<(u32, u32)>
    decreases bed.len(),
{
    if bed.len() == 0 {
        Seq::empty()
    } else {
        let p = regions_in(bed.drop_last(), c);
        if bed.last().chromosome@ == c {
            p.push((bed.last().start, bed.last().end))
        } else {
            p
        }
    }
}

/// Row `i` is the first of the table to name its chromosome.
pub open spec fn first_occurrence(bed: Seq<BEDRecord>, i: int) -> bool {
    forall|j: int| 0 <= j < i ==> (#[trigger] bed[j]).chromosome@ != bed[i].chromosome@
}

/// The chromosomes that get a job: those of the region table, in the order in
/// which they first appear there, that have a manifest row.
pub open spec fn job_chromosomes(bed: Seq<BEDRecord>, urls: Seq<URLDownloadRecord>) -> Seq<Seq<char>>
    decreases bed.len(),
{
    if bed.len() == 0 {
        Seq::empty()
    } else {
        let p = job_chromosomes(bed.drop_last(), urls);
        let i = bed.len() - 1;
        if first_occurrence(bed, i) && first_entry(urls, bed[i].chromosome@) >= 0 {
            p.push(bed[i].chromosome@)
        } else {
            p
        }
    }
}

/// `job` is the job of chromosome `c`: the first manifest row's digest and
/// URL, and all of `c`'s regions sorted by start.
pub open spec fn job_for(job: Job, c: Seq<char>, bed: Seq<BEDRecord>, urls: Seq<URLDownloadRecord>) -> bool {
    let e = first_entry(urls, c);
    &&& job.chromosome@ == c
    &&& 0 <= e < urls.len()
    &&& job.md5sum@ == urls[e].md5sum@
    &&& job.url@ == urls[e].url@
    &&& sorted_by_start(job.regions@)
    &&& job.regions@.to_multiset() == regions_in(bed, c).to_multiset()
}

/// `regions` ordered by start.
pub fn sort_by_start(regions: &Vec<(u32, u32)>) -> (r: Vec<(u32, u32)>)
    ensures
        sorted_by_start(r@),
        r@.to_multiset() == regions@.to_multiset(),
{
    let mut out: Vec<(u32, u32)> = Vec::new();
    let mut i: usize = 0;
    while i < regions.len()
        invariant
            i <= regions@.len(),
            sorted_by_start(out@),
            out@.to_multiset() == regions@.take(i as int).to_multiset(),
        decreases regions@.len() - i,
    {
        let x = regions[i];
        let mut p: usize = out.len();
        while p > 0 && out[p - 1].0 > x.0
            invariant
                p <= out@.len(),
                forall|q: int| p <= q < out@.len() ==> (#[trigger] out@[q]).0 > x.0,
            decreases p,
        {
            p = p - 1;
        }
        let ghost before = out@;
        out.insert(p, x);
        assert(regions@.take(i as int + 1) =~= regions@.take(i as int).push(x));
        assert forall|a: int, b: int| 0 <= a < b < out@.len() implies (#[trigger] out@[a]).0 <= (#[trigger] out@[b]).0 by {
            if a < p as int && b == p as int {
                assert(before[a].0 <= before[p - 1].0);
            }
        }
        i = i + 1;
    }
    assert(regions@.take(i as int) =~= regions@);
    out
}

/// The manifest row that counts for chromosome `c`, the first that names it.
fn find_entry(urls: &Vec<URLDownloadRecord>, c: &String) -> (r: Option<usize>)
    ensures
        match r {
            Some(j) => j as int == first_entry(urls@, c@) && j < urls@.len(),
            None => first_entry(urls@, c@) == -1,
        },
{
    let mut i: usize = 0;
    while i < urls.len()
        invariant
            i <= urls@.len(),
            first_entry_from(urls@, c@, 0) == first_entry_from(urls@, c@, i as int),
        decreases urls@.len() - i,
    {
        if urls[i].chromosome == *c {
            return Some(i);
        }
        i = i + 1;
    }
    None
}

/// All regions of chromosome `c`, in the order of the table.
fn collect_regions(bed: &Vec<BEDRecord>, c: &String) -> (r: Vec<(u32, u32)>)
    ensures
        r@ == regions_in(bed@, c@),
{
    let mut out: Vec<(u32, u32)> = Vec::new();
    let mut i: usize = 0;
    while i < bed.len()
        invariant
            i <= bed@.len(),
            out@ == regions_in(bed@.take(i as int), c@),
        decreases bed@.len() - i,
    {
        assert(bed@.take(i as int + 1).drop_last() =~= bed@.take(i as int));
        if bed[i].chromosome == *c {
            out.push((bed[i].start, bed[i].end));
        }
        i = i + 1;
    }
    assert(bed@.take(i as int) =~= bed@);
    out
}

/// Whether an earlier row of the table names the chromosome of row `i`.
fn seen_before(bed: &Vec<BEDRecord>, i: usize) -> (r: bool)
    requires
        i < bed@.len(),
    ensures
        r == !first_occurrence(bed@, i as int),
{
    let mut j: usize = 0;
    while j < i
        invariant
            j <= i < bed@.len(),
            forall|k: int| 0 <= k < j ==> (#[trigger] bed@[k]).chromosome@ != bed@[i as int].chromosome@,
        decreases i - j,
    {
        if bed[j].chromosome == bed[i].chromosome {
            return true;
        }
        j = j + 1;
    }
    false
}

/// One job for each chromosome of the region table that has a manifest row,
/// in the order in which the chromosomes first appear in the table. Where the
/// manifest names a chromosome more than once, its first row counts; a
/// chromosome that the manifest does not name gets no job.
pub fn plan_jobs(bed: &Vec<BEDRecord>, urls: &Vec<URLDownloadRecord>) -> (r: Vec<Job>)
    ensures
        r@.len() == job_chromosomes(bed@, urls@).len(),
        forall|k: int| 0 <= k < r@.len() ==> job_for(#[trigger] r@[k], job_chromosomes(bed@, urls@)[k], bed@, urls@),
{
    let mut jobs: Vec<Job> = Vec::new();
    let mut i: usize = 0;
    while i < bed.len()
        invariant
            i <= bed@.len(),
            jobs@.len() == job_chromosomes(bed@.take(i as int), urls@).len(),
            forall|k: int| 0 <= k < jobs@.len() ==> job_for(#[trigger] jobs@[k], job_chromosomes(bed@.take(i as int), urls@)[k], bed@, urls@),
        decreases bed@.len() - i,
    {
        let ghost pre = bed@.take(i as int + 1);
        assert(pre.drop_last() =~= bed@.take(i as int));
        assert(first_occurrence(pre, i as int) == first_occurrence(bed@, i as int)) by {
            assert(pre[i as int] == bed@[i as int]);
            assert forall|j: int| 0 <= j < i implies pre[j] == bed@[j] by {}
            if first_occurrence(bed@, i as int) {
                assert forall|j: int| 0 <= j < i implies (#[trigger] pre[j]).chromosome@ != pre[i as int].chromosome@ by {
                    assert(pre[j] == bed@[j]);
                }
            }
            if first_occurrence(pre, i as int) {
                assert forall|j: int| 0 <= j < i implies (#[trigger] bed@[j]).chromosome@ != bed@[i as int].chromosome@ by {
                    assert(pre[j] == bed@[j]);
                }
            }
        }
        if !seen_before(bed, i) {
            let c = &bed[i].chromosome;
            match find_entry(urls, c) {
                Some(e) => {
                    let regions = collect_regions(bed, c);
                    let sorted = sort_by_start(&regions);
                    let job = Job {
                        chromosome: c.clone(),
                        md5sum: urls[e].md5sum.clone(),
                        url: urls[e].url.clone(),
                        regions: sorted,
                    };
                    jobs.push(job);
                },
                None => {},
            }
        }
        i = i + 1;
    }
    assert(bed@.take(i as int) =~= bed@);
    jobs
}

/// Why a job stopped before its input ended.
#[derive(Debug, Clone, Copy, PartialEq, Eq, Structural)]
pub enum JobFailure {
    /// The connection could not be made, or the stream broke off.
    Transport,
    /// A data line had no readable position.
    Record(RecordError),
    /// The output file could not be created or written.
    Write,
    /// The worker that ran the job stopped without handing back an outcome.
    Internal,
}

/// How one chromosome's job ended.
#[derive(Debug, Clone, Copy, PartialEq, Eq, Structural)]
pub enum JobOutcome {
    /// The whole input was filtered and its digest is the expected one.
    Verified,
    /// The whole input was filtered, but its digest differs from the manifest's.
    DigestMismatch,
    /// The job stopped early.
    Failed(JobFailure),
}

/// The outcome of a job whose input was read to its end: whether the digest
/// of every byte received is the manifest's.
pub fn finish_job(writer: Md5ConsumerWriter, expected_md5sum: &str) -> (r: JobOutcome)
    ensures
        r == (if md5_hex_of(writer.consumed()) == expected_md5sum@ {
            JobOutcome::Verified
        } else {
            JobOutcome::DigestMismatch
        }),
{
    if writer.digest(expected_md5sum) {
        JobOutcome::Verified
    } else {
        JobOutcome::DigestMismatch
    }
}

/// Whether some job stopped early.
pub fn any_failed(outcomes: &Vec<JobOutcome>) -> (r: bool)
    ensures
        r == exists|k: int| 0 <= k < outcomes@.len() && (#[trigger] outcomes@[k]) is Failed,
{
    let mut i: usize = 0;
    while i < outcomes.len()
        invariant
            i <= outcomes@.len(),
            forall|k: int| 0 <= k < i ==> !(#[trigger] outcomes@[k] is Failed),
        decreases outcomes@.len() - i,
    {
        if let JobOutcome::Failed(_) = outcomes[i] {
            return true;
        }
        i = i + 1;
    }
    false
}

} // verus!
