use smart_gnomad_downloader::checksum::Md5ConsumerWriter;
use smart_gnomad_downloader::filter::filter_lines;
use smart_gnomad_downloader::jobs::{
    any_failed, finish_job, plan_jobs, sort_by_start, BEDRecord, JobFailure, JobOutcome,
    URLDownloadRecord,
};

fn bed(c: &str, start: u32, end: u32) -> BEDRecord {
    BEDRecord { chromosome: c.to_string(), start, end }
}

fn url(c: &str, md5: &str, u: &str) -> URLDownloadRecord {
    URLDownloadRecord { chromosome: c.to_string(), md5sum: md5.to_string(), url: u.to_string() }
}

#[test]
fn plans_one_job_per_chromosome_with_manifest() {
    let regions = vec![
        bed("chr2", 500, 600),
        bed("chr1", 30, 40),
        bed("chrX", 1, 2),
        bed("chr2", 100, 200),
        bed("chr1", 10, 20),
    ];
    let manifest = vec![
        url("chr1", "aaa", "http://h/1"),
        url("chr2", "bbb", "http://h/2"),
        url("chr1", "zzz", "http://h/other"),
    ];
    let jobs = plan_jobs(&regions, &manifest);
    assert_eq!(jobs.len(), 2);
    assert_eq!(jobs[0].chromosome, "chr2");
    assert_eq!(jobs[0].md5sum, "bbb");
    assert_eq!(jobs[0].url, "http://h/2");
    assert_eq!(jobs[0].regions, vec![(100, 200), (500, 600)]);
    assert_eq!(jobs[1].chromosome, "chr1");
    assert_eq!(jobs[1].md5sum, "aaa");
    assert_eq!(jobs[1].url, "http://h/1");
    assert_eq!(jobs[1].regions, vec![(10, 20), (30, 40)]);
}

#[test]
fn no_manifest_no_jobs() {
    let jobs = plan_jobs(&vec![bed("chr1", 1, 2)], &Vec::new());
    assert!(jobs.is_empty());
    let jobs = plan_jobs(&Vec::new(), &vec![url("chr1", "a", "u")]);
    assert!(jobs.is_empty());
}

#[test]
fn sorts_regions_by_start() {
    assert_eq!(sort_by_start(&vec![(5, 6), (1, 2), (3, 4), (1, 9)]), vec![(1, 2), (1, 9), (3, 4), (5, 6)]);
    assert_eq!(sort_by_start(&Vec::new()), Vec::<(u32, u32)>::new());
}

#[test]
fn mismatched_digest_keeps_filtered_output() {
    let raw = b"raw transferred bytes";
    let input: Vec<String> = vec!["#h".to_string(), "c\t150\t.".to_string(), "c\t50\t.".to_string()];
    let out = filter_lines(&input, vec![(100, 200)]).unwrap();
    let mut w = Md5ConsumerWriter::new();
    w.write(raw);
    assert_eq!(finish_job(w, "00000000000000000000000000000000"), JobOutcome::DigestMismatch);
    assert_eq!(out, vec!["#h".to_string(), "c\t150\t.".to_string()]);

    let mut w = Md5ConsumerWriter::new();
    w.write(raw);
    let expected = format!("{:x}", md5::compute(raw));
    assert_eq!(finish_job(w, &expected), JobOutcome::Verified);
}

#[test]
fn one_failed_job_leaves_the_other_intact() {
    let regions = vec![bed("chr1", 100, 200), bed("chr2", 0, 10)];
    let manifest = vec![url("chr1", "x", "http://h/1"), url("chr2", "y", "http://unreachable/2")];
    let jobs = plan_jobs(&regions, &manifest);
    assert_eq!(jobs.len(), 2);

    let input: Vec<String> = vec!["#h".to_string(), "chr1\t150\t.".to_string(), "chr1\t250\t.".to_string()];
    let out = filter_lines(&input, jobs[0].regions.clone()).unwrap();
    let mut w = Md5ConsumerWriter::new();
    w.write(b"payload");
    let ok = finish_job(w, &format!("{:x}", md5::compute(b"payload")));
    let outcomes = vec![ok, JobOutcome::Failed(JobFailure::Transport)];

    assert_eq!(out, vec!["#h".to_string(), "chr1\t150\t.".to_string()]);
    assert_eq!(outcomes[0], JobOutcome::Verified);
    assert!(any_failed(&outcomes));
    assert!(!any_failed(&vec![JobOutcome::Verified, JobOutcome::DigestMismatch]));
}
