use smart_gnomad_downloader::filter::{filter_lines, RegionFilter};
use smart_gnomad_downloader::record::RecordError;

fn lines(v: &[&str]) -> Vec<String> {
    v.iter().map(|s| s.to_string()).collect()
}

#[test]
fn two_regions_five_lines() {
    let input = lines(&[
        "#CHROM\tPOS\tID",
        "chr1\t50\t.",
        "chr1\t150\t.",
        "chr1\t500\t.",
        "chr1\t1500\t.",
    ]);
    let out = filter_lines(&input, vec![(100, 200), (400, 1000)]).unwrap();
    assert_eq!(out, lines(&["#CHROM\tPOS\tID", "chr1\t150\t.", "chr1\t500\t."]));
}

#[test]
fn full_region_keeps_every_line() {
    let input = lines(&[
        "##fileformat=VCFv4.2",
        "#CHROM\tPOS",
        "chr1\t0\t.",
        "chr1\t17\t.",
        "chr1\t4294967294\t.",
    ]);
    let out = filter_lines(&input, vec![(0, u32::MAX)]).unwrap();
    assert_eq!(out, input);
}

#[test]
fn filtering_twice_gives_identical_output() {
    let input = lines(&["#h", "c\t1\t.", "c\t5\t.", "c\t9\t."]);
    let a = filter_lines(&input, vec![(2, 6)]).unwrap();
    let b = filter_lines(&input, vec![(2, 6)]).unwrap();
    assert_eq!(a, b);
    assert_eq!(a, lines(&["#h", "c\t5\t."]));
}

#[test]
fn headers_are_kept_after_regions_end() {
    let input = lines(&["c\t500\t.", "#late header", "c\t600\t."]);
    let out = filter_lines(&input, vec![(1, 2)]).unwrap();
    assert_eq!(out, lines(&["#late header"]));
}

#[test]
fn malformed_record_stops_filtering() {
    let input = lines(&["#h", "c\t5\t.", "c\tfive\t.", "c\t6\t."]);
    assert_eq!(filter_lines(&input, vec![(0, 10)]), Err(RecordError::InvalidPosition));
    let input = lines(&["#h", "no tab here"]);
    assert_eq!(filter_lines(&input, vec![(0, 10)]), Err(RecordError::MissingField));
}

#[test]
fn line_by_line_filter() {
    let mut f = RegionFilter::new(vec![(100, 200), (400, 1000)]);
    assert_eq!(f.keep_line("#header"), Ok(true));
    assert_eq!(f.keep_line("chr1\t50\t."), Ok(false));
    assert_eq!(f.keep_line("chr1\t150\t."), Ok(true));
    assert_eq!(f.keep_line("chr1\tx\t."), Err(RecordError::InvalidPosition));
    assert_eq!(f.keep_line("chr1\t500\t."), Ok(true));
    assert_eq!(f.keep_line("chr1\t1500\t."), Ok(false));
    assert_eq!(f.keep_line("#header again"), Ok(true));
}
