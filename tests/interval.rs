use smart_gnomad_downloader::interval::SortedIntervalIntersect;

#[test]
fn test_intersection_check() {
    let regions = vec![(100u32, 200u32), (400u32, 1000u32)];
    let mut intersection_check = SortedIntervalIntersect::new(regions);

    assert_eq!(intersection_check.in_interval(10), Some(false));
    assert_eq!(intersection_check.in_interval(150), Some(true));
    assert_eq!(intersection_check.in_interval(151), Some(true));
    assert_eq!(intersection_check.in_interval(220), Some(false));
    assert_eq!(intersection_check.in_interval(450), Some(true));
    assert_eq!(intersection_check.in_interval(460), Some(true));
    assert_eq!(intersection_check.in_interval(1100), None);
    assert_eq!(intersection_check.in_interval(2000), None);
    assert_eq!(intersection_check.in_interval(3000), None);
}

#[test]
fn empty_interval_list_is_exhausted_at_once() {
    let mut s = SortedIntervalIntersect::new(Vec::new());
    assert_eq!(s.in_interval(0), None);
    assert_eq!(s.in_interval(u32::MAX), None);
}

#[test]
fn values_below_first_start_are_outside() {
    let mut s = SortedIntervalIntersect::new(vec![(100, 200)]);
    assert_eq!(s.in_interval(0), Some(false));
    assert_eq!(s.in_interval(99), Some(false));
    assert_eq!(s.in_interval(100), Some(true));
}

#[test]
fn interval_bounds_are_half_open() {
    let mut s = SortedIntervalIntersect::new(vec![(10, 20), (20, 30)]);
    assert_eq!(s.in_interval(10), Some(true));
    assert_eq!(s.in_interval(19), Some(true));
    assert_eq!(s.in_interval(20), Some(true));
    assert_eq!(s.in_interval(29), Some(true));
    assert_eq!(s.in_interval(30), None);
}

#[test]
fn scan_agrees_with_brute_force() {
    let regions = vec![(5u32, 9u32), (12, 13), (20, 40), (41, 42)];
    let mut s = SortedIntervalIntersect::new(regions.clone());
    let mut last_end_passed = false;
    for q in 0u32..60 {
        let brute = regions.iter().any(|&(a, b)| a <= q && q < b);
        let r = s.in_interval(q);
        assert_eq!(r == Some(true), brute, "query {}", q);
        if q >= 42 {
            last_end_passed = true;
            assert_eq!(r, None);
        } else {
            assert!(r.is_some());
        }
    }
    assert!(last_end_passed);
}

#[test]
fn repeated_equal_queries_keep_answer() {
    let mut s = SortedIntervalIntersect::new(vec![(100, 200)]);
    assert_eq!(s.in_interval(150), Some(true));
    assert_eq!(s.in_interval(150), Some(true));
    assert_eq!(s.in_interval(199), Some(true));
    assert_eq!(s.in_interval(200), None);
}
