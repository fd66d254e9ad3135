use disassembly::clean_up_ranges;
use std::ops::Range;

fn cleaned(mut v: Vec<Range<usize>>) -> Vec<Range<usize>> {
    clean_up_ranges(&mut v);
    v
}

#[test]
fn overlapping_ranges_merge() {
    assert_eq!(cleaned(vec![10..20, 15..30]), vec![10..30]);
}

#[test]
fn contained_range_is_dropped() {
    assert_eq!(cleaned(vec![10..40, 15..20]), vec![10..40]);
}

#[test]
fn touching_ranges_merge() {
    assert_eq!(cleaned(vec![20..30, 10..20]), vec![10..30]);
}

#[test]
fn apart_ranges_are_ordered() {
    assert_eq!(cleaned(vec![50..60, 10..20, 30..40]), vec![10..20, 30..40, 50..60]);
}

#[test]
fn empty_list_stays_empty() {
    assert_eq!(cleaned(vec![]), Vec::<Range<usize>>::new());
}

#[test]
fn clean_ranges_stay_as_they_are() {
    let once = cleaned(vec![30..45, 0..5, 3..9, 40..41, 20..25]);
    assert_eq!(once, vec![0..9, 20..25, 30..45]);
    assert_eq!(cleaned(once.clone()), once);
}

#[test]
fn covered_addresses_are_kept() {
    let input = vec![7..12, 1..3, 2..5, 20..22];
    let out = cleaned(input.clone());
    for x in 0..30usize {
        let before = input.iter().any(|r| r.contains(&x));
        let after = out.iter().any(|r| r.contains(&x));
        assert_eq!(before, after, "{}", x);
    }
    for w in out.windows(2) {
        assert!(w[0].end < w[1].start);
    }
}

#[test]
fn range_ending_before_it_starts_is_kept_where_it_falls() {
    assert_eq!(cleaned(vec![0..2, 5..3, 6..8]), vec![0..2, 5..3, 6..8]);
    assert_eq!(cleaned(vec![0..10, 5..3]), vec![0..10]);
}

#[test]
fn coverage_is_kept_with_reversed_ranges() {
    let input = vec![9..4, 1..3, 2..2, 3..6, 12..10, 11..13];
    let out = cleaned(input.clone());
    for x in 0..20usize {
        let before = input.iter().any(|r| r.contains(&x));
        let after = out.iter().any(|r| r.contains(&x));
        assert_eq!(before, after, "{}", x);
    }
    for w in out.windows(2) {
        assert!(w[0].start <= w[1].start);
        assert!(w[0].end < w[1].start);
    }
}
