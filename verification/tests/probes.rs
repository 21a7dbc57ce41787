use std::collections::BTreeSet;

use bisectrunk::bisect::{contradictory_shas, narrow_interval, narrow_leftmost, probes, NarrowError};
use bisectrunk::oracle::Classification;
use bisectrunk::plan::estimated_rounds;

#[test]
fn places_even_k_section_probes() {
    assert_eq!(probes(0, 40, 4, &BTreeSet::new()), [8, 16, 24, 32]);
    assert_eq!(probes(5, 9, 8, &BTreeSet::new()), [6, 7, 8]);
}

#[test]
fn skipped_probe_borrows_nearest_untested_neighbor() {
    let tested = BTreeSet::from([4, 8]);
    assert_eq!(probes(0, 12, 2, &tested), [3, 7]);
}

#[test]
fn narrows_and_detects_non_monotone_results() {
    assert_eq!(
        narrow_interval(0, 20, &[(4, Classification::Good), (8, Classification::Bad)]),
        Ok((4, 8))
    );
    assert_eq!(
        narrow_interval(0, 20, &[(4, Classification::Bad), (8, Classification::Good)]),
        Err(NarrowError::Inconsistent)
    );
}

#[test]
fn monotone_k_section_converges_within_estimated_rounds() {
    for size in 1usize..=120 {
        for jobs in 1usize..=5 {
            for boundary in 1..=size {
                let mut low = 0usize;
                let mut high = size;
                let mut rounds = 0usize;
                while high > low + 1 {
                    let classes = probes(low, high, jobs, &BTreeSet::new())
                        .into_iter()
                        .map(|index| {
                            let class = if index < boundary { Classification::Good } else { Classification::Bad };
                            (index, class)
                        })
                        .collect::<Vec<_>>();
                    let (new_low, new_high) = narrow_interval(low, high, &classes).expect("monotone");
                    low = new_low;
                    high = new_high;
                    rounds += 1;
                }
                assert_eq!(high, boundary);
                assert!(rounds <= estimated_rounds(size, jobs), "size {size} jobs {jobs} boundary {boundary}");
            }
        }
    }
}

#[test]
fn estimated_rounds_values() {
    assert_eq!(estimated_rounds(0, 4), 0);
    assert_eq!(estimated_rounds(1, 4), 0);
    assert_eq!(estimated_rounds(2, 1), 1);
    assert_eq!(estimated_rounds(40, 4), 3);
    assert_eq!(estimated_rounds(25, 4), 2);
    assert_eq!(estimated_rounds(1000, 1), 10);
    assert_eq!(estimated_rounds(9, 0), 4);
}

#[test]
fn skip_only_results_leave_the_interval() {
    assert_eq!(narrow_interval(0, 10, &[(3, Classification::Skip), (6, Classification::Skip)]), Ok((0, 10)));
    assert_eq!(narrow_interval(0, 10, &[]), Ok((0, 10)));
}

#[test]
fn leftmost_narrowing_takes_the_first_bad() {
    let results = [(2, Classification::Bad), (4, Classification::Good), (6, Classification::Bad)];
    assert_eq!(narrow_leftmost(0, 10, &results), (0, 2));
    let monotone = [(2, Classification::Good), (4, Classification::Good), (6, Classification::Bad)];
    assert_eq!(narrow_leftmost(0, 10, &monotone), (4, 6));
}

#[test]
fn contradictory_probes_are_the_first_bad_and_goods_after_it() {
    let commits: Vec<String> = (0..10).map(|i| format!("c{i}")).collect();
    let results = [
        (1, Classification::Good),
        (3, Classification::Bad),
        (5, Classification::Good),
        (7, Classification::Bad),
        (8, Classification::Good),
    ];
    assert_eq!(contradictory_shas(&commits, &results), ["c3", "c5", "c8"]);
}

#[test]
fn probes_avoid_every_tested_commit() {
    let tested = BTreeSet::from([1, 2, 3, 5, 6]);
    assert_eq!(probes(0, 8, 3, &tested), [4, 7]);
    let all = BTreeSet::from([1, 2, 3]);
    assert!(probes(0, 4, 2, &all).is_empty());
}

#[test]
fn skipped_results_do_not_move_the_bounds() {
    let base = [(3, Classification::Good), (7, Classification::Bad)];
    let with_skips = [
        (3, Classification::Good),
        (7, Classification::Bad),
        (5, Classification::Skip),
        (9, Classification::Abort),
        (1, Classification::Skip),
    ];
    assert_eq!(narrow_interval(0, 12, &base), narrow_interval(0, 12, &with_skips));
    assert_eq!(narrow_interval(0, 12, &with_skips), Ok((3, 7)));
}
