//! Request plans against an enumeration of every partition.
use std::sync::atomic::AtomicBool;

use skarve::range_schedule::plan;

#[test]
fn schedule_matches_exhaustive_partitions_and_beats_greedy_byte_waste() {
    let cancel = AtomicBool::new(false);
    assert_eq!(
        plan(&[0, 1, 4, 5], 5, &cancel).unwrap(),
        vec![(4, 2), (0, 2)]
    );
    for mask in 1usize..1 << 10 {
        let records: Vec<_> = (0..10).filter(|i| mask & (1 << i) != 0).collect();
        for cap in [1, 2, 4, 8] {
            let mut optimum = (usize::MAX, usize::MAX);
            // Independently enumerate every possible ordered partition.
            for cuts in 0usize..1 << (records.len() - 1) {
                let (mut first, mut requests, mut bytes, mut valid) = (0, 0, 0, true);
                for last in 0..records.len() {
                    if last == records.len() - 1 || cuts & (1 << last) != 0 {
                        let span = records[last] - records[first] + 1;
                        if span > cap {
                            valid = false;
                            break;
                        }
                        requests += 1;
                        bytes += span;
                        first = last + 1;
                    }
                }
                if valid {
                    optimum = optimum.min((requests, bytes));
                }
            }
            let ranges = plan(&records, cap, &cancel).unwrap();
            assert_eq!((ranges.len(), ranges.iter().map(|r| r.1).sum()), optimum);
            assert!(records.iter().all(|p| {
                ranges
                    .iter()
                    .filter(|&&(start, n)| *p >= start && *p < start + n)
                    .count()
                    == 1
            }));
        }
    }
}
#[test]
fn rejects_invalid_or_cancelled_schedules() {
    assert!(plan(&[1, 1], 4, &AtomicBool::new(false)).is_err());
    assert!(plan(&[2, 1], 4, &AtomicBool::new(false)).is_err());
    assert!(plan(&[usize::MAX], 0, &AtomicBool::new(false)).is_err());
    assert!(plan(&(0..4097).collect::<Vec<_>>(), 16, &AtomicBool::new(false)).is_err());
    assert!(plan(&(0..128).collect::<Vec<_>>(), 16, &AtomicBool::new(true)).is_err());
}
