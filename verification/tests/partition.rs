use primes::{partition, SubRange};

fn bounds(jobs: &[SubRange]) -> Vec<(usize, usize)> {
    jobs.iter().map(|job| (job.start, job.end)).collect()
}

#[test]
fn even_split_has_equal_sizes() {
    let jobs = partition(20, 40, 4);
    assert_eq!(bounds(&jobs), vec![(20, 25), (25, 30), (30, 35), (35, 40)]);
}

#[test]
fn last_sub_range_takes_the_remainder() {
    let jobs = partition(0, 10, 3);
    assert_eq!(bounds(&jobs), vec![(0, 3), (3, 6), (6, 10)]);

    let jobs = partition(10, 100, 4);
    assert_eq!(bounds(&jobs), vec![(10, 32), (32, 54), (54, 76), (76, 100)]);

    let jobs = partition(0, 11, 4);
    assert_eq!(bounds(&jobs), vec![(0, 2), (2, 4), (4, 6), (6, 11)]);
}

#[test]
fn one_worker_gets_the_whole_interval() {
    let jobs = partition(20, 40, 1);
    assert_eq!(jobs, vec![SubRange { start: 20, end: 40 }]);
    let jobs = partition(0, usize::MAX, 1);
    assert_eq!(jobs, vec![SubRange { start: 0, end: usize::MAX }]);
}

#[test]
fn single_number_is_every_workers_share() {
    let jobs = partition(11, 11, 3);
    assert_eq!(bounds(&jobs), vec![(11, 11), (11, 11), (11, 11)]);
    let jobs = partition(11, 11, 1);
    assert_eq!(bounds(&jobs), vec![(11, 11)]);
}

#[test]
fn more_workers_than_numbers() {
    let jobs = partition(44, 46, 8);
    assert_eq!(jobs.len(), 8);
    for job in &jobs[..7] {
        assert_eq!((job.start, job.end), (44, 44));
    }
    assert_eq!((jobs[7].start, jobs[7].end), (44, 46));
}

#[test]
fn partition_reaches_the_largest_number() {
    let jobs = partition(usize::MAX - 10, usize::MAX, 3);
    assert_eq!(
        bounds(&jobs),
        vec![
            (usize::MAX - 10, usize::MAX - 7),
            (usize::MAX - 7, usize::MAX - 4),
            (usize::MAX - 4, usize::MAX)
        ]
    );
    let jobs = partition(0, usize::MAX, 2);
    assert_eq!(bounds(&jobs), vec![(0, usize::MAX / 2), (usize::MAX / 2, usize::MAX)]);
}

#[test]
fn partition_has_the_promised_shape() {
    let intervals = [(0usize, 0usize), (0, 1), (0, 100), (3, 17), (20, 40), (7, 1000), (99, 100)];
    for &(start, end) in intervals.iter() {
        for workers in 1..=12usize {
            let jobs = partition(start, end, workers);
            let size = (end - start) / workers;
            assert_eq!(jobs.len(), workers);
            assert_eq!(jobs[0].start, start);
            assert_eq!(jobs[workers - 1].end, end);
            for i in 0..workers - 1 {
                assert_eq!(jobs[i].end, jobs[i + 1].start);
                assert_eq!(jobs[i].end - jobs[i].start, size);
            }
            let last = jobs[workers - 1].end - jobs[workers - 1].start;
            assert_eq!(last, (end - start) - size * (workers - 1));
            assert!(size <= last && last < size + workers);
            for q in start..=end {
                assert!(jobs.iter().any(|job| job.start <= q && q <= job.end));
            }
        }
    }
}
