use signal_plot::types::{
    AbsDiffTime, Block, EmptyContinuousSignalBlock, ResamplePeriod, SampleIndex, Samples, Time,
};

#[test]
fn time() {
    assert!(Time::max_value() == Time::max_value());
    assert!(Time::max_value() > Time::min_value());
}

#[test]
fn resample_period() {
    assert_eq!(
        ResamplePeriod::from_diff_rounding_down(Time::max_value().abs_diff(Time::min_value())),
        ResamplePeriod::max_value()
    );
    assert_eq!(
        ResamplePeriod::from_diff_rounding_down(Time::max_value().abs_diff(Time::max_value())),
        ResamplePeriod::min_value()
    );
}

#[test]
fn test_sample_index() {
    assert_eq!(
        SampleIndex::resampled_index_for_time(ResamplePeriod::min_value(), Time { nanoseconds: -1 }),
        SampleIndex { index: -1 }
    );
    assert_eq!(
        SampleIndex::resampled_index_for_time(ResamplePeriod::min_value(), Time { nanoseconds: 0 }),
        SampleIndex { index: 0 }
    );
    assert_eq!(
        SampleIndex::resampled_index_for_time(ResamplePeriod::min_value(), Time { nanoseconds: 1 }),
        SampleIndex { index: 1 }
    );

    let period_2ns: ResamplePeriod = ResamplePeriod::from_power_of_two(1).unwrap();
    for (index, times) in [
        (-2, vec![-3]),
        (-1, vec![-2, -1]),
        (0, vec![0, 1]),
        (1, vec![2, 3]),
        (2, vec![4]),
    ] {
        for time in times {
            assert_eq!(
                SampleIndex::resampled_index_for_time(period_2ns, Time { nanoseconds: time }),
                SampleIndex { index }
            );
        }
    }

    assert_eq!(
        SampleIndex::resampled_index_for_time(ResamplePeriod::max_value(), Time::min_value()),
        SampleIndex { index: -2 }
    );
    assert_eq!(
        SampleIndex::resampled_index_for_time(ResamplePeriod::max_value(), Time { nanoseconds: 0 }),
        SampleIndex { index: 0 }
    );
    assert_eq!(
        SampleIndex::resampled_index_for_time(ResamplePeriod::max_value(), Time::max_value()),
        SampleIndex { index: 1 }
    );
}

#[test]
fn abs_diff_exact_values() {
    let a = Time { nanoseconds: 5 };
    let b = Time { nanoseconds: -7 };
    assert_eq!(a.abs_diff(b), AbsDiffTime { nanoseconds: 12 });
    assert_eq!(b.abs_diff(a), AbsDiffTime { nanoseconds: 12 });
    assert_eq!(a.abs_diff(a), AbsDiffTime::zero());
    assert_eq!(
        Time::max_value().abs_diff(Time::min_value()),
        AbsDiffTime { nanoseconds: u128::MAX }
    );
    assert_eq!(
        Time::min_value().abs_diff(Time { nanoseconds: -1 }),
        AbsDiffTime { nanoseconds: (i128::MAX) as u128 }
    );
    assert_eq!(
        Time { nanoseconds: -10 }.abs_diff(Time { nanoseconds: -3 }),
        AbsDiffTime { nanoseconds: 7 }
    );
}

#[test]
fn period_rounds_diff_down_to_power_of_two() {
    let p = |n: u128| ResamplePeriod::from_diff_rounding_down(AbsDiffTime { nanoseconds: n }).power_of_two();
    assert_eq!(p(0), 0);
    assert_eq!(p(1), 0);
    assert_eq!(p(2), 1);
    assert_eq!(p(3), 1);
    assert_eq!(p(4), 2);
    assert_eq!(p(1023), 9);
    assert_eq!(p(1024), 10);
    assert_eq!(p(1_000_000), 19);
    assert_eq!(p(1u128 << 126), 126);
    assert_eq!(p((1u128 << 127) - 1), 126);
    assert_eq!(p(u128::MAX), 126);
}

#[test]
fn period_monotonic_in_diff() {
    let mut last = 0;
    for n in [0u128, 1, 5, 17, 100, 4096, 99_999, 1 << 60, 1 << 100, u128::MAX] {
        let p = ResamplePeriod::from_diff_rounding_down(AbsDiffTime { nanoseconds: n }).power_of_two();
        assert!(p >= last);
        last = p;
    }
}

#[test]
fn from_power_of_two_bounds() {
    assert_eq!(ResamplePeriod::from_power_of_two(0), Some(ResamplePeriod::min_value()));
    assert_eq!(ResamplePeriod::from_power_of_two(126), Some(ResamplePeriod::max_value()));
    assert_eq!(ResamplePeriod::from_power_of_two(127), None);
    assert_eq!(ResamplePeriod::from_power_of_two(255), None);
    assert_eq!(ResamplePeriod::from_power_of_two(42).unwrap().power_of_two(), 42);
}

#[test]
fn next_smallest_halves_until_one_ns() {
    assert_eq!(ResamplePeriod::min_value().next_smallest(), None);
    let p5 = ResamplePeriod::from_power_of_two(5).unwrap();
    assert_eq!(p5.next_smallest(), ResamplePeriod::from_power_of_two(4));
    assert_eq!(
        ResamplePeriod::max_value().next_smallest(),
        ResamplePeriod::from_power_of_two(125)
    );
    // One power larger undoes one power smaller.
    assert_eq!(p5.next_smallest().unwrap().n_powers_of_2_larger_or_max(1), p5);
}

#[test]
fn n_powers_larger_saturates_at_max() {
    let p5 = ResamplePeriod::from_power_of_two(5).unwrap();
    assert_eq!(p5.n_powers_of_2_larger_or_max(0), p5);
    assert_eq!(p5.n_powers_of_2_larger_or_max(8).power_of_two(), 13);
    assert_eq!(p5.n_powers_of_2_larger_or_max(121), ResamplePeriod::max_value());
    assert_eq!(p5.n_powers_of_2_larger_or_max(122), ResamplePeriod::max_value());
    assert_eq!(p5.n_powers_of_2_larger_or_max(255), ResamplePeriod::max_value());
    assert_eq!(
        ResamplePeriod::max_value().n_powers_of_2_larger_or_max(255),
        ResamplePeriod::max_value()
    );
}

#[test]
fn resampled_index_covers_time() {
    let period_8ns = ResamplePeriod::from_power_of_two(3).unwrap();
    for t in -20i128..20 {
        let i = SampleIndex::resampled_index_for_time(period_8ns, Time { nanoseconds: t }).index;
        assert!(i * 8 <= t && t < (i + 1) * 8);
    }
    // Monotonic in time.
    let a = SampleIndex::resampled_index_for_time(period_8ns, Time { nanoseconds: -9 });
    let b = SampleIndex::resampled_index_for_time(period_8ns, Time { nanoseconds: 100 });
    assert!(a <= b);
    assert_eq!(SampleIndex::min_value().index, i128::MIN);
    assert_eq!(SampleIndex::max_value().index, i128::MAX);
}

#[test]
fn new_samples_have_no_available_index() {
    let samples: Samples<Vec<u32>, EmptyContinuousSignalBlock<u32>> = Samples::new();
    assert_eq!(samples.last_available_index(), None);
    let block: Block<Vec<u32>, EmptyContinuousSignalBlock<u32>> = Block::Empty(EmptyContinuousSignalBlock {
        prev: (Time { nanoseconds: 0 }, 1),
        next: (Time { nanoseconds: 10 }, 2),
    });
    assert!(matches!(block, Block::Empty(_)));
}
