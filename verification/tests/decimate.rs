use signal_plot::decimate::{
    interpolates_finalized, scales_to_begin_decimating, time_indices_to_finalize,
    PositionalVecDeque, TimeScale,
};

#[test]
fn test_positional_vec_deque() {
    let mut pvd = PositionalVecDeque::new();
    assert_eq!(pvd.min_pos(), None);
    assert_eq!(pvd.last(), None);
    assert_eq!(pvd.iter_inds().collect::<Vec<_>>(), vec![]);

    pvd.set_pos(10, 10).unwrap();
    assert_eq!(pvd.min_pos(), Some(10));
    assert_eq!(pvd.get_pos(10).map(|p| *p), Some(10));
    assert_eq!(pvd.last().map(|p| *p), Some(10));
    assert_eq!(pvd.iter_inds().collect::<Vec<_>>(), vec![10]);

    pvd.set_pos(9, 9).unwrap();
    pvd.set_pos(11, 11).unwrap();
    assert_eq!(pvd.min_pos(), Some(9));
    assert_eq!(pvd.get_pos(9).map(|p| *p), Some(9));
    assert_eq!(pvd.get_pos(10).map(|p| *p), Some(10));
    assert_eq!(pvd.get_pos(11).map(|p| *p), Some(11));
    assert_eq!(pvd.get_pos(8).map(|p| *p), None);
    assert_eq!(pvd.get_pos(12).map(|p| *p), None);
    assert_eq!(pvd.last().map(|p| *p), Some(11));

    assert_eq!(pvd.set_pos(7, 7), Err(()));
    assert_eq!(pvd.set_pos(13, 13), Err(()));

    assert_eq!(pvd.iter_inds().collect::<Vec<_>>(), vec![9, 10, 11]);
}

#[test]
fn positional_vec_deque_overwrite_and_get_mut() {
    let mut pvd = PositionalVecDeque::new();
    pvd.set_pos(-3, 'a').unwrap();
    pvd.set_pos(-2, 'b').unwrap();
    // Read after write, others unchanged.
    pvd.set_pos(-3, 'z').unwrap();
    assert_eq!(pvd.get_pos(-3), Some(&'z'));
    assert_eq!(pvd.get_pos(-2), Some(&'b'));
    *pvd.get_pos_mut(-2).unwrap() = 'y';
    assert_eq!(pvd.get_pos(-2), Some(&'y'));
    assert_eq!(pvd.get_pos(-3), Some(&'z'));
    assert!(pvd.get_pos_mut(0).is_none());
    assert!(pvd.get_pos_mut(-4).is_none());
    // A failed set changes nothing.
    assert_eq!(pvd.set_pos(1, 'q'), Err(()));
    assert_eq!(pvd.iter_inds().collect::<Vec<_>>(), vec![-3, -2]);
    assert_eq!(pvd.last(), Some(&'y'));
}

#[test]
fn positional_vec_deque_extreme_positions() {
    let mut pvd = PositionalVecDeque::new();
    pvd.set_pos(i128::MIN, 1u8).unwrap();
    assert_eq!(pvd.get_pos(i128::MAX), None);
    assert_eq!(pvd.set_pos(i128::MAX, 2), Err(()));
    assert_eq!(pvd.min_pos(), Some(i128::MIN));
    let mut top = PositionalVecDeque::new();
    top.set_pos(i128::MAX, 3u8).unwrap();
    assert_eq!(top.get_pos(i128::MIN), None);
    assert_eq!(top.set_pos(i128::MIN, 4), Err(()));
    top.set_pos(i128::MAX - 1, 5).unwrap();
    assert_eq!(top.min_pos(), Some(i128::MAX - 1));
    assert_eq!(top.last(), Some(&3));
}

#[test]
fn time_scale_round_trip() {
    for i in [-5, 0, 1, i32::MIN, i32::MAX] {
        assert_eq!(TimeScale::from_scale_idx(i).scale_idx(), i);
    }
    assert_eq!(TimeScale::from_scale_idx(3), TimeScale::from_scale_idx(3));
}

#[test]
fn scales_to_begin_decimating_ranges() {
    assert_eq!(scales_to_begin_decimating(-3, None), Some(-3..-2));
    assert_eq!(scales_to_begin_decimating(-3, Some(2)), Some(-3..2));
    assert_eq!(scales_to_begin_decimating(2, Some(2)), None);
    assert_eq!(scales_to_begin_decimating(5, Some(2)), None);
}

#[test]
fn time_indices_to_finalize_ranges() {
    // Same time index: keep accumulating.
    assert_eq!(time_indices_to_finalize(4, 4), None);
    // Next time index: the incomplete one is finalized, whether or not it holds samples.
    assert_eq!(time_indices_to_finalize(10, 11), Some(10..11));
    assert_eq!(time_indices_to_finalize(4, 5), Some(4..5));
    // Skipped time indices: the incomplete one and every skipped one.
    assert_eq!(time_indices_to_finalize(4, 8), Some(4..8));
    assert_eq!(time_indices_to_finalize(i128::MIN, i128::MAX), Some(i128::MIN..i128::MAX));
}

#[test]
fn interpolates_finalized_when_empty_or_skipping() {
    assert!(!interpolates_finalized(10, 1, 11));
    assert!(interpolates_finalized(10, 0, 11));
    assert!(interpolates_finalized(10, 3, 12));
    assert!(interpolates_finalized(i128::MIN, 5, i128::MAX));
}

#[test]
fn finalizing_keeps_positions_contiguous() {
    // Incomplete samples at 10 (one sample), then the new sample lands at 11, then at 14.
    let mut finalized = PositionalVecDeque::new();
    let mut incomplete: i128 = 10;
    for sample_idx in [11i128, 14, 14, 15] {
        if let Some(range) = time_indices_to_finalize(incomplete, sample_idx) {
            for i in range {
                finalized.set_pos(i, i).unwrap();
            }
            incomplete = sample_idx;
        }
    }
    assert_eq!(finalized.iter_inds().collect::<Vec<_>>(), (10..15).collect::<Vec<_>>());
}

#[test]
fn positional_vec_deque_extends_at_both_ends() {
    let mut pvd = PositionalVecDeque::new();
    for pos in 0..5i128 {
        pvd.set_pos(pos, pos * 10).unwrap();
    }
    for pos in (-5..0i128).rev() {
        pvd.set_pos(pos, pos * 10).unwrap();
    }
    assert_eq!(pvd.iter_inds().collect::<Vec<_>>(), (-5..5).collect::<Vec<_>>());
    for pos in -5..5i128 {
        assert_eq!(pvd.get_pos(pos), Some(&(pos * 10)));
    }
    assert_eq!(pvd.min_pos(), Some(-5));
    assert_eq!(pvd.last(), Some(&40));
}
