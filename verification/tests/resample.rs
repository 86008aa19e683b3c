use signal_plot::resample::{
    Resample, ResampleBlock, COULD_REALLY_USE_SMALLER_PERIOD_POWER_OF_2,
    NUM_SAMPLES_TO_REDUCE_PERIOD_FOR,
};
use signal_plot::types::Time;

#[test]
fn resample_picks_initial_period_from_largest_gap() {
    assert_eq!(NUM_SAMPLES_TO_REDUCE_PERIOD_FOR, 100);
    assert_eq!(COULD_REALLY_USE_SMALLER_PERIOD_POWER_OF_2, 8);
    let mut r: Resample<f32> = Resample::new();
    let mut t: i128 = 0;
    for i in 0..99 {
        // Gaps of 1 ms, except one of 5 ms.
        let gap = if i == 50 { 5_000_000 } else { 1_000_000 };
        t += gap;
        assert_eq!(r.ingest_next_sample((Time { nanoseconds: t }, i as f32)), None);
    }
    t += 1_000_000;
    let p = r.ingest_next_sample((Time { nanoseconds: t }, 0.0)).unwrap();
    // 5 ms rounds down to 2^22 ns.
    assert_eq!(p.power_of_two(), 22);
}

#[test]
fn resample_reduces_period_by_one_after_enough_fine_samples() {
    let mut r: Resample<u8> = Resample::new();
    let mut t: i128 = 0;
    for _ in 0..100 {
        t += 1_000_000;
        r.ingest_next_sample((Time { nanoseconds: t }, 0));
    }
    // Gaps of 2^19..2^20 ns: 19 + 8 is not below 19, so these never count.
    for _ in 0..300 {
        t += 1_000_000;
        assert_eq!(r.ingest_next_sample((Time { nanoseconds: t }, 0)), None);
    }
    // Gaps of 1000 ns round to 2^9: 9 + 8 = 17 < 19, so each counts.
    for _ in 0..99 {
        t += 1000;
        assert_eq!(r.ingest_next_sample((Time { nanoseconds: t }, 0)), None);
    }
    t += 1000;
    let p = r.ingest_next_sample((Time { nanoseconds: t }, 0)).unwrap();
    assert_eq!(p.power_of_two(), 18);
    // The count started over.
    for _ in 0..99 {
        t += 1000;
        assert_eq!(r.ingest_next_sample((Time { nanoseconds: t }, 0)), None);
    }
    t += 1000;
    assert_eq!(r.ingest_next_sample((Time { nanoseconds: t }, 0)).unwrap().power_of_two(), 17);
    let block = ResampleBlock(vec![1u8, 2]);
    assert_eq!(block.0.len(), 2);
}

#[test]
fn resample_equal_times_give_shortest_period() {
    let mut r: Resample<()> = Resample::new();
    for _ in 0..99 {
        assert_eq!(r.ingest_next_sample((Time { nanoseconds: 7 }, ())), None);
    }
    assert_eq!(r.ingest_next_sample((Time { nanoseconds: 7 }, ())).unwrap().power_of_two(), 0);
}
