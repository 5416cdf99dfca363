use disseqt::trigger::{Trigger, WINDOW};

fn flags(n: usize, runs: &[(usize, usize)]) -> Vec<bool> {
    let mut samples = vec![0.0f64; n];
    for &(first, last) in runs {
        for x in &mut samples[first..=last] {
            *x = 1.0;
        }
    }
    samples.iter().map(|&x| x != 0.0).collect()
}

fn all(trigger: &Trigger) -> Vec<(usize, usize)> {
    trigger.events(0, usize::MAX)
}

#[test]
fn padded_pulse_yields_one_interval() {
    let trigger = Trigger::new(&flags(1000, &[(100, 109)]));
    assert_eq!(all(&trigger), vec![(100, 109)]);
    assert_eq!(trigger.search(0), Some((100, 109)));
}

#[test]
fn window_is_ten_samples() {
    assert_eq!(WINDOW, 10);
}

#[test]
fn channel_without_pulse_has_no_interval() {
    let trigger = Trigger::new(&flags(11, &[]));
    assert_eq!(all(&trigger), vec![]);
    assert_eq!(trigger.search(0), None);
}

#[test]
fn nine_zeros_separate_two_runs() {
    let trigger = Trigger::new(&flags(100, &[(20, 25), (35, 40)]));
    assert_eq!(all(&trigger), vec![(20, 25), (35, 40)]);
}

#[test]
fn eight_zeros_do_not_separate() {
    let trigger = Trigger::new(&flags(100, &[(20, 25), (34, 40)]));
    assert_eq!(all(&trigger), vec![(20, 40)]);
}

#[test]
fn run_at_the_front_edge_starts_there() {
    let trigger = Trigger::new(&flags(30, &[(0, 4)]));
    assert_eq!(all(&trigger), vec![(0, 4)]);
    let trigger = Trigger::new(&flags(30, &[(3, 6)]));
    assert_eq!(all(&trigger), vec![(3, 6)]);
}

#[test]
fn run_at_the_back_edge_is_closed_there() {
    // Up to the last sample: closed at the last sample.
    let trigger = Trigger::new(&flags(30, &[(25, 29)]));
    assert_eq!(all(&trigger), vec![(25, 29)]);
    // Within the last nine samples: closed one past the run.
    let trigger = Trigger::new(&flags(30, &[(24, 27)]));
    assert_eq!(all(&trigger), vec![(24, 28)]);
    // A whole window behind the run: closed at its last sample.
    let trigger = Trigger::new(&flags(30, &[(15, 20)]));
    assert_eq!(all(&trigger), vec![(15, 20)]);
}

#[test]
fn short_channel_is_indexed() {
    let trigger = Trigger::try_new(&flags(10, &[(0, 2)])).unwrap();
    assert_eq!(all(&trigger), vec![(0, 3)]);
    let trigger = Trigger::try_new(&flags(10, &[(4, 4)])).unwrap();
    assert_eq!(all(&trigger), vec![(4, 5)]);
    let trigger = Trigger::try_new(&flags(5, &[(0, 4)])).unwrap();
    assert_eq!(all(&trigger), vec![(0, 4)]);
    let trigger = Trigger::try_new(&flags(3, &[(1, 1)])).unwrap();
    assert_eq!(all(&trigger), vec![(1, 2)]);
    let trigger = Trigger::try_new(&flags(10, &[])).unwrap();
    assert_eq!(all(&trigger), vec![]);
    let trigger = Trigger::try_new(&flags(0, &[])).unwrap();
    assert_eq!(all(&trigger), vec![]);
    assert_eq!(trigger.search(0), None);
}

#[test]
fn lone_sample_of_a_short_channel_is_refused() {
    assert!(Trigger::try_new(&flags(1, &[(0, 0)])).is_none());
    assert!(Trigger::try_new(&flags(10, &[(0, 0)])).is_none());
    assert!(Trigger::try_new(&flags(10, &[(9, 9)])).is_none());
    assert!(Trigger::try_new(&flags(10, &[(1, 1)])).is_some());
}

#[test]
fn lone_sample_is_refused() {
    assert!(Trigger::try_new(&flags(30, &[(10, 10)])).is_none());
    assert!(Trigger::try_new(&flags(30, &[(20, 20)])).is_none());
    assert!(Trigger::try_new(&flags(30, &[(29, 29)])).is_none());
    assert!(Trigger::try_new(&flags(100, &[(20, 25), (50, 50)])).is_none());
}

#[test]
fn lone_sample_near_the_back_edge_is_kept() {
    let trigger = Trigger::try_new(&flags(30, &[(21, 21)])).unwrap();
    assert_eq!(all(&trigger), vec![(21, 22)]);
    let trigger = Trigger::try_new(&flags(30, &[(28, 28)])).unwrap();
    assert_eq!(all(&trigger), vec![(28, 29)]);
}

#[test]
fn search_finds_the_first_interval_from_an_index() {
    let trigger = Trigger::new(&flags(200, &[(20, 29), (50, 59), (100, 150)]));
    assert_eq!(trigger.search(0), Some((20, 29)));
    assert_eq!(trigger.search(20), Some((20, 29)));
    assert_eq!(trigger.search(21), Some((50, 59)));
    assert_eq!(trigger.search(50), Some((50, 59)));
    assert_eq!(trigger.search(60), Some((100, 150)));
    assert_eq!(trigger.search(100), Some((100, 150)));
    assert_eq!(trigger.search(101), None);
    assert_eq!(trigger.search(usize::MAX), None);
}

#[test]
fn events_are_the_intervals_that_meet_the_range() {
    let trigger = Trigger::new(&flags(200, &[(20, 29), (50, 59), (100, 150)]));
    assert_eq!(
        trigger.events(0, 200),
        vec![(20, 29), (50, 59), (100, 150)]
    );
    // An interval that began before the range and reaches into it.
    assert_eq!(trigger.events(25, 60), vec![(20, 29), (50, 59)]);
    assert_eq!(trigger.events(20, 21), vec![(20, 29)]);
    assert_eq!(trigger.events(28, 29), vec![(20, 29)]);
    // The end of the range is exclusive.
    assert_eq!(trigger.events(0, 50), vec![(20, 29)]);
    assert_eq!(trigger.events(0, 51), vec![(20, 29), (50, 59)]);
    // An interval whose last index is the start of the range is left out.
    assert_eq!(trigger.events(29, 100), vec![(50, 59)]);
    assert_eq!(trigger.events(30, 50), vec![]);
    assert_eq!(trigger.events(151, 200), vec![]);
    assert_eq!(trigger.events(60, 20), vec![]);
}

#[test]
fn intervals_are_sorted_and_do_not_touch() {
    let mut samples = vec![false; 500];
    let mut k = 3;
    let mut width = 2;
    while k + width < 500 {
        for x in &mut samples[k..k + width] {
            *x = true;
        }
        k += width + 7 + (width % 5);
        width = width % 11 + 2;
    }
    let trigger = Trigger::try_new(&samples).unwrap();
    let intervals = all(&trigger);
    assert!(!intervals.is_empty());
    for e in &intervals {
        assert!(e.0 < e.1);
    }
    for w in intervals.windows(2) {
        assert!(w[0].1 < w[1].0);
    }
}
