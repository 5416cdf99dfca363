use disseqt::raster::{Adc, AdcSample, DsvSequence, Error, Events, RasterChannel};
use disseqt::types::{EventType, GradientChannel};

fn flags(n: usize, runs: &[(usize, usize)]) -> Vec<bool> {
    let mut samples = vec![false; n];
    for &(first, last) in runs {
        for x in &mut samples[first..=last] {
            *x = true;
        }
    }
    samples
}

fn two_pulses() -> Vec<bool> {
    flags(100, &[(20, 29), (50, 59)])
}

fn part(first: usize, last: usize, part: usize, parts: usize) -> AdcSample {
    AdcSample {
        first,
        last,
        part,
        parts,
    }
}

#[test]
fn channel_knows_its_length() {
    let channel = RasterChannel::try_new(&two_pulses()).unwrap();
    assert_eq!(channel.len(), 100);
}

#[test]
fn channel_refuses_what_the_trigger_refuses() {
    assert!(RasterChannel::try_new(&flags(30, &[(10, 10)])).is_none());
    assert!(RasterChannel::try_new(&flags(30, &[(29, 29)])).is_none());
    let short = RasterChannel::try_new(&flags(10, &[(0, 2)])).unwrap();
    assert_eq!(short.len(), 10);
    assert_eq!(short.encounter(0), Some((0, 4)));
}

#[test]
fn encounter_is_a_half_open_range() {
    let channel = RasterChannel::try_new(&two_pulses()).unwrap();
    assert_eq!(channel.encounter(0), Some((20, 30)));
    assert_eq!(channel.encounter(20), Some((20, 30)));
    assert_eq!(channel.encounter(21), Some((50, 60)));
    assert_eq!(channel.encounter(50), Some((50, 60)));
    assert_eq!(channel.encounter(51), None);
}

#[test]
fn encounter_at_the_end_of_the_channel() {
    let channel = RasterChannel::try_new(&flags(30, &[(25, 29)])).unwrap();
    assert_eq!(channel.encounter(0), Some((25, 30)));
}

#[test]
fn raster_events_are_the_raster_points() {
    let channel = RasterChannel::try_new(&two_pulses()).unwrap();
    assert_eq!(channel.events(5, 9, 100), vec![5, 6, 7, 8]);
    assert_eq!(channel.events(5, 9, 4), vec![5, 6, 7, 8]);
    assert_eq!(channel.events(5, 9, 2), vec![5, 6]);
    assert_eq!(channel.events(5, 9, 0), vec![]);
    assert_eq!(channel.events(0, 1, 10), vec![0]);
    assert_eq!(channel.events(5, 5, 10), vec![]);
    assert_eq!(channel.events(9, 5, 10), vec![]);
}

#[test]
fn raster_events_end_with_the_channel() {
    // The point at the end of the channel is the last one.
    let channel = RasterChannel::try_new(&two_pulses()).unwrap();
    assert_eq!(channel.events(98, 100, 100), vec![98, 99]);
    assert_eq!(channel.events(98, 101, 100), vec![98, 99, 100]);
    assert_eq!(channel.events(98, 102, 100), vec![98, 99, 100]);
    assert_eq!(channel.events(98, 200, 100), vec![98, 99, 100]);
    assert_eq!(channel.events(100, 200, 100), vec![100]);
    assert_eq!(channel.events(101, 200, 100), vec![]);
    assert_eq!(channel.events(98, usize::MAX, 1), vec![98]);
    assert_eq!(channel.events(98, usize::MAX, 5), vec![98, 99, 100]);
    let empty = RasterChannel::try_new(&[]).unwrap();
    assert_eq!(empty.events(0, 5, 5), vec![0]);
    assert_eq!(empty.events(0, 0, 5), vec![]);
}

#[test]
fn raster_events_rise_within_the_range() {
    let channel = RasterChannel::try_new(&two_pulses()).unwrap();
    let events = channel.events(13, 77, 40);
    assert_eq!(events.len(), 40);
    assert!(events.windows(2).all(|w| w[0] < w[1]));
    assert!(events.iter().all(|&i| 13 <= i && i < 77));
}

#[test]
fn adc_refuses_a_stride_of_zero() {
    assert!(Adc::try_new(&two_pulses(), None, 0).is_none());
    assert!(Adc::try_new(&two_pulses(), None, 1).is_some());
    assert!(Adc::try_new(&flags(10, &[]), None, 1).is_some());
    assert!(Adc::try_new(&flags(30, &[(10, 10)]), None, 1).is_none());
}

#[test]
fn adc_samples_on_the_raster() {
    let adc = Adc::try_new(&two_pulses(), None, 1).unwrap();
    assert_eq!(adc.len(), 100);
    let mut expected: Vec<usize> = (20..=29).collect();
    expected.extend(50..=59);
    assert_eq!(adc.events(0, 100, 1000), Events::Raster(expected.clone()));
    expected.truncate(15);
    assert_eq!(adc.events(0, 100, 15), Events::Raster(expected));
    assert_eq!(adc.events(0, 100, 0), Events::Raster(vec![]));
}

#[test]
fn adc_samples_with_a_stride() {
    let adc = Adc::try_new(&two_pulses(), None, 4).unwrap();
    assert_eq!(
        adc.events(0, 100, 1000),
        Events::Raster(vec![22, 26, 52, 56])
    );
    assert_eq!(adc.events(0, 100, 3), Events::Raster(vec![22, 26, 52]));
    // The part of an interval within the range is stepped through anew.
    assert_eq!(adc.events(25, 55, 1000), Events::Raster(vec![27, 52]));
    let adc = Adc::try_new(&two_pulses(), None, 5).unwrap();
    assert_eq!(
        adc.events(0, 100, 1000),
        Events::Raster(vec![22, 27, 52, 57])
    );
    let adc = Adc::try_new(&two_pulses(), None, usize::MAX).unwrap();
    assert_eq!(adc.events(0, 100, 1000), Events::Raster(vec![]));
}

#[test]
fn adc_range_is_half_open() {
    let adc = Adc::try_new(&two_pulses(), None, 1).unwrap();
    assert_eq!(adc.events(0, 20, 1000), Events::Raster(vec![]));
    assert_eq!(adc.events(0, 21, 1000), Events::Raster(vec![20]));
    assert_eq!(adc.events(27, 52, 1000), Events::Raster(vec![27, 28, 29, 50, 51]));
    assert_eq!(adc.events(30, 50, 1000), Events::Raster(vec![]));
    assert_eq!(adc.events(55, 25, 1000), Events::Raster(vec![]));
}

#[test]
fn adc_samples_with_a_resolution() {
    let adc = Adc::try_new(&two_pulses(), Some(3), 1).unwrap();
    assert_eq!(
        adc.events(0, 100, 1000),
        Events::Resolved(vec![
            part(20, 29, 0, 3),
            part(20, 29, 1, 3),
            part(20, 29, 2, 3),
            part(50, 59, 0, 3),
            part(50, 59, 1, 3),
            part(50, 59, 2, 3),
        ])
    );
    assert_eq!(
        adc.events(0, 100, 4),
        Events::Resolved(vec![
            part(20, 29, 0, 3),
            part(20, 29, 1, 3),
            part(20, 29, 2, 3),
            part(50, 59, 0, 3),
        ])
    );
    assert_eq!(
        adc.events(25, 55, 1000),
        Events::Resolved(vec![
            part(25, 29, 0, 3),
            part(25, 29, 1, 3),
            part(25, 29, 2, 3),
            part(50, 54, 0, 3),
            part(50, 54, 1, 3),
            part(50, 54, 2, 3),
        ])
    );
    assert_eq!(adc.events(30, 50, 1000), Events::Resolved(vec![]));
    assert_eq!(adc.events(55, 25, 1000), Events::Resolved(vec![]));
}

#[test]
fn adc_resolution_of_zero_yields_nothing() {
    let adc = Adc::try_new(&two_pulses(), Some(0), 1).unwrap();
    assert_eq!(adc.events(0, 100, 1000), Events::Resolved(vec![]));
}

#[test]
fn adc_encounter() {
    let adc = Adc::try_new(&two_pulses(), Some(3), 1).unwrap();
    assert_eq!(adc.encounter(0), Some((20, 30)));
    assert_eq!(adc.encounter(30), Some((50, 60)));
    assert_eq!(adc.encounter(60), None);
}

#[test]
fn events_know_their_number() {
    assert_eq!(Events::Raster(vec![1, 2, 3]).len(), 3);
    assert_eq!(Events::Resolved(vec![part(0, 1, 0, 1)]).len(), 1);
}

#[test]
fn sequence_looks_events_up_by_kind() {
    let rf = flags(100, &[(10, 19)]);
    let gx = flags(200, &[(20, 29)]);
    let gy = flags(200, &[(30, 39)]);
    let gz = flags(200, &[(40, 49)]);
    let adc = flags(50, &[(20, 24)]);
    let seq = DsvSequence::load(&rf, &gx, &gy, &gz, &adc, None, 2).unwrap();
    let x = EventType::Gradient(GradientChannel::X);
    let y = EventType::Gradient(GradientChannel::Y);
    let z = EventType::Gradient(GradientChannel::Z);

    assert_eq!(seq.samples(EventType::RfPulse), 100);
    assert_eq!(seq.samples(x), 200);
    assert_eq!(seq.samples(y), 200);
    assert_eq!(seq.samples(z), 200);
    assert_eq!(seq.samples(EventType::Adc), 50);

    assert_eq!(seq.encounter(0, EventType::RfPulse), Some((10, 20)));
    assert_eq!(seq.encounter(0, x), Some((20, 30)));
    assert_eq!(seq.encounter(0, y), Some((30, 40)));
    assert_eq!(seq.encounter(0, z), Some((40, 50)));
    assert_eq!(seq.encounter(0, EventType::Adc), Some((20, 25)));
    assert_eq!(seq.encounter(11, EventType::RfPulse), None);

    assert_eq!(
        seq.events(EventType::RfPulse, 98, 150, 10),
        Events::Raster(vec![98, 99, 100])
    );
    assert_eq!(seq.events(x, 98, 150, 3), Events::Raster(vec![98, 99, 100]));
    assert_eq!(
        seq.events(y, 198, 250, 3),
        Events::Raster(vec![198, 199, 200])
    );
    assert_eq!(seq.events(z, 0, 2, 3), Events::Raster(vec![0, 1]));
    assert_eq!(
        seq.events(EventType::Adc, 0, 50, 10),
        Events::Raster(vec![21, 23])
    );
}

#[test]
fn sequence_with_a_resolution() {
    let quiet = flags(20, &[]);
    let adc = flags(50, &[(20, 24)]);
    let seq = DsvSequence::load(&quiet, &quiet, &quiet, &quiet, &adc, Some(2), 1).unwrap();
    assert_eq!(
        seq.events(EventType::Adc, 0, 50, 10),
        Events::Resolved(vec![part(20, 24, 0, 2), part(20, 24, 1, 2)])
    );
    assert_eq!(seq.events(EventType::Adc, 0, 50, 10).len(), 2);
}

#[test]
fn load_reports_the_first_channel_that_fails() {
    let good = flags(20, &[(3, 6)]);
    let lone = flags(30, &[(10, 10)]);
    let x = EventType::Gradient(GradientChannel::X);
    let y = EventType::Gradient(GradientChannel::Y);
    let z = EventType::Gradient(GradientChannel::Z);
    let err = |r: Result<DsvSequence, Error>| r.err();

    assert_eq!(
        err(DsvSequence::load(&lone, &lone, &lone, &lone, &lone, None, 0)),
        Some(Error::LoneSample(EventType::RfPulse))
    );
    assert_eq!(
        err(DsvSequence::load(&good, &lone, &lone, &good, &good, None, 1)),
        Some(Error::LoneSample(x))
    );
    assert_eq!(
        err(DsvSequence::load(&good, &good, &lone, &lone, &good, None, 1)),
        Some(Error::LoneSample(y))
    );
    assert_eq!(
        err(DsvSequence::load(&good, &good, &good, &lone, &lone, None, 1)),
        Some(Error::LoneSample(z))
    );
    assert_eq!(
        err(DsvSequence::load(&good, &good, &good, &good, &lone, None, 0)),
        Some(Error::LoneSample(EventType::Adc))
    );
    assert_eq!(
        err(DsvSequence::load(&good, &good, &good, &good, &good, None, 0)),
        Some(Error::ZeroStride)
    );
    assert!(DsvSequence::load(&good, &good, &good, &good, &good, None, 1).is_ok());
}

#[test]
fn load_takes_channels_of_any_length() {
    let short = flags(4, &[(1, 2)]);
    let none = flags(0, &[]);
    let seq = DsvSequence::load(&short, &none, &short, &none, &short, None, 1).unwrap();
    assert_eq!(seq.samples(EventType::RfPulse), 4);
    assert_eq!(seq.samples(EventType::Gradient(GradientChannel::X)), 0);
    assert_eq!(seq.encounter(0, EventType::RfPulse), Some((1, 4)));
    assert_eq!(
        seq.encounter(0, EventType::Gradient(GradientChannel::X)),
        None
    );
    assert_eq!(
        seq.events(EventType::Adc, 0, 10, 10),
        Events::Raster(vec![1, 2, 3])
    );
}
