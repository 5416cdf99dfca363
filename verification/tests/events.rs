use disseqt::blocks::{time_key, BlockIndex};
use disseqt::events::EventList;

fn tkey(t: f64) -> i64 {
    time_key(t.to_bits())
}

fn block_index(starts: &[f64]) -> BlockIndex {
    BlockIndex::new(starts.iter().map(|&t| tkey(t)).collect()).unwrap()
}

#[test]
fn list_takes_rising_events_of_the_span() {
    let mut list = EventList::new(tkey(1.0), tkey(2.0), 10);
    assert!(list.offer(tkey(1.0)));
    assert!(list.offer(tkey(1.25)));
    assert!(list.offer(tkey(1.5)));
    assert_eq!(list.len(), 3);
    assert_eq!(list.into_times(), vec![tkey(1.0), tkey(1.25), tkey(1.5)]);
}

#[test]
fn list_ends_at_the_end_of_the_span() {
    let mut list = EventList::new(tkey(1.0), tkey(2.0), 10);
    assert!(list.offer(tkey(1.5)));
    // The end of the span is excluded.
    assert!(!list.offer(tkey(2.0)));
    assert!(!list.offer(tkey(3.0)));
    assert_eq!(list.into_times(), vec![tkey(1.5)]);
}

#[test]
fn list_takes_no_more_than_asked_for() {
    let mut list = EventList::new(tkey(0.0), tkey(10.0), 2);
    assert!(list.offer(tkey(1.0)));
    assert!(list.offer(tkey(2.0)));
    assert!(!list.offer(tkey(3.0)));
    assert_eq!(list.len(), 2);
    let mut none = EventList::new(tkey(0.0), tkey(10.0), 0);
    assert!(!none.offer(tkey(1.0)));
    assert_eq!(none.len(), 0);
}

#[test]
fn list_refuses_an_event_that_does_not_advance() {
    let mut list = EventList::new(tkey(0.0), tkey(10.0), 5);
    assert!(list.offer(tkey(1.0)));
    assert!(!list.offer(tkey(1.0)));
    assert!(!list.offer(tkey(0.5)));
    assert!(list.offer(tkey(1.5)));
    assert_eq!(list.into_times(), vec![tkey(1.0), tkey(1.5)]);
}

#[test]
fn list_refuses_an_event_before_the_span() {
    let mut list = EventList::new(tkey(1.0), tkey(2.0), 5);
    assert!(!list.offer(tkey(0.5)));
    assert_eq!(list.len(), 0);
    let mut empty_span = EventList::new(tkey(2.0), tkey(1.0), 5);
    assert!(!empty_span.offer(tkey(1.5)));
}

#[test]
fn collected_events_rise_within_the_span() {
    let offers = [0.5, 1.0, 1.0, 1.1, 0.9, 1.2, 1.3, 1.9, 2.0, 1.95];
    let mut list = EventList::new(tkey(1.0), tkey(2.0), 4);
    for &t in &offers {
        list.offer(tkey(t));
    }
    let times = list.into_times();
    assert_eq!(times, vec![tkey(1.0), tkey(1.1), tkey(1.2), tkey(1.3)]);
    assert!(times.len() <= 4);
    assert!(times.windows(2).all(|w| w[0] < w[1]));
    assert!(times.iter().all(|&t| tkey(1.0) <= t && t < tkey(2.0)));
}

#[test]
fn span_covers_the_blocks_of_a_time_span() {
    let blocks = block_index(&[0.0, 1.0, 2.0, 3.0]);
    assert_eq!(blocks.span(tkey(0.5), tkey(2.5)), (0, 3));
    assert_eq!(blocks.span(tkey(1.0), tkey(2.0)), (1, 2));
    assert_eq!(blocks.span(tkey(1.0), tkey(2.0 + 1e-9)), (1, 3));
    assert_eq!(blocks.span(tkey(0.0), tkey(100.0)), (0, 4));
    assert_eq!(blocks.span(tkey(3.5), tkey(100.0)), (3, 4));
    assert_eq!(blocks.span(tkey(-1.0), tkey(0.5)), (0, 1));
}

#[test]
fn span_of_an_empty_time_span() {
    let blocks = block_index(&[0.0, 1.0, 2.0, 3.0]);
    assert_eq!(blocks.span(tkey(1.5), tkey(1.5)), (1, 2));
    assert_eq!(blocks.span(tkey(1.0), tkey(1.0)), (1, 1));
    assert_eq!(blocks.span(tkey(2.5), tkey(0.5)), (2, 2));
    assert_eq!(blocks.span(tkey(-2.0), tkey(-1.0)), (0, 0));
    let none = block_index(&[]);
    assert_eq!(none.span(tkey(0.0), tkey(1.0)), (0, 0));
}
