use life2::leds::LedCycle;
use life2::playlife::counter::Counter;

#[test]
fn counter_counts_down_and_stops_at_zero() {
    let c = Counter(2);
    assert!(!c.is_zero());
    let c = c.decr();
    assert_eq!(c, Counter(1));
    let c = c.decr();
    assert!(c.is_zero());
    let c = c.decr();
    assert_eq!(c, Counter(0));
}

#[test]
fn leds_chase_in_a_cycle_of_three() {
    let mut cycle = LedCycle::new();
    assert_eq!(cycle.count(), 0);
    assert_eq!(cycle.step(), (2, 0));
    assert_eq!(cycle.step(), (0, 1));
    assert_eq!(cycle.step(), (1, 2));
    assert_eq!(cycle.count(), 0);
    assert_eq!(cycle.step(), (2, 0));
}
