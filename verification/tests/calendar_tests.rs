use uzh_biomed_bot::calendar::Rule;

// Weekday indices, Monday-first.
const MON: usize = 0;
const TUE: usize = 1;
const THU: usize = 3;

// The epoch day (day 0) was a Thursday, so day 4 was a Monday.
const DAY: u64 = 86400;
const HOUR: u64 = 3600;

fn days(weekdays: &[usize]) -> [bool; 7] {
    let mut selected = [false; 7];
    for &wd in weekdays {
        selected[wd] = true;
    }
    selected
}

fn tue_thu_17_utc() -> Rule {
    Rule::new(days(&[TUE, THU]), 17 * HOUR, 0).unwrap()
}

#[test]
fn monday_morning_yields_tuesday_same_week() {
    let rule = tue_thu_17_utc();
    let monday_10 = 4 * DAY + 10 * HOUR;
    let tuesday_17 = 5 * DAY + 17 * HOUR;
    assert_eq!(rule.next_occurrence(monday_10), tuesday_17);
}

#[test]
fn exact_match_counts_as_already_past() {
    let rule = tue_thu_17_utc();
    let tuesday_17 = 5 * DAY + 17 * HOUR;
    let thursday_17 = 7 * DAY + 17 * HOUR;
    assert_eq!(rule.next_occurrence(tuesday_17), thursday_17);
}

#[test]
fn after_both_slots_wraps_to_next_week() {
    let rule = tue_thu_17_utc();
    let thursday_18 = 7 * DAY + 18 * HOUR;
    let next_tuesday_17 = 12 * DAY + 17 * HOUR;
    assert_eq!(rule.next_occurrence(thursday_18), next_tuesday_17);
}

#[test]
fn one_second_before_the_slot_still_fires_today() {
    let rule = tue_thu_17_utc();
    let tuesday_165959 = 5 * DAY + 17 * HOUR - 1;
    let tuesday_17 = 5 * DAY + 17 * HOUR;
    assert_eq!(rule.next_occurrence(tuesday_165959), tuesday_17);
}

#[test]
fn zone_offset_shifts_the_firing_instant_west() {
    // 17:00 in a zone one hour east of the clock is 16:00 on the clock.
    let rule = Rule::new(days(&[MON]), 17 * HOUR, HOUR as i64).unwrap();
    let monday_10 = 4 * DAY + 10 * HOUR;
    let monday_16 = 4 * DAY + 16 * HOUR;
    assert_eq!(rule.next_occurrence(monday_10), monday_16);
}

#[test]
fn single_weekday_wraps_a_whole_week() {
    let rule = Rule::new(days(&[MON]), 17 * HOUR, 0).unwrap();
    let monday_18 = 4 * DAY + 18 * HOUR;
    let next_monday_17 = 11 * DAY + 17 * HOUR;
    assert_eq!(rule.next_occurrence(monday_18), next_monday_17);
}

#[test]
fn every_day_selected_fires_within_a_day() {
    let rule = Rule::new([true; 7], 0, 0).unwrap();
    assert_eq!(rule.next_occurrence(0), DAY);
    assert_eq!(rule.next_occurrence(1), DAY);
    assert_eq!(rule.next_occurrence(DAY - 1), DAY);
}

#[test]
fn rules_must_be_well_formed() {
    assert!(Rule::new(days(&[MON]), 24 * HOUR, 0).is_none());
    assert!(Rule::new(days(&[]), 17 * HOUR, 0).is_none());
    assert!(Rule::new(days(&[MON]), 17 * HOUR, 90000).is_none());
    assert!(Rule::new(days(&[MON]), 17 * HOUR, -90000).is_none());
    assert!(Rule::new(days(&[MON]), 0, -86400).is_some());
}
