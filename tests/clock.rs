use space::clock::{compute_elapsed_time, ElapsedTime, SEC_PER_DAY, SEC_PER_YEAR};

#[test]
fn zero_seconds() {
    assert_eq!(compute_elapsed_time(0), ElapsedTime::default());
}

#[test]
fn one_of_each_unit() {
    let total = SEC_PER_YEAR + SEC_PER_DAY + 3600 + 60 + 1;
    let t = compute_elapsed_time(total);
    assert_eq!((t.years, t.days, t.hours, t.minutes, t.seconds), (1, 1, 1, 1, 1));
}

#[test]
fn quarter_day_year() {
    // A year is 365.25 days: 365 days and 6 hours stay below one year.
    let t = compute_elapsed_time(365 * SEC_PER_DAY + 6 * 3600 - 1);
    assert_eq!((t.years, t.days, t.hours, t.minutes, t.seconds), (0, 365, 5, 59, 59));
    let t = compute_elapsed_time(365 * SEC_PER_DAY + 6 * 3600);
    assert_eq!((t.years, t.days, t.hours, t.minutes, t.seconds), (1, 0, 0, 0, 0));
}

#[test]
fn ten_second_steps() {
    let t = compute_elapsed_time(1000 * 10);
    assert_eq!((t.years, t.days, t.hours, t.minutes, t.seconds), (0, 0, 2, 46, 40));
}
