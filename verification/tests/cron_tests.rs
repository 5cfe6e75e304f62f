use dispatch_core::cron::parse;
use dispatch_core::cron::next_after;
use dispatch_core::CronError;

fn b(s: &str) -> Vec<u8> {
    s.as_bytes().to_vec()
}

fn next(expr: &str, from: u64) -> Result<u64, CronError> {
    let c = parse(&b(expr)).expect("expression must parse");
    next_after(&c, from)
}

#[test]
fn every_minute_top_of_minute() {
    assert_eq!(next("0 * * * * *", 5), Ok(60));
    // Strictly greater: from an exact match, the next minute.
    assert_eq!(next("0 * * * * *", 60), Ok(120));
}

#[test]
fn daily_at_three() {
    // 1970-01-01 00:00:00 -> 1970-01-01 03:00:00.
    assert_eq!(next("0 0 3 * * *", 0), Ok(10800));
    // Just past 03:00 -> next day 03:00.
    assert_eq!(next("0 0 3 * * *", 10800), Ok(10800 + 86400));
}

#[test]
fn second_lists_ranges_and_steps() {
    assert_eq!(next("0,30 * * * * *", 0), Ok(30));
    assert_eq!(next("15-20 * * * * *", 0), Ok(15));
    assert_eq!(next("15-20 * * * * *", 20), Ok(75));
    assert_eq!(next("10/15 * * * * *", 0), Ok(10));
    assert_eq!(next("10/15 * * * * *", 10), Ok(25));
    assert_eq!(next("0 0 */2 * * *", 0), Ok(7200));
    assert_eq!(next("5-50/10 * * * * *", 16), Ok(25));
}

#[test]
fn weekday_fields() {
    // 1970-01-01 was a Thursday; the next Monday is 1970-01-05.
    assert_eq!(next("0 0 0 * * 1", 0), Ok(4 * 86400));
}

#[test]
fn dom_and_dow_are_or_ed_when_both_restricted() {
    // Day-of-month 1 OR Monday: Monday 1970-01-05 comes before Feb 1.
    assert_eq!(next("0 0 0 1 * 1", 0), Ok(4 * 86400));
    // Plain star day fields leave the date unrestricted.
    assert_eq!(next("0 0 0 * * *", 0), Ok(86400));
}

#[test]
fn leap_day_is_found() {
    // First Feb 29 after 1970 is 1972-02-29.
    assert_eq!(next("0 0 0 29 2 *", 0), Ok(68169600));
}

#[test]
fn impossible_dates_hit_the_horizon() {
    // February never has 31 days.
    assert_eq!(next("0 0 0 31 2 *", 0), Err(CronError::NoMatchFound));
}

#[test]
fn next_is_strictly_after_from() {
    for from in [0u64, 1, 59, 60, 86399, 86400, 1700000000] {
        let t = next("*/7 * * * * *", from).unwrap();
        assert!(t > from);
    }
}

#[test]
fn invalid_expressions_are_rejected() {
    for expr in [
        "",
        "* * * * *",
        "* * * * * * *",
        "60 * * * * *",
        "* 60 * * * *",
        "* * 24 * * *",
        "* * * 0 * *",
        "* * * 32 * *",
        "* * * * 0 *",
        "* * * * 13 *",
        "* * * * * 7",
        "a * * * * *",
        "1-0 * * * * *",
        "*/0 * * * * *",
        "1,,2 * * * * *",
        "1- * * * * *",
    ] {
        assert_eq!(
            parse(&b(expr)),
            Err(CronError::InvalidExpression),
            "{expr:?} should be invalid"
        );
    }
}

#[test]
fn whitespace_between_fields_is_flexible() {
    assert!(parse(&b("  0  *\t* * * *  ")).is_ok());
}
