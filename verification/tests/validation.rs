use todo_app::config::Config;
use todo_app::date::Date;
use todo_app::task::Priority;
use todo_app::validate::{handle_date, parse_task_id, validate_priority, ValidationError};

#[test]
fn priority_accepts_the_three_tokens() {
    assert_eq!(validate_priority("low").unwrap(), Priority::Low);
    assert_eq!(validate_priority("medium").unwrap(), Priority::Medium);
    assert_eq!(validate_priority("high").unwrap(), Priority::High);
}

#[test]
fn priority_rejects_everything_else() {
    assert_eq!(
        validate_priority("URGENT").unwrap_err(),
        ValidationError::InvalidPriority
    );
    assert_eq!(
        validate_priority("High").unwrap_err(),
        ValidationError::InvalidPriority
    );
    assert_eq!(
        validate_priority("").unwrap_err(),
        ValidationError::InvalidPriority
    );
    assert_eq!(
        validate_priority("lowest").unwrap_err(),
        ValidationError::InvalidPriority
    );
}

#[test]
fn date_accepts_day_month_year() {
    let d = handle_date("22-12-2024").unwrap();
    assert_eq!(d, Date { year: 2024, month: 12, day: 22 });
}

#[test]
fn date_rejects_year_first_format() {
    assert_eq!(
        handle_date("2024-12-22").unwrap_err(),
        ValidationError::InvalidDate
    );
}

#[test]
fn date_rejects_wrong_shapes() {
    assert!(handle_date("1-1-2024").is_err());
    assert!(handle_date("22/12/2024").is_err());
    assert!(handle_date("22-12-24").is_err());
    assert!(handle_date("").is_err());
    assert!(handle_date("aa-bb-cccc").is_err());
}

#[test]
fn date_knows_the_calendar() {
    assert!(handle_date("29-02-2024").is_ok());
    assert!(handle_date("29-02-2023").is_err());
    assert!(handle_date("29-02-1900").is_err());
    assert!(handle_date("29-02-2000").is_ok());
    assert!(handle_date("31-04-2024").is_err());
    assert!(handle_date("00-01-2024").is_err());
    assert!(handle_date("01-00-2024").is_err());
    assert!(handle_date("01-13-2024").is_err());
    assert!(handle_date("31-12-9999").is_ok());
}

#[test]
fn date_new_checks_validity() {
    assert_eq!(Date::new(2024, 2, 29), Some(Date { year: 2024, month: 2, day: 29 }));
    assert_eq!(Date::new(2023, 2, 29), None);
    assert_eq!(Date::new(2024, 0, 1), None);
}

#[test]
fn task_id_parses_digit_runs() {
    assert_eq!(parse_task_id("0"), Some(0));
    assert_eq!(parse_task_id("42"), Some(42));
    assert_eq!(parse_task_id("007"), Some(7));
}

#[test]
fn task_id_rejects_non_digits() {
    assert_eq!(parse_task_id(""), None);
    assert_eq!(parse_task_id("12x"), None);
    assert_eq!(parse_task_id("-3"), None);
    assert_eq!(parse_task_id(" 3"), None);
}

#[test]
fn task_id_rejects_overflow() {
    assert_eq!(
        parse_task_id("340282366920938463463374607431768211455"),
        Some(u128::MAX)
    );
    assert_eq!(parse_task_id("340282366920938463463374607431768211456"), None);
}

#[test]
fn config_needs_a_command() {
    let r = Config::build(vec!["todo".to_string()]);
    assert_eq!(r.err(), Some("not enough arguments"));
}

#[test]
fn config_splits_command_and_arguments() {
    let args = vec![
        "todo".to_string(),
        "priority".to_string(),
        "3".to_string(),
        "high".to_string(),
    ];
    let c = Config::build(args).unwrap();
    assert_eq!(c.command, "priority");
    assert_eq!(c.arguments, vec!["3".to_string(), "high".to_string()]);
}
