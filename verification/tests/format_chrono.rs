use chrono::{DateTime, Local};

#[test]
fn format_chrono() {
    let now = Local::now();
    let formatted = now.format("%F %H_%M_%S%.f %z").to_string();
    assert_eq!(
        now,
        DateTime::parse_from_str(&formatted, "%F %H_%M_%S%.f %z").unwrap()
    );
}
