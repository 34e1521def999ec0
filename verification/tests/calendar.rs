use subwash::calendar::format_expire;

#[test]
fn known_days() {
    assert_eq!(format_expire(1), "1970-01-01");
    assert_eq!(format_expire(86_399), "1970-01-01");
    assert_eq!(format_expire(86_400), "1970-01-02");
    assert_eq!(format_expire(951_782_400), "2000-02-29");
    assert_eq!(format_expire(951_868_800), "2000-03-01");
    assert_eq!(format_expire(1_709_164_800), "2024-02-29");
    assert_eq!(format_expire(1_735_689_599), "2024-12-31");
    assert_eq!(format_expire(4_107_542_400), "2100-03-01");
    assert_eq!(format_expire(4_107_456_000), "2100-02-28");
    assert_eq!(format_expire(253_402_300_799), "9999-12-31");
    assert_eq!(format_expire(253_402_300_800), "10000-01-01");
}

#[test]
fn no_end_without_a_later_time() {
    assert_eq!(format_expire(0), "永久");
    assert_eq!(format_expire(-1), "永久");
    assert_eq!(format_expire(i64::MIN), "永久");
}

#[test]
fn the_last_time_has_a_date() {
    assert_eq!(format_expire(i64::MAX), "292277026596-12-04");
}

#[test]
fn days_follow_each_other() {
    let lengths = |year: i64| -> Vec<i64> {
        let leap = year % 4 == 0 && (year % 100 != 0 || year % 400 == 0);
        vec![31, if leap { 29 } else { 28 }, 31, 30, 31, 30, 31, 31, 30, 31, 30, 31]
    };
    let mut ts: i64 = 43_200;
    for year in 1970..2420i64 {
        for (month, length) in lengths(year).iter().enumerate() {
            for day in 1..=*length {
                assert_eq!(format_expire(ts), format!("{:04}-{:02}-{:02}", year, month + 1, day));
                ts += 86_400;
            }
        }
    }
}
