use marmita::date::{civil_from_days, date_text_of_clock, date_text_of_secs, today_utc};

#[test]
fn civil_epoch_is_1970_01_01() {
    assert_eq!(civil_from_days(0), (1970, 1, 1));
}

#[test]
fn civil_day_before_epoch() {
    assert_eq!(civil_from_days(-1), (1969, 12, 31));
}

#[test]
fn civil_readme_date() {
    assert_eq!(civil_from_days(20561), (2026, 4, 18));
}

#[test]
fn civil_leap_day_and_march() {
    assert_eq!(civil_from_days(11016), (2000, 2, 29));
    assert_eq!(civil_from_days(11017), (2000, 3, 1));
}

#[test]
fn civil_far_dates() {
    assert_eq!(civil_from_days(-719162), (1, 1, 1));
    assert_eq!(civil_from_days(-719528), (0, 1, 1));
    assert_eq!(civil_from_days(2932896), (9999, 12, 31));
}

#[test]
fn civil_consecutive_days_are_next_days() {
    let mut prev = civil_from_days(-1000);
    for z in -999..1000 {
        let cur = civil_from_days(z);
        let (y, m, d) = prev;
        let dim = match m {
            2 => {
                if (y % 4 == 0 && y % 100 != 0) || y % 400 == 0 {
                    29
                } else {
                    28
                }
            }
            4 | 6 | 9 | 11 => 30,
            _ => 31,
        };
        let expected = if d < dim {
            (y, m, d + 1)
        } else if m < 12 {
            (y, m + 1, 1)
        } else {
            (y + 1, 1, 1)
        };
        assert_eq!(cur, expected);
        prev = cur;
    }
}

#[test]
fn date_text_of_epoch() {
    assert_eq!(date_text_of_secs(0), "1970-01-01");
    assert_eq!(date_text_of_secs(86_399), "1970-01-01");
    assert_eq!(date_text_of_secs(86_400), "1970-01-02");
}

#[test]
fn date_text_before_epoch() {
    assert_eq!(date_text_of_secs(-1), "1969-12-31");
}

#[test]
fn date_text_pads_fields() {
    assert_eq!(date_text_of_secs(20561 * 86_400 + 3600), "2026-04-18");
    assert_eq!(date_text_of_secs(-719162 * 86_400), "0001-01-01");
}

#[test]
fn date_text_negative_year() {
    assert_eq!(date_text_of_secs(-719893 * 86_400), "-001-01-01");
}

#[test]
fn today_is_a_date() {
    let t = today_utc();
    assert_eq!(t.len(), 10);
    assert_eq!(&t[4..5], "-");
    assert_eq!(&t[7..8], "-");
    assert!(t.as_str() >= "2024-01-01");
}

#[test]
fn clock_before_epoch_counts_as_epoch() {
    assert_eq!(date_text_of_clock(None), "1970-01-01");
    assert_eq!(date_text_of_clock(Some(0)), "1970-01-01");
    assert_eq!(date_text_of_clock(Some(20561 * 86_400)), "2026-04-18");
    assert_eq!(date_text_of_clock(Some(u64::MAX)), "1969-12-31");
}
