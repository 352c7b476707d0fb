use reading_catalog::utils::{readtime, to_minutes, to_number};

#[test]
fn to_minutes_reads_hours_and_minutes() {
    assert_eq!(to_minutes("0900"), Some(540));
    assert_eq!(to_minutes("1200"), Some(720));
    assert_eq!(to_minutes("0000"), Some(0));
    assert_eq!(to_minutes("2359"), Some(1439));
    assert_eq!(to_minutes("0001"), Some(1));
    assert_eq!(to_minutes("0100"), Some(60));
}

#[test]
fn to_minutes_checks_no_ranges() {
    assert_eq!(to_minutes("2575"), Some(25 * 60 + 75));
    assert_eq!(to_minutes("9999"), Some(99 * 60 + 99));
}

#[test]
fn to_minutes_takes_all_that_follows_the_hours_as_minutes() {
    assert_eq!(to_minutes("090"), Some(540));
    assert_eq!(to_minutes("12345"), Some(12 * 60 + 345));
    assert_eq!(to_minutes("00007"), Some(7));
}

#[test]
fn to_minutes_refuses_what_is_not_a_time_of_day() {
    assert_eq!(to_minutes(""), None);
    assert_eq!(to_minutes("9"), None);
    assert_eq!(to_minutes("09"), None);
    assert_eq!(to_minutes("09:00"), None);
    assert_eq!(to_minutes("ab00"), None);
    assert_eq!(to_minutes("0a00"), None);
    assert_eq!(to_minutes("090x"), None);
    assert_eq!(to_minutes(" 0900"), None);
    assert_eq!(to_minutes("0900 "), None);
    assert_eq!(to_minutes("09+5"), None);
    assert_eq!(to_minutes("-900"), None);
    assert_eq!(to_minutes("09é0"), None);
    assert_eq!(to_minutes("０９００"), None);
}

#[test]
fn to_minutes_refuses_what_does_not_fit() {
    assert_eq!(to_minutes("004294967295"), Some(u32::MAX));
    assert_eq!(to_minutes("004294967296"), None);
    assert_eq!(to_minutes("014294967235"), Some(u32::MAX));
    assert_eq!(to_minutes("014294967236"), None);
    assert_eq!(to_minutes("0099999999999999999999999999"), None);
}

#[test]
fn readtime_turns_hours_into_minutes() {
    assert_eq!(readtime("1"), Some(60));
    assert_eq!(readtime("2"), Some(120));
    assert_eq!(readtime("10"), Some(600));
    assert_eq!(readtime("007"), Some(420));
}

#[test]
fn readtime_refuses_zero_and_what_is_no_number() {
    assert_eq!(readtime("0"), None);
    assert_eq!(readtime("000"), None);
    assert_eq!(readtime(""), None);
    assert_eq!(readtime("two"), None);
    assert_eq!(readtime("-1"), None);
    assert_eq!(readtime("1.5"), None);
    assert_eq!(readtime("1 "), None);
    assert_eq!(readtime("１"), None);
}

#[test]
fn readtime_refuses_what_does_not_fit() {
    assert_eq!(readtime("71582788"), Some(4_294_967_280));
    assert_eq!(readtime("71582789"), None);
    assert_eq!(readtime("99999999999999999999999"), None);
}

#[test]
fn to_number_reads_digits() {
    assert_eq!(to_number("0"), Some(0));
    assert_eq!(to_number("7"), Some(7));
    assert_eq!(to_number("125000"), Some(125_000));
    assert_eq!(to_number("000125"), Some(125));
    assert_eq!(to_number("18446744073709551615"), Some(u64::MAX));
}

#[test]
fn to_number_refuses_all_else() {
    assert_eq!(to_number(""), None);
    assert_eq!(to_number("+7"), None);
    assert_eq!(to_number("-7"), None);
    assert_eq!(to_number("7 "), None);
    assert_eq!(to_number("1e3"), None);
    assert_eq!(to_number("١٢٣"), None);
    assert_eq!(to_number("18446744073709551616"), None);
    assert_eq!(to_number("99999999999999999999"), None);
    assert_eq!(to_number("184467440737095516150"), None);
}
