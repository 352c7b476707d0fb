use reading_catalog::holiday::{is_recommendable, Frequency};

fn table() -> Vec<Frequency> {
    vec![
        Frequency { recommended_frequency: 2, date: "1701".to_string() },
        Frequency { recommended_frequency: 5, date: "2512".to_string() },
        Frequency { recommended_frequency: 9, date: "1701".to_string() },
        Frequency { recommended_frequency: 0, date: "0101".to_string() },
    ]
}

#[test]
fn exact_date_gives_its_frequency() {
    assert_eq!(is_recommendable(&"2512".to_string(), &table()), Some(5));
    assert_eq!(is_recommendable(&"0101".to_string(), &table()), Some(0));
}

#[test]
fn first_line_with_the_date_decides() {
    assert_eq!(is_recommendable(&"1701".to_string(), &table()), Some(2));
}

#[test]
fn other_dates_give_none() {
    assert_eq!(is_recommendable(&"1702".to_string(), &table()), None);
    assert_eq!(is_recommendable(&"".to_string(), &table()), None);
    assert_eq!(is_recommendable(&"170".to_string(), &table()), None);
    assert_eq!(is_recommendable(&"17011".to_string(), &table()), None);
    assert_eq!(is_recommendable(&" 1701".to_string(), &table()), None);
    assert_eq!(is_recommendable(&"1701".to_string(), &Vec::new()), None);
}

#[test]
fn empty_date_matches_only_an_empty_date() {
    let with_empty = vec![
        Frequency { recommended_frequency: 2, date: "1701".to_string() },
        Frequency { recommended_frequency: 4, date: "".to_string() },
    ];
    assert_eq!(is_recommendable(&"".to_string(), &with_empty), Some(4));
}
