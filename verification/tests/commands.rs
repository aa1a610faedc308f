use spaced::{
    add, add_unscheduled, due, next_larger_interval, next_smaller_interval, parse_intervals,
    try_add, Date, ParseError, SpacedTask,
};

fn day(year: u32, month: u32, day: u32) -> Date {
    Date { year, month, day }
}

fn args(words: &[&str]) -> Vec<String> {
    words.iter().map(|w| w.to_string()).collect()
}

#[test]
fn add_with_start_date() {
    let mut tasks: Vec<SpacedTask> = vec![];
    add(&mut tasks, String::from("guitar"), Some(String::from("2022-10-01"))).unwrap();
    assert_eq!(tasks.len(), 1);
    assert_eq!(tasks[0].name, "guitar");
    assert_eq!(tasks[0].date, Some(day(2022, 10, 1)));
    assert_eq!(tasks[0].interval, 1);
}

#[test]
fn add_rejects_bad_start_date() {
    let mut tasks: Vec<SpacedTask> = vec![];
    let got = add(&mut tasks, String::from("guitar"), Some(String::from("2022-10")));
    assert_eq!(got, Err(ParseError::BadDate));
    assert!(tasks.is_empty());
}

#[test]
fn add_without_start_is_due_now() {
    let mut tasks: Vec<SpacedTask> = vec![];
    add(&mut tasks, String::from("guitar"), None).unwrap();
    assert_eq!(tasks.len(), 1);
    assert!(tasks[0].date.is_some());
    assert_eq!(tasks[0].interval, 1);
}

#[test]
fn add_unscheduled_has_no_date() {
    let mut tasks: Vec<SpacedTask> = vec![];
    add_unscheduled(&mut tasks, String::from("guitar")).unwrap();
    assert_eq!(tasks.len(), 1);
    assert_eq!(tasks[0].date, None);
    assert_eq!(tasks[0].interval, 1);
}

#[test]
fn try_add_joins_title_words() {
    let mut tasks: Vec<SpacedTask> = vec![];
    try_add(
        &mut tasks,
        &args(&["add", "practice", "chords", "--start", "2022-10-01"]),
    )
    .unwrap();
    assert_eq!(tasks.len(), 1);
    assert_eq!(tasks[0].name, "practice chords");
    assert_eq!(tasks[0].date, Some(day(2022, 10, 1)));
}

#[test]
fn try_add_short_flag() {
    let mut tasks: Vec<SpacedTask> = vec![];
    try_add(&mut tasks, &args(&["add", "-s", "2023-01-02", "scales"])).unwrap();
    assert_eq!(tasks[0].name, "scales");
    assert_eq!(tasks[0].date, Some(day(2023, 1, 2)));
}

#[test]
fn try_add_rejects_bad_date() {
    let mut tasks: Vec<SpacedTask> = vec![];
    let got = try_add(&mut tasks, &args(&["add", "scales", "--start", "soon"]));
    assert_eq!(got, Err(ParseError::BadDate));
    assert!(tasks.is_empty());
}

#[test]
fn due_picks_past_and_today() {
    let tasks = vec![
        SpacedTask {
            name: String::from("past"),
            date: Some(day(2022, 9, 1)),
            interval: 1,
        },
        SpacedTask {
            name: String::from("future"),
            date: Some(day(2023, 1, 1)),
            interval: 1,
        },
        SpacedTask { name: String::from("unscheduled"), date: None, interval: 1 },
        SpacedTask {
            name: String::from("today"),
            date: Some(day(2022, 10, 1)),
            interval: 1,
        },
    ];
    let got = due(&tasks, day(2022, 10, 1));
    assert_eq!(got, vec![0, 3]);
}

#[test]
fn next_larger_interval_picks_next() {
    assert_eq!(next_larger_interval(1, &[1, 7, 365, 720]), 7);
    assert_eq!(next_larger_interval(8, &[1, 7, 365, 720]), 365);
    assert_eq!(next_larger_interval(720, &[1, 7, 365, 720]), 720);
}

#[test]
fn next_smaller_interval_picks_floor() {
    assert_eq!(next_smaller_interval(365, &[1, 7, 365, 720]), 365);
    assert_eq!(next_smaller_interval(100, &[1, 7, 365, 720]), 7);
    assert_eq!(next_smaller_interval(0, &[1, 7, 365, 720]), 1);
}

#[test]
fn parse_intervals_list() {
    assert_eq!(parse_intervals("1, 7,365"), Some(vec![1, 7, 365]));
    assert_eq!(parse_intervals("14"), Some(vec![14]));
    assert_eq!(parse_intervals("1, x"), None);
    assert_eq!(parse_intervals(""), None);
}
