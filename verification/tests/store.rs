use spaced::{parse_task, parse_tasks, render_tasks, Date, ParseError, SpacedTask};

#[test]
fn parse_entry_test() {
    let line = "guitar @2022-10-01 #1";
    let want = SpacedTask {
        name: String::from("guitar"),
        date: Some(Date { year: 2022, month: 10, day: 1 }),
        interval: 1,
    };
    let got: SpacedTask = parse_task(line).unwrap();
    assert_eq!(got, want);
}

#[test]
fn parse_entry_with_comma_test() {
    let line = "guitar, i see fire (backwards) @2022-10-01 #1";
    let want = SpacedTask {
        name: String::from("guitar, i see fire (backwards)"),
        date: Some(Date { year: 2022, month: 10, day: 1 }),
        interval: 1,
    };
    let got: SpacedTask = parse_task(line).unwrap();
    assert_eq!(got, want);
}

#[test]
fn parse_unscheduled_entry() {
    let got = parse_task("guitar #1").unwrap();
    assert_eq!(got.name, "guitar");
    assert_eq!(got.date, None);
    assert_eq!(got.interval, 1);
}

#[test]
fn parse_leading_zero_interval() {
    let got = parse_task("guitar #007").unwrap();
    assert_eq!(got.interval, 7);
}

#[test]
fn parse_rejects_duplicate_date() {
    let got = parse_task("guitar @2022-10-01 @2023-01-01 #1");
    assert_eq!(got, Err(ParseError::DuplicateDate));
}

#[test]
fn parse_rejects_duplicate_interval() {
    let got = parse_task("guitar #1 #2");
    assert_eq!(got, Err(ParseError::DuplicateInterval));
}

#[test]
fn parse_rejects_missing_interval() {
    let got = parse_task("guitar @2022-10-01");
    assert_eq!(got, Err(ParseError::MissingInterval));
}

#[test]
fn parse_rejects_bad_date() {
    assert_eq!(parse_task("guitar @2022-13-01 #1"), Err(ParseError::BadDate));
    assert_eq!(parse_task("guitar @2022-02-30 #1"), Err(ParseError::BadDate));
    assert_eq!(parse_task("guitar @2022-10 #1"), Err(ParseError::BadDate));
    assert_eq!(parse_task("guitar @not-a-date #1"), Err(ParseError::BadDate));
}

#[test]
fn parse_rejects_bad_interval() {
    assert_eq!(parse_task("guitar #12a"), Err(ParseError::BadInterval));
    assert_eq!(parse_task("guitar #"), Err(ParseError::BadInterval));
    assert_eq!(
        parse_task("guitar #99999999999999999999999999"),
        Err(ParseError::BadInterval)
    );
}

#[test]
fn render_scheduled_line() {
    let task = SpacedTask {
        name: String::from("guitar"),
        date: Some(Date { year: 2022, month: 10, day: 4 }),
        interval: 3,
    };
    assert_eq!(task.render(), "guitar @2022-10-04 #3");
}

#[test]
fn render_unscheduled_line() {
    let task = SpacedTask { name: String::from("guitar"), date: None, interval: 1 };
    assert_eq!(task.render(), "guitar #1");
}

#[test]
fn save_load_round_trip() {
    let tasks = vec![
        SpacedTask {
            name: String::from("guitar, i see fire (backwards)"),
            date: Some(Date { year: 2022, month: 10, day: 1 }),
            interval: 1,
        },
        SpacedTask { name: String::from("stretch"), date: None, interval: 1 },
        SpacedTask {
            name: String::from("irregular verbs"),
            date: Some(Date { year: 33, month: 2, day: 28 }),
            interval: 365,
        },
    ];
    let text = render_tasks(&tasks);
    let got = parse_tasks(&text).unwrap();
    assert_eq!(got, tasks);
}

#[test]
fn save_load_round_trip_empty() {
    let tasks: Vec<SpacedTask> = vec![];
    let text = render_tasks(&tasks);
    assert_eq!(text, "");
    let got = parse_tasks(&text).unwrap();
    assert_eq!(got, tasks);
}

#[test]
fn load_skips_empty_lines() {
    let got = parse_tasks("guitar #1\n\nbass #2\n").unwrap();
    assert_eq!(got.len(), 2);
    assert_eq!(got[0].name, "guitar");
    assert_eq!(got[1].name, "bass");
    assert_eq!(got[1].interval, 2);
}

#[test]
fn load_fails_on_first_bad_line() {
    let got = parse_tasks("guitar #1\nbass\ncello #1 #2");
    assert_eq!(got, Err(ParseError::MissingInterval));
}

#[test]
fn round_trip_keeps_double_spaces_in_name() {
    let got = parse_task("slow  air #2").unwrap();
    assert_eq!(got.name, "slow  air");
    assert_eq!(got.render(), "slow  air #2");
}

#[test]
fn round_trip_empty_name() {
    let task = SpacedTask { name: String::new(), date: None, interval: 4 };
    let line = task.render();
    assert_eq!(line, " #4");
    assert_eq!(parse_task(&line).unwrap(), task);
}

#[test]
fn load_keeps_order() {
    let got = parse_tasks("a #1\nb #2\nc #3").unwrap();
    let names: Vec<&str> = got.iter().map(|t| t.name.as_str()).collect();
    assert_eq!(names, vec!["a", "b", "c"]);
}
