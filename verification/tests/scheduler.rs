use spaced::{add_days, parse_tasks, render_tasks, Config, Date, SpacedTask};

fn day(year: u32, month: u32, day: u32) -> Date {
    Date { year, month, day }
}

#[test]
fn increase_task() {
    let mut task = SpacedTask {
        name: String::from("guitar"),
        date: Some(day(2022, 10, 1)),
        interval: 1,
    };
    let cfg = Config::default();
    task.increase_interval(&[], &cfg, day(2022, 10, 1));
    assert_eq!(task.interval, 3);
    task.increase_interval(&[], &cfg, day(2022, 10, 1));
    assert_eq!(task.interval, 8);
}

#[test]
fn increase_task_with_custom_intervals() {
    let customs = vec![1, 7, 365, 720];
    let mut task = SpacedTask {
        name: String::from("guitar"),
        date: Some(day(2022, 10, 1)),
        interval: 1,
    };
    let cfg = Config::default();
    task.increase_interval(&customs, &cfg, day(2022, 10, 1));
    assert_eq!(task.interval, 7);
    task.increase_interval(&customs, &cfg, day(2022, 10, 1));
    assert_eq!(task.interval, 365);
}

#[test]
fn increase_saturates_at_ladder_top() {
    let customs = vec![1, 7, 365, 720];
    let mut task = SpacedTask {
        name: String::from("guitar"),
        date: Some(day(2022, 10, 1)),
        interval: 720,
    };
    task.increase_interval(&customs, &Config::default(), day(2022, 10, 1));
    assert_eq!(task.interval, 720);
}

#[test]
fn reduce_saturates_at_ladder_bottom() {
    let customs = vec![5, 10];
    let mut task = SpacedTask {
        name: String::from("guitar"),
        date: Some(day(2022, 10, 1)),
        interval: 3,
    };
    task.reduce_interval(&customs, &Config::default());
    assert_eq!(task.interval, 5);
}

#[test]
fn increase_unscheduled_schedules_today() {
    let mut task = SpacedTask { name: String::from("guitar"), date: None, interval: 1 };
    let today = day(2022, 10, 1);
    task.increase_interval(&[], &Config::default(), today);
    assert_eq!(task.date, Some(today));
    assert_eq!(task.interval, 1);
}

#[test]
fn increase_advances_due_date() {
    let mut task = SpacedTask {
        name: String::from("guitar"),
        date: Some(day(2022, 10, 1)),
        interval: 1,
    };
    task.increase_interval(&[], &Config::default(), day(2022, 10, 1));
    assert_eq!(task.interval, 3);
    assert_eq!(task.date, Some(day(2022, 10, 4)));
}

#[test]
fn increase_clamps_at_max_interval() {
    let mut task = SpacedTask {
        name: String::from("guitar"),
        date: Some(day(2022, 10, 1)),
        interval: 700,
    };
    task.increase_interval(&[], &Config::default(), day(2022, 10, 1));
    assert_eq!(task.interval, 730);
}

#[test]
fn reduce_geometric() {
    let mut task = SpacedTask {
        name: String::from("guitar"),
        date: Some(day(2022, 10, 1)),
        interval: 8,
    };
    task.reduce_interval(&[], &Config::default());
    assert_eq!(task.interval, 4);
    assert_eq!(task.date, Some(day(2022, 10, 5)));
}

#[test]
fn reduce_never_drops_below_one() {
    let mut task = SpacedTask {
        name: String::from("guitar"),
        date: Some(day(2022, 10, 1)),
        interval: 1,
    };
    task.reduce_interval(&[], &Config::default());
    assert_eq!(task.interval, 1);
}

#[test]
fn repeat_advances_by_current_interval() {
    let mut task = SpacedTask {
        name: String::from("guitar"),
        date: Some(day(2022, 10, 1)),
        interval: 7,
    };
    task.repeat_interval();
    assert_eq!(task.interval, 7);
    assert_eq!(task.date, Some(day(2022, 10, 8)));
}

#[test]
fn repeat_leaves_unscheduled_untouched() {
    let mut task = SpacedTask { name: String::from("guitar"), date: None, interval: 1 };
    task.repeat_interval();
    assert_eq!(task.date, None);
    assert_eq!(task.interval, 1);
}

#[test]
fn reset_to_ladder_bottom() {
    let customs = vec![3, 9];
    let mut task = SpacedTask {
        name: String::from("guitar"),
        date: Some(day(2022, 10, 1)),
        interval: 9,
    };
    task.reset(&customs);
    assert_eq!(task.interval, 3);
    assert_eq!(task.date, Some(day(2022, 10, 4)));
}

#[test]
fn reset_without_ladder() {
    let mut task = SpacedTask {
        name: String::from("guitar"),
        date: Some(day(2022, 10, 1)),
        interval: 9,
    };
    task.reset(&[]);
    assert_eq!(task.interval, 1);
    assert_eq!(task.date, Some(day(2022, 10, 2)));
}

#[test]
fn end_to_end_increase() {
    let tasks = parse_tasks("guitar @2022-10-01 #1");
    let mut tasks = tasks.unwrap();
    let cfg = Config::default();
    tasks[0].increase_interval(&[], &cfg, day(2022, 10, 1));
    assert_eq!(tasks[0].interval, 3);
    assert_eq!(tasks[0].date, Some(day(2022, 10, 4)));
    assert_eq!(render_tasks(&tasks), "guitar @2022-10-04 #3");
}

#[test]
fn dates_roll_over_months_and_years() {
    assert_eq!(add_days(&day(2022, 12, 31), 1), day(2023, 1, 1));
    assert_eq!(add_days(&day(2023, 2, 28), 1), day(2023, 3, 1));
    assert_eq!(add_days(&day(2024, 2, 28), 1), day(2024, 2, 29));
    assert_eq!(add_days(&day(2000, 2, 28), 1), day(2000, 2, 29));
    assert_eq!(add_days(&day(1900, 2, 28), 1), day(1900, 3, 1));
    assert_eq!(add_days(&day(2022, 10, 1), 31), day(2022, 11, 1));
}

#[test]
fn dates_saturate_at_top_of_range() {
    assert_eq!(add_days(&day(9999, 12, 31), 10), day(9999, 12, 31));
    assert_eq!(add_days(&day(9999, 12, 30), 5), day(9999, 12, 31));
}
