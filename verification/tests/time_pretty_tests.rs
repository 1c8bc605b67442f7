use tasktrack::args::split_tags;
use tasktrack::pretty::{interval_string, join_tags, Pretty};
use tasktrack::task::Task;
use tasktrack::time::{Duration, Timestamp};

fn ts(year: i32, month: u8, day: u8, hour: u8, minute: u8, second: u8) -> Timestamp {
    Timestamp::new(year, month, day, hour, minute, second, 0, 0).unwrap()
}

#[test]
fn timestamp_new_rejects_bad_fields() {
    assert!(Timestamp::new(2021, 13, 1, 0, 0, 0, 0, 0).is_none());
    assert!(Timestamp::new(2021, 2, 29, 0, 0, 0, 0, 0).is_none());
    assert!(Timestamp::new(2020, 2, 29, 0, 0, 0, 0, 0).is_some());
    assert!(Timestamp::new(2021, 4, 31, 0, 0, 0, 0, 0).is_none());
    assert!(Timestamp::new(2021, 1, 1, 24, 0, 0, 0, 0).is_none());
    assert!(Timestamp::new(2021, 1, 1, 0, 0, 0, 0, 86_400).is_none());
    assert!(Timestamp::new(2021, 1, 1, 0, 0, 0, 2_000_000_000, 0).is_none());
}

#[test]
fn epoch_arithmetic_matches_known_instants() {
    let epoch = ts(1970, 1, 1, 0, 0, 0);
    let next_day = ts(1970, 1, 2, 0, 0, 0);
    assert_eq!(next_day.since(&epoch).nanos, 86_400_000_000_000);
    // The UTC offset shifts the denoted instant backward as it grows.
    let offset_est = Timestamp::new(1970, 1, 1, 0, 0, 0, 0, 3600).unwrap();
    assert_eq!(epoch.since(&offset_est).nanos, 3_600_000_000_000);
    // A known instant well after the epoch.
    assert_eq!(
        ts(2021, 5, 4, 8, 32, 15).since(&epoch).nanos,
        1_620_117_135 * 1_000_000_000
    );
}

#[test]
fn elapsed_of_completed_task_is_fixed_by_its_timestamps() {
    let start = ts(2021, 5, 4, 8, 0, 0);
    let end = ts(2021, 5, 4, 9, 30, 0);
    let task = Task::new("t".to_string(), Vec::new(), start, Some(end));
    assert_eq!(task.elapsed().nanos, 5400 * 1_000_000_000);
    // However often it is asked, the answer is the same.
    assert_eq!(task.elapsed().nanos, task.elapsed().nanos);
    let much_later = ts(2030, 1, 1, 0, 0, 0);
    assert_eq!(task.elapsed_at(&much_later).nanos, 5400 * 1_000_000_000);
}

#[test]
fn elapsed_accepts_end_before_start() {
    let start = ts(2021, 5, 4, 9, 0, 0);
    let end = ts(2021, 5, 4, 8, 0, 0);
    let task = Task::new("t".to_string(), Vec::new(), start, Some(end));
    assert_eq!(task.elapsed().nanos, -3600 * 1_000_000_000);
}

#[test]
fn elapsed_of_running_task_grows_with_the_clock() {
    let start = ts(2021, 5, 4, 8, 0, 0);
    let task = Task::new("t".to_string(), Vec::new(), start, None);
    let t1 = ts(2021, 5, 4, 8, 0, 1);
    let t2 = ts(2021, 5, 4, 8, 0, 2);
    assert!(task.elapsed_at(&t1).nanos < task.elapsed_at(&t2).nanos);
    assert_eq!(task.elapsed_at(&t1).nanos, 1_000_000_000);
}

#[test]
fn task_state_machine_runs_then_completes() {
    let mut task = Task::create_now("t".to_string(), vec!["x".to_string()]);
    assert!(!task.is_completed());
    task.complete_now();
    assert!(task.is_completed());
    // Completing again silently overwrites the end timestamp.
    let t = ts(2021, 5, 4, 9, 0, 0);
    task.complete_at(t);
    assert!(task.is_completed());
    assert_eq!(task.end_time, Some(t));
}

#[test]
fn duration_pretty_formats_like_the_display_layer() {
    let secs = |s: i128| Duration {
        nanos: s * 1_000_000_000,
    };
    assert_eq!(secs(0).pretty(), "00h 00min 00s");
    assert_eq!(secs(4 + 3 * 60 + 2 * 3600).pretty(), "02h 03min 04s");
    assert_eq!(secs(90 * 60).pretty(), "01h 30min 00s");
    assert_eq!(
        secs(86_400 + 2 * 3600 + 3 * 60 + 4).pretty(),
        "1d 02h 03min 04s"
    );
    assert_eq!(secs(-3900).pretty(), "-1h -5min 00s");
    assert_eq!(secs(-90_061).pretty(), "-1d -1h -1min -1s");
}

#[test]
fn timestamp_pretty_is_the_calendar_form() {
    assert_eq!(ts(2021, 5, 4, 8, 32, 15).pretty(), "2021-05-04 08:32:15");
    assert_eq!(ts(33, 1, 2, 3, 4, 5).pretty(), "0033-01-02 03:04:05");
}

#[test]
fn interval_of_running_task_ends_in_ellipsis() {
    let start = ts(2021, 5, 4, 8, 32, 15);
    let running = Task::new("t".to_string(), Vec::new(), start, None);
    assert_eq!(interval_string(&running), "2021-05-04 08:32:15 - ...");
    let done = Task::new(
        "t".to_string(),
        Vec::new(),
        start,
        Some(ts(2021, 5, 4, 9, 0, 0)),
    );
    assert_eq!(
        interval_string(&done),
        "2021-05-04 08:32:15 - 2021-05-04 09:00:00"
    );
}

#[test]
fn split_tags_cuts_on_commas() {
    assert_eq!(split_tags("a,b"), vec!["a".to_string(), "b".to_string()]);
    assert_eq!(split_tags(""), vec!["".to_string()]);
    assert_eq!(
        split_tags("a,,b"),
        vec!["a".to_string(), "".to_string(), "b".to_string()]
    );
    assert_eq!(split_tags("work"), vec!["work".to_string()]);
}

#[test]
fn join_tags_is_comma_separated() {
    assert_eq!(join_tags(&vec![]), "");
    assert_eq!(join_tags(&vec!["a".to_string()]), "a");
    assert_eq!(join_tags(&vec!["a".to_string(), "b".to_string()]), "a,b");
}
