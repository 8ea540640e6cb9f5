//! The status workflow, time formatting and configuration defaults.

use todo_core::config::AppConfig;
use todo_core::task::{Status, Task};
use todo_core::time::{current_timestamp, duration, time_delta, to_human_date};

fn fresh_task(now: i64) -> Task {
    Task::create_at(
        Some("work".to_string()),
        "write the report".to_string(),
        Some("with charts".to_string()),
        None,
        None,
        now,
    )
}

#[test]
fn create_fills_defaults() {
    let t = Task::create(None, "first".to_string(), None, None, None);
    assert_eq!(t.topic, "main");
    assert_eq!(t.status, Status::New);
    assert_eq!(t.name, "first");
    assert_eq!(t.description, "");
    assert_eq!(t.id, t.creation_timestamp);
    assert!(t.status_change_timestamp.is_none());
    assert!(t.status_change_date.is_none());
    assert!(t.duration.is_none());
    assert!(t.comments.is_empty());
    assert!(t.child_list.is_empty());
    assert!(t.parent_id.is_none());
    assert!(!t.is_sub_task);
    assert!(t.display);
}

#[test]
fn new_to_in_progress_sets_stamp_only() {
    let mut t = fresh_task(0);
    t.change_status_at(false, 100);
    assert_eq!(t.status, Status::InProgress);
    assert_eq!(t.status_change_timestamp, Some(100));
    assert!(t.status_change_date.is_none());
    assert!(t.duration.is_none());
}

#[test]
fn in_progress_to_hold_sets_everything() {
    let mut t = fresh_task(0);
    t.change_status_at(false, 100);
    t.change_status_at(false, 90061);
    assert_eq!(t.status, Status::Hold);
    assert_eq!(t.status_change_timestamp, Some(90061));
    assert_eq!(t.status_change_date.as_deref(), Some("02-01-1970"));
    assert_eq!(t.duration.as_deref(), Some("1-d 1-h 1-m"));
}

#[test]
fn hold_with_complete_children_goes_done() {
    let mut t = fresh_task(0);
    t.status = Status::Hold;
    t.change_status_at(true, 60);
    assert_eq!(t.status, Status::Done);
    assert_eq!(t.status_change_timestamp, Some(60));
    assert_eq!(t.status_change_date.as_deref(), Some("01-01-1970"));
    assert_eq!(t.duration.as_deref(), Some("0-d 0-h 1-m"));
}

#[test]
fn hold_with_incomplete_children_resets_to_new() {
    let mut t = fresh_task(0);
    t.status = Status::Hold;
    t.change_status_at(false, 60);
    assert_eq!(t.status, Status::New);
    assert_eq!(t.status_change_timestamp, Some(60));
    assert_eq!(t.status_change_date.as_deref(), Some("01-01-1970"));
    assert_eq!(t.duration.as_deref(), Some("0-d 0-h 1-m"));
}

#[test]
fn done_to_new_clears_all_change_fields() {
    let mut t = fresh_task(0);
    t.status = Status::Done;
    t.status_change_timestamp = Some(500);
    t.status_change_date = Some("01-01-1970".to_string());
    t.duration = Some("0-d 0-h 8-m".to_string());
    t.change_status_at(true, 900);
    assert_eq!(t.status, Status::New);
    assert!(t.status_change_timestamp.is_none());
    assert!(t.status_change_date.is_none());
    assert!(t.duration.is_none());
}

#[test]
fn toggle_sequence_keeps_field_discipline() {
    let mut t = fresh_task(10);
    t.change_status_at(false, 20);
    assert_eq!(t.status, Status::InProgress);
    assert_eq!(t.status_change_timestamp, Some(20));
    assert!(t.status_change_date.is_none());
    t.change_status_at(false, 30);
    assert_eq!(t.status, Status::Hold);
    t.change_status_at(true, 40);
    assert_eq!(t.status, Status::Done);
    t.change_status_at(true, 50);
    assert_eq!(t.status, Status::New);
    assert!(t.status_change_timestamp.is_none());
    assert!(t.status_change_date.is_none());
    assert!(t.duration.is_none());
}

#[test]
fn comment_carries_date_and_text() {
    let mut t = fresh_task(0);
    t.create_comment_at("looks good".to_string(), 86400);
    assert_eq!(t.comments.len(), 1);
    assert_eq!(t.comments[0].date, "02-01-1970");
    assert_eq!(t.comments[0].text, "looks good");
}

#[test]
fn duration_formats_days_hours_minutes() {
    assert_eq!(duration(0), "0-d 0-h 0-m");
    assert_eq!(duration(59), "0-d 0-h 0-m");
    assert_eq!(duration(60), "0-d 0-h 1-m");
    assert_eq!(duration(86399), "0-d 23-h 59-m");
    assert_eq!(duration(90061), "1-d 1-h 1-m");
    assert_eq!(duration(-90061), "-1-d -1-h -1-m");
    assert_eq!(duration(-30), "0-d 0-h 0-m");
}

#[test]
fn human_date_renders_calendar_days() {
    assert_eq!(to_human_date(0), "01-01-1970");
    assert_eq!(to_human_date(86400), "02-01-1970");
    assert_eq!(to_human_date(951782400), "29-02-2000");
}

#[test]
fn time_delta_subtracts() {
    assert_eq!(time_delta(5, Some(12)), 7);
    assert_eq!(time_delta(12, Some(5)), -7);
}

#[test]
fn clock_is_past_epoch() {
    assert!(current_timestamp() >= 0);
}

#[test]
fn config_defaults_when_nothing_parsed() {
    let c = AppConfig::load_config(None);
    assert_eq!(c.icons.cursor, "-> ");
    assert_eq!(c.icons.task_new, "[ ]");
    assert_eq!(c.icons.task_done, "[+]");
    assert_eq!(c.colors.header_color, "#b4befe");
    assert_eq!(c.object_type.border_type, "single");
}

#[test]
fn config_keeps_parsed_values() {
    let mut c = AppConfig::default();
    c.object_type.border_type = "rounded".to_string();
    let loaded = AppConfig::load_config(Some(c));
    assert_eq!(loaded.object_type.border_type, "rounded");
}
