//! The task store: loading, tree-aware insert and delete, selection, the
//! filter engine and the tree position classifier.

use todo_core::filter::Filter;
use todo_core::store::App;
use todo_core::task::{Status, Task};

fn record(
    id: i64,
    topic: &str,
    status: Status,
    name: &str,
    is_sub_task: bool,
    parent_id: Option<i64>,
    child_list: Vec<i64>,
    display: bool,
) -> Task {
    Task {
        id,
        topic: topic.to_string(),
        status,
        name: name.to_string(),
        description: String::new(),
        creation_timestamp: id,
        creation_date: "01-01-1970".to_string(),
        status_change_timestamp: None,
        status_change_date: None,
        duration: None,
        comments: Vec::new(),
        child_list,
        parent_id,
        is_sub_task,
        display,
    }
}

/// One root with two sub-tasks, then a lone root.
fn forest() -> Vec<Task> {
    vec![
        record(10, "r", Status::New, "parent", false, None, vec![11, 12], true),
        record(11, "r", Status::Done, "first child", true, Some(10), vec![], true),
        record(12, "r", Status::New, "second child", true, Some(10), vec![], true),
        record(20, "other", Status::Hold, "lone root", false, None, vec![], true),
    ]
}

fn ids(app: &App) -> Vec<i64> {
    app.items().iter().map(|t| t.id).collect()
}

#[test]
fn load_without_snapshot_seeds_default_task() {
    let app = App::load(None);
    assert_eq!(app.items().len(), 1);
    let t = &app.items()[0];
    assert_eq!(t.name, "Hello this is default task");
    assert_eq!(t.topic, "main");
    assert_eq!(t.status, Status::New);
    assert!(t.display);
    assert_eq!(t.id, 0);
    assert_eq!(t.creation_timestamp, 1);
    assert_eq!(t.creation_date, "1");
    assert!(t.child_list.is_empty());
    assert!(t.parent_id.is_none());
    assert_eq!(app.selected(), Some(0));
    assert!(app.sub_items().is_empty());
    assert_eq!(app.filter(), Filter::All);
}

#[test]
fn load_keeps_well_formed_snapshot() {
    let app = App::load(Some(forest()));
    assert_eq!(ids(&app), vec![10, 11, 12, 20]);
    assert_eq!(app.selected(), Some(0));
}

#[test]
fn load_rejects_broken_snapshot() {
    // the sub-task names a parent that is not there
    let broken = vec![record(1, "r", Status::New, "stray", true, Some(99), vec![], true)];
    let app = App::load(Some(broken));
    assert_eq!(app.items().len(), 1);
    assert_eq!(app.items()[0].name, "Hello this is default task");
}

#[test]
fn load_rejects_duplicate_ids() {
    let broken = vec![
        record(7, "a", Status::New, "one", false, None, vec![], true),
        record(7, "b", Status::New, "two", false, None, vec![], true),
    ];
    let app = App::load(Some(broken));
    assert_eq!(app.items()[0].name, "Hello this is default task");
}

#[test]
fn load_rejects_orphaned_display() {
    // a displayed sub-task under a hidden parent never renders sanely
    let broken = vec![
        record(1, "r", Status::New, "parent", false, None, vec![2], false),
        record(2, "r", Status::New, "child", true, Some(1), vec![], true),
    ];
    let app = App::load(Some(broken));
    assert_eq!(app.items()[0].name, "Hello this is default task");
}

#[test]
fn load_accepts_empty_snapshot() {
    let app = App::load(Some(vec![]));
    assert_eq!(app.items().len(), 0);
    assert_eq!(app.selected(), None);
}

#[test]
fn create_root_appends_at_end() {
    let mut app = App::load(Some(forest()));
    app.create_root_at("new topic".to_string(), "new task".to_string(), "why".to_string(), 500);
    assert_eq!(ids(&app), vec![10, 11, 12, 20, 500]);
    let t = &app.items()[4];
    assert_eq!(t.topic, "new topic");
    assert_eq!(t.name, "new task");
    assert_eq!(t.description, "why");
    assert_eq!(t.status, Status::New);
    assert_eq!(t.creation_timestamp, 500);
    assert_eq!(t.creation_date, "01-01-1970");
    assert!(!t.is_sub_task);
    assert!(t.display);
}

#[test]
fn create_root_rekeys_taken_id() {
    let mut app = App::load(Some(forest()));
    app.create_root_at("t".to_string(), "n".to_string(), "d".to_string(), 10);
    let new_id = app.items()[4].id;
    assert_ne!(new_id, 10);
    assert_eq!(app.items()[4].creation_timestamp, 10);
}

#[test]
fn create_root_with_empty_name_is_a_no_op() {
    let mut app = App::load(Some(forest()));
    app.create_root_at("t".to_string(), "".to_string(), "d".to_string(), 500);
    assert_eq!(app.items().len(), 4);
}

#[test]
fn create_subtask_from_selected_sub_task_lands_under_the_root() {
    let mut app = App::load(Some(forest()));
    app.next();
    assert_eq!(app.selected(), Some(1));
    app.create_subtask_at("third child".to_string(), "detail".to_string(), 99);
    assert_eq!(ids(&app), vec![10, 11, 12, 99, 20]);
    let parent = &app.items()[0];
    assert_eq!(parent.child_list, vec![11, 12, 99]);
    let child = &app.items()[3];
    assert_eq!(child.parent_id, Some(10));
    assert_eq!(child.topic, "r");
    assert!(child.is_sub_task);
    assert!(child.child_list.is_empty());
    assert!(child.display);
}

#[test]
fn create_subtask_from_selected_root() {
    let mut app = App::load(Some(forest()));
    app.create_subtask_at("third child".to_string(), "".to_string(), 77);
    assert_eq!(ids(&app), vec![10, 11, 12, 77, 20]);
    assert_eq!(app.items()[0].child_list, vec![11, 12, 77]);
}

#[test]
fn create_subtask_makes_hidden_parent_visible() {
    let mut app = App::load(Some(vec![
        record(1, "r", Status::Done, "parent", false, None, vec![], false),
        record(2, "s", Status::New, "other", false, None, vec![], true),
    ]));
    app.create_subtask_at("child".to_string(), "".to_string(), 50);
    assert!(app.items()[0].display);
    assert!(app.items()[1].display);
}

#[test]
fn delete_parent_removes_whole_block() {
    let mut app = App::load(Some(forest()));
    app.delete();
    assert_eq!(ids(&app), vec![20]);
    assert_eq!(app.selected(), Some(0));
    assert!(app.sub_items().is_empty());
}

#[test]
fn delete_sub_task_strips_it_from_the_parent() {
    let mut app = App::load(Some(forest()));
    app.next();
    app.delete();
    assert_eq!(ids(&app), vec![10, 12, 20]);
    assert_eq!(app.items()[0].child_list, vec![12]);
    assert_eq!(app.selected(), Some(2));
}

#[test]
fn delete_childless_root_removes_only_it() {
    let mut app = App::load(Some(forest()));
    app.previous();
    assert_eq!(app.selected(), Some(3));
    app.delete();
    assert_eq!(ids(&app), vec![10, 11, 12]);
    assert_eq!(app.selected(), Some(0));
}

#[test]
fn delete_last_record_empties_the_store() {
    let mut app = App::load(None);
    app.delete();
    assert_eq!(app.items().len(), 0);
    assert_eq!(app.selected(), None);
}

#[test]
fn delete_without_selection_is_a_no_op() {
    let mut app = App::load(Some(vec![]));
    app.delete();
    assert_eq!(app.items().len(), 0);
}

#[test]
fn next_and_previous_wrap_and_refresh_the_cache() {
    let mut app = App::load(Some(forest()));
    app.next();
    assert_eq!(app.selected(), Some(1));
    assert!(app.sub_items().is_empty());
    app.previous();
    assert_eq!(app.selected(), Some(0));
    let cached: Vec<i64> = app.sub_items().iter().map(|t| t.id).collect();
    assert_eq!(cached, vec![11, 12]);
    app.previous();
    assert_eq!(app.selected(), Some(3));
    app.next();
    assert_eq!(app.selected(), Some(0));
}

#[test]
fn toggle_hold_with_incomplete_cached_children_resets_to_new() {
    let mut app = App::load(Some(vec![
        record(1, "r", Status::Hold, "parent", false, None, vec![2, 3], true),
        record(2, "r", Status::Done, "done child", true, Some(1), vec![], true),
        record(3, "r", Status::New, "open child", true, Some(1), vec![], true),
    ]));
    app.next();
    app.previous();
    let cached: Vec<Status> = app.sub_items().iter().map(|t| t.status).collect();
    assert_eq!(cached, vec![Status::Done, Status::New]);
    app.change_status_at(60);
    assert_eq!(app.items()[0].status, Status::New);
}

#[test]
fn toggle_hold_with_complete_cached_children_goes_done() {
    let mut app = App::load(Some(vec![
        record(1, "r", Status::Hold, "parent", false, None, vec![2], true),
        record(2, "r", Status::Done, "done child", true, Some(1), vec![], true),
    ]));
    app.next();
    app.previous();
    app.change_status_at(60);
    assert_eq!(app.items()[0].status, Status::Done);
}

#[test]
fn filter_done_keeps_parent_of_matching_child_visible() {
    let mut app = App::load(Some(vec![
        record(1, "r", Status::New, "root", false, None, vec![2], true),
        record(2, "r", Status::Done, "x", true, Some(1), vec![], true),
    ]));
    app.filter_items(Filter::Done);
    assert!(app.items()[0].display);
    assert!(app.items()[1].display);
    assert_eq!(app.filter(), Filter::Done);
}

#[test]
fn filter_recomputes_from_status_not_previous_display() {
    let mut app = App::load(Some(forest()));
    app.filter_items(Filter::Done);
    let once: Vec<bool> = app.items().iter().map(|t| t.display).collect();
    app.filter_items(Filter::Done);
    let twice: Vec<bool> = app.items().iter().map(|t| t.display).collect();
    assert_eq!(once, twice);
    // root 10 shows through its Done child, lone Hold root hides
    assert_eq!(once, vec![true, true, false, false]);
}

#[test]
fn filter_not_done_hides_done_records() {
    let mut app = App::load(Some(forest()));
    app.filter_items(Filter::NotDone);
    let displays: Vec<bool> = app.items().iter().map(|t| t.display).collect();
    assert_eq!(displays, vec![true, false, true, true]);
}

#[test]
fn filter_all_shows_everything() {
    let mut app = App::load(Some(forest()));
    app.filter_items(Filter::Hold);
    app.filter_items(Filter::All);
    assert!(app.items().iter().all(|t| t.display));
}

#[test]
fn filter_iterator_lists_all_choices_in_order() {
    assert_eq!(
        Filter::iterator(),
        vec![
            Filter::New,
            Filter::Hold,
            Filter::InProgress,
            Filter::Done,
            Filter::NotDone,
            Filter::All,
        ],
    );
}

#[test]
fn classifier_emits_root_then_middles_then_last() {
    let mut app = App::load(Some(vec![
        record(1, "r", Status::New, "parent", false, None, vec![2, 3, 4], true),
        record(2, "r", Status::New, "a", true, Some(1), vec![], true),
        record(3, "r", Status::New, "b", true, Some(1), vec![], true),
        record(4, "r", Status::New, "c", true, Some(1), vec![], true),
        record(5, "s", Status::New, "lone", false, None, vec![], true),
    ]));
    assert_eq!(app.tree_codes(), vec![0, 1, 1, 2, 0]);
    app.filter_items(Filter::All);
    assert_eq!(app.tree_codes(), vec![0, 1, 1, 2, 0]);
}

#[test]
fn classifier_single_child_gets_last_code() {
    let app = App::load(Some(vec![
        record(1, "r", Status::New, "parent", false, None, vec![2], true),
        record(2, "r", Status::New, "only", true, Some(1), vec![], true),
    ]));
    assert_eq!(app.tree_codes(), vec![0, 2]);
}

#[test]
fn classifier_skips_hidden_rows() {
    let app = App::load(Some(vec![
        record(1, "r", Status::New, "parent", false, None, vec![2, 3, 4], true),
        record(2, "r", Status::New, "a", true, Some(1), vec![], true),
        record(3, "r", Status::New, "b", true, Some(1), vec![], false),
        record(4, "r", Status::New, "c", true, Some(1), vec![], true),
    ]));
    assert_eq!(app.tree_codes(), vec![0, 1, 2]);
}

#[test]
fn classifier_childless_roots_all_code_zero() {
    let app = App::load(Some(vec![
        record(1, "a", Status::New, "one", false, None, vec![], true),
        record(2, "b", Status::New, "two", false, None, vec![], true),
    ]));
    assert_eq!(app.tree_codes(), vec![0, 0]);
}

#[test]
fn comments_append_edit_and_pop() {
    let mut app = App::load(None);
    app.comment_add_at("first".to_string(), 0);
    app.comment_add_at("second".to_string(), 86400);
    assert_eq!(app.items()[0].comments.len(), 2);
    assert_eq!(app.edit_last_comment().as_deref(), Some("second"));
    app.comment_edit_last_at("second, reworded".to_string(), 86400);
    assert_eq!(app.items()[0].comments.len(), 2);
    assert_eq!(app.edit_last_comment().as_deref(), Some("second, reworded"));
    app.delete_comment();
    assert_eq!(app.items()[0].comments.len(), 1);
    assert_eq!(app.edit_last_comment().as_deref(), Some("first"));
    app.delete_comment();
    assert!(app.edit_last_comment().is_none());
    app.delete_comment();
    assert!(app.items()[0].comments.is_empty());
}

#[test]
fn modify_replaces_text_and_keeps_links() {
    let mut app = App::load(Some(forest()));
    app.next();
    app.modify("kept topic".to_string(), "renamed".to_string(), "new words".to_string());
    let t = &app.items()[1];
    assert_eq!(t.topic, "kept topic");
    assert_eq!(t.name, "renamed");
    assert_eq!(t.description, "new words");
    assert_eq!(t.id, 11);
    assert!(t.is_sub_task);
    assert_eq!(t.parent_id, Some(10));
    assert_eq!(t.status, Status::Done);
}

#[test]
fn modify_with_empty_name_is_a_no_op() {
    let mut app = App::load(Some(forest()));
    app.modify("t".to_string(), "".to_string(), "d".to_string());
    assert_eq!(app.items()[0].name, "parent");
}

#[test]
fn edit_hands_out_the_selected_fields() {
    let mut app = App::load(Some(forest()));
    let (topic, name, description, is_sub) = app.edit().unwrap();
    assert_eq!(topic, "r");
    assert_eq!(name, "parent");
    assert_eq!(description, "");
    assert!(!is_sub);
}

#[test]
fn index_by_id_finds_first_match() {
    let app = App::load(Some(forest()));
    assert_eq!(app.index_by_id(12), Some(2));
    assert_eq!(app.index_by_id(999), None);
}
