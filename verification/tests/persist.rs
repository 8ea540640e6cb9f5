//! The persisted snapshot format: a task array serialized as JSON text
//! round-trips field for field.

use serde_json::{Number, Value};
use todo_core::store::App;
use todo_core::task::{Comment, Status, Task};

fn status_value(s: Status) -> Value {
    Value::String(
        match s {
            Status::InProgress => "InProgress",
            Status::Done => "Done",
            Status::Hold => "Hold",
            Status::New => "New",
        }
        .to_string(),
    )
}

fn status_back(v: &Value) -> Status {
    match v.as_str().unwrap() {
        "InProgress" => Status::InProgress,
        "Done" => Status::Done,
        "Hold" => Status::Hold,
        _ => Status::New,
    }
}

fn opt_i64_value(o: Option<i64>) -> Value {
    match o {
        Some(x) => Value::Number(Number::from(x)),
        None => Value::Null,
    }
}

fn opt_string_value(o: &Option<String>) -> Value {
    match o {
        Some(s) => Value::String(s.clone()),
        None => Value::Null,
    }
}

fn task_value(t: &Task) -> Value {
    let mut m = serde_json::Map::new();
    m.insert("id".to_string(), Value::Number(Number::from(t.id)));
    m.insert("topic".to_string(), Value::String(t.topic.clone()));
    m.insert("status".to_string(), status_value(t.status));
    m.insert("name".to_string(), Value::String(t.name.clone()));
    m.insert("description".to_string(), Value::String(t.description.clone()));
    m.insert(
        "creation_timestamp".to_string(),
        Value::Number(Number::from(t.creation_timestamp)),
    );
    m.insert("creation_date".to_string(), Value::String(t.creation_date.clone()));
    m.insert(
        "status_change_timestamp".to_string(),
        opt_i64_value(t.status_change_timestamp),
    );
    m.insert("status_change_date".to_string(), opt_string_value(&t.status_change_date));
    m.insert("duration".to_string(), opt_string_value(&t.duration));
    let comments: Vec<Value> = t
        .comments
        .iter()
        .map(|c| {
            let mut cm = serde_json::Map::new();
            cm.insert("date".to_string(), Value::String(c.date.clone()));
            cm.insert("text".to_string(), Value::String(c.text.clone()));
            Value::Object(cm)
        })
        .collect();
    m.insert("comments".to_string(), Value::Array(comments));
    m.insert(
        "child_list".to_string(),
        Value::Array(t.child_list.iter().map(|&c| Value::Number(Number::from(c))).collect()),
    );
    m.insert("parent_id".to_string(), opt_i64_value(t.parent_id));
    m.insert("is_sub_task".to_string(), Value::Bool(t.is_sub_task));
    m.insert("display".to_string(), Value::Bool(t.display));
    Value::Object(m)
}

fn task_back(v: &Value) -> Task {
    let m = v.as_object().unwrap();
    Task {
        id: m["id"].as_i64().unwrap(),
        topic: m["topic"].as_str().unwrap().to_string(),
        status: status_back(&m["status"]),
        name: m["name"].as_str().unwrap().to_string(),
        description: m["description"].as_str().unwrap().to_string(),
        creation_timestamp: m["creation_timestamp"].as_i64().unwrap(),
        creation_date: m["creation_date"].as_str().unwrap().to_string(),
        status_change_timestamp: m["status_change_timestamp"].as_i64(),
        status_change_date: m["status_change_date"].as_str().map(|s| s.to_string()),
        duration: m["duration"].as_str().map(|s| s.to_string()),
        comments: m["comments"]
            .as_array()
            .unwrap()
            .iter()
            .map(|c| Comment {
                date: c["date"].as_str().unwrap().to_string(),
                text: c["text"].as_str().unwrap().to_string(),
            })
            .collect(),
        child_list: m["child_list"]
            .as_array()
            .unwrap()
            .iter()
            .map(|c| c.as_i64().unwrap())
            .collect(),
        parent_id: m["parent_id"].as_i64(),
        is_sub_task: m["is_sub_task"].as_bool().unwrap(),
        display: m["display"].as_bool().unwrap(),
    }
}

fn assert_task_eq(a: &Task, b: &Task) {
    assert_eq!(a.id, b.id);
    assert_eq!(a.topic, b.topic);
    assert_eq!(a.status, b.status);
    assert_eq!(a.name, b.name);
    assert_eq!(a.description, b.description);
    assert_eq!(a.creation_timestamp, b.creation_timestamp);
    assert_eq!(a.creation_date, b.creation_date);
    assert_eq!(a.status_change_timestamp, b.status_change_timestamp);
    assert_eq!(a.status_change_date, b.status_change_date);
    assert_eq!(a.duration, b.duration);
    assert_eq!(a.comments.len(), b.comments.len());
    for (ca, cb) in a.comments.iter().zip(b.comments.iter()) {
        assert_eq!(ca.date, cb.date);
        assert_eq!(ca.text, cb.text);
    }
    assert_eq!(a.child_list, b.child_list);
    assert_eq!(a.parent_id, b.parent_id);
    assert_eq!(a.is_sub_task, b.is_sub_task);
    assert_eq!(a.display, b.display);
}

fn rich_store() -> Vec<Task> {
    let mut parent = Task::create_at(
        Some("wörk — déjà".to_string()),
        "name with \"quotes\" and \\slashes\\".to_string(),
        Some("line one\nline two".to_string()),
        Some(vec![42]),
        None,
        1700000000,
    );
    parent.status = Status::Hold;
    parent.status_change_timestamp = Some(1700090061);
    parent.status_change_date = Some("15-11-2023".to_string());
    parent.duration = Some("1-d 1-h 1-m".to_string());
    parent.comments.push(Comment {
        date: "15-11-2023".to_string(),
        text: "first note".to_string(),
    });
    parent.comments.push(Comment {
        date: "16-11-2023".to_string(),
        text: "päivä kaksi".to_string(),
    });
    let mut child = Task::create_at(
        Some("wörk — déjà".to_string()),
        "child".to_string(),
        None,
        None,
        Some(true),
        42,
    );
    child.parent_id = Some(parent.id);
    child.status = Status::Done;
    child.display = false;
    parent.display = true;
    vec![parent, child]
}

#[test]
fn snapshot_round_trips_field_for_field() {
    let store = rich_store();
    let json = serde_json::to_string_pretty(&Value::Array(
        store.iter().map(task_value).collect(),
    ))
    .unwrap();
    let parsed: Value = serde_json::from_str(&json).unwrap();
    let back: Vec<Task> = parsed.as_array().unwrap().iter().map(task_back).collect();
    assert_eq!(back.len(), store.len());
    for (a, b) in store.iter().zip(back.iter()) {
        assert_task_eq(a, b);
    }
}

#[test]
fn round_tripped_snapshot_loads_as_the_same_store() {
    let store = rich_store();
    let json =
        serde_json::to_string(&Value::Array(store.iter().map(task_value).collect())).unwrap();
    let parsed: Value = serde_json::from_str(&json).unwrap();
    let back: Vec<Task> = parsed.as_array().unwrap().iter().map(task_back).collect();
    let app = App::load(Some(back));
    assert_eq!(app.items().len(), 2);
    for (a, b) in store.iter().zip(app.items().iter()) {
        assert_task_eq(a, b);
    }
}

#[test]
fn unparseable_snapshot_text_falls_back_to_the_seed() {
    let parsed: Result<Value, _> = serde_json::from_str("{not json");
    assert!(parsed.is_err());
    let app = App::load(None);
    assert_eq!(app.items()[0].name, "Hello this is default task");
}
