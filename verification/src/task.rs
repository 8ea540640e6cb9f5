//! The task record: its fields, its mathematical view, and the status
//! workflow that drives the four-state lifecycle.

use vstd::prelude::*;

use crate::time::{current_timestamp, date_string_of, duration, duration_of, to_human_date};

verus! {

/// The lifecycle state of a task.
#[derive(Clone, Copy, Debug, PartialEq, Eq, Structural)]
pub enum Status {
    InProgress,
    Done,
    Hold,
    New,
}

/// A dated note attached to a task.
pub struct Comment {
    pub date: String,
    pub text: String,
}

/// The mathematical view of a comment.
#[verifier::ext_equal]
pub ghost struct CommentView {
    pub date: Seq<char>,
    pub text: Seq<char>,
}

impl View for Comment {
    type V = CommentView;

    open spec fn view(&self) -> CommentView {
        CommentView { date: self.date@, text: self.text@ }
    }
}

impl DeepView for Comment {
    type V = CommentView;

    open spec fn deep_view(&self) -> CommentView {
        self@
    }
}

impl Clone for Comment {
    fn clone(&self) -> (r: Comment)
        ensures
            r@ == self@,
    {
        Comment { date: self.date.clone(), text: self.text.clone() }
    }
}

/// One record of the ordered store: a root task or a sub-task.
pub struct Task {
    pub id: i64,
    pub topic: String,
    pub status: Status,
    pub name: String,
    pub description: String,
    pub creation_timestamp: i64,
    pub creation_date: String,
    pub status_change_timestamp: Option<i64>,
    pub status_change_date: Option<String>,
    pub duration: Option<String>,
    pub comments: Vec<Comment>,
    pub child_list: Vec<i64>,
    pub parent_id: Option<i64>,
    pub is_sub_task: bool,
    pub display: bool,
}

/// The mathematical view of a task record.
#[verifier::ext_equal]
pub ghost struct TaskView {
    pub id: int,
    pub topic: Seq<char>,
    pub status: Status,
    pub name: Seq<char>,
    pub description: Seq<char>,
    pub creation_timestamp: int,
    pub creation_date: Seq<char>,
    pub status_change_timestamp: Option<int>,
    pub status_change_date: Option<Seq<char>>,
    pub duration: Option<Seq<char>>,
    pub comments: Seq<CommentView>,
    pub child_list: Seq<int>,
    pub parent_id: Option<int>,
    pub is_sub_task: bool,
    pub display: bool,
}

/// A sequence of machine integers, viewed mathematically.
pub open spec fn seq_i64_view(s: Seq<i64>) -> Seq<int> {
    s.map_values(|x: i64| x as int)
}

/// An optional machine integer, viewed mathematically.
pub open spec fn opt_i64_view(o: Option<i64>) -> Option<int> {
    match o {
        Some(x) => Some(x as int),
        None => None,
    }
}

/// An optional string, viewed as an optional character sequence.
pub open spec fn opt_string_view(o: Option<String>) -> Option<Seq<char>> {
    match o {
        Some(s) => Some(s@),
        None => None,
    }
}

/// An optional sequence of machine integers, viewed mathematically.
pub open spec fn opt_vec_i64_view(o: Option<Vec<i64>>) -> Option<Seq<int>> {
    match o {
        Some(c) => Some(seq_i64_view(c@)),
        None => None,
    }
}

impl View for Task {
    type V = TaskView;

    open spec fn view(&self) -> TaskView {
        TaskView {
            id: self.id as int,
            topic: self.topic@,
            status: self.status,
            name: self.name@,
            description: self.description@,
            creation_timestamp: self.creation_timestamp as int,
            creation_date: self.creation_date@,
            status_change_timestamp: opt_i64_view(self.status_change_timestamp),
            status_change_date: opt_string_view(self.status_change_date),
            duration: opt_string_view(self.duration),
            comments: self.comments.deep_view(),
            child_list: seq_i64_view(self.child_list@),
            parent_id: opt_i64_view(self.parent_id),
            is_sub_task: self.is_sub_task,
            display: self.display,
        }
    }
}

impl DeepView for Task {
    type V = TaskView;

    open spec fn deep_view(&self) -> TaskView {
        self@
    }
}

impl Clone for Task {
    fn clone(&self) -> (r: Task)
        ensures
            r@ == self@,
    {
        let r = Task {
            id: self.id,
            topic: self.topic.clone(),
            status: self.status,
            name: self.name.clone(),
            description: self.description.clone(),
            creation_timestamp: self.creation_timestamp,
            creation_date: self.creation_date.clone(),
            status_change_timestamp: self.status_change_timestamp,
            status_change_date: clone_opt_string(&self.status_change_date),
            duration: clone_opt_string(&self.duration),
            comments: clone_comments(&self.comments),
            child_list: self.child_list.clone(),
            parent_id: self.parent_id,
            is_sub_task: self.is_sub_task,
            display: self.display,
        };
        proof {
            assert(seq_i64_view(r.child_list@) =~= seq_i64_view(self.child_list@));
        }
        r
    }
}

/// A copy of an optional string with the same view.
fn clone_opt_string(o: &Option<String>) -> (r: Option<String>)
    ensures
        opt_string_view(r) == opt_string_view(*o),
{
    match o {
        Some(s) => Some(s.clone()),
        None => None,
    }
}

/// A copy of a comment list with the same view.
fn clone_comments(v: &Vec<Comment>) -> (r: Vec<Comment>)
    ensures
        r.deep_view() == v.deep_view(),
{
    let mut r: Vec<Comment> = Vec::new();
    let mut i: usize = 0;
    while i < v.len()
        invariant
            i <= v.len(),
            r.deep_view() =~= v.deep_view().take(i as int),
        decreases v.len() - i,
    {
        let ghost prev = r.deep_view();
        let c = v[i].clone();
        r.push(c);
        proof {
            assert(r.deep_view() =~= prev.push(c@));
            assert(r.deep_view() =~= v.deep_view().take(i as int + 1));
        }
        i = i + 1;
    }
    proof {
        assert(r.deep_view() =~= v.deep_view());
    }
    r
}

impl Task {
    /// The view of a freshly created record, before any store bookkeeping.
    pub open spec fn create_spec(
        topic: Option<Seq<char>>,
        name: Seq<char>,
        description: Option<Seq<char>>,
        child_list: Option<Seq<int>>,
        is_sub_task: Option<bool>,
        now: int,
    ) -> TaskView {
        TaskView {
            id: now,
            topic: match topic {
                Some(t) => t,
                None => "main"@,
            },
            status: Status::New,
            name: name,
            description: match description {
                Some(d) => d,
                None => Seq::empty(),
            },
            creation_timestamp: now,
            creation_date: date_string_of(now),
            status_change_timestamp: None,
            status_change_date: None,
            duration: None,
            comments: Seq::empty(),
            child_list: match child_list {
                Some(c) => c,
                None => Seq::empty(),
            },
            parent_id: None,
            is_sub_task: match is_sub_task {
                Some(b) => b,
                None => false,
            },
            display: true,
        }
    }

    /// Creates a record at an explicitly given creation time. The record's id
    /// is that time; callers that keep a store re-key it when it collides.
    pub fn create_at(
        topic: Option<String>,
        name: String,
        description: Option<String>,
        child_list: Option<Vec<i64>>,
        is_sub_task: Option<bool>,
        now: i64,
    ) -> (t: Task)
        ensures
            t@ == Task::create_spec(
                opt_string_view(topic),
                name@,
                opt_string_view(description),
                opt_vec_i64_view(child_list),
                is_sub_task,
                now as int,
            ),
    {
        let topic_s = match topic {
            Some(t) => t,
            None => String::from_str("main"),
        };
        let description_s = match description {
            Some(d) => d,
            None => String::new(),
        };
        let child_list_v = match child_list {
            Some(c) => c,
            None => Vec::new(),
        };
        let date = to_human_date(now);
        let t = Task {
            id: now,
            topic: topic_s,
            status: Status::New,
            name: name,
            description: description_s,
            creation_timestamp: now,
            creation_date: date,
            status_change_timestamp: None,
            status_change_date: None,
            duration: None,
            comments: Vec::new(),
            child_list: child_list_v,
            parent_id: None,
            is_sub_task: is_sub_task.unwrap_or(false),
            display: true,
        };
        proof {
            assert(seq_i64_view(t.child_list@) =~= match child_list {
                Some(c) => seq_i64_view(c@),
                None => Seq::<int>::empty(),
            });
            assert(t.comments.deep_view() =~= Seq::<CommentView>::empty());
            assert(t@ =~= Task::create_spec(
                opt_string_view(topic),
                name@,
                opt_string_view(description),
                opt_vec_i64_view(child_list),
                is_sub_task,
                now as int,
            ));
        }
        t
    }

    /// Creates a record timestamped with the current clock reading.
    pub fn create(
        topic: Option<String>,
        name: String,
        description: Option<String>,
        child_list: Option<Vec<i64>>,
        is_sub_task: Option<bool>,
    ) -> (t: Task)
        ensures
            exists|now: int|
                0 <= now && t@ == #[trigger] Task::create_spec(
                    opt_string_view(topic),
                    name@,
                    opt_string_view(description),
                    opt_vec_i64_view(child_list),
                    is_sub_task,
                    now,
                ),
    {
        let now = current_timestamp();
        Task::create_at(topic, name, description, child_list, is_sub_task, now)
    }

    /// The view of a comment stamped at the given time.
    pub open spec fn comment_spec(text: Seq<char>, now: int) -> CommentView {
        CommentView { date: date_string_of(now), text: text }
    }

    /// Appends a comment dated at an explicitly given time.
    pub fn create_comment_at(&mut self, text: String, now: i64)
        ensures
            final(self)@ == (TaskView {
                comments: old(self)@.comments.push(Task::comment_spec(text@, now as int)),
                ..old(self)@
            }),
    {
        let date = to_human_date(now);
        let ghost prev = self@;
        let ghost text_v = text@;
        self.comments.push(Comment { date, text });
        proof {
            assert(self.comments.deep_view() =~= prev.comments.push(
                Task::comment_spec(text_v, now as int),
            ));
            assert(self@ =~= (TaskView {
                comments: prev.comments.push(Task::comment_spec(text_v, now as int)),
                ..prev
            }));
        }
    }

    /// Appends a comment dated with the current clock reading.
    pub fn create_comment(&mut self, text: String)
        ensures
            exists|now: int|
                0 <= now && final(self)@ == (TaskView {
                    comments: old(self)@.comments.push(#[trigger] Task::comment_spec(text@, now)),
                    ..old(self)@
                }),
    {
        let now = current_timestamp();
        self.create_comment_at(text, now);
    }
}

/// The elapsed seconds from creation to a status change, clamped to the
/// machine range when a nonsensical clock would overflow it.
pub open spec fn elapsed_spec(creation: int, now: int) -> int {
    if now - creation > i64::MAX {
        i64::MAX as int
    } else if now - creation < i64::MIN {
        i64::MIN as int
    } else {
        now - creation
    }
}

/// The task after one status toggle taken at time `now`, with
/// `subs_done` saying whether every cached sub-item was Done.
pub open spec fn change_status_spec(t: TaskView, subs_done: bool, now: int) -> TaskView {
    match t.status {
        Status::Done => TaskView {
            status: Status::New,
            status_change_timestamp: None,
            status_change_date: None,
            duration: None,
            ..t
        },
        Status::Hold => TaskView {
            status: if subs_done {
                Status::Done
            } else {
                Status::New
            },
            status_change_timestamp: Some(now),
            status_change_date: Some(date_string_of(now)),
            duration: Some(duration_of(elapsed_spec(t.creation_timestamp, now))),
            ..t
        },
        Status::InProgress => TaskView {
            status: Status::Hold,
            status_change_timestamp: Some(now),
            status_change_date: Some(date_string_of(now)),
            duration: Some(duration_of(elapsed_spec(t.creation_timestamp, now))),
            ..t
        },
        Status::New => TaskView {
            status: Status::InProgress,
            status_change_timestamp: Some(now),
            status_change_date: None,
            duration: None,
            ..t
        },
    }
}

impl Task {
    /// One status toggle at an explicitly given time.
    ///
    /// New moves to InProgress; InProgress to Hold; Hold to Done when every
    /// cached sub-item was Done, else back to New; Done back to New, clearing
    /// the change stamp, change date and duration together.
    pub fn change_status_at(&mut self, is_sub_task_done: bool, now: i64)
        ensures
            final(self)@ == change_status_spec(old(self)@, is_sub_task_done, now as int),
    {
        match self.status {
            Status::Done => {
                self.status = Status::New;
                self.status_change_timestamp = None;
                self.status_change_date = None;
                self.duration = None;
            },
            Status::Hold => {
                if !is_sub_task_done {
                    self.status = Status::New;
                } else {
                    self.status = Status::Done;
                }
                self.stamp_change(now);
            },
            Status::InProgress => {
                self.status = Status::Hold;
                self.stamp_change(now);
            },
            Status::New => {
                self.status = Status::InProgress;
                self.status_change_timestamp = Some(now);
                self.status_change_date = None;
                self.duration = None;
            },
        }
    }

    /// Records the change time, its date and the recomputed duration.
    fn stamp_change(&mut self, now: i64)
        ensures
            final(self)@ == (TaskView {
                status_change_timestamp: Some(now as int),
                status_change_date: Some(date_string_of(now as int)),
                duration: Some(
                    duration_of(elapsed_spec(old(self)@.creation_timestamp, now as int)),
                ),
                ..old(self)@
            }),
    {
        self.status_change_timestamp = Some(now);
        self.status_change_date = Some(to_human_date(now));
        let elapsed: i64 = match now.checked_sub(self.creation_timestamp) {
            Some(d) => d,
            None => {
                if now >= 0 {
                    i64::MAX
                } else {
                    i64::MIN
                }
            },
        };
        self.duration = Some(duration(elapsed));
    }

    /// One status toggle at the current clock reading.
    pub fn change_status(&mut self, is_sub_task_done: bool)
        ensures
            exists|now: int|
                0 <= now && final(self)@ == change_status_spec(old(self)@, is_sub_task_done, now),
    {
        let now = current_timestamp();
        self.change_status_at(is_sub_task_done, now);
    }
}

/// Done back to New always clears the change stamp, the change date and the
/// duration together, and New to InProgress always sets the change stamp
/// while leaving the change date unset — whatever toggle history, cached
/// sub-item verdict or clock reading led there.
pub proof fn lemma_toggle_field_discipline(t: TaskView, subs_done: bool, now: int)
    ensures
        t.status == Status::Done ==> {
            let r = change_status_spec(t, subs_done, now);
            &&& r.status == Status::New
            &&& r.status_change_timestamp is None
            &&& r.status_change_date is None
            &&& r.duration is None
        },
        t.status == Status::New ==> {
            let r = change_status_spec(t, subs_done, now);
            &&& r.status == Status::InProgress
            &&& r.status_change_timestamp == Some(now)
            &&& r.status_change_date is None
            &&& r.duration is None
        },
{
}

} // verus!
