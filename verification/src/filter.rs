//! The filter engine: a selected predicate over task status, recomputed for
//! the whole store in two passes, with parent/child visibility propagation.

use vstd::prelude::*;

use crate::task::{Status, Task, TaskView};

verus! {

/// The visibility predicate a user can select.
#[derive(Clone, Copy, Debug, PartialEq, Eq, Structural)]
pub enum Filter {
    New,
    Hold,
    InProgress,
    Done,
    NotDone,
    All,
}

impl Filter {
    /// Every filter, in selection order.
    pub fn iterator() -> (r: Vec<Filter>)
        ensures
            r@ == seq![
                Filter::New,
                Filter::Hold,
                Filter::InProgress,
                Filter::Done,
                Filter::NotDone,
                Filter::All,
            ],
    {
        let mut v: Vec<Filter> = Vec::new();
        v.push(Filter::New);
        v.push(Filter::Hold);
        v.push(Filter::InProgress);
        v.push(Filter::Done);
        v.push(Filter::NotDone);
        v.push(Filter::All);
        proof {
            assert(v@ =~= seq![
                Filter::New,
                Filter::Hold,
                Filter::InProgress,
                Filter::Done,
                Filter::NotDone,
                Filter::All,
            ]);
        }
        v
    }
}

/// Whether a status satisfies a filter on its own.
pub open spec fn matches_filter(st: Status, f: Filter) -> bool {
    match f {
        Filter::New => st == Status::New,
        Filter::Hold => st == Status::Hold,
        Filter::InProgress => st == Status::InProgress,
        Filter::Done => st == Status::Done,
        Filter::NotDone => st != Status::Done,
        Filter::All => true,
    }
}

/// Pass one: every task's display is recomputed from its status alone.
pub open spec fn pass1(s: Seq<TaskView>, f: Filter) -> Seq<TaskView> {
    s.map_values(|t: TaskView| (TaskView { display: matches_filter(t.status, f), ..t }))
}

/// Whether some id in `cl` names a displayed task of `s`.
pub open spec fn any_child_displayed(s: Seq<TaskView>, cl: Seq<int>) -> bool {
    exists|k: int| 0 <= k < s.len() && cl.contains(#[trigger] s[k].id) && s[k].display
}

/// Pass two: a task with children is also displayed when one of them came
/// out displayed in pass one.
pub open spec fn pass2(s: Seq<TaskView>) -> Seq<TaskView> {
    s.map_values(
        |t: TaskView|
            (TaskView {
                display: t.display || (t.child_list.len() > 0 && any_child_displayed(
                    s,
                    t.child_list,
                )),
                ..t
            }),
    )
}

/// The whole-store recomputation of display for a selected filter.
pub open spec fn filter_spec(s: Seq<TaskView>, f: Filter) -> Seq<TaskView> {
    pass2(pass1(s, f))
}

/// Applying the same filter twice yields the same display set as applying
/// it once: the recomputation always starts from task status, never from
/// the previous display value.
pub proof fn lemma_filter_idempotent(s: Seq<TaskView>, f: Filter)
    ensures
        filter_spec(filter_spec(s, f), f) == filter_spec(s, f),
{
    let s1 = pass1(s, f);
    let r = filter_spec(s, f);
    assert forall|i: int| 0 <= i < r.len() implies pass1(r, f)[i] == s1[i] by {
        assert(r[i] == (TaskView {
            display: s1[i].display || (s1[i].child_list.len() > 0 && any_child_displayed(
                s1,
                s1[i].child_list,
            )),
            ..s1[i]
        }));
    }
    assert(pass1(r, f) =~= s1);
    assert(filter_spec(r, f) == filter_spec(s, f));
}

/// Whether a child-list entry is carried by a displayed task, decided
/// executably.
fn any_displayed_of(items: &Vec<Task>, cl: &Vec<i64>) -> (b: bool)
    ensures
        b == any_child_displayed(items.deep_view(), crate::task::seq_i64_view(cl@)),
{
    let ghost s = items.deep_view();
    let ghost clv = crate::task::seq_i64_view(cl@);
    let mut k: usize = 0;
    let mut found = false;
    while k < items.len()
        invariant
            k <= items.len(),
            s == items.deep_view(),
            clv == crate::task::seq_i64_view(cl@),
            found == exists|j: int| 0 <= j < k && clv.contains(#[trigger] s[j].id) && s[j].display,
        decreases items.len() - k,
    {
        if items[k].display && contains_id(cl, items[k].id) {
            found = true;
            proof {
                assert(clv.contains(s[k as int].id) && s[k as int].display);
            }
        }
        k = k + 1;
    }
    found
}

/// Whether `cl` holds the given id, decided executably.
pub fn contains_id(cl: &Vec<i64>, id: i64) -> (b: bool)
    ensures
        b == crate::task::seq_i64_view(cl@).contains(id as int),
{
    let ghost clv = crate::task::seq_i64_view(cl@);
    let mut k: usize = 0;
    let mut found = false;
    while k < cl.len()
        invariant
            k <= cl.len(),
            clv == crate::task::seq_i64_view(cl@),
            found == exists|j: int| 0 <= j < k && clv[j] == id as int,
        decreases cl.len() - k,
    {
        if cl[k] == id {
            found = true;
            proof {
                assert(clv[k as int] == id as int);
            }
        }
        k = k + 1;
    }
    proof {
        if found {
            let j = choose|j: int| 0 <= j < k && clv[j] == id as int;
            assert(clv.contains(id as int));
        }
    }
    found
}

/// Recomputes every display flag for the selected filter, over a full copy
/// of the store.
pub fn apply_filter(items: &Vec<Task>, f: Filter) -> (r: Vec<Task>)
    ensures
        r.deep_view() == filter_spec(items.deep_view(), f),
{
    let ghost s = items.deep_view();
    let mut v1: Vec<Task> = Vec::new();
    let mut i: usize = 0;
    while i < items.len()
        invariant
            i <= items.len(),
            s == items.deep_view(),
            v1.deep_view() =~= pass1(s, f).take(i as int),
        decreases items.len() - i,
    {
        let mut t = items[i].clone();
        t.display = match f {
            Filter::New => matches!(t.status, Status::New),
            Filter::Hold => matches!(t.status, Status::Hold),
            Filter::InProgress => matches!(t.status, Status::InProgress),
            Filter::Done => matches!(t.status, Status::Done),
            Filter::NotDone => !matches!(t.status, Status::Done),
            Filter::All => true,
        };
        let ghost prev = v1.deep_view();
        v1.push(t);
        proof {
            assert(t@ == (TaskView {
                display: matches_filter(s[i as int].status, f),
                ..s[i as int]
            }));
            assert(v1.deep_view() =~= prev.push(t@));
            assert(v1.deep_view() =~= pass1(s, f).take(i as int + 1));
        }
        i = i + 1;
    }
    proof {
        assert(v1.deep_view() =~= pass1(s, f));
    }
    let ghost s1 = pass1(s, f);
    let mut v2: Vec<Task> = Vec::new();
    let mut i2: usize = 0;
    while i2 < v1.len()
        invariant
            i2 <= v1.len(),
            s1 == v1.deep_view(),
            v2.deep_view() =~= pass2(s1).take(i2 as int),
        decreases v1.len() - i2,
    {
        let mut t = v1[i2].clone();
        if t.child_list.len() > 0 {
            let any = any_displayed_of(&v1, &t.child_list);
            t.display = t.display || any;
        }
        let ghost prev = v2.deep_view();
        v2.push(t);
        proof {
            assert(t@ == (TaskView {
                display: s1[i2 as int].display || (s1[i2 as int].child_list.len() > 0
                    && any_child_displayed(s1, s1[i2 as int].child_list)),
                ..s1[i2 as int]
            }));
            assert(v2.deep_view() =~= prev.push(t@));
            assert(v2.deep_view() =~= pass2(s1).take(i2 as int + 1));
        }
        i2 = i2 + 1;
    }
    proof {
        assert(v2.deep_view() =~= pass2(s1));
    }
    v2
}

} // verus!
