//! The task store: an ordered collection of records kept in contiguous
//! parent-then-children order, with id-indexed lookup, tree-aware insert and
//! delete, selection, and the cached sub-item view of the selection.

use vstd::prelude::*;
use vstd::seq_lib::*;
use vstd::set_lib::*;

use crate::filter::{apply_filter, contains_id, filter_spec, Filter};
use crate::task::{
    change_status_spec, seq_i64_view, CommentView, Status, Task, TaskView,
};
use crate::time::{current_timestamp, date_string_of};

verus! {

/// Whether some record of `s` carries the given id.
pub open spec fn id_present(s: Seq<TaskView>, id: int) -> bool {
    exists|j: int| 0 <= j < s.len() && (#[trigger] s[j]).id == id
}

/// Whether the ids of `s` are pairwise distinct.
pub open spec fn unique_ids(s: Seq<TaskView>) -> bool {
    forall|i: int, j: int|
        0 <= i < j < s.len() ==> (#[trigger] s[i]).id != (#[trigger] s[j]).id
}

/// Whether the `j`-th child slot of the root at `i` is correctly linked:
/// the record right after the root's earlier children carries the listed
/// id, is marked as a sub-task, and points back at the root.
pub open spec fn child_link_ok(s: Seq<TaskView>, i: int, j: int) -> bool {
    &&& s[i + 1 + j].id == s[i].child_list[j]
    &&& s[i + 1 + j].is_sub_task
    &&& s[i + 1 + j].parent_id == Some(s[i].id)
}

/// Whether the root at `i` is followed contiguously by exactly the records
/// its child list names.
pub open spec fn root_ok(s: Seq<TaskView>, i: int) -> bool {
    &&& i + s[i].child_list.len() < s.len()
    &&& s[i].parent_id is None
    &&& forall|j: int| 0 <= j < s[i].child_list.len() ==> #[trigger] child_link_ok(s, i, j)
}

/// Whether the root at `p` covers index `i` with its child block.
pub open spec fn root_covers(s: Seq<TaskView>, p: int, i: int) -> bool {
    &&& 0 <= p < i
    &&& !s[p].is_sub_task
    &&& i <= p + s[p].child_list.len()
}

/// Whether the sub-task at `i` sits inside some root's child block and has
/// no children of its own.
pub open spec fn sub_ok(s: Seq<TaskView>, i: int) -> bool {
    &&& s[i].child_list.len() == 0
    &&& s[i].parent_id is Some
    &&& exists|p: int| #[trigger] root_covers(s, p, i)
}

/// The store invariant: unique ids, and a one-level forest laid out as
/// contiguous parent-then-children runs.
pub open spec fn wf_tasks(s: Seq<TaskView>) -> bool {
    &&& unique_ids(s)
    &&& forall|i: int|
        0 <= i < s.len() && !(#[trigger] s[i]).is_sub_task ==> root_ok(s, i)
    &&& forall|i: int| 0 <= i < s.len() && (#[trigger] s[i]).is_sub_task ==> sub_ok(s, i)
}

/// Whether the `j`-th child of the root at `p` is displayed.
pub open spec fn child_displayed(s: Seq<TaskView>, p: int, j: int) -> bool {
    s[p + 1 + j].display
}

/// Whether every displayed sub-task renders under a displayed root, so that
/// nested rows never appear orphaned.
pub open spec fn display_closed(s: Seq<TaskView>) -> bool {
    forall|p: int, j: int|
        0 <= p < s.len() && !s[p].is_sub_task && 0 <= j < s[p].child_list.len()
            && #[trigger] child_displayed(s, p, j) ==> s[p].display
}

/// One child entry of a block, with everything the walking validator
/// checks of it: the link, the empty child list, and display closure.
pub open spec fn child_entry_ok(s: Seq<TaskView>, p: int, j: int) -> bool {
    &&& child_link_ok(s, p, j)
    &&& s[p + 1 + j].child_list.len() == 0
    &&& (s[p + 1 + j].display ==> s[p].display)
}

/// Whether, from `lo` on, the store splits into contiguous blocks of one
/// root followed by exactly its listed children.
pub open spec fn blocks_ok(s: Seq<TaskView>, lo: int) -> bool
    decreases s.len() - lo,
{
    if lo < 0 || lo >= s.len() {
        lo == s.len()
    } else {
        &&& !s[lo].is_sub_task
        &&& s[lo].parent_id is None
        &&& lo + s[lo].child_list.len() < s.len()
        &&& (forall|j: int|
            0 <= j < s[lo].child_list.len() ==> #[trigger] child_entry_ok(s, lo, j))
        &&& blocks_ok(s, lo + s[lo].child_list.len() + 1)
    }
}

/// A tiling into blocks, together with unique ids, yields the store
/// invariant and display closure from `lo` on.
proof fn lemma_blocks_to_wf(s: Seq<TaskView>, lo: int)
    requires
        0 <= lo <= s.len(),
        blocks_ok(s, lo),
    ensures
        forall|i: int| lo <= i < s.len() && !(#[trigger] s[i]).is_sub_task ==> root_ok(s, i),
        forall|i: int| lo <= i < s.len() && (#[trigger] s[i]).is_sub_task ==> sub_ok(s, i),
        forall|p: int, j: int|
            lo <= p < s.len() && !s[p].is_sub_task && 0 <= j < s[p].child_list.len()
                && #[trigger] child_displayed(s, p, j) ==> s[p].display,
    decreases s.len() - lo,
{
    if lo == s.len() {
    } else {
        let m = s[lo].child_list.len() as int;
        lemma_blocks_to_wf(s, lo + m + 1);
        assert forall|i: int|
            lo <= i < s.len() && !(#[trigger] s[i]).is_sub_task implies root_ok(s, i) by {
            if i == lo {
                assert forall|j: int| 0 <= j < s[lo].child_list.len() implies #[trigger]
                child_link_ok(s, lo, j) by {
                    assert(child_entry_ok(s, lo, j));
                }
            } else if i < lo + m + 1 {
                let j = i - lo - 1;
                assert(child_entry_ok(s, lo, j));
                assert(false);
            }
        }
        assert forall|i: int|
            lo <= i < s.len() && (#[trigger] s[i]).is_sub_task implies sub_ok(s, i) by {
            if i == lo {
                assert(false);
            } else if i < lo + m + 1 {
                let j = i - lo - 1;
                assert(child_entry_ok(s, lo, j));
                assert(root_covers(s, lo, i));
            }
        }
        assert forall|p: int, j: int|
            lo <= p < s.len() && !s[p].is_sub_task && 0 <= j < s[p].child_list.len()
                && #[trigger] child_displayed(s, p, j) implies s[p].display by {
            if p == lo {
                assert(child_entry_ok(s, lo, j));
            } else if p < lo + m + 1 {
                let k = p - lo - 1;
                assert(child_entry_ok(s, lo, k));
                assert(false);
            }
        }
    }
}

/// The store invariant and display closure yield the block tiling from any
/// block boundary on.
proof fn lemma_wf_to_blocks(s: Seq<TaskView>, lo: int)
    requires
        wf_tasks(s),
        display_closed(s),
        0 <= lo <= s.len(),
        lo < s.len() ==> !s[lo].is_sub_task,
    ensures
        blocks_ok(s, lo),
    decreases s.len() - lo,
{
    if lo == s.len() {
    } else {
        let m = s[lo].child_list.len() as int;
        assert(root_ok(s, lo));
        assert forall|j: int| 0 <= j < s[lo].child_list.len() implies #[trigger] child_entry_ok(
            s,
            lo,
            j,
        ) by {
            assert(child_link_ok(s, lo, j));
            assert(s[lo + 1 + j].is_sub_task);
            assert(sub_ok(s, lo + 1 + j));
            assert(child_displayed(s, lo, j) == s[lo + 1 + j].display);
        }
        let nxt = lo + m + 1;
        if nxt < s.len() && s[nxt].is_sub_task {
            assert(sub_ok(s, nxt));
            let p = choose|p: int| root_covers(s, p, nxt);
            assert(root_ok(s, p));
            if p < lo {
                // every slot of p's block is a sub-task, so the root at lo
                // cannot sit inside it, and the block ends before lo
                if lo <= p + s[p].child_list.len() {
                    assert(child_link_ok(s, p, lo - p - 1));
                    assert(false);
                }
                assert(false);
            } else if p == lo {
                assert(false);
            } else {
                assert(child_link_ok(s, lo, p - lo - 1));
                assert(false);
            }
        }
        lemma_wf_to_blocks(s, nxt);
    }
}

/// In a non-empty well-formed store the first record is a root.
proof fn lemma_first_is_root(s: Seq<TaskView>)
    requires
        wf_tasks(s),
        s.len() > 0,
    ensures
        !s[0].is_sub_task,
{
    if s[0].is_sub_task {
        assert(sub_ok(s, 0));
        let p = choose|p: int| root_covers(s, p, 0);
        assert(false);
    }
}

/// Whether the ids of `items` are pairwise distinct, decided executably.
fn check_unique(items: &Vec<Task>) -> (b: bool)
    ensures
        b == unique_ids(items.deep_view()),
{
    let ghost s = items.deep_view();
    let n = items.len();
    let mut i: usize = 0;
    while i < n
        invariant
            i <= n,
            n == items.len(),
            s == items.deep_view(),
            forall|a: int, b: int| 0 <= a < b < n && a < i ==> s[a].id != s[b].id,
        decreases n - i,
    {
        let mut j: usize = i + 1;
        while j < n
            invariant
                i < j <= n || (i + 1 == j && j > n),
                i < n,
                n == items.len(),
                s == items.deep_view(),
                forall|a: int, b: int| 0 <= a < b < n && a < i ==> s[a].id != s[b].id,
                forall|b: int| i < b < j ==> s[i as int].id != s[b].id,
            decreases n - j,
        {
            if items[i].id == items[j].id {
                proof {
                    assert(s[i as int].id == s[j as int].id);
                }
                return false;
            }
            j = j + 1;
        }
        i = i + 1;
    }
    true
}

/// Whether the store tiles into well-linked blocks from `lo` on, decided
/// executably by walking one block at a time.
fn check_blocks(items: &Vec<Task>, lo: usize) -> (b: bool)
    requires
        lo <= items.len(),
    ensures
        b == blocks_ok(items.deep_view(), lo as int),
    decreases items.len() - lo,
{
    let ghost s = items.deep_view();
    if lo == items.len() {
        return true;
    }
    let m = items[lo].child_list.len();
    if items[lo].is_sub_task {
        return false;
    }
    if items[lo].parent_id.is_some() {
        return false;
    }
    if m >= items.len() - lo {
        return false;
    }
    let mut j: usize = 0;
    while j < m
        invariant
            j <= m,
            lo < items.len(),
            m == items[lo as int].child_list.len(),
            m < items.len() - lo,
            s == items.deep_view(),
            forall|k: int| 0 <= k < j ==> #[trigger] child_entry_ok(s, lo as int, k),
        decreases m - j,
    {
        let c = &items[lo + 1 + j];
        let parent_link_ok = match c.parent_id {
            Some(p) => p == items[lo].id,
            None => false,
        };
        let entry_ok = c.id == items[lo].child_list[j] && c.is_sub_task && parent_link_ok
            && c.child_list.len() == 0 && (!c.display || items[lo].display);
        if !entry_ok {
            proof {
                assert(!child_entry_ok(s, lo as int, j as int));
            }
            return false;
        }
        proof {
            assert(child_entry_ok(s, lo as int, j as int));
        }
        j = j + 1;
    }
    check_blocks(items, lo + m + 1)
}

/// Whether a snapshot satisfies the store invariant and display closure,
/// decided executably.
pub fn wf_check(items: &Vec<Task>) -> (b: bool)
    ensures
        b == (wf_tasks(items.deep_view()) && display_closed(items.deep_view())),
{
    let ghost s = items.deep_view();
    let unique = check_unique(items);
    if !unique {
        return false;
    }
    if items.len() > 0 && items[0].is_sub_task {
        proof {
            if wf_tasks(s) {
                lemma_first_is_root(s);
            }
        }
        return false;
    }
    let blocks = check_blocks(items, 0);
    proof {
        if blocks {
            lemma_blocks_to_wf(s, 0);
        } else {
            if wf_tasks(s) && display_closed(s) {
                lemma_wf_to_blocks(s, 0);
            }
        }
    }
    blocks
}

/// The selection after a select-next, wrapping past the end to the first
/// record, or to none when the store is empty.
pub open spec fn next_sel_spec(sel: Option<int>, len: int) -> Option<int> {
    if len == 0 {
        None
    } else {
        match sel {
            Some(i) => if i >= len - 1 {
                Some(0)
            } else {
                Some(i + 1)
            },
            None => Some(0),
        }
    }
}

/// The selection after a select-previous, wrapping past the first record
/// to the last, or to none when the store is empty.
pub open spec fn prev_sel_spec(sel: Option<int>, len: int) -> Option<int> {
    if len == 0 {
        None
    } else {
        match sel {
            Some(i) => if i == 0 {
                Some(len - 1)
            } else {
                Some(i - 1)
            },
            None => Some(0),
        }
    }
}

/// The records of `s` whose id the child list names, in store order.
pub open spec fn children_of(s: Seq<TaskView>, cl: Seq<int>) -> Seq<TaskView>
    decreases s.len(),
{
    if s.len() == 0 {
        Seq::empty()
    } else {
        let rest = children_of(s.drop_last(), cl);
        if cl.contains(s.last().id) {
            rest.push(s.last())
        } else {
            rest
        }
    }
}

/// Whether every record of the cached sub-item view is Done.
pub open spec fn all_done(s: Seq<TaskView>) -> bool {
    forall|j: int| 0 <= j < s.len() ==> (#[trigger] s[j]).status == Status::Done
}

/// The record with its last comment removed, when it has any.
pub open spec fn drop_last_comment(t: TaskView) -> TaskView {
    TaskView {
        comments: if t.comments.len() > 0 {
            t.comments.drop_last()
        } else {
            t.comments
        },
        ..t
    }
}

/// The record with one more comment, dated at the given time.
pub open spec fn with_comment(t: TaskView, text: Seq<char>, now: int) -> TaskView {
    TaskView { comments: t.comments.push(crate::task::Task::comment_spec(text, now)), ..t }
}

/// Whether two records agree on everything the store invariant reads:
/// id, sub-task flag, child list and parent link.
pub open spec fn same_links(a: TaskView, b: TaskView) -> bool {
    &&& a.id == b.id
    &&& a.is_sub_task == b.is_sub_task
    &&& a.child_list == b.child_list
    &&& a.parent_id == b.parent_id
}

/// A pointwise relinking-free rewrite of the store keeps its invariant.
proof fn lemma_same_links_wf(s: Seq<TaskView>, s2: Seq<TaskView>)
    requires
        wf_tasks(s),
        s2.len() == s.len(),
        forall|i: int| 0 <= i < s.len() ==> same_links(#[trigger] s[i], s2[i]),
    ensures
        wf_tasks(s2),
{
    assert forall|i: int, j: int|
        0 <= i < j < s2.len() implies (#[trigger] s2[i]).id != (#[trigger] s2[j]).id by {
        assert(same_links(s[i], s2[i]));
        assert(same_links(s[j], s2[j]));
    }
    assert forall|i: int|
        0 <= i < s2.len() && !(#[trigger] s2[i]).is_sub_task implies root_ok(s2, i) by {
        assert(same_links(s[i], s2[i]));
        assert(root_ok(s, i));
        assert forall|j: int| 0 <= j < s2[i].child_list.len() implies #[trigger] child_link_ok(
            s2,
            i,
            j,
        ) by {
            assert(child_link_ok(s, i, j));
            assert(same_links(s[i + 1 + j], s2[i + 1 + j]));
        }
    }
    assert forall|i: int|
        0 <= i < s2.len() && (#[trigger] s2[i]).is_sub_task implies sub_ok(s2, i) by {
        assert(same_links(s[i], s2[i]));
        assert(sub_ok(s, i));
        let p = choose|p: int| root_covers(s, p, i);
        assert(same_links(s[p], s2[p]));
        assert(root_covers(s2, p, i));
    }
}

/// A pointwise rewrite that keeps links and display keeps display closure.
proof fn lemma_same_links_closed(s: Seq<TaskView>, s2: Seq<TaskView>)
    requires
        wf_tasks(s),
        display_closed(s),
        s2.len() == s.len(),
        forall|i: int| 0 <= i < s.len() ==> same_links(#[trigger] s[i], s2[i]),
        forall|i: int| 0 <= i < s.len() ==> (#[trigger] s[i]).display == s2[i].display,
    ensures
        display_closed(s2),
{
    assert forall|p: int, j: int|
        0 <= p < s2.len() && !s2[p].is_sub_task && 0 <= j < s2[p].child_list.len()
            && #[trigger] child_displayed(s2, p, j) implies s2[p].display by {
        assert(same_links(s[p], s2[p]));
        assert(root_ok(s, p));
        assert(0 <= p + 1 + j < s.len());
        assert(s[p + 1 + j].display == s2[p + 1 + j].display);
        assert(child_displayed(s, p, j));
    }
}

/// A copy of a child-id list with the same view.
fn clone_ids(cl: &Vec<i64>) -> (r: Vec<i64>)
    ensures
        r@ == cl@,
{
    let copy = cl.clone();
    proof {
        assert(copy@ =~= cl@);
    }
    copy
}

/// A copy of a task list with the same views.
fn clone_tasks(items: &Vec<Task>) -> (r: Vec<Task>)
    ensures
        r.deep_view() == items.deep_view(),
{
    let mut r: Vec<Task> = Vec::new();
    let mut i: usize = 0;
    while i < items.len()
        invariant
            i <= items.len(),
            r.deep_view() =~= items.deep_view().take(i as int),
        decreases items.len() - i,
    {
        let ghost prev = r.deep_view();
        let t = items[i].clone();
        r.push(t);
        proof {
            assert(r.deep_view() =~= prev.push(t@));
            assert(r.deep_view() =~= items.deep_view().take(i as int + 1));
        }
        i = i + 1;
    }
    proof {
        assert(r.deep_view() =~= items.deep_view());
    }
    r
}

/// The task list with the record at `i` replaced.
fn set_task(items: &Vec<Task>, i: usize, t: Task) -> (r: Vec<Task>)
    requires
        i < items@.len(),
    ensures
        r.deep_view() == items.deep_view().update(i as int, t@),
{
    let mut r = clone_tasks(items);
    let ghost pre = r.deep_view();
    proof {
        assert(r@.len() == r.deep_view().len());
        assert(items@.len() == items.deep_view().len());
    }
    r.set(i, t);
    proof {
        assert(r.deep_view() =~= pre.update(i as int, t@));
    }
    r
}

/// Whether every cached sub-item is Done, decided executably.
fn all_done_exec(subs: &Vec<Task>) -> (b: bool)
    ensures
        b == all_done(subs.deep_view()),
{
    let ghost s = subs.deep_view();
    let mut ok = true;
    let mut k: usize = 0;
    while k < subs.len()
        invariant
            k <= subs.len(),
            s == subs.deep_view(),
            ok == (forall|j: int| 0 <= j < k ==> (#[trigger] s[j]).status == Status::Done),
        decreases subs.len() - k,
    {
        if !(matches!(subs[k].status, Status::Done)) {
            proof {
                assert(s[k as int].status != Status::Done);
            }
            ok = false;
        }
        k = k + 1;
    }
    ok
}

/// The records whose id the child list names, collected executably.
fn children_of_exec(items: &Vec<Task>, cl: &Vec<i64>) -> (r: Vec<Task>)
    ensures
        r.deep_view() == children_of(items.deep_view(), seq_i64_view(cl@)),
{
    let ghost s = items.deep_view();
    let ghost clv = seq_i64_view(cl@);
    let mut r: Vec<Task> = Vec::new();
    let mut i: usize = 0;
    while i < items.len()
        invariant
            i <= items.len(),
            s == items.deep_view(),
            clv == seq_i64_view(cl@),
            r.deep_view() =~= children_of(s.take(i as int), clv),
        decreases items.len() - i,
    {
        let ghost prev = r.deep_view();
        proof {
            assert(s.take(i as int + 1).drop_last() =~= s.take(i as int));
            assert(s.take(i as int + 1).last() == s[i as int]);
        }
        if contains_id(cl, items[i].id) {
            let t = items[i].clone();
            r.push(t);
            proof {
                assert(r.deep_view() =~= prev.push(t@));
                assert(r.deep_view() =~= children_of(s.take(i as int + 1), clv));
            }
        } else {
            proof {
                assert(r.deep_view() =~= children_of(s.take(i as int + 1), clv));
            }
        }
        i = i + 1;
    }
    proof {
        assert(s.take(s.len() as int) =~= s);
        assert(r.deep_view() =~= children_of(s, clv));
    }
    r
}

/// Whether some record of `items` carries the given id, decided executably.
fn contains_task_id(items: &Vec<Task>, id: i64) -> (b: bool)
    ensures
        b == id_present(items.deep_view(), id as int),
{
    let ghost s = items.deep_view();
    let mut i: usize = 0;
    while i < items.len()
        invariant
            i <= items.len(),
            s == items.deep_view(),
            forall|k: int| 0 <= k < i ==> (#[trigger] s[k]).id != id as int,
        decreases items.len() - i,
    {
        if items[i].id == id {
            proof {
                assert(s[i as int].id == id as int);
            }
            return true;
        }
        i = i + 1;
    }
    false
}

/// A store of `n` records cannot carry every id in `0 ..= n`: some id in
/// that range is always free.
proof fn lemma_id_pigeonhole(s: Seq<TaskView>)
    ensures
        exists|k: int| 0 <= k <= s.len() && !(#[trigger] id_present(s, k)),
{
    broadcast use vstd::seq_lib::group_seq_lib_default;

    if forall|k: int| 0 <= k <= s.len() ==> #[trigger] id_present(s, k) {
        let ids = s.map_values(|t: TaskView| t.id);
        let idset = ids.to_set();
        ids.lemma_cardinality_of_set();
        let range = set_int_range(0, s.len() as int + 1);
        lemma_int_range(0, s.len() as int + 1);
        assert forall|k: int| range.contains(k) implies idset.contains(k) by {
            assert(id_present(s, k));
            let j = choose|j: int| 0 <= j < s.len() && (#[trigger] s[j]).id == k;
            assert(ids[j] == k);
            assert(ids.contains(k));
        }
        lemma_len_subset(range, idset);
        assert(false);
    }
}

/// An id that no record of `items` carries; the requested base id is kept
/// whenever it is free.
fn fresh_id(items: &Vec<Task>, base: i64) -> (r: i64)
    requires
        items.deep_view().len() < i64::MAX,
    ensures
        !id_present(items.deep_view(), r as int),
        !id_present(items.deep_view(), base as int) ==> r == base,
{
    let ghost s = items.deep_view();
    if !contains_task_id(items, base) {
        return base;
    }
    let n = items.len();
    proof {
        assert(s.len() == items@.len());
    }
    let mut c: usize = 0;
    while c < n
        invariant
            c <= n,
            n == items.len(),
            n < i64::MAX,
            s == items.deep_view(),
            id_present(s, base as int),
            forall|k: int| 0 <= k < c ==> id_present(s, k),
        decreases n - c,
    {
        if !contains_task_id(items, c as i64) {
            return c as i64;
        }
        c = c + 1;
    }
    if !contains_task_id(items, n as i64) {
        return n as i64;
    }
    proof {
        assert forall|k: int| 0 <= k <= s.len() implies id_present(s, k) by {
            if k < s.len() {
                assert(id_present(s, k));
            } else {
                assert(id_present(s, n as int));
            }
        }
        lemma_id_pigeonhole(s);
        let k = choose|k: int| 0 <= k <= s.len() && !(#[trigger] id_present(s, k));
        assert(false);
    }
    vstd::pervasive::unreached()
}

/// The view of a new root record as `create_root` appends it.
pub open spec fn root_task_view(
    topic: Seq<char>,
    name: Seq<char>,
    description: Seq<char>,
    now: int,
    id: int,
) -> TaskView {
    TaskView {
        id: id,
        topic: topic,
        status: Status::New,
        name: name,
        description: description,
        creation_timestamp: now,
        creation_date: date_string_of(now),
        status_change_timestamp: None,
        status_change_date: None,
        duration: None,
        comments: Seq::empty(),
        child_list: Seq::empty(),
        parent_id: None,
        is_sub_task: false,
        display: true,
    }
}

/// Appending a fresh childless root keeps the store invariant and display
/// closure.
proof fn lemma_push_root_wf(s: Seq<TaskView>, t: TaskView)
    requires
        wf_tasks(s),
        display_closed(s),
        !t.is_sub_task,
        t.parent_id is None,
        t.child_list.len() == 0,
        !id_present(s, t.id),
    ensures
        wf_tasks(s.push(t)),
        display_closed(s.push(t)),
{
    let s2 = s.push(t);
    assert forall|i: int, j: int|
        0 <= i < j < s2.len() implies (#[trigger] s2[i]).id != (#[trigger] s2[j]).id by {
        if j == s.len() {
            assert(s2[i] == s[i]);
            if s2[i].id == t.id {
                assert(id_present(s, t.id));
            }
        }
    }
    assert forall|i: int|
        0 <= i < s2.len() && !(#[trigger] s2[i]).is_sub_task implies root_ok(s2, i) by {
        if i < s.len() {
            assert(root_ok(s, i));
            assert forall|j: int| 0 <= j < s2[i].child_list.len() implies #[trigger]
            child_link_ok(s2, i, j) by {
                assert(child_link_ok(s, i, j));
                assert(s2[i + 1 + j] == s[i + 1 + j]);
            }
        }
    }
    assert forall|i: int|
        0 <= i < s2.len() && (#[trigger] s2[i]).is_sub_task implies sub_ok(s2, i) by {
        if i < s.len() {
            assert(sub_ok(s, i));
            let p = choose|p: int| root_covers(s, p, i);
            assert(root_covers(s2, p, i));
        }
    }
    assert forall|p: int, j: int|
        0 <= p < s2.len() && !s2[p].is_sub_task && 0 <= j < s2[p].child_list.len()
            && #[trigger] child_displayed(s2, p, j) implies s2[p].display by {
        if p < s.len() {
            assert(root_ok(s, p));
            assert(s2[p + 1 + j] == s[p + 1 + j]);
            assert(child_displayed(s, p, j));
        }
    }
}

/// The task list with a record inserted at `i`.
fn insert_task(items: &Vec<Task>, i: usize, t: Task) -> (r: Vec<Task>)
    requires
        i <= items@.len(),
    ensures
        r.deep_view() == items.deep_view().insert(i as int, t@),
{
    let mut r = clone_tasks(items);
    let ghost pre = r.deep_view();
    proof {
        assert(r@.len() == r.deep_view().len());
        assert(items@.len() == items.deep_view().len());
    }
    r.insert(i, t);
    proof {
        assert(r.deep_view() =~= pre.insert(i as int, t@));
    }
    r
}

/// The position of the record carrying `id`; meaningful when the id is
/// present and ids are unique.
pub open spec fn index_of_id(s: Seq<TaskView>, id: int) -> int {
    choose|j: int| 0 <= j < s.len() && (#[trigger] s[j]).id == id
}

/// The effective parent of the record at `i`: a record that names a
/// present parent defers to it, anything else stands for itself. In a
/// well-formed store this resolves a sub-task to its root and a root to
/// itself, keeping nesting to one level.
pub open spec fn effective_parent(s: Seq<TaskView>, i: int) -> int {
    match s[i].parent_id {
        Some(pid) => if id_present(s, pid) {
            index_of_id(s, pid)
        } else {
            i
        },
        None => i,
    }
}

/// In a well-formed store the effective parent is a root, in bounds.
proof fn lemma_effective_parent_is_root(s: Seq<TaskView>, i: int)
    requires
        wf_tasks(s),
        0 <= i < s.len(),
    ensures
        0 <= effective_parent(s, i) < s.len(),
        !s[effective_parent(s, i)].is_sub_task,
{
    let p = effective_parent(s, i);
    match s[i].parent_id {
        Some(pid) => {
            if s[i].is_sub_task {
                assert(sub_ok(s, i));
                let q = choose|q: int| root_covers(s, q, i);
                assert(root_ok(s, q));
                assert(child_link_ok(s, q, i - q - 1));
                assert(s[q].id == pid);
                assert(id_present(s, pid));
                let j = index_of_id(s, pid);
                assert(0 <= j < s.len() && s[j].id == pid);
                if j != q {
                    assert(s[j].id != s[q].id);
                }
                assert(p == q);
            } else {
                assert(root_ok(s, i));
                assert(false);
            }
        },
        None => {
            if s[i].is_sub_task {
                assert(sub_ok(s, i));
                assert(false);
            }
        },
    }
}

/// The view of a new sub-task record as `create_subtask` inserts it under
/// its resolved root.
pub open spec fn subtask_view(
    parent: TaskView,
    name: Seq<char>,
    description: Seq<char>,
    now: int,
    id: int,
) -> TaskView {
    TaskView {
        id: id,
        topic: parent.topic,
        status: Status::New,
        name: name,
        description: description,
        creation_timestamp: now,
        creation_date: date_string_of(now),
        status_change_timestamp: None,
        status_change_date: None,
        duration: None,
        comments: Seq::empty(),
        child_list: Seq::empty(),
        parent_id: Some(parent.id),
        is_sub_task: true,
        display: true,
    }
}

/// The store after inserting sub-task `c` right after the existing child
/// block of the root at `p`: the root lists the new id at the end of its
/// child list and becomes displayed, so the new visible row never renders
/// orphaned.
pub open spec fn insert_subtask_spec(s: Seq<TaskView>, p: int, c: TaskView) -> Seq<TaskView> {
    s.update(p, (TaskView { child_list: s[p].child_list.push(c.id), display: true, ..s[p] }))
        .insert(p + s[p].child_list.len() + 1, c)
}

/// Inserting a fresh sub-task at the end of a root's block keeps the
/// store invariant and display closure.
proof fn lemma_insert_subtask_wf(s: Seq<TaskView>, p: int, c: TaskView)
    requires
        wf_tasks(s),
        display_closed(s),
        0 <= p < s.len(),
        !s[p].is_sub_task,
        c.is_sub_task,
        c.parent_id == Some(s[p].id),
        c.child_list.len() == 0,
        c.display,
        !id_present(s, c.id),
    ensures
        wf_tasks(insert_subtask_spec(s, p, c)),
        display_closed(insert_subtask_spec(s, p, c)),
        insert_subtask_spec(s, p, c).len() == s.len() + 1,
{
    let m = s[p].child_list.len() as int;
    let pos = p + m + 1;
    let parent2 = TaskView { child_list: s[p].child_list.push(c.id), display: true, ..s[p] };
    let s2 = insert_subtask_spec(s, p, c);
    assert(root_ok(s, p));
    assert(s2.len() == s.len() + 1);
    // the elementwise shape of the new store
    assert(forall|k: int| 0 <= k < pos && k != p ==> s2[k] == s[k]);
    assert(s2[p] == parent2);
    assert(s2[pos] == c);
    assert(forall|k: int| pos < k < s2.len() ==> s2[k] == s[k - 1]);
    // the slots of p's old block hold sub-tasks
    assert forall|k: int| p < k < pos implies s[k].is_sub_task by {
        assert(child_link_ok(s, p, k - p - 1));
    }
    // blocks of other roots never reach into p's block or past it
    assert forall|q: int|
        0 <= q < s.len() && !s[q].is_sub_task && q != p implies q + s[q].child_list.len() < p
            || q > p + m by {
        assert(root_ok(s, q));
        if q < p {
            if p <= q + s[q].child_list.len() {
                assert(child_link_ok(s, q, p - q - 1));
                assert(false);
            }
        } else {
            assert(q > p + m || (p < q && q < pos));
            if p < q && q < pos {
                assert(false);
            }
        }
    }
    assert forall|i: int, j: int|
        0 <= i < j < s2.len() implies (#[trigger] s2[i]).id != (#[trigger] s2[j]).id by {
        let oi: int = if i < pos {
            i
        } else {
            i - 1
        };
        let oj: int = if j < pos {
            j
        } else {
            j - 1
        };
        if i == pos {
            assert(s2[j].id == s[oj].id);
            if s2[j].id == c.id {
                assert(id_present(s, c.id));
            }
        } else if j == pos {
            assert(s2[i].id == s[oi].id);
            if s2[i].id == c.id {
                assert(id_present(s, c.id));
            }
        } else {
            assert(s2[i].id == s[oi].id);
            assert(s2[j].id == s[oj].id);
        }
    }
    assert forall|i: int|
        0 <= i < s2.len() && !(#[trigger] s2[i]).is_sub_task implies root_ok(s2, i) by {
        if i == p {
            assert forall|j: int| 0 <= j < s2[p].child_list.len() implies #[trigger]
            child_link_ok(s2, p, j) by {
                if j < m {
                    assert(child_link_ok(s, p, j));
                    assert(s2[p + 1 + j] == s[p + 1 + j]);
                } else {
                    assert(j == m);
                    assert(s2[p + 1 + m] == c);
                }
            }
        } else if i < pos {
            assert(s2[i] == s[i]);
            assert(root_ok(s, i));
            assert(i + s[i].child_list.len() < p || i > p + m);
            assert forall|j: int| 0 <= j < s2[i].child_list.len() implies #[trigger]
            child_link_ok(s2, i, j) by {
                assert(child_link_ok(s, i, j));
                assert(i + 1 + j < pos && i + 1 + j != p);
                assert(s2[i + 1 + j] == s[i + 1 + j]);
            }
        } else if i == pos {
            assert(false);
        } else {
            assert(s2[i] == s[i - 1]);
            assert(root_ok(s, i - 1));
            assert forall|j: int| 0 <= j < s2[i].child_list.len() implies #[trigger]
            child_link_ok(s2, i, j) by {
                assert(child_link_ok(s, i - 1, j));
                assert(i + 1 + j > pos);
                assert(s2[i + 1 + j] == s[i + j]);
            }
        }
    }
    assert forall|i: int|
        0 <= i < s2.len() && (#[trigger] s2[i]).is_sub_task implies sub_ok(s2, i) by {
        if i == pos {
            assert(root_covers(s2, p, pos));
        } else if i < pos {
            assert(s2[i] == s[i]);
            assert(sub_ok(s, i));
            let q = choose|q: int| root_covers(s, q, i);
            if q == p {
                assert(root_covers(s2, p, i));
            } else {
                assert(q + s[q].child_list.len() < p || q > p + m);
                assert(q < i <= q + s[q].child_list.len());
                assert(q < p);
                assert(s2[q] == s[q]);
                assert(root_covers(s2, q, i));
            }
        } else {
            assert(s2[i] == s[i - 1]);
            let i0 = i - 1;
            assert(sub_ok(s, i0));
            let q = choose|q: int| root_covers(s, q, i0);
            assert(!s[q].is_sub_task);
            assert(q + s[q].child_list.len() < p || q > p + m || q == p);
            if q == p {
                assert(i - 1 <= p + m);
                assert(false);
            } else if q > p + m {
                assert(s2[q + 1] == s[q]);
                assert(root_covers(s2, q + 1, i));
            } else {
                assert(i - 1 <= q + s[q].child_list.len());
                assert(i - 1 < p);
                assert(false);
            }
        }
    }
    assert forall|q: int, j: int|
        0 <= q < s2.len() && !s2[q].is_sub_task && 0 <= j < s2[q].child_list.len()
            && #[trigger] child_displayed(s2, q, j) implies s2[q].display by {
        if q == p {
            assert(s2[p].display);
        } else if q < pos {
            assert(s2[q] == s[q]);
            assert(root_ok(s, q));
            assert(q + s[q].child_list.len() < p || q > p + m);
            assert(q + 1 + j < pos && q + 1 + j != p);
            assert(s2[q + 1 + j] == s[q + 1 + j]);
            assert(child_displayed(s, q, j));
        } else if q == pos {
            assert(false);
        } else {
            assert(s2[q] == s[q - 1]);
            assert(root_ok(s, q - 1));
            assert(s2[q + 1 + j] == s[q + j]);
            assert(child_displayed(s, q - 1, j));
        }
    }
}

/// The child list without the entries carrying the given id.
pub open spec fn remove_id(cl: Seq<int>, id: int) -> Seq<int>
    decreases cl.len(),
{
    if cl.len() == 0 {
        Seq::empty()
    } else {
        let rest = remove_id(cl.drop_last(), id);
        if cl.last() == id {
            rest
        } else {
            rest.push(cl.last())
        }
    }
}

/// Removing an id that a list does not carry leaves it unchanged.
proof fn lemma_remove_id_absent(cl: Seq<int>, id: int)
    requires
        forall|k: int| 0 <= k < cl.len() ==> cl[k] != id,
    ensures
        remove_id(cl, id) == cl,
    decreases cl.len(),
{
    if cl.len() > 0 {
        lemma_remove_id_absent(cl.drop_last(), id);
        assert(remove_id(cl, id) =~= cl);
    } else {
        assert(remove_id(cl, id) =~= cl);
    }
}

/// Removing an id that a list carries exactly once drops that one entry.
proof fn lemma_remove_id_single(cl: Seq<int>, id: int, j0: int)
    requires
        0 <= j0 < cl.len(),
        cl[j0] == id,
        forall|k: int| 0 <= k < cl.len() && k != j0 ==> cl[k] != id,
    ensures
        remove_id(cl, id) == cl.remove(j0),
    decreases cl.len(),
{
    let n = cl.len() - 1;
    if j0 == n {
        lemma_remove_id_absent(cl.drop_last(), id);
        assert(remove_id(cl, id) =~= cl.remove(j0));
    } else {
        lemma_remove_id_single(cl.drop_last(), id, j0);
        assert(remove_id(cl, id) =~= cl.remove(j0));
    }
}

/// The records kept when the root carrying `tid` is deleted: everything
/// but that root and the records its child list names.
pub open spec fn delete_parent_kept(s: Seq<TaskView>, tid: int, cl: Seq<int>) -> Seq<TaskView>
    decreases s.len(),
{
    if s.len() == 0 {
        Seq::empty()
    } else {
        let rest = delete_parent_kept(s.drop_last(), tid, cl);
        if s.last().id == tid || cl.contains(s.last().id) {
            rest
        } else {
            rest.push(s.last())
        }
    }
}

/// When the dropped records are exactly those at indices `a ..< b`, the
/// kept records are the surrounding two runs.
proof fn lemma_kept_is_cut(s: Seq<TaskView>, tid: int, cl: Seq<int>, a: int, b: int)
    requires
        0 <= a <= b <= s.len(),
        forall|k: int|
            0 <= k < s.len() ==> (((#[trigger] s[k]).id == tid || cl.contains(s[k].id)) <==> (a
                <= k < b)),
    ensures
        delete_parent_kept(s, tid, cl) == s.subrange(0, a) + s.subrange(b, s.len() as int),
    decreases s.len(),
{
    if s.len() == 0 {
        assert(delete_parent_kept(s, tid, cl) =~= s.subrange(0, a) + s.subrange(
            b,
            s.len() as int,
        ));
    } else {
        let n = s.len() - 1;
        let dl = s.drop_last();
        if b <= n {
            lemma_kept_is_cut(dl, tid, cl, a, b);
            assert(delete_parent_kept(s, tid, cl) =~= s.subrange(0, a) + s.subrange(
                b,
                s.len() as int,
            ));
        } else {
            if a <= n {
                lemma_kept_is_cut(dl, tid, cl, a, n);
                assert(delete_parent_kept(s, tid, cl) =~= s.subrange(0, a) + s.subrange(
                    b,
                    s.len() as int,
                ));
            } else {
                lemma_kept_is_cut(dl, tid, cl, n, n);
                assert(delete_parent_kept(s, tid, cl) =~= s.subrange(0, a) + s.subrange(
                    b,
                    s.len() as int,
                ));
            }
        }
    }
}

/// In a well-formed store, a record's id is the root's own exactly at the
/// root's index, and sits in the root's child list exactly inside its
/// block.
proof fn lemma_block_membership(s: Seq<TaskView>, p: int)
    requires
        wf_tasks(s),
        0 <= p < s.len(),
        !s[p].is_sub_task,
    ensures
        forall|k: int|
            0 <= k < s.len() ==> (((#[trigger] s[k]).id == s[p].id || s[p].child_list.contains(
                s[k].id,
            )) <==> (p <= k < p + s[p].child_list.len() + 1)),
{
    assert(root_ok(s, p));
    let m = s[p].child_list.len() as int;
    assert forall|k: int|
        0 <= k < s.len() implies (((#[trigger] s[k]).id == s[p].id || s[p].child_list.contains(
        s[k].id,
    )) <==> (p <= k < p + m + 1)) by {
        if p <= k < p + m + 1 {
            if k == p {
            } else {
                let j = k - p - 1;
                assert(child_link_ok(s, p, j));
                assert(s[p].child_list[j] == s[k].id);
                assert(s[p].child_list.contains(s[k].id));
            }
        }
        if s[k].id == s[p].id {
            if k != p {
                assert(false);
            }
        }
        if s[p].child_list.contains(s[k].id) {
            let kid = s[k].id;
            let j = choose|j: int| 0 <= j < s[p].child_list.len() && s[p].child_list[j] == kid;
            assert(child_link_ok(s, p, j));
            assert(s[p + 1 + j].id == s[k].id);
            if k != p + 1 + j {
                assert(false);
            }
        }
    }
}

/// Removing a root's whole block keeps the store invariant and display
/// closure.
proof fn lemma_remove_block_wf(s: Seq<TaskView>, p: int)
    requires
        wf_tasks(s),
        display_closed(s),
        0 <= p < s.len(),
        !s[p].is_sub_task,
    ensures
        wf_tasks(s.subrange(0, p) + s.subrange(p + s[p].child_list.len() + 1, s.len() as int)),
        display_closed(
            s.subrange(0, p) + s.subrange(p + s[p].child_list.len() + 1, s.len() as int),
        ),
{
    assert(root_ok(s, p));
    let m = s[p].child_list.len() as int;
    let b = p + m + 1;
    let s2 = s.subrange(0, p) + s.subrange(b, s.len() as int);
    assert(s2.len() == s.len() - m - 1);
    assert(forall|k: int| 0 <= k < p ==> s2[k] == s[k]);
    assert(forall|k: int| p <= k < s2.len() ==> s2[k] == s[k + m + 1]);
    // blocks of other roots stay clear of p's block
    assert forall|q: int|
        0 <= q < s.len() && !(#[trigger] s[q]).is_sub_task && q != p implies q
            + s[q].child_list.len() < p || q > p + m by {
        assert(root_ok(s, q));
        if q < p {
            if p <= q + s[q].child_list.len() {
                assert(child_link_ok(s, q, p - q - 1));
                assert(false);
            }
        } else if q <= p + m {
            assert(child_link_ok(s, p, q - p - 1));
            assert(false);
        }
    }
    assert forall|i: int, j: int|
        0 <= i < j < s2.len() implies (#[trigger] s2[i]).id != (#[trigger] s2[j]).id by {
        let oi: int = if i < p {
            i
        } else {
            i + m + 1
        };
        let oj: int = if j < p {
            j
        } else {
            j + m + 1
        };
        assert(s2[i] == s[oi] && s2[j] == s[oj]);
    }
    assert forall|i: int|
        0 <= i < s2.len() && !(#[trigger] s2[i]).is_sub_task implies root_ok(s2, i) by {
        let oi: int = if i < p {
            i
        } else {
            i + m + 1
        };
        assert(s2[i] == s[oi]);
        assert(root_ok(s, oi));
        assert(oi + s[oi].child_list.len() < p || oi > p + m);
        assert forall|j: int| 0 <= j < s2[i].child_list.len() implies #[trigger] child_link_ok(
            s2,
            i,
            j,
        ) by {
            assert(child_link_ok(s, oi, j));
            if i < p {
                assert(s2[i + 1 + j] == s[i + 1 + j]);
            } else {
                assert(s2[i + 1 + j] == s[oi + 1 + j]);
            }
        }
    }
    assert forall|i: int|
        0 <= i < s2.len() && (#[trigger] s2[i]).is_sub_task implies sub_ok(s2, i) by {
        let oi: int = if i < p {
            i
        } else {
            i + m + 1
        };
        assert(s2[i] == s[oi]);
        assert(sub_ok(s, oi));
        let q = choose|q: int| root_covers(s, q, oi);
        assert(root_ok(s, q));
        if q == p {
            assert(oi <= p + m);
            assert(oi < b && oi >= p);
            assert(i < p && i >= p);
            assert(false);
        } else {
            assert(q + s[q].child_list.len() < p || q > p + m);
            if oi < p {
                assert(q < p);
                assert(root_covers(s2, q, i));
            } else {
                if q < p {
                    assert(oi <= q + s[q].child_list.len() < p);
                    assert(false);
                }
                assert(q > p + m);
                assert(s2[q - m - 1] == s[q]);
                assert(root_covers(s2, q - m - 1, i));
            }
        }
    }
    assert forall|q: int, j: int|
        0 <= q < s2.len() && !s2[q].is_sub_task && 0 <= j < s2[q].child_list.len()
            && #[trigger] child_displayed(s2, q, j) implies s2[q].display by {
        let oq: int = if q < p {
            q
        } else {
            q + m + 1
        };
        assert(s2[q] == s[oq]);
        assert(root_ok(s, oq));
        assert(oq + s[oq].child_list.len() < p || oq > p + m);
        if q < p {
            assert(s2[q + 1 + j] == s[q + 1 + j]);
        } else {
            assert(s2[q + 1 + j] == s[oq + 1 + j]);
        }
        assert(child_displayed(s, oq, j));
    }
}

/// The store after deleting the sub-task at `i`: its id leaves its
/// parent's child list and the record leaves the store.
pub open spec fn delete_sub_spec(s: Seq<TaskView>, i: int) -> Seq<TaskView> {
    if s[i].parent_id is Some && id_present(s, s[i].parent_id->0) {
        let p = index_of_id(s, s[i].parent_id->0);
        s.update(p, (TaskView { child_list: remove_id(s[p].child_list, s[i].id), ..s[p] }))
            .remove(i)
    } else {
        s.remove(i)
    }
}

/// Deleting a sub-task keeps the store invariant and display closure.
proof fn lemma_delete_sub_wf(s: Seq<TaskView>, i: int)
    requires
        wf_tasks(s),
        display_closed(s),
        0 <= i < s.len(),
        s[i].is_sub_task,
    ensures
        s[i].parent_id is Some && id_present(s, s[i].parent_id->0),
        ({
            let p = index_of_id(s, s[i].parent_id->0);
            &&& 0 <= p < i
            &&& !s[p].is_sub_task
            &&& root_covers(s, p, i)
            &&& s[p].child_list[i - p - 1] == s[i].id
            &&& remove_id(s[p].child_list, s[i].id) == s[p].child_list.remove(i - p - 1)
        }),
        wf_tasks(delete_sub_spec(s, i)),
        display_closed(delete_sub_spec(s, i)),
        delete_sub_spec(s, i).len() == s.len() - 1,
{
    assert(sub_ok(s, i));
    let q = choose|q: int| root_covers(s, q, i);
    assert(root_ok(s, q));
    let j0 = i - q - 1;
    assert(child_link_ok(s, q, j0));
    assert(s[i].parent_id == Some(s[q].id));
    assert(id_present(s, s[q].id));
    let p = index_of_id(s, s[i].parent_id->0);
    assert(0 <= p < s.len() && s[p].id == s[q].id);
    if p != q {
        assert(s[p].id != s[q].id);
    }
    assert(p == q);
    let m = s[p].child_list.len() as int;
    // the dropped id sits exactly once in the parent's child list
    assert forall|k: int| 0 <= k < m && k != j0 implies s[p].child_list[k] != s[i].id by {
        assert(child_link_ok(s, p, k));
        if s[p].child_list[k] == s[i].id {
            assert(s[p + 1 + k].id == s[i].id);
            assert(p + 1 + k != i);
            assert(false);
        }
    }
    lemma_remove_id_single(s[p].child_list, s[i].id, j0);
    let parent2 = TaskView { child_list: s[p].child_list.remove(j0), ..s[p] };
    let s2 = s.update(p, parent2).remove(i);
    assert(delete_sub_spec(s, i) == s2);
    assert(s2.len() == s.len() - 1);
    assert(forall|k: int| 0 <= k < i && k != p ==> s2[k] == s[k]);
    assert(s2[p] == parent2);
    assert(forall|k: int| i <= k < s2.len() ==> s2[k] == s[k + 1]);
    // blocks of other roots stay clear of i
    assert forall|q2: int|
        0 <= q2 < s.len() && !(#[trigger] s[q2]).is_sub_task && q2 != p implies q2
            + s[q2].child_list.len() < i || q2 > i by {
        assert(root_ok(s, q2));
        if q2 < i && i <= q2 + s[q2].child_list.len() {
            assert(child_link_ok(s, q2, i - q2 - 1));
            assert(s[i].parent_id == Some(s[q2].id));
            assert(s[q2].id == s[p].id);
            assert(false);
        }
    }
    assert forall|a: int, b2: int|
        0 <= a < b2 < s2.len() implies (#[trigger] s2[a]).id != (#[trigger] s2[b2]).id by {
        let oa: int = if a < i {
            a
        } else {
            a + 1
        };
        let ob: int = if b2 < i {
            b2
        } else {
            b2 + 1
        };
        assert(s2[a].id == s[oa].id && s2[b2].id == s[ob].id);
    }
    assert forall|a: int|
        0 <= a < s2.len() && !(#[trigger] s2[a]).is_sub_task implies root_ok(s2, a) by {
        let oa: int = if a < i {
            a
        } else {
            a + 1
        };
        if a == p {
            assert forall|j: int| 0 <= j < s2[p].child_list.len() implies #[trigger]
            child_link_ok(s2, p, j) by {
                if j < j0 {
                    assert(child_link_ok(s, p, j));
                    assert(p + 1 + j < i);
                    assert(s2[p + 1 + j] == s[p + 1 + j]);
                } else {
                    assert(child_link_ok(s, p, j + 1));
                    assert(p + 1 + j >= i);
                    assert(s2[p + 1 + j] == s[p + 2 + j]);
                }
            }
        } else {
            assert(s2[a] == s[oa]);
            assert(root_ok(s, oa));
            assert(oa != p);
            assert(oa + s[oa].child_list.len() < i || oa > i);
            assert forall|j: int| 0 <= j < s2[a].child_list.len() implies #[trigger]
            child_link_ok(s2, a, j) by {
                assert(child_link_ok(s, oa, j));
                if a < i {
                    assert(a + 1 + j < i && a + 1 + j != p);
                    assert(s2[a + 1 + j] == s[a + 1 + j]);
                } else {
                    assert(s2[a + 1 + j] == s[oa + 1 + j]);
                }
            }
        }
    }
    assert forall|a: int|
        0 <= a < s2.len() && (#[trigger] s2[a]).is_sub_task implies sub_ok(s2, a) by {
        let oa: int = if a < i {
            a
        } else {
            a + 1
        };
        assert(s2[a] == s[oa]);
        assert(sub_ok(s, oa));
        let q2 = choose|q2: int| root_covers(s, q2, oa);
        assert(root_ok(s, q2));
        if q2 == p {
            assert(oa <= p + m);
            if a < i {
                assert(a <= p + m - 1);
                assert(root_covers(s2, p, a));
            } else {
                assert(a + 1 <= p + m);
                assert(root_covers(s2, p, a));
            }
        } else {
            assert(q2 + s[q2].child_list.len() < i || q2 > i);
            if oa < i {
                assert(q2 < oa);
                assert(root_covers(s2, q2, a));
            } else {
                if q2 < i {
                    assert(oa <= q2 + s[q2].child_list.len() < i);
                    assert(false);
                }
                assert(q2 > i);
                assert(s2[q2 - 1] == s[q2]);
                assert(root_covers(s2, q2 - 1, a));
            }
        }
    }
    assert forall|q2: int, j: int|
        0 <= q2 < s2.len() && !s2[q2].is_sub_task && 0 <= j < s2[q2].child_list.len()
            && #[trigger] child_displayed(s2, q2, j) implies s2[q2].display by {
        if q2 == p {
            if j < j0 {
                assert(s2[p + 1 + j] == s[p + 1 + j]);
                assert(child_displayed(s, p, j));
            } else {
                assert(s2[p + 1 + j] == s[p + 2 + j]);
                assert(child_displayed(s, p, j + 1));
            }
            assert(s[p].display == s2[p].display);
        } else {
            let oq: int = if q2 < i {
                q2
            } else {
                q2 + 1
            };
            assert(s2[q2] == s[oq]);
            assert(root_ok(s, oq));
            assert(oq + s[oq].child_list.len() < i || oq > i);
            if q2 < i {
                assert(q2 + 1 + j < i);
                assert(child_link_ok(s, q2, j));
                assert(q2 + 1 + j != p);
                assert(s2[q2 + 1 + j] == s[q2 + 1 + j]);
                assert(child_displayed(s, oq, j));
            } else {
                assert(s2[q2 + 1 + j] == s[oq + 1 + j]);
                assert(child_displayed(s, oq, j));
            }
        }
    }
}

/// The store after the deletion of the record at `i` cascades: a sub-task
/// leaves alone, a parent takes its listed children along, and a childless
/// root leaves alone.
pub open spec fn delete_spec(s: Seq<TaskView>, i: int) -> Seq<TaskView> {
    if s[i].is_sub_task {
        delete_sub_spec(s, i)
    } else if s[i].child_list.len() > 0 {
        delete_parent_kept(s, s[i].id, s[i].child_list)
    } else {
        s.remove(i)
    }
}

/// The task list with the record at `i` removed.
fn remove_task(items: &Vec<Task>, i: usize) -> (r: Vec<Task>)
    requires
        i < items@.len(),
    ensures
        r.deep_view() == items.deep_view().remove(i as int),
{
    let mut r = clone_tasks(items);
    let ghost pre = r.deep_view();
    proof {
        assert(r@.len() == r.deep_view().len());
        assert(items@.len() == items.deep_view().len());
    }
    r.remove(i);
    proof {
        assert(r.deep_view() =~= pre.remove(i as int));
    }
    r
}

/// The child-id list without the entries carrying the given id, built
/// executably.
fn strip_id(cl: &Vec<i64>, id: i64) -> (r: Vec<i64>)
    ensures
        seq_i64_view(r@) == remove_id(seq_i64_view(cl@), id as int),
{
    let ghost clv = seq_i64_view(cl@);
    let mut r: Vec<i64> = Vec::new();
    let mut k: usize = 0;
    while k < cl.len()
        invariant
            k <= cl.len(),
            clv == seq_i64_view(cl@),
            seq_i64_view(r@) =~= remove_id(clv.take(k as int), id as int),
        decreases cl.len() - k,
    {
        let ghost prev = seq_i64_view(r@);
        proof {
            assert(clv.take(k as int + 1).drop_last() =~= clv.take(k as int));
            assert(clv.take(k as int + 1).last() == clv[k as int]);
        }
        if cl[k] != id {
            r.push(cl[k]);
            proof {
                assert(seq_i64_view(r@) =~= prev.push(clv[k as int]));
            }
        }
        proof {
            assert(seq_i64_view(r@) =~= remove_id(clv.take(k as int + 1), id as int));
        }
        k = k + 1;
    }
    proof {
        assert(clv.take(clv.len() as int) =~= clv);
    }
    r
}

/// The records kept when a parent is deleted, collected executably.
fn delete_parent_exec(items: &Vec<Task>, tid: i64, cl: &Vec<i64>) -> (r: Vec<Task>)
    ensures
        r.deep_view() == delete_parent_kept(items.deep_view(), tid as int, seq_i64_view(cl@)),
{
    let ghost s = items.deep_view();
    let ghost clv = seq_i64_view(cl@);
    let mut r: Vec<Task> = Vec::new();
    let mut k: usize = 0;
    while k < items.len()
        invariant
            k <= items.len(),
            s == items.deep_view(),
            clv == seq_i64_view(cl@),
            r.deep_view() =~= delete_parent_kept(s.take(k as int), tid as int, clv),
        decreases items.len() - k,
    {
        let ghost prev = r.deep_view();
        proof {
            assert(s.take(k as int + 1).drop_last() =~= s.take(k as int));
            assert(s.take(k as int + 1).last() == s[k as int]);
        }
        let keep = items[k].id != tid && !contains_id(cl, items[k].id);
        if keep {
            let t = items[k].clone();
            r.push(t);
            proof {
                assert(r.deep_view() =~= prev.push(t@));
            }
        }
        proof {
            assert(r.deep_view() =~= delete_parent_kept(s.take(k as int + 1), tid as int, clv));
        }
        k = k + 1;
    }
    proof {
        assert(s.take(s.len() as int) =~= s);
    }
    r
}

/// The engine state after delete-selected: the cascade removes records,
/// then the selection advances as a select-next over the shortened store,
/// refreshing the sub-item cache.
pub open spec fn delete_post(pre: AppView) -> AppView {
    let i = pre.selected->0;
    let nt = delete_spec(pre.tasks, i);
    let ns = next_sel_spec(Some(i), nt.len() as int);
    AppView {
        tasks: nt,
        selected: ns,
        sub_items: match ns {
            Some(k) => children_of(nt, nt[k].child_list),
            None => pre.sub_items,
        },
        filter: pre.filter,
    }
}

/// Recomputing display for a filter keeps every link and re-establishes
/// display closure: a displayed child always lights its parent up.
proof fn lemma_filter_closed(s: Seq<TaskView>, f: Filter)
    requires
        wf_tasks(s),
    ensures
        display_closed(filter_spec(s, f)),
{
    let s1 = crate::filter::pass1(s, f);
    let s2 = filter_spec(s, f);
    assert forall|p: int, j: int|
        0 <= p < s2.len() && !s2[p].is_sub_task && 0 <= j < s2[p].child_list.len()
            && #[trigger] child_displayed(s2, p, j) implies s2[p].display by {
        assert(root_ok(s, p));
        assert(child_link_ok(s, p, j));
        let c = p + 1 + j;
        assert(s[c].is_sub_task);
        assert(sub_ok(s, c));
        assert(s[c].child_list.len() == 0);
        assert(s2[c].display == s1[c].display);
        assert(s1[c].id == s[c].id);
        assert(s[p].child_list.contains(s1[c].id));
        assert(crate::filter::any_child_displayed(s1, s1[p].child_list));
    }
}

/// Deleting a parent with children removes exactly the parent's id and
/// the ids its child list names; deleting a sub-task or a childless root
/// removes exactly its own id, a sub-task's also leaving its parent's
/// child list.
pub proof fn lemma_delete_cascade(s: Seq<TaskView>, i: int)
    requires
        wf_tasks(s),
        display_closed(s),
        0 <= i < s.len(),
    ensures
        !s[i].is_sub_task && s[i].child_list.len() > 0 ==> forall|id: int|
            #[trigger] id_present(delete_spec(s, i), id) <==> (id_present(s, id) && id != s[i].id
                && !s[i].child_list.contains(id)),
        (s[i].is_sub_task || s[i].child_list.len() == 0) ==> forall|id: int|
            #[trigger] id_present(delete_spec(s, i), id) <==> (id_present(s, id) && id != s[i].id),
        s[i].is_sub_task ==> ({
            let p = index_of_id(s, s[i].parent_id->0);
            &&& root_covers(s, p, i)
            &&& delete_spec(s, i)[p] == (TaskView {
                child_list: s[p].child_list.remove(i - p - 1),
                ..s[p]
            })
        }),
{
    let s2 = delete_spec(s, i);
    if s[i].is_sub_task {
        lemma_delete_sub_wf(s, i);
        let p = index_of_id(s, s[i].parent_id->0);
        let j0 = i - p - 1;
        let parent2 = TaskView { child_list: s[p].child_list.remove(j0), ..s[p] };
        assert(s2 == s.update(p, parent2).remove(i));
        assert(s2[p] == parent2);
        assert forall|id: int|
            #[trigger] id_present(s2, id) <==> (id_present(s, id) && id != s[i].id) by {
            if id_present(s2, id) {
                let k = choose|k: int| 0 <= k < s2.len() && (#[trigger] s2[k]).id == id;
                let ok: int = if k < i {
                    k
                } else {
                    k + 1
                };
                assert(s[ok].id == id);
                assert(ok != i);
            }
            if id_present(s, id) && id != s[i].id {
                let k = choose|k: int| 0 <= k < s.len() && (#[trigger] s[k]).id == id;
                assert(k != i);
                if k < i {
                    assert(s2[k].id == id);
                } else {
                    assert(s2[k - 1].id == id);
                }
            }
        }
    } else if s[i].child_list.len() > 0 {
        let m = s[i].child_list.len() as int;
        let b = i + m + 1;
        assert(root_ok(s, i));
        lemma_block_membership(s, i);
        lemma_kept_is_cut(s, s[i].id, s[i].child_list, i, b);
        assert(s2 == s.subrange(0, i) + s.subrange(b, s.len() as int));
        assert forall|id: int|
            #[trigger] id_present(s2, id) <==> (id_present(s, id) && id != s[i].id
                && !s[i].child_list.contains(id)) by {
            if id_present(s2, id) {
                let k = choose|k: int| 0 <= k < s2.len() && (#[trigger] s2[k]).id == id;
                let ok: int = if k < i {
                    k
                } else {
                    k + m + 1
                };
                assert(s2[k] == s[ok]);
                assert(s[ok].id == id);
                assert(!(i <= ok < b));
            }
            if id_present(s, id) && id != s[i].id && !s[i].child_list.contains(id) {
                let k = choose|k: int| 0 <= k < s.len() && (#[trigger] s[k]).id == id;
                assert(!(i <= k < b));
                if k < i {
                    assert(s2[k].id == id);
                } else {
                    assert(s2[k - m - 1] == s[k]);
                    assert(s2[k - m - 1].id == id);
                }
            }
        }
    } else {
        assert(s2 == s.remove(i));
        assert forall|id: int|
            #[trigger] id_present(s2, id) <==> (id_present(s, id) && id != s[i].id) by {
            if id_present(s2, id) {
                let k = choose|k: int| 0 <= k < s2.len() && (#[trigger] s2[k]).id == id;
                let ok: int = if k < i {
                    k
                } else {
                    k + 1
                };
                assert(s[ok].id == id);
                assert(ok != i);
            }
            if id_present(s, id) && id != s[i].id {
                let k = choose|k: int| 0 <= k < s.len() && (#[trigger] s[k]).id == id;
                assert(k != i);
                if k < i {
                    assert(s2[k].id == id);
                } else {
                    assert(s2[k - 1].id == id);
                }
            }
        }
    }
}

/// The record that seeds an empty or unreadable snapshot.
pub open spec fn seed_task_spec() -> TaskView {
    TaskView {
        id: 0,
        topic: "main"@,
        status: Status::New,
        name: "Hello this is default task"@,
        description: "Some description..."@,
        creation_timestamp: 1,
        creation_date: "1"@,
        status_change_timestamp: None,
        status_change_date: None,
        duration: None,
        comments: Seq::empty(),
        child_list: Seq::empty(),
        parent_id: None,
        is_sub_task: false,
        display: true,
    }
}

/// The store that replaces a missing or malformed snapshot.
pub open spec fn seed_store() -> Seq<TaskView> {
    seq![seed_task_spec()]
}

/// Builds the seed record.
pub fn seed_task() -> (t: Task)
    ensures
        t@ == seed_task_spec(),
{
    let t = Task {
        id: 0,
        topic: String::from_str("main"),
        status: Status::New,
        name: String::from_str("Hello this is default task"),
        description: String::from_str("Some description..."),
        creation_timestamp: 1,
        creation_date: String::from_str("1"),
        status_change_timestamp: None,
        status_change_date: None,
        duration: None,
        comments: Vec::new(),
        child_list: Vec::new(),
        parent_id: None,
        is_sub_task: false,
        display: true,
    };
    proof {
        assert(t.comments.deep_view() =~= Seq::<CommentView>::empty());
        assert(seq_i64_view(t.child_list@) =~= Seq::<int>::empty());
        assert(t@ =~= seed_task_spec());
    }
    t
}

/// The seed store satisfies the store invariant and display closure.
proof fn lemma_seed_store_wf()
    ensures
        wf_tasks(seed_store()),
        display_closed(seed_store()),
        seed_store().len() == 1,
{
    let s = seed_store();
    assert forall|i: int|
        0 <= i < s.len() && !(#[trigger] s[i]).is_sub_task implies root_ok(s, i) by {
        assert(s[0].child_list.len() == 0);
    }
}

/// The engine state: the ordered store, the selection, the cached sub-items
/// of the selection, and the active filter.
pub struct App {
    items: Vec<Task>,
    selected: Option<usize>,
    sub_items: Vec<Task>,
    filter: Filter,
}

/// The mathematical view of the engine state.
#[verifier::ext_equal]
pub ghost struct AppView {
    pub tasks: Seq<TaskView>,
    pub selected: Option<int>,
    pub sub_items: Seq<TaskView>,
    pub filter: Filter,
}

impl View for App {
    type V = AppView;

    closed spec fn view(&self) -> AppView {
        AppView {
            tasks: self.items.deep_view(),
            selected: match self.selected {
                Some(i) => Some(i as int),
                None => None,
            },
            sub_items: self.sub_items.deep_view(),
            filter: self.filter,
        }
    }
}

impl App {
    /// The internal well-formedness of the engine: the store invariant,
    /// display closure, and a selection that stays in bounds.
    #[verifier::type_invariant]
    spec fn inv(self) -> bool {
        &&& wf_tasks(self.items.deep_view())
        &&& display_closed(self.items.deep_view())
        &&& match self.selected {
            Some(i) => i < self.items.len(),
            None => true,
        }
    }

    /// The invariant facts every caller may rely on.
    pub fn invariant_facts(&self)
        ensures
            wf_tasks(self@.tasks),
            display_closed(self@.tasks),
            match self@.selected {
                Some(i) => 0 <= i < self@.tasks.len(),
                None => true,
            },
    {
        proof {
            use_type_invariant(self);
        }
    }

    /// Builds the engine state from a parsed snapshot: a snapshot that is
    /// missing, or that violates the store invariant, is replaced by the
    /// seed store. The first record, if any, starts out selected; the
    /// sub-item cache starts empty and the filter shows everything.
    pub fn load(parsed: Option<Vec<Task>>) -> (app: App)
        ensures
            app@.tasks == (match parsed {
                Some(ts) => {
                    if wf_tasks(ts.deep_view()) && display_closed(ts.deep_view()) {
                        ts.deep_view()
                    } else {
                        seed_store()
                    }
                },
                None => seed_store(),
            }),
            app@.selected == (if app@.tasks.len() == 0 {
                Option::<int>::None
            } else {
                Option::<int>::Some(0)
            }),
            app@.sub_items == Seq::<TaskView>::empty(),
            app@.filter == Filter::All,
    {
        let items: Vec<Task> = match parsed {
            Some(ts) => {
                if wf_check(&ts) {
                    ts
                } else {
                    let mut seeded: Vec<Task> = Vec::new();
                    seeded.push(seed_task());
                    proof {
                        assert(seeded.deep_view() =~= seed_store());
                        lemma_seed_store_wf();
                    }
                    seeded
                }
            },
            None => {
                let mut seeded: Vec<Task> = Vec::new();
                seeded.push(seed_task());
                proof {
                    assert(seeded.deep_view() =~= seed_store());
                    lemma_seed_store_wf();
                }
                seeded
            },
        };
        let selected: Option<usize> = if items.len() > 0 {
            Some(0)
        } else {
            None
        };
        App { items, selected, sub_items: Vec::new(), filter: Filter::All }
    }

    /// The ordered store.
    pub fn items(&self) -> (r: &Vec<Task>)
        ensures
            r.deep_view() == self@.tasks,
    {
        &self.items
    }

    /// The selected index, if any.
    pub fn selected(&self) -> (r: Option<usize>)
        ensures
            r == (match self@.selected {
                Some(i) => Some(i as usize),
                None => Option::<usize>::None,
            }),
            match self@.selected {
                Some(i) => 0 <= i < self@.tasks.len(),
                None => true,
            },
    {
        proof {
            use_type_invariant(self);
        }
        self.selected
    }

    /// The cached sub-items of the current selection.
    pub fn sub_items(&self) -> (r: &Vec<Task>)
        ensures
            r.deep_view() == self@.sub_items,
    {
        &self.sub_items
    }

    /// The active filter.
    pub fn filter(&self) -> (r: Filter)
        ensures
            r == self@.filter,
    {
        self.filter
    }

    /// Refreshes the cached sub-items from the record at the given index;
    /// with no index, the cache is left as it was.
    fn get_child_list(&mut self, some_item: Option<usize>)
        requires
            match some_item {
                Some(i) => i < old(self)@.tasks.len(),
                None => true,
            },
        ensures
            final(self)@ == (AppView {
                sub_items: match some_item {
                    Some(i) => children_of(
                        old(self)@.tasks,
                        old(self)@.tasks[i as int].child_list,
                    ),
                    None => old(self)@.sub_items,
                },
                ..old(self)@
            }),
    {
        proof {
            use_type_invariant(&*self);
        }
        match some_item {
            Some(i) => {
                let cl = clone_ids(&self.items[i].child_list);
                let subs = children_of_exec(&self.items, &cl);
                self.sub_items = subs;
            },
            None => (),
        }
    }

    /// Advances the selection, wrapping past the end to the first record,
    /// or to none when the store is empty, and refreshes the sub-item
    /// cache for the new selection.
    pub fn next(&mut self)
        ensures
            final(self)@ == (AppView {
                selected: next_sel_spec(old(self)@.selected, old(self)@.tasks.len() as int),
                sub_items: match next_sel_spec(
                    old(self)@.selected,
                    old(self)@.tasks.len() as int,
                ) {
                    Some(i) => children_of(
                        old(self)@.tasks,
                        old(self)@.tasks[i].child_list,
                    ),
                    None => old(self)@.sub_items,
                },
                ..old(self)@
            }),
    {
        proof {
            use_type_invariant(&*self);
        }
        let i: Option<usize> = match self.selected {
            Some(i) => {
                if self.items.len() > 0 && i >= self.items.len() - 1 {
                    Some(0)
                } else {
                    Some(i + 1)
                }
            },
            None => {
                if self.items.len() != 0 {
                    Some(0)
                } else {
                    None
                }
            },
        };
        if self.items.len() > 0 {
            self.get_child_list(i);
            self.selected = i;
        } else {
            self.selected = None;
        }
    }

    /// Moves the selection back, wrapping past the first record to the
    /// last, or to none when the store is empty, and refreshes the
    /// sub-item cache for the new selection.
    pub fn previous(&mut self)
        ensures
            final(self)@ == (AppView {
                selected: prev_sel_spec(old(self)@.selected, old(self)@.tasks.len() as int),
                sub_items: match prev_sel_spec(
                    old(self)@.selected,
                    old(self)@.tasks.len() as int,
                ) {
                    Some(i) => children_of(
                        old(self)@.tasks,
                        old(self)@.tasks[i].child_list,
                    ),
                    None => old(self)@.sub_items,
                },
                ..old(self)@
            }),
    {
        proof {
            use_type_invariant(&*self);
        }
        let i: Option<usize> = match self.selected {
            Some(i) => {
                if i == 0 {
                    Some(self.items.len() - 1)
                } else {
                    Some(i - 1)
                }
            },
            None => {
                if self.items.len() != 0 {
                    Some(0)
                } else {
                    None
                }
            },
        };
        self.get_child_list(i);
        self.selected = i;
    }

    /// Toggles the status of the selected record at an explicitly given
    /// time, deciding the Hold branch from the cached sub-item view. With
    /// no selection, nothing changes.
    pub fn change_status_at(&mut self, now: i64)
        ensures
            final(self)@ == (match old(self)@.selected {
                Some(i) => (AppView {
                    tasks: old(self)@.tasks.update(
                        i,
                        change_status_spec(
                            old(self)@.tasks[i],
                            all_done(old(self)@.sub_items),
                            now as int,
                        ),
                    ),
                    ..old(self)@
                }),
                None => old(self)@,
            }),
    {
        proof {
            use_type_invariant(&*self);
        }
        match self.selected {
            Some(i) => {
                let subs_done = all_done_exec(&self.sub_items);
                let mut t = self.items[i].clone();
                t.change_status_at(subs_done, now);
                let new_items = set_task(&self.items, i, t);
                proof {
                    let s = self.items.deep_view();
                    let s2 = new_items.deep_view();
                    assert forall|k: int| 0 <= k < s.len() implies same_links(s[k], s2[k])
                        && s[k].display == s2[k].display by {}
                    lemma_same_links_wf(s, s2);
                    lemma_same_links_closed(s, s2);
                }
                self.items = new_items;
            },
            None => (),
        }
    }

    /// Toggles the status of the selected record at the current clock
    /// reading.
    pub fn change_status(&mut self)
        ensures
            old(self)@.selected is None ==> final(self)@ == old(self)@,
            match old(self)@.selected {
                Some(i) => exists|now: int|
                    0 <= now && final(self)@ == (AppView {
                        tasks: old(self)@.tasks.update(
                            i,
                            #[trigger] change_status_spec(
                                old(self)@.tasks[i],
                                all_done(old(self)@.sub_items),
                                now,
                            ),
                        ),
                        ..old(self)@
                    }),
                None => true,
            },
    {
        let now = current_timestamp();
        self.change_status_at(now);
    }

    /// Removes the last comment of the selected record, if it has any.
    /// With no selection, nothing changes.
    pub fn delete_comment(&mut self)
        ensures
            final(self)@ == (match old(self)@.selected {
                Some(i) => (AppView {
                    tasks: old(self)@.tasks.update(
                        i,
                        drop_last_comment(old(self)@.tasks[i]),
                    ),
                    ..old(self)@
                }),
                None => old(self)@,
            }),
    {
        proof {
            use_type_invariant(&*self);
        }
        match self.selected {
            Some(i) => {
                let mut t = self.items[i].clone();
                let ghost tv = t@;
                let _last = t.comments.pop();
                proof {
                    if tv.comments.len() > 0 {
                        assert(t.comments.deep_view() =~= tv.comments.drop_last());
                    } else {
                        assert(t.comments.deep_view() =~= tv.comments);
                    }
                    assert(t@ =~= drop_last_comment(tv));
                }
                let new_items = set_task(&self.items, i, t);
                proof {
                    let s = self.items.deep_view();
                    let s2 = new_items.deep_view();
                    assert forall|k: int| 0 <= k < s.len() implies same_links(s[k], s2[k])
                        && s[k].display == s2[k].display by {}
                    lemma_same_links_wf(s, s2);
                    lemma_same_links_closed(s, s2);
                }
                self.items = new_items;
            },
            None => (),
        }
    }

    /// Appends a comment to the selected record, dated at an explicitly
    /// given time. With no selection, nothing changes.
    pub fn comment_add_at(&mut self, text: String, now: i64)
        ensures
            final(self)@ == (match old(self)@.selected {
                Some(i) => (AppView {
                    tasks: old(self)@.tasks.update(
                        i,
                        with_comment(old(self)@.tasks[i], text@, now as int),
                    ),
                    ..old(self)@
                }),
                None => old(self)@,
            }),
    {
        proof {
            use_type_invariant(&*self);
        }
        match self.selected {
            Some(i) => {
                let mut t = self.items[i].clone();
                t.create_comment_at(text, now);
                proof {
                    assert(t@ =~= with_comment(
                        self.items.deep_view()[i as int],
                        text@,
                        now as int,
                    ));
                }
                let new_items = set_task(&self.items, i, t);
                proof {
                    let s = self.items.deep_view();
                    let s2 = new_items.deep_view();
                    assert forall|k: int| 0 <= k < s.len() implies same_links(s[k], s2[k])
                        && s[k].display == s2[k].display by {}
                    lemma_same_links_wf(s, s2);
                    lemma_same_links_closed(s, s2);
                }
                self.items = new_items;
            },
            None => (),
        }
    }

    /// Appends a comment to the selected record, dated with the current
    /// clock reading.
    pub fn comment_add(&mut self, text: String)
        ensures
            old(self)@.selected is None ==> final(self)@ == old(self)@,
            match old(self)@.selected {
                Some(i) => exists|now: int|
                    0 <= now && final(self)@ == (AppView {
                        tasks: old(self)@.tasks.update(
                            i,
                            #[trigger] with_comment(old(self)@.tasks[i], text@, now),
                        ),
                        ..old(self)@
                    }),
                None => true,
            },
    {
        let now = current_timestamp();
        self.comment_add_at(text, now);
    }

    /// Replaces the last comment of the selected record: the previous last
    /// entry is removed and the new text is appended, dated at the given
    /// time. With no selection, nothing changes.
    pub fn comment_edit_last_at(&mut self, text: String, now: i64)
        ensures
            final(self)@ == (match old(self)@.selected {
                Some(i) => (AppView {
                    tasks: old(self)@.tasks.update(
                        i,
                        with_comment(drop_last_comment(old(self)@.tasks[i]), text@, now as int),
                    ),
                    ..old(self)@
                }),
                None => old(self)@,
            }),
    {
        proof {
            use_type_invariant(&*self);
        }
        let ghost pre = self@;
        self.delete_comment();
        self.comment_add_at(text, now);
        proof {
            match pre.selected {
                Some(i) => {
                    assert(final(self)@.tasks =~= pre.tasks.update(
                        i,
                        with_comment(drop_last_comment(pre.tasks[i]), text@, now as int),
                    ));
                },
                None => {},
            }
        }
    }

    /// The topic, name, description and sub-task flag of the selected
    /// record, for populating an edit form.
    pub fn edit(&mut self) -> (r: Option<(String, String, String, bool)>)
        ensures
            final(self)@ == old(self)@,
            match old(self)@.selected {
                Some(i) => match r {
                    Some(t) => t.0@ == old(self)@.tasks[i].topic && t.1@
                        == old(self)@.tasks[i].name && t.2@ == old(self)@.tasks[i].description
                        && t.3 == old(self)@.tasks[i].is_sub_task,
                    None => false,
                },
                None => r is None,
            },
    {
        proof {
            use_type_invariant(&*self);
        }
        match self.selected {
            Some(i) => Some(
                (
                    self.items[i].topic.clone(),
                    self.items[i].name.clone(),
                    self.items[i].description.clone(),
                    self.items[i].is_sub_task,
                ),
            ),
            None => None,
        }
    }

    /// The text of the selected record's last comment, if it has one.
    pub fn edit_last_comment(&mut self) -> (r: Option<String>)
        ensures
            final(self)@ == old(self)@,
            match old(self)@.selected {
                Some(i) => match r {
                    Some(s) => old(self)@.tasks[i].comments.len() > 0 && s@
                        == old(self)@.tasks[i].comments.last().text,
                    None => old(self)@.tasks[i].comments.len() == 0,
                },
                None => r is None,
            },
    {
        proof {
            use_type_invariant(&*self);
        }
        match self.selected {
            Some(i) => {
                let comments = &self.items[i].comments;
                if comments.len() > 0 {
                    Some(comments[comments.len() - 1].text.clone())
                } else {
                    None
                }
            },
            None => None,
        }
    }

    /// Recomputes every display flag for the selected filter, in two
    /// whole-store passes: first each record's own status against the
    /// filter, then each parent lit up by any displayed child.
    pub fn filter_items(&mut self, new_filter: Filter)
        ensures
            final(self)@ == (AppView {
                tasks: filter_spec(old(self)@.tasks, new_filter),
                filter: new_filter,
                ..old(self)@
            }),
    {
        proof {
            use_type_invariant(&*self);
        }
        let new_items = apply_filter(&self.items, new_filter);
        proof {
            let s = self.items.deep_view();
            let s2 = new_items.deep_view();
            let s1 = crate::filter::pass1(s, new_filter);
            assert forall|k: int| 0 <= k < s.len() implies same_links(#[trigger] s[k], s2[k]) by {
                assert(s1[k] == (TaskView {
                    display: crate::filter::matches_filter(s[k].status, new_filter),
                    ..s[k]
                }));
            }
            lemma_same_links_wf(s, s2);
            lemma_filter_closed(s, new_filter);
            assert(new_items@.len() == s2.len());
            assert(self.items@.len() == s.len());
        }
        self.items = new_items;
        self.filter = new_filter;
    }

    /// The branch-glyph codes of the currently displayed rows, in row
    /// order, for the rendering layer.
    pub fn tree_codes(&self) -> (codes: Vec<usize>)
        ensures
            crate::classify::seq_usize_view(codes@) == crate::classify::codes_spec(
                self@.tasks,
                self@.tasks.len() as int,
            ),
    {
        proof {
            use_type_invariant(self);
        }
        crate::classify::tree_codes(&self.items)
    }

    /// The index of the record carrying the given id, by linear scan.
    pub fn index_by_id(&self, id: i64) -> (r: Option<usize>)
        ensures
            match r {
                Some(i) => 0 <= i < self@.tasks.len() && self@.tasks[i as int].id == id as int
                    && (forall|k: int| 0 <= k < i ==> (#[trigger] self@.tasks[k]).id != id as int),
                None => !id_present(self@.tasks, id as int),
            },
    {
        let ghost s = self@.tasks;
        let mut i: usize = 0;
        while i < self.items.len()
            invariant
                i <= self.items.len(),
                s == self.items.deep_view(),
                s == self@.tasks,
                forall|k: int| 0 <= k < i ==> (#[trigger] s[k]).id != id as int,
            decreases self.items.len() - i,
        {
            if self.items[i].id == id {
                proof {
                    assert(s[i as int].id == id as int);
                }
                return Some(i);
            }
            i = i + 1;
        }
        None
    }

    /// Appends a new root record at the end of the ordered store, creation
    /// time `now`. The record's id is `now` unless that id is taken, in
    /// which case a free id replaces it. An empty name is rejected as a
    /// no-op, as is a store that has run out of ids.
    pub fn create_root_at(&mut self, topic: String, name: String, description: String, now: i64)
        ensures
            name@.len() == 0 || old(self)@.tasks.len() >= i64::MAX ==> final(self)@ == old(
                self,
            )@,
            name@.len() > 0 && old(self)@.tasks.len() < i64::MAX ==> exists|id: int|
                {
                    &&& !id_present(old(self)@.tasks, id)
                    &&& (!id_present(old(self)@.tasks, now as int) ==> id == now as int)
                    &&& final(self)@ == (AppView {
                        tasks: old(self)@.tasks.push(
                            #[trigger] root_task_view(topic@, name@, description@, now as int, id),
                        ),
                        ..old(self)@
                    })
                },
    {
        proof {
            use_type_invariant(&*self);
        }
        if name.as_str().is_empty() {
            return ;
        }
        if self.items.len() as u64 >= i64::MAX as u64 {
            return ;
        }
        let ghost topic_v = topic@;
        let ghost name_v = name@;
        let ghost description_v = description@;
        let mut task = Task::create_at(Some(topic), name, Some(description), None, None, now);
        let id = fresh_id(&self.items, task.id);
        task.id = id;
        let mut new_items = clone_tasks(&self.items);
        let ghost s = self.items.deep_view();
        new_items.push(task);
        proof {
            assert(task@ =~= root_task_view(topic_v, name_v, description_v, now as int, id as int));
            assert(new_items.deep_view() =~= s.push(task@));
            lemma_push_root_wf(s, task@);
        }
        self.items = new_items;
    }

    /// Appends a new root record timestamped with the current clock
    /// reading.
    pub fn create_root(&mut self, topic: String, name: String, description: String)
        ensures
            name@.len() == 0 || old(self)@.tasks.len() >= i64::MAX ==> final(self)@ == old(
                self,
            )@,
            name@.len() > 0 && old(self)@.tasks.len() < i64::MAX ==> exists|id: int, now: int|
                {
                    &&& 0 <= now
                    &&& !id_present(old(self)@.tasks, id)
                    &&& (!id_present(old(self)@.tasks, now) ==> id == now)
                    &&& final(self)@ == (AppView {
                        tasks: old(self)@.tasks.push(
                            #[trigger] root_task_view(topic@, name@, description@, now, id),
                        ),
                        ..old(self)@
                    })
                },
    {
        let now = current_timestamp();
        self.create_root_at(topic, name, description, now);
    }

    /// Inserts a new sub-task under the effective parent of the selection
    /// at creation time `now`: a selected sub-task defers to its root, so
    /// nesting stays at one level. The record lands right after the
    /// parent's existing children, carries the parent's topic, and is
    /// listed at the end of the parent's child list; the parent becomes
    /// displayed so the new visible row never renders orphaned. An empty
    /// name, an empty selection, or a store that has run out of ids is a
    /// no-op.
    pub fn create_subtask_at(&mut self, name: String, description: String, now: i64)
        ensures
            name@.len() == 0 || old(self)@.selected is None || old(self)@.tasks.len()
                >= i64::MAX ==> final(self)@ == old(self)@,
            old(self)@.selected is Some && name@.len() > 0 && old(self)@.tasks.len() < i64::MAX
                ==> exists|id: int|
                {
                    &&& !id_present(old(self)@.tasks, id)
                    &&& (!id_present(old(self)@.tasks, now as int) ==> id == now as int)
                    &&& final(self)@ == (AppView {
                        tasks: insert_subtask_spec(
                            old(self)@.tasks,
                            effective_parent(old(self)@.tasks, old(self)@.selected->0),
                            #[trigger] subtask_view(
                                old(self)@.tasks[effective_parent(
                                    old(self)@.tasks,
                                    old(self)@.selected->0,
                                )],
                                name@,
                                description@,
                                now as int,
                                id,
                            ),
                        ),
                        ..old(self)@
                    })
                },
    {
        proof {
            use_type_invariant(&*self);
        }
        if name.as_str().is_empty() {
            return ;
        }
        if self.items.len() as u64 >= i64::MAX as u64 {
            return ;
        }
        let s_idx = match self.selected {
            Some(i) => i,
            None => {
                return ;
            },
        };
        let ghost s = self.items.deep_view();
        let p = match self.items[s_idx].parent_id {
            Some(pid) => {
                match self.index_by_id(pid) {
                    Some(pi) => pi,
                    None => s_idx,
                }
            },
            None => s_idx,
        };
        proof {
            lemma_effective_parent_is_root(s, s_idx as int);
            match s[s_idx as int].parent_id {
                Some(pid) => {
                    if id_present(s, pid) {
                        let j = index_of_id(s, pid);
                        assert(0 <= j < s.len() && s[j].id == pid);
                        if p as int != j {
                            assert(s[p as int].id != s[j].id);
                        }
                    }
                },
                None => {},
            }
            assert(p as int == effective_parent(s, s_idx as int));
            assert(root_ok(s, p as int));
        }
        let ghost name_v = name@;
        let ghost desc_v = description@;
        let mut child = Task::create_at(None, name, Some(description), None, None, now);
        let id = fresh_id(&self.items, child.id);
        child.id = id;
        child.topic = self.items[p].topic.clone();
        child.is_sub_task = true;
        child.parent_id = Some(self.items[p].id);
        let mut parent = self.items[p].clone();
        parent.child_list.push(id);
        parent.display = true;
        let m = self.items[p].child_list.len();
        let with_parent = set_task(&self.items, p, parent);
        proof {
            assert(m == s[p as int].child_list.len());
            assert(p + m < s.len());
            assert(with_parent.deep_view().len() == s.len());
            assert(with_parent@.len() == with_parent.deep_view().len());
        }
        let new_items = insert_task(&with_parent, p + m + 1, child);
        proof {
            assert(child@ =~= subtask_view(s[p as int], name_v, desc_v, now as int, id as int));
            assert(seq_i64_view(parent.child_list@) =~= s[p as int].child_list.push(id as int));
            assert(parent@ =~= (TaskView {
                child_list: s[p as int].child_list.push(id as int),
                display: true,
                ..s[p as int]
            }));
            assert(new_items.deep_view() =~= insert_subtask_spec(s, p as int, child@));
            lemma_insert_subtask_wf(s, p as int, child@);
        }
        self.items = new_items;
        proof {
            let ep = effective_parent(s, s_idx as int);
            let sv = subtask_view(s[ep], name_v, desc_v, now as int, id as int);
            assert(child@ == sv);
            assert(self@ =~= (AppView { tasks: insert_subtask_spec(s, ep, sv), ..old(self)@ }));
            assert(ep == effective_parent(old(self)@.tasks, old(self)@.selected->0));
            assert(exists|idw: int|
                {
                    &&& !id_present(old(self)@.tasks, idw)
                    &&& (!id_present(old(self)@.tasks, now as int) ==> idw == now as int)
                    &&& self@ == (AppView {
                        tasks: insert_subtask_spec(
                            old(self)@.tasks,
                            effective_parent(old(self)@.tasks, old(self)@.selected->0),
                            #[trigger] subtask_view(
                                old(self)@.tasks[effective_parent(
                                    old(self)@.tasks,
                                    old(self)@.selected->0,
                                )],
                                name_v,
                                desc_v,
                                now as int,
                                idw,
                            ),
                        ),
                        ..old(self)@
                    })
                });
        }
    }

    /// Inserts a new sub-task under the effective parent of the selection,
    /// timestamped with the current clock reading.
    pub fn create_subtask(&mut self, name: String, description: String)
        ensures
            name@.len() == 0 || old(self)@.selected is None || old(self)@.tasks.len()
                >= i64::MAX ==> final(self)@ == old(self)@,
            match old(self)@.selected {
                Some(i) => name@.len() > 0 && old(self)@.tasks.len() < i64::MAX
                    ==> exists|id: int, now: int|
                    {
                        &&& 0 <= now
                        &&& !id_present(old(self)@.tasks, id)
                        &&& (!id_present(old(self)@.tasks, now) ==> id == now)
                        &&& final(self)@ == (AppView {
                            tasks: insert_subtask_spec(
                                old(self)@.tasks,
                                effective_parent(old(self)@.tasks, i),
                                #[trigger] subtask_view(
                                    old(self)@.tasks[effective_parent(old(self)@.tasks, i)],
                                    name@,
                                    description@,
                                    now,
                                    id,
                                ),
                            ),
                            ..old(self)@
                        })
                    },
                None => true,
            },
    {
        let now = current_timestamp();
        self.create_subtask_at(name, description, now);
    }

    /// Deletes the selected record. A sub-task leaves the store alone and
    /// its id leaves the parent's child list; a parent takes every record
    /// its child list names along; a childless root leaves alone. The
    /// selection then advances as a select-next over the shortened store.
    /// With no selection, nothing changes.
    pub fn delete(&mut self)
        ensures
            old(self)@.selected is None ==> final(self)@ == old(self)@,
            old(self)@.selected is Some ==> final(self)@ == delete_post(old(self)@),
    {
        proof {
            use_type_invariant(&*self);
        }
        let i = match self.selected {
            Some(i) => i,
            None => {
                return ;
            },
        };
        let ghost s = self.items.deep_view();
        let new_items: Vec<Task>;
        if self.items[i].is_sub_task {
            proof {
                lemma_delete_sub_wf(s, i as int);
            }
            let pid = match self.items[i].parent_id {
                Some(p) => p,
                None => {
                    proof {
                        assert(false);
                    }
                    vstd::pervasive::unreached()
                },
            };
            let p = match self.index_by_id(pid) {
                Some(p) => p,
                None => {
                    proof {
                        assert(id_present(s, pid as int));
                        assert(false);
                    }
                    vstd::pervasive::unreached()
                },
            };
            proof {
                let pg = index_of_id(s, pid as int);
                assert(0 <= pg < s.len() && s[pg].id == pid as int);
                if p as int != pg {
                    assert(s[p as int].id != s[pg].id);
                }
                assert(p as int == pg);
            }
            let mut parent = self.items[p].clone();
            let tid = self.items[i].id;
            parent.child_list = strip_id(&parent.child_list, tid);
            let with_parent = set_task(&self.items, p, parent);
            proof {
                assert(with_parent@.len() == with_parent.deep_view().len());
            }
            new_items = remove_task(&with_parent, i);
            proof {
                assert(new_items.deep_view() =~= delete_sub_spec(s, i as int));
            }
        } else if self.items[i].child_list.len() > 0 {
            let tid = self.items[i].id;
            let cl = clone_ids(&self.items[i].child_list);
            new_items = delete_parent_exec(&self.items, tid, &cl);
            proof {
                lemma_block_membership(s, i as int);
                let m = s[i as int].child_list.len() as int;
                lemma_kept_is_cut(s, tid as int, seq_i64_view(cl@), i as int, i as int + m + 1);
                lemma_remove_block_wf(s, i as int);
                assert(new_items.deep_view() == delete_spec(s, i as int));
            }
        } else {
            new_items = remove_task(&self.items, i);
            proof {
                lemma_remove_block_wf(s, i as int);
                let m = s[i as int].child_list.len() as int;
                assert(m == 0);
                assert(s.remove(i as int) =~= s.subrange(0, i as int) + s.subrange(
                    i as int + 1,
                    s.len() as int,
                ));
                assert(new_items.deep_view() == delete_spec(s, i as int));
            }
        }
        self.selected = None;
        self.items = new_items;
        let nlen = self.items.len();
        let k: Option<usize> = if nlen > 0 {
            if i >= nlen - 1 {
                Some(0)
            } else {
                Some(i + 1)
            }
        } else {
            None
        };
        proof {
            assert(k == (match next_sel_spec(Some(i as int), nlen as int) {
                Some(kk) => Some(kk as usize),
                None => Option::<usize>::None,
            }));
        }
        self.get_child_list(k);
        self.selected = k;
        proof {
            assert(self@ =~= delete_post(old(self)@));
        }
    }

    /// Replaces the topic, name and description of the selected record,
    /// carrying everything else forward. An empty name or an empty
    /// selection is a no-op.
    pub fn modify(&mut self, topic: String, name: String, description: String)
        ensures
            final(self)@ == (match old(self)@.selected {
                Some(i) => {
                    if name@.len() > 0 {
                        AppView {
                            tasks: old(self)@.tasks.update(
                                i,
                                (TaskView {
                                    topic: topic@,
                                    name: name@,
                                    description: description@,
                                    ..old(self)@.tasks[i]
                                }),
                            ),
                            ..old(self)@
                        }
                    } else {
                        old(self)@
                    }
                },
                None => old(self)@,
            }),
    {
        proof {
            use_type_invariant(&*self);
        }
        if name.as_str().is_empty() {
            return ;
        }
        match self.selected {
            Some(i) => {
                let mut t = self.items[i].clone();
                t.topic = topic;
                t.name = name;
                t.description = description;
                let new_items = set_task(&self.items, i, t);
                proof {
                    let s = self.items.deep_view();
                    let s2 = new_items.deep_view();
                    assert forall|k: int| 0 <= k < s.len() implies same_links(s[k], s2[k])
                        && s[k].display == s2[k].display by {}
                    lemma_same_links_wf(s, s2);
                    lemma_same_links_closed(s, s2);
                }
                self.items = new_items;
            },
            None => (),
        }
    }
}

} // verus!
