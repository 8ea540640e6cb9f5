//! The tree position classifier: derives, once per render pass, the
//! branch-glyph code of every displayed row — 0 for a root, 1 for a
//! middle sibling, 2 for the last displayed sibling of its block — by a
//! single scan with a running counter, never mutating stored state.

use vstd::prelude::*;

use crate::store::{
    child_displayed, child_link_ok, display_closed, root_covers, root_ok, sub_ok, unique_ids,
    wf_tasks,
};
use crate::task::{seq_i64_view, Task, TaskView};

verus! {

/// A sequence of machine word counts, viewed mathematically.
pub open spec fn seq_usize_view(s: Seq<usize>) -> Seq<int> {
    s.map_values(|x: usize| x as int)
}

/// The number of displayed records at indices `lo ..< hi`.
pub open spec fn disp_count(s: Seq<TaskView>, lo: int, hi: int) -> int
    decreases hi - lo,
{
    if lo >= hi {
        0
    } else {
        disp_count(s, lo, hi - 1) + if s[hi - 1].display {
            1int
        } else {
            0int
        }
    }
}

/// A displayed-record count is never negative and never exceeds the range.
pub proof fn lemma_disp_bounds(s: Seq<TaskView>, lo: int, hi: int)
    ensures
        0 <= disp_count(s, lo, hi),
        lo <= hi ==> disp_count(s, lo, hi) <= hi - lo,
    decreases hi - lo,
{
    if lo < hi {
        lemma_disp_bounds(s, lo, hi - 1);
    }
}

/// Displayed-record counts add up over adjacent ranges.
pub proof fn lemma_disp_split(s: Seq<TaskView>, lo: int, mid: int, hi: int)
    requires
        lo <= mid <= hi,
    ensures
        disp_count(s, lo, hi) == disp_count(s, lo, mid) + disp_count(s, mid, hi),
    decreases hi - mid,
{
    if mid < hi {
        lemma_disp_split(s, lo, mid, hi - 1);
    }
}

/// A range with no displayed record counts zero.
pub proof fn lemma_disp_zero(s: Seq<TaskView>, lo: int, hi: int)
    requires
        forall|k: int| lo <= k < hi ==> !(#[trigger] s[k]).display,
    ensures
        disp_count(s, lo, hi) == 0,
    decreases hi - lo,
{
    if lo < hi {
        lemma_disp_zero(s, lo, hi - 1);
    }
}

/// The root that owns the row at `i`: the nearest non-sub-task at or
/// before it.
pub open spec fn root_of(s: Seq<TaskView>, i: int) -> int
    decreases i,
{
    if i <= 0 {
        0
    } else if !s[i].is_sub_task {
        i
    } else {
        root_of(s, i - 1)
    }
}

/// Inside a root's block, the owning root is that root.
pub proof fn lemma_root_of_covers(s: Seq<TaskView>, q: int, i: int)
    requires
        wf_tasks(s),
        0 <= q < s.len(),
        !s[q].is_sub_task,
        root_covers(s, q, i),
        i < s.len(),
    ensures
        root_of(s, i) == q,
    decreases i,
{
    assert(root_ok(s, q));
    assert(child_link_ok(s, q, i - q - 1));
    assert(s[i].is_sub_task);
    assert(i > 0);
    assert(root_of(s, i) == root_of(s, i - 1));
    if i - 1 == q {
        assert(root_of(s, q) == q);
    } else {
        lemma_root_of_covers(s, q, i - 1);
    }
}

/// The number of displayed records carrying the given id.
pub open spec fn count_id_disp(s: Seq<TaskView>, id: int) -> int
    decreases s.len(),
{
    if s.len() == 0 {
        0
    } else {
        count_id_disp(s.drop_last(), id) + if s.last().display && s.last().id == id {
            1int
        } else {
            0int
        }
    }
}

/// An id that no record carries counts zero displayed records.
proof fn lemma_count_id_zero(s: Seq<TaskView>, id: int)
    requires
        forall|k: int| 0 <= k < s.len() ==> (#[trigger] s[k]).id != id,
    ensures
        count_id_disp(s, id) == 0,
    decreases s.len(),
{
    if s.len() > 0 {
        lemma_count_id_zero(s.drop_last(), id);
    }
}

/// An id carried by exactly the record at `k0` counts that record's
/// display alone.
proof fn lemma_count_id_at(s: Seq<TaskView>, id: int, k0: int)
    requires
        0 <= k0 < s.len(),
        s[k0].id == id,
        forall|k: int| 0 <= k < s.len() && k != k0 ==> (#[trigger] s[k]).id != id,
    ensures
        count_id_disp(s, id) == (if s[k0].display {
            1int
        } else {
            0int
        }),
    decreases s.len(),
{
    let n = s.len() - 1;
    if k0 == n {
        lemma_count_id_zero(s.drop_last(), id);
    } else {
        lemma_count_id_at(s.drop_last(), id, k0);
    }
}

/// The sum, over a child list, of the displayed records carrying each
/// listed id.
pub open spec fn disp_matches(s: Seq<TaskView>, cl: Seq<int>) -> int
    decreases cl.len(),
{
    if cl.len() == 0 {
        0
    } else {
        disp_matches(s, cl.drop_last()) + count_id_disp(s, cl.last())
    }
}

/// Over a root's child list, the id-based count equals the number of
/// displayed records in the root's block.
proof fn lemma_disp_matches_prefix(s: Seq<TaskView>, p: int, j: int)
    requires
        wf_tasks(s),
        0 <= p < s.len(),
        !s[p].is_sub_task,
        0 <= j <= s[p].child_list.len(),
    ensures
        disp_matches(s, s[p].child_list.take(j)) == disp_count(s, p + 1, p + 1 + j),
    decreases j,
{
    assert(root_ok(s, p));
    if j == 0 {
    } else {
        lemma_disp_matches_prefix(s, p, j - 1);
        let cl = s[p].child_list;
        assert(cl.take(j).drop_last() =~= cl.take(j - 1));
        assert(cl.take(j).last() == cl[j - 1]);
        let k0 = p + j;
        assert(child_link_ok(s, p, j - 1));
        assert(s[k0].id == cl[j - 1]);
        assert forall|k: int| 0 <= k < s.len() && k != k0 implies (#[trigger] s[k]).id != cl[j
            - 1] by {
            if s[k].id == cl[j - 1] {
                assert(s[k].id == s[k0].id);
                assert(false);
            }
        }
        lemma_count_id_at(s, cl[j - 1], k0);
    }
}

/// Over a root's whole child list, the id-based count equals the number
/// of displayed children in the root's block.
pub proof fn lemma_disp_matches_block(s: Seq<TaskView>, p: int)
    requires
        wf_tasks(s),
        0 <= p < s.len(),
        !s[p].is_sub_task,
    ensures
        disp_matches(s, s[p].child_list) == disp_count(
            s,
            p + 1,
            p + s[p].child_list.len() + 1,
        ),
{
    let m = s[p].child_list.len() as int;
    lemma_disp_matches_prefix(s, p, m);
    assert(s[p].child_list.take(m) =~= s[p].child_list);
}

/// The branch-glyph code of the displayed row at `i`: 0 for a root, 2 for
/// the last displayed child of its root's block, 1 for a child with a
/// displayed sibling after it.
pub open spec fn row_code(s: Seq<TaskView>, i: int) -> int {
    if !s[i].is_sub_task {
        0
    } else {
        let p = root_of(s, i);
        if disp_count(s, i + 1, p + s[p].child_list.len() + 1) == 0 {
            2
        } else {
            1
        }
    }
}

/// The codes of the displayed rows among the first `n` records, in row
/// order.
pub open spec fn codes_spec(s: Seq<TaskView>, n: int) -> Seq<int>
    decreases n,
{
    if n <= 0 {
        Seq::empty()
    } else {
        codes_spec(s, n - 1) + (if s[n - 1].display {
            seq![row_code(s, n - 1)]
        } else {
            Seq::empty()
        })
    }
}

/// One code per displayed row.
pub proof fn lemma_codes_len(s: Seq<TaskView>, n: int)
    requires
        0 <= n,
    ensures
        codes_spec(s, n).len() == disp_count(s, 0, n),
    decreases n,
{
    if n > 0 {
        lemma_codes_len(s, n - 1);
    }
}

/// A shorter scan's codes are a prefix of a longer one's.
proof fn lemma_codes_prefix(s: Seq<TaskView>, n1: int, n2: int)
    requires
        0 <= n1 <= n2,
    ensures
        codes_spec(s, n1) == codes_spec(s, n2).subrange(0, codes_spec(s, n1).len() as int),
    decreases n2 - n1,
{
    if n1 == n2 {
        assert(codes_spec(s, n1) =~= codes_spec(s, n2).subrange(
            0,
            codes_spec(s, n1).len() as int,
        ));
    } else {
        lemma_codes_prefix(s, n1, n2 - 1);
        lemma_codes_len(s, n1);
        lemma_codes_len(s, n2 - 1);
        lemma_disp_split(s, 0, n1, n2 - 1);
        lemma_disp_bounds(s, n1, n2 - 1);
        assert(codes_spec(s, n1).len() <= codes_spec(s, n2 - 1).len());
        assert(codes_spec(s, n1) =~= codes_spec(s, n2).subrange(
            0,
            codes_spec(s, n1).len() as int,
        ));
    }
}

/// The number of displayed records whose id the child list names — under
/// unique ids, at most one per listed id.
fn display_child_list(c: &Vec<i64>, items: &Vec<Task>) -> (r: usize)
    requires
        unique_ids(items.deep_view()),
    ensures
        r as int == disp_matches(items.deep_view(), seq_i64_view(c@)),
        r <= c@.len(),
{
    let ghost s = items.deep_view();
    let ghost clv = seq_i64_view(c@);
    let mut counter: usize = 0;
    let mut j: usize = 0;
    while j < c.len()
        invariant
            j <= c.len(),
            s == items.deep_view(),
            unique_ids(s),
            clv == seq_i64_view(c@),
            counter as int == disp_matches(s, clv.take(j as int)),
            counter <= j,
        decreases c.len() - j,
    {
        let cid = c[j];
        let mut cnt: usize = 0;
        let mut k: usize = 0;
        while k < items.len()
            invariant
                k <= items.len(),
                s == items.deep_view(),
                unique_ids(s),
                cnt as int == count_id_disp(s.take(k as int), cid as int),
                cnt <= k,
            decreases items.len() - k,
        {
            proof {
                assert(s.take(k as int + 1).drop_last() =~= s.take(k as int));
                assert(s.take(k as int + 1).last() == s[k as int]);
            }
            if items[k].display && items[k].id == cid {
                cnt = cnt + 1;
            }
            k = k + 1;
        }
        proof {
            assert(s.take(s.len() as int) =~= s);
            // under unique ids this inner count is at most one
            if cnt > 1 {
                lemma_count_le_one(s, cid as int);
            }
            assert(clv.take(j as int + 1).drop_last() =~= clv.take(j as int));
            assert(clv.take(j as int + 1).last() == clv[j as int]);
        }
        counter = counter + cnt;
        j = j + 1;
    }
    proof {
        assert(clv.take(clv.len() as int) =~= clv);
    }
    counter
}

/// Under unique ids, at most one displayed record carries a given id.
proof fn lemma_count_le_one(s: Seq<TaskView>, id: int)
    requires
        unique_ids(s),
    ensures
        count_id_disp(s, id) <= 1,
{
    if exists|k: int| 0 <= k < s.len() && (#[trigger] s[k]).id == id {
        let k0 = choose|k: int| 0 <= k < s.len() && (#[trigger] s[k]).id == id;
        assert forall|k: int| 0 <= k < s.len() && k != k0 implies (#[trigger] s[k]).id != id by {
            if s[k].id == id {
                assert(s[k].id == s[k0].id);
                assert(false);
            }
        }
        lemma_count_id_at(s, id, k0);
    } else {
        assert forall|k: int| 0 <= k < s.len() implies (#[trigger] s[k]).id != id by {}
        lemma_count_id_zero(s, id);
    }
}

/// Scans the displayed rows in store order and emits each row's
/// branch-glyph code, driving the running sibling counter the rendering
/// layer relies on.
pub fn tree_codes(items: &Vec<Task>) -> (codes: Vec<usize>)
    requires
        wf_tasks(items.deep_view()),
        display_closed(items.deep_view()),
    ensures
        seq_usize_view(codes@) == codes_spec(
            items.deep_view(),
            items.deep_view().len() as int,
        ),
{
    let ghost s = items.deep_view();
    let mut codes: Vec<usize> = Vec::new();
    let mut remaining: usize = 0;
    let ghost mut seen: bool = false;
    let ghost mut gp: int = 0;
    let ghost mut ld: int = 0;
    let ghost mut gc: int = 0;
    let mut idx: usize = 0;
    while idx < items.len()
        invariant
            wf_tasks(s),
            display_closed(s),
            s == items.deep_view(),
            0 <= idx <= items.len(),
            seq_usize_view(codes@) == codes_spec(s, idx as int),
            !seen ==> (forall|k: int| 0 <= k < idx ==> !(#[trigger] s[k]).display) && remaining
                == 0,
            seen ==> 0 <= gp <= ld < idx,
            seen ==> !s[gp].is_sub_task && s[gp].display && s[ld].display,
            seen ==> (ld == gp || root_covers(s, gp, ld)),
            seen ==> (forall|k: int| ld < k < idx ==> !(#[trigger] s[k]).display),
            seen ==> gc == disp_count(s, gp + 1, ld + 1),
            seen ==> ({
                let kk = disp_count(s, gp + 1, gp + s[gp].child_list.len() + 1);
                &&& 0 <= gc <= kk
                &&& remaining as int == (if kk > 0 && gc == kk {
                    0int
                } else {
                    kk + 1 - gc
                })
            }),
        decreases items.len() - idx,
    {
        let ghost prev_codes = codes@;
        if items[idx].display {
            if !items[idx].is_sub_task {
                let x = display_child_list(&items[idx].child_list, items);
                proof {
                    lemma_disp_matches_block(s, idx as int);
                    assert(root_ok(s, idx as int));
                    lemma_disp_bounds(
                        s,
                        idx as int + 1,
                        idx + s[idx as int].child_list.len() + 1,
                    );
                }
                remaining = x + 1;
                codes.push(0);
                proof {
                    assert(row_code(s, idx as int) == 0);
                    assert(seq_usize_view(codes@) =~= seq_usize_view(prev_codes).push(0));
                    assert(seq_usize_view(codes@) =~= codes_spec(s, idx as int + 1));
                    seen = true;
                    gp = idx as int;
                    ld = idx as int;
                    gc = 0;
                    lemma_disp_zero(s, gp + 1, ld + 1);
                }
            } else {
                proof {
                    assert(sub_ok(s, idx as int));
                    let q = choose|q: int| root_covers(s, q, idx as int);
                    assert(child_displayed(s, q, idx - q - 1));
                    assert(s[q].display);
                    if !seen {
                        assert(false);
                    }
                    // the displayed sub-task's root is the tracked root
                    if q > ld {
                        assert(!s[q].display);
                        assert(false);
                    }
                    assert(root_ok(s, q));
                    assert(root_ok(s, gp));
                    if q < gp {
                        assert(q < gp < idx as int);
                        if idx as int <= q + s[q].child_list.len() {
                            assert(child_link_ok(s, q, gp - q - 1));
                            assert(false);
                        }
                        assert(false);
                    }
                    if gp < q {
                        assert(gp < q <= ld);
                        if ld == gp {
                            assert(false);
                        }
                        assert(root_covers(s, gp, ld));
                        assert(child_link_ok(s, gp, q - gp - 1));
                        assert(false);
                    }
                    assert(q == gp);
                    assert(root_covers(s, gp, idx as int));
                    let m = s[gp].child_list.len() as int;
                    let kk = disp_count(s, gp + 1, gp + m + 1);
                    lemma_disp_zero(s, ld + 1, idx as int);
                    lemma_disp_split(s, gp + 1, ld + 1, idx as int);
                    lemma_disp_split(s, gp + 1, idx as int, idx as int + 1);
                    assert(disp_count(s, gp + 1, idx as int + 1) == gc + 1);
                    lemma_disp_split(s, gp + 1, idx as int + 1, gp + m + 1);
                    lemma_disp_bounds(s, idx as int + 1, gp + m + 1);
                    assert(kk >= gc + 1);
                    assert(remaining as int == kk + 1 - gc);
                }
                let x = display_child_list(&items[idx].child_list, items);
                proof {
                    assert(s[idx as int].child_list.len() == 0);
                    assert(seq_i64_view(items[idx as int].child_list@).len() == 0);
                    assert(x as int == 0);
                }
                remaining = remaining - (x + 1);
                proof {
                    lemma_root_of_covers(s, gp, idx as int);
                    let m = s[gp].child_list.len() as int;
                    let kk = disp_count(s, gp + 1, gp + m + 1);
                    assert(remaining as int == kk - gc);
                }
                if remaining == 1 {
                    codes.push(2);
                    remaining = 0;
                    proof {
                        let m = s[gp].child_list.len() as int;
                        let kk = disp_count(s, gp + 1, gp + m + 1);
                        assert(disp_count(s, idx as int + 1, gp + m + 1) == kk - gc - 1);
                        assert(row_code(s, idx as int) == 2);
                        assert(seq_usize_view(codes@) =~= seq_usize_view(prev_codes).push(2));
                        assert(seq_usize_view(codes@) =~= codes_spec(s, idx as int + 1));
                        ld = idx as int;
                        gc = gc + 1;
                        lemma_disp_split(s, gp + 1, idx as int, idx as int + 1);
                    }
                } else {
                    codes.push(1);
                    proof {
                        let m = s[gp].child_list.len() as int;
                        let kk = disp_count(s, gp + 1, gp + m + 1);
                        assert(disp_count(s, idx as int + 1, gp + m + 1) == kk - gc - 1);
                        assert(kk - gc - 1 >= 1);
                        assert(row_code(s, idx as int) == 1);
                        assert(seq_usize_view(codes@) =~= seq_usize_view(prev_codes).push(1));
                        assert(seq_usize_view(codes@) =~= codes_spec(s, idx as int + 1));
                        ld = idx as int;
                        gc = gc + 1;
                        lemma_disp_split(s, gp + 1, idx as int, idx as int + 1);
                    }
                }
            }
        } else {
            proof {
                assert(codes_spec(s, idx as int + 1) =~= codes_spec(s, idx as int));
            }
        }
        idx = idx + 1;
    }
    proof {
        assert(idx as int == s.len());
    }
    codes
}

/// For a displayed root with `k` displayed children (`k` at least one),
/// the classifier emits `0`, then `k - 1` middle-sibling codes, then one
/// last-sibling code, covering exactly that run of the output.
pub proof fn lemma_classifier_block(s: Seq<TaskView>, p: int)
    requires
        wf_tasks(s),
        display_closed(s),
        0 <= p < s.len(),
        !s[p].is_sub_task,
        s[p].display,
        disp_count(s, p + 1, p + s[p].child_list.len() + 1) >= 1,
    ensures
        ({
            let m = s[p].child_list.len() as int;
            let k = disp_count(s, p + 1, p + m + 1);
            let base = disp_count(s, 0, p);
            let codes = codes_spec(s, s.len() as int);
            &&& codes.len() == disp_count(s, 0, s.len() as int)
            &&& base + k + 1 <= codes.len()
            &&& codes.subrange(base, base + k + 1) == Seq::new(
                (k + 1) as nat,
                |t: int|
                    if t == 0 {
                        0int
                    } else if t < k {
                        1int
                    } else {
                        2int
                    },
            )
        }),
{
    let m = s[p].child_list.len() as int;
    let k = disp_count(s, p + 1, p + m + 1);
    let base = disp_count(s, 0, p);
    let n = s.len() as int;
    assert(root_ok(s, p));
    lemma_codes_len(s, n);
    lemma_codes_len(s, p);
    lemma_disp_bounds(s, 0, p);
    lemma_block_codes_walk(s, p, m);
    let walked = codes_spec(s, p + 1 + m);
    lemma_codes_len(s, p + 1 + m);
    lemma_disp_split(s, 0, p, p + 1);
    lemma_disp_split(s, 0, p + 1, p + 1 + m);
    assert(walked.len() == base + 1 + k);
    lemma_codes_prefix(s, p + 1 + m, n);
    lemma_disp_split(s, 0, p + 1 + m, n);
    lemma_disp_bounds(s, p + 1 + m, n);
    let codes = codes_spec(s, n);
    assert(base + k + 1 <= codes.len());
    assert forall|t: int| 0 <= t < k + 1 implies #[trigger] codes.subrange(base, base + k + 1)[t]
        == (if t == 0 {
        0int
    } else if t < k {
        1int
    } else {
        2int
    }) by {
        assert(codes[base + t] == walked[base + t]);
        assert(walked[base + t] == (codes_spec(s, p) + seq![0int] + Seq::new(
            k as nat,
            |u: int|
                if u + 1 == k {
                    2int
                } else {
                    1int
                },
        ))[base + t]);
    }
    assert(codes.subrange(base, base + k + 1) =~= Seq::new(
        (k + 1) as nat,
        |t: int|
            if t == 0 {
                0int
            } else if t < k {
                1int
            } else {
                2int
            },
    ));
}

/// Walking a displayed root's block emits `0` and then, per displayed
/// child in order, `1` until the last displayed child's `2`.
proof fn lemma_block_codes_walk(s: Seq<TaskView>, p: int, j: int)
    requires
        wf_tasks(s),
        0 <= p < s.len(),
        !s[p].is_sub_task,
        s[p].display,
        0 <= j <= s[p].child_list.len(),
    ensures
        codes_spec(s, p + 1 + j) == codes_spec(s, p) + seq![0int] + Seq::new(
            disp_count(s, p + 1, p + 1 + j) as nat,
            |u: int|
                if u + 1 == disp_count(s, p + 1, p + s[p].child_list.len() + 1) {
                    2int
                } else {
                    1int
                },
        ),
    decreases j,
{
    assert(root_ok(s, p));
    let m = s[p].child_list.len() as int;
    let k = disp_count(s, p + 1, p + m + 1);
    lemma_disp_bounds(s, p + 1, p + 1 + j);
    if j == 0 {
        assert(row_code(s, p) == 0);
        assert(codes_spec(s, p + 1) =~= codes_spec(s, p) + seq![0int] + Seq::new(
            0nat,
            |u: int|
                if u + 1 == k {
                    2int
                } else {
                    1int
                },
        ));
    } else {
        lemma_block_codes_walk(s, p, j - 1);
        let i = p + j;
        assert(child_link_ok(s, p, j - 1));
        assert(s[i].is_sub_task);
        let cj = disp_count(s, p + 1, i + 1);
        lemma_disp_split(s, p + 1, i, i + 1);
        if s[i].display {
            assert(root_covers(s, p, i));
            lemma_root_of_covers(s, p, i);
            lemma_disp_split(s, p + 1, i + 1, p + m + 1);
            lemma_disp_bounds(s, i + 1, p + m + 1);
            assert(row_code(s, i) == (if cj == k {
                2int
            } else {
                1int
            }));
            assert(codes_spec(s, p + 1 + j) == codes_spec(s, p + j) + seq![row_code(s, i)]);
            lemma_disp_bounds(s, p + 1, i);
            assert(cj == disp_count(s, p + 1, i) + 1);
            assert(Seq::new(
                cj as nat,
                |u: int|
                    if u + 1 == k {
                        2int
                    } else {
                        1int
                    },
            ) =~= Seq::new(
                disp_count(s, p + 1, i) as nat,
                |u: int|
                    if u + 1 == k {
                        2int
                    } else {
                        1int
                    },
            ).push(
                if cj == k {
                    2int
                } else {
                    1int
                },
            ));
            assert(codes_spec(s, p + 1 + j) =~= codes_spec(s, p) + seq![0int] + Seq::new(
                cj as nat,
                |u: int|
                    if u + 1 == k {
                        2int
                    } else {
                        1int
                    },
            ));
        } else {
            assert(codes_spec(s, p + 1 + j) =~= codes_spec(s, p) + seq![0int] + Seq::new(
                disp_count(s, p + 1, p + 1 + j) as nat,
                |u: int|
                    if u + 1 == k {
                        2int
                    } else {
                        1int
                    },
            ));
        }
    }
}

} // verus!
