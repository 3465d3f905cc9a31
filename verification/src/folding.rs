//! How the rows depend on the folded rows: changing whether one row `x` is
//! folded leaves every row before the first row `x` as it was, and that
//! row in its place; folding the same rows gives the same rows.
use vstd::prelude::*;
use crate::data::{ProjectView, TaskView};
use crate::ui::{
    AppStateView, TreeItemView, all_view_projects, rebuilt, toggled, other_than, flatten_project_spec, flatten_projects_spec, flatten_task_spec, flatten_tasks_spec,
    group_row_id, label_group_rows, label_groups_rows, other_rows, other_tasks, project_row_id,
    project_view_rows, project_view_tasks, shown_in_group, task_collapsible, task_row_id, with_label,
};

verus! {

/// `c1` and `c2` fold the same rows, except perhaps the row `x`.
pub open spec fn agree_except(c1: Seq<Seq<char>>, c2: Seq<Seq<char>>, x: Seq<char>) -> bool {
    forall|y: Seq<char>| y != x ==> (#[trigger] c1.contains(y) <==> c2.contains(y))
}

/// `c1` and `c2` fold the same rows.
pub open spec fn agree(c1: Seq<Seq<char>>, c2: Seq<Seq<char>>) -> bool {
    forall|y: Seq<char>| #[trigger] c1.contains(y) <==> c2.contains(y)
}

/// No row of `r` has the id `x`.
pub open spec fn no_row(r: Seq<TreeItemView>, x: Seq<char>) -> bool {
    forall|j: int| 0 <= j < r.len() ==> (#[trigger] r[j]).id != x
}

/// `r[k]` is the first row of `r` with the id `x`.
pub open spec fn first_row(r: Seq<TreeItemView>, x: Seq<char>, k: int) -> bool {
    0 <= k < r.len() && r[k].id == x && no_row(r.take(k), x)
}

/// Two rows that differ at most in whether they are unfolded.
pub open spec fn same_row(a: TreeItemView, b: TreeItemView) -> bool {
    a.id == b.id && a.depth == b.depth && a.kind == b.kind
}

/// `r2` keeps what `r1` shows before its first row `x`, and that row in
/// its place; when `r1` has no row `x`, `r2` is `r1`.
pub open spec fn kept(r1: Seq<TreeItemView>, r2: Seq<TreeItemView>, x: Seq<char>) -> bool {
    ||| no_row(r1, x) && r2 == r1
    ||| exists|k: int|
        #[trigger] first_row(r1, x, k) && k < r2.len() && r2.take(k) == r1.take(k) && same_row(r1[k], r2[k])
}

/// In `kept` rows, a row `i` of `r1` with the id `x` that no other row
/// of `r1` has keeps its place and all rows before it.
pub proof fn lemma_kept_unique(r1: Seq<TreeItemView>, r2: Seq<TreeItemView>, x: Seq<char>, i: int)
    requires
        kept(r1, r2, x),
        0 <= i < r1.len(),
        r1[i].id == x,
        forall|a: int, b: int| 0 <= a < b < r1.len() ==> r1[a].id != r1[b].id,
    ensures
        i < r2.len(),
        r2.take(i) == r1.take(i),
        same_row(r1[i], r2[i]),
{
    assert(!no_row(r1, x)) by {
        assert(r1[i].id == x);
    }
    let k = choose|k: int|
        #[trigger] first_row(r1, x, k) && k < r2.len() && r2.take(k) == r1.take(k) && same_row(r1[k], r2[k]);
    if k < i {
        assert(r1[k].id == r1[i].id);
    } else if k > i {
        assert(r1.take(k)[i] == r1[i]);
    }
}

proof fn lemma_kept_concat(
    a1: Seq<TreeItemView>,
    b1: Seq<TreeItemView>,
    a2: Seq<TreeItemView>,
    b2: Seq<TreeItemView>,
    x: Seq<char>,
)
    requires
        kept(a1, a2, x),
        no_row(a1, x) ==> kept(b1, b2, x),
    ensures
        kept(a1 + b1, a2 + b2, x),
{
    let r1 = a1 + b1;
    let r2 = a2 + b2;
    if no_row(a1, x) {
        assert(a2 == a1) by {
            if !(a2 == a1) {
                let k = choose|k: int|
                    #[trigger] first_row(a1, x, k) && k < a2.len() && a2.take(k) == a1.take(k) && same_row(a1[k], a2[k]);
                assert(a1[k].id == x);
            }
        }
        if no_row(b1, x) && b2 == b1 {
            assert forall|j: int| 0 <= j < r1.len() implies (#[trigger] r1[j]).id != x by {
                if j < a1.len() {
                    assert(r1[j] == a1[j]);
                } else {
                    assert(r1[j] == b1[j - a1.len()]);
                }
            }
        } else {
            let k = choose|k: int|
                #[trigger] first_row(b1, x, k) && k < b2.len() && b2.take(k) == b1.take(k) && same_row(b1[k], b2[k]);
            let kk = a1.len() + k;
            assert(r1.take(kk) =~= a1 + b1.take(k));
            assert(r2.take(kk) =~= a1 + b2.take(k));
            assert forall|j: int| 0 <= j < r1.take(kk).len() implies (#[trigger] r1.take(kk)[j]).id != x by {
                if j < a1.len() {
                    assert(r1.take(kk)[j] == a1[j]);
                } else {
                    assert(r1.take(kk)[j] == b1.take(k)[j - a1.len()]);
                }
            }
            assert(r1[kk] == b1[k]);
            assert(r2[kk] == b2[k]);
            assert(first_row(r1, x, kk));
        }
    } else {
        let k = choose|k: int|
            #[trigger] first_row(a1, x, k) && k < a2.len() && a2.take(k) == a1.take(k) && same_row(a1[k], a2[k]);
        assert(r1.take(k) =~= a1.take(k));
        assert(r2.take(k) =~= a2.take(k));
        assert(r1[k] == a1[k]);
        assert(r2[k] == a2[k]);
        assert(first_row(r1, x, k));
    }
}

/// A single row with the id `x` starts rows that are `kept`.
proof fn lemma_kept_first(row1: TreeItemView, row2: TreeItemView, t1: Seq<TreeItemView>, t2: Seq<TreeItemView>, x: Seq<char>)
    requires
        row1.id == x,
        same_row(row1, row2),
    ensures
        kept(seq![row1] + t1, seq![row2] + t2, x),
{
    let r1 = seq![row1] + t1;
    let r2 = seq![row2] + t2;
    assert(r1[0] == row1);
    assert(r2[0] == row2);
    assert(r1.take(0) =~= r2.take(0));
    assert(first_row(r1, x, 0));
}

proof fn lemma_kept_same(r: Seq<TreeItemView>, x: Seq<char>)
    requires
        no_row(r, x),
    ensures
        kept(r, r, x),
{
}

pub proof fn lemma_rows_task(t: TaskView, d: int, c1: Seq<Seq<char>>, c2: Seq<Seq<char>>, x: Seq<char>)
    requires
        agree_except(c1, c2, x),
    ensures
        kept(flatten_task_spec(t, d, c1), flatten_task_spec(t, d, c2), x),
        agree(c1, c2) ==> flatten_task_spec(t, d, c2) == flatten_task_spec(t, d, c1),
    decreases t,
{
    lemma_rows_tasks(t.children, d + 1, c1, c2, x);
    let id = task_row_id(t);
    let r1 = flatten_task_spec(t, d, c1);
    let r2 = flatten_task_spec(t, d, c2);
    if agree(c1, c2) {
        assert(c1.contains(id) == c2.contains(id));
    }
    if id == x {
        let row1 = r1[0];
        if r1.len() == 1 {
            assert(r1 =~= seq![row1] + Seq::<TreeItemView>::empty());
        } else {
            assert(r1 =~= seq![row1] + r1.drop_first());
        }
        if r2.len() == 1 {
            assert(r2 =~= seq![r2[0]] + Seq::<TreeItemView>::empty());
            lemma_kept_first(row1, r2[0], r1.drop_first(), Seq::<TreeItemView>::empty(), x);
        } else {
            assert(r2 =~= seq![r2[0]] + r2.drop_first());
            lemma_kept_first(row1, r2[0], r1.drop_first(), r2.drop_first(), x);
        }
    } else {
        assert(c1.contains(id) == c2.contains(id));
        let row = r1[0];
        assert(row.id != x);
        lemma_kept_same(seq![row], x);
        if task_collapsible(t) && !c1.contains(id) {
            lemma_kept_concat(
                seq![row],
                flatten_tasks_spec(t.children, d + 1, c1),
                seq![row],
                flatten_tasks_spec(t.children, d + 1, c2),
                x,
            );
        } else {
            lemma_kept_same(r1, x);
        }
    }
}

pub proof fn lemma_rows_tasks(ts: Seq<TaskView>, d: int, c1: Seq<Seq<char>>, c2: Seq<Seq<char>>, x: Seq<char>)
    requires
        agree_except(c1, c2, x),
    ensures
        kept(flatten_tasks_spec(ts, d, c1), flatten_tasks_spec(ts, d, c2), x),
        agree(c1, c2) ==> flatten_tasks_spec(ts, d, c2) == flatten_tasks_spec(ts, d, c1),
    decreases ts,
{
    if ts.len() == 0 {
        lemma_kept_same(Seq::<TreeItemView>::empty(), x);
    } else {
        lemma_rows_tasks(ts.drop_last(), d, c1, c2, x);
        lemma_rows_task(ts.last(), d, c1, c2, x);
        lemma_kept_concat(
            flatten_tasks_spec(ts.drop_last(), d, c1),
            flatten_task_spec(ts.last(), d, c1),
            flatten_tasks_spec(ts.drop_last(), d, c2),
            flatten_task_spec(ts.last(), d, c2),
            x,
        );
    }
}


pub proof fn lemma_rows_project(p: ProjectView, d: int, c1: Seq<Seq<char>>, c2: Seq<Seq<char>>, x: Seq<char>)
    requires
        agree_except(c1, c2, x),
    ensures
        kept(flatten_project_spec(p, d, c1), flatten_project_spec(p, d, c2), x),
        agree(c1, c2) ==> flatten_project_spec(p, d, c2) == flatten_project_spec(p, d, c1),
    decreases p,
{
    lemma_rows_tasks(p.tasks, d + 1, c1, c2, x);
    lemma_rows_projects(p.children, d + 1, c1, c2, x);
    let id = project_row_id(p);
    let r1 = flatten_project_spec(p, d, c1);
    let r2 = flatten_project_spec(p, d, c2);
    if agree(c1, c2) {
        assert(c1.contains(id) == c2.contains(id));
    }
    if id == x {
        let row1 = r1[0];
        if r1.len() == 1 {
            assert(r1 =~= seq![row1] + Seq::<TreeItemView>::empty());
        } else {
            assert(r1 =~= seq![row1] + r1.drop_first());
        }
        if r2.len() == 1 {
            assert(r2 =~= seq![r2[0]] + Seq::<TreeItemView>::empty());
            lemma_kept_first(row1, r2[0], r1.drop_first(), Seq::<TreeItemView>::empty(), x);
        } else {
            assert(r2 =~= seq![r2[0]] + r2.drop_first());
            lemma_kept_first(row1, r2[0], r1.drop_first(), r2.drop_first(), x);
        }
    } else {
        assert(c1.contains(id) == c2.contains(id));
        let row = r1[0];
        assert(row.id != x);
        lemma_kept_same(seq![row], x);
        if !c1.contains(id) {
            let t1 = flatten_tasks_spec(p.tasks, d + 1, c1);
            let t2 = flatten_tasks_spec(p.tasks, d + 1, c2);
            lemma_kept_concat(seq![row], t1, seq![row], t2, x);
            lemma_kept_concat(
                seq![row] + t1,
                flatten_projects_spec(p.children, d + 1, c1),
                seq![row] + t2,
                flatten_projects_spec(p.children, d + 1, c2),
                x,
            );
        } else {
            lemma_kept_same(r1, x);
        }
    }
}

pub proof fn lemma_rows_projects(ps: Seq<ProjectView>, d: int, c1: Seq<Seq<char>>, c2: Seq<Seq<char>>, x: Seq<char>)
    requires
        agree_except(c1, c2, x),
    ensures
        kept(flatten_projects_spec(ps, d, c1), flatten_projects_spec(ps, d, c2), x),
        agree(c1, c2) ==> flatten_projects_spec(ps, d, c2) == flatten_projects_spec(ps, d, c1),
    decreases ps,
{
    if ps.len() == 0 {
        lemma_kept_same(Seq::<TreeItemView>::empty(), x);
    } else {
        lemma_rows_projects(ps.drop_last(), d, c1, c2, x);
        lemma_rows_project(ps.last(), d, c1, c2, x);
        lemma_kept_concat(
            flatten_projects_spec(ps.drop_last(), d, c1),
            flatten_project_spec(ps.last(), d, c1),
            flatten_projects_spec(ps.drop_last(), d, c2),
            flatten_project_spec(ps.last(), d, c2),
            x,
        );
    }
}

/// A group row with its tasks below it unless folded: the shape shared by
/// the label groups and the "Other" group.
proof fn lemma_rows_group_shape(
    ts: Seq<TaskView>,
    row1: TreeItemView,
    row2: TreeItemView,
    f1: bool,
    f2: bool,
    c1: Seq<Seq<char>>,
    c2: Seq<Seq<char>>,
    x: Seq<char>,
)
    requires
        agree_except(c1, c2, x),
        same_row(row1, row2),
        row1.id != x ==> row1 == row2 && f1 == f2,
        agree(c1, c2) ==> row1 == row2 && f1 == f2,
    ensures
        ({
            let r1 = if f1 { seq![row1] } else { seq![row1] + flatten_tasks_spec(ts, 1, c1) };
            let r2 = if f2 { seq![row2] } else { seq![row2] + flatten_tasks_spec(ts, 1, c2) };
            &&& kept(r1, r2, x)
            &&& agree(c1, c2) ==> r2 == r1
        }),
{
    lemma_rows_tasks(ts, 1, c1, c2, x);
    let t1 = flatten_tasks_spec(ts, 1, c1);
    let t2 = flatten_tasks_spec(ts, 1, c2);
    let e = Seq::<TreeItemView>::empty();
    assert(seq![row1] =~= seq![row1] + e);
    assert(seq![row2] =~= seq![row2] + e);
    if row1.id == x {
        if f1 {
            if f2 {
                lemma_kept_first(row1, row2, e, e, x);
            } else {
                lemma_kept_first(row1, row2, e, t2, x);
            }
        } else {
            if f2 {
                lemma_kept_first(row1, row2, t1, e, x);
            } else {
                lemma_kept_first(row1, row2, t1, t2, x);
            }
        }
    } else {
        lemma_kept_same(seq![row1], x);
        if !f1 {
            lemma_kept_concat(seq![row1], t1, seq![row1], t2, x);
        }
    }
}

pub proof fn lemma_rows_label_group(ts: Seq<TaskView>, label: Seq<char>, c1: Seq<Seq<char>>, c2: Seq<Seq<char>>, x: Seq<char>)
    requires
        agree_except(c1, c2, x),
    ensures
        kept(label_group_rows(ts, label, c1), label_group_rows(ts, label, c2), x),
        agree(c1, c2) ==> label_group_rows(ts, label, c2) == label_group_rows(ts, label, c1),
{
    let m = with_label(ts, label);
    let g = group_row_id(label);
    if m.len() == 0 {
        lemma_kept_same(Seq::<TreeItemView>::empty(), x);
    } else {
        if agree(c1, c2) {
            assert(c1.contains(g) == c2.contains(g));
        }
        if g != x {
            assert(c1.contains(g) == c2.contains(g));
        }
        let row1 = TreeItemView { depth: 0, kind: crate::ui::KindView::LabelGroup { key: label, name: label }, expanded: !c1.contains(g), id: g };
        let row2 = TreeItemView { depth: 0, kind: crate::ui::KindView::LabelGroup { key: label, name: label }, expanded: !c2.contains(g), id: g };
        lemma_rows_group_shape(m, row1, row2, c1.contains(g), c2.contains(g), c1, c2, x);
    }
}

pub proof fn lemma_rows_label_groups(
    ts: Seq<TaskView>,
    labels: Seq<Seq<char>>,
    c1: Seq<Seq<char>>,
    c2: Seq<Seq<char>>,
    x: Seq<char>,
)
    requires
        agree_except(c1, c2, x),
    ensures
        kept(label_groups_rows(ts, labels, c1), label_groups_rows(ts, labels, c2), x),
        agree(c1, c2) ==> label_groups_rows(ts, labels, c2) == label_groups_rows(ts, labels, c1),
    decreases labels.len(),
{
    if labels.len() == 0 {
        lemma_kept_same(Seq::<TreeItemView>::empty(), x);
    } else {
        lemma_rows_label_groups(ts, labels.drop_last(), c1, c2, x);
        lemma_rows_label_group(ts, labels.last(), c1, c2, x);
        lemma_kept_concat(
            label_groups_rows(ts, labels.drop_last(), c1),
            label_group_rows(ts, labels.last(), c1),
            label_groups_rows(ts, labels.drop_last(), c2),
            label_group_rows(ts, labels.last(), c2),
            x,
        );
    }
}

pub proof fn lemma_rows_other(others: Seq<TaskView>, c1: Seq<Seq<char>>, c2: Seq<Seq<char>>, x: Seq<char>)
    requires
        agree_except(c1, c2, x),
    ensures
        kept(other_rows(others, c1), other_rows(others, c2), x),
        agree(c1, c2) ==> other_rows(others, c2) == other_rows(others, c1),
{
    let g = group_row_id("_other"@);
    if others.len() == 0 {
        lemma_kept_same(Seq::<TreeItemView>::empty(), x);
    } else {
        if agree(c1, c2) {
            assert(c1.contains(g) == c2.contains(g));
        }
        if g != x {
            assert(c1.contains(g) == c2.contains(g));
        }
        let k = crate::ui::KindView::LabelGroup { key: "_other"@, name: "Other"@ };
        let row1 = TreeItemView { depth: 0, kind: k, expanded: !c1.contains(g), id: g };
        let row2 = TreeItemView { depth: 0, kind: k, expanded: !c2.contains(g), id: g };
        lemma_rows_group_shape(others, row1, row2, c1.contains(g), c2.contains(g), c1, c2, x);
    }
}

/// A label that some task carries has its group row among the rows of the
/// label groups, folded or not.
proof fn lemma_group_row_present(ts: Seq<TaskView>, labels: Seq<Seq<char>>, c: Seq<Seq<char>>, li: int, ti: int)
    requires
        0 <= li < labels.len(),
        0 <= ti < ts.len(),
        ts[ti].labels.contains(labels[li]),
    ensures
        !no_row(label_groups_rows(ts, labels, c), group_row_id(labels[li])),
    decreases labels.len(),
{
    let g = group_row_id(labels[li]);
    let a = label_groups_rows(ts, labels.drop_last(), c);
    let b = label_group_rows(ts, labels.last(), c);
    assert(label_groups_rows(ts, labels, c) == a + b);
    if li == labels.len() - 1 {
        let pred = |t: TaskView| t.labels.contains(labels.last());
        assert(pred(ts[ti]));
        ts.lemma_filter_contains(pred, ti);
        assert(with_label(ts, labels.last()) == ts.filter(pred));
        assert(with_label(ts, labels.last()).len() > 0);
        assert(b[0].id == g);
        assert((a + b)[a.len() as int] == b[0]);
    } else {
        assert(labels.drop_last()[li] == labels[li]);
        lemma_group_row_present(ts, labels.drop_last(), c, li, ti);
        let j = choose|j: int| 0 <= j < a.len() && (#[trigger] a[j]).id == g;
        assert((a + b)[j] == a[j]);
    }
}

/// Unless the row `x` is a label group row that is shown, the "Other"
/// group holds the same tasks.
proof fn lemma_other_same(ts: Seq<TaskView>, labels: Seq<Seq<char>>, c1: Seq<Seq<char>>, c2: Seq<Seq<char>>, x: Seq<char>)
    requires
        agree_except(c1, c2, x),
        no_row(label_groups_rows(ts, labels, c1), x) || agree(c1, c2),
    ensures
        other_tasks(ts, labels, c1) == other_tasks(ts, labels, c2),
{
    assert forall|id: Seq<char>| shown_in_group(ts, labels, c1, id) == shown_in_group(ts, labels, c2, id) by {
        if shown_in_group(ts, labels, c1, id) && !shown_in_group(ts, labels, c2, id) {
            let (li, ti) = choose|li: int, ti: int|
                0 <= li < labels.len() && 0 <= ti < ts.len() && !c1.contains(group_row_id(#[trigger] labels[li]))
                    && (#[trigger] ts[ti]).labels.contains(labels[li]) && ts[ti].id == id;
            let g = group_row_id(labels[li]);
            if !c2.contains(g) {
                assert(shown_in_group(ts, labels, c2, id));
            }
            lemma_group_row_present(ts, labels, c1, li, ti);
            assert(c1.contains(g) != c2.contains(g));
        }
        if !shown_in_group(ts, labels, c1, id) && shown_in_group(ts, labels, c2, id) {
            let (li, ti) = choose|li: int, ti: int|
                0 <= li < labels.len() && 0 <= ti < ts.len() && !c2.contains(group_row_id(#[trigger] labels[li]))
                    && (#[trigger] ts[ti]).labels.contains(labels[li]) && ts[ti].id == id;
            let g = group_row_id(labels[li]);
            if !c1.contains(g) {
                assert(shown_in_group(ts, labels, c1, id));
            }
            lemma_group_row_present(ts, labels, c1, li, ti);
            assert(c1.contains(g) != c2.contains(g));
        }
    }
    let p1 = |t: TaskView| !shown_in_group(ts, labels, c1, t.id);
    let p2 = |t: TaskView| !shown_in_group(ts, labels, c2, t.id);
    assert(p1 =~= p2);
    assert(other_tasks(ts, labels, c1) == ts.filter(p1));
    assert(other_tasks(ts, labels, c2) == ts.filter(p2));
}

/// The rows of the view of one project, when whether `x` is folded changes.
pub proof fn lemma_rows_project_view(p: ProjectView, f: Seq<char>, c1: Seq<Seq<char>>, c2: Seq<Seq<char>>, x: Seq<char>)
    requires
        agree_except(c1, c2, x),
    ensures
        kept(project_view_rows(p, f, c1), project_view_rows(p, f, c2), x),
        agree(c1, c2) ==> project_view_rows(p, f, c2) == project_view_rows(p, f, c1),
{
    let ts = project_view_tasks(p, f);
    let a1 = label_groups_rows(ts, p.labels, c1);
    let a2 = label_groups_rows(ts, p.labels, c2);
    lemma_rows_label_groups(ts, p.labels, c1, c2, x);
    let o1 = other_tasks(ts, p.labels, c1);
    if no_row(a1, x) || agree(c1, c2) {
        lemma_other_same(ts, p.labels, c1, c2, x);
    }
    lemma_rows_other(o1, c1, c2, x);
    lemma_kept_concat(a1, other_rows(o1, c1), a2, other_rows(other_tasks(ts, p.labels, c2), c2), x);
}

/// Folding or unfolding the row `x` changes whether `x` is folded and
/// nothing else.
pub proof fn lemma_toggled_agree(c: Seq<Seq<char>>, x: Seq<char>)
    ensures
        agree_except(c, toggled(c, x), x),
{
    broadcast use Seq::lemma_filter_contains_rev, Seq::lemma_filter_pred, Seq::lemma_filter_contains;
    let t = toggled(c, x);
    assert forall|y: Seq<char>| y != x implies (#[trigger] c.contains(y) <==> t.contains(y)) by {
        if c.contains(x) {
            if c.contains(y) {
                let k = choose|k: int| 0 <= k < c.len() && c[k] == y;
                assert(other_than(x)(c[k]));
            }
        } else {
            if c.contains(y) {
                let k = choose|k: int| 0 <= k < c.len() && c[k] == y;
                assert(c.push(x)[k] == y);
            }
            if t.contains(y) {
                let k = choose|k: int| 0 <= k < t.len() && t[k] == y;
                assert(c[k] == y);
            }
        }
    }
}

/// The rows of a rebuilt state, when whether the row `x` is folded
/// changes.
pub proof fn lemma_rebuilt_rows(o: AppStateView, c2: Seq<Seq<char>>, x: Seq<char>)
    requires
        agree_except(o.collapsed, c2, x),
        o.selected_project == 0 || o.selected_project - 1 < o.projects.len(),
    ensures
        kept(rebuilt(o).tree_items, rebuilt(AppStateView { collapsed: c2, ..o }).tree_items, x),
        agree(o.collapsed, c2) ==> rebuilt(AppStateView { collapsed: c2, ..o }).tree_items == rebuilt(o).tree_items,
{
    let m = AppStateView { collapsed: c2, ..o };
    if o.selected_project == 0 {
        assert(all_view_projects(m) == all_view_projects(o));
        lemma_rows_projects(all_view_projects(o), 0, o.collapsed, c2, x);
    } else {
        lemma_rows_project_view(o.projects[o.selected_project - 1], o.filter_text, o.collapsed, c2, x);
    }
}
} // verus!
