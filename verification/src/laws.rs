//! Properties that relate the library's functions to each other.
use vstd::prelude::*;
use crate::data::{
    ProjectView, TaskView, filter_label_spec, forest_labels, filter_tasks_spec, filter_text_spec, forest_tasks,
    task_preorder, text_matches, with_children, with_contents, best_entry, byte_len,
};
use crate::data::{project_tasks, counts_of, lemma_sum_counts, statuses_of, sum_counts};
use crate::data::{
    ConfigView, assigned_key, build_spec, group_spec, join_path, prefix_entries, tasks_with_key,
    uncategorized_project,
};
use crate::detail::{detail_key_spec, find_in_tasks_spec, find_task_spec};
use crate::seqs::{
    count_of, lemma_count_of_contains, lemma_count_of_no_duplicates, lemma_count_of_push,
    lemma_sum_count_keys_push, sum_count_keys,
};
use crate::strings::{has_substring, is_prefix_of, lowercase};
use crate::folding::{agree, agree_except, lemma_kept_unique, lemma_rebuilt_rows, lemma_toggled_agree};
use crate::keys::{ActionView, KeyCode, KeyInput};
use crate::ui::{
    KindView, project_view_tasks, AppStateView, ViewMode, kind_collapsible, toggled_state, entered, exited, list_key_spec, moved_down, moved_up, other_than, rebuilt,
    toggled, with_filter, with_project,
};

verus! {

// ---------------------------------------------------------------------
// Filters
// ---------------------------------------------------------------------

/// Filtering by a label a second time changes nothing.
pub proof fn law_filter_by_label_idempotent(ps: Seq<ProjectView>, label: Seq<char>)
    ensures
        filter_label_spec(filter_label_spec(ps, label), label) == filter_label_spec(ps, label),
    decreases ps,
{
    if ps.len() > 0 {
        let p = ps.last();
        let r = filter_label_spec(ps.drop_last(), label);
        law_filter_by_label_idempotent(ps.drop_last(), label);
        if p.labels.contains(label) {
            assert(r.push(p).drop_last() =~= r);
        } else {
            let c = filter_label_spec(p.children, label);
            law_filter_by_label_idempotent(p.children, label);
            if c.len() > 0 {
                let q = with_contents(p, seq![], c);
                assert(r.push(q).drop_last() =~= r);
                assert(with_contents(q, seq![], c) =~= q);
            }
        }
    }
}

// ---------------------------------------------------------------------
// Counting
// ---------------------------------------------------------------------

/// The per-status counts of `count_by_status` add up to the number of
/// tasks, which `total_tasks` returns.
pub proof fn law_counts_add_up_to_total(ps: Seq<ProjectView>, c: Seq<(String, usize)>)
    requires
        counts_of(c, statuses_of(forest_tasks(ps))),
    ensures
        sum_counts(c) == forest_tasks(ps).len(),
{
    lemma_sum_counts(c, statuses_of(forest_tasks(ps)));
}

/// Filtering by a label finds something exactly when the label is one of
/// those collected from the forest: each label that `collect_labels` offers
/// leads to a non-empty view.
pub proof fn law_filter_by_label_finds_collected(ps: Seq<ProjectView>, label: Seq<char>)
    ensures
        filter_label_spec(ps, label).len() > 0 <==> forest_labels(ps).contains(label),
    decreases ps,
{
    if ps.len() > 0 {
        let p = ps.last();
        law_filter_by_label_finds_collected(ps.drop_last(), label);
        law_filter_by_label_finds_collected(p.children, label);
        lemma_contains_concat3(forest_labels(ps.drop_last()), p.labels, forest_labels(p.children), label);
    }
}

proof fn lemma_contains_concat3(a: Seq<Seq<char>>, b: Seq<Seq<char>>, c: Seq<Seq<char>>, x: Seq<char>)
    ensures
        (a + b + c).contains(x) <==> a.contains(x) || b.contains(x) || c.contains(x),
{
    let s = a + b + c;
    if a.contains(x) {
        let i = choose|i: int| 0 <= i < a.len() && a[i] == x;
        assert(s[i] == x);
    }
    if b.contains(x) {
        let i = choose|i: int| 0 <= i < b.len() && b[i] == x;
        assert(s[a.len() + i] == x);
    }
    if c.contains(x) {
        let i = choose|i: int| 0 <= i < c.len() && c[i] == x;
        assert(s[a.len() + b.len() + i] == x);
    }
    if s.contains(x) {
        let i = choose|i: int| 0 <= i < s.len() && s[i] == x;
        if i < a.len() {
            assert(a[i] == x);
        } else if i < a.len() + b.len() {
            assert(b[i - a.len()] == x);
        } else {
            assert(c[i - a.len() - b.len()] == x);
        }
    }
}

/// Filtering tasks by a query a second time changes nothing.
pub proof fn law_filter_tasks_idempotent(ts: Seq<TaskView>, q: Seq<char>)
    ensures
        filter_tasks_spec(filter_tasks_spec(ts, q), q) == filter_tasks_spec(ts, q),
    decreases ts,
{
    if ts.len() > 0 {
        let t = ts.last();
        let r = filter_tasks_spec(ts.drop_last(), q);
        let mc = filter_tasks_spec(t.children, q);
        law_filter_tasks_idempotent(ts.drop_last(), q);
        law_filter_tasks_idempotent(t.children, q);
        if text_matches(t, q) {
            assert(r.push(t).drop_last() =~= r);
        } else if mc.len() > 0 {
            let x = with_children(t, mc);
            assert(r.push(x).drop_last() =~= r);
            assert(with_children(x, mc) =~= x);
        }
    }
}

/// Filtering projects by a text query a second time changes nothing.
pub proof fn law_filter_by_text_idempotent(ps: Seq<ProjectView>, q: Seq<char>)
    ensures
        filter_text_spec(filter_text_spec(ps, q), q) == filter_text_spec(ps, q),
    decreases ps,
{
    if ps.len() > 0 {
        let p = ps.last();
        let r = filter_text_spec(ps.drop_last(), q);
        let mt = filter_tasks_spec(p.tasks, q);
        let mc = filter_text_spec(p.children, q);
        law_filter_by_text_idempotent(ps.drop_last(), q);
        law_filter_by_text_idempotent(p.children, q);
        law_filter_tasks_idempotent(p.tasks, q);
        if !(mt.len() == 0 && mc.len() == 0) {
            let y = with_contents(p, mt, mc);
            assert(r.push(y).drop_last() =~= r);
            assert(with_contents(y, mt, mc) =~= y);
        }
    }
}

// ---------------------------------------------------------------------
// Prefix matching
// ---------------------------------------------------------------------

/// The entry chosen for an id has a prefix of the id, no matching prefix
/// is longer, and every earlier matching prefix is shorter; no entry is
/// chosen exactly when no prefix matches.
pub proof fn law_best_entry(es: Seq<(Seq<char>, Seq<Seq<char>>)>, id: Seq<char>, n: nat)
    requires
        n <= es.len(),
    ensures
        best_entry(es, id, n) is None <==> forall|j: int| 0 <= j < n ==> !is_prefix_of(#[trigger] es[j].0, id),
        best_entry(es, id, n) matches Some(i) ==> {
            &&& i < n
            &&& is_prefix_of(es[i as int].0, id)
            &&& forall|j: int| 0 <= j < n && is_prefix_of(#[trigger] es[j].0, id) ==> byte_len(es[j].0) <= byte_len(es[i as int].0)
            &&& forall|j: int| 0 <= j < i && is_prefix_of(#[trigger] es[j].0, id) ==> byte_len(es[j].0) < byte_len(es[i as int].0)
        },
    decreases n,
{
    if n > 0 {
        law_best_entry(es, id, (n - 1) as nat);
    }
}

// ---------------------------------------------------------------------
// Finding tasks
// ---------------------------------------------------------------------

/// The first task of `s` with id `id`.
pub open spec fn first_with_id(s: Seq<TaskView>, id: Seq<char>) -> Option<TaskView>
    decreases s.len(),
{
    if s.len() == 0 {
        None
    } else {
        match first_with_id(s.drop_last(), id) {
            Some(t) => Some(t),
            None => if s.last().id == id {
                Some(s.last())
            } else {
                None
            },
        }
    }
}

pub proof fn lemma_first_with_id_add(a: Seq<TaskView>, b: Seq<TaskView>, id: Seq<char>)
    ensures
        first_with_id(a + b, id) == match first_with_id(a, id) {
            Some(t) => Some(t),
            None => first_with_id(b, id),
        },
    decreases b.len(),
{
    if b.len() == 0 {
        assert(a + b =~= a);
    } else {
        lemma_first_with_id_add(a, b.drop_last(), id);
        assert((a + b).drop_last() =~= a + b.drop_last());
        assert((a + b).last() == b.last());
    }
}

/// Searching a task forest finds the first task with the id in pre-order.
pub proof fn law_find_in_tasks_first(ts: Seq<TaskView>, id: Seq<char>)
    ensures
        find_in_tasks_spec(ts, id) == first_with_id(task_preorder(ts), id),
    decreases ts,
{
    if ts.len() > 0 {
        let t = ts.last();
        law_find_in_tasks_first(ts.drop_last(), id);
        law_find_in_tasks_first(t.children, id);
        let a = task_preorder(ts.drop_last());
        lemma_first_with_id_add(a + seq![t], task_preorder(t.children), id);
        lemma_first_with_id_add(a, seq![t], id);
        assert(seq![t].drop_last() =~= Seq::<TaskView>::empty());
        assert(first_with_id(Seq::<TaskView>::empty(), id) is None);
        assert(first_with_id(seq![t].drop_last(), id) is None);
        assert(first_with_id(seq![t], id) == if t.id == id { Some(t) } else { None::<TaskView> });
        assert(task_preorder(ts) == a + seq![t] + task_preorder(t.children));
    }
}

/// Looking a task up by id finds the first task with that id among all
/// tasks of all projects, in the order the dashboard visits them; it finds
/// none exactly when no task has the id.
pub proof fn law_find_task_by_id_first(ps: Seq<ProjectView>, id: Seq<char>)
    ensures
        find_task_spec(ps, id) == first_with_id(forest_tasks(ps), id),
        find_task_spec(ps, id) is None <==> forall|i: int| 0 <= i < forest_tasks(ps).len() ==> (#[trigger] forest_tasks(ps)[i]).id != id,
        find_task_spec(ps, id) matches Some(t) ==> t.id == id && forest_tasks(ps).contains(t),
    decreases ps,
{
    if ps.len() > 0 {
        let p = ps.last();
        law_find_task_by_id_first(ps.drop_last(), id);
        law_find_task_by_id_first(p.children, id);
        law_find_in_tasks_first(p.tasks, id);
        let a = forest_tasks(ps.drop_last());
        let b = task_preorder(p.tasks);
        lemma_first_with_id_add(a + b, forest_tasks(p.children), id);
        lemma_first_with_id_add(a, b, id);
    }
    lemma_first_with_id(forest_tasks(ps), id);
}

pub proof fn lemma_first_with_id(s: Seq<TaskView>, id: Seq<char>)
    ensures
        first_with_id(s, id) is None <==> forall|i: int| 0 <= i < s.len() ==> (#[trigger] s[i]).id != id,
        first_with_id(s, id) matches Some(t) ==> t.id == id && s.contains(t),
    decreases s.len(),
{
    if s.len() > 0 {
        let s0 = s.drop_last();
        lemma_first_with_id(s0, id);
        if first_with_id(s0, id) is None {
            assert forall|i: int| 0 <= i < s.len() - 1 implies (#[trigger] s[i]).id != id by {
                assert(s0[i] == s[i]);
            }
        } else {
            let i = choose|i: int| 0 <= i < s0.len() && s0[i] == first_with_id(s0, id)->0;
            assert(s[i] == s0[i]);
            assert(s0[i].id == id);
        }
        if first_with_id(s, id) is Some && first_with_id(s0, id) is None {
            assert(s[s.len() - 1] == first_with_id(s, id)->0);
        }
    }
}

// ---------------------------------------------------------------------
// Navigation
// ---------------------------------------------------------------------

/// After a rebuild the selection is on a row, whenever there are rows.
pub proof fn law_rebuild_selection_in_rows(o: AppStateView)
    ensures
        rebuilt(o).tree_items.len() > 0 ==> rebuilt(o).selected < rebuilt(o).tree_items.len(),
{
}

/// Rebuilding a second time changes nothing.
pub proof fn law_rebuild_idempotent(o: AppStateView)
    ensures
        rebuilt(rebuilt(o)) == rebuilt(o),
{
    assert(rebuilt(rebuilt(o)) =~= rebuilt(o));
}

/// Cycling to the next project and back returns to the same view with the
/// same rows.
pub proof fn law_cycle_round_trip(o: AppStateView)
    requires
        o.selected_project <= o.projects.len() <= usize::MAX,
    ensures
        ({
            let m = (o.projects.len() + 1) as int;
            let s1 = with_project(o, ((o.selected_project + 1) % m) as usize);
            let s2 = with_project(s1, ((s1.selected_project + s1.projects.len()) % m) as usize);
            &&& s1.selected_project <= o.projects.len()
            &&& s2.selected_project == o.selected_project
            &&& s2.tree_items == rebuilt(o).tree_items
            &&& s2.filtered_projects == rebuilt(o).filtered_projects
        }),
{
    let l = o.projects.len();
    let m = (l + 1) as int;
    let sp = o.selected_project as int;
    let sp1 = ((o.selected_project + 1) % m) as usize;
    let s1 = with_project(o, sp1);
    assert(s1.selected_project == sp1);
    assert(s1.projects == o.projects);
    assert(s1.filter_text == o.filter_text);
    assert(s1.collapsed == o.collapsed);
    if sp < l {
        assert((sp + 1) % m == sp + 1) by (nonlinear_arith)
            requires
                0 <= sp + 1 < m,
        ;
        assert(sp1 == sp + 1);
        assert((sp + 1 + l) % m == sp) by (nonlinear_arith)
            requires
                0 <= sp < m,
                m == l + 1,
        ;
    } else {
        assert((sp + 1) % m == 0) by (nonlinear_arith)
            requires
                sp + 1 == m,
                m > 0,
        ;
        assert((l as int) % m == l) by (nonlinear_arith)
            requires
                0 <= l < m,
        ;
        assert(sp1 == 0);
    }
    let sp2 = ((s1.selected_project + s1.projects.len()) % m) as usize;
    assert(sp2 == o.selected_project);
    let s2 = with_project(s1, sp2);
    assert(AppStateView { selected_project: sp2, ..s1 }.projects == o.projects);
}

/// Cycling keeps the selected view among the projects and the view of all.
pub proof fn law_cycle_stays_in_range(o: AppStateView)
    ensures
        ({
            let m = (o.projects.len() + 1) as int;
            &&& with_project(o, ((o.selected_project + 1) % m) as usize).selected_project <= o.projects.len()
            &&& with_project(o, ((o.selected_project + o.projects.len()) % m) as usize).selected_project <= o.projects.len()
        }),
{
    let m = (o.projects.len() + 1) as int;
    vstd::arithmetic::div_mod::lemma_mod_bound((o.selected_project + 1) as int, m);
    vstd::arithmetic::div_mod::lemma_mod_bound((o.selected_project + o.projects.len()) as int, m);
}

/// Opening a task's detail view shows it; closing it again returns to the
/// previous task, or to the list when there was none.
pub proof fn law_enter_exit_detail(o: AppStateView, id: Seq<char>)
    ensures
        entered(o, id).nav_stack.last() == id,
        exited(entered(o, id)).nav_stack == o.nav_stack,
        o.nav_stack.len() == 0 ==> exited(entered(o, id)).view_mode == crate::ui::ViewMode::List,
        o.nav_stack.len() > 0 ==> exited(entered(o, id)).view_mode == crate::ui::ViewMode::Detail,
{
    assert(o.nav_stack.push(id).drop_last() =~= o.nav_stack);
}

/// Folding the selected row and pressing the same key again shows the same
/// rows with the same row selected, when the rows are those the state
/// gives and no two rows share an id; the same rows are folded, and when
/// the row was unfolded to begin with, the state is the same as before.
pub proof fn law_fold_twice_restores_rows(o: AppStateView)
    requires
        rebuilt(o) == o,
        o.selected < o.tree_items.len(),
        forall|a: int, b: int| 0 <= a < b < o.tree_items.len() ==> o.tree_items[a].id != o.tree_items[b].id,
    ensures
        ({
            let o2 = toggled_state(toggled_state(o));
            &&& o2.tree_items == o.tree_items
            &&& o2.selected == o.selected
            &&& o2 == AppStateView { collapsed: o2.collapsed, ..o }
            &&& forall|y: Seq<char>| #[trigger] o2.collapsed.contains(y) == o.collapsed.contains(y)
            &&& !o.collapsed.contains(o.tree_items[o.selected as int].id) ==> o2 == o
        }),
{
    let i = o.selected as int;
    let x = o.tree_items[i].id;
    if !kind_collapsible(o.tree_items[i].kind) {
        assert(toggled_state(o) == o);
    } else {
        assert(o.selected_project == 0 || o.selected_project - 1 < o.projects.len());
        let c = o.collapsed;
        let c1 = toggled(c, x);
        lemma_toggled_agree(c, x);
        let o1 = rebuilt(AppStateView { collapsed: c1, ..o });
        assert(toggled_state(o) == o1);
        lemma_rebuilt_rows(o, c1, x);
        lemma_kept_unique(o.tree_items, o1.tree_items, x, i);
        assert(o1.selected == o.selected);
        assert(o1.tree_items[i].id == x);
        assert(kind_collapsible(o1.tree_items[i].kind));
        let c2 = toggled(c1, x);
        law_toggle_twice(c, x);
        assert(agree(c, c2));
        assert(agree_except(c, c2, x));
        let a = AppStateView { collapsed: c2, ..o1 };
        let b = AppStateView { collapsed: c2, ..o };
        assert(toggled_state(o1) == rebuilt(a));
        lemma_rebuilt_frame(a, b);
        lemma_rebuilt_rows(o, c2, x);
        let o2 = rebuilt(a);
        assert(o2 =~= AppStateView { collapsed: c2, ..o });
        if !c.contains(x) {
            assert(o2 =~= o);
        }
    }
}

/// Folding a row and unfolding it again leaves the same rows folded.
pub proof fn law_toggle_twice(c: Seq<Seq<char>>, id: Seq<char>)
    ensures
        forall|x: Seq<char>| #[trigger] toggled(toggled(c, id), id).contains(x) == c.contains(x),
        toggled(c, id).contains(id) != c.contains(id),
        !c.contains(id) ==> toggled(toggled(c, id), id) == c,
{
    broadcast use Seq::lemma_filter_contains_rev, Seq::lemma_filter_pred, Seq::lemma_filter_contains;
    let pred = other_than(id);
    if c.contains(id) {
        let f = c.filter(pred);
        assert(toggled(c, id) == f);
        assert(!f.contains(id)) by {
            if f.contains(id) {
                let k = choose|k: int| 0 <= k < f.len() && f[k] == id;
                assert(pred(f[k]));
            }
        }
        assert forall|x: Seq<char>| #[trigger] f.push(id).contains(x) == c.contains(x) by {
            if x == id {
                assert(f.push(id)[f.len() as int] == id);
            } else {
                if c.contains(x) {
                    let k = choose|k: int| 0 <= k < c.len() && c[k] == x;
                    assert(pred(c[k]));
                    assert(f.contains(c[k]));
                    let j = choose|j: int| 0 <= j < f.len() && f[j] == x;
                    assert(f.push(id)[j] == x);
                }
                if f.push(id).contains(x) {
                    let j = choose|j: int| 0 <= j < f.len() + 1 && f.push(id)[j] == x;
                    assert(f[j] == x);
                    assert(f.contains(x));
                }
            }
        }
    } else {
        let g = c.push(id);
        assert(g[c.len() as int] == id);
        assert(g.filter(pred) =~= c) by {
            reveal(Seq::filter);
            assert(g.drop_last() =~= c);
            assert forall|i: int| 0 <= i < c.len() implies pred(#[trigger] c[i]) by {
                assert(c[i] != id);
            }
            lemma_filter_all(c, pred);
        }
        assert(toggled(c, id) == g);
        assert(toggled(g, id) == g.filter(pred));
    }
}

proof fn lemma_filter_all(s: Seq<Seq<char>>, pred: spec_fn(Seq<char>) -> bool)
    requires
        forall|i: int| 0 <= i < s.len() ==> pred(#[trigger] s[i]),
    ensures
        s.filter(pred) == s,
    decreases s.len(),
{
    reveal(Seq::filter);
    if s.len() > 0 {
        lemma_filter_all(s.drop_last(), pred);
        assert(s.drop_last().push(s.last()) =~= s);
    }
}


// ---------------------------------------------------------------------
// Grouping
// ---------------------------------------------------------------------

/// Number of tasks held directly by the projects of a forest (sub-tasks
/// not counted, sub-projects' tasks counted).
pub open spec fn direct_task_count(ps: Seq<ProjectView>) -> nat
    decreases ps,
{
    if ps.len() == 0 {
        0
    } else {
        direct_task_count(ps.drop_last()) + ps.last().tasks.len() + direct_task_count(ps.last().children)
    }
}

/// The keys of the configured projects, in pre-order: the joined paths of
/// their ids.
pub open spec fn config_keys(cs: Seq<ConfigView>) -> Seq<Seq<char>> {
    let es = prefix_entries(cs, seq![]);
    Seq::new(es.len(), |i: int| join_path(es[i].1))
}

/// The key each task is assigned, in order.
pub open spec fn assigned_keys(es: Seq<(Seq<char>, Seq<Seq<char>>)>, ts: Seq<TaskView>) -> Seq<Option<Seq<char>>> {
    Seq::new(ts.len(), |i: int| assigned_key(es, ts[i].id))
}

/// The node keys of the projects built below `parent`, in pre-order.
pub open spec fn node_keys(cs: Seq<ConfigView>, parent: Seq<Seq<char>>) -> Seq<Option<Seq<char>>>
    decreases cs,
{
    if cs.len() == 0 {
        seq![]
    } else {
        let c = cs.last();
        let path = parent.push(c.id);
        node_keys(cs.drop_last(), parent) + seq![Some(join_path(path))] + node_keys(c.children, path)
    }
}

proof fn lemma_node_keys_entries(cs: Seq<ConfigView>, parent: Seq<Seq<char>>)
    ensures
        node_keys(cs, parent) == ({
            let es = prefix_entries(cs, parent);
            Seq::new(es.len(), |i: int| Some(join_path(es[i].1)))
        }),
    decreases cs,
{
    if cs.len() > 0 {
        let c = cs.last();
        let path = parent.push(c.id);
        lemma_node_keys_entries(cs.drop_last(), parent);
        lemma_node_keys_entries(c.children, path);
        let es = prefix_entries(cs, parent);
        assert(node_keys(cs, parent) =~= Seq::new(es.len(), |i: int| Some(join_path(es[i].1))));
    }
}

proof fn lemma_tasks_with_key_len(es: Seq<(Seq<char>, Seq<Seq<char>>)>, ts: Seq<TaskView>, k: Option<Seq<char>>)
    ensures
        tasks_with_key(es, ts, k).len() == count_of(assigned_keys(es, ts), k),
    decreases ts.len(),
{
    if ts.len() > 0 {
        lemma_tasks_with_key_len(es, ts.drop_last(), k);
        assert(assigned_keys(es, ts).drop_last() =~= assigned_keys(es, ts.drop_last()));
    }
}

proof fn lemma_sum_count_keys_add<A>(a: Seq<A>, b: Seq<A>, s: Seq<A>)
    ensures
        sum_count_keys(a + b, s) == sum_count_keys(a, s) + sum_count_keys(b, s),
    decreases b.len(),
{
    if b.len() == 0 {
        assert(a + b =~= a);
    } else {
        lemma_sum_count_keys_add(a, b.drop_last(), s);
        assert((a + b).drop_last() =~= a + b.drop_last());
        assert((a + b).last() == b.last());
    }
}

/// When the keys are distinct and include every element of `s`, counting
/// each key's occurrences accounts for all of `s`.
proof fn lemma_sum_count_keys_cover<A>(keys: Seq<A>, s: Seq<A>)
    requires
        keys.no_duplicates(),
        forall|i: int| 0 <= i < s.len() ==> keys.contains(#[trigger] s[i]),
    ensures
        sum_count_keys(keys, s) == s.len(),
    decreases s.len(),
{
    if s.len() == 0 {
        lemma_sum_count_keys_empty(keys, s);
    } else {
        let s0 = s.drop_last();
        assert forall|i: int| 0 <= i < s0.len() implies keys.contains(#[trigger] s0[i]) by {
            assert(s0[i] == s[i]);
        }
        lemma_sum_count_keys_cover(keys, s0);
        assert(s0.push(s.last()) =~= s);
        lemma_sum_count_keys_push(keys, s0, s.last());
        assert(keys.contains(s[s.len() - 1]));
        lemma_count_of_no_duplicates(keys, s.last());
    }
}

proof fn lemma_sum_count_keys_empty<A>(keys: Seq<A>, s: Seq<A>)
    requires
        s.len() == 0,
    ensures
        sum_count_keys(keys, s) == 0,
    decreases keys.len(),
{
    if keys.len() > 0 {
        lemma_sum_count_keys_empty(keys.drop_last(), s);
    }
}

proof fn lemma_build_direct_count(
    cs: Seq<ConfigView>,
    parent: Seq<Seq<char>>,
    es: Seq<(Seq<char>, Seq<Seq<char>>)>,
    ts: Seq<TaskView>,
)
    ensures
        direct_task_count(build_spec(cs, parent, es, ts)) == sum_count_keys(node_keys(cs, parent), assigned_keys(es, ts)),
    decreases cs,
{
    if cs.len() > 0 {
        let c = cs.last();
        let path = parent.push(c.id);
        let f = assigned_keys(es, ts);
        let r = build_spec(cs.drop_last(), parent, es, ts);
        let x = build_spec(cs, parent, es, ts).last();
        lemma_build_direct_count(cs.drop_last(), parent, es, ts);
        lemma_build_direct_count(c.children, path, es, ts);
        lemma_tasks_with_key_len(es, ts, Some(join_path(path)));
        assert(build_spec(cs, parent, es, ts).drop_last() =~= r);
        let a = node_keys(cs.drop_last(), parent);
        let b = seq![Some(join_path(path))];
        lemma_sum_count_keys_add(a + b, node_keys(c.children, path), f);
        lemma_sum_count_keys_add(a, b, f);
        assert(b.drop_last() =~= Seq::<Option<Seq<char>>>::empty());
        assert(sum_count_keys(Seq::<Option<Seq<char>>>::empty(), f) == 0);
        assert(sum_count_keys(b, f) == count_of(f, Some(join_path(path))));
        assert(x.tasks == tasks_with_key(es, ts, Some(join_path(path))));
        assert(x.children == build_spec(c.children, path, es, ts));
        assert(build_spec(cs, parent, es, ts).last() == x);
        assert(direct_task_count(build_spec(cs, parent, es, ts)) == direct_task_count(r) + x.tasks.len()
            + direct_task_count(x.children));
        assert(node_keys(cs, parent) == a + b + node_keys(c.children, path));
    }
}

/// When no two configured projects have the same key (the joined path of
/// their ids), grouping puts every task into exactly one project: the
/// projects hold, directly, as many tasks as were given.
pub proof fn law_group_tasks_partition(cs: Seq<ConfigView>, ts: Seq<TaskView>)
    requires
        config_keys(cs).no_duplicates(),
    ensures
        direct_task_count(group_spec(cs, ts)) == ts.len(),
{
    let es = prefix_entries(cs, seq![]);
    let f = assigned_keys(es, ts);
    let nk = node_keys(cs, seq![]);
    let keys = nk.push(None::<Seq<char>>);
    lemma_node_keys_entries(cs, seq![]);
    lemma_build_direct_count(cs, seq![], es, ts);
    lemma_tasks_with_key_len(es, ts, None);
    assert(keys.no_duplicates()) by {
        assert forall|i: int, j: int| 0 <= i < keys.len() && 0 <= j < keys.len() && i != j implies keys[i] != keys[j] by {
            if i < nk.len() && j < nk.len() {
                assert(config_keys(cs)[i] != config_keys(cs)[j]);
            }
        }
    }
    assert forall|i: int| 0 <= i < f.len() implies keys.contains(#[trigger] f[i]) by {
        crate::data::lemma_best_entry_bound(es, ts[i].id, es.len());
        match crate::data::best_entry(es, ts[i].id, es.len()) {
            Some(k) => {
                assert(keys[k as int] == f[i]);
            },
            None => {
                assert(keys[nk.len() as int] == f[i]);
            },
        }
    }
    lemma_sum_count_keys_cover(keys, f);
    lemma_sum_count_keys_push(nk, f, None::<Seq<char>>);
    assert(sum_count_keys(keys, f) == sum_count_keys(nk, f) + count_of(f, None::<Seq<char>>)) by {
        assert(keys.drop_last() =~= nk);
    }
    let built = build_spec(cs, seq![], es, ts);
    let unc = tasks_with_key(es, ts, None);
    if unc.len() > 0 {
        assert(built.push(uncategorized_project(unc)).drop_last() =~= built);
        assert(direct_task_count(Seq::<ProjectView>::empty()) == 0);
    }
}


// ---------------------------------------------------------------------
// Keys
// ---------------------------------------------------------------------

/// Moving down and then up comes back to the same row, unless the
/// selection was on the last row or past it.
pub proof fn law_move_down_up(o: AppStateView)
    requires
        o.selected + 1 < o.tree_items.len() <= usize::MAX,
    ensures
        moved_up(moved_down(o)) == o,
{
    assert(moved_up(moved_down(o)) =~= o);
}

/// A selection on a row stays on a row when it moves.
pub proof fn law_move_stays_on_rows(o: AppStateView)
    requires
        o.selected < o.tree_items.len(),
    ensures
        moved_up(o).selected < moved_up(o).tree_items.len(),
        moved_down(o).selected < moved_down(o).tree_items.len(),
{
}

/// In the detail view, `g` twice scrolls to the top and changes nothing
/// else, when no `g` was pending before.
pub proof fn law_detail_gg_to_top(o: AppStateView, first: KeyInput, second: KeyInput)
    requires
        !o.pending_g,
        first.code == KeyCode::Char('g'),
        second.code == KeyCode::Char('g'),
    ensures
        ({
            let (o1, a1) = detail_key_spec(o, first);
            let (o2, a2) = detail_key_spec(o1, second);
            &&& o2 == AppStateView { detail_scroll: 0, ..o }
            &&& a1 == ActionView::Continue
            &&& a2 == ActionView::Continue
        }),
{
}

/// No key of the detail view scrolls past 20 rows before the end of the
/// content.
pub proof fn law_detail_scroll_bounded(o: AppStateView, key: KeyInput)
    requires
        o.detail_scroll <= o.last_content_height.saturating_sub(20),
    ensures
        ({
            let o2 = detail_key_spec(o, key).0;
            o2.detail_scroll <= o2.last_content_height.saturating_sub(20)
        }),
{
}

/// While the filter is typed, a character typed and then deleted leaves
/// the filter and the rows as they were before, rebuilt.
#[verifier::rlimit(60)]
pub proof fn law_filter_type_then_delete(o: AppStateView, c: char)
    requires
        o.view_mode == ViewMode::Filter,
    ensures
        ({
            let o1 = list_key_spec(o, KeyInput { code: KeyCode::Char(c), ctrl: false }).0;
            let o2 = list_key_spec(o1, KeyInput { code: KeyCode::Backspace, ctrl: false }).0;
            &&& o2.filter_text == o.filter_text
            &&& o2 == rebuilt(o).with_selected(o2.selected)
        }),
{
    let t = o.filter_text;
    let o1 = with_filter(o, t.push(c));
    assert(list_key_spec(o, KeyInput { code: KeyCode::Char(c), ctrl: false }).0 == o1);
    assert(o1.view_mode == ViewMode::Filter && o1.filter_text == t.push(c));
    assert(t.push(c).drop_last() =~= t);
    let o2 = with_filter(o1, t);
    assert(list_key_spec(o1, KeyInput { code: KeyCode::Backspace, ctrl: false }).0 == o2);
    lemma_rebuilt_frame(AppStateView { filter_text: t, ..o1 }, o);
}

/// Rebuilding reads neither the rows nor the projects shown of the state
/// it starts from, and of the selection only to keep it on a row.
proof fn lemma_rebuilt_frame(a: AppStateView, b: AppStateView)
    requires
        a.projects == b.projects,
        a.selected_project == b.selected_project,
        a.filter_text == b.filter_text,
        a.collapsed == b.collapsed,
        a.scroll_offset == b.scroll_offset,
        a.bd_error == b.bd_error,
        a.view_mode == b.view_mode,
        a.nav_stack == b.nav_stack,
        a.detail_scroll == b.detail_scroll,
        a.pending_g == b.pending_g,
        a.last_content_height == b.last_content_height,
        !(a.selected_project == 0 || a.selected_project - 1 < a.projects.len()) ==> a.filtered_projects == b.filtered_projects,
        !(a.selected_project == 0 || a.selected_project - 1 < a.projects.len()) ==> a.selected == b.selected,
    ensures
        rebuilt(a) == rebuilt(b).with_selected(rebuilt(a).selected),
{
    assert(rebuilt(a) =~= rebuilt(b).with_selected(rebuilt(a).selected));
}

// ---------------------------------------------------------------------
// What grouping, filtering, folding and the detail keys keep
// ---------------------------------------------------------------------

/// `ps` has a project per configuration of `cs`, in the same order, each
/// with the configuration's id, name, prefix and labels, and sub-projects
/// that stand in the same way for the configuration's children.
pub open spec fn mirrors(ps: Seq<ProjectView>, cs: Seq<ConfigView>) -> bool
    decreases cs,
{
    if cs.len() == 0 {
        ps.len() == 0
    } else {
        let p = ps.last();
        let c = cs.last();
        &&& ps.len() == cs.len()
        &&& p.id == c.id
        &&& p.name == c.name
        &&& p.prefix == c.prefix
        &&& p.labels == c.labels
        &&& mirrors(ps.drop_last(), cs.drop_last())
        &&& mirrors(p.children, c.children)
    }
}

proof fn lemma_build_mirrors(
    cs: Seq<ConfigView>,
    parent: Seq<Seq<char>>,
    es: Seq<(Seq<char>, Seq<Seq<char>>)>,
    ts: Seq<TaskView>,
)
    ensures
        mirrors(build_spec(cs, parent, es, ts), cs),
    decreases cs,
{
    if cs.len() > 0 {
        let c = cs.last();
        lemma_build_mirrors(cs.drop_last(), parent, es, ts);
        lemma_build_mirrors(c.children, parent.push(c.id), es, ts);
        let b = build_spec(cs, parent, es, ts);
        assert(b.drop_last() =~= build_spec(cs.drop_last(), parent, es, ts));
    }
}

/// Grouping builds, before the Uncategorized project if there is one, a
/// project for each configured project and sub-project, with its id, name,
/// prefix and labels.
pub proof fn law_group_tasks_keeps_configs(cs: Seq<ConfigView>, ts: Seq<TaskView>)
    ensures
        group_spec(cs, ts).len() == cs.len() || group_spec(cs, ts).len() == cs.len() + 1,
        mirrors(group_spec(cs, ts).take(cs.len() as int), cs),
        forall|i: int| 0 <= i < cs.len() ==> (#[trigger] group_spec(cs, ts)[i]).labels == cs[i].labels,
{
    let es = prefix_entries(cs, seq![]);
    let built = build_spec(cs, seq![], es, ts);
    lemma_build_mirrors(cs, seq![], es, ts);
    lemma_mirrors_len(built, cs);
    assert(group_spec(cs, ts).take(cs.len() as int) =~= built);
    assert forall|i: int| 0 <= i < cs.len() implies (#[trigger] group_spec(cs, ts)[i]).labels == cs[i].labels by {
        lemma_mirrors_at(built, cs, i);
        assert(group_spec(cs, ts)[i] == built[i]);
    }
}

proof fn lemma_mirrors_len(ps: Seq<ProjectView>, cs: Seq<ConfigView>)
    requires
        mirrors(ps, cs),
    ensures
        ps.len() == cs.len(),
{
}

/// The project at a position of a mirroring forest has the configuration's
/// id, name, prefix and labels.
pub proof fn lemma_mirrors_at(ps: Seq<ProjectView>, cs: Seq<ConfigView>, i: int)
    requires
        mirrors(ps, cs),
        0 <= i < cs.len(),
    ensures
        ps[i].id == cs[i].id,
        ps[i].name == cs[i].name,
        ps[i].prefix == cs[i].prefix,
        ps[i].labels == cs[i].labels,
        mirrors(ps[i].children, cs[i].children),
    decreases cs.len(),
{
    if i < cs.len() - 1 {
        lemma_mirrors_at(ps.drop_last(), cs.drop_last(), i);
        assert(ps.drop_last()[i] == ps[i]);
        assert(cs.drop_last()[i] == cs[i]);
    }
}

/// In the view of one project, the tasks shown are those of the project
/// and its sub-projects (sub-tasks included) whose lowercased title, id or
/// status contains the lowercased filter; all of them when the filter is
/// empty.
pub proof fn law_project_view_filter(p: ProjectView, f: Seq<char>)
    ensures
        forall|t: TaskView| #[trigger] project_view_tasks(p, f).contains(t) <==> project_tasks(p).contains(t) && (
            f.len() == 0 || has_substring(lowercase(t.title), lowercase(f)) || has_substring(lowercase(t.id), lowercase(f))
                || has_substring(lowercase(t.status), lowercase(f))),
{
    broadcast use Seq::lemma_filter_contains_rev, Seq::lemma_filter_pred, Seq::lemma_filter_contains;
    let all = project_tasks(p);
    assert forall|t: TaskView| #[trigger] project_view_tasks(p, f).contains(t) <==> all.contains(t) && (
        f.len() == 0 || has_substring(lowercase(t.title), lowercase(f)) || has_substring(lowercase(t.id), lowercase(f))
            || has_substring(lowercase(t.status), lowercase(f))) by {
        if f.len() > 0 {
            let v = project_view_tasks(p, f);
            if v.contains(t) {
                let k = choose|k: int| 0 <= k < v.len() && v[k] == t;
                assert(v[k] == t);
            }
            if all.contains(t) && (has_substring(lowercase(t.title), lowercase(f)) || has_substring(lowercase(t.id), lowercase(f))
                || has_substring(lowercase(t.status), lowercase(f))) {
                let k = choose|k: int| 0 <= k < all.len() && all[k] == t;
                assert(all[k] == t);
            }
        }
    }
}

proof fn lemma_contains_add<A>(a: Seq<A>, b: Seq<A>, x: A)
    ensures
        (a + b).contains(x) <==> a.contains(x) || b.contains(x),
{
    if a.contains(x) {
        let k = choose|k: int| 0 <= k < a.len() && a[k] == x;
        assert((a + b)[k] == x);
    }
    if b.contains(x) {
        let k = choose|k: int| 0 <= k < b.len() && b[k] == x;
        assert((a + b)[a.len() + k] == x);
    }
    if (a + b).contains(x) {
        let k = choose|k: int| 0 <= k < (a + b).len() && (a + b)[k] == x;
        if k < a.len() {
            assert(a[k] == x);
        } else {
            assert(b[k - a.len()] == x);
        }
    }
}

/// The text query that `filter_by_text` applies: the lowercased title or
/// id contains the lowercased query.
pub open spec fn title_or_id_contains(t: TaskView, query: Seq<char>) -> bool {
    has_substring(lowercase(t.title), lowercase(query)) || has_substring(lowercase(t.id), lowercase(query))
}

proof fn lemma_filter_tasks_keeps(ts: Seq<TaskView>, query: Seq<char>, t: TaskView)
    requires
        task_preorder(ts).contains(t),
        title_or_id_contains(t, query),
    ensures
        task_preorder(filter_tasks_spec(ts, lowercase(query))).contains(t),
    decreases ts,
{
    let q = lowercase(query);
    let u = ts.last();
    let a = task_preorder(ts.drop_last());
    let r = filter_tasks_spec(ts.drop_last(), q);
    let mc = filter_tasks_spec(u.children, q);
    lemma_contains_add(a + seq![u], task_preorder(u.children), t);
    lemma_contains_add(a, seq![u], t);
    if a.contains(t) {
        lemma_filter_tasks_keeps(ts.drop_last(), query, t);
    }
    if task_preorder(u.children).contains(t) {
        lemma_filter_tasks_keeps(u.children, query, t);
    }
    if seq![u].contains(t) {
        assert(seq![u][0] == u);
    }
    let f = filter_tasks_spec(ts, q);
    if text_matches(u, q) {
        assert(f == r.push(u));
        lemma_task_preorder_push(r, u);
        lemma_contains_add(task_preorder(r) + seq![u], task_preorder(u.children), t);
        lemma_contains_add(task_preorder(r), seq![u], t);
        if seq![u].contains(t) || t == u {
            assert(seq![u][0] == u);
        }
    } else if mc.len() > 0 {
        let w = with_children(u, mc);
        assert(f == r.push(w));
        lemma_task_preorder_push(r, w);
        lemma_contains_add(task_preorder(r) + seq![w], task_preorder(mc), t);
        lemma_contains_add(task_preorder(r), seq![w], t);
        if t == u {
            assert(text_matches(u, q));
        }
    } else {
        assert(f == r);
        if task_preorder(u.children).contains(t) {
            assert(task_preorder(mc).len() > 0);
        }
        if t == u {
            assert(text_matches(u, q));
        }
    }
}

proof fn lemma_task_preorder_push(r: Seq<TaskView>, u: TaskView)
    ensures
        task_preorder(r.push(u)) == task_preorder(r) + seq![u] + task_preorder(u.children),
{
    assert(r.push(u).drop_last() =~= r);
}

proof fn lemma_forest_push(r: Seq<ProjectView>, p: ProjectView)
    ensures
        forest_tasks(r.push(p)) == forest_tasks(r) + task_preorder(p.tasks) + forest_tasks(p.children),
{
    assert(r.push(p).drop_last() =~= r);
}

/// Filtering by text keeps every task, at any depth, whose lowercased
/// title or id contains the lowercased query anywhere.
pub proof fn law_filter_by_text_keeps_matches(ps: Seq<ProjectView>, query: Seq<char>, t: TaskView)
    requires
        forest_tasks(ps).contains(t),
        title_or_id_contains(t, query),
    ensures
        forest_tasks(filter_text_spec(ps, lowercase(query))).contains(t),
    decreases ps,
{
    let q = lowercase(query);
    let p = ps.last();
    let a = forest_tasks(ps.drop_last());
    let r = filter_text_spec(ps.drop_last(), q);
    let mt = filter_tasks_spec(p.tasks, q);
    let mc = filter_text_spec(p.children, q);
    lemma_contains_add(a + task_preorder(p.tasks), forest_tasks(p.children), t);
    lemma_contains_add(a, task_preorder(p.tasks), t);
    if a.contains(t) {
        law_filter_by_text_keeps_matches(ps.drop_last(), query, t);
    }
    if task_preorder(p.tasks).contains(t) {
        lemma_filter_tasks_keeps(p.tasks, query, t);
    }
    if forest_tasks(p.children).contains(t) {
        law_filter_by_text_keeps_matches(p.children, query, t);
    }
    let f = filter_text_spec(ps, q);
    if mt.len() == 0 && mc.len() == 0 {
        assert(f == r);
        assert(task_preorder(mt) =~= Seq::<TaskView>::empty());
        assert(forest_tasks(mc) =~= Seq::<TaskView>::empty());
    } else {
        let w = with_contents(p, mt, mc);
        assert(f == r.push(w));
        lemma_forest_push(r, w);
        lemma_contains_add(forest_tasks(r) + task_preorder(mt), forest_tasks(mc), t);
        lemma_contains_add(forest_tasks(r), task_preorder(mt), t);
    }
}

/// Enter on a row that can fold (a project, a label group, or a task that
/// is an epic or has sub-tasks) folds it when it is unfolded and unfolds
/// it when it is folded; on any other row it changes nothing.
pub proof fn law_toggle_folds_foldable_rows(o: AppStateView)
    requires
        o.selected < o.tree_items.len(),
    ensures
        ({
            let row = o.tree_items[o.selected as int];
            let foldable = match row.kind {
                KindView::Project(_) => true,
                KindView::LabelGroup { .. } => true,
                KindView::Task(t) => t.task_type == "epic"@ || t.children.len() > 0,
            };
            &&& foldable ==> toggled_state(o).collapsed.contains(row.id) != o.collapsed.contains(row.id)
            &&& foldable ==> forall|y: Seq<char>| y != row.id ==> (#[trigger] toggled_state(o).collapsed.contains(y) == o.collapsed.contains(y))
            &&& !foldable ==> toggled_state(o) == o
        }),
{
    let row = o.tree_items[o.selected as int];
    law_toggle_twice(o.collapsed, row.id);
    lemma_toggled_agree(o.collapsed, row.id);
}

/// In the detail view of a task, a digit `d` from 1 to 9 opens its `d`-th
/// sub-task when it has that many, and changes no view otherwise. The
/// task shown is the first task with the id on top of the stack.
pub proof fn law_digit_opens_sub_task(o: AppStateView, key: KeyInput, d: char, t: TaskView)
    requires
        key.code == KeyCode::Char(d),
        '1' <= d <= '9',
        o.nav_stack.len() > 0,
        first_with_id(forest_tasks(o.projects), o.nav_stack.last()) == Some(t),
    ensures
        ({
            let n = (d as int) - ('0' as int);
            let (o2, a) = detail_key_spec(o, key);
            &&& a == ActionView::Continue
            &&& n <= t.children.len() ==> o2.nav_stack == o.nav_stack.push(t.children[n - 1].id)
                && o2.view_mode == ViewMode::Detail && o2.detail_scroll == 0
            &&& n > t.children.len() ==> o2.nav_stack == o.nav_stack && o2.view_mode == o.view_mode
        }),
{
    law_find_task_by_id_first(o.projects, o.nav_stack.last());
    assert(d != 'g' && d != 'q' && d != 'c' && d != 'j' && d != 'k' && d != 'G' && d != 'd' && d != 'u' && d != 'h' && d != 'o');
}
} // verus!
