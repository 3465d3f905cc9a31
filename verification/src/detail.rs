//! Looking tasks up by id, and the keys of the detail view.
use vstd::prelude::*;
use crate::data::{
    Project, ProjectView, Task, TaskView, lemma_project_children_view, lemma_projects_view_take,
    lemma_task_children_view, lemma_tasks_view_take, projects_view, tasks_view,
};
use crate::keys::{ActionView, KeyAction, KeyCode, KeyInput};
use crate::strings::{chars_of, str_eq};
use crate::seqs::count_of;
use crate::ui::opt_str_view;
use crate::ui::{AppState, AppStateView, entered, exited};

verus! {

/// The first task with id `id` in the pre-order of `ts`.
pub open spec fn find_in_tasks_spec(ts: Seq<TaskView>, id: Seq<char>) -> Option<TaskView>
    decreases ts,
{
    if ts.len() == 0 {
        None
    } else {
        match find_in_tasks_spec(ts.drop_last(), id) {
            Some(t) => Some(t),
            None => {
                let t = ts.last();
                if t.id == id {
                    Some(t)
                } else {
                    find_in_tasks_spec(t.children, id)
                }
            },
        }
    }
}

/// The first task with id `id` met when visiting, for each project in
/// turn, its tasks in pre-order and then its sub-projects.
pub open spec fn find_task_spec(ps: Seq<ProjectView>, id: Seq<char>) -> Option<TaskView>
    decreases ps,
{
    if ps.len() == 0 {
        None
    } else {
        match find_task_spec(ps.drop_last(), id) {
            Some(t) => Some(t),
            None => {
                let p = ps.last();
                match find_in_tasks_spec(p.tasks, id) {
                    Some(t) => Some(t),
                    None => find_task_spec(p.children, id),
                }
            },
        }
    }
}

fn find_in_tasks<'a>(tasks: &'a [Task], id: &str) -> (r: Option<&'a Task>)
    ensures
        match r {
            Some(t) => find_in_tasks_spec(tasks_view(tasks@), id@) == Some(t@),
            None => find_in_tasks_spec(tasks_view(tasks@), id@) is None,
        },
    decreases tasks@,
{
    let n = tasks.len();
    assert(tasks_view(tasks@.take(0)) =~= Seq::<TaskView>::empty());
    for i in 0..n
        invariant
            n == tasks@.len(),
            find_in_tasks_spec(tasks_view(tasks@.take(i as int)), id@) is None,
    {
        let task = &tasks[i];
        proof {
            lemma_tasks_view_take(tasks@, i as int);
            lemma_task_children_view(*task);
            assert(tasks_view(tasks@).take(i + 1) =~= tasks_view(tasks@.take(i + 1)));
        }
        if str_eq(task.id.as_str(), id) {
            proof {
                lemma_find_in_tasks_prefix(tasks_view(tasks@), i as int, id@);
            }
            return Some(task);
        }
        assert(decreases_to!(tasks@ => tasks@[i as int]));
        let found = find_in_tasks(task.children.as_slice(), id);
        if let Some(t) = found {
            proof {
                lemma_find_in_tasks_prefix(tasks_view(tasks@), i as int, id@);
            }
            return Some(t);
        }
    }
    assert(tasks@.take(n as int) =~= tasks@);
    None
}

/// When the first `i` tasks hold no match, the search of the whole forest
/// gives what the search of the first `i + 1` gives, if that finds one.
proof fn lemma_find_in_tasks_prefix(ts: Seq<TaskView>, i: int, id: Seq<char>)
    requires
        0 <= i < ts.len(),
        find_in_tasks_spec(ts.take(i + 1), id) is Some,
    ensures
        find_in_tasks_spec(ts, id) == find_in_tasks_spec(ts.take(i + 1), id),
    decreases ts.len(),
{
    if ts.len() > i + 1 {
        assert(ts.drop_last().take(i + 1) =~= ts.take(i + 1));
        lemma_find_in_tasks_prefix(ts.drop_last(), i, id);
    } else {
        assert(ts.take(i + 1) =~= ts);
    }
}

proof fn lemma_find_task_prefix(ps: Seq<ProjectView>, i: int, id: Seq<char>)
    requires
        0 <= i < ps.len(),
        find_task_spec(ps.take(i + 1), id) is Some,
    ensures
        find_task_spec(ps, id) == find_task_spec(ps.take(i + 1), id),
    decreases ps.len(),
{
    if ps.len() > i + 1 {
        assert(ps.drop_last().take(i + 1) =~= ps.take(i + 1));
        lemma_find_task_prefix(ps.drop_last(), i, id);
    } else {
        assert(ps.take(i + 1) =~= ps);
    }
}

/// The first task with id `id` among the projects' tasks and sub-tasks,
/// searching each project's tasks before its sub-projects.
pub fn find_task_by_id<'a>(projects: &'a [Project], id: &str) -> (r: Option<&'a Task>)
    ensures
        match r {
            Some(t) => find_task_spec(projects_view(projects@), id@) == Some(t@),
            None => find_task_spec(projects_view(projects@), id@) is None,
        },
    decreases projects@,
{
    let n = projects.len();
    assert(projects_view(projects@.take(0)) =~= Seq::<ProjectView>::empty());
    for i in 0..n
        invariant
            n == projects@.len(),
            find_task_spec(projects_view(projects@.take(i as int)), id@) is None,
    {
        let project = &projects[i];
        proof {
            lemma_projects_view_take(projects@, i as int);
            lemma_project_children_view(*project);
            assert(projects_view(projects@).take(i + 1) =~= projects_view(projects@.take(i + 1)));
        }
        if let Some(found) = find_in_tasks(project.tasks.as_slice(), id) {
            proof {
                lemma_find_task_prefix(projects_view(projects@), i as int, id@);
            }
            return Some(found);
        }
        assert(decreases_to!(projects@ => projects@[i as int]));
        if let Some(found) = find_task_by_id(project.children.as_slice(), id) {
            proof {
                lemma_find_task_prefix(projects_view(projects@), i as int, id@);
            }
            return Some(found);
        }
    }
    assert(projects@.take(n as int) =~= projects@);
    None
}


/// The smaller of two numbers.
pub open spec fn min_u16(a: u16, b: u16) -> u16 {
    if a <= b {
        a
    } else {
        b
    }
}

fn min_of(a: u16, b: u16) -> (r: u16)
    ensures
        r == min_u16(a, b),
{
    if a <= b {
        a
    } else {
        b
    }
}

/// The state with another scroll position of the detail view.
pub open spec fn scrolled(o: AppStateView, detail_scroll: u16) -> AppStateView {
    AppStateView { detail_scroll, ..o }
}

/// What a key press in the detail view does: the state after it and the
/// action. The scroll position stops 20 rows before the end of the
/// content; digits open the matching sub-task of the task shown.
pub open spec fn detail_key_spec(o0: AppStateView, key: KeyInput) -> (AppStateView, ActionView) {
    if o0.pending_g && key.code == KeyCode::Char('g') {
        (AppStateView { detail_scroll: 0, pending_g: false, ..o0 }, ActionView::Continue)
    } else {
        let o = AppStateView { pending_g: false, ..o0 };
        let limit = o.last_content_height.saturating_sub(20);
        match key.code {
            KeyCode::Char('q') => (o, ActionView::Quit),
            KeyCode::Char('c') if key.ctrl => (o, ActionView::Quit),
            KeyCode::Char('j') | KeyCode::Down => (
                scrolled(o, min_u16(o.detail_scroll.saturating_add(1), limit)),
                ActionView::Continue,
            ),
            KeyCode::Char('k') | KeyCode::Up => (scrolled(o, o.detail_scroll.saturating_sub(1)), ActionView::Continue),
            KeyCode::Char('G') | KeyCode::End => (scrolled(o, limit), ActionView::Continue),
            KeyCode::Home => (scrolled(o, 0), ActionView::Continue),
            KeyCode::Char('d') if key.ctrl => (
                scrolled(o, min_u16(o.detail_scroll.saturating_add(10), limit)),
                ActionView::Continue,
            ),
            KeyCode::PageDown => (
                scrolled(o, min_u16(o.detail_scroll.saturating_add(10), limit)),
                ActionView::Continue,
            ),
            KeyCode::Char('u') if key.ctrl => (scrolled(o, o.detail_scroll.saturating_sub(10)), ActionView::Continue),
            KeyCode::PageUp => (scrolled(o, o.detail_scroll.saturating_sub(10)), ActionView::Continue),
            KeyCode::Left | KeyCode::Char('h') | KeyCode::Esc => (exited(o), ActionView::Continue),
            KeyCode::Char('o') => if o.nav_stack.len() > 0 {
                (o, ActionView::EditTask(o.nav_stack.last()))
            } else {
                (o, ActionView::Continue)
            },
            KeyCode::Char(c) if '1' <= c && c <= '9' => {
                let n = (c as int) - ('0' as int);
                if o.nav_stack.len() > 0 {
                    match find_task_spec(o.projects, o.nav_stack.last()) {
                        Some(t) => if n - 1 < t.children.len() {
                            (entered(o, t.children[n - 1].id), ActionView::Continue)
                        } else {
                            (o, ActionView::Continue)
                        },
                        None => (o, ActionView::Continue),
                    }
                } else {
                    (o, ActionView::Continue)
                }
            },
            KeyCode::Char('g') => (AppStateView { pending_g: true, ..o }, ActionView::Continue),
            _ => (o, ActionView::Continue),
        }
    }
}

/// Handles a key press in the detail view.
pub fn handle_detail_key(key: KeyInput, state: &mut AppState) -> (action: KeyAction)
    ensures
        (final(state)@, action@) == detail_key_spec(old(state)@, key),
{
    if state.pending_g {
        if key.code == KeyCode::Char('g') {
            state.detail_scroll = 0;
            state.pending_g = false;
            return KeyAction::Continue;
        } else {
            state.pending_g = false;
        }
    }
    let limit = state.last_content_height.saturating_sub(20);
    match key.code {
        KeyCode::Char('q') => {
            return KeyAction::Quit;
        },
        KeyCode::Char('c') if key.ctrl => {
            return KeyAction::Quit;
        },
        KeyCode::Char('j') | KeyCode::Down => {
            state.detail_scroll = min_of(state.detail_scroll.saturating_add(1), limit);
        },
        KeyCode::Char('k') | KeyCode::Up => {
            state.detail_scroll = state.detail_scroll.saturating_sub(1);
        },
        KeyCode::Char('G') | KeyCode::End => {
            state.detail_scroll = limit;
        },
        KeyCode::Home => {
            state.detail_scroll = 0;
        },
        KeyCode::Char('d') if key.ctrl => {
            state.detail_scroll = min_of(state.detail_scroll.saturating_add(10), limit);
        },
        KeyCode::PageDown => {
            state.detail_scroll = min_of(state.detail_scroll.saturating_add(10), limit);
        },
        KeyCode::Char('u') if key.ctrl => {
            state.detail_scroll = state.detail_scroll.saturating_sub(10);
        },
        KeyCode::PageUp => {
            state.detail_scroll = state.detail_scroll.saturating_sub(10);
        },
        KeyCode::Left | KeyCode::Char('h') | KeyCode::Esc => {
            state.exit_detail();
        },
        KeyCode::Char('o') => {
            if let Some(id) = state.current_detail_id() {
                return KeyAction::EditTask(String::from_str(id));
            }
        },
        KeyCode::Char(c) if '1' <= c && c <= '9' => {
            let n = (c as u32) - ('0' as u32);
            let mut child_id: Option<String> = None;
            if let Some(current_id) = state.current_detail_id() {
                if let Some(task) = find_task_by_id(state.projects.as_slice(), current_id) {
                    proof {
                        lemma_task_children_view(*task);
                    }
                    if ((n - 1) as usize) < task.children.len() {
                        child_id = Some(task.children[(n - 1) as usize].id.clone());
                    }
                }
            }
            if let Some(id) = child_id {
                state.enter_detail(id);
            }
        },
        KeyCode::Char('g') => {
            state.pending_g = true;
        },
        _ => {},
    }
    KeyAction::Continue
}


/// Number of lines of the detail view of a task: title, status line, id
/// line and separator; the lines of the description, when there is one;
/// and, when the task has sub-tasks, a blank line, a heading and a line
/// per sub-task.
pub open spec fn detail_lines_of(t: TaskView) -> nat {
    4 + (if t.description.len() > 0 { count_of(t.description, '\n') + 1 } else { 0 }) + (if t.children.len() > 0 {
        2 + t.children.len()
    } else {
        0
    })
}

/// Number of lines of the detail view of a task.
pub fn detail_line_count(task: &Task) -> (n: usize)
    requires
        detail_lines_of(task@) <= usize::MAX,
    ensures
        n == detail_lines_of(task@),
{
    let mut n: usize = 4;
    let desc = chars_of(task.description.as_str());
    let ghost d = task@.description;
    if desc.len() > 0 {
        let mut newlines: usize = 0;
        let m = desc.len();
        assert(d.take(0) =~= Seq::<char>::empty());
        for i in 0..m
            invariant
                m == d.len(),
                desc@ == d,
                newlines == count_of(d.take(i as int), '\n'),
                newlines <= i,
                detail_lines_of(task@) <= usize::MAX,
                d.len() > 0,
        {
            assert(d.take(i + 1).drop_last() =~= d.take(i as int));
            if desc[i] == '\n' {
                newlines = newlines + 1;
            }
        }
        assert(d.take(m as int) =~= d);
        proof {
            crate::seqs::lemma_count_of_contains(d, '\n');
        }
        n = n + newlines + 1;
    }
    proof {
        lemma_task_children_view(*task);
    }
    if task.children.len() > 0 {
        n = n + 2 + task.children.len();
    }
    n
}

/// The title shown in the breadcrumb for the task `id`: its title, or the
/// id itself when no task has it.
pub open spec fn crumb_of(ps: Seq<ProjectView>, id: Seq<char>) -> Seq<char> {
    match find_task_spec(ps, id) {
        Some(t) => t.title,
        None => id,
    }
}

/// The breadcrumb of the detail view: for each task opened, in order, its
/// title.
pub fn breadcrumb_titles(state: &AppState) -> (titles: Vec<String>)
    ensures
        titles@.len() == state@.nav_stack.len(),
        forall|i: int| 0 <= i < titles@.len() ==> #[trigger] titles@[i]@ == crumb_of(state@.projects, state@.nav_stack[i]),
{
    let mut titles: Vec<String> = Vec::new();
    let n = state.nav_stack.len();
    for i in 0..n
        invariant
            n == state.nav_stack@.len(),
            titles@.len() == i,
            forall|j: int| 0 <= j < i ==> #[trigger] titles@[j]@ == crumb_of(state@.projects, state@.nav_stack[j]),
    {
        let id = &state.nav_stack[i];
        assert(state@.nav_stack[i as int] == id@);
        let title = match find_task_by_id(state.projects.as_slice(), id.as_str()) {
            Some(t) => t.title.clone(),
            None => id.clone(),
        };
        titles.push(title);
    }
    titles
}

} // verus!
