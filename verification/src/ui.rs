//! State of the dashboard: the flattened, navigable tree of projects,
//! label groups and tasks, with the operations the keys trigger.
use vstd::prelude::*;
use vstd::string::*;
use crate::data::{
    Project, ProjectView, Task, TaskView, clone_projects, clone_strings, contains_string,
    forest_tasks, lemma_forest_tasks_add, lemma_project_children_view, lemma_projects_view_take,
    lemma_task_children_view, lemma_task_preorder_add, lemma_tasks_view_push, lemma_tasks_view_take,
    project_tasks, projects_view, strs_view, task_preorder, tasks_view, filter_text_spec,
    filter_tasks_spec, filter_by_text, with_children, with_contents, lemma_strs_view_push,
    ProjectTree, group_spec, group_tasks, lemma_projects_view_push, count_for, lookup_count,
};
use crate::strings::{
    concat_str, contains_str, has_substring, is_prefix_of, lowercase, pop_char, push_char, str_eq,
    strip_prefix, to_lowercase,
};
use crate::keys::{ActionView, KeyAction, KeyCode, KeyInput};

verus! {

/// Which screen the dashboard shows.
#[derive(PartialEq, Eq, Structural, Clone, Copy, Debug)]
pub enum ViewMode {
    List,
    Detail,
    Filter,
}

/// One row of the flattened tree.
#[derive(Debug)]
pub struct TreeItem {
    pub depth: usize,
    pub kind: TreeItemKind,
    pub expanded: bool,
    pub id: String,
}

/// What a row of the tree shows.
#[derive(Debug)]
pub enum TreeItemKind {
    Project(Project),
    LabelGroup { key: String, name: String },
    Task(Task),
}

pub enum KindView {
    Project(ProjectView),
    LabelGroup { key: Seq<char>, name: Seq<char> },
    Task(TaskView),
}

pub struct TreeItemView {
    pub depth: int,
    pub kind: KindView,
    pub expanded: bool,
    pub id: Seq<char>,
}

impl View for TreeItemKind {
    type V = KindView;

    open spec fn view(&self) -> KindView {
        match self {
            TreeItemKind::Project(p) => KindView::Project(p@),
            TreeItemKind::LabelGroup { key, name } => KindView::LabelGroup { key: key@, name: name@ },
            TreeItemKind::Task(t) => KindView::Task(t@),
        }
    }
}

impl View for TreeItem {
    type V = TreeItemView;

    open spec fn view(&self) -> TreeItemView {
        TreeItemView { depth: self.depth as int, kind: self.kind@, expanded: self.expanded, id: self.id@ }
    }
}

pub open spec fn items_view(v: Seq<TreeItem>) -> Seq<TreeItemView> {
    Seq::new(v.len(), |i: int| v[i]@)
}

/// A task row can fold when it is an epic or has sub-tasks.
pub open spec fn task_collapsible(t: TaskView) -> bool {
    t.task_type == "epic"@ || t.children.len() > 0
}

/// Project and label-group rows can always fold; task rows as above.
pub open spec fn kind_collapsible(k: KindView) -> bool {
    match k {
        KindView::Project(_) => true,
        KindView::LabelGroup { .. } => true,
        KindView::Task(t) => task_collapsible(t),
    }
}

/// Whether a task can fold.
fn task_is_collapsible(t: &Task) -> (r: bool)
    ensures
        r == task_collapsible(t@),
{
    str_eq(t.task_type.as_str(), "epic") || t.children.len() > 0
}

impl TreeItem {
    /// The name shown for the row: the project's name, the group's name or
    /// the task's title.
    pub fn display_name(&self) -> (name: String)
        ensures
            name@ == match self.kind@ {
                KindView::Project(p) => p.name,
                KindView::LabelGroup { name, .. } => name,
                KindView::Task(t) => t.title,
            },
    {
        match &self.kind {
            TreeItemKind::Project(p) => p.name.clone(),
            TreeItemKind::LabelGroup { name, .. } => name.clone(),
            TreeItemKind::Task(t) => t.title.clone(),
        }
    }

    /// The status of a task row; none for other rows.
    pub fn status(&self) -> (status: Option<&str>)
        ensures
            match self.kind@ {
                KindView::Task(t) => status matches Some(s) && s@ == t.status,
                _ => status is None,
            },
    {
        match &self.kind {
            TreeItemKind::Project(_) => None,
            TreeItemKind::LabelGroup { .. } => None,
            TreeItemKind::Task(t) => Some(t.status.as_str()),
        }
    }

    /// The labels shown for the row: none, whatever the row is.
    pub fn labels(&self) -> (labels: &[String])
        ensures
            labels@.len() == 0,
    {
        &[]
    }

    /// Whether the row can be folded.
    pub fn is_collapsible(&self) -> (r: bool)
        ensures
            r == kind_collapsible(self.kind@),
    {
        match &self.kind {
            TreeItemKind::Project(_) => true,
            TreeItemKind::LabelGroup { .. } => true,
            TreeItemKind::Task(t) => task_is_collapsible(t),
        }
    }
}

/// The state of the dashboard.
pub struct AppState {
    pub projects: Vec<Project>,
    /// 0 is the view of all projects; `i + 1` the view of `projects[i]`.
    pub selected_project: usize,
    pub tree_items: Vec<TreeItem>,
    pub selected: usize,
    pub scroll_offset: usize,
    pub filter_text: String,
    pub bd_error: Option<String>,
    /// Ids of the folded rows.
    pub collapsed: Vec<String>,
    pub filtered_projects: Vec<Project>,
    pub view_mode: ViewMode,
    /// Ids of the tasks opened in the detail view, the current one last.
    pub nav_stack: Vec<String>,
    pub detail_scroll: u16,
    pub pending_g: bool,
    pub last_content_height: u16,
}

#[verifier::ext_equal]
pub struct AppStateView {
    pub projects: Seq<ProjectView>,
    pub selected_project: usize,
    pub tree_items: Seq<TreeItemView>,
    pub selected: usize,
    pub scroll_offset: usize,
    pub filter_text: Seq<char>,
    pub bd_error: Option<Seq<char>>,
    pub collapsed: Seq<Seq<char>>,
    pub filtered_projects: Seq<ProjectView>,
    pub view_mode: ViewMode,
    pub nav_stack: Seq<Seq<char>>,
    pub detail_scroll: u16,
    pub pending_g: bool,
    pub last_content_height: u16,
}

pub open spec fn opt_str_view(o: Option<String>) -> Option<Seq<char>> {
    match o {
        Some(s) => Some(s@),
        None => None,
    }
}

impl View for AppState {
    type V = AppStateView;

    open spec fn view(&self) -> AppStateView {
        AppStateView {
            projects: projects_view(self.projects@),
            selected_project: self.selected_project,
            tree_items: items_view(self.tree_items@),
            selected: self.selected,
            scroll_offset: self.scroll_offset,
            filter_text: self.filter_text@,
            bd_error: opt_str_view(self.bd_error),
            collapsed: strs_view(self.collapsed@),
            filtered_projects: projects_view(self.filtered_projects@),
            view_mode: self.view_mode,
            nav_stack: strs_view(self.nav_stack@),
            detail_scroll: self.detail_scroll,
            pending_g: self.pending_g,
            last_content_height: self.last_content_height,
        }
    }
}

impl AppStateView {
    pub open spec fn with_selected(self, selected: usize) -> AppStateView {
        AppStateView { selected, ..self }
    }

    pub open spec fn with_detail(self, nav_stack: Seq<Seq<char>>, detail_scroll: u16, pending_g: bool, view_mode: ViewMode) -> AppStateView {
        AppStateView { nav_stack, detail_scroll, pending_g, view_mode, ..self }
    }
}

/// The state after the detail view of `id` is opened.
pub open spec fn entered(o: AppStateView, id: Seq<char>) -> AppStateView {
    o.with_detail(o.nav_stack.push(id), 0, false, ViewMode::Detail)
}

/// The state after the selection moves one row up, unless it is on the
/// first row.
pub open spec fn moved_up(o: AppStateView) -> AppStateView {
    o.with_selected(if o.selected > 0 { (o.selected - 1) as usize } else { o.selected })
}

/// The state after the selection moves one row down, unless it is on the
/// last row.
pub open spec fn moved_down(o: AppStateView) -> AppStateView {
    o.with_selected(
        if o.tree_items.len() > 0 && o.selected < o.tree_items.len() - 1 { (o.selected + 1) as usize } else { o.selected },
    )
}

/// The state after the current detail view is closed.
pub open spec fn exited(o: AppStateView) -> AppStateView {
    let stack = if o.nav_stack.len() > 0 { o.nav_stack.drop_last() } else { o.nav_stack };
    if stack.len() == 0 {
        o.with_detail(stack, o.detail_scroll, o.pending_g, ViewMode::List)
    } else {
        o.with_detail(stack, 0, false, o.view_mode)
    }
}

impl AppState {
    /// An empty dashboard showing the list of all projects.
    pub fn new() -> (s: Self)
        ensures
            s@.projects.len() == 0,
            s@.selected_project == 0,
            s@.tree_items.len() == 0,
            s@.selected == 0,
            s@.scroll_offset == 0,
            s@.filter_text.len() == 0,
            s@.bd_error is None,
            s@.collapsed.len() == 0,
            s@.filtered_projects.len() == 0,
            s@.view_mode == ViewMode::List,
            s@.nav_stack.len() == 0,
            s@.detail_scroll == 0,
            !s@.pending_g,
            s@.last_content_height == 0,
    {
        AppState {
            projects: Vec::new(),
            selected_project: 0,
            tree_items: Vec::new(),
            selected: 0,
            scroll_offset: 0,
            filter_text: String::new(),
            bd_error: None,
            collapsed: Vec::new(),
            filtered_projects: Vec::new(),
            view_mode: ViewMode::List,
            nav_stack: Vec::new(),
            detail_scroll: 0,
            pending_g: false,
            last_content_height: 0,
        }
    }

    /// Moves the selection one row up, if it is not on the first.
    pub fn move_up(&mut self)
        ensures
            final(self)@ == moved_up(old(self)@),
    {
        if self.selected > 0 {
            self.selected = self.selected - 1;
        }
    }

    /// Moves the selection one row down, if it is not on the last.
    pub fn move_down(&mut self)
        ensures
            final(self)@ == moved_down(old(self)@),
    {
        if self.tree_items.len() > 0 && self.selected < self.tree_items.len() - 1 {
            self.selected = self.selected + 1;
        }
    }

    /// The id of the selected row, if the selection is on a row.
    pub fn selected_task_id(&self) -> (id: Option<&str>)
        ensures
            self.selected < self.tree_items@.len() ==> (id matches Some(s) && s@ == self.tree_items@[self.selected as int].id@),
            self.selected >= self.tree_items@.len() ==> id is None,
    {
        if self.selected < self.tree_items.len() {
            Some(self.tree_items[self.selected].id.as_str())
        } else {
            None
        }
    }

    /// Opens the detail view of the task `task_id` on top of those open.
    pub fn enter_detail(&mut self, task_id: String)
        ensures
            final(self)@ == entered(old(self)@, task_id@),
    {
        let ghost old_stack = self.nav_stack@;
        self.nav_stack.push(task_id);
        assert(strs_view(self.nav_stack@) =~= strs_view(old_stack).push(task_id@));
        self.detail_scroll = 0;
        self.pending_g = false;
        self.view_mode = ViewMode::Detail;
    }

    /// Closes the current detail view: back to the previous task, or to the
    /// list when none is left.
    pub fn exit_detail(&mut self)
        ensures
            final(self)@ == exited(old(self)@),
    {
        let ghost old_stack = self.nav_stack@;
        self.nav_stack.pop();
        assert(strs_view(self.nav_stack@) =~= if old_stack.len() > 0 { strs_view(old_stack).drop_last() } else { strs_view(old_stack) });
        if self.nav_stack.len() == 0 {
            self.view_mode = ViewMode::List;
        } else {
            self.detail_scroll = 0;
            self.pending_g = false;
        }
    }

    /// The id of the task the detail view shows: the last one opened.
    pub fn current_detail_id(&self) -> (id: Option<&str>)
        ensures
            self.nav_stack@.len() > 0 ==> (id matches Some(s) && s@ == self.nav_stack@.last()@),
            self.nav_stack@.len() == 0 ==> id is None,
    {
        let n = self.nav_stack.len();
        if n > 0 {
            Some(self.nav_stack[n - 1].as_str())
        } else {
            None
        }
    }
}


// ---------------------------------------------------------------------
// Flattening the tree
// ---------------------------------------------------------------------

pub open spec fn max_nat(a: nat, b: nat) -> nat {
    if a < b { b } else { a }
}

/// Number of levels of a task and its sub-tasks.
pub open spec fn task_height(t: TaskView) -> nat
    decreases t,
{
    1 + tasks_height(t.children)
}

/// The greatest height of the tasks of a forest; 0 for none.
pub open spec fn tasks_height(ts: Seq<TaskView>) -> nat
    decreases ts,
{
    if ts.len() == 0 {
        0
    } else {
        max_nat(tasks_height(ts.drop_last()), task_height(ts.last()))
    }
}

/// Number of levels of a project with its tasks and sub-projects.
pub open spec fn project_height(p: ProjectView) -> nat
    decreases p,
{
    1 + max_nat(tasks_height(p.tasks), projects_height(p.children))
}

/// The greatest height of the projects of a forest; 0 for none.
pub open spec fn projects_height(ps: Seq<ProjectView>) -> nat
    decreases ps,
{
    if ps.len() == 0 {
        0
    } else {
        max_nat(projects_height(ps.drop_last()), project_height(ps.last()))
    }
}

pub proof fn lemma_tasks_height(ts: Seq<TaskView>, i: int)
    requires
        0 <= i < ts.len(),
    ensures
        task_height(ts[i]) <= tasks_height(ts),
    decreases ts.len(),
{
    if i < ts.len() - 1 {
        lemma_tasks_height(ts.drop_last(), i);
    }
}

pub proof fn lemma_projects_height(ps: Seq<ProjectView>, i: int)
    requires
        0 <= i < ps.len(),
    ensures
        project_height(ps[i]) <= projects_height(ps),
    decreases ps.len(),
{
    if i < ps.len() - 1 {
        lemma_projects_height(ps.drop_last(), i);
    }
}

/// The id of a task's row.
pub open spec fn task_row_id(t: TaskView) -> Seq<char> {
    "task:"@ + t.id
}

/// The id of a project's row.
pub open spec fn project_row_id(p: ProjectView) -> Seq<char> {
    "project:"@ + p.id
}

/// The rows of a task at `depth`: its own, followed by those of its
/// sub-tasks one level deeper when it can fold and is not folded.
pub open spec fn flatten_task_spec(t: TaskView, depth: int, c: Seq<Seq<char>>) -> Seq<TreeItemView>
    decreases t,
{
    let folded = c.contains(task_row_id(t));
    let row = TreeItemView {
        depth,
        kind: KindView::Task(t),
        expanded: !folded && task_collapsible(t),
        id: task_row_id(t),
    };
    if task_collapsible(t) && !folded {
        seq![row] + flatten_tasks_spec(t.children, depth + 1, c)
    } else {
        seq![row]
    }
}

/// The rows of the tasks of a forest, one after the other.
pub open spec fn flatten_tasks_spec(ts: Seq<TaskView>, depth: int, c: Seq<Seq<char>>) -> Seq<TreeItemView>
    decreases ts,
{
    if ts.len() == 0 {
        seq![]
    } else {
        flatten_tasks_spec(ts.drop_last(), depth, c) + flatten_task_spec(ts.last(), depth, c)
    }
}

/// The rows of a project at `depth`: its own, followed, unless it is
/// folded, by those of its tasks and then of its sub-projects, one level
/// deeper.
pub open spec fn flatten_project_spec(p: ProjectView, depth: int, c: Seq<Seq<char>>) -> Seq<TreeItemView>
    decreases p,
{
    let folded = c.contains(project_row_id(p));
    let row = TreeItemView { depth, kind: KindView::Project(p), expanded: !folded, id: project_row_id(p) };
    if !folded {
        seq![row] + flatten_tasks_spec(p.tasks, depth + 1, c) + flatten_projects_spec(p.children, depth + 1, c)
    } else {
        seq![row]
    }
}

/// The rows of the projects of a forest, one after the other.
pub open spec fn flatten_projects_spec(ps: Seq<ProjectView>, depth: int, c: Seq<Seq<char>>) -> Seq<TreeItemView>
    decreases ps,
{
    if ps.len() == 0 {
        seq![]
    } else {
        flatten_projects_spec(ps.drop_last(), depth, c) + flatten_project_spec(ps.last(), depth, c)
    }
}

pub proof fn lemma_items_view_push(v: Seq<TreeItem>, x: TreeItem)
    ensures
        items_view(v.push(x)) == items_view(v).push(x@),
{
    assert(items_view(v.push(x)) =~= items_view(v).push(x@));
}

/// Appends the rows of `task` at `depth`.
fn flatten_task(task: &Task, depth: usize, collapsed: &[String], items: &mut Vec<TreeItem>)
    requires
        depth + task_height(task@) <= usize::MAX,
    ensures
        items_view(final(items)@) == items_view(old(items)@) + flatten_task_spec(
            task@,
            depth as int,
            strs_view(collapsed@),
        ),
    decreases task,
{
    let ghost c = strs_view(collapsed@);
    let ghost base = items_view(items@);
    let id = concat_str("task:", task.id.as_str());
    let is_collapsible = task_is_collapsible(task);
    let is_collapsed = contains_string(collapsed, id.as_str());
    let item = TreeItem { depth, kind: TreeItemKind::Task(task.clone()), expanded: !is_collapsed && is_collapsible, id };
    proof {
        lemma_items_view_push(items@, item);
        lemma_task_children_view(*task);
    }
    items.push(item);
    if is_collapsible && !is_collapsed {
        let n = task.children.len();
        let ghost cv = tasks_view(task.children@);
        assert(tasks_view(task.children@.take(0)) =~= Seq::<TaskView>::empty());
        for j in 0..n
            invariant
                n == task.children@.len(),
                cv == tasks_view(task.children@),
                task@.children == cv,
                depth + task_height(task@) <= usize::MAX,
                c == strs_view(collapsed@),
                items_view(items@) == base + seq![item@] + flatten_tasks_spec(
                    tasks_view(task.children@.take(j as int)),
                    depth + 1,
                    c,
                ),
        {
            proof {
                lemma_tasks_view_take(task.children@, j as int);
                lemma_tasks_height(cv, j as int);
            }
            assert(decreases_to!(task => task.children@[j as int]));
            flatten_task(&task.children[j], depth + 1, collapsed, items);
        }
        assert(task.children@.take(n as int) =~= task.children@);
    }
}

/// Appends the rows of `project` at `depth`.
fn flatten_project(project: &Project, depth: usize, collapsed: &[String], items: &mut Vec<TreeItem>)
    requires
        depth + project_height(project@) <= usize::MAX,
    ensures
        items_view(final(items)@) == items_view(old(items)@) + flatten_project_spec(
            project@,
            depth as int,
            strs_view(collapsed@),
        ),
    decreases project,
{
    let ghost c = strs_view(collapsed@);
    let ghost base = items_view(items@);
    let id = concat_str("project:", project.id.as_str());
    let is_collapsed = contains_string(collapsed, id.as_str());
    let item = TreeItem { depth, kind: TreeItemKind::Project(project.clone()), expanded: !is_collapsed, id };
    proof {
        lemma_items_view_push(items@, item);
        lemma_project_children_view(*project);
    }
    items.push(item);
    if !is_collapsed {
        let n = project.tasks.len();
        let ghost tv = tasks_view(project.tasks@);
        assert(tasks_view(project.tasks@.take(0)) =~= Seq::<TaskView>::empty());
        for j in 0..n
            invariant
                n == project.tasks@.len(),
                tv == tasks_view(project.tasks@),
                project@.tasks == tv,
                depth + project_height(project@) <= usize::MAX,
                c == strs_view(collapsed@),
                items_view(items@) == base + seq![item@] + flatten_tasks_spec(
                    tasks_view(project.tasks@.take(j as int)),
                    depth + 1,
                    c,
                ),
        {
            proof {
                lemma_tasks_view_take(project.tasks@, j as int);
                lemma_tasks_height(tv, j as int);
            }
            flatten_task(&project.tasks[j], depth + 1, collapsed, items);
        }
        assert(project.tasks@.take(n as int) =~= project.tasks@);
        let ghost mid = items_view(items@);
        let m = project.children.len();
        let ghost pv = projects_view(project.children@);
        assert(projects_view(project.children@.take(0)) =~= Seq::<ProjectView>::empty());
        for j in 0..m
            invariant
                m == project.children@.len(),
                pv == projects_view(project.children@),
                project@.children == pv,
                depth + project_height(project@) <= usize::MAX,
                c == strs_view(collapsed@),
                items_view(items@) == mid + flatten_projects_spec(
                    projects_view(project.children@.take(j as int)),
                    depth + 1,
                    c,
                ),
        {
            proof {
                lemma_projects_view_take(project.children@, j as int);
                lemma_projects_height(pv, j as int);
            }
            assert(decreases_to!(project => project.children@[j as int]));
            flatten_project(&project.children[j], depth + 1, collapsed, items);
        }
        assert(project.children@.take(m as int) =~= project.children@);
    }
}

// ---------------------------------------------------------------------
// Collecting tasks
// ---------------------------------------------------------------------

/// Appends copies of the tasks of `tasks_list` in pre-order.
fn collect_tasks(tasks_list: &[Task], out: &mut Vec<Task>)
    ensures
        tasks_view(final(out)@) == tasks_view(old(out)@) + task_preorder(tasks_view(tasks_list@)),
    decreases tasks_list@,
{
    let ghost base = tasks_view(out@);
    let n = tasks_list.len();
    assert(tasks_view(tasks_list@.take(0)) =~= Seq::<TaskView>::empty());
    for i in 0..n
        invariant
            n == tasks_list@.len(),
            tasks_view(out@) == base + task_preorder(tasks_view(tasks_list@.take(i as int))),
    {
        let t = &tasks_list[i];
        proof {
            lemma_tasks_view_take(tasks_list@, i as int);
            lemma_task_children_view(*t);
        }
        let u = t.clone();
        proof {
            lemma_tasks_view_push(out@, u);
        }
        out.push(u);
        assert(decreases_to!(tasks_list@ => tasks_list@[i as int]));
        collect_tasks(t.children.as_slice(), out);
    }
    assert(tasks_list@.take(n as int) =~= tasks_list@);
}

/// Copies of all tasks of a project and its sub-projects: its own tasks in
/// pre-order, then those of each sub-project in turn.
fn collect_all_tasks(project: &Project) -> (tasks: Vec<Task>)
    ensures
        tasks_view(tasks@) == project_tasks(project@),
    decreases project,
{
    let mut tasks: Vec<Task> = Vec::new();
    proof {
        lemma_project_children_view(*project);
    }
    assert(tasks_view(tasks@) =~= Seq::<TaskView>::empty());
    collect_tasks(project.tasks.as_slice(), &mut tasks);
    let ghost own = task_preorder(project@.tasks);
    let n = project.children.len();
    assert(projects_view(project.children@.take(0)) =~= Seq::<ProjectView>::empty());
    for i in 0..n
        invariant
            n == project.children@.len(),
            project@.children == projects_view(project.children@),
            own == task_preorder(project@.tasks),
            tasks_view(tasks@) == own + forest_tasks(projects_view(project.children@.take(i as int))),
    {
        let child = &project.children[i];
        proof {
            lemma_projects_view_take(project.children@, i as int);
        }
        assert(decreases_to!(project => project.children@[i as int]));
        let more = collect_all_tasks(child);
        let ghost before = tasks_view(tasks@);
        let m = more.len();
        for j in 0..m
            invariant
                m == more@.len(),
                tasks_view(tasks@) == before + tasks_view(more@.take(j as int)),
        {
            let u = more[j].clone();
            proof {
                lemma_tasks_view_push(tasks@, u);
                lemma_tasks_view_take(more@, j as int);
            }
            tasks.push(u);
        }
        assert(more@.take(m as int) =~= more@);
        assert(tasks_view(tasks@) =~= own + forest_tasks(projects_view(project.children@.take(i + 1))));
    }
    assert(project.children@.take(n as int) =~= project.children@);
    tasks
}

/// The in-progress tasks of a forest in pre-order, each as the pair of
/// `name` and its title.
pub open spec fn ip_tasks(ts: Seq<TaskView>, name: Seq<char>) -> Seq<(Seq<char>, Seq<char>)>
    decreases ts,
{
    if ts.len() == 0 {
        seq![]
    } else {
        let t = ts.last();
        ip_tasks(ts.drop_last(), name) + (if t.status == "in_progress"@ {
            seq![(name, t.title)]
        } else {
            seq![]
        }) + ip_tasks(t.children, name)
    }
}

/// The in-progress tasks of a project forest as pairs of the name of the
/// project they belong to and their title.
pub open spec fn ip_projects(ps: Seq<ProjectView>) -> Seq<(Seq<char>, Seq<char>)>
    decreases ps,
{
    if ps.len() == 0 {
        seq![]
    } else {
        let p = ps.last();
        ip_projects(ps.drop_last()) + ip_tasks(p.tasks, p.name) + ip_projects(p.children)
    }
}

pub open spec fn pairs_view(v: Seq<(String, String)>) -> Seq<(Seq<char>, Seq<char>)> {
    Seq::new(v.len(), |i: int| (v[i].0@, v[i].1@))
}

fn collect_ip_from_tasks(tasks: &[Task], project_name: &str, result: &mut Vec<(String, String)>)
    ensures
        pairs_view(final(result)@) == pairs_view(old(result)@) + ip_tasks(tasks_view(tasks@), project_name@),
    decreases tasks@,
{
    let ghost base = pairs_view(result@);
    let n = tasks.len();
    assert(tasks_view(tasks@.take(0)) =~= Seq::<TaskView>::empty());
    for i in 0..n
        invariant
            n == tasks@.len(),
            pairs_view(result@) == base + ip_tasks(tasks_view(tasks@.take(i as int)), project_name@),
    {
        let task = &tasks[i];
        proof {
            lemma_tasks_view_take(tasks@, i as int);
            lemma_task_children_view(*task);
        }
        let ghost before = pairs_view(result@);
        if str_eq(task.status.as_str(), "in_progress") {
            result.push((String::from_str(project_name), task.title.clone()));
            assert(pairs_view(result@) =~= before + seq![(project_name@, task@.title)]);
        } else {
            assert(pairs_view(result@) =~= before + Seq::<(Seq<char>, Seq<char>)>::empty());
        }
        assert(decreases_to!(tasks@ => tasks@[i as int]));
        collect_ip_from_tasks(task.children.as_slice(), project_name, result);
    }
    assert(tasks@.take(n as int) =~= tasks@);
}

fn collect_ip_from_project(project: &Project, result: &mut Vec<(String, String)>)
    ensures
        pairs_view(final(result)@) == pairs_view(old(result)@) + ip_tasks(project@.tasks, project@.name)
            + ip_projects(project@.children),
    decreases project,
{
    proof {
        lemma_project_children_view(*project);
    }
    collect_ip_from_tasks(project.tasks.as_slice(), project.name.as_str(), result);
    let ghost base = pairs_view(result@);
    let n = project.children.len();
    assert(projects_view(project.children@.take(0)) =~= Seq::<ProjectView>::empty());
    for i in 0..n
        invariant
            n == project.children@.len(),
            project@.children == projects_view(project.children@),
            pairs_view(result@) == base + ip_projects(projects_view(project.children@.take(i as int))),
    {
        proof {
            lemma_projects_view_take(project.children@, i as int);
        }
        assert(decreases_to!(project => project.children@[i as int]));
        collect_ip_from_project(&project.children[i], result);
    }
    assert(project.children@.take(n as int) =~= project.children@);
}

/// The in-progress tasks of all projects, sub-projects and sub-tasks
/// included, as pairs of project name and task title.
pub fn collect_in_progress(projects: &[Project]) -> (result: Vec<(String, String)>)
    ensures
        pairs_view(result@) == ip_projects(projects_view(projects@)),
{
    let mut result: Vec<(String, String)> = Vec::new();
    assert(pairs_view(result@) =~= Seq::<(Seq<char>, Seq<char>)>::empty());
    let n = projects.len();
    assert(projects_view(projects@.take(0)) =~= Seq::<ProjectView>::empty());
    for i in 0..n
        invariant
            n == projects@.len(),
            pairs_view(result@) == ip_projects(projects_view(projects@.take(i as int))),
    {
        proof {
            lemma_projects_view_take(projects@, i as int);
        }
        collect_ip_from_project(&projects[i], &mut result);
    }
    assert(projects@.take(n as int) =~= projects@);
    result
}


// ---------------------------------------------------------------------
// Rebuilding the tree
// ---------------------------------------------------------------------

pub proof fn lemma_filter_tasks_height(ts: Seq<TaskView>, q: Seq<char>)
    ensures
        tasks_height(filter_tasks_spec(ts, q)) <= tasks_height(ts),
    decreases ts,
{
    if ts.len() > 0 {
        let t = ts.last();
        lemma_filter_tasks_height(ts.drop_last(), q);
        lemma_filter_tasks_height(t.children, q);
        let mc = filter_tasks_spec(t.children, q);
        let rest = filter_tasks_spec(ts.drop_last(), q);
        let w = with_children(t, mc);
        assert(rest.push(t).drop_last() =~= rest);
        assert(rest.push(w).drop_last() =~= rest);
        assert(rest.push(t).last() == t);
        assert(rest.push(w).last() == w);
        assert(task_height(w) == 1 + tasks_height(mc));
        assert(tasks_height(rest.push(t)) == max_nat(tasks_height(rest), task_height(t)));
        assert(tasks_height(rest.push(w)) == max_nat(tasks_height(rest), task_height(w)));
    }
}

pub proof fn lemma_filter_projects_height(ps: Seq<ProjectView>, q: Seq<char>)
    ensures
        projects_height(filter_text_spec(ps, q)) <= projects_height(ps),
    decreases ps,
{
    if ps.len() > 0 {
        let p = ps.last();
        lemma_filter_projects_height(ps.drop_last(), q);
        lemma_filter_projects_height(p.children, q);
        lemma_filter_tasks_height(p.tasks, q);
        let rest = filter_text_spec(ps.drop_last(), q);
        let x = with_contents(p, filter_tasks_spec(p.tasks, q), filter_text_spec(p.children, q));
        assert(rest.push(x).drop_last() =~= rest);
        assert(rest.push(x).last() == x);
        assert(project_height(x) == 1 + max_nat(tasks_height(x.tasks), projects_height(x.children)));
        assert(projects_height(rest.push(x)) == max_nat(projects_height(rest), project_height(x)));
        assert(project_height(p) == 1 + max_nat(tasks_height(p.tasks), projects_height(p.children)));
        assert(projects_height(ps) == max_nat(projects_height(ps.drop_last()), project_height(p)));
        assert(filter_text_spec(ps, q) == rest || filter_text_spec(ps, q) == rest.push(x));
    }
}

/// Every task met in pre-order is no higher than the forest.
pub proof fn lemma_preorder_heights(ts: Seq<TaskView>)
    ensures
        forall|i: int| 0 <= i < task_preorder(ts).len() ==> #[trigger] task_height(task_preorder(ts)[i]) <= tasks_height(ts),
    decreases ts,
{
    if ts.len() > 0 {
        let t = ts.last();
        let a = task_preorder(ts.drop_last());
        let b = task_preorder(t.children);
        lemma_preorder_heights(ts.drop_last());
        lemma_preorder_heights(t.children);
        lemma_tasks_height(ts, ts.len() - 1);
        assert forall|i: int| 0 <= i < task_preorder(ts).len() implies #[trigger] task_height(task_preorder(ts)[i]) <= tasks_height(ts) by {
            if i < a.len() {
                assert(task_preorder(ts)[i] == a[i]);
            } else if i == a.len() {
                assert(task_preorder(ts)[i] == t);
            } else {
                assert(task_preorder(ts)[i] == b[i - a.len() - 1]);
            }
        }
    }
}

/// Every task of a project forest is lower than the forest.
pub proof fn lemma_forest_task_heights(ps: Seq<ProjectView>)
    ensures
        forall|i: int| 0 <= i < forest_tasks(ps).len() ==> #[trigger] task_height(forest_tasks(ps)[i]) < projects_height(ps),
    decreases ps,
{
    if ps.len() > 0 {
        let p = ps.last();
        let a = forest_tasks(ps.drop_last());
        let b = task_preorder(p.tasks);
        let c = forest_tasks(p.children);
        lemma_forest_task_heights(ps.drop_last());
        lemma_forest_task_heights(p.children);
        lemma_preorder_heights(p.tasks);
        lemma_projects_height(ps, ps.len() - 1);
        assert forall|i: int| 0 <= i < forest_tasks(ps).len() implies #[trigger] task_height(forest_tasks(ps)[i]) < projects_height(ps) by {
            if i < a.len() {
                assert(forest_tasks(ps)[i] == a[i]);
            } else if i < a.len() + b.len() {
                assert(forest_tasks(ps)[i] == b[i - a.len()]);
            } else {
                assert(forest_tasks(ps)[i] == c[i - a.len() - b.len()]);
            }
        }
    }
}

/// Every task of a project is lower than the project.
pub proof fn lemma_project_task_heights(p: ProjectView)
    ensures
        forall|i: int| 0 <= i < project_tasks(p).len() ==> #[trigger] task_height(project_tasks(p)[i]) < project_height(p),
{
    let b = task_preorder(p.tasks);
    let c = forest_tasks(p.children);
    lemma_preorder_heights(p.tasks);
    lemma_forest_task_heights(p.children);
    assert forall|i: int| 0 <= i < project_tasks(p).len() implies #[trigger] task_height(project_tasks(p)[i]) < project_height(p) by {
        if i < b.len() {
            assert(project_tasks(p)[i] == b[i]);
        } else {
            assert(project_tasks(p)[i] == c[i - b.len()]);
        }
    }
}

/// A task is shown in the view of one project, under a text filter `q`,
/// when its lowercased title, id or status contains `q`.
pub open spec fn project_filter_matches(t: TaskView, q: Seq<char>) -> bool {
    has_substring(lowercase(t.title), q) || has_substring(lowercase(t.id), q) || has_substring(
        lowercase(t.status),
        q,
    )
}

/// The tasks of `ts` that carry `label`.
pub open spec fn with_label(ts: Seq<TaskView>, label: Seq<char>) -> Seq<TaskView> {
    ts.filter(|t: TaskView| t.labels.contains(label))
}

/// The id of the row of a label group.
pub open spec fn group_row_id(key: Seq<char>) -> Seq<char> {
    "label:"@ + key
}

/// The row of a label group with its task rows below it, unless folded;
/// nothing when no task carries the label.
pub open spec fn label_group_rows(ts: Seq<TaskView>, label: Seq<char>, c: Seq<Seq<char>>) -> Seq<TreeItemView> {
    let m = with_label(ts, label);
    let folded = c.contains(group_row_id(label));
    let row = TreeItemView {
        depth: 0,
        kind: KindView::LabelGroup { key: label, name: label },
        expanded: !folded,
        id: group_row_id(label),
    };
    if m.len() == 0 {
        seq![]
    } else if folded {
        seq![row]
    } else {
        seq![row] + flatten_tasks_spec(m, 1, c)
    }
}

/// The label groups of `labels`, one after the other.
pub open spec fn label_groups_rows(ts: Seq<TaskView>, labels: Seq<Seq<char>>, c: Seq<Seq<char>>) -> Seq<TreeItemView>
    decreases labels.len(),
{
    if labels.len() == 0 {
        seq![]
    } else {
        label_groups_rows(ts, labels.drop_last(), c) + label_group_rows(ts, labels.last(), c)
    }
}

/// Some task of `ts` with id `id` is listed in an unfolded group of one of
/// `labels`.
pub open spec fn shown_in_group(ts: Seq<TaskView>, labels: Seq<Seq<char>>, c: Seq<Seq<char>>, id: Seq<char>) -> bool {
    exists|li: int, ti: int|
        0 <= li < labels.len() && 0 <= ti < ts.len() && !c.contains(group_row_id(#[trigger] labels[li]))
            && (#[trigger] ts[ti]).labels.contains(labels[li]) && ts[ti].id == id
}

/// The tasks of `ts` whose id no unfolded label group lists. A task that
/// only a folded group would list belongs here, so folding a group moves
/// its tasks into "Other".
pub open spec fn other_tasks(ts: Seq<TaskView>, labels: Seq<Seq<char>>, c: Seq<Seq<char>>) -> Seq<TaskView> {
    ts.filter(|t: TaskView| !shown_in_group(ts, labels, c, t.id))
}

/// The "Other" group with its task rows, unless folded; nothing when it
/// has no task. Its tasks are those of `other_tasks`, which include the
/// tasks of folded label groups.
pub open spec fn other_rows(others: Seq<TaskView>, c: Seq<Seq<char>>) -> Seq<TreeItemView> {
    let folded = c.contains(group_row_id("_other"@));
    let row = TreeItemView {
        depth: 0,
        kind: KindView::LabelGroup { key: "_other"@, name: "Other"@ },
        expanded: !folded,
        id: group_row_id("_other"@),
    };
    if others.len() == 0 {
        seq![]
    } else if folded {
        seq![row]
    } else {
        seq![row] + flatten_tasks_spec(others, 1, c)
    }
}

/// The tasks shown in the view of one project: all of them, or those that
/// match the text filter.
pub open spec fn project_view_tasks(p: ProjectView, filter_text: Seq<char>) -> Seq<TaskView> {
    if filter_text.len() == 0 {
        project_tasks(p)
    } else {
        project_tasks(p).filter(|t: TaskView| project_filter_matches(t, lowercase(filter_text)))
    }
}

/// The rows of the view of one project: a group per label of the project,
/// then the "Other" group.
pub open spec fn project_view_rows(p: ProjectView, filter_text: Seq<char>, c: Seq<Seq<char>>) -> Seq<TreeItemView> {
    let ts = project_view_tasks(p, filter_text);
    label_groups_rows(ts, p.labels, c) + other_rows(other_tasks(ts, p.labels, c), c)
}

/// The selection, moved onto the last row when it is past the rows.
pub open spec fn clamp_selection(selected: usize, len: nat) -> usize {
    if len > 0 && selected >= len {
        (len - 1) as usize
    } else {
        selected
    }
}

/// The projects the view of all projects shows.
pub open spec fn all_view_projects(o: AppStateView) -> Seq<ProjectView> {
    if o.filter_text.len() == 0 {
        o.projects
    } else {
        filter_text_spec(o.projects, lowercase(o.filter_text))
    }
}

/// The state after the tree is rebuilt from the projects, the selected
/// view, the text filter and the folded rows.
pub open spec fn rebuilt(o: AppStateView) -> AppStateView {
    if o.selected_project == 0 {
        let fp = all_view_projects(o);
        let items = flatten_projects_spec(fp, 0, o.collapsed);
        AppStateView {
            filtered_projects: fp,
            tree_items: items,
            selected: clamp_selection(o.selected, items.len()),
            ..o
        }
    } else if o.selected_project - 1 < o.projects.len() {
        let p = o.projects[o.selected_project - 1];
        let items = project_view_rows(p, o.filter_text, o.collapsed);
        AppStateView {
            filtered_projects: seq![p],
            tree_items: items,
            selected: clamp_selection(o.selected, items.len()),
            ..o
        }
    } else {
        AppStateView { tree_items: seq![], ..o }
    }
}

/// The rows of the view of all projects.
fn all_view_rows(projects: &[Project], collapsed: &[String], items: &mut Vec<TreeItem>)
    requires
        projects_height(projects_view(projects@)) <= usize::MAX,
    ensures
        items_view(final(items)@) == items_view(old(items)@) + flatten_projects_spec(
            projects_view(projects@),
            0,
            strs_view(collapsed@),
        ),
{
    let ghost base = items_view(items@);
    let ghost pv = projects_view(projects@);
    let n = projects.len();
    assert(projects_view(projects@.take(0)) =~= Seq::<ProjectView>::empty());
    for i in 0..n
        invariant
            n == projects@.len(),
            pv == projects_view(projects@),
            projects_height(pv) <= usize::MAX,
            items_view(items@) == base + flatten_projects_spec(
                projects_view(projects@.take(i as int)),
                0,
                strs_view(collapsed@),
            ),
    {
        proof {
            lemma_projects_view_take(projects@, i as int);
            lemma_projects_height(pv, i as int);
        }
        flatten_project(&projects[i], 0, collapsed, items);
    }
    assert(projects@.take(n as int) =~= projects@);
}

/// Appends the rows of `tasks` at depth 1.
fn flatten_tasks_at_one(tasks: &[Task], collapsed: &[String], items: &mut Vec<TreeItem>, Ghost(h): Ghost<nat>)
    requires
        forall|k: int| 0 <= k < tasks@.len() ==> #[trigger] task_height(tasks@[k]@) < h,
        h <= usize::MAX,
    ensures
        items_view(final(items)@) == items_view(old(items)@) + flatten_tasks_spec(
            tasks_view(tasks@),
            1,
            strs_view(collapsed@),
        ),
{
    let ghost base = items_view(items@);
    let n = tasks.len();
    assert(tasks_view(tasks@.take(0)) =~= Seq::<TaskView>::empty());
    for j in 0..n
        invariant
            n == tasks@.len(),
            forall|k: int| 0 <= k < tasks@.len() ==> #[trigger] task_height(tasks@[k]@) < h,
            h <= usize::MAX,
            items_view(items@) == base + flatten_tasks_spec(
                tasks_view(tasks@.take(j as int)),
                1,
                strs_view(collapsed@),
            ),
    {
        proof {
            lemma_tasks_view_take(tasks@, j as int);
            assert(task_height(tasks@[j as int]@) < h);
        }
        flatten_task(&tasks[j], 1, collapsed, items);
    }
    assert(tasks@.take(n as int) =~= tasks@);
}

proof fn lemma_filter_take_step<A>(s: Seq<A>, i: int, pred: spec_fn(A) -> bool)
    requires
        0 <= i < s.len(),
    ensures
        s.take(i + 1).filter(pred) == if pred(s[i]) {
            s.take(i).filter(pred).push(s[i])
        } else {
            s.take(i).filter(pred)
        },
{
    reveal(Seq::filter);
    assert(s.take(i + 1).drop_last() =~= s.take(i));
}

/// The tasks of the view of one project.
fn project_view_task_list(project: &Project, filter_text: &String) -> (tasks: Vec<Task>)
    ensures
        tasks_view(tasks@) == project_view_tasks(project@, filter_text@),
        forall|k: int| 0 <= k < tasks@.len() ==> #[trigger] task_height(tasks@[k]@) < project_height(project@),
{
    let all_tasks = collect_all_tasks(project);
    proof {
        lemma_project_task_heights(project@);
        assert forall|k: int| 0 <= k < all_tasks@.len() implies #[trigger] task_height(all_tasks@[k]@) < project_height(project@) by {
            assert(tasks_view(all_tasks@)[k] == all_tasks@[k]@);
        }
    }
    if filter_text.as_str().is_empty() {
        return all_tasks;
    }
    let query = to_lowercase(filter_text.as_str());
    let ghost pred = |t: TaskView| project_filter_matches(t, lowercase(filter_text@));
    let ghost av = tasks_view(all_tasks@);
    let mut tasks: Vec<Task> = Vec::new();
    let n = all_tasks.len();
    assert(av.take(0).filter(pred) =~= Seq::<TaskView>::empty()) by {
        reveal(Seq::filter);
    }
    for i in 0..n
        invariant
            n == all_tasks@.len(),
            av == tasks_view(all_tasks@),
            av == project_tasks(project@),
            query@ == lowercase(filter_text@),
            pred == (|t: TaskView| project_filter_matches(t, lowercase(filter_text@))),
            forall|k: int| 0 <= k < all_tasks@.len() ==> #[trigger] task_height(all_tasks@[k]@) < project_height(project@),
            forall|k: int| 0 <= k < tasks@.len() ==> #[trigger] task_height(tasks@[k]@) < project_height(project@),
            tasks_view(tasks@) == av.take(i as int).filter(pred),
    {
        let t = &all_tasks[i];
        proof {
            lemma_filter_take_step(av, i as int, pred);
            assert(av[i as int] == t@);
        }
        let title = to_lowercase(t.title.as_str());
        let id = to_lowercase(t.id.as_str());
        let status = to_lowercase(t.status.as_str());
        if contains_str(title.as_str(), query.as_str()) || contains_str(id.as_str(), query.as_str())
            || contains_str(status.as_str(), query.as_str()) {
            let u = t.clone();
            proof {
                lemma_tasks_view_push(tasks@, u);
            }
            tasks.push(u);
        }
    }
    assert(av.take(n as int) =~= av);
    tasks
}


proof fn lemma_with_label_step(ts: Seq<TaskView>, k: int, label: Seq<char>)
    requires
        0 <= k < ts.len(),
    ensures
        with_label(ts.take(k + 1), label) == if ts[k].labels.contains(label) {
            with_label(ts.take(k), label).push(ts[k])
        } else {
            with_label(ts.take(k), label)
        },
{
    reveal(Seq::filter);
    assert(ts.take(k + 1).drop_last() =~= ts.take(k));
}

/// The ids in a label group are those of the tasks that carry the label.
proof fn lemma_with_label_ids(ts: Seq<TaskView>, label: Seq<char>, x: Seq<char>)
    ensures
        (exists|k: int| 0 <= k < with_label(ts, label).len() && #[trigger] with_label(ts, label)[k].id == x)
            <==> (exists|ti: int| 0 <= ti < ts.len() && (#[trigger] ts[ti]).labels.contains(label) && ts[ti].id == x),
{
    broadcast use Seq::lemma_filter_contains_rev, Seq::lemma_filter_pred, Seq::lemma_filter_contains;
    let pred = |t: TaskView| t.labels.contains(label);
    let m = with_label(ts, label);
    assert(m == ts.filter(pred));
    if exists|k: int| 0 <= k < m.len() && #[trigger] m[k].id == x {
        let k = choose|k: int| 0 <= k < m.len() && #[trigger] m[k].id == x;
        assert(m.contains(m[k]));
        assert(ts.contains(m[k]));
        assert(pred(m[k]));
        let ti = choose|ti: int| 0 <= ti < ts.len() && ts[ti] == m[k];
        assert(ts[ti].labels.contains(label) && ts[ti].id == x);
    }
    if exists|ti: int| 0 <= ti < ts.len() && (#[trigger] ts[ti]).labels.contains(label) && ts[ti].id == x {
        let ti = choose|ti: int| 0 <= ti < ts.len() && (#[trigger] ts[ti]).labels.contains(label) && ts[ti].id == x;
        assert(pred(ts[ti]));
        assert(m.contains(ts[ti]));
        let k = choose|k: int| 0 <= k < m.len() && m[k] == ts[ti];
        assert(m[k].id == x);
    }
}

proof fn lemma_shown_step(ts: Seq<TaskView>, labels: Seq<Seq<char>>, li: int, c: Seq<Seq<char>>, x: Seq<char>)
    requires
        0 <= li < labels.len(),
    ensures
        shown_in_group(ts, labels.take(li + 1), c, x) <==> (shown_in_group(ts, labels.take(li), c, x) || (
        !c.contains(group_row_id(labels[li])) && exists|ti: int|
            0 <= ti < ts.len() && (#[trigger] ts[ti]).labels.contains(labels[li]) && ts[ti].id == x)),
{
    let l0 = labels.take(li);
    let l1 = labels.take(li + 1);
    if shown_in_group(ts, l1, c, x) {
        let (a, ti) = choose|a: int, ti: int|
            0 <= a < l1.len() && 0 <= ti < ts.len() && !c.contains(group_row_id(#[trigger] l1[a]))
                && (#[trigger] ts[ti]).labels.contains(l1[a]) && ts[ti].id == x;
        if a < li {
            assert(l0[a] == l1[a]);
        } else {
            assert(l1[a] == labels[li]);
        }
    }
    if shown_in_group(ts, l0, c, x) {
        let (a, ti) = choose|a: int, ti: int|
            0 <= a < l0.len() && 0 <= ti < ts.len() && !c.contains(group_row_id(#[trigger] l0[a]))
                && (#[trigger] ts[ti]).labels.contains(l0[a]) && ts[ti].id == x;
        assert(l1[a] == l0[a]);
    }
    if !c.contains(group_row_id(labels[li])) && exists|ti: int|
        0 <= ti < ts.len() && (#[trigger] ts[ti]).labels.contains(labels[li]) && ts[ti].id == x {
        let ti = choose|ti: int| 0 <= ti < ts.len() && (#[trigger] ts[ti]).labels.contains(labels[li]) && ts[ti].id == x;
        assert(l1[li] == labels[li]);
    }
}

/// Appends the rows of the view of one project.
fn project_view_items(project: &Project, filter_text: &String, collapsed: &[String], items: &mut Vec<TreeItem>)
    requires
        project_height(project@) <= usize::MAX,
    ensures
        items_view(final(items)@) == items_view(old(items)@) + project_view_rows(
            project@,
            filter_text@,
            strs_view(collapsed@),
        ),
{
    let ghost base = items_view(items@);
    let ghost c = strs_view(collapsed@);
    let ghost labels = project@.labels;
    let ghost h = project_height(project@);
    let tasks = project_view_task_list(project, filter_text);
    let ghost ts = tasks_view(tasks@);
    let mut matched_ids: Vec<String> = Vec::new();
    let nl = project.labels.len();
    let nt = tasks.len();
    assert(labels.take(0) =~= Seq::<Seq<char>>::empty());
    assert(strs_view(matched_ids@) =~= Seq::<Seq<char>>::empty());
    for li in 0..nl
        invariant
            nl == project.labels@.len(),
            nt == tasks@.len(),
            labels == project@.labels,
            labels == strs_view(project.labels@),
            ts == tasks_view(tasks@),
            c == strs_view(collapsed@),
            h == project_height(project@),
            h <= usize::MAX,
            forall|k: int| 0 <= k < tasks@.len() ==> #[trigger] task_height(tasks@[k]@) < h,
            items_view(items@) == base + label_groups_rows(ts, labels.take(li as int), c),
            forall|x: Seq<char>| #[trigger] strs_view(matched_ids@).contains(x) <==> shown_in_group(ts, labels.take(li as int), c, x),
    {
        let label = &project.labels[li];
        let ghost l = label@;
        let ghost before_items = items_view(items@);
        let ghost before_ids = strs_view(matched_ids@);
        assert(labels[li as int] == l);
        let mut matching: Vec<Task> = Vec::new();
        assert(with_label(ts.take(0), l) =~= Seq::<TaskView>::empty()) by {
            reveal(Seq::filter);
        }
        for k in 0..nt
            invariant
                nt == tasks@.len(),
                ts == tasks_view(tasks@),
                l == label@,
                forall|j: int| 0 <= j < tasks@.len() ==> #[trigger] task_height(tasks@[j]@) < h,
                forall|j: int| 0 <= j < matching@.len() ==> #[trigger] task_height(matching@[j]@) < h,
                tasks_view(matching@) == with_label(ts.take(k as int), l),
        {
            proof {
                lemma_with_label_step(ts, k as int, l);
                assert(ts[k as int] == tasks@[k as int]@);
            }
            if contains_string(tasks[k].labels.as_slice(), label.as_str()) {
                let u = tasks[k].clone();
                proof {
                    lemma_tasks_view_push(matching@, u);
                }
                matching.push(u);
            }
        }
        assert(ts.take(nt as int) =~= ts);
        let ghost m = with_label(ts, l);
        proof {
            assert(labels.take(li + 1).drop_last() =~= labels.take(li as int));
            assert(labels.take(li + 1).last() == l);
        }
        if matching.len() > 0 {
            let group_id = concat_str("label:", label.as_str());
            let is_collapsed = contains_string(collapsed, group_id.as_str());
            let row = TreeItem {
                depth: 0,
                kind: TreeItemKind::LabelGroup { key: label.clone(), name: label.clone() },
                expanded: !is_collapsed,
                id: group_id,
            };
            proof {
                lemma_items_view_push(items@, row);
            }
            items.push(row);
            if !is_collapsed {
                let nm = matching.len();
                for j in 0..nm
                    invariant
                        nm == matching@.len(),
                        tasks_view(matching@) == m,
                        forall|x: Seq<char>| #[trigger] strs_view(matched_ids@).contains(x) <==> (before_ids.contains(x) || exists|k: int| 0 <= k < j && #[trigger] m[k].id == x),
                {
                    let ghost prev = strs_view(matched_ids@);
                    proof {
                        lemma_strs_view_push(matched_ids@, matching@[j as int].id);
                        assert(m[j as int] == matching@[j as int]@);
                    }
                    matched_ids.push(matching[j].id.clone());
                    proof {
                        assert forall|x: Seq<char>| #[trigger] strs_view(matched_ids@).contains(x) <==> (before_ids.contains(x) || exists|k: int| 0 <= k < j + 1 && #[trigger] m[k].id == x) by {
                            let sv = strs_view(matched_ids@);
                            if sv.contains(x) {
                                let a = choose|a: int| 0 <= a < sv.len() && sv[a] == x;
                                if a < prev.len() {
                                    assert(prev[a] == x);
                                    assert(prev.contains(x));
                                } else {
                                    assert(m[j as int].id == x);
                                }
                            }
                            if prev.contains(x) {
                                let a = choose|a: int| 0 <= a < prev.len() && prev[a] == x;
                                assert(sv[a] == x);
                            }
                            if exists|k: int| 0 <= k < j + 1 && #[trigger] m[k].id == x {
                                let k = choose|k: int| 0 <= k < j + 1 && #[trigger] m[k].id == x;
                                if k == j {
                                    assert(sv[prev.len() as int] == x);
                                }
                            }
                        }
                    }
                }
                flatten_tasks_at_one(matching.as_slice(), collapsed, items, Ghost(h));
                proof {
                    assert forall|x: Seq<char>| #[trigger] strs_view(matched_ids@).contains(x) <==> shown_in_group(ts, labels.take(li + 1), c, x) by {
                        lemma_shown_step(ts, labels, li as int, c, x);
                        lemma_with_label_ids(ts, l, x);
                    }
                }
            } else {
                proof {
                    assert forall|x: Seq<char>| #[trigger] strs_view(matched_ids@).contains(x) <==> shown_in_group(ts, labels.take(li + 1), c, x) by {
                        lemma_shown_step(ts, labels, li as int, c, x);
                    }
                }
            }
        } else {
            proof {
                assert forall|x: Seq<char>| #[trigger] strs_view(matched_ids@).contains(x) <==> shown_in_group(ts, labels.take(li + 1), c, x) by {
                    lemma_shown_step(ts, labels, li as int, c, x);
                    lemma_with_label_ids(ts, l, x);
                }
            }
        }
    }
    assert(labels.take(nl as int) =~= labels);
    let ghost mid = items_view(items@);
    let ghost not_shown = |t: TaskView| !shown_in_group(ts, labels, c, t.id);
    let mut other: Vec<Task> = Vec::new();
    assert(ts.take(0).filter(not_shown) =~= Seq::<TaskView>::empty()) by {
        reveal(Seq::filter);
    }
    for k in 0..nt
        invariant
            nt == tasks@.len(),
            ts == tasks_view(tasks@),
            not_shown == (|t: TaskView| !shown_in_group(ts, labels, c, t.id)),
            forall|x: Seq<char>| #[trigger] strs_view(matched_ids@).contains(x) <==> shown_in_group(ts, labels, c, x),
            forall|j: int| 0 <= j < tasks@.len() ==> #[trigger] task_height(tasks@[j]@) < h,
            forall|j: int| 0 <= j < other@.len() ==> #[trigger] task_height(other@[j]@) < h,
            tasks_view(other@) == ts.take(k as int).filter(not_shown),
    {
        proof {
            lemma_filter_take_step(ts, k as int, not_shown);
            assert(ts[k as int] == tasks@[k as int]@);
        }
        if !contains_string(matched_ids.as_slice(), tasks[k].id.as_str()) {
            let u = tasks[k].clone();
            proof {
                lemma_tasks_view_push(other@, u);
            }
            other.push(u);
        }
    }
    assert(ts.take(nt as int) =~= ts);
    if other.len() > 0 {
        let group_id = String::from_str("label:_other");
        let is_collapsed = contains_string(collapsed, group_id.as_str());
        proof {
            reveal_strlit("label:_other");
            reveal_strlit("label:");
            reveal_strlit("_other");
            assert(group_id@ =~= group_row_id("_other"@));
        }
        let row = TreeItem {
            depth: 0,
            kind: TreeItemKind::LabelGroup { key: String::from_str("_other"), name: String::from_str("Other") },
            expanded: !is_collapsed,
            id: group_id,
        };
        proof {
            lemma_items_view_push(items@, row);
        }
        items.push(row);
        if !is_collapsed {
            flatten_tasks_at_one(other.as_slice(), collapsed, items, Ghost(h));
        }
    }
}

impl AppState {
    /// Rebuilds the rows from the projects, the selected view, the text
    /// filter and the folded rows. The view of all projects lists the
    /// projects (reduced to those matching the filter, if there is one) with
    /// their tasks and sub-projects; the view of one project lists a group
    /// per label of the project, then an "Other" group. The "Other" group
    /// takes every task that no unfolded label group lists: the tasks of a
    /// folded group appear again under "Other". The selection moves onto
    /// the last row when it is past them.
    pub fn rebuild_tree(&mut self)
        requires
            projects_height(old(self)@.projects) <= usize::MAX,
        ensures
            final(self)@ == rebuilt(old(self)@),
    {
        let ghost o = self@;
        let mut items: Vec<TreeItem> = Vec::new();
        assert(items_view(items@) =~= Seq::<TreeItemView>::empty());
        if self.selected_project == 0 {
            let mut projects = clone_projects(self.projects.as_slice());
            if !self.filter_text.as_str().is_empty() {
                projects = filter_by_text(projects.as_slice(), self.filter_text.as_str());
                proof {
                    lemma_filter_projects_height(o.projects, lowercase(o.filter_text));
                }
            }
            self.filtered_projects = projects;
            all_view_rows(self.filtered_projects.as_slice(), self.collapsed.as_slice(), &mut items);
        } else if self.selected_project - 1 < self.projects.len() {
            let project = self.projects[self.selected_project - 1].clone();
            proof {
                lemma_projects_height(o.projects, o.selected_project - 1);
            }
            let fp = vec![project.clone()];
            assert(projects_view(fp@) =~= seq![project@]);
            self.filtered_projects = fp;
            project_view_items(&project, &self.filter_text, self.collapsed.as_slice(), &mut items);
        }
        self.tree_items = items;
        if self.tree_items.len() > 0 && self.selected >= self.tree_items.len() {
            self.selected = self.tree_items.len() - 1;
        }
        assert(self@ =~= rebuilt(o));
    }
}


// ---------------------------------------------------------------------
// Operations on the state
// ---------------------------------------------------------------------

/// Holds of every string but `id`.
pub open spec fn other_than(id: Seq<char>) -> spec_fn(Seq<char>) -> bool {
    |x: Seq<char>| x != id
}

/// The folded rows after the row `id` is folded or unfolded.
pub open spec fn toggled(c: Seq<Seq<char>>, id: Seq<char>) -> Seq<Seq<char>> {
    if c.contains(id) {
        c.filter(other_than(id))
    } else {
        c.push(id)
    }
}

/// The strings of `v` other than `x`.
fn without(v: &[String], x: &str) -> (r: Vec<String>)
    ensures
        strs_view(r@) == strs_view(v@).filter(other_than(x@)),
{
    let ghost sv = strs_view(v@);
    let ghost pred = other_than(x@);
    let mut r: Vec<String> = Vec::new();
    let n = v.len();
    assert(sv.take(0).filter(pred) =~= Seq::<Seq<char>>::empty()) by {
        reveal(Seq::filter);
    }
    assert(strs_view(r@) =~= Seq::<Seq<char>>::empty());
    for i in 0..n
        invariant
            n == v@.len(),
            sv == strs_view(v@),
            pred == other_than(x@),
            strs_view(r@) == sv.take(i as int).filter(pred),
    {
        proof {
            lemma_filter_take_step(sv, i as int, pred);
        }
        if !str_eq(v[i].as_str(), x) {
            proof {
                lemma_strs_view_push(r@, v@[i as int]);
            }
            r.push(v[i].clone());
        }
    }
    assert(sv.take(n as int) =~= sv);
    r
}

/// The view after the selected project is changed and the tree rebuilt.
pub open spec fn with_project(o: AppStateView, selected_project: usize) -> AppStateView {
    rebuilt(AppStateView { selected_project, ..o })
}

/// The view after the text filter is changed and the tree rebuilt.
pub open spec fn with_filter(o: AppStateView, filter_text: Seq<char>) -> AppStateView {
    rebuilt(AppStateView { filter_text, ..o })
}

/// The state after the selected row is folded or unfolded, when it can
/// be; otherwise the state as it is.
pub open spec fn toggled_state(o: AppStateView) -> AppStateView {
    if o.selected < o.tree_items.len() && kind_collapsible(o.tree_items[o.selected as int].kind) {
        rebuilt(AppStateView { collapsed: toggled(o.collapsed, o.tree_items[o.selected as int].id), ..o })
    } else {
        o
    }
}

impl AppState {
    /// Folds the selected row, or unfolds it when it is folded, if it can
    /// fold; then rebuilds the tree.
    pub fn toggle_selected(&mut self)
        requires
            projects_height(old(self)@.projects) <= usize::MAX,
        ensures
            final(self)@ == toggled_state(old(self)@),
    {
        if self.selected < self.tree_items.len() {
            if self.tree_items[self.selected].is_collapsible() {
                let id = self.tree_items[self.selected].id.clone();
                assert(id@ == self@.tree_items[self.selected as int].id);
                if contains_string(self.collapsed.as_slice(), id.as_str()) {
                    self.collapsed = without(self.collapsed.as_slice(), id.as_str());
                } else {
                    proof {
                        lemma_strs_view_push(self.collapsed@, id);
                    }
                    self.collapsed.push(id);
                }
                self.rebuild_tree();
            }
        }
    }

    /// Shows the next project's view; after the last, the view of all.
    pub fn cycle_project(&mut self)
        requires
            old(self).projects@.len() < usize::MAX,
            old(self).selected_project < usize::MAX,
            projects_height(old(self)@.projects) <= usize::MAX,
        ensures
            final(self)@ == with_project(
                old(self)@,
                ((old(self).selected_project + 1) % ((old(self).projects@.len() + 1) as int)) as usize,
            ),
    {
        let total = self.projects.len() + 1;
        self.selected_project = (self.selected_project + 1) % total;
        self.rebuild_tree();
    }

    /// Shows the previous project's view; before the first, the view of all.
    pub fn cycle_project_backward(&mut self)
        requires
            old(self).selected_project + old(self).projects@.len() < usize::MAX,
            projects_height(old(self)@.projects) <= usize::MAX,
        ensures
            final(self)@ == with_project(
                old(self)@,
                ((old(self).selected_project + old(self).projects@.len()) % ((old(self).projects@.len()
                    + 1) as int)) as usize,
            ),
    {
        let total = self.projects.len() + 1;
        self.selected_project = (self.selected_project + total - 1) % total;
        self.rebuild_tree();
    }

    /// Filters by a status: "all" clears the text filter, any other
    /// status becomes the text filter; then rebuilds the tree.
    pub fn set_status_filter(&mut self, status: &str)
        requires
            projects_height(old(self)@.projects) <= usize::MAX,
        ensures
            final(self)@ == with_filter(old(self)@, if status@ == "all"@ { Seq::empty() } else { status@ }),
    {
        if str_eq(status, "all") {
            self.filter_text = String::new();
        } else {
            self.filter_text = String::from_str(status);
        }
        self.rebuild_tree();
    }

    /// Replaces the projects with the tasks grouped into the configured
    /// projects (only the top-level project `project_filter`, when one is
    /// given), clears the fetch error and rebuilds the tree.
    pub fn apply_fetched_tasks(&mut self, tree: &ProjectTree, tasks: &[Task], project_filter: Option<&str>)
        requires
            projects_height(group_spec(tree@, tasks_view(tasks@))) <= usize::MAX,
        ensures
            final(self)@ == rebuilt(AppStateView {
                bd_error: None,
                projects: match project_filter {
                    Some(id) => group_spec(tree@, tasks_view(tasks@)).filter(|p: ProjectView| p.id == id@),
                    None => group_spec(tree@, tasks_view(tasks@)),
                },
                ..old(self)@
            }),
    {
        self.bd_error = None;
        let mut projects = group_tasks(tree, tasks);
        let ghost g = group_spec(tree@, tasks_view(tasks@));
        if let Some(proj_id) = project_filter {
            let ghost pred = |p: ProjectView| p.id == proj_id@;
            let mut kept: Vec<Project> = Vec::new();
            let n = projects.len();
            assert(g.take(0).filter(pred) =~= Seq::<ProjectView>::empty()) by {
                reveal(Seq::filter);
            }
            assert(projects_view(kept@) =~= Seq::<ProjectView>::empty());
            for i in 0..n
                invariant
                    n == projects@.len(),
                    g == projects_view(projects@),
                    pred == (|p: ProjectView| p.id == proj_id@),
                    projects_view(kept@) == g.take(i as int).filter(pred),
            {
                proof {
                    lemma_filter_take_step(g, i as int, pred);
                }
                if str_eq(projects[i].id.as_str(), proj_id) {
                    let p = projects[i].clone();
                    proof {
                        lemma_projects_view_push(kept@, p);
                    }
                    kept.push(p);
                }
            }
            assert(g.take(n as int) =~= g);
            proof {
                lemma_filter_projects_height_le(g, pred);
            }
            projects = kept;
        }
        self.projects = projects;
        self.rebuild_tree();
    }
}

/// Keeping some projects of a forest does not make it higher.
pub proof fn lemma_filter_projects_height_le(ps: Seq<ProjectView>, pred: spec_fn(ProjectView) -> bool)
    ensures
        projects_height(ps.filter(pred)) <= projects_height(ps),
    decreases ps.len(),
{
    reveal(Seq::filter);
    if ps.len() > 0 {
        lemma_filter_projects_height_le(ps.drop_last(), pred);
        let f = ps.drop_last().filter(pred);
        assert(f.push(ps.last()).drop_last() =~= f);
    }
}

/// What a key press in the list does: the state after it and the action.
pub open spec fn list_key_spec(o: AppStateView, key: KeyInput) -> (AppStateView, ActionView) {
    if o.view_mode == ViewMode::Filter {
        match key.code {
            KeyCode::Esc => (rebuilt(AppStateView { view_mode: ViewMode::List, filter_text: Seq::empty(), ..o }), ActionView::Continue),
            KeyCode::Enter => (rebuilt(AppStateView { view_mode: ViewMode::List, ..o }), ActionView::Continue),
            KeyCode::Backspace => (with_filter(o, if o.filter_text.len() > 0 { o.filter_text.drop_last() } else { o.filter_text }), ActionView::Continue),
            KeyCode::Char(c) => (with_filter(o, o.filter_text.push(c)), ActionView::Continue),
            _ => (o, ActionView::Continue),
        }
    } else {
        match key.code {
            KeyCode::Char('q') | KeyCode::Esc => (o, ActionView::Quit),
            KeyCode::Char('c') if key.ctrl => (o, ActionView::Quit),
            KeyCode::Char('j') | KeyCode::Down => (moved_down(o), ActionView::Continue),
            KeyCode::Char('k') | KeyCode::Up => (moved_up(o), ActionView::Continue),
            KeyCode::Enter => (toggled_state(o), ActionView::Continue),
            KeyCode::Tab => (with_project(o, ((o.selected_project + 1) % ((o.projects.len() + 1) as int)) as usize), ActionView::Continue),
            KeyCode::BackTab => (with_project(o, ((o.selected_project + o.projects.len()) % ((o.projects.len() + 1) as int)) as usize), ActionView::Continue),
            KeyCode::Char('/') => (AppStateView { view_mode: ViewMode::Filter, filter_text: Seq::empty(), ..o }, ActionView::Continue),
            KeyCode::Char('1') => (with_filter(o, Seq::empty()), ActionView::Continue),
            KeyCode::Char('2') => (with_filter(o, "in_progress"@), ActionView::Continue),
            KeyCode::Char('3') => (with_filter(o, "open"@), ActionView::Continue),
            KeyCode::Char('4') => (with_filter(o, "blocked"@), ActionView::Continue),
            KeyCode::Char('r') => (o, ActionView::Refresh),
            KeyCode::Char('o') => {
                if o.selected < o.tree_items.len() && is_prefix_of("task:"@, o.tree_items[o.selected as int].id) {
                    let id = o.tree_items[o.selected as int].id;
                    (o, ActionView::OpenInEditor(id.subrange("task:"@.len() as int, id.len() as int)))
                } else {
                    (o, ActionView::Continue)
                }
            },
            _ => (o, ActionView::Continue),
        }
    }
}

/// Handles a key press in the list or while the text filter is typed.
pub fn handle_key(key: KeyInput, state: &mut AppState) -> (action: KeyAction)
    requires
        projects_height(old(state)@.projects) <= usize::MAX,
        old(state).selected_project + old(state).projects@.len() < usize::MAX,
    ensures
        (final(state)@, action@) == list_key_spec(old(state)@, key),
{
    if state.view_mode == ViewMode::Filter {
        match key.code {
            KeyCode::Esc => {
                state.view_mode = ViewMode::List;
                state.filter_text = String::new();
                state.rebuild_tree();
            },
            KeyCode::Enter => {
                state.view_mode = ViewMode::List;
                state.rebuild_tree();
            },
            KeyCode::Backspace => {
                let _ = pop_char(&mut state.filter_text);
                state.rebuild_tree();
            },
            KeyCode::Char(c) => {
                push_char(&mut state.filter_text, c);
                state.rebuild_tree();
            },
            _ => {},
        }
        return KeyAction::Continue;
    }
    match key.code {
        KeyCode::Char('q') | KeyCode::Esc => {
            return KeyAction::Quit;
        },
        KeyCode::Char('c') if key.ctrl => {
            return KeyAction::Quit;
        },
        KeyCode::Char('j') | KeyCode::Down => state.move_down(),
        KeyCode::Char('k') | KeyCode::Up => state.move_up(),
        KeyCode::Enter => state.toggle_selected(),
        KeyCode::Tab => state.cycle_project(),
        KeyCode::BackTab => state.cycle_project_backward(),
        KeyCode::Char('/') => {
            state.view_mode = ViewMode::Filter;
            state.filter_text = String::new();
        },
        KeyCode::Char('1') => {
            state.filter_text = String::new();
            state.rebuild_tree();
        },
        KeyCode::Char('2') => {
            state.filter_text = String::from_str("in_progress");
            state.rebuild_tree();
        },
        KeyCode::Char('3') => {
            state.filter_text = String::from_str("open");
            state.rebuild_tree();
        },
        KeyCode::Char('4') => {
            state.filter_text = String::from_str("blocked");
            state.rebuild_tree();
        },
        KeyCode::Char('r') => {
            return KeyAction::Refresh;
        },
        KeyCode::Char('o') => {
            if let Some(task_id) = state.selected_task_id() {
                if let Some(id) = strip_prefix(task_id, "task:") {
                    return KeyAction::OpenInEditor(id);
                }
            }
        },
        _ => {},
    }
    KeyAction::Continue
}


// ---------------------------------------------------------------------
// What the list screen shows
// ---------------------------------------------------------------------

/// The first row shown when `visible_height` rows fit: the selection stays
/// on the last visible row once it is past the first screen.
pub fn tree_scroll(selected: usize, visible_height: usize) -> (scroll: usize)
    requires
        visible_height > 0 || selected < usize::MAX,
    ensures
        scroll == if selected >= visible_height { selected - visible_height + 1 } else { 0 },
{
    if selected >= visible_height {
        selected - visible_height + 1
    } else {
        0
    }
}

/// The message shown in place of an empty tree.
pub open spec fn empty_message_of(o: AppStateView) -> Seq<char> {
    if o.bd_error is Some {
        "No data available"@
    } else if o.filter_text.len() > 0 {
        "No matching tasks"@
    } else {
        "No tasks found"@
    }
}

/// The message shown in place of an empty tree: the data is missing, or
/// the filter matches nothing, or there are no tasks.
pub fn empty_tree_message(state: &AppState) -> (msg: &'static str)
    ensures
        msg@ == empty_message_of(state@),
{
    if state.bd_error.is_some() {
        "No data available"
    } else if !state.filter_text.as_str().is_empty() {
        "No matching tasks"
    } else {
        "No tasks found"
    }
}

/// How many of `n` in-progress entries the side panel lists when `max`
/// fit, and whether a "more" line replaces the last of them.
pub fn in_progress_layout(n: usize, max: usize) -> (r: (usize, bool))
    ensures
        r.1 == (n > max),
        r.0 == if n > max { max.saturating_sub(1) } else { max },
{
    let has_overflow = n > max;
    let show_count = if has_overflow { max.saturating_sub(1) } else { max };
    (show_count, has_overflow)
}

/// The statuses of the metrics bar, in the order shown.
pub open spec fn metric_statuses() -> Seq<Seq<char>> {
    seq!["in_progress"@, "open"@, "blocked"@, "deferred"@, "closed"@]
}

/// The entries of the metrics bar for the statuses `ss`: each with its
/// count, when that count is positive.
pub open spec fn metrics_of(c: Seq<(String, usize)>, ss: Seq<Seq<char>>) -> Seq<(Seq<char>, usize)>
    decreases ss.len(),
{
    if ss.len() == 0 {
        seq![]
    } else {
        let r = metrics_of(c, ss.drop_last());
        let n = lookup_count(c, ss.last());
        if n > 0 {
            r.push((ss.last(), n))
        } else {
            r
        }
    }
}

pub open spec fn metric_entries_view(v: Seq<(&'static str, usize)>) -> Seq<(Seq<char>, usize)> {
    Seq::new(v.len(), |i: int| (v[i].0@, v[i].1))
}

fn push_metric(entries: &mut Vec<(&'static str, usize)>, counts: &[(String, usize)], status: &'static str)
    ensures
        metric_entries_view(final(entries)@) == if lookup_count(counts@, status@) > 0 {
            metric_entries_view(old(entries)@).push((status@, lookup_count(counts@, status@)))
        } else {
            metric_entries_view(old(entries)@)
        },
{
    let n = count_for(counts, status);
    if n > 0 {
        let ghost before = metric_entries_view(entries@);
        entries.push((status, n));
        assert(metric_entries_view(entries@) =~= before.push((status@, n)));
    }
}

/// The metrics bar: the statuses of `metric_statuses`, in order, each with
/// its count when that count is positive.
pub fn metrics(counts: &[(String, usize)]) -> (entries: Vec<(&'static str, usize)>)
    ensures
        metric_entries_view(entries@) == metrics_of(counts@, metric_statuses()),
{
    let ghost ss = metric_statuses();
    let ghost c = counts@;
    let mut entries: Vec<(&'static str, usize)> = Vec::new();
    assert(metric_entries_view(entries@) =~= metrics_of(c, ss.take(0)));
    push_metric(&mut entries, counts, "in_progress");
    assert(ss.take(1).drop_last() =~= ss.take(0));
    assert(metric_entries_view(entries@) == metrics_of(c, ss.take(1)));
    push_metric(&mut entries, counts, "open");
    assert(ss.take(2).drop_last() =~= ss.take(1));
    assert(metric_entries_view(entries@) == metrics_of(c, ss.take(2)));
    push_metric(&mut entries, counts, "blocked");
    assert(ss.take(3).drop_last() =~= ss.take(2));
    assert(metric_entries_view(entries@) == metrics_of(c, ss.take(3)));
    push_metric(&mut entries, counts, "deferred");
    assert(ss.take(4).drop_last() =~= ss.take(3));
    assert(metric_entries_view(entries@) == metrics_of(c, ss.take(4)));
    push_metric(&mut entries, counts, "closed");
    assert(ss.take(5).drop_last() =~= ss.take(4));
    assert(ss.take(5) =~= ss);
    entries
}

} // verus!
