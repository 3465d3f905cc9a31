//! Projects, tasks and the computations over them: grouping tasks into
//! projects by id prefix, counting, label collection and filtering.
use vstd::prelude::*;
use vstd::string::*;
use crate::seqs::{
    add_missing, lemma_add_missing, lemma_add_missing_add, count_of, first_occurrences, lemma_add_missing_push, lemma_count_of_contains,
    lemma_count_of_push, lemma_first_occurrences, lemma_sum_first_occurrences, sum_count_keys,
};
use crate::strings::{lemma_lex_lt_order, lex_lt, strictly_sorted, str_lt, lowercase, has_substring, is_prefix_of, str_eq, starts_with, contains_str, concat_str, to_lowercase};

verus! {

// ---------------------------------------------------------------------
// Types
// ---------------------------------------------------------------------

/// The configured tree of projects.
#[derive(Debug)]
pub struct ProjectTree {
    pub projects: Vec<ProjectConfig>,
}

/// One configured project: tasks whose id starts with `prefix` belong to it.
#[derive(Debug)]
pub struct ProjectConfig {
    pub id: String,
    pub name: String,
    pub path: String,
    pub prefix: String,
    pub labels: Vec<String>,
    pub children: Vec<ProjectConfig>,
}

/// A project together with the tasks grouped into it.
#[derive(Debug)]
pub struct Project {
    pub id: String,
    pub name: String,
    pub labels: Vec<String>,
    pub prefix: String,
    pub tasks: Vec<Task>,
    pub children: Vec<Project>,
}

/// A tracked task, possibly with sub-tasks.
#[derive(Debug)]
pub struct Task {
    pub id: String,
    pub title: String,
    pub status: String,
    pub task_type: String,
    pub priority: i32,
    pub assignee: String,
    pub parent: String,
    pub labels: Vec<String>,
    pub updated_at: String,
    pub description: String,
    pub children: Vec<Task>,
}

// ---------------------------------------------------------------------
// Mathematical models
// ---------------------------------------------------------------------

#[verifier::ext_equal]
pub struct TaskView {
    pub id: Seq<char>,
    pub title: Seq<char>,
    pub status: Seq<char>,
    pub task_type: Seq<char>,
    pub priority: i32,
    pub assignee: Seq<char>,
    pub parent: Seq<char>,
    pub labels: Seq<Seq<char>>,
    pub updated_at: Seq<char>,
    pub description: Seq<char>,
    pub children: Seq<TaskView>,
}

#[verifier::ext_equal]
pub struct ProjectView {
    pub id: Seq<char>,
    pub name: Seq<char>,
    pub labels: Seq<Seq<char>>,
    pub prefix: Seq<char>,
    pub tasks: Seq<TaskView>,
    pub children: Seq<ProjectView>,
}

#[verifier::ext_equal]
pub struct ConfigView {
    pub id: Seq<char>,
    pub name: Seq<char>,
    pub path: Seq<char>,
    pub prefix: Seq<char>,
    pub labels: Seq<Seq<char>>,
    pub children: Seq<ConfigView>,
}

pub open spec fn strs_view(v: Seq<String>) -> Seq<Seq<char>> {
    Seq::new(v.len(), |i: int| v[i]@)
}

pub open spec fn task_view(t: Task) -> TaskView
    decreases t,
{
    TaskView {
        id: t.id@,
        title: t.title@,
        status: t.status@,
        task_type: t.task_type@,
        priority: t.priority,
        assignee: t.assignee@,
        parent: t.parent@,
        labels: strs_view(t.labels@),
        updated_at: t.updated_at@,
        description: t.description@,
        children: Seq::new(
            t.children@.len(),
            |i: int|
                if 0 <= i < t.children@.len() {
                    task_view(t.children@[i])
                } else {
                    arbitrary()
                },
        ),
    }
}

pub open spec fn tasks_view(ts: Seq<Task>) -> Seq<TaskView> {
    Seq::new(ts.len(), |i: int| task_view(ts[i]))
}

pub open spec fn project_view(p: Project) -> ProjectView
    decreases p,
{
    ProjectView {
        id: p.id@,
        name: p.name@,
        labels: strs_view(p.labels@),
        prefix: p.prefix@,
        tasks: tasks_view(p.tasks@),
        children: Seq::new(
            p.children@.len(),
            |i: int|
                if 0 <= i < p.children@.len() {
                    project_view(p.children@[i])
                } else {
                    arbitrary()
                },
        ),
    }
}

pub open spec fn projects_view(ps: Seq<Project>) -> Seq<ProjectView> {
    Seq::new(ps.len(), |i: int| project_view(ps[i]))
}

pub open spec fn config_view(c: ProjectConfig) -> ConfigView
    decreases c,
{
    ConfigView {
        id: c.id@,
        name: c.name@,
        path: c.path@,
        prefix: c.prefix@,
        labels: strs_view(c.labels@),
        children: Seq::new(
            c.children@.len(),
            |i: int|
                if 0 <= i < c.children@.len() {
                    config_view(c.children@[i])
                } else {
                    arbitrary()
                },
        ),
    }
}

pub open spec fn configs_view(cs: Seq<ProjectConfig>) -> Seq<ConfigView> {
    Seq::new(cs.len(), |i: int| config_view(cs[i]))
}

impl View for Task {
    type V = TaskView;

    open spec fn view(&self) -> TaskView {
        task_view(*self)
    }
}

impl View for Project {
    type V = ProjectView;

    open spec fn view(&self) -> ProjectView {
        project_view(*self)
    }
}

impl View for ProjectConfig {
    type V = ConfigView;

    open spec fn view(&self) -> ConfigView {
        config_view(*self)
    }
}

impl View for ProjectTree {
    type V = Seq<ConfigView>;

    open spec fn view(&self) -> Seq<ConfigView> {
        configs_view(self.projects@)
    }
}

// ---------------------------------------------------------------------
// Copies
// ---------------------------------------------------------------------

/// A copy of a list of strings.
pub fn clone_strings(v: &[String]) -> (r: Vec<String>)
    ensures
        r@ == v@,
{
    let mut r: Vec<String> = Vec::new();
    let n = v.len();
    for i in 0..n
        invariant
            n == v@.len(),
            r@ == v@.subrange(0, i as int),
    {
        r.push(v[i].clone());
        assert(r@ =~= v@.subrange(0, i + 1));
    }
    assert(r@ =~= v@);
    r
}

impl Clone for Task {
    fn clone(&self) -> (res: Self)
        ensures
            res@ == self@,
        decreases self,
    {
        let mut children: Vec<Task> = Vec::new();
        let n = self.children.len();
        for i in 0..n
            invariant
                n == self.children@.len(),
                children@.len() == i,
                forall|j: int| 0 <= j < i ==> #[trigger] children@[j]@ == self.children@[j]@,
        {
            children.push(self.children[i].clone());
        }
        let res = Task {
            id: self.id.clone(),
            title: self.title.clone(),
            status: self.status.clone(),
            task_type: self.task_type.clone(),
            priority: self.priority,
            assignee: self.assignee.clone(),
            parent: self.parent.clone(),
            labels: clone_strings(&self.labels),
            updated_at: self.updated_at.clone(),
            description: self.description.clone(),
            children,
        };
        assert(res@.children =~= self@.children) by {
            assert forall|j: int| 0 <= j < n implies #[trigger] res@.children[j] == self@.children[j] by {
                assert(res.children@[j]@ == self.children@[j]@);
            }
        }
        assert(res@ =~= self@);
        res
    }
}

/// A copy of a list of tasks.
pub fn clone_tasks(v: &[Task]) -> (r: Vec<Task>)
    ensures
        tasks_view(r@) == tasks_view(v@),
{
    let mut r: Vec<Task> = Vec::new();
    let n = v.len();
    for i in 0..n
        invariant
            n == v@.len(),
            r@.len() == i,
            forall|j: int| 0 <= j < i ==> #[trigger] r@[j]@ == v@[j]@,
    {
        r.push(v[i].clone());
    }
    assert forall|j: int| 0 <= j < n implies #[trigger] tasks_view(r@)[j] == tasks_view(v@)[j] by {
        assert(r@[j]@ == v@[j]@);
    }
    assert(tasks_view(r@) =~= tasks_view(v@));
    r
}

impl Clone for Project {
    fn clone(&self) -> (res: Self)
        ensures
            res@ == self@,
        decreases self,
    {
        let mut children: Vec<Project> = Vec::new();
        let n = self.children.len();
        for i in 0..n
            invariant
                n == self.children@.len(),
                children@.len() == i,
                forall|j: int| 0 <= j < i ==> #[trigger] children@[j]@ == self.children@[j]@,
        {
            children.push(self.children[i].clone());
        }
        let res = Project {
            id: self.id.clone(),
            name: self.name.clone(),
            labels: clone_strings(&self.labels),
            prefix: self.prefix.clone(),
            tasks: clone_tasks(&self.tasks),
            children,
        };
        assert(res@.children =~= self@.children) by {
            assert forall|j: int| 0 <= j < n implies #[trigger] res@.children[j] == self@.children[j] by {
                assert(res.children@[j]@ == self.children@[j]@);
            }
        }
        assert(res@ =~= self@);
        res
    }
}

/// A copy of a list of projects.
pub fn clone_projects(v: &[Project]) -> (r: Vec<Project>)
    ensures
        projects_view(r@) == projects_view(v@),
{
    let mut r: Vec<Project> = Vec::new();
    let n = v.len();
    for i in 0..n
        invariant
            n == v@.len(),
            r@.len() == i,
            forall|j: int| 0 <= j < i ==> #[trigger] r@[j]@ == v@[j]@,
    {
        r.push(v[i].clone());
    }
    assert forall|j: int| 0 <= j < n implies #[trigger] projects_view(r@)[j] == projects_view(v@)[j] by {
        assert(r@[j]@ == v@[j]@);
    }
    assert(projects_view(r@) =~= projects_view(v@));
    r
}


// ---------------------------------------------------------------------
// Traversals
// ---------------------------------------------------------------------

/// Every task of a forest, each followed by its sub-tasks (pre-order).
pub open spec fn task_preorder(ts: Seq<TaskView>) -> Seq<TaskView>
    decreases ts,
{
    if ts.len() == 0 {
        seq![]
    } else {
        let t = ts.last();
        task_preorder(ts.drop_last()) + seq![t] + task_preorder(t.children)
    }
}

/// Every task of a project forest in the order the dashboard visits them:
/// for each project, its own tasks in pre-order, then its sub-projects.
pub open spec fn forest_tasks(ps: Seq<ProjectView>) -> Seq<TaskView>
    decreases ps,
{
    if ps.len() == 0 {
        seq![]
    } else {
        let p = ps.last();
        forest_tasks(ps.drop_last()) + task_preorder(p.tasks) + forest_tasks(p.children)
    }
}

/// Every task of one project and its sub-projects.
pub open spec fn project_tasks(p: ProjectView) -> Seq<TaskView> {
    task_preorder(p.tasks) + forest_tasks(p.children)
}

/// Number of projects in a forest, sub-projects included.
pub open spec fn project_count(ps: Seq<ProjectView>) -> nat
    decreases ps,
{
    if ps.len() == 0 {
        0
    } else {
        project_count(ps.drop_last()) + 1 + project_count(ps.last().children)
    }
}

/// The statuses of the tasks of `ts`, in order.
pub open spec fn statuses_of(ts: Seq<TaskView>) -> Seq<Seq<char>> {
    Seq::new(ts.len(), |i: int| ts[i].status)
}

/// `c` counts the elements of `s`: its keys are the distinct elements of
/// `s` in order of first occurrence, each with its number of occurrences.
pub open spec fn counts_of(c: Seq<(String, usize)>, s: Seq<Seq<char>>) -> bool {
    &&& Seq::new(c.len(), |i: int| c[i].0@) == first_occurrences(s)
    &&& forall|i: int| 0 <= i < c.len() ==> #[trigger] c[i].1 == count_of(s, c[i].0@)
}

/// Sum of the counts of `c`.
pub open spec fn sum_counts(c: Seq<(String, usize)>) -> nat
    decreases c.len(),
{
    if c.len() == 0 {
        0
    } else {
        sum_counts(c.drop_last()) + c.last().1 as nat
    }
}

/// Every label of every project of a forest (sub-projects included), in order.
pub open spec fn forest_labels(ps: Seq<ProjectView>) -> Seq<Seq<char>>
    decreases ps,
{
    if ps.len() == 0 {
        seq![]
    } else {
        let p = ps.last();
        forest_labels(ps.drop_last()) + p.labels + forest_labels(p.children)
    }
}


// ---------------------------------------------------------------------
// Facts about the views and traversals
// ---------------------------------------------------------------------

pub proof fn lemma_task_children_view(t: Task)
    ensures
        t@.children == tasks_view(t.children@),
{
    assert(t@.children =~= tasks_view(t.children@));
}

pub proof fn lemma_project_children_view(p: Project)
    ensures
        p@.children == projects_view(p.children@),
        p@.tasks == tasks_view(p.tasks@),
{
    assert(p@.children =~= projects_view(p.children@));
}

pub proof fn lemma_config_children_view(c: ProjectConfig)
    ensures
        c@.children == configs_view(c.children@),
{
    assert(c@.children =~= configs_view(c.children@));
}

pub proof fn lemma_tasks_view_take(ts: Seq<Task>, i: int)
    requires
        0 <= i < ts.len(),
    ensures
        tasks_view(ts.take(i + 1)) == tasks_view(ts.take(i)).push(ts[i]@),
        tasks_view(ts.take(i + 1)).drop_last() == tasks_view(ts.take(i)),
        tasks_view(ts.take(i + 1)).last() == ts[i]@,
        tasks_view(ts.take(ts.len() as int)) == tasks_view(ts),
{
    assert(tasks_view(ts.take(i + 1)) =~= tasks_view(ts.take(i)).push(ts[i]@));
    assert(tasks_view(ts.take(ts.len() as int)) =~= tasks_view(ts));
}

pub proof fn lemma_projects_view_take(ps: Seq<Project>, i: int)
    requires
        0 <= i < ps.len(),
    ensures
        projects_view(ps.take(i + 1)) == projects_view(ps.take(i)).push(ps[i]@),
        projects_view(ps.take(i + 1)).drop_last() == projects_view(ps.take(i)),
        projects_view(ps.take(i + 1)).last() == ps[i]@,
        projects_view(ps.take(ps.len() as int)) == projects_view(ps),
{
    assert(projects_view(ps.take(i + 1)) =~= projects_view(ps.take(i)).push(ps[i]@));
    assert(projects_view(ps.take(ps.len() as int)) =~= projects_view(ps));
}

pub proof fn lemma_task_preorder_add(a: Seq<TaskView>, b: Seq<TaskView>)
    ensures
        task_preorder(a + b) == task_preorder(a) + task_preorder(b),
    decreases b.len(),
{
    if b.len() == 0 {
        assert(a + b =~= a);
        assert(task_preorder(a) + task_preorder(b) =~= task_preorder(a));
    } else {
        lemma_task_preorder_add(a, b.drop_last());
        assert((a + b).drop_last() =~= a + b.drop_last());
        assert((a + b).last() == b.last());
        let t = b.last();
        assert(task_preorder(a + b) =~= task_preorder(a) + task_preorder(b));
    }
}

pub proof fn lemma_forest_tasks_add(a: Seq<ProjectView>, b: Seq<ProjectView>)
    ensures
        forest_tasks(a + b) == forest_tasks(a) + forest_tasks(b),
    decreases b.len(),
{
    if b.len() == 0 {
        assert(a + b =~= a);
        assert(forest_tasks(a) + forest_tasks(b) =~= forest_tasks(a));
    } else {
        lemma_forest_tasks_add(a, b.drop_last());
        assert((a + b).drop_last() =~= a + b.drop_last());
        assert((a + b).last() == b.last());
        assert(forest_tasks(a + b) =~= forest_tasks(a) + forest_tasks(b));
    }
}

pub proof fn lemma_statuses_add(a: Seq<TaskView>, b: Seq<TaskView>)
    ensures
        statuses_of(a + b) == statuses_of(a) + statuses_of(b),
{
    assert(statuses_of(a + b) =~= statuses_of(a) + statuses_of(b));
}

// ---------------------------------------------------------------------
// Counting
// ---------------------------------------------------------------------

/// Counts one more occurrence of `status`.
fn add_status(counts: &mut Vec<(String, usize)>, status: &String, Ghost(s): Ghost<Seq<Seq<char>>>)
    requires
        counts_of(old(counts)@, s),
        s.len() < usize::MAX,
    ensures
        counts_of(final(counts)@, s.push(status@)),
{
    proof {
        lemma_first_occurrences(s);
        lemma_add_missing_push(Seq::<Seq<char>>::empty(), s, status@);
    }
    let ghost keys = first_occurrences(s);
    let n = counts.len();
    let mut i: usize = 0;
    while i < n
        invariant
            n == counts@.len(),
            i <= n,
            counts_of(counts@, s),
            s.len() < usize::MAX,
            keys == first_occurrences(s),
            keys.no_duplicates(),
            forall|j: int| 0 <= j < i ==> #[trigger] counts@[j].0@ != status@,
        decreases n - i,
    {
        if counts[i].0 == *status {
            let key = counts[i].0.clone();
            let c = counts[i].1;
            proof {
                assert(keys[i as int] == counts@[i as int].0@);
                lemma_count_of_contains(s, status@);
                assert(keys.contains(status@));
            }
            let ghost old_counts = counts@;
            counts.set(i, (key, c + 1));
            proof {
                assert(Seq::new(counts@.len(), |j: int| counts@[j].0@) =~= Seq::new(
                    old_counts.len(),
                    |j: int| old_counts[j].0@,
                ));
                assert forall|j: int| 0 <= j < counts@.len() implies #[trigger] counts@[j].1
                    == count_of(s.push(status@), counts@[j].0@) by {
                    lemma_count_of_push(s, status@, counts@[j].0@);
                    if j != i {
                        assert(keys[j] != keys[i as int]);
                    }
                }
                lemma_add_missing_push(Seq::<Seq<char>>::empty(), s, status@);
                assert(first_occurrences(s.push(status@)) == keys);
                assert(Seq::new(counts@.len(), |j: int| counts@[j].0@) == keys);
            }
            return;
        }
        i = i + 1;
    }
    proof {
        assert(!keys.contains(status@)) by {
            if keys.contains(status@) {
                let j = choose|j: int| 0 <= j < keys.len() && keys[j] == status@;
                assert(counts@[j].0@ == keys[j]);
            }
        }
        lemma_count_of_contains(s, status@);
    }
    let ghost old_counts = counts@;
    counts.push((status.clone(), 1));
    proof {
        assert(Seq::new(counts@.len(), |j: int| counts@[j].0@) =~= Seq::new(
            old_counts.len(),
            |j: int| old_counts[j].0@,
        ).push(status@));
        assert forall|j: int| 0 <= j < counts@.len() implies #[trigger] counts@[j].1 == count_of(
            s.push(status@),
            counts@[j].0@,
        ) by {
            lemma_count_of_push(s, status@, counts@[j].0@);
            if j < old_counts.len() {
                assert(old_counts[j].0@ == keys[j]);
            }
        }
    }
}

fn count_tasks_recursive(tasks: &[Task], counts: &mut Vec<(String, usize)>, Ghost(s): Ghost<Seq<Seq<char>>>)
    requires
        counts_of(old(counts)@, s),
        s.len() + task_preorder(tasks_view(tasks@)).len() <= usize::MAX,
    ensures
        counts_of(final(counts)@, s + statuses_of(task_preorder(tasks_view(tasks@)))),
    decreases tasks@,
{
    let n = tasks.len();
    proof {
        assert(tasks_view(tasks@.take(0)) =~= Seq::<TaskView>::empty());
        assert(s + statuses_of(task_preorder(tasks_view(tasks@.take(0)))) =~= s);
    }
    for i in 0..n
        invariant
            n == tasks@.len(),
            s.len() + task_preorder(tasks_view(tasks@)).len() <= usize::MAX,
            counts_of(counts@, s + statuses_of(task_preorder(tasks_view(tasks@.take(i as int))))),
    {
        let t = &tasks[i];
        let ghost before = s + statuses_of(task_preorder(tasks_view(tasks@.take(i as int))));
        proof {
            lemma_tasks_view_take(tasks@, i as int);
            lemma_task_children_view(*t);
            let pre = tasks_view(tasks@.take(i as int));
            let rest = tasks_view(tasks@.skip(i + 1));
            assert(tasks_view(tasks@) =~= pre.push(t@) + rest);
            lemma_task_preorder_add(pre.push(t@), rest);
            assert(pre.push(t@).drop_last() =~= pre);
            lemma_statuses_add(task_preorder(pre), seq![t@]);
        }
        add_status(counts, &t.status, Ghost(before));
        assert(decreases_to!(tasks@ => tasks@[i as int]));
        count_tasks_recursive(&t.children, counts, Ghost(before.push(t.status@)));
        proof {
            let pre = tasks_view(tasks@.take(i as int));
            let pre1 = tasks_view(tasks@.take(i + 1));
            assert(pre1.drop_last() == pre);
            lemma_statuses_add(task_preorder(pre) + seq![t@], task_preorder(t@.children));
            lemma_statuses_add(task_preorder(pre), seq![t@]);
            assert(before.push(t.status@) + statuses_of(task_preorder(tasks_view(t.children@)))
                =~= s + statuses_of(task_preorder(pre1)));
        }
    }
    assert(tasks@.take(n as int) =~= tasks@);
}


pub proof fn lemma_project_count_add(a: Seq<ProjectView>, b: Seq<ProjectView>)
    ensures
        project_count(a + b) == project_count(a) + project_count(b),
    decreases b.len(),
{
    if b.len() == 0 {
        assert(a + b =~= a);
    } else {
        lemma_project_count_add(a, b.drop_last());
        assert((a + b).drop_last() =~= a + b.drop_last());
        assert((a + b).last() == b.last());
    }
}

/// Splits a project forest at position `i` for the traversals.
pub proof fn lemma_forest_split(ps: Seq<Project>, i: int)
    requires
        0 <= i < ps.len(),
    ensures
        forest_tasks(projects_view(ps)) == forest_tasks(projects_view(ps.take(i))) + project_tasks(ps[i]@)
            + forest_tasks(projects_view(ps.skip(i + 1))),
        forest_tasks(projects_view(ps.take(i + 1))) == forest_tasks(projects_view(ps.take(i)))
            + project_tasks(ps[i]@),
        project_count(projects_view(ps)) == project_count(projects_view(ps.take(i))) + 1
            + project_count(ps[i]@.children) + project_count(projects_view(ps.skip(i + 1))),
        project_count(projects_view(ps.take(i + 1))) == project_count(projects_view(ps.take(i))) + 1
            + project_count(ps[i]@.children),
{
    lemma_projects_view_take(ps, i);
    let pre = projects_view(ps.take(i));
    let p = ps[i]@;
    let rest = projects_view(ps.skip(i + 1));
    assert(projects_view(ps) =~= pre.push(p) + rest);
    assert(pre.push(p).drop_last() =~= pre);
    lemma_forest_tasks_add(pre.push(p), rest);
    lemma_project_count_add(pre.push(p), rest);
    assert(forest_tasks(pre.push(p)) =~= forest_tasks(pre) + project_tasks(p));
}

fn count_by_status_recursive(
    projects: &[Project],
    counts: &mut Vec<(String, usize)>,
    Ghost(s): Ghost<Seq<Seq<char>>>,
)
    requires
        counts_of(old(counts)@, s),
        s.len() + forest_tasks(projects_view(projects@)).len() <= usize::MAX,
    ensures
        counts_of(final(counts)@, s + statuses_of(forest_tasks(projects_view(projects@)))),
    decreases projects@,
{
    let n = projects.len();
    proof {
        assert(projects_view(projects@.take(0)) =~= Seq::<ProjectView>::empty());
        assert(s + statuses_of(forest_tasks(projects_view(projects@.take(0)))) =~= s);
    }
    for i in 0..n
        invariant
            n == projects@.len(),
            s.len() + forest_tasks(projects_view(projects@)).len() <= usize::MAX,
            counts_of(counts@, s + statuses_of(forest_tasks(projects_view(projects@.take(i as int))))),
    {
        let p = &projects[i];
        let ghost before = s + statuses_of(forest_tasks(projects_view(projects@.take(i as int))));
        let ghost mid = before + statuses_of(task_preorder(p@.tasks));
        proof {
            lemma_forest_split(projects@, i as int);
            lemma_project_children_view(*p);
            lemma_statuses_add(task_preorder(p@.tasks), forest_tasks(p@.children));
            lemma_statuses_add(
                forest_tasks(projects_view(projects@.take(i as int))),
                project_tasks(p@),
            );
        }
        count_tasks_recursive(&p.tasks, counts, Ghost(before));
        assert(decreases_to!(projects@ => projects@[i as int]));
        count_by_status_recursive(&p.children, counts, Ghost(mid));
        proof {
            assert(mid + statuses_of(forest_tasks(projects_view(p.children@)))
                =~= s + statuses_of(forest_tasks(projects_view(projects@.take(i + 1)))));
        }
    }
    assert(projects@.take(n as int) =~= projects@);
}

/// Counts the tasks of all projects (sub-projects and sub-tasks included)
/// by status. Each distinct status appears once, in the order in which the
/// traversal first meets it, with the number of tasks that have it.
pub fn count_by_status(projects: &[Project]) -> (counts: Vec<(String, usize)>)
    requires
        forest_tasks(projects_view(projects@)).len() <= usize::MAX,
    ensures
        counts_of(counts@, statuses_of(forest_tasks(projects_view(projects@)))),
{
    let mut counts: Vec<(String, usize)> = Vec::new();
    proof {
        assert(Seq::new(counts@.len(), |j: int| counts@[j].0@) =~= first_occurrences(
            Seq::<Seq<char>>::empty(),
        ));
    }
    count_by_status_recursive(projects, &mut counts, Ghost(Seq::empty()));
    assert(Seq::<Seq<char>>::empty() + statuses_of(forest_tasks(projects_view(projects@)))
        =~= statuses_of(forest_tasks(projects_view(projects@))));
    counts
}

/// The count of the first entry of `c` for `status`; 0 when there is none.
pub open spec fn lookup_count(c: Seq<(String, usize)>, status: Seq<char>) -> usize
    decreases c.len(),
{
    if c.len() == 0 {
        0
    } else if c[0].0@ == status {
        c[0].1
    } else {
        lookup_count(c.drop_first(), status)
    }
}

/// The count that `counts` gives for `status`, or 0 when it has none.
pub fn count_for(counts: &[(String, usize)], status: &str) -> (n: usize)
    ensures
        n == lookup_count(counts@, status@),
{
    let len = counts.len();
    let ghost c = counts@;
    assert(c.skip(0) =~= c);
    for i in 0..len
        invariant
            len == c.len(),
            c == counts@,
            lookup_count(c, status@) == lookup_count(c.skip(i as int), status@),
    {
        assert(c.skip(i as int)[0] == c[i as int]);
        assert(c.skip(i as int).drop_first() =~= c.skip(i + 1));
        if str_eq(counts[i].0.as_str(), status) {
            return counts[i].1;
        }
    }
    assert(c.skip(len as int).len() == 0);
    0
}

proof fn lemma_sum_counts_keys(c: Seq<(String, usize)>, s: Seq<Seq<char>>)
    requires
        forall|i: int| 0 <= i < c.len() ==> #[trigger] c[i].1 == count_of(s, c[i].0@),
    ensures
        sum_counts(c) == sum_count_keys(Seq::new(c.len(), |i: int| c[i].0@), s),
    decreases c.len(),
{
    if c.len() > 0 {
        let c0 = c.drop_last();
        assert forall|i: int| 0 <= i < c0.len() implies #[trigger] c0[i].1 == count_of(s, c0[i].0@) by {
            assert(c0[i] == c[i]);
        }
        lemma_sum_counts_keys(c0, s);
        assert(Seq::new(c.len(), |i: int| c[i].0@).drop_last() =~= Seq::new(
            c0.len(),
            |i: int| c0[i].0@,
        ));
        assert(c[c.len() - 1].1 == count_of(s, c[c.len() - 1].0@));
    }
}

/// The counts of a sequence add up to its length.
pub proof fn lemma_sum_counts(c: Seq<(String, usize)>, s: Seq<Seq<char>>)
    requires
        counts_of(c, s),
    ensures
        sum_counts(c) == s.len(),
{
    lemma_sum_counts_keys(c, s);
    lemma_sum_first_occurrences(s);
}

proof fn lemma_sum_counts_take(c: Seq<(String, usize)>, i: int)
    requires
        0 <= i <= c.len(),
    ensures
        sum_counts(c.take(i)) <= sum_counts(c),
    decreases c.len(),
{
    if i < c.len() {
        assert(c.drop_last().take(i) =~= c.take(i));
        lemma_sum_counts_take(c.drop_last(), i);
    } else {
        assert(c.take(i) =~= c);
    }
}

/// Counts all tasks of all projects, sub-projects and sub-tasks included,
/// as the sum of the per-status counts.
pub fn total_tasks(projects: &[Project]) -> (total: usize)
    requires
        forest_tasks(projects_view(projects@)).len() <= usize::MAX,
    ensures
        total == forest_tasks(projects_view(projects@)).len(),
{
    let counts = count_by_status(projects);
    let ghost all = statuses_of(forest_tasks(projects_view(projects@)));
    proof {
        lemma_sum_counts(counts@, all);
    }
    let n = counts.len();
    let mut total: usize = 0;
    for i in 0..n
        invariant
            n == counts@.len(),
            sum_counts(counts@) == all.len(),
            all.len() <= usize::MAX,
            total == sum_counts(counts@.take(i as int)),
    {
        proof {
            assert(counts@.take(i + 1).drop_last() =~= counts@.take(i as int));
            lemma_sum_counts_take(counts@, i + 1);
        }
        total = total + counts[i].1;
    }
    assert(counts@.take(n as int) =~= counts@);
    total
}

/// Counts the projects of a forest, sub-projects included.
pub fn total_projects(projects: &[Project]) -> (total: usize)
    requires
        project_count(projects_view(projects@)) <= usize::MAX,
    ensures
        total == project_count(projects_view(projects@)),
    decreases projects@,
{
    let n = projects.len();
    let mut total: usize = 0;
    assert(projects_view(projects@.take(0)) =~= Seq::<ProjectView>::empty());
    for i in 0..n
        invariant
            n == projects@.len(),
            project_count(projects_view(projects@)) <= usize::MAX,
            total == project_count(projects_view(projects@.take(i as int))),
    {
        let p = &projects[i];
        proof {
            lemma_forest_split(projects@, i as int);
            lemma_project_children_view(*p);
        }
        assert(decreases_to!(projects@ => projects@[i as int]));
        let sub = total_projects(&p.children);
        total = total + 1 + sub;
    }
    assert(projects@.take(n as int) =~= projects@);
    total
}


// ---------------------------------------------------------------------
// Labels
// ---------------------------------------------------------------------

/// Whether `x` is one of the strings of `v`.
pub fn contains_string(v: &[String], x: &str) -> (r: bool)
    ensures
        r == strs_view(v@).contains(x@),
{
    let n = v.len();
    for i in 0..n
        invariant
            n == v@.len(),
            forall|j: int| 0 <= j < i ==> #[trigger] v@[j]@ != x@,
    {
        if str_eq(v[i].as_str(), x) {
            assert(strs_view(v@)[i as int] == x@);
            return true;
        }
    }
    assert forall|j: int| 0 <= j < strs_view(v@).len() implies strs_view(v@)[j] != x@ by {
        assert(v@[j]@ != x@);
    }
    false
}

pub proof fn lemma_strs_view_push(v: Seq<String>, x: String)
    ensures
        strs_view(v.push(x)) == strs_view(v).push(x@),
{
    assert(strs_view(v.push(x)) =~= strs_view(v).push(x@));
}

pub proof fn lemma_forest_labels_split(ps: Seq<Project>, i: int)
    requires
        0 <= i < ps.len(),
    ensures
        forest_labels(projects_view(ps.take(i + 1))) == forest_labels(projects_view(ps.take(i)))
            + ps[i]@.labels + forest_labels(ps[i]@.children),
{
    lemma_projects_view_take(ps, i);
}

fn collect_labels_recursive(projects: &[Project], labels: &mut Vec<String>)
    ensures
        strs_view(final(labels)@) == add_missing(
            strs_view(old(labels)@),
            forest_labels(projects_view(projects@)),
        ),
    decreases projects@,
{
    let ghost base = strs_view(labels@);
    let n = projects.len();
    assert(projects_view(projects@.take(0)) =~= Seq::<ProjectView>::empty());
    for i in 0..n
        invariant
            n == projects@.len(),
            strs_view(labels@) == add_missing(base, forest_labels(projects_view(projects@.take(i as int)))),
    {
        let p = &projects[i];
        let ghost before = strs_view(labels@);
        let m = p.labels.len();
        assert(p@.labels.take(0) =~= Seq::<Seq<char>>::empty());
        for j in 0..m
            invariant
                m == p.labels@.len(),
                p@.labels == strs_view(p.labels@),
                strs_view(labels@) == add_missing(before, p@.labels.take(j as int)),
        {
            let label = &p.labels[j];
            assert(p@.labels.take(j + 1).drop_last() =~= p@.labels.take(j as int));
            if !contains_string(labels.as_slice(), label.as_str()) {
                proof {
                    lemma_strs_view_push(labels@, *label);
                }
                labels.push(label.clone());
            }
        }
        assert(p@.labels.take(m as int) =~= p@.labels);
        let ghost mid = strs_view(labels@);
        proof {
            lemma_project_children_view(*p);
        }
        assert(decreases_to!(projects@ => projects@[i as int]));
        collect_labels_recursive(&p.children, labels);
        proof {
            lemma_forest_labels_split(projects@, i as int);
            let x = forest_labels(projects_view(projects@.take(i as int)));
            lemma_add_missing_add(base, x + p@.labels, forest_labels(p@.children));
            lemma_add_missing_add(base, x, p@.labels);
        }
    }
    assert(projects@.take(n as int) =~= projects@);
}

/// The strings of `v`, ordered by `lex_lt`.
fn sort_strings(v: &[String]) -> (r: Vec<String>)
    requires
        strs_view(v@).no_duplicates(),
    ensures
        strictly_sorted(strs_view(r@)),
        forall|x: Seq<char>| #[trigger] strs_view(r@).contains(x) <==> strs_view(v@).contains(x),
{
    let mut sorted: Vec<String> = Vec::new();
    let n = v.len();
    for i in 0..n
        invariant
            n == v@.len(),
            strs_view(v@).no_duplicates(),
            strictly_sorted(strs_view(sorted@)),
            forall|x: Seq<char>| #[trigger] strs_view(sorted@).contains(x) <==> strs_view(v@.take(i as int)).contains(x),
    {
        let x = &v[i];
        proof {
            assert(!strs_view(v@.take(i as int)).contains(x@)) by {
                if strs_view(v@.take(i as int)).contains(x@) {
                    let j = choose|j: int| 0 <= j < i && strs_view(v@.take(i as int))[j] == x@;
                    assert(strs_view(v@)[j] == strs_view(v@)[i as int]);
                }
            }
        }
        let m = sorted.len();
        let mut pos: usize = 0;
        while pos < m && !str_lt(x.as_str(), sorted[pos].as_str())
            invariant
                m == sorted@.len(),
                pos <= m,
                !strs_view(sorted@).contains(x@),
                forall|j: int| 0 <= j < pos ==> lex_lt(#[trigger] sorted@[j]@, x@),
            decreases m - pos,
        {
            proof {
                lemma_lex_lt_order(x@, sorted@[pos as int]@, x@);
                assert(strs_view(sorted@)[pos as int] == sorted@[pos as int]@);
            }
            pos = pos + 1;
        }
        let ghost old_sorted = sorted@;
        sorted.insert(pos, x.clone());
        proof {
            let sv = strs_view(sorted@);
            let ov = strs_view(old_sorted);
            assert(sv =~= ov.insert(pos as int, x@));
            assert forall|a: int, b: int| 0 <= a < b < sv.len() implies lex_lt(#[trigger] sv[a], #[trigger] sv[b]) by {
                if b < pos {
                    assert(lex_lt(ov[a], ov[b]));
                } else if b == pos {
                    assert(lex_lt(old_sorted[a]@, x@));
                } else if a > pos {
                    assert(lex_lt(ov[a - 1], ov[b - 1]));
                } else if a == pos {
                    if b - 1 > pos {
                        assert(lex_lt(ov[pos as int], ov[b - 1]));
                        lemma_lex_lt_order(x@, ov[pos as int], ov[b - 1]);
                    }
                } else {
                    assert(lex_lt(old_sorted[a]@, x@));
                    if b - 1 > pos {
                        assert(lex_lt(ov[pos as int], ov[b - 1]));
                        lemma_lex_lt_order(x@, ov[pos as int], ov[b - 1]);
                    }
                    lemma_lex_lt_order(ov[a], x@, ov[b - 1]);
                }
            }
            let t0 = strs_view(v@.take(i as int));
            let t1 = strs_view(v@.take(i + 1));
            assert(t1 =~= t0.push(x@));
            assert forall|y: Seq<char>| #[trigger] sv.contains(y) <==> t1.contains(y) by {
                if sv.contains(y) {
                    let j = choose|j: int| 0 <= j < sv.len() && sv[j] == y;
                    if j < pos {
                        assert(ov[j] == y);
                    } else if j > pos {
                        assert(ov[j - 1] == y);
                    }
                    if y != x@ {
                        assert(ov.contains(y));
                        assert(t0.contains(y));
                        let k = choose|k: int| 0 <= k < i && t0[k] == y;
                        assert(t1[k] == y);
                    } else {
                        assert(t1[i as int] == y);
                    }
                }
                if t1.contains(y) {
                    let k = choose|k: int| 0 <= k < i + 1 && t1[k] == y;
                    if k < i {
                        assert(t0[k] == y);
                        assert(ov.contains(y));
                        let j = choose|j: int| 0 <= j < ov.len() && ov[j] == y;
                        if j < pos {
                            assert(sv[j] == y);
                        } else {
                            assert(sv[j + 1] == y);
                        }
                    } else {
                        assert(sv[pos as int] == y);
                    }
                }
            }
        }
    }
    assert(v@.take(n as int) =~= v@);
    sorted
}

/// All labels of all projects and sub-projects, each once, in
/// lexicographic order.
pub fn collect_labels(projects: &[Project]) -> (labels: Vec<String>)
    ensures
        strictly_sorted(strs_view(labels@)),
        forall|x: Seq<char>| #[trigger] strs_view(labels@).contains(x) <==> forest_labels(projects_view(projects@)).contains(x),
{
    let mut labels: Vec<String> = Vec::new();
    collect_labels_recursive(projects, &mut labels);
    proof {
        assert(strs_view(Seq::<String>::empty()) =~= Seq::<Seq<char>>::empty());
        lemma_add_missing(Seq::<Seq<char>>::empty(), forest_labels(projects_view(projects@)));
    }
    sort_strings(labels.as_slice())
}


// ---------------------------------------------------------------------
// Filtering
// ---------------------------------------------------------------------

/// `t` with its sub-tasks replaced.
pub open spec fn with_children(t: TaskView, children: Seq<TaskView>) -> TaskView {
    TaskView {
        id: t.id,
        title: t.title,
        status: t.status,
        task_type: t.task_type,
        priority: t.priority,
        assignee: t.assignee,
        parent: t.parent,
        labels: t.labels,
        updated_at: t.updated_at,
        description: t.description,
        children,
    }
}

/// `p` with its tasks and sub-projects replaced.
pub open spec fn with_contents(p: ProjectView, tasks: Seq<TaskView>, children: Seq<ProjectView>) -> ProjectView {
    ProjectView { id: p.id, name: p.name, labels: p.labels, prefix: p.prefix, tasks, children }
}

/// The projects that carry `label` (kept whole), and, for the others, a
/// copy without tasks that keeps the sub-projects found by the same rule,
/// when there are any.
pub open spec fn filter_label_spec(ps: Seq<ProjectView>, label: Seq<char>) -> Seq<ProjectView>
    decreases ps,
{
    if ps.len() == 0 {
        seq![]
    } else {
        let p = ps.last();
        let rest = filter_label_spec(ps.drop_last(), label);
        if p.labels.contains(label) {
            rest.push(p)
        } else {
            let c = filter_label_spec(p.children, label);
            if c.len() == 0 {
                rest
            } else {
                rest.push(with_contents(p, seq![], c))
            }
        }
    }
}

/// A task matches a lowercase query when its lowercased title or id
/// contains it.
pub open spec fn text_matches(t: TaskView, q: Seq<char>) -> bool {
    has_substring(lowercase(t.title), q) || has_substring(lowercase(t.id), q)
}

/// The tasks that match `q` (kept with all their sub-tasks) and, for the
/// others, those with matching sub-tasks (kept with just those).
pub open spec fn filter_tasks_spec(ts: Seq<TaskView>, q: Seq<char>) -> Seq<TaskView>
    decreases ts,
{
    if ts.len() == 0 {
        seq![]
    } else {
        let t = ts.last();
        let rest = filter_tasks_spec(ts.drop_last(), q);
        let mc = filter_tasks_spec(t.children, q);
        if text_matches(t, q) {
            rest.push(t)
        } else if mc.len() > 0 {
            rest.push(with_children(t, mc))
        } else {
            rest
        }
    }
}

/// The projects with matching tasks or matching sub-projects, each keeping
/// just its matching tasks and sub-projects.
pub open spec fn filter_text_spec(ps: Seq<ProjectView>, q: Seq<char>) -> Seq<ProjectView>
    decreases ps,
{
    if ps.len() == 0 {
        seq![]
    } else {
        let p = ps.last();
        let rest = filter_text_spec(ps.drop_last(), q);
        let mt = filter_tasks_spec(p.tasks, q);
        let mc = filter_text_spec(p.children, q);
        if mt.len() == 0 && mc.len() == 0 {
            rest
        } else {
            rest.push(with_contents(p, mt, mc))
        }
    }
}

/// A copy of `t` with other sub-tasks.
fn task_with_children(t: &Task, children: Vec<Task>) -> (r: Task)
    ensures
        r@ == with_children(t@, tasks_view(children@)),
{
    let r = Task {
        id: t.id.clone(),
        title: t.title.clone(),
        status: t.status.clone(),
        task_type: t.task_type.clone(),
        priority: t.priority,
        assignee: t.assignee.clone(),
        parent: t.parent.clone(),
        labels: clone_strings(&t.labels),
        updated_at: t.updated_at.clone(),
        description: t.description.clone(),
        children,
    };
    proof {
        lemma_task_children_view(r);
    }
    assert(r@ =~= with_children(t@, tasks_view(r.children@)));
    r
}

/// A copy of `p` with other tasks and sub-projects.
fn project_with(p: &Project, tasks: Vec<Task>, children: Vec<Project>) -> (r: Project)
    ensures
        r@ == with_contents(p@, tasks_view(tasks@), projects_view(children@)),
{
    let r = Project {
        id: p.id.clone(),
        name: p.name.clone(),
        labels: clone_strings(&p.labels),
        prefix: p.prefix.clone(),
        tasks,
        children,
    };
    proof {
        lemma_project_children_view(r);
    }
    assert(r@ =~= with_contents(p@, tasks_view(r.tasks@), projects_view(r.children@)));
    r
}

pub proof fn lemma_projects_view_push(v: Seq<Project>, x: Project)
    ensures
        projects_view(v.push(x)) == projects_view(v).push(x@),
{
    assert(projects_view(v.push(x)) =~= projects_view(v).push(x@));
}

pub proof fn lemma_tasks_view_push(v: Seq<Task>, x: Task)
    ensures
        tasks_view(v.push(x)) == tasks_view(v).push(x@),
{
    assert(tasks_view(v.push(x)) =~= tasks_view(v).push(x@));
}

/// The projects that carry `label`, whole, and the ancestors of such
/// projects, reduced to the matching sub-projects and without tasks.
pub fn filter_by_label(projects: &[Project], label: &str) -> (r: Vec<Project>)
    ensures
        projects_view(r@) == filter_label_spec(projects_view(projects@), label@),
    decreases projects@,
{
    let mut r: Vec<Project> = Vec::new();
    let n = projects.len();
    assert(projects_view(projects@.take(0)) =~= Seq::<ProjectView>::empty());
    assert(projects_view(r@) =~= Seq::<ProjectView>::empty());
    for i in 0..n
        invariant
            n == projects@.len(),
            projects_view(r@) == filter_label_spec(projects_view(projects@.take(i as int)), label@),
    {
        let p = &projects[i];
        proof {
            lemma_projects_view_take(projects@, i as int);
            lemma_project_children_view(*p);
        }
        if contains_string(p.labels.as_slice(), label) {
            let q = p.clone();
            proof {
                lemma_projects_view_push(r@, q);
            }
            r.push(q);
        } else {
            assert(decreases_to!(projects@ => projects@[i as int]));
            let children = filter_by_label(p.children.as_slice(), label);
            if children.len() > 0 {
                let q = project_with(p, Vec::new(), children);
                assert(tasks_view(Seq::<Task>::empty()) =~= Seq::<TaskView>::empty());
                proof {
                    lemma_projects_view_push(r@, q);
                }
                r.push(q);
            }
        }
    }
    assert(projects@.take(n as int) =~= projects@);
    r
}

/// The tasks that match the lowercase query `query`, and the ancestors of
/// matching tasks, reduced to the matching sub-tasks.
fn filter_tasks_by_text(tasks: &[Task], query: &str) -> (r: Vec<Task>)
    ensures
        tasks_view(r@) == filter_tasks_spec(tasks_view(tasks@), query@),
    decreases tasks@,
{
    let mut r: Vec<Task> = Vec::new();
    let n = tasks.len();
    assert(tasks_view(tasks@.take(0)) =~= Seq::<TaskView>::empty());
    assert(tasks_view(r@) =~= Seq::<TaskView>::empty());
    for i in 0..n
        invariant
            n == tasks@.len(),
            tasks_view(r@) == filter_tasks_spec(tasks_view(tasks@.take(i as int)), query@),
    {
        let t = &tasks[i];
        proof {
            lemma_tasks_view_take(tasks@, i as int);
            lemma_task_children_view(*t);
        }
        let title_lower = to_lowercase(t.title.as_str());
        let id_lower = to_lowercase(t.id.as_str());
        let matches = contains_str(title_lower.as_str(), query) || contains_str(id_lower.as_str(), query);
        assert(decreases_to!(tasks@ => tasks@[i as int]));
        let matching_children = filter_tasks_by_text(t.children.as_slice(), query);
        if matches {
            let u = t.clone();
            proof {
                lemma_tasks_view_push(r@, u);
            }
            r.push(u);
        } else if matching_children.len() > 0 {
            let u = task_with_children(t, matching_children);
            proof {
                lemma_tasks_view_push(r@, u);
            }
            r.push(u);
        }
    }
    assert(tasks@.take(n as int) =~= tasks@);
    r
}

/// The projects with tasks whose title or id contains `query`, ignoring
/// case, or with such sub-projects; each keeps just the matching tasks
/// (matching sub-tasks of non-matching tasks included) and sub-projects.
pub fn filter_by_text(projects: &[Project], query: &str) -> (r: Vec<Project>)
    ensures
        projects_view(r@) == filter_text_spec(projects_view(projects@), lowercase(query@)),
    decreases projects@,
{
    let query_lower = to_lowercase(query);
    let mut r: Vec<Project> = Vec::new();
    let n = projects.len();
    assert(projects_view(projects@.take(0)) =~= Seq::<ProjectView>::empty());
    assert(projects_view(r@) =~= Seq::<ProjectView>::empty());
    for i in 0..n
        invariant
            n == projects@.len(),
            query_lower@ == lowercase(query@),
            projects_view(r@) == filter_text_spec(projects_view(projects@.take(i as int)), lowercase(query@)),
    {
        let p = &projects[i];
        proof {
            lemma_projects_view_take(projects@, i as int);
            lemma_project_children_view(*p);
        }
        let matching_tasks = filter_tasks_by_text(p.tasks.as_slice(), query_lower.as_str());
        assert(decreases_to!(projects@ => projects@[i as int]));
        let matching_children = filter_by_text(p.children.as_slice(), query);
        if matching_tasks.len() > 0 || matching_children.len() > 0 {
            let q = project_with(p, matching_tasks, matching_children);
            proof {
                lemma_projects_view_push(r@, q);
            }
            r.push(q);
        }
    }
    assert(projects@.take(n as int) =~= projects@);
    r
}


// ---------------------------------------------------------------------
// Grouping tasks into projects
// ---------------------------------------------------------------------

/// Length in bytes of the UTF-8 encoding of `s`: what `str::len` gives.
pub open spec fn byte_len(s: Seq<char>) -> usize {
    vstd::utf8::encode_utf8(s).len() as usize
}

/// Every configured prefix with the path of project ids that leads to its
/// project, in pre-order, below the path `parent`.
pub open spec fn prefix_entries(cs: Seq<ConfigView>, parent: Seq<Seq<char>>) -> Seq<(Seq<char>, Seq<Seq<char>>)>
    decreases cs,
{
    if cs.len() == 0 {
        seq![]
    } else {
        let c = cs.last();
        let path = parent.push(c.id);
        prefix_entries(cs.drop_last(), parent) + seq![(c.prefix, path)] + prefix_entries(c.children, path)
    }
}

/// Among the first `n` entries, the one whose prefix starts `id` and is
/// longest in bytes, the earliest of those when several are; none when no
/// prefix starts `id`.
pub open spec fn best_entry(es: Seq<(Seq<char>, Seq<Seq<char>>)>, id: Seq<char>, n: nat) -> Option<nat>
    decreases n,
{
    if n == 0 {
        None
    } else {
        let b = best_entry(es, id, (n - 1) as nat);
        let e = es[n - 1];
        if is_prefix_of(e.0, id) && (b is None || byte_len(es[b->0 as int].0) < byte_len(e.0)) {
            Some((n - 1) as nat)
        } else {
            b
        }
    }
}

pub proof fn lemma_best_entry_bound(es: Seq<(Seq<char>, Seq<Seq<char>>)>, id: Seq<char>, n: nat)
    ensures
        best_entry(es, id, n) matches Some(i) ==> i < n,
    decreases n,
{
    if n > 0 {
        lemma_best_entry_bound(es, id, (n - 1) as nat);
    }
}

/// The ids of a path joined by `/`.
pub open spec fn join_path(path: Seq<Seq<char>>) -> Seq<char>
    decreases path.len(),
{
    if path.len() == 0 {
        seq![]
    } else if path.len() == 1 {
        path[0]
    } else {
        join_path(path.drop_last()) + seq!['/'] + path.last()
    }
}

/// The key of the project a task with id `id` goes to: the joined path of
/// its best entry, or none when no prefix matches.
pub open spec fn assigned_key(es: Seq<(Seq<char>, Seq<Seq<char>>)>, id: Seq<char>) -> Option<Seq<char>> {
    match best_entry(es, id, es.len()) {
        Some(i) => Some(join_path(es[i as int].1)),
        None => None,
    }
}

/// The tasks of `ts` whose assigned key is `key`, in order.
pub open spec fn tasks_with_key(
    es: Seq<(Seq<char>, Seq<Seq<char>>)>,
    ts: Seq<TaskView>,
    key: Option<Seq<char>>,
) -> Seq<TaskView>
    decreases ts.len(),
{
    if ts.len() == 0 {
        seq![]
    } else {
        let rest = tasks_with_key(es, ts.drop_last(), key);
        if assigned_key(es, ts.last().id) == key {
            rest.push(ts.last())
        } else {
            rest
        }
    }
}

/// The projects built from the configurations `cs` below the path
/// `parent`, each with the tasks whose assigned key is its joined path.
pub open spec fn build_spec(
    cs: Seq<ConfigView>,
    parent: Seq<Seq<char>>,
    es: Seq<(Seq<char>, Seq<Seq<char>>)>,
    ts: Seq<TaskView>,
) -> Seq<ProjectView>
    decreases cs,
{
    if cs.len() == 0 {
        seq![]
    } else {
        let c = cs.last();
        let path = parent.push(c.id);
        build_spec(cs.drop_last(), parent, es, ts).push(
            ProjectView {
                id: c.id,
                name: c.name,
                labels: c.labels,
                prefix: c.prefix,
                tasks: tasks_with_key(es, ts, Some(join_path(path))),
                children: build_spec(c.children, path, es, ts),
            },
        )
    }
}

/// The project that collects the tasks no prefix matches.
pub open spec fn uncategorized_project(tasks: Seq<TaskView>) -> ProjectView {
    ProjectView {
        id: "uncategorized"@,
        name: "Uncategorized"@,
        labels: seq![],
        prefix: ""@,
        tasks,
        children: seq![],
    }
}

/// The projects of the configuration with their tasks, followed by the
/// uncategorized project when some task matches no prefix.
pub open spec fn group_spec(cs: Seq<ConfigView>, ts: Seq<TaskView>) -> Seq<ProjectView> {
    let es = prefix_entries(cs, seq![]);
    let built = build_spec(cs, seq![], es, ts);
    let unc = tasks_with_key(es, ts, None);
    if unc.len() == 0 {
        built
    } else {
        built.push(uncategorized_project(unc))
    }
}

pub open spec fn entries_view(e: Seq<(String, Vec<String>)>) -> Seq<(Seq<char>, Seq<Seq<char>>)> {
    Seq::new(e.len(), |i: int| (e[i].0@, strs_view(e[i].1@)))
}

pub open spec fn opt_view(o: Option<String>) -> Option<Seq<char>> {
    match o {
        Some(s) => Some(s@),
        None => None,
    }
}

pub proof fn lemma_configs_view_take(cs: Seq<ProjectConfig>, i: int)
    requires
        0 <= i < cs.len(),
    ensures
        configs_view(cs.take(i + 1)).drop_last() == configs_view(cs.take(i)),
        configs_view(cs.take(i + 1)).last() == cs[i]@,
        configs_view(cs.take(cs.len() as int)) == configs_view(cs),
{
    assert(configs_view(cs.take(i + 1)).drop_last() =~= configs_view(cs.take(i)));
    assert(configs_view(cs.take(cs.len() as int)) =~= configs_view(cs));
}

/// Appends the prefixes of `configs` and their sub-projects, each with the
/// path of project ids below `parent_path` that leads to it.
fn collect_prefixes(
    configs: &[ProjectConfig],
    parent_path: &[String],
    out: &mut Vec<(String, Vec<String>)>,
)
    ensures
        entries_view(final(out)@) == entries_view(old(out)@) + prefix_entries(
            configs_view(configs@),
            strs_view(parent_path@),
        ),
    decreases configs@,
{
    let ghost base = entries_view(out@);
    let n = configs.len();
    assert(configs_view(configs@.take(0)) =~= Seq::<ConfigView>::empty());
    assert(base + prefix_entries(Seq::<ConfigView>::empty(), strs_view(parent_path@)) =~= base);
    for i in 0..n
        invariant
            n == configs@.len(),
            entries_view(out@) == base + prefix_entries(
                configs_view(configs@.take(i as int)),
                strs_view(parent_path@),
            ),
    {
        let config = &configs[i];
        proof {
            lemma_configs_view_take(configs@, i as int);
            lemma_config_children_view(*config);
        }
        let mut path = clone_strings(parent_path);
        path.push(config.id.clone());
        proof {
            assert(strs_view(path@) =~= strs_view(parent_path@).push(config@.id));
        }
        let ghost before = entries_view(out@);
        out.push((config.prefix.clone(), clone_strings(path.as_slice())));
        assert(entries_view(out@) =~= before + seq![(config@.prefix, strs_view(path@))]);
        assert(decreases_to!(configs@ => configs@[i as int]));
        collect_prefixes(config.children.as_slice(), path.as_slice(), out);
        proof {
            let p = strs_view(parent_path@);
            let x = prefix_entries(configs_view(configs@.take(i as int)), p);
            assert(entries_view(out@) =~= base + prefix_entries(configs_view(configs@.take(i + 1)), p));
        }
    }
    assert(configs@.take(n as int) =~= configs@);
}

/// The entry of `entries` that `best_entry` picks for `id`.
fn best_entry_index(entries: &[(String, Vec<String>)], id: &str) -> (r: Option<usize>)
    ensures
        match r {
            Some(i) => best_entry(entries_view(entries@), id@, entries@.len()) == Some(i as nat),
            None => best_entry(entries_view(entries@), id@, entries@.len()) is None,
        },
{
    let ghost es = entries_view(entries@);
    let n = entries.len();
    let mut best: Option<usize> = None;
    for j in 0..n
        invariant
            n == entries@.len(),
            es == entries_view(entries@),
            match best {
                Some(b) => b < j && best_entry(es, id@, j as nat) == Some(b as nat),
                None => best_entry(es, id@, j as nat) is None,
            },
    {
        let prefix = entries[j].0.as_str();
        let matches = starts_with(id, prefix);
        let longer = match best {
            None => true,
            Some(b) => entries[b].0.as_str().len() < prefix.len(),
        };
        assert(es[j as int].0 == entries@[j as int].0@);
        proof {
            if let Some(b) = best {
                assert(es[b as int].0 == entries@[b as int].0@);
            }
        }
        if matches && longer {
            best = Some(j);
        }
    }
    best
}

/// The ids of `path` joined by `/`.
fn join_strings(path: &[String]) -> (r: String)
    ensures
        r@ == join_path(strs_view(path@)),
{
    let n = path.len();
    let mut r = String::new();
    proof {
        reveal_strlit("/");
        assert(strs_view(path@).take(0) =~= Seq::<Seq<char>>::empty());
    }
    for i in 0..n
        invariant
            n == path@.len(),
            "/"@ == seq!['/'],
            r@ == join_path(strs_view(path@).take(i as int)),
    {
        let ghost v = strs_view(path@);
        assert(v.take(i + 1).drop_last() =~= v.take(i as int));
        if i == 0 {
            r = path[0].clone();
            assert(v.take(1) =~= seq![v[0]]);
        } else {
            r.append("/");
            r.append(path[i].as_str());
        }
    }
    assert(strs_view(path@).take(n as int) =~= strs_view(path@));
    r
}

/// Equality of optional strings by their characters.
fn opt_eq(a: &Option<String>, b: &Option<String>) -> (r: bool)
    ensures
        r == (opt_view(*a) == opt_view(*b)),
{
    match (a, b) {
        (Some(x), Some(y)) => *x == *y,
        (None, None) => true,
        _ => false,
    }
}

/// The key of every task: `keys[k]` is the assigned key of `tasks[k]`.
pub open spec fn keys_of(
    keys: Seq<Option<String>>,
    es: Seq<(Seq<char>, Seq<Seq<char>>)>,
    tasks: Seq<Task>,
) -> bool {
    &&& keys.len() == tasks.len()
    &&& forall|k: int| 0 <= k < tasks.len() ==> opt_view(#[trigger] keys[k]) == assigned_key(es, tasks[k]@.id)
}

/// Copies of the tasks whose key equals `key`, in order.
fn tasks_for(
    keys: &[Option<String>],
    tasks: &[Task],
    key: &Option<String>,
    Ghost(es): Ghost<Seq<(Seq<char>, Seq<Seq<char>>)>>,
) -> (r: Vec<Task>)
    requires
        keys_of(keys@, es, tasks@),
    ensures
        tasks_view(r@) == tasks_with_key(es, tasks_view(tasks@), opt_view(*key)),
{
    let mut r: Vec<Task> = Vec::new();
    let n = tasks.len();
    assert(tasks_view(tasks@.take(0)) =~= Seq::<TaskView>::empty());
    assert(tasks_view(r@) =~= Seq::<TaskView>::empty());
    for k in 0..n
        invariant
            n == tasks@.len(),
            keys_of(keys@, es, tasks@),
            tasks_view(r@) == tasks_with_key(es, tasks_view(tasks@.take(k as int)), opt_view(*key)),
    {
        proof {
            lemma_tasks_view_take(tasks@, k as int);
            assert(opt_view(keys@[k as int]) == assigned_key(es, tasks@[k as int]@.id));
        }
        if opt_eq(&keys[k], key) {
            let t = tasks[k].clone();
            proof {
                lemma_tasks_view_push(r@, t);
            }
            r.push(t);
        }
    }
    assert(tasks@.take(n as int) =~= tasks@);
    r
}

/// Builds the projects of `configs` below `parent_path`.
fn build_projects_with_path(
    configs: &[ProjectConfig],
    keys: &[Option<String>],
    tasks: &[Task],
    parent_path: &[String],
    Ghost(es): Ghost<Seq<(Seq<char>, Seq<Seq<char>>)>>,
) -> (r: Vec<Project>)
    requires
        keys_of(keys@, es, tasks@),
    ensures
        projects_view(r@) == build_spec(configs_view(configs@), strs_view(parent_path@), es, tasks_view(tasks@)),
    decreases configs@,
{
    let mut r: Vec<Project> = Vec::new();
    let n = configs.len();
    assert(configs_view(configs@.take(0)) =~= Seq::<ConfigView>::empty());
    assert(projects_view(r@) =~= Seq::<ProjectView>::empty());
    for i in 0..n
        invariant
            n == configs@.len(),
            keys_of(keys@, es, tasks@),
            projects_view(r@) == build_spec(
                configs_view(configs@.take(i as int)),
                strs_view(parent_path@),
                es,
                tasks_view(tasks@),
            ),
    {
        let config = &configs[i];
        proof {
            lemma_configs_view_take(configs@, i as int);
            lemma_config_children_view(*config);
        }
        let mut path = clone_strings(parent_path);
        path.push(config.id.clone());
        proof {
            assert(strs_view(path@) =~= strs_view(parent_path@).push(config@.id));
        }
        let key = join_strings(path.as_slice());
        let project_tasks = tasks_for(keys, tasks, &Some(key), Ghost(es));
        assert(decreases_to!(configs@ => configs@[i as int]));
        let children = build_projects_with_path(config.children.as_slice(), keys, tasks, path.as_slice(), Ghost(es));
        let p = Project {
            id: config.id.clone(),
            name: config.name.clone(),
            labels: clone_strings(&config.labels),
            prefix: config.prefix.clone(),
            tasks: project_tasks,
            children,
        };
        proof {
            lemma_project_children_view(p);
            lemma_projects_view_push(r@, p);
        }
        r.push(p);
    }
    assert(configs@.take(n as int) =~= configs@);
    r
}

/// Builds the top-level projects of `configs`; a top-level project's key
/// is its id.
fn build_projects(
    configs: &[ProjectConfig],
    keys: &[Option<String>],
    tasks: &[Task],
    Ghost(es): Ghost<Seq<(Seq<char>, Seq<Seq<char>>)>>,
) -> (r: Vec<Project>)
    requires
        keys_of(keys@, es, tasks@),
    ensures
        projects_view(r@) == build_spec(configs_view(configs@), seq![], es, tasks_view(tasks@)),
{
    let mut r: Vec<Project> = Vec::new();
    let n = configs.len();
    assert(configs_view(configs@.take(0)) =~= Seq::<ConfigView>::empty());
    assert(projects_view(r@) =~= Seq::<ProjectView>::empty());
    for i in 0..n
        invariant
            n == configs@.len(),
            keys_of(keys@, es, tasks@),
            projects_view(r@) == build_spec(configs_view(configs@.take(i as int)), seq![], es, tasks_view(tasks@)),
    {
        let config = &configs[i];
        proof {
            lemma_configs_view_take(configs@, i as int);
            lemma_config_children_view(*config);
        }
        let key = config.id.clone();
        let project_tasks = tasks_for(keys, tasks, &Some(key), Ghost(es));
        let parent = vec![config.id.clone()];
        proof {
            assert(strs_view(parent@) =~= Seq::<Seq<char>>::empty().push(config@.id));
            assert(join_path(strs_view(parent@)) == config@.id);
        }
        let children = build_projects_with_path(config.children.as_slice(), keys, tasks, parent.as_slice(), Ghost(es));
        let p = Project {
            id: config.id.clone(),
            name: config.name.clone(),
            labels: clone_strings(&config.labels),
            prefix: config.prefix.clone(),
            tasks: project_tasks,
            children,
        };
        proof {
            lemma_project_children_view(p);
            lemma_projects_view_push(r@, p);
        }
        r.push(p);
    }
    assert(configs@.take(n as int) =~= configs@);
    r
}

/// Groups tasks into the configured projects: a task goes to the project
/// whose prefix starts its id and is longest (in bytes; the first such
/// prefix in pre-order on a tie). Tasks that no prefix matches go to a
/// trailing "Uncategorized" project, present only when there are any.
pub fn group_tasks(tree: &ProjectTree, tasks: &[Task]) -> (projects: Vec<Project>)
    ensures
        projects_view(projects@) == group_spec(tree@, tasks_view(tasks@)),
{
    let mut prefix_map: Vec<(String, Vec<String>)> = Vec::new();
    let empty: Vec<String> = Vec::new();
    collect_prefixes(tree.projects.as_slice(), empty.as_slice(), &mut prefix_map);
    let ghost es = entries_view(prefix_map@);
    proof {
        assert(strs_view(empty@) =~= Seq::<Seq<char>>::empty());
        assert(entries_view(Seq::<(String, Vec<String>)>::empty()) =~= Seq::<(Seq<char>, Seq<Seq<char>>)>::empty());
        assert(es =~= prefix_entries(tree@, seq![]));
    }
    let mut keys: Vec<Option<String>> = Vec::new();
    let n = tasks.len();
    for k in 0..n
        invariant
            n == tasks@.len(),
            es == entries_view(prefix_map@),
            keys@.len() == k,
            forall|j: int| 0 <= j < k ==> opt_view(#[trigger] keys@[j]) == assigned_key(es, tasks@[j]@.id),
    {
        proof {
            lemma_best_entry_bound(es, tasks@[k as int]@.id, es.len());
        }
        let key = match best_entry_index(prefix_map.as_slice(), tasks[k].id.as_str()) {
            Some(i) => Some(join_strings(prefix_map[i].1.as_slice())),
            None => None,
        };
        keys.push(key);
    }
    let mut projects = build_projects(tree.projects.as_slice(), keys.as_slice(), tasks, Ghost(es));
    let uncategorized = tasks_for(keys.as_slice(), tasks, &None, Ghost(es));
    if uncategorized.len() > 0 {
        let p = Project {
            id: String::from_str("uncategorized"),
            name: String::from_str("Uncategorized"),
            labels: Vec::new(),
            prefix: String::from_str(""),
            tasks: uncategorized,
            children: Vec::new(),
        };
        proof {
            lemma_project_children_view(p);
            assert(strs_view(p.labels@) =~= Seq::<Seq<char>>::empty());
            assert(projects_view(p.children@) =~= Seq::<ProjectView>::empty());
            lemma_projects_view_push(projects@, p);
        }
        projects.push(p);
    }
    projects
}

} // verus!
