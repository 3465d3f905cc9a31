use cockpit_dash::data::{
    collect_labels, count_by_status, count_for, filter_by_label, filter_by_text, group_tasks,
    total_projects, total_tasks, Project, ProjectConfig, ProjectTree, Task,
};
use cockpit_dash::detail::{breadcrumb_titles, detail_line_count, find_task_by_id, handle_detail_key};
use cockpit_dash::keys::{KeyAction, KeyCode, KeyInput};
use cockpit_dash::rows::{row_text, Piece};
use cockpit_dash::strings::expand_home;
use cockpit_dash::text::{decimal_str, detail_lines, signed_decimal_str, split_lines, DetailPiece};
use cockpit_dash::theme::{status_color, status_icon, ThemeColor};
use cockpit_dash::ui::{
    collect_in_progress, empty_tree_message, handle_key, in_progress_layout, metrics, tree_scroll,
    AppState, TreeItemKind, ViewMode,
};

fn task(id: &str, title: &str, status: &str) -> Task {
    Task {
        id: id.to_string(),
        title: title.to_string(),
        status: status.to_string(),
        task_type: String::new(),
        priority: 0,
        assignee: String::new(),
        parent: String::new(),
        labels: vec![],
        updated_at: String::new(),
        description: String::new(),
        children: vec![],
    }
}

fn with_kids(mut t: Task, kids: Vec<Task>) -> Task {
    t.children = kids;
    t
}

fn with_labels(mut t: Task, labels: &[&str]) -> Task {
    t.labels = labels.iter().map(|s| s.to_string()).collect();
    t
}

fn config(id: &str, prefix: &str, children: Vec<ProjectConfig>) -> ProjectConfig {
    ProjectConfig {
        id: id.to_string(),
        name: id.to_uppercase(),
        path: format!("/src/{}", id),
        prefix: prefix.to_string(),
        labels: vec![],
        children,
    }
}

fn project(id: &str, labels: &[&str], tasks: Vec<Task>, children: Vec<Project>) -> Project {
    Project {
        id: id.to_string(),
        name: id.to_uppercase(),
        labels: labels.iter().map(|s| s.to_string()).collect(),
        prefix: String::new(),
        tasks,
        children,
    }
}

fn key(c: char) -> KeyInput {
    KeyInput { code: KeyCode::Char(c), ctrl: false }
}

fn code(code: KeyCode) -> KeyInput {
    KeyInput { code, ctrl: false }
}

fn ids(items: &[cockpit_dash::ui::TreeItem]) -> Vec<String> {
    items.iter().map(|i| i.id.clone()).collect()
}

fn sample_projects() -> Vec<Project> {
    vec![
        project(
            "web",
            &["frontend"],
            vec![
                with_kids(task("web-1", "Fix login", "open"), vec![task("web-2", "Write test", "in_progress")]),
                task("web-3", "Deploy", "closed"),
            ],
            vec![project("api", &["backend"], vec![task("web-api-1", "Add endpoint", "blocked")], vec![])],
        ),
        project("ops", &[], vec![task("ops-1", "Rotate keys", "open")], vec![]),
    ]
}

#[test]
fn status_icons_and_colors() {
    assert_eq!(status_icon("in_progress"), "●");
    assert_eq!(status_icon("open"), "○");
    assert_eq!(status_icon("blocked"), "◌");
    assert_eq!(status_icon("deferred"), "◊");
    assert_eq!(status_icon("closed"), "✓");
    assert_eq!(status_icon("done"), "✓");
    assert_eq!(status_icon("weird"), "·");
    assert_eq!(status_color("in_progress"), ThemeColor::Green);
    assert_eq!(status_color("open"), ThemeColor::Blue);
    assert_eq!(status_color("blocked"), ThemeColor::Red);
    assert_eq!(status_color("deferred"), ThemeColor::Yellow);
    assert_eq!(status_color("done"), ThemeColor::Overlay0);
    assert_eq!(status_color(""), ThemeColor::Text);
}

#[test]
fn group_tasks_prefers_longest_prefix() {
    let tree = ProjectTree {
        projects: vec![
            config("web", "web-", vec![config("api", "web-api-", vec![])]),
            config("ops", "ops-", vec![]),
        ],
    };
    let tasks = vec![
        task("web-1", "a", "open"),
        task("web-api-7", "b", "open"),
        task("ops-2", "c", "open"),
        task("misc-9", "d", "open"),
    ];
    let projects = group_tasks(&tree, &tasks);
    assert_eq!(projects.len(), 3);
    assert_eq!(projects[0].id, "web");
    assert_eq!(projects[0].name, "WEB");
    assert_eq!(projects[0].tasks.len(), 1);
    assert_eq!(projects[0].tasks[0].id, "web-1");
    assert_eq!(projects[0].children.len(), 1);
    assert_eq!(projects[0].children[0].tasks.len(), 1);
    assert_eq!(projects[0].children[0].tasks[0].id, "web-api-7");
    assert_eq!(projects[1].tasks[0].id, "ops-2");
    assert_eq!(projects[2].id, "uncategorized");
    assert_eq!(projects[2].name, "Uncategorized");
    assert_eq!(projects[2].prefix, "");
    assert_eq!(projects[2].tasks[0].id, "misc-9");
}

#[test]
fn group_tasks_without_leftovers_has_no_uncategorized() {
    let tree = ProjectTree { projects: vec![config("web", "web-", vec![])] };
    let projects = group_tasks(&tree, &[task("web-1", "a", "open")]);
    assert_eq!(projects.len(), 1);
    let none = group_tasks(&tree, &[]);
    assert_eq!(none.len(), 1);
    assert!(none[0].tasks.is_empty());
}

#[test]
fn group_tasks_tie_goes_to_first_prefix() {
    let tree = ProjectTree {
        projects: vec![config("a", "x-", vec![]), config("b", "x-", vec![])],
    };
    let projects = group_tasks(&tree, &[task("x-1", "t", "open")]);
    assert_eq!(projects[0].tasks.len(), 1);
    assert!(projects[1].tasks.is_empty());
}

#[test]
fn counting_tasks_and_projects() {
    let projects = sample_projects();
    let counts = count_by_status(&projects);
    assert_eq!(count_for(&counts, "open"), 2);
    assert_eq!(count_for(&counts, "in_progress"), 1);
    assert_eq!(count_for(&counts, "closed"), 1);
    assert_eq!(count_for(&counts, "blocked"), 1);
    assert_eq!(count_for(&counts, "deferred"), 0);
    assert_eq!(counts.len(), 4);
    assert_eq!(counts[0].0, "open");
    assert_eq!(total_tasks(&projects), 5);
    assert_eq!(total_projects(&projects), 3);
    assert_eq!(total_tasks(&[]), 0);
}

#[test]
fn labels_are_sorted_and_unique() {
    let projects = vec![
        project("a", &["zeta", "alpha"], vec![], vec![project("b", &["alpha", "mid"], vec![], vec![])]),
        project("c", &["Beta"], vec![], vec![]),
    ];
    assert_eq!(collect_labels(&projects), vec!["Beta", "alpha", "mid", "zeta"]);
    assert!(collect_labels(&[]).is_empty());
}

#[test]
fn filter_by_label_keeps_matching_subtrees() {
    let projects = sample_projects();
    let front = filter_by_label(&projects, "frontend");
    assert_eq!(front.len(), 1);
    assert_eq!(front[0].tasks.len(), 2);
    let back = filter_by_label(&projects, "backend");
    assert_eq!(back.len(), 1);
    assert_eq!(back[0].id, "web");
    assert!(back[0].tasks.is_empty());
    assert_eq!(back[0].children[0].id, "api");
    assert_eq!(back[0].children[0].tasks.len(), 1);
    assert!(filter_by_label(&projects, "nothing").is_empty());
    let again = filter_by_label(&back, "backend");
    assert_eq!(again.len(), 1);
    assert_eq!(again[0].children[0].tasks.len(), 1);
}

#[test]
fn filter_by_text_ignores_case() {
    let projects = sample_projects();
    let found = filter_by_text(&projects, "WRITE");
    assert_eq!(found.len(), 1);
    assert_eq!(found[0].id, "web");
    assert_eq!(found[0].tasks.len(), 1);
    assert_eq!(found[0].tasks[0].id, "web-1");
    assert_eq!(found[0].tasks[0].children.len(), 1);
    assert_eq!(found[0].tasks[0].children[0].id, "web-2");
    assert!(found[0].children.is_empty());
    let by_id = filter_by_text(&projects, "OPS-1");
    assert_eq!(by_id.len(), 1);
    assert_eq!(by_id[0].id, "ops");
    let whole = filter_by_text(&projects, "fix");
    assert_eq!(whole[0].tasks[0].children.len(), 1);
    assert!(filter_by_text(&projects, "zzz").is_empty());
    let again = filter_by_text(&found, "WRITE");
    assert_eq!(again.len(), 1);
    assert_eq!(again[0].tasks[0].children[0].id, "web-2");
}

#[test]
fn find_task_by_id_searches_nested() {
    let projects = sample_projects();
    assert_eq!(find_task_by_id(&projects, "web-2").unwrap().title, "Write test");
    assert_eq!(find_task_by_id(&projects, "web-api-1").unwrap().title, "Add endpoint");
    assert!(find_task_by_id(&projects, "nope").is_none());
}

#[test]
fn rebuild_all_view_lists_projects_and_tasks() {
    let mut state = AppState::new();
    state.projects = sample_projects();
    state.rebuild_tree();
    assert_eq!(
        ids(&state.tree_items),
        vec![
            "project:web", "task:web-1", "task:web-2", "task:web-3", "project:api", "task:web-api-1",
            "project:ops", "task:ops-1"
        ]
    );
    assert_eq!(state.tree_items[1].depth, 1);
    assert_eq!(state.tree_items[2].depth, 2);
    assert!(state.tree_items[1].expanded);
    assert!(!state.tree_items[3].expanded);
    assert_eq!(state.filtered_projects.len(), 2);
}

#[test]
fn toggling_collapses_and_expands() {
    let mut state = AppState::new();
    state.projects = sample_projects();
    state.rebuild_tree();
    state.toggle_selected();
    assert_eq!(ids(&state.tree_items), vec!["project:web", "project:ops", "task:ops-1"]);
    assert!(!state.tree_items[0].expanded);
    state.toggle_selected();
    assert_eq!(state.tree_items.len(), 8);
    state.selected = 3;
    state.toggle_selected();
    assert_eq!(state.tree_items.len(), 8);
    assert!(state.collapsed.is_empty());
}

#[test]
fn selection_moves_within_rows() {
    let mut state = AppState::new();
    state.projects = sample_projects();
    state.rebuild_tree();
    state.move_up();
    assert_eq!(state.selected, 0);
    state.move_down();
    assert_eq!(state.selected, 1);
    state.selected = 7;
    state.move_down();
    assert_eq!(state.selected, 7);
    assert_eq!(state.selected_task_id(), Some("task:ops-1"));
    state.selected = 20;
    state.rebuild_tree();
    assert_eq!(state.selected, 7);
}

#[test]
fn project_view_groups_by_label() {
    let mut state = AppState::new();
    state.projects = vec![project(
        "web",
        &["ui", "db"],
        vec![
            with_labels(task("w-1", "Button", "open"), &["ui"]),
            with_labels(task("w-2", "Schema", "open"), &["db", "ui"]),
            task("w-3", "Misc", "open"),
        ],
        vec![],
    )];
    state.cycle_project();
    assert_eq!(state.selected_project, 1);
    assert_eq!(
        ids(&state.tree_items),
        vec!["label:ui", "task:w-1", "task:w-2", "label:db", "task:w-2", "label:_other", "task:w-3"]
    );
    match &state.tree_items[5].kind {
        TreeItemKind::LabelGroup { key, name } => {
            assert_eq!(key, "_other");
            assert_eq!(name, "Other");
        }
        _ => panic!("expected a label group"),
    }
    state.collapsed.push("label:ui".to_string());
    state.rebuild_tree();
    assert_eq!(ids(&state.tree_items), vec!["label:ui", "label:db", "task:w-2", "label:_other", "task:w-1", "task:w-3"]);
    state.cycle_project();
    assert_eq!(state.selected_project, 0);
    state.cycle_project_backward();
    assert_eq!(state.selected_project, 1);
    state.cycle_project_backward();
    assert_eq!(state.selected_project, 0);
}

#[test]
fn status_filter_in_project_view_matches_status() {
    let mut state = AppState::new();
    state.projects = sample_projects();
    state.selected_project = 1;
    state.set_status_filter("blocked");
    assert_eq!(ids(&state.tree_items), vec!["label:_other", "task:web-api-1"]);
    state.set_status_filter("all");
    assert_eq!(state.filter_text, "");
    assert_eq!(state.tree_items.len(), 6);
}

#[test]
fn detail_navigation_stack() {
    let mut state = AppState::new();
    assert_eq!(state.current_detail_id(), None);
    state.enter_detail("web-1".to_string());
    state.enter_detail("web-2".to_string());
    assert_eq!(state.view_mode, ViewMode::Detail);
    assert_eq!(state.current_detail_id(), Some("web-2"));
    state.exit_detail();
    assert_eq!(state.current_detail_id(), Some("web-1"));
    assert_eq!(state.view_mode, ViewMode::Detail);
    state.exit_detail();
    assert_eq!(state.view_mode, ViewMode::List);
    assert_eq!(state.current_detail_id(), None);
}

#[test]
fn list_keys() {
    let mut state = AppState::new();
    state.projects = sample_projects();
    state.rebuild_tree();
    assert!(matches!(handle_key(key('q'), &mut state), KeyAction::Quit));
    assert!(matches!(handle_key(KeyInput { code: KeyCode::Char('c'), ctrl: true }, &mut state), KeyAction::Quit));
    assert!(matches!(handle_key(key('r'), &mut state), KeyAction::Refresh));
    handle_key(key('j'), &mut state);
    assert_eq!(state.selected, 1);
    match handle_key(key('o'), &mut state) {
        KeyAction::OpenInEditor(id) => assert_eq!(id, "web-1"),
        other => panic!("unexpected {:?}", other),
    }
    handle_key(key('k'), &mut state);
    assert!(matches!(handle_key(key('o'), &mut state), KeyAction::Continue));
    handle_key(key('/'), &mut state);
    assert_eq!(state.view_mode, ViewMode::Filter);
    for c in "DEPLOYx".chars() {
        handle_key(key(c), &mut state);
    }
    assert!(state.tree_items.is_empty());
    handle_key(code(KeyCode::Backspace), &mut state);
    assert_eq!(state.filter_text, "DEPLOY");
    assert_eq!(ids(&state.tree_items), vec!["project:web", "task:web-3"]);
    handle_key(code(KeyCode::Enter), &mut state);
    assert_eq!(state.view_mode, ViewMode::List);
    assert_eq!(state.filter_text, "DEPLOY");
    handle_key(key('1'), &mut state);
    assert_eq!(state.tree_items.len(), 8);
    handle_key(key('4'), &mut state);
    assert_eq!(state.filter_text, "blocked");
    handle_key(code(KeyCode::Tab), &mut state);
    assert_eq!(state.selected_project, 1);
    handle_key(code(KeyCode::BackTab), &mut state);
    assert_eq!(state.selected_project, 0);
    assert!(matches!(handle_key(code(KeyCode::Esc), &mut state), KeyAction::Quit));
}

#[test]
fn detail_keys() {
    let mut state = AppState::new();
    state.projects = sample_projects();
    state.enter_detail("web-1".to_string());
    state.last_content_height = 25;
    handle_detail_key(key('j'), &mut state);
    assert_eq!(state.detail_scroll, 1);
    handle_detail_key(code(KeyCode::PageDown), &mut state);
    assert_eq!(state.detail_scroll, 5);
    handle_detail_key(key('k'), &mut state);
    assert_eq!(state.detail_scroll, 4);
    handle_detail_key(key('g'), &mut state);
    assert!(state.pending_g);
    handle_detail_key(key('g'), &mut state);
    assert_eq!(state.detail_scroll, 0);
    assert!(!state.pending_g);
    handle_detail_key(code(KeyCode::End), &mut state);
    assert_eq!(state.detail_scroll, 5);
    match handle_detail_key(key('o'), &mut state) {
        KeyAction::EditTask(id) => assert_eq!(id, "web-1"),
        other => panic!("unexpected {:?}", other),
    }
    handle_detail_key(key('1'), &mut state);
    assert_eq!(state.current_detail_id(), Some("web-2"));
    assert_eq!(state.detail_scroll, 0);
    handle_detail_key(key('1'), &mut state);
    assert_eq!(state.current_detail_id(), Some("web-2"));
    assert_eq!(breadcrumb_titles(&state), vec!["Fix login", "Write test"]);
    handle_detail_key(key('h'), &mut state);
    assert_eq!(state.current_detail_id(), Some("web-1"));
    assert!(matches!(handle_detail_key(key('q'), &mut state), KeyAction::Quit));
}

#[test]
fn screen_helpers() {
    assert_eq!(tree_scroll(3, 10), 0);
    assert_eq!(tree_scroll(10, 10), 1);
    assert_eq!(tree_scroll(15, 10), 6);
    assert_eq!(in_progress_layout(3, 5), (5, false));
    assert_eq!(in_progress_layout(7, 5), (4, true));
    assert_eq!(in_progress_layout(7, 0), (0, true));
    let state = AppState::new();
    assert_eq!(empty_tree_message(&state), "No tasks found");
    let mut filtered = AppState::new();
    filtered.filter_text = "x".to_string();
    assert_eq!(empty_tree_message(&filtered), "No matching tasks");
    filtered.bd_error = Some("boom".to_string());
    assert_eq!(empty_tree_message(&filtered), "No data available");
    let counts = count_by_status(&sample_projects());
    assert_eq!(metrics(&counts), vec![("in_progress", 1), ("open", 2), ("blocked", 1), ("closed", 1)]);
    let ip = collect_in_progress(&sample_projects());
    assert_eq!(ip, vec![("WEB".to_string(), "Write test".to_string())]);
    let mut t = with_kids(task("a", "A", "open"), vec![task("b", "B", "open")]);
    assert_eq!(detail_line_count(&t), 7);
    t.description = "one\ntwo".to_string();
    assert_eq!(detail_line_count(&t), 9);
}

#[test]
fn refresh_applies_grouping_and_filter() {
    let tree = ProjectTree {
        projects: vec![config("web", "web-", vec![]), config("ops", "ops-", vec![])],
    };
    let tasks = vec![task("web-1", "a", "open"), task("ops-1", "b", "open")];
    let mut state = AppState::new();
    state.bd_error = Some("old".to_string());
    state.apply_fetched_tasks(&tree, &tasks, Some("ops"));
    assert!(state.bd_error.is_none());
    assert_eq!(state.projects.len(), 1);
    assert_eq!(state.projects[0].id, "ops");
    assert_eq!(ids(&state.tree_items), vec!["project:ops", "task:ops-1"]);
    state.apply_fetched_tasks(&tree, &tasks, None);
    assert_eq!(state.projects.len(), 2);
}

#[test]
fn key_round_trips_and_bounds() {
    let mut state = AppState::new();
    state.projects = sample_projects();
    state.rebuild_tree();
    state.selected = 3;
    state.move_down();
    state.move_up();
    assert_eq!(state.selected, 3);

    let before = ids(&state.tree_items);
    handle_key(key('/'), &mut state);
    handle_key(key('z'), &mut state);
    assert!(state.tree_items.is_empty());
    handle_key(code(KeyCode::Backspace), &mut state);
    assert_eq!(state.filter_text, "");
    assert_eq!(ids(&state.tree_items), before);

    state.enter_detail("web-1".to_string());
    state.last_content_height = 27;
    for _ in 0..5 {
        handle_detail_key(code(KeyCode::PageDown), &mut state);
        assert!(state.detail_scroll <= 7);
    }
    assert_eq!(state.detail_scroll, 7);
    handle_detail_key(key('j'), &mut state);
    assert_eq!(state.detail_scroll, 7);
}

#[test]
fn every_collected_label_finds_projects() {
    let projects = sample_projects();
    let labels = collect_labels(&projects);
    assert_eq!(labels, vec!["backend", "frontend"]);
    for l in &labels {
        assert!(!filter_by_label(&projects, l).is_empty());
    }
    assert!(filter_by_label(&projects, "mobile").is_empty());
    let counts = count_by_status(&projects);
    let sum: usize = counts.iter().map(|(_, n)| *n).sum();
    assert_eq!(sum, total_tasks(&projects));
}

#[test]
fn home_expansion() {
    assert_eq!(expand_home("~/cfg/tree.yml", Some("/home/me")), "/home/me/cfg/tree.yml");
    assert_eq!(expand_home("~/cfg/tree.yml", None), "~/cfg/tree.yml");
    assert_eq!(expand_home("~other/x", Some("/home/me")), "~other/x");
    assert_eq!(expand_home("/etc/tree.yml", Some("/home/me")), "/etc/tree.yml");
}

#[test]
fn folding_twice_restores_rows_and_selection() {
    let mut state = AppState::new();
    state.projects = sample_projects();
    state.rebuild_tree();
    state.selected = 1;
    let before = ids(&state.tree_items);
    let folded_before = state.collapsed.clone();
    state.toggle_selected();
    assert_eq!(state.selected, 1);
    assert_ne!(ids(&state.tree_items), before);
    state.toggle_selected();
    assert_eq!(ids(&state.tree_items), before);
    assert_eq!(state.selected, 1);
    assert_eq!(state.collapsed, folded_before);
}

#[test]
fn row_text_pieces() {
    let mut state = AppState::new();
    state.projects = sample_projects();
    state.rebuild_tree();
    let texts = |i: usize, sel: bool| -> Vec<(Piece, String)> { row_text(&state.tree_items[i], sel) };
    assert_eq!(
        texts(0, true),
        vec![
            (Piece::Marker, "▌".to_string()),
            (Piece::Indent, "  ".to_string()),
            (Piece::Arrow, "▼ ".to_string()),
            (Piece::Name, "WEB".to_string()),
            (Piece::Labels, "  [frontend]".to_string()),
        ]
    );
    assert_eq!(
        texts(1, false),
        vec![
            (Piece::Marker, " ".to_string()),
            (Piece::Indent, "    ".to_string()),
            (Piece::Arrow, "▼ ".to_string()),
            (Piece::Name, "Fix login".to_string()),
            (Piece::Id, "  (web-1)".to_string()),
            (Piece::Status, "  ○ open".to_string()),
        ]
    );
    assert_eq!(texts(2, false)[2], (Piece::Pad, "  ".to_string()));
    assert_eq!(texts(2, false)[1], (Piece::Indent, "      ".to_string()));
}

#[test]
fn detail_text_lines() {
    assert_eq!(decimal_str(0), "0");
    assert_eq!(decimal_str(1207), "1207");
    assert_eq!(signed_decimal_str(-42), "-42");
    assert_eq!(signed_decimal_str(i32::MIN), "-2147483648");
    assert_eq!(split_lines("a\n\nb\n"), vec!["a", "", "b", ""]);

    let mut t = with_kids(task("web-1", "Fix login", "open"), vec![task("web-2", "Write test", "in_progress")]);
    t.priority = 2;
    t.assignee = "ana".to_string();
    t.description = "first\nsecond".to_string();
    let lines = detail_lines(&t, 3);
    assert_eq!(lines.len(), detail_line_count(&t));
    assert_eq!(lines.len(), 9);
    assert_eq!(lines[0], vec![(DetailPiece::Title, "Fix login".to_string())]);
    assert_eq!(
        lines[1],
        vec![
            (DetailPiece::Status(ThemeColor::Blue), "○ open".to_string()),
            (DetailPiece::FieldName, "  priority: ".to_string()),
            (DetailPiece::Value, "2".to_string()),
            (DetailPiece::FieldName, "  owner: ".to_string()),
            (DetailPiece::Value, "ana".to_string()),
        ]
    );
    assert_eq!(lines[2], vec![(DetailPiece::FieldName, "ID: ".to_string()), (DetailPiece::Value, "web-1".to_string())]);
    assert_eq!(lines[3], vec![(DetailPiece::Rule, "───".to_string())]);
    assert_eq!(lines[4], vec![(DetailPiece::Description, "first".to_string())]);
    assert_eq!(lines[5], vec![(DetailPiece::Description, "second".to_string())]);
    assert!(lines[6].is_empty());
    assert_eq!(lines[7], vec![(DetailPiece::Heading, "Children (1):".to_string())]);
    assert_eq!(
        lines[8],
        vec![
            (DetailPiece::Index, "[1] ".to_string()),
            (DetailPiece::Value, "Write test".to_string()),
            (DetailPiece::Plain, "  ".to_string()),
            (DetailPiece::Status(ThemeColor::Green), "● in_progress".to_string()),
        ]
    );
}
