use std::time::Duration;

use beads_explorer::app::{nanos_left, Action, AddIssueField, App, Screen};
use beads_explorer::bd::{
    close_args, create_args, created_issue_id, edit_args, failure_message, find_shown_issue,
    list_args, priority_args, show_args, status_args,
};
use beads_explorer::cli::{parse_arguments, Invocation, HELP};
use beads_explorer::keys::{KeyCode, KeyEvent, KeyModifiers};
use beads_explorer::model::{AddIssueDraft, Dependency, EditField, Issue, IssueGraph};
use beads_explorer::session::{
    chord_timed_out, close_finished, create_finished, plan_step, priority_set_message,
    status_set_message, update_finished, wake_timeout, CloseOutcome, CreateOutcome, Step,
    UpdateOutcome,
};
use beads_explorer::ui::{
    detail_bottom_line, detail_footer, detail_lines, display_timestamp, tree_bottom_line,
    BottomLine, empty_tree_message, fit_detail_scroll,
    id_column_width, modal_layout, pad, priority_color, short_type, show_detail_line,
    status_color, table_widths, tree_footer, tree_row_cells, wrap, LineStyle, ModalLayout,
    TermColor,
};

fn graph() -> IssueGraph {
    IssueGraph::new(
        vec![
            Issue {
                id: "a".into(),
                title: "A".into(),
                dependencies: vec![Dependency {
                    id: "b".into(),
                    title: "B".into(),
                    ..Dependency::default()
                }],
                ..Issue::default()
            },
            Issue {
                id: "b".into(),
                title: "B".into(),
                ..Issue::default()
            },
        ],
        vec![],
    )
}

fn key(code: KeyCode) -> KeyEvent {
    KeyEvent::new(code, KeyModifiers::none())
}

fn strings(items: &[&str]) -> Vec<String> {
    items.iter().map(|item| item.to_string()).collect()
}

#[test]
fn slash_then_escape_gives_back_the_same_tree() {
    let mut app = App::new(graph());
    app.handle_key(key(KeyCode::Char('l')));
    app.handle_key(key(KeyCode::Char('j')));
    let rows = app.rows.clone();
    let cursor = app.cursor;
    app.handle_key(key(KeyCode::Char('/')));
    app.handle_key(key(KeyCode::Esc));
    assert_eq!(app.rows, rows);
    assert_eq!(app.cursor, cursor);
    assert_eq!(app.search_query(), None);
}

#[test]
fn x_then_n_changes_nothing() {
    let mut app = App::new(graph());
    assert_eq!(app.handle_key(key(KeyCode::Char('x'))), Action::NoOp);
    assert!(app.is_confirming_close());
    assert_eq!(app.handle_key(key(KeyCode::Char('n'))), Action::NoOp);
    assert!(!app.is_confirming_close());
    assert_eq!(app.current_tree_issue().unwrap().id, "a");
}

#[test]
fn escape_then_n_keeps_the_add_issue_flow() {
    let mut app = App::new(graph());
    app.handle_key(key(KeyCode::Char('+')));
    app.handle_key(key(KeyCode::Char('T')));
    app.handle_key(key(KeyCode::Esc));
    app.handle_key(key(KeyCode::Char('n')));
    let flow = app.add_issue_flow().unwrap();
    assert!(!flow.is_confirming_cancel());
    assert_eq!(flow.title, "T");
}

#[test]
fn go_to_matches_ignore_case() {
    let mut app = App::new(IssueGraph::new(
        vec![Issue {
            id: "issue-alpha".into(),
            ..Issue::default()
        }],
        vec![],
    ));
    app.handle_key(key(KeyCode::Char('/')));
    app.handle_key(key(KeyCode::Char('A')));
    app.handle_key(key(KeyCode::Char('L')));
    assert_eq!(app.rows.len(), 1);
    assert_eq!(app.rows[0].issue_id, "issue-alpha");
}

#[test]
fn loaded_issues_are_listed_when_open_or_in_progress() {
    let graph = IssueGraph::from_loaded(vec![
        Issue {
            id: "open".into(),
            status: "open".into(),
            ..Issue::default()
        },
        Issue {
            id: "working".into(),
            status: "in_progress".into(),
            ..Issue::default()
        },
        Issue {
            id: "closed".into(),
            status: "closed".into(),
            ..Issue::default()
        },
    ]);
    assert!(graph.is_listed("open"));
    assert!(graph.is_listed("working"));
    assert!(!graph.is_listed("closed"));
    assert_eq!(graph.len(), 2);
}

#[test]
fn a_copied_graph_answers_like_its_source() {
    let source = graph();
    let copy = source.duplicate();
    assert_eq!(copy.roots(), source.roots());
    assert_eq!(copy.tree_children("a"), source.tree_children("a"));
    assert_eq!(copy.issue("b").unwrap().title, "B");
}

#[test]
fn an_e_left_alone_past_the_timeout_edits_the_description() {
    let mut app = App::new(graph());
    assert_eq!(app.handle_key(key(KeyCode::Char('e'))), Action::NoOp);
    let waiting = app.pending_key_timeout().unwrap();
    assert!(waiting.as_millis() <= 500);
    let start = std::time::Instant::now();
    while start.elapsed() < std::time::Duration::from_millis(600) {}
    assert!(app.pending_key_timeout().unwrap().is_zero());
    assert_eq!(
        app.handle_key(key(KeyCode::Char('j'))),
        Action::Edit(EditField::Description)
    );
}

#[test]
fn the_tree_view_follows_the_cursor() {
    let mut app = App::new(graph());
    app.handle_key(key(KeyCode::Char('l')));
    app.set_cursor(2);
    app.set_scroll(0);
    app.fit_tree_view(2);
    assert_eq!(app.viewport, 2);
    assert_eq!(app.scroll, 1);
    app.fit_tree_view(0);
    assert_eq!(app.viewport, 1);
}

#[test]
fn closing_hides_the_issue_at_once_and_a_lost_worker_restores_it() {
    let mut app = App::new(graph());
    let step = plan_step(&mut app, Action::CloseIssue("a".into()), false);
    let rollback = match step {
        Step::Close { issue_id, rollback } => {
            assert_eq!(issue_id, "a");
            rollback
        }
        _ => panic!("expected a close"),
    };
    assert!(rollback.is_listed("a"));
    assert!(!app.graph.is_listed("a"));
    assert_eq!(app.status_message(), Some("Closing a…"));

    close_finished(&mut app, CloseOutcome::WorkerLost, rollback);
    assert!(app.graph.is_listed("a"));
    assert_eq!(
        app.status_message(),
        Some("close failed: background worker died")
    );
}

#[test]
fn a_failed_close_restores_the_graph_and_shows_the_error() {
    let mut app = App::new(graph());
    let rollback = graph();
    close_finished(&mut app, CloseOutcome::CloseFailed("bd close failed: no".into()), rollback);
    assert_eq!(app.status_message(), Some("bd close failed: no"));
    assert!(app.graph.is_listed("a"));

    close_finished(&mut app, CloseOutcome::ReloadFailed("gone".into()), graph());
    assert_eq!(app.status_message(), Some("gone · view may be stale"));

    close_finished(&mut app, CloseOutcome::Reloaded(graph()), graph());
    assert_eq!(app.status_message(), None);
}

#[test]
fn actions_wait_while_a_close_is_running() {
    let mut app = App::new(graph());
    let step = plan_step(&mut app, Action::SetPriority("a".into(), 2), true);
    assert!(matches!(step, Step::Continue));
    assert_eq!(
        app.status_message(),
        Some("waiting for the previous close to finish")
    );
    assert!(matches!(plan_step(&mut app, Action::Quit, true), Step::Quit));
}

#[test]
fn edit_steps_name_the_current_issue_and_the_flow_text() {
    let mut app = App::new(graph());
    match plan_step(&mut app, Action::Edit(EditField::Title), false) {
        Step::Edit { field, issue_id } => {
            assert_eq!(field, EditField::Title);
            assert_eq!(issue_id, "a");
        }
        _ => panic!("expected an edit"),
    }
    app.handle_key(key(KeyCode::Char('+')));
    app.handle_key(key(KeyCode::Char('X')));
    match plan_step(&mut app, Action::EditAddIssue(AddIssueField::Title), false) {
        Step::EditAddIssue { initial, .. } => assert_eq!(initial, "X"),
        _ => panic!("expected an add-issue edit"),
    }
}

#[test]
fn updates_reload_and_report() {
    let mut app = App::new(graph());
    update_finished(
        &mut app,
        UpdateOutcome::Reloaded(graph()),
        status_set_message("a", "blocked"),
    );
    assert_eq!(app.status_message(), Some("Set a to blocked"));
    update_finished(&mut app, UpdateOutcome::Failed("nope".into()), String::new());
    assert_eq!(app.status_message(), Some("nope"));
    update_finished(
        &mut app,
        UpdateOutcome::ReloadFailed("lost".into()),
        String::new(),
    );
    assert_eq!(app.status_message(), Some("lost · view may be stale"));
    assert_eq!(priority_set_message("a", 2), "Set a to P2");
}

#[test]
fn a_created_issue_closes_the_flow_and_a_failed_one_keeps_it() {
    let mut app = App::new(graph());
    app.handle_key(key(KeyCode::Char('+')));
    create_finished(&mut app, Some("a"), CreateOutcome::Failed("boom".into()));
    assert_eq!(app.status_message(), Some("boom"));
    assert!(app.add_issue_flow().is_some());

    create_finished(
        &mut app,
        Some("a"),
        CreateOutcome::Created {
            issue_id: "c-1".into(),
            reload: Ok(graph()),
        },
    );
    assert_eq!(app.status_message(), Some("Created c-1 under a"));
    assert!(app.add_issue_flow().is_none());

    create_finished(
        &mut app,
        None,
        CreateOutcome::Created {
            issue_id: "c-2".into(),
            reload: Err("gone".into()),
        },
    );
    assert_eq!(
        app.status_message(),
        Some("Created c-2, but reload failed: gone · view may be stale")
    );
}

#[test]
fn bd_command_lines() {
    assert_eq!(list_args(), strings(&["list", "--all", "--json"]));
    assert_eq!(show_args("a"), strings(&["show", "a", "--json"]));
    assert_eq!(
        edit_args(EditField::Description, "a"),
        strings(&["edit", "a", "--description"])
    );
    assert_eq!(edit_args(EditField::Title, "a"), strings(&["edit", "a", "--title"]));
    assert_eq!(close_args("a"), strings(&["close", "a"]));
    assert_eq!(
        status_args("task-1", "in_progress"),
        strings(&["update", "task-1", "--status", "in_progress"])
    );
    assert_eq!(
        priority_args("task-1", 2),
        strings(&["update", "task-1", "--priority", "P2"])
    );
}

#[test]
fn create_passes_parent_type_and_priority() {
    let with_parent = create_args(&AddIssueDraft {
        parent_id: Some("parent-1".into()),
        title: "Child title".into(),
        description: "Body text".into(),
        issue_type: "feature".into(),
        priority: 1,
    });
    assert_eq!(
        with_parent,
        strings(&[
            "create",
            "Child title",
            "--description",
            "Body text",
            "--type",
            "feature",
            "--priority",
            "P1",
            "--parent",
            "parent-1",
            "--silent",
        ])
    );
    let top_level = create_args(&AddIssueDraft {
        parent_id: None,
        title: "Top level".into(),
        description: String::new(),
        issue_type: "task".into(),
        priority: 1,
    });
    assert!(!top_level.iter().any(|argument| argument == "--parent"));
    assert!(top_level.iter().any(|argument| argument == "--silent"));
}

#[test]
fn bd_failures_report_error_output_then_output_then_status() {
    assert_eq!(
        failure_message("bd", "close", "  boom \n", "", "exit status: 1"),
        "bd close failed: boom"
    );
    assert_eq!(
        failure_message("bd", "close", " \n", "out\n", "exit status: 1"),
        "bd close failed: out"
    );
    assert_eq!(
        failure_message("bd", "close", "", "  ", "exit status: 1"),
        "bd close failed: exit status: 1"
    );
}

#[test]
fn created_ids_and_shown_issues() {
    assert_eq!(created_issue_id("bd", " child-1\n"), Ok("child-1".to_string()));
    assert_eq!(
        created_issue_id("bd", "\n"),
        Err("bd create returned no issue ID".to_string())
    );
    let issues = vec![
        Issue {
            id: "x".into(),
            ..Issue::default()
        },
        Issue {
            id: "a".into(),
            title: "first".into(),
            ..Issue::default()
        },
        Issue {
            id: "a".into(),
            title: "second".into(),
            ..Issue::default()
        },
    ];
    assert_eq!(
        find_shown_issue(issues.clone(), "a", "bd").unwrap().title,
        "first"
    );
    assert_eq!(
        find_shown_issue(issues, "z", "bd").unwrap_err(),
        "bd show returned no issue z"
    );
}

#[test]
fn command_line_options() {
    assert_eq!(parse_arguments(&strings(&["-h"])), Ok(Invocation::Help));
    assert_eq!(parse_arguments(&strings(&["--version"])), Ok(Invocation::Version));
    assert_eq!(
        parse_arguments(&strings(&["--bd", "/x/bd", "--db", "p"])),
        Ok(Invocation::Run {
            bd: Some(1),
            db: Some(3)
        })
    );
    assert_eq!(
        parse_arguments(&strings(&[])),
        Ok(Invocation::Run { bd: None, db: None })
    );
    assert_eq!(
        parse_arguments(&strings(&["--bd"])),
        Err("--bd requires a path".to_string())
    );
    assert_eq!(
        parse_arguments(&strings(&["--db"])),
        Err("--db requires a path".to_string())
    );
    assert_eq!(
        parse_arguments(&strings(&["-x"])),
        Err(format!("unknown option: -x\n\n{HELP}"))
    );
}

#[test]
fn timestamps_show_date_and_minutes() {
    assert_eq!(display_timestamp("2024-01-02T03:04:05Z"), "2024-01-02 03:04");
    assert_eq!(display_timestamp(""), "—");
    assert_eq!(display_timestamp("yesterday"), "yesterday");
}

#[test]
fn columns_fill_the_width_left_by_the_separators() {
    assert_eq!(table_widths(80, 10), [10, 8, 12, 4, 34]);
    let narrow = table_widths(30, 10);
    assert_eq!(narrow.iter().sum::<usize>(), 30 - 4 * 3);
    assert_eq!(table_widths(0, 10), [0, 0, 0, 0, 0]);
}

#[test]
fn padding_fills_to_the_width() {
    assert_eq!(pad("ab", 4), "ab  ");
    assert_eq!(pad("abcdef", 4), "abc…");
    assert_eq!(short_type("molecule"), "mol…");
    assert_eq!(short_type("chore"), "chor");
}

#[test]
fn long_words_are_cut_and_blank_lines_kept() {
    assert_eq!(wrap("aaaaaaaaaa", 4), vec!["aaaa", "aaaa", "aa"]);
    assert_eq!(wrap("one\n\ntwo", 10), vec!["one", "", "two"]);
    assert_eq!(wrap("", 5), vec![""]);
    assert_eq!(wrap("a b", 0), vec!["a", "b"]);
}

#[test]
fn colors_of_priorities_and_statuses() {
    assert_eq!(priority_color(0), TermColor::Red);
    assert_eq!(priority_color(3), TermColor::Blue);
    assert_eq!(priority_color(7), TermColor::DarkGrey);
    assert_eq!(status_color("in-progress"), TermColor::Yellow);
    assert_eq!(status_color("weird"), TermColor::White);
}

#[test]
fn the_task_view_lists_heading_times_and_dependencies() {
    let issue = Issue {
        id: "a".into(),
        title: "A".into(),
        status: "open".into(),
        issue_type: "task".into(),
        priority: 1,
        dependencies: vec![Dependency {
            id: "b".into(),
            title: "B".into(),
            status: "open".into(),
            dependency_type: "blocks".into(),
            ..Dependency::default()
        }],
        ..Issue::default()
    };
    let lines = detail_lines(&issue, 80, 0);
    let texts: Vec<&str> = lines.iter().map(|line| line.text.as_str()).collect();
    assert_eq!(
        texts,
        vec![
            "a  [P1]  open  task",
            "",
            "A",
            "",
            "Created:  —",
            "Updated:  —",
            "",
            "Dependencies:",
            "  → b [open] B (blocks)",
        ]
    );
    assert_eq!(lines[8].style, LineStyle::Selected);
    assert_eq!(lines[8].dependency, Some(0));
    assert_eq!(fit_detail_scroll(&lines, 3, 0, 0), 6);
    assert_eq!(fit_detail_scroll(&lines, 3, 5, 100), 6);
    assert_eq!(show_detail_line(&lines[8], 25), "  → b [open] B (blocks)  ");
    assert!(detail_footer(true).contains("x close"));
    assert!(!detail_footer(false).contains("x close"));
}

#[test]
fn table_rows_and_footers_of_the_tree() {
    let mut app = App::new(graph());
    assert_eq!(
        tree_row_cells(&app, 1).unwrap(),
        strings(&["a", "P0", "", "", "▸ A"])
    );
    assert_eq!(id_column_width(&app), 1);
    assert_eq!(
        tree_footer(&app),
        "2 issues · + add child · / go to · j/k move · h/l fold · Enter open · e edit · x close · q quit"
    );
    app.handle_key(key(KeyCode::Char('/')));
    app.handle_key(key(KeyCode::Char('z')));
    assert_eq!(empty_tree_message(&app), "No issue IDs match /z");
    assert_eq!(
        tree_footer(&app),
        "/z  · 0 matches · ↑/↓ select · Enter open · Esc cancel"
    );
    assert_eq!(app.screen(), Screen::Tree);
}

#[test]
fn tiny_terminals_show_modals_on_one_line() {
    let lines = strings(&["Close issue a?"]);
    assert!(matches!(modal_layout(0, 5, "t", &lines), ModalLayout::Hidden));
    match modal_layout(3, 5, "t", &lines) {
        ModalLayout::Fallback { y, text } => {
            assert_eq!(y, 4);
            assert_eq!(text, "Cl…");
        }
        _ => panic!("expected the one-line form"),
    }
    match modal_layout(40, 10, " T ", &lines) {
        ModalLayout::Framed(rows) => {
            assert_eq!(rows.len(), 3);
            assert_eq!(rows[0].text, format!("╭ T {}╮", "─".repeat(13)));
            assert_eq!(rows[1].text, "│ Close issue a? │");
            assert_eq!(rows[2].text, format!("╰{}╯", "─".repeat(16)));
            assert_eq!(rows[0].x, 11);
            assert_eq!(rows[0].y, 3);
        }
        _ => panic!("expected a frame"),
    }
}

#[test]
fn control_c_quits_from_anywhere() {
    let mut app = App::new(graph());
    app.handle_key(key(KeyCode::Char('/')));
    assert_eq!(
        app.handle_key(KeyEvent::new(KeyCode::Char('c'), KeyModifiers::control())),
        Action::Quit
    );
    let mut app = App::new(graph());
    app.handle_key(key(KeyCode::Char('+')));
    assert_eq!(
        app.handle_key(KeyEvent::new(KeyCode::Char('c'), KeyModifiers::control())),
        Action::Quit
    );
}

#[test]
fn s_then_escape_changes_nothing() {
    let mut app = App::new(graph());
    app.handle_key(key(KeyCode::Char('s')));
    assert!(app.picker().is_some());
    assert_eq!(app.handle_key(key(KeyCode::Esc)), Action::NoOp);
    assert!(app.picker().is_none());
    assert_eq!(app.current_tree_issue().unwrap().id, "a");
}

#[test]
fn a_refresh_closes_task_views_of_issues_that_are_gone() {
    let mut app = App::new(graph());
    app.handle_key(key(KeyCode::Enter));
    app.handle_key(key(KeyCode::Enter));
    assert_eq!(app.current_detail_issue().unwrap().id, "b");
    app.refresh_graph(IssueGraph::new(
        vec![Issue {
            id: "a".into(),
            ..Issue::default()
        }],
        vec![],
    ));
    assert_eq!(app.current_detail_issue().unwrap().id, "a");
    assert_eq!(app.detail_frame().unwrap().dependency_cursor, 0);
}

#[test]
fn a_pending_e_waits_what_is_left_of_half_a_second() {
    assert_eq!(nanos_left(0), 500_000_000);
    assert_eq!(nanos_left(100), 499_999_900);
    assert_eq!(nanos_left(499_999_999), 1);
    assert_eq!(nanos_left(500_000_000), 0);
    assert_eq!(nanos_left(600_000_000), 0);
}

#[test]
fn the_loop_wakes_for_the_chord_or_the_close_poll() {
    assert_eq!(wake_timeout(None, false), None);
    assert_eq!(
        wake_timeout(Some(Duration::from_millis(300)), false),
        Some(Duration::from_millis(300))
    );
    assert_eq!(wake_timeout(None, true), Some(Duration::from_millis(50)));
    assert_eq!(
        wake_timeout(Some(Duration::from_millis(10)), true),
        Some(Duration::from_millis(10))
    );
    assert_eq!(
        wake_timeout(Some(Duration::from_millis(300)), true),
        Some(Duration::from_millis(50))
    );
    assert!(chord_timed_out(Some(Duration::ZERO)));
    assert!(!chord_timed_out(Some(Duration::from_nanos(1))));
    assert!(!chord_timed_out(None));
}

#[test]
fn a_status_message_takes_the_place_of_the_key_hints() {
    let mut app = App::new(graph());
    match tree_bottom_line(&app, 200) {
        BottomLine::Hints { text, bold } => {
            assert_eq!(text, tree_footer(&app));
            assert!(!bold);
        }
        BottomLine::Status(_) => panic!("no status was set"),
    }
    match detail_bottom_line(&app, 200) {
        BottomLine::Hints { text, bold } => {
            assert_eq!(text, detail_footer(app.can_close_current_issue()));
            assert!(!bold);
        }
        BottomLine::Status(_) => panic!("no status was set"),
    }
    app.set_status("saved".to_string());
    match tree_bottom_line(&app, 3) {
        BottomLine::Status(text) => assert_eq!(text, "sa…"),
        BottomLine::Hints { .. } => panic!("the status should show"),
    }
    match detail_bottom_line(&app, 200) {
        BottomLine::Status(text) => assert_eq!(text, "saved"),
        BottomLine::Hints { .. } => panic!("the status should show"),
    }
    app.clear_status();
    app.handle_key(key(KeyCode::Char('/')));
    match tree_bottom_line(&app, 200) {
        BottomLine::Hints { bold, .. } => assert!(bold),
        BottomLine::Status(_) => panic!("no status was set"),
    }
}

#[test]
fn setting_the_cursor_and_scroll_moves_only_them() {
    let mut app = App::new(graph());
    app.handle_key(key(KeyCode::Char('l')));
    let rows = app.rows.clone();
    app.set_cursor(1);
    app.set_scroll(1);
    assert_eq!(app.cursor, 1);
    assert_eq!(app.scroll, 1);
    assert_eq!(app.rows, rows);
}
