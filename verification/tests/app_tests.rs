use beads_explorer::app::{
    Action, AddIssueField, AddIssueFlow, AddIssueStep, App, PickerKind, Screen, PRIORITIES,
    STATUSES,
};
use beads_explorer::keys::{KeyCode, KeyEvent, KeyModifiers};
use beads_explorer::model::{AddIssueDraft, Dependency, EditField, Issue, IssueGraph};

fn graph() -> IssueGraph {
    IssueGraph::new(
        vec![
            Issue {
                id: "a".into(),
                title: "A".into(),
                dependencies: vec![Dependency {
                    id: "b".into(),
                    title: "B".into(),
                    ..Dependency::default()
                }],
                ..Issue::default()
            },
            Issue {
                id: "b".into(),
                title: "B".into(),
                ..Issue::default()
            },
        ],
        vec![],
    )
}

fn key(code: KeyCode) -> KeyEvent {
    KeyEvent::new(code, KeyModifiers::none())
}

/// The tree rows without the synthetic create entry.
fn issue_ids(app: &App) -> Vec<&str> {
    app.rows
        .iter()
        .filter(|row| !row.is_create_entry())
        .map(|row| row.issue_id.as_str())
        .collect()
}

#[test]
fn tree_starts_at_first_level_and_expands_like_treec() {
    let mut app = App::new(graph());
    assert!(app.rows[0].is_create_entry());
    assert_eq!(issue_ids(&app), ["a"]);
    assert_eq!(app.cursor, 1, "cursor starts on the first issue");

    app.handle_key(key(KeyCode::Char('l')));
    assert_eq!(issue_ids(&app), ["a", "b"]);

    app.handle_key(key(KeyCode::Char('l')));
    assert_eq!(app.cursor, 2);
    app.handle_key(key(KeyCode::Char('h')));
    assert_eq!(app.cursor, 1);
}

#[test]
fn parent_child_edges_expand_from_parent_to_child() {
    let child = Issue {
        id: "hmb2".into(),
        dependencies: vec![Dependency {
            id: "8gda".into(),
            dependency_type: "parent-child".into(),
            ..Dependency::default()
        }],
        ..Issue::default()
    };
    let parent = Issue {
        id: "8gda".into(),
        ..Issue::default()
    };
    let mut app = App::new(IssueGraph::new(vec![child, parent], vec![]));

    assert_eq!(issue_ids(&app), ["8gda"]);

    app.handle_key(key(KeyCode::Char('l')));
    assert_eq!(issue_ids(&app), ["8gda", "hmb2"]);
}

#[test]
fn task_view_uses_history_and_escape_returns_to_tree() {
    let mut app = App::new(graph());
    app.handle_key(key(KeyCode::Enter));
    assert_eq!(app.screen(), Screen::Detail);
    assert_eq!(app.current_detail_issue().unwrap().id, "a");

    app.handle_key(key(KeyCode::Enter));
    assert_eq!(app.current_detail_issue().unwrap().id, "b");
    app.handle_key(key(KeyCode::Backspace));
    assert_eq!(app.current_detail_issue().unwrap().id, "a");
    app.handle_key(key(KeyCode::Esc));
    assert_eq!(app.screen(), Screen::Tree);
}

#[test]
fn plus_starts_add_issue_at_the_selected_tree_location() {
    let mut app = App::new(graph());

    assert_eq!(app.handle_key(key(KeyCode::Char('+'))), Action::NoOp);
    let flow = app.add_issue_flow().unwrap();
    assert_eq!(flow.parent_id.as_deref(), Some("a"));
    assert_eq!(flow.step, AddIssueStep::Title);
    assert_eq!(flow.issue_type(), "task");
    assert_eq!(flow.priority(), 1);
}

#[test]
fn plus_starts_add_issue_at_the_current_task_view_location() {
    let mut app = App::new(graph());
    app.handle_key(key(KeyCode::Enter));
    app.handle_key(key(KeyCode::Enter));

    app.handle_key(key(KeyCode::Char('+')));

    assert_eq!(
        app.add_issue_flow().unwrap().parent_id.as_deref(),
        Some("b")
    );
}

#[test]
fn add_issue_flow_collects_fields_and_emits_a_create_action() {
    let mut app = App::new(graph());
    app.handle_key(key(KeyCode::Char('+')));

    assert_eq!(
        app.handle_key(key(KeyCode::Char('e'))),
        Action::EditAddIssue(AddIssueField::Title)
    );
    app.set_add_issue_field(AddIssueField::Title, "A new child\n".into());
    app.handle_key(key(KeyCode::Enter));
    assert_eq!(
        app.add_issue_flow().unwrap().step,
        AddIssueStep::Description
    );
    assert_eq!(
        app.handle_key(key(KeyCode::Char('e'))),
        Action::EditAddIssue(AddIssueField::Description)
    );
    app.set_add_issue_field(AddIssueField::Description, "Some detail\n".into());
    app.handle_key(key(KeyCode::Enter));
    app.handle_key(key(KeyCode::Down));
    app.handle_key(key(KeyCode::Enter));

    assert_eq!(
        app.handle_key(key(KeyCode::Enter)),
        Action::CreateIssue(AddIssueDraft {
            parent_id: Some("a".into()),
            title: "A new child".into(),
            description: "Some detail".into(),
            issue_type: "bug".into(),
            priority: 1,
        })
    );
    assert!(
        app.add_issue_flow().is_some(),
        "failed creates can be retried"
    );
}

#[test]
fn escape_confirms_before_discarding_add_issue_progress() {
    let mut app = App::new(graph());
    app.handle_key(key(KeyCode::Char('+')));
    app.handle_key(key(KeyCode::Char('F')));

    app.handle_key(key(KeyCode::Esc));
    assert!(app
        .add_issue_flow()
        .is_some_and(AddIssueFlow::is_confirming_cancel));
    app.handle_key(key(KeyCode::Esc));
    assert!(!app
        .add_issue_flow()
        .is_some_and(AddIssueFlow::is_confirming_cancel));
    assert_eq!(app.add_issue_flow().unwrap().title, "F");

    app.handle_key(key(KeyCode::Esc));
    app.handle_key(key(KeyCode::Char('y')));
    assert!(app.add_issue_flow().is_none());
    assert_eq!(app.screen(), Screen::Tree);
}

#[test]
fn e_in_task_view_requests_description_edit_after_the_sequence_timeout() {
    let mut app = App::new(graph());
    app.handle_key(key(KeyCode::Enter));

    assert_eq!(app.handle_key(key(KeyCode::Char('e'))), Action::NoOp);
    assert_eq!(
        app.flush_pending_key(),
        Action::Edit(EditField::Description)
    );
    assert_eq!(app.current_detail_issue().unwrap().id, "a");
}

#[test]
fn e_in_tree_requests_description_edit_without_leaving_the_tree() {
    let mut app = App::new(graph());

    assert_eq!(app.handle_key(key(KeyCode::Char('e'))), Action::NoOp);
    assert_eq!(
        app.flush_pending_key(),
        Action::Edit(EditField::Description)
    );
    assert_eq!(app.screen(), Screen::Tree);
    assert_eq!(app.current_issue().unwrap().id, "a");
}

#[test]
fn e_then_t_in_tree_requests_title_edit_like_the_task_view() {
    let mut app = App::new(graph());

    assert_eq!(app.handle_key(key(KeyCode::Char('e'))), Action::NoOp);
    assert_eq!(
        app.handle_key(key(KeyCode::Char('t'))),
        Action::Edit(EditField::Title)
    );
    assert_eq!(app.screen(), Screen::Tree);
    assert_eq!(app.current_issue().unwrap().id, "a");
}

#[test]
fn e_then_t_in_task_view_requests_title_edit() {
    let mut app = App::new(graph());
    app.handle_key(key(KeyCode::Enter));

    assert_eq!(app.handle_key(key(KeyCode::Char('e'))), Action::NoOp);
    assert_eq!(
        app.handle_key(key(KeyCode::Char('t'))),
        Action::Edit(EditField::Title)
    );
    assert_eq!(app.current_detail_issue().unwrap().id, "a");
}

#[test]
fn e_then_an_unrelated_key_cancels_the_sequence_and_handles_the_key() {
    let mut app = App::new(graph());
    app.handle_key(key(KeyCode::Enter));

    assert_eq!(app.handle_key(key(KeyCode::Char('e'))), Action::NoOp);
    assert_eq!(app.handle_key(key(KeyCode::Char('q'))), Action::Quit);
    assert_eq!(app.flush_pending_key(), Action::NoOp);
}

#[test]
fn e_pressed_twice_requests_description_edit_immediately() {
    let mut app = App::new(graph());
    app.handle_key(key(KeyCode::Enter));

    assert_eq!(app.handle_key(key(KeyCode::Char('e'))), Action::NoOp);
    assert_eq!(
        app.handle_key(key(KeyCode::Char('e'))),
        Action::Edit(EditField::Description)
    );
}

#[test]
fn status_message_clears_on_the_next_key() {
    let mut app = App::new(graph());
    app.set_status("Closing a…".to_string());
    assert_eq!(app.status_message(), Some("Closing a…"));

    app.handle_key(key(KeyCode::Char('j')));
    assert_eq!(app.status_message(), None);
}

#[test]
fn refresh_forgets_expansion_of_issues_that_left_the_graph() {
    let mut app = App::new(graph());
    app.handle_key(key(KeyCode::Char('l')));
    assert_eq!(issue_ids(&app), ["a", "b"]);

    app.refresh_graph(IssueGraph::new(
        vec![Issue {
            id: "b".into(),
            ..Issue::default()
        }],
        vec![],
    ));
    app.refresh_graph(graph());

    assert_eq!(issue_ids(&app), ["a"], "a must come back collapsed");
    assert!(!app.row_is_expanded(&app.rows[1]));
}

#[test]
fn x_in_task_view_requires_confirmation_before_closing() {
    let mut app = App::new(graph());
    app.handle_key(key(KeyCode::Enter));

    assert_eq!(app.handle_key(key(KeyCode::Char('x'))), Action::NoOp);
    assert!(app.is_confirming_close());
    assert_eq!(app.closing_issue_id(), Some("a"));
    assert_eq!(
        app.handle_key(key(KeyCode::Char('y'))),
        Action::CloseIssue("a".into())
    );
    assert!(!app.is_confirming_close());
    assert_eq!(app.current_detail_issue().unwrap().id, "a");
}

#[test]
fn x_in_tree_view_closes_the_selected_issue_after_confirmation() {
    let mut app = App::new(graph());

    assert_eq!(app.handle_key(key(KeyCode::Char('x'))), Action::NoOp);
    assert_eq!(app.closing_issue_id(), Some("a"));
    assert_eq!(
        app.handle_key(key(KeyCode::Char('y'))),
        Action::CloseIssue("a".into())
    );
    assert_eq!(app.screen(), Screen::Tree);
}

#[test]
fn close_confirmation_can_be_cancelled() {
    let mut app = App::new(graph());
    app.handle_key(key(KeyCode::Enter));

    app.handle_key(key(KeyCode::Char('x')));
    assert_eq!(app.handle_key(key(KeyCode::Esc)), Action::NoOp);
    assert!(!app.is_confirming_close());
    assert_eq!(app.screen(), Screen::Detail);
}

#[test]
fn context_issues_cannot_be_closed_again() {
    let mut app = App::new(IssueGraph::new(
        vec![Issue {
            id: "open".into(),
            dependencies: vec![Dependency {
                id: "closed".into(),
                status: "closed".into(),
                ..Dependency::default()
            }],
            ..Issue::default()
        }],
        vec![Issue {
            id: "closed".into(),
            status: "closed".into(),
            ..Issue::default()
        }],
    ));
    app.handle_key(key(KeyCode::Enter));
    app.handle_key(key(KeyCode::Enter));

    assert!(!app.can_close_current_issue());
    assert_eq!(app.handle_key(key(KeyCode::Char('x'))), Action::NoOp);
    assert!(!app.is_confirming_close());
}

#[test]
fn refresh_preserves_tree_state_when_closing_reparents_dependencies() {
    let mut app = App::new(IssueGraph::new(
        vec![
            Issue {
                id: "a".into(),
                dependencies: vec![Dependency {
                    id: "b".into(),
                    ..Dependency::default()
                }],
                ..Issue::default()
            },
            Issue {
                id: "b".into(),
                dependencies: vec![Dependency {
                    id: "c".into(),
                    ..Dependency::default()
                }],
                ..Issue::default()
            },
            Issue {
                id: "c".into(),
                ..Issue::default()
            },
        ],
        vec![],
    ));
    app.handle_key(key(KeyCode::Char('l')));
    app.handle_key(key(KeyCode::Char('j')));
    app.handle_key(key(KeyCode::Char('l')));
    assert_eq!(issue_ids(&app), ["a", "b", "c"]);

    app.cursor = 1;
    app.scroll = 0;
    app.handle_key(key(KeyCode::Char('x')));
    assert_eq!(
        app.handle_key(key(KeyCode::Char('y'))),
        Action::CloseIssue("a".into())
    );

    // `bd` removes closed a from the open list, making b a root. Its expanded
    // state follows the issue identity so c stays visible on the moved branch.
    app.return_to_tree();
    app.refresh_graph(IssueGraph::new(
        vec![
            Issue {
                id: "b".into(),
                dependencies: vec![Dependency {
                    id: "c".into(),
                    ..Dependency::default()
                }],
                ..Issue::default()
            },
            Issue {
                id: "c".into(),
                ..Issue::default()
            },
        ],
        vec![],
    ));

    assert_eq!(issue_ids(&app), ["b", "c"]);
    assert_eq!(app.current_tree_issue().unwrap().id, "b");
    assert!(app.row_is_expanded(&app.rows[1]));
    assert_eq!(app.scroll, 0);
}

#[test]
fn refresh_keeps_path_specific_expansion_when_topology_is_unchanged() {
    let shared_graph = || {
        IssueGraph::new(
            vec![
                Issue {
                    id: "a".into(),
                    dependencies: vec![Dependency {
                        id: "c".into(),
                        ..Dependency::default()
                    }],
                    ..Issue::default()
                },
                Issue {
                    id: "d".into(),
                    dependencies: vec![Dependency {
                        id: "c".into(),
                        ..Dependency::default()
                    }],
                    ..Issue::default()
                },
                Issue {
                    id: "c".into(),
                    dependencies: vec![Dependency {
                        id: "e".into(),
                        ..Dependency::default()
                    }],
                    ..Issue::default()
                },
                Issue {
                    id: "e".into(),
                    ..Issue::default()
                },
            ],
            vec![],
        )
    };
    let mut app = App::new(shared_graph());
    app.handle_key(key(KeyCode::Char('l'))); // expand a
    app.handle_key(key(KeyCode::Char('j')));
    app.handle_key(key(KeyCode::Char('l'))); // expand c under a
    app.cursor = 4;
    app.handle_key(key(KeyCode::Char('l'))); // expand d, but not c under d

    app.refresh_graph(shared_graph());

    assert_eq!(issue_ids(&app), ["a", "c", "e", "d", "c"]);
    assert_eq!(app.current_tree_issue().unwrap().id, "d");
}

#[test]
fn dependencies_outside_the_filtered_list_stay_out_of_the_tree() {
    let mut app = App::new(IssueGraph::new(
        vec![Issue {
            id: "open".into(),
            title: "Open".into(),
            dependencies: vec![Dependency {
                id: "closed".into(),
                title: "Closed".into(),
                status: "closed".into(),
                ..Dependency::default()
            }],
            ..Issue::default()
        }],
        vec![],
    ));

    app.handle_key(key(KeyCode::Char('l')));
    assert_eq!(issue_ids(&app), ["open"]);

    app.handle_key(key(KeyCode::Enter));
    assert_eq!(app.selected_dependency().unwrap().id, "closed");
}

#[test]
fn slash_fuzzy_filters_visible_ids_and_enter_opens_match() {
    let mut app = App::new(IssueGraph::new(
        vec![
            Issue {
                id: "issue-alpha".into(),
                ..Issue::default()
            },
            Issue {
                id: "issue-jbeta".into(),
                ..Issue::default()
            },
        ],
        vec![],
    ));

    app.handle_key(key(KeyCode::Char('/')));
    app.handle_key(key(KeyCode::Char('j')));
    app.handle_key(key(KeyCode::Char('b')));
    app.handle_key(key(KeyCode::Char('t')));
    assert_eq!(app.rows.len(), 1);
    assert_eq!(app.rows[0].issue_id, "issue-jbeta");

    app.handle_key(key(KeyCode::Enter));
    assert_eq!(app.search_query(), None);
    assert_eq!(app.current_detail_issue().unwrap().id, "issue-jbeta");
}

#[test]
fn escape_cancels_search_and_restores_tree_selection() {
    let mut app = App::new(graph());
    app.handle_key(key(KeyCode::Char('/')));
    app.handle_key(key(KeyCode::Char('z')));
    assert!(app.rows.is_empty());

    app.handle_key(key(KeyCode::Esc));
    assert_eq!(app.search_query(), None);
    assert_eq!(app.current_tree_issue().unwrap().id, "a");
}

#[test]
fn enter_on_the_create_entry_starts_a_top_level_add_issue() {
    let mut app = App::new(graph());
    app.handle_key(key(KeyCode::Char('g')));
    assert!(app.rows[app.cursor].is_create_entry());

    app.handle_key(key(KeyCode::Enter));

    let flow = app.add_issue_flow().unwrap();
    assert_eq!(flow.parent_id, None);
    assert_eq!(flow.step, AddIssueStep::Title);
}

#[test]
fn create_entry_is_available_even_when_the_tree_is_empty() {
    let mut app = App::new(IssueGraph::new(vec![], vec![]));
    assert_eq!(app.rows.len(), 1);
    assert!(app.rows[0].is_create_entry());

    app.handle_key(key(KeyCode::Enter));
    assert_eq!(app.add_issue_flow().unwrap().parent_id, None);
}

#[test]
fn create_entry_ignores_issue_keys_and_stays_out_of_search() {
    let mut app = App::new(graph());
    app.handle_key(key(KeyCode::Char('g')));

    assert_eq!(app.handle_key(key(KeyCode::Char('x'))), Action::NoOp);
    assert!(!app.is_confirming_close());
    assert_eq!(app.handle_key(key(KeyCode::Char('e'))), Action::NoOp);
    assert_eq!(app.flush_pending_key(), Action::NoOp);
    app.handle_key(key(KeyCode::Char('s')));
    assert!(app.picker().is_none());

    app.handle_key(key(KeyCode::Char('/')));
    app.handle_key(key(KeyCode::Char('c')));
    assert!(app.rows.is_empty(), "'c' must not match the create entry");
}

#[test]
fn s_opens_a_status_picker_preselecting_the_current_status() {
    let mut app = App::new(IssueGraph::new(
        vec![Issue {
            id: "a".into(),
            status: "in_progress".into(),
            ..Issue::default()
        }],
        vec![],
    ));

    app.handle_key(key(KeyCode::Char('s')));
    let picker = app.picker().unwrap();
    assert_eq!(picker.kind, PickerKind::Status);
    assert_eq!(picker.issue_id, "a");
    assert_eq!(STATUSES[picker.index], "in_progress");

    app.handle_key(key(KeyCode::Char('j')));
    assert_eq!(
        app.handle_key(key(KeyCode::Enter)),
        Action::SetStatus("a".into(), "blocked")
    );
    assert!(app.picker().is_none());
    assert_eq!(app.screen(), Screen::Tree);
}

#[test]
fn p_opens_a_priority_picker_in_the_task_view_too() {
    let mut app = App::new(graph());
    app.handle_key(key(KeyCode::Enter));

    app.handle_key(key(KeyCode::Char('p')));
    let picker = app.picker().unwrap();
    assert_eq!(picker.kind, PickerKind::Priority);
    assert_eq!(PRIORITIES[picker.index], 0);

    app.handle_key(key(KeyCode::Char('j')));
    app.handle_key(key(KeyCode::Char('j')));
    assert_eq!(
        app.handle_key(key(KeyCode::Enter)),
        Action::SetPriority("a".into(), 2)
    );
    assert_eq!(app.screen(), Screen::Detail, "picker returns to task view");
}

#[test]
fn escape_cancels_a_picker_without_an_action() {
    let mut app = App::new(graph());
    app.handle_key(key(KeyCode::Char('s')));
    assert!(app.picker().is_some());

    assert_eq!(app.handle_key(key(KeyCode::Esc)), Action::NoOp);
    assert!(app.picker().is_none());
    assert_eq!(app.screen(), Screen::Tree);
}

#[test]
fn search_only_includes_rows_visible_before_search() {
    let mut app = App::new(graph());

    app.handle_key(key(KeyCode::Char('/')));
    app.handle_key(key(KeyCode::Char('b')));
    assert!(
        app.rows.is_empty(),
        "collapsed child must not be searchable"
    );

    app.handle_key(key(KeyCode::Esc));
    app.handle_key(key(KeyCode::Char('l')));
    app.handle_key(key(KeyCode::Char('/')));
    app.handle_key(key(KeyCode::Char('b')));
    assert_eq!(app.rows.len(), 1);
    assert_eq!(app.rows[0].issue_id, "b");
    assert_eq!(app.rows[0].prefix, "└── ");
}
