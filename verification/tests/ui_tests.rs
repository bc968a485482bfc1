use beads_explorer::app::App;
use beads_explorer::keys::{KeyCode, KeyEvent, KeyModifiers};
use beads_explorer::model::{Issue, IssueGraph};
use beads_explorer::ui::{
    add_issue_modal, cancel_confirmation_modal, close_confirmation_modal, modal_layout,
    short_type, truncate, type_color, wrap, ModalLayout,
};
use unicode_width::UnicodeWidthStr;

/// Everything a framed modal shows, one row after another.
fn modal_text(layout: &ModalLayout) -> String {
    match layout {
        ModalLayout::Framed(rows) => rows
            .iter()
            .map(|row| row.text.as_str())
            .collect::<Vec<_>>()
            .join("\n"),
        ModalLayout::Fallback { text, .. } => text.clone(),
        ModalLayout::Hidden => String::new(),
    }
}

fn one_task() -> App {
    App::new(IssueGraph::new(
        vec![Issue {
            id: "task-1".into(),
            title: "A task".into(),
            ..Issue::default()
        }],
        vec![],
    ))
}

#[test]
fn close_confirmation_renders_as_a_floating_bordered_modal() {
    let mut app = one_task();
    app.handle_key(KeyEvent::new(KeyCode::Char('x'), KeyModifiers::none()));

    let issue_id = app.closing_issue_id().unwrap().to_string();
    let (title, lines) = close_confirmation_modal(&issue_id);
    let rendered = modal_text(&modal_layout(80, 20, &title, &lines));

    assert!(rendered.contains("╭ Confirm close "));
    assert!(rendered.contains("Close issue task-1?"));
    assert!(rendered.contains("[y] Yes    [n/Esc] No"));
    assert!(rendered.contains('╰'));
}

#[test]
fn add_issue_flow_and_discard_confirmation_render_as_modals() {
    let mut app = one_task();
    app.handle_key(KeyEvent::new(KeyCode::Char('+'), KeyModifiers::none()));

    let (title, lines) = add_issue_modal(app.add_issue_flow().unwrap(), app.status_message());
    let rendered = modal_text(&modal_layout(90, 24, &title, &lines));
    assert!(rendered.contains("Add child issue · 1/4"));
    assert!(rendered.contains("Parent: task-1"));
    assert!(rendered.contains("e $EDITOR"));

    app.handle_key(KeyEvent::new(KeyCode::Esc, KeyModifiers::none()));
    assert!(app.add_issue_flow().unwrap().is_confirming_cancel());
    let (title, lines) = cancel_confirmation_modal();
    let rendered = modal_text(&modal_layout(90, 24, &title, &lines));
    assert!(rendered.contains("Discard new issue?"));
    assert!(rendered.contains("[y] Discard"));
}

#[test]
fn type_labels_are_never_wider_than_four() {
    for issue_type in ["feature", "epic", "bug", "task", "chore", "molecule"] {
        assert!(short_type(issue_type).width() <= 4);
    }
}

#[test]
fn primary_types_have_distinct_colors() {
    let colors = ["feature", "epic", "bug", "task"].map(type_color);
    for (index, color) in colors.iter().enumerate() {
        assert!(!colors[..index].contains(color));
    }
}

#[test]
fn truncation_respects_unicode_width() {
    assert_eq!(truncate("abcdef", 4), "abc…");
    assert_eq!(truncate("界界界", 5), "界界…");
}

#[test]
fn wraps_description_to_terminal_width() {
    assert_eq!(wrap("one two three", 7), vec!["one two", "three"]);
}
