use beads_explorer::model::{Dependency, Issue, IssueGraph};

fn issue(id: &str, deps: &[&str]) -> Issue {
    Issue {
        id: id.to_string(),
        title: id.to_string(),
        dependencies: deps
            .iter()
            .map(|id| Dependency {
                id: (*id).to_string(),
                ..Dependency::default()
            })
            .collect(),
        ..Issue::default()
    }
}

#[test]
fn roots_are_issues_not_targeted_by_another_issue() {
    let graph = IssueGraph::new(
        vec![issue("a", &["b"]), issue("b", &[]), issue("c", &[])],
        vec![],
    );
    assert_eq!(graph.roots(), &["a", "c"]);
}

#[test]
fn parent_child_edges_are_reversed_for_the_tree() {
    let mut child = issue("hmb2", &["8gda"]);
    child.dependencies[0].dependency_type = "parent-child".to_string();
    let graph = IssueGraph::new(vec![child, issue("8gda", &[])], vec![]);

    assert_eq!(graph.roots(), &["8gda"]);
    assert_eq!(graph.tree_children("8gda"), &["hmb2"]);
    assert!(graph.tree_children("hmb2").is_empty());
}

#[test]
fn cycles_remain_visible() {
    let graph = IssueGraph::new(vec![issue("a", &["b"]), issue("b", &["a"])], vec![]);
    assert_eq!(graph.roots(), &["a", "b"]);
}

#[test]
fn context_issues_hydrate_dependencies_without_joining_the_tree() {
    let mut closed = issue("z", &["a"]);
    closed.status = "closed".to_string();
    let graph = IssueGraph::new(vec![issue("a", &["z"])], vec![closed]);

    assert_eq!(graph.issue("z").unwrap().title, "z");
    assert_eq!(graph.issue("z").unwrap().status, "closed");
    assert!(!graph.is_listed("z"));
    assert_eq!(graph.len(), 1);
    assert_eq!(graph.roots(), &["a"]);
}

#[test]
fn with_issue_closed_moves_the_issue_into_context() {
    let graph = IssueGraph::new(vec![issue("a", &["b"]), issue("b", &[])], vec![]);

    let closed = graph.with_issue_closed("a");

    assert_eq!(closed.roots(), &["b"]);
    assert!(!closed.is_listed("a"));
    assert!(closed.is_listed("b"));
    assert_eq!(closed.issue("a").unwrap().status, "closed");
}

#[test]
fn replacing_issue_refreshes_its_description() {
    let mut graph = IssueGraph::new(vec![issue("a", &[])], vec![]);
    let mut refreshed = issue("a", &[]);
    refreshed.description = "Edited description".to_string();

    graph.replace_issue(refreshed);

    assert_eq!(graph.issue("a").unwrap().description, "Edited description");
    assert!(graph.is_listed("a"));
}
