//! The `bd` command lines the explorer runs, and how it reads what they give
//! back. Starting the process and reading its output is left to the caller.
use vstd::prelude::*;
use vstd::string::*;
use crate::app::AddIssueDraftView;
use crate::model::{
    AddIssueDraft, EditField, Issue, IssueView, first_issue_in, issue_views, string_views,
};
use crate::text::{push_text, push_int, int_text, trim, trim_of, is_blank_text, is_blank};

verus! {

fn text_of(s: &str) -> (r: String)
    ensures
        r@ == s@,
{
    let mut out = String::new();
    push_text(&mut out, s);
    out
}

/// `bd list --all --json`: every issue, in one query.
pub fn list_args() -> (r: Vec<String>)
    ensures
        string_views(r@) == seq!["list"@, "--all"@, "--json"@],
{
    let mut args: Vec<String> = Vec::new();
    args.push(text_of("list"));
    args.push(text_of("--all"));
    args.push(text_of("--json"));
    proof {
        assert(string_views(args@) =~= seq!["list"@, "--all"@, "--json"@]);
    }
    args
}

/// `bd show <id> --json`.
pub fn show_args(issue_id: &str) -> (r: Vec<String>)
    ensures
        string_views(r@) == seq!["show"@, issue_id@, "--json"@],
{
    let mut args: Vec<String> = Vec::new();
    args.push(text_of("show"));
    args.push(text_of(issue_id));
    args.push(text_of("--json"));
    proof {
        assert(string_views(args@) =~= seq!["show"@, issue_id@, "--json"@]);
    }
    args
}

pub open spec fn edit_flag(field: EditField) -> Seq<char> {
    match field {
        EditField::Title => "--title"@,
        EditField::Description => "--description"@,
    }
}

/// `bd edit <id> --title` or `--description`: `bd` opens the editor itself.
pub fn edit_args(field: EditField, issue_id: &str) -> (r: Vec<String>)
    ensures
        string_views(r@) == seq!["edit"@, issue_id@, edit_flag(field)],
{
    let mut args: Vec<String> = Vec::new();
    args.push(text_of("edit"));
    args.push(text_of(issue_id));
    args.push(
        match field {
            EditField::Title => text_of("--title"),
            EditField::Description => text_of("--description"),
        },
    );
    proof {
        assert(string_views(args@) =~= seq!["edit"@, issue_id@, edit_flag(field)]);
    }
    args
}

/// `bd close <id>`.
pub fn close_args(issue_id: &str) -> (r: Vec<String>)
    ensures
        string_views(r@) == seq!["close"@, issue_id@],
{
    let mut args: Vec<String> = Vec::new();
    args.push(text_of("close"));
    args.push(text_of(issue_id));
    proof {
        assert(string_views(args@) =~= seq!["close"@, issue_id@]);
    }
    args
}

/// `bd update <id> --status <status>`.
pub fn status_args(issue_id: &str, status: &str) -> (r: Vec<String>)
    ensures
        string_views(r@) == seq!["update"@, issue_id@, "--status"@, status@],
{
    let mut args: Vec<String> = Vec::new();
    args.push(text_of("update"));
    args.push(text_of(issue_id));
    args.push(text_of("--status"));
    args.push(text_of(status));
    proof {
        assert(string_views(args@) =~= seq!["update"@, issue_id@, "--status"@, status@]);
    }
    args
}

/// A priority as `bd` takes it: `P` and the number.
pub open spec fn priority_arg(priority: i32) -> Seq<char> {
    "P"@ + int_text(priority as int)
}

fn priority_text(priority: i32) -> (r: String)
    ensures
        r@ == priority_arg(priority),
{
    let mut text = text_of("P");
    push_int(&mut text, priority as i64);
    text
}

/// `bd update <id> --priority P<n>`.
pub fn priority_args(issue_id: &str, priority: i32) -> (r: Vec<String>)
    ensures
        string_views(r@) == seq!["update"@, issue_id@, "--priority"@, priority_arg(priority)],
{
    let mut args: Vec<String> = Vec::new();
    args.push(text_of("update"));
    args.push(text_of(issue_id));
    args.push(text_of("--priority"));
    args.push(priority_text(priority));
    proof {
        assert(string_views(args@) =~= seq![
            "update"@,
            issue_id@,
            "--priority"@,
            priority_arg(priority),
        ]);
    }
    args
}

/// The arguments of `bd create` for a draft: title, description, type and
/// priority, the parent when there is one, and `--silent` so that `bd`
/// prints only the new ID.
pub open spec fn create_args_of(draft: AddIssueDraftView) -> Seq<Seq<char>> {
    seq![
        "create"@,
        draft.title,
        "--description"@,
        draft.description,
        "--type"@,
        draft.issue_type,
        "--priority"@,
        priority_arg(draft.priority),
    ] + match draft.parent_id {
        Some(parent) => seq!["--parent"@, parent],
        None => seq![],
    } + seq!["--silent"@]
}

/// `bd create` for a draft (see `create_args_of`).
pub fn create_args(draft: &AddIssueDraft) -> (r: Vec<String>)
    ensures
        string_views(r@) == create_args_of(draft@),
{
    let mut args: Vec<String> = Vec::new();
    args.push(text_of("create"));
    args.push(text_of(draft.title.as_str()));
    args.push(text_of("--description"));
    args.push(text_of(draft.description.as_str()));
    args.push(text_of("--type"));
    args.push(text_of(draft.issue_type.as_str()));
    args.push(text_of("--priority"));
    args.push(priority_text(draft.priority));
    let ghost head = string_views(args@);
    if let Some(parent) = &draft.parent_id {
        args.push(text_of("--parent"));
        args.push(text_of(parent.as_str()));
    }
    args.push(text_of("--silent"));
    proof {
        assert(string_views(args@) =~= create_args_of(draft@));
    }
    args
}

/// What a failed `bd` run reports: its trimmed error output, or its trimmed
/// standard output when the error output is blank, or, when both are blank,
/// how it exited.
pub open spec fn failure_message_of(
    program: Seq<char>,
    verb: Seq<char>,
    stderr: Seq<char>,
    stdout: Seq<char>,
    status: Seq<char>,
) -> Seq<char> {
    let message = if is_blank(stderr) {
        trim_of(stdout)
    } else {
        trim_of(stderr)
    };
    program + " "@ + verb + " failed: "@ + if message.len() == 0 {
        status
    } else {
        message
    }
}

/// The error for a failed `bd` run (see `failure_message_of`).
pub fn failure_message(program: &str, verb: &str, stderr: &str, stdout: &str, status: &str) -> (r:
    String)
    ensures
        r@ == failure_message_of(program@, verb@, stderr@, stdout@, status@),
{
    let message = if is_blank_text(stderr) {
        trim(stdout)
    } else {
        trim(stderr)
    };
    let mut text = text_of(program);
    push_text(&mut text, " ");
    push_text(&mut text, verb);
    push_text(&mut text, " failed: ");
    if message.as_str().is_empty() {
        push_text(&mut text, status);
    } else {
        push_text(&mut text, message.as_str());
    }
    text
}

/// The ID `bd create --silent` printed: its output trimmed, which must not be
/// empty.
pub fn created_issue_id(program: &str, stdout: &str) -> (r: Result<String, String>)
    ensures
        trim_of(stdout@).len() > 0 ==> r is Ok && r->Ok_0@ == trim_of(stdout@),
        trim_of(stdout@).len() == 0 ==> r is Err && r->Err_0@ == program@
            + " create returned no issue ID"@,
{
    let issue_id = trim(stdout);
    if issue_id.as_str().is_empty() {
        let mut text = text_of(program);
        push_text(&mut text, " create returned no issue ID");
        Err(text)
    } else {
        Ok(issue_id)
    }
}

/// The issue `bd show <id>` returned: the first of `issues` with that ID.
pub fn find_shown_issue(issues: Vec<Issue>, issue_id: &str, program: &str) -> (r: Result<
    Issue,
    String,
>)
    ensures
        match first_issue_in(issue_views(issues@), issue_id@) {
            Some(issue) => r is Ok && r->Ok_0@ == issue,
            None => r is Err && r->Err_0@ == program@ + " show returned no issue "@ + issue_id@,
        },
{
    let ghost iv = issue_views(issues@);
    let mut k: usize = 0;
    while k < issues.len()
        invariant
            iv == issue_views(issues@),
            k <= issues@.len(),
            first_issue_in(iv.take(k as int), issue_id@) is None,
        decreases issues@.len() - k,
    {
        proof {
            assert(iv.take(k + 1).drop_last() =~= iv.take(k as int));
        }
        if crate::text::str_eq(issues[k].id.as_str(), issue_id) {
            proof {
                lemma_first_issue_prefix(iv, k as int + 1, issue_id@);
            }
            return Ok(issues[k].duplicate());
        }
        k = k + 1;
    }
    proof {
        assert(iv.take(issues@.len() as int) =~= iv);
    }
    let mut text = text_of(program);
    push_text(&mut text, " show returned no issue ");
    push_text(&mut text, issue_id);
    Err(text)
}

/// A match found in a prefix is the first match of the whole.
proof fn lemma_first_issue_prefix(issues: Seq<IssueView>, n: int, id: Seq<char>)
    requires
        0 <= n <= issues.len(),
        first_issue_in(issues.take(n), id) is Some,
    ensures
        first_issue_in(issues, id) == first_issue_in(issues.take(n), id),
    decreases issues.len(),
{
    if n < issues.len() {
        assert(issues.drop_last().take(n) =~= issues.take(n));
        lemma_first_issue_prefix(issues.drop_last(), n, id);
    } else {
        assert(issues.take(n) =~= issues);
    }
}

} // verus!
