//! The command line of `be`.
use vstd::prelude::*;
use vstd::string::*;
use crate::model::string_views;
use crate::text::{push_text, str_eq};

verus! {

/// The help text.
pub const HELP: &'static str = "beads explorer

Usage: be [OPTIONS]

Options:
      --db <PATH>   Use a specific beads database
      --bd <PATH>   Path to the bd executable [env: BEADS_EXPLORER_BD]
  -h, --help        Print help
  -V, --version     Print version

Tree:      j/k move · h/l fold · Tab toggle · Enter open (creates on the + Create New entry)
           / go to · q/Esc quit
Task view: j/k dependency · Enter open · Backspace back · Esc tree · q quit
Both:      e edit description · et edit title · s set status · p set priority
           + add child · x close issue (with confirmation)

Add issue: Enter advances · j/k selects type/priority · e opens $EDITOR for text
           Backspace returns to the previous selection · Esc asks before discarding
";

/// What the command line asks for. The paths are given by the position of
/// the argument that holds them, so that they reach the program unchanged.
#[derive(Clone, Copy, Debug, PartialEq, Eq, Structural)]
pub enum Invocation {
    Help,
    Version,
    Run { bd: Option<usize>, db: Option<usize> },
}

/// Reads the arguments from position `k` on, with the `--bd` and `--db` paths
/// found so far: `-h`/`--help` and `-V`/`--version` answer at once; `--bd` and
/// `--db` take the next argument as their path (a later one wins); anything
/// else is an error that comes with the help text.
pub open spec fn parse_from(
    args: Seq<Seq<char>>,
    k: nat,
    bd: Option<usize>,
    db: Option<usize>,
) -> Result<Invocation, Seq<char>>
    decreases args.len() - k,
{
    if k >= args.len() {
        Ok(Invocation::Run { bd, db })
    } else {
        let a = args[k as int];
        if a == "-h"@ || a == "--help"@ {
            Ok(Invocation::Help)
        } else if a == "-V"@ || a == "--version"@ {
            Ok(Invocation::Version)
        } else if a == "--bd"@ {
            if k + 1 < args.len() {
                parse_from(args, k + 2, Some((k + 1) as usize), db)
            } else {
                Err("--bd requires a path"@)
            }
        } else if a == "--db"@ {
            if k + 1 < args.len() {
                parse_from(args, k + 2, bd, Some((k + 1) as usize))
            } else {
                Err("--db requires a path"@)
            }
        } else {
            Err("unknown option: "@ + a + "\n\n"@ + HELP@)
        }
    }
}

fn text_of(s: &str) -> (r: String)
    ensures
        r@ == s@,
{
    let mut out = String::new();
    push_text(&mut out, s);
    out
}

/// Reads the arguments after the program name (see `parse_from`).
pub fn parse_arguments(args: &Vec<String>) -> (r: Result<Invocation, String>)
    ensures
        match parse_from(string_views(args@), 0, None, None) {
            Ok(invocation) => r == Ok::<Invocation, String>(invocation),
            Err(message) => r is Err && r->Err_0@ == message,
        },
{
    let ghost av = string_views(args@);
    let mut bd: Option<usize> = None;
    let mut db: Option<usize> = None;
    let mut k: usize = 0;
    while k < args.len()
        invariant
            av == string_views(args@),
            k <= args@.len(),
            parse_from(av, k as nat, bd, db) == parse_from(av, 0, None, None),
        decreases args@.len() - k,
    {
        let a = args[k].as_str();
        if str_eq(a, "-h") || str_eq(a, "--help") {
            return Ok(Invocation::Help);
        } else if str_eq(a, "-V") || str_eq(a, "--version") {
            return Ok(Invocation::Version);
        } else if str_eq(a, "--bd") {
            if k + 1 < args.len() {
                bd = Some(k + 1);
                k = k + 2;
            } else {
                return Err(text_of("--bd requires a path"));
            }
        } else if str_eq(a, "--db") {
            if k + 1 < args.len() {
                db = Some(k + 1);
                k = k + 2;
            } else {
                return Err(text_of("--db requires a path"));
            }
        } else {
            let mut message = text_of("unknown option: ");
            push_text(&mut message, a);
            push_text(&mut message, "\n\n");
            push_text(&mut message, HELP);
            return Err(message);
        }
    }
    Ok(Invocation::Run { bd, db })
}

} // verus!
