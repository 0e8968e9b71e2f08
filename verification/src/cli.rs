//! The editing command line's arguments:
//!
//!   entryconf-edit inspect [-v] <dir>               list the snapshot's documents
//!   entryconf-edit inspect [-v] <dir> <pointer>     provenance of one effective value
//!   entryconf-edit edit [-n|--dry-run] [-v] <dir> <request.json | ->

use vstd::prelude::*;

use crate::envfile::name_views;
use crate::text::same_text;

verus! {

/// What the command line asks for.
#[derive(Debug, Clone, PartialEq)]
pub enum Kind {
    /// List the documents, or report one value's provenance.
    Inspect {
        /// The config directory.
        dir: String,
        /// The effective pointer, if any.
        pointer: Option<String>,
    },
    /// Plan an edit request and commit it.
    Edit {
        /// The config directory.
        dir: String,
        /// The request file, or `-` for standard input.
        request: String,
    },
}

/// A parsed command line.
#[derive(Debug, Clone, PartialEq)]
pub struct Command {
    /// `-v`: add the message to an error.
    pub verbose: bool,
    /// `-n` / `--dry-run` (edit only): plan without committing.
    pub dry_run: bool,
    /// What to do.
    pub kind: Kind,
}

/// The view of a [`Kind`]: the subcommand's operands.
pub enum KindV {
    /// Directory and optional pointer.
    Inspect(Seq<char>, Option<Seq<char>>),
    /// Directory and request.
    Edit(Seq<char>, Seq<char>),
}

/// The view of a command: verbose, dry run, and what to do.
pub open spec fn command_view(c: Command) -> (bool, bool, KindV) {
    (c.verbose, c.dry_run, match c.kind {
        Kind::Inspect { dir, pointer } => KindV::Inspect(dir@, match pointer {
            Some(p) => Some(p@),
            None => None,
        }),
        Kind::Edit { dir, request } => KindV::Edit(dir@, request@),
    })
}

/// The flags and operands after the subcommand: `--` makes everything after
/// it an operand; `-v` is verbose; `-n` and `--dry-run` are a dry run for
/// `edit`; `-` alone is an operand (standard input); anything else starting
/// with `-` is a usage fault (`None`).
pub open spec fn scan_args(edit: bool, args: Seq<Seq<char>>, verbose: bool, dry_run: bool, operands: Seq<Seq<char>>, only_operands: bool) -> Option<(bool, bool, Seq<Seq<char>>)>
    decreases args.len(),
{
    if args.len() == 0 {
        Some((verbose, dry_run, operands))
    } else {
        let a = args[0];
        let rest = args.drop_first();
        if only_operands {
            scan_args(edit, rest, verbose, dry_run, operands.push(a), true)
        } else if a == "--"@ {
            scan_args(edit, rest, verbose, dry_run, operands, true)
        } else if a == "-v"@ {
            scan_args(edit, rest, true, dry_run, operands, false)
        } else if (a == "-n"@ || a == "--dry-run"@) && edit {
            scan_args(edit, rest, verbose, true, operands, false)
        } else if a.len() > 1 && a[0] == '-' {
            None
        } else {
            scan_args(edit, rest, verbose, dry_run, operands.push(a), false)
        }
    }
}

/// The command an argument list names (without the program name): `inspect`
/// with one or two operands, or `edit` with two; anything else is a usage
/// fault (`None`).
pub open spec fn parse_args_spec(argv: Seq<Seq<char>>) -> Option<(bool, bool, KindV)> {
    if argv.len() == 0 {
        None
    } else {
        let name = argv[0];
        match scan_args(name == "edit"@, argv.drop_first(), false, false, Seq::empty(), false) {
            None => None,
            Some((verbose, dry_run, ops)) => if name == "inspect"@ && ops.len() == 1 {
                Some((verbose, dry_run, KindV::Inspect(ops[0], None)))
            } else if name == "inspect"@ && ops.len() == 2 {
                Some((verbose, dry_run, KindV::Inspect(ops[0], Some(ops[1]))))
            } else if name == "edit"@ && ops.len() == 2 {
                Some((verbose, dry_run, KindV::Edit(ops[0], ops[1])))
            } else {
                None
            },
        }
    }
}

/// Parses the editing command line (without the program name).
pub fn parse_args(argv: &Vec<String>) -> (r: Option<Command>)
    ensures
        r matches Some(c) ==> parse_args_spec(name_views(argv@)) == Some(command_view(c)),
        r is None ==> parse_args_spec(name_views(argv@)) is None,
{
    let ghost av = name_views(argv@);
    if argv.len() == 0 {
        return None;
    }
    let name = &argv[0];
    let edit = same_text(name.as_str(), "edit");
    let mut verbose = false;
    let mut dry_run = false;
    let mut operands: Vec<String> = Vec::new();
    let mut only_operands = false;
    let mut i: usize = 1;
    assert(av.drop_first().skip(0) =~= av.drop_first());
    assert(name_views(operands@) =~= Seq::<Seq<char>>::empty());
    proof {
        reveal_strlit("--");
        reveal_strlit("-v");
        reveal_strlit("-n");
        reveal_strlit("--dry-run");
    }
    while i < argv.len()
        invariant
            1 <= i <= argv.len(),
            av == name_views(argv@),
            av.len() == argv.len(),
            edit == (av[0] == "edit"@),
            scan_args(edit, av.drop_first(), false, false, Seq::empty(), false) == scan_args(
                edit,
                av.drop_first().skip(i - 1),
                verbose,
                dry_run,
                name_views(operands@),
                only_operands,
            ),
        decreases argv.len() - i,
    {
        let ghost rest = av.drop_first().skip(i - 1);
        assert(rest[0] == argv@[i as int]@);
        assert(rest.drop_first() =~= av.drop_first().skip(i as int));
        let a = &argv[i];
        let c = crate::text::chars_of(a.as_str());
        if only_operands {
            let ghost before = name_views(operands@);
            operands.push(a.clone());
            assert(name_views(operands@) =~= before.push(a@));
        } else if same_text(a.as_str(), "--") {
            only_operands = true;
        } else if same_text(a.as_str(), "-v") {
            verbose = true;
        } else if (same_text(a.as_str(), "-n") || same_text(a.as_str(), "--dry-run")) && edit {
            dry_run = true;
        } else if c.len() > 1 && c[0] == '-' {
            return None;
        } else {
            let ghost before = name_views(operands@);
            operands.push(a.clone());
            assert(name_views(operands@) =~= before.push(a@));
        }
        i = i + 1;
    }
    assert(av.drop_first().skip(i - 1) =~= Seq::<Seq<char>>::empty());
    let n = operands.len();
    proof {
        reveal_strlit("inspect");
        reveal_strlit("edit");
    }
    if same_text(name.as_str(), "inspect") && n == 1 {
        let dir = operands.pop().unwrap();
        Some(Command { verbose, dry_run, kind: Kind::Inspect { dir, pointer: None } })
    } else if same_text(name.as_str(), "inspect") && n == 2 {
        let pointer = operands.pop().unwrap();
        let dir = operands.pop().unwrap();
        Some(Command { verbose, dry_run, kind: Kind::Inspect { dir, pointer: Some(pointer) } })
    } else if edit && n == 2 {
        let request = operands.pop().unwrap();
        let dir = operands.pop().unwrap();
        Some(Command { verbose, dry_run, kind: Kind::Edit { dir, request } })
    } else {
        None
    }
}

} // verus!
