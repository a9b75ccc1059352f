//! Parsing the `herdr folder` command line into a folder API request.
//!
//! Running the request and printing are the caller's; every parse failure
//! is a usage error, which exits with status 2.
use vstd::prelude::*;
use crate::schema::{FolderAssignParams, FolderCreateParams, FolderMoveParams, FolderRenameParams, FolderTarget};
use crate::folder::strs;
use crate::text::{append_str, str_eq};

verus! {

/// The usage line of `folder assign`.
pub const FOLDER_ASSIGN_USAGE: &'static str = "usage: herdr folder assign <workspace_id> [--folder FOLDER_ID] [--position N]; omitting --folder moves the workspace to the top level";
/// The usage line of `folder move`.
pub const FOLDER_MOVE_USAGE: &'static str = "usage: herdr folder move <folder_id> --position N";
pub const FOLDER_LIST_USAGE: &'static str = "usage: herdr folder list";
pub const FOLDER_CREATE_USAGE: &'static str = "usage: herdr folder create --name TEXT";
pub const FOLDER_RENAME_USAGE: &'static str = "usage: herdr folder rename <folder_id> <name>";
pub const FOLDER_DELETE_USAGE: &'static str = "usage: herdr folder delete <folder_id>";

/// Why a folder command line was rejected.
#[derive(Clone, Debug, PartialEq, Eq)]
pub enum FolderCliError {
    /// An option came last, without its value; carries the option.
    MissingValue(&'static str),
    UnknownOption(String),
    /// A usage line to show.
    Usage(&'static str),
    /// A `--position` value that is not a non-negative integer.
    InvalidPosition(String),
}

/// A folder request the command line asks for.
#[derive(Clone, Debug, PartialEq, Eq)]
pub enum FolderCommand {
    List,
    Create(FolderCreateParams),
    Rename(FolderRenameParams),
    /// The workspace id is as typed.
    Assign(FolderAssignParams),
    Move(FolderMoveParams),
    Delete(FolderTarget),
}

/// What a folder command line comes to.
#[derive(Clone, Debug, PartialEq, Eq)]
pub enum FolderCli {
    Run(FolderCommand),
    /// Show the folder help, then exit with this status.
    Help { exit_code: i32 },
    /// Report the error, then the usage line if there is one, and exit with status 2.
    Fail { error: FolderCliError, usage: Option<&'static str> },
}

/// What `usize::from_str` returns for a text: the value when the text is a
/// decimal `usize`, else an error (`None`).
pub open spec fn parse_usize_spec(s: Seq<char>) -> Option<usize> {
    match crate::text::parse_unsigned_spec(s, usize::MAX as nat) {
        Some(v) => Some(v as usize),
        None => None,
    }
}

/// Calls `str::parse::<usize>`, which reads an optional `+` and decimal
/// digits and fails on anything else or on a value over `usize::MAX`.
#[verifier::external_body]
fn parse_usize(s: &str) -> (r: Option<usize>)
    ensures
        r == parse_usize_spec(s@),
{
    s.parse::<usize>().ok()
}

/// Positions are parsed client-side; a value that is not a non-negative
/// integer is a usage error, not a server round trip.
pub fn parse_position(value: &str) -> (r: Result<usize, FolderCliError>)
    ensures
        match parse_usize_spec(value@) {
            Some(p) => r == Ok::<usize, FolderCliError>(p),
            None => r matches Err(FolderCliError::InvalidPosition(v)) && v@ == value@,
        },
{
    match parse_usize(value) {
        Some(p) => Ok(p),
        None => Err(FolderCliError::InvalidPosition(value.to_owned())),
    }
}

/// The abstract value of a rejection.
pub enum CliErrorV {
    MissingValue(Seq<char>),
    UnknownOption(Seq<char>),
    Usage(Seq<char>),
    InvalidPosition(Seq<char>),
}

pub open spec fn error_view(e: FolderCliError) -> CliErrorV {
    match e {
        FolderCliError::MissingValue(o) => CliErrorV::MissingValue(o@),
        FolderCliError::UnknownOption(o) => CliErrorV::UnknownOption(o@),
        FolderCliError::Usage(u) => CliErrorV::Usage(u@),
        FolderCliError::InvalidPosition(v) => CliErrorV::InvalidPosition(v@),
    }
}

/// The options of `folder create` from index `i` on, with the name so far.
pub open spec fn create_options(args: Seq<Seq<char>>, i: int, name: Option<Seq<char>>) -> Result<Option<Seq<char>>, CliErrorV>
    decreases args.len() - i,
{
    if i >= args.len() || i < 0 {
        Ok(name)
    } else if args[i] == "--name"@ {
        if i + 1 >= args.len() {
            Err(CliErrorV::MissingValue("--name"@))
        } else {
            create_options(args, i + 2, Some(args[i + 1]))
        }
    } else {
        Err(CliErrorV::UnknownOption(args[i]))
    }
}

/// The options of `folder assign` (`with_folder`) or `folder move` from
/// index `i` on, with the folder and position so far.
pub open spec fn placement_options(
    args: Seq<Seq<char>>,
    i: int,
    with_folder: bool,
    folder: Option<Seq<char>>,
    position: Option<usize>,
) -> Result<(Option<Seq<char>>, Option<usize>), CliErrorV>
    decreases args.len() - i,
{
    if i >= args.len() || i < 0 {
        Ok((folder, position))
    } else if with_folder && args[i] == "--folder"@ {
        if i + 1 >= args.len() {
            Err(CliErrorV::MissingValue("--folder"@))
        } else {
            placement_options(args, i + 2, with_folder, Some(args[i + 1]), position)
        }
    } else if args[i] == "--position"@ {
        if i + 1 >= args.len() {
            Err(CliErrorV::MissingValue("--position"@))
        } else {
            match parse_usize_spec(args[i + 1]) {
                Some(p) => placement_options(args, i + 2, with_folder, folder, Some(p)),
                None => Err(CliErrorV::InvalidPosition(args[i + 1])),
            }
        }
    } else {
        Err(CliErrorV::UnknownOption(args[i]))
    }
}

/// Words joined with single spaces.
pub open spec fn join_spaces(words: Seq<Seq<char>>) -> Seq<char>
    decreases words.len(),
{
    if words.len() == 0 {
        seq![]
    } else if words.len() == 1 {
        words[0]
    } else {
        join_spaces(words.drop_last()) + seq![' '] + words.last()
    }
}

/// The abstract value of a parsed command line.
pub enum CliV {
    List,
    Create(Seq<char>),
    Rename(Seq<char>, Seq<char>),
    Assign(Seq<char>, Option<Seq<char>>, Option<usize>),
    Move(Seq<char>, usize),
    Delete(Seq<char>),
    Help(i32),
    Fail(CliErrorV, Option<Seq<char>>),
}

pub open spec fn cli_view(c: FolderCli) -> CliV {
    match c {
        FolderCli::Run(FolderCommand::List) => CliV::List,
        FolderCli::Run(FolderCommand::Create(p)) => CliV::Create(p.name@),
        FolderCli::Run(FolderCommand::Rename(p)) => CliV::Rename(p.folder_id@, p.name@),
        FolderCli::Run(FolderCommand::Assign(p)) => CliV::Assign(
            p.workspace_id@,
            match p.folder_id { Some(f) => Some(f@), None => None },
            p.position,
        ),
        FolderCli::Run(FolderCommand::Move(p)) => CliV::Move(p.folder_id@, p.position),
        FolderCli::Run(FolderCommand::Delete(t)) => CliV::Delete(t.folder_id@),
        FolderCli::Help { exit_code } => CliV::Help(exit_code),
        FolderCli::Fail { error, usage } => CliV::Fail(error_view(error), match usage { Some(u) => Some(u@), None => None }),
    }
}

/// A rejection with its usage line.
pub open spec fn fail_with(e: CliErrorV, usage: Option<Seq<char>>) -> CliV {
    CliV::Fail(e, usage)
}

/// What `herdr folder ARGS` asks for.
pub open spec fn folder_cli_spec(args: Seq<Seq<char>>) -> CliV {
    if args.len() == 0 {
        CliV::Help(2)
    } else {
        let sub = args[0];
        let rest = args.drop_first();
        if sub == "list"@ {
            if rest.len() > 0 { fail_with(CliErrorV::Usage(FOLDER_LIST_USAGE@), None) } else { CliV::List }
        } else if sub == "create"@ {
            match create_options(rest, 0, None) {
                Err(e) => fail_with(e, None),
                Ok(None) => fail_with(CliErrorV::Usage(FOLDER_CREATE_USAGE@), None),
                Ok(Some(name)) => CliV::Create(name),
            }
        } else if sub == "rename"@ {
            if rest.len() < 2 {
                fail_with(CliErrorV::Usage(FOLDER_RENAME_USAGE@), None)
            } else {
                CliV::Rename(rest[0], join_spaces(rest.drop_first()))
            }
        } else if sub == "assign"@ {
            if rest.len() == 0 {
                fail_with(CliErrorV::Usage(FOLDER_ASSIGN_USAGE@), None)
            } else {
                match placement_options(rest, 1, true, None, None) {
                    Err(e) => fail_with(e, if e is UnknownOption { Some(FOLDER_ASSIGN_USAGE@) } else { None }),
                    Ok((folder, position)) => CliV::Assign(rest[0], folder, position),
                }
            }
        } else if sub == "move"@ {
            if rest.len() == 0 {
                fail_with(CliErrorV::Usage(FOLDER_MOVE_USAGE@), None)
            } else {
                match placement_options(rest, 1, false, None, None) {
                    Err(e) => fail_with(e, if e is UnknownOption { Some(FOLDER_MOVE_USAGE@) } else { None }),
                    Ok((_, None)) => fail_with(CliErrorV::Usage(FOLDER_MOVE_USAGE@), None),
                    Ok((_, Some(p))) => CliV::Move(rest[0], p),
                }
            }
        } else if sub == "delete"@ {
            if rest.len() != 1 {
                fail_with(CliErrorV::Usage(FOLDER_DELETE_USAGE@), None)
            } else {
                CliV::Delete(rest[0])
            }
        } else if sub == "help"@ || sub == "--help"@ || sub == "-h"@ {
            CliV::Help(0)
        } else {
            CliV::Help(2)
        }
    }
}

fn fail(error: FolderCliError, usage: Option<&'static str>) -> (r: FolderCli)
    ensures
        r == (FolderCli::Fail { error, usage }),
{
    FolderCli::Fail { error, usage }
}

/// The words from index `from` on, joined with single spaces.
fn join_from(args: &Vec<String>, from: usize) -> (r: String)
    requires
        from < args@.len(),
    ensures
        r@ == join_spaces(strs(args@).skip(from as int)),
{
    let ghost ws = strs(args@).skip(from as int);
    let n = args.len();
    let mut r = args[from].clone();
    let mut i: usize = from + 1;
    proof { assert(ws.take(1) =~= seq![ws[0]]); }
    while i < args.len()
        invariant
            from < i <= args@.len(),
            ws == strs(args@).skip(from as int),
            r@ == join_spaces(ws.take(i - from)),
        decreases args.len() - i,
    {
        let ghost before = r@;
        append_str(&mut r, " ");
        append_str(&mut r, args[i].as_str());
        proof {
            reveal_strlit(" ");
            let t = ws.take(i - from + 1);
            assert(t.drop_last() =~= ws.take(i - from));
            assert(t.last() == args@[i as int]@);
        }
        i = i + 1;
    }
    proof { assert(ws.take(args@.len() - from) =~= ws); }
    r
}

/// Parses `herdr folder ARGS`.
#[verifier::loop_isolation(false)]
pub fn parse_folder_command(args: &Vec<String>) -> (r: FolderCli)
    ensures
        cli_view(r) == folder_cli_spec(strs(args@)),
{
    let ghost a = strs(args@);
    if args.len() == 0 {
        return FolderCli::Help { exit_code: 2 };
    }
    let ghost rest = a.drop_first();
    let sub = args[0].as_str();
    if str_eq(sub, "list") {
        if args.len() > 1 {
            return fail(FolderCliError::Usage(FOLDER_LIST_USAGE), None);
        }
        return FolderCli::Run(FolderCommand::List);
    }
    if str_eq(sub, "create") {
        let mut name: Option<String> = None;
        let mut index: usize = 1;
        while index < args.len()
            invariant
                1 <= index <= args@.len() + 1,
                a == strs(args@),
                rest == a.drop_first(),
                create_options(rest, index - 1, match name { Some(n) => Some(n@), None => None })
                    == create_options(rest, 0, None),
            decreases args.len() + 1 - index,
        {
            if str_eq(args[index].as_str(), "--name") {
                if index + 1 >= args.len() {
                    return fail(FolderCliError::MissingValue("--name"), None);
                }
                name = Some(args[index + 1].clone());
                index = index + 2;
            } else {
                return fail(FolderCliError::UnknownOption(args[index].clone()), None);
            }
        }
        return match name {
            Some(n) => FolderCli::Run(FolderCommand::Create(FolderCreateParams { name: n })),
            None => fail(FolderCliError::Usage(FOLDER_CREATE_USAGE), None),
        };
    }
    if str_eq(sub, "rename") {
        if args.len() < 3 {
            return fail(FolderCliError::Usage(FOLDER_RENAME_USAGE), None);
        }
        let name = join_from(args, 2);
        proof { assert(a.skip(2) =~= rest.drop_first()); }
        return FolderCli::Run(FolderCommand::Rename(FolderRenameParams { folder_id: args[1].clone(), name }));
    }
    if str_eq(sub, "assign") || str_eq(sub, "move") {
        let with_folder = str_eq(sub, "assign");
        let usage = if with_folder { FOLDER_ASSIGN_USAGE } else { FOLDER_MOVE_USAGE };
        if args.len() < 2 {
            return fail(FolderCliError::Usage(usage), None);
        }
        let mut folder_id: Option<String> = None;
        let mut position: Option<usize> = None;
        let mut index: usize = 2;
        while index < args.len()
            invariant
                2 <= index <= args@.len() + 1,
                a == strs(args@),
                rest == a.drop_first(),
                placement_options(rest, index - 1, with_folder, match folder_id { Some(f) => Some(f@), None => None }, position)
                    == placement_options(rest, 1, with_folder, None, None),
            decreases args.len() + 1 - index,
        {
            let arg = args[index].as_str();
            if with_folder && str_eq(arg, "--folder") {
                if index + 1 >= args.len() {
                    return fail(FolderCliError::MissingValue("--folder"), None);
                }
                folder_id = Some(args[index + 1].clone());
                index = index + 2;
            } else if str_eq(arg, "--position") {
                if index + 1 >= args.len() {
                    return fail(FolderCliError::MissingValue("--position"), None);
                }
                match parse_position(args[index + 1].as_str()) {
                    Ok(p) => position = Some(p),
                    Err(e) => return fail(e, None),
                }
                index = index + 2;
            } else {
                return fail(FolderCliError::UnknownOption(args[index].clone()), Some(usage));
            }
        }
        if with_folder {
            return FolderCli::Run(FolderCommand::Assign(FolderAssignParams {
                workspace_id: args[1].clone(),
                folder_id,
                position,
            }));
        }
        return match position {
            Some(p) => FolderCli::Run(FolderCommand::Move(FolderMoveParams { folder_id: args[1].clone(), position: p })),
            None => fail(FolderCliError::Usage(FOLDER_MOVE_USAGE), None),
        };
    }
    if str_eq(sub, "delete") {
        if args.len() != 2 {
            return fail(FolderCliError::Usage(FOLDER_DELETE_USAGE), None);
        }
        return FolderCli::Run(FolderCommand::Delete(FolderTarget { folder_id: args[1].clone() }));
    }
    if str_eq(sub, "help") || str_eq(sub, "--help") || str_eq(sub, "-h") {
        return FolderCli::Help { exit_code: 0 };
    }
    FolderCli::Help { exit_code: 2 }
}

/// Reading options runs left to right: options appended after a run that
/// read all of `args` carry on from where it ended.
proof fn lemma_placement_append(
    args: Seq<Seq<char>>,
    t: Seq<Seq<char>>,
    i: int,
    with_folder: bool,
    folder: Option<Seq<char>>,
    position: Option<usize>,
)
    requires
        0 <= i <= args.len(),
        placement_options(args, i, with_folder, folder, position) is Ok,
    ensures
        ({
            let (f1, p1) = placement_options(args, i, with_folder, folder, position)->Ok_0;
            placement_options(args + t, i, with_folder, folder, position)
                == placement_options(args + t, args.len() as int, with_folder, f1, p1)
        }),
    decreases args.len() - i,
{
    let a = args + t;
    if i < args.len() {
        assert(a[i] == args[i]);
        if with_folder && args[i] == "--folder"@ {
            assert(a[i + 1] == args[i + 1]);
            lemma_placement_append(args, t, i + 2, with_folder, Some(args[i + 1]), position);
        } else if args[i] == "--position"@ {
            assert(a[i + 1] == args[i + 1]);
            if let Some(p) = parse_usize_spec(args[i + 1]) {
                lemma_placement_append(args, t, i + 2, with_folder, folder, Some(p));
            }
        }
    }
}

/// `folder assign` reads `--position` whether or not `--folder` is given: a
/// `--position N` appended to any accepted assign command line sets the
/// request's position to N and keeps the workspace and folder.
pub proof fn lemma_assign_reads_position(rest: Seq<Seq<char>>, n: Seq<char>)
    requires
        folder_cli_spec(seq!["assign"@] + rest) is Assign,
        parse_usize_spec(n) is Some,
    ensures
        ({
            let before = folder_cli_spec(seq!["assign"@] + rest);
            let after = folder_cli_spec(seq!["assign"@] + rest + seq!["--position"@, n]);
            after == CliV::Assign(before->Assign_0, before->Assign_1, parse_usize_spec(n))
        }),
{
    reveal_strlit("assign");
    reveal_strlit("list");
    reveal_strlit("create");
    reveal_strlit("rename");
    reveal_strlit("--position");
    reveal_strlit("--folder");
    let args = seq!["assign"@] + rest;
    let t = seq!["--position"@, n];
    let args2 = args + t;
    assert(args.drop_first() =~= rest);
    assert(args2.drop_first() =~= rest + t);
    assert(args2[0] == "assign"@);
    assert(rest.len() > 0);
    lemma_placement_append(rest, t, 1, true, None, None);
    let (f1, p1) = placement_options(rest, 1, true, None, None)->Ok_0;
    let a = rest + t;
    assert(a[rest.len() as int] == "--position"@);
    assert(a[rest.len() as int + 1] == n);
    assert("--position"@ != "--folder"@);
    assert(placement_options(a, rest.len() as int + 2, true, f1, parse_usize_spec(n)) == Ok::<(Option<Seq<char>>, Option<usize>), CliErrorV>((f1, parse_usize_spec(n))));
}

/// `folder assign` reads `--folder` whether or not `--position` is given: a
/// `--folder F` appended to any accepted assign command line sets the
/// request's folder to F and keeps the workspace and position.
pub proof fn lemma_assign_reads_folder(rest: Seq<Seq<char>>, f: Seq<char>)
    requires
        folder_cli_spec(seq!["assign"@] + rest) is Assign,
    ensures
        ({
            let before = folder_cli_spec(seq!["assign"@] + rest);
            let after = folder_cli_spec(seq!["assign"@] + rest + seq!["--folder"@, f]);
            after == CliV::Assign(before->Assign_0, Some(f), before->Assign_2)
        }),
{
    reveal_strlit("assign");
    reveal_strlit("list");
    reveal_strlit("create");
    reveal_strlit("rename");
    reveal_strlit("--folder");
    let args = seq!["assign"@] + rest;
    let t = seq!["--folder"@, f];
    let args2 = args + t;
    assert(args.drop_first() =~= rest);
    assert(args2.drop_first() =~= rest + t);
    assert(args2[0] == "assign"@);
    lemma_placement_append(rest, t, 1, true, None, None);
    let (f1, p1) = placement_options(rest, 1, true, None, None)->Ok_0;
    let a = rest + t;
    assert(a[rest.len() as int] == "--folder"@);
    assert(a[rest.len() as int + 1] == f);
    assert(placement_options(a, rest.len() as int + 2, true, Some(f), p1) == Ok::<(Option<Seq<char>>, Option<usize>), CliErrorV>((Some(f), p1)));
}

} // verus!
