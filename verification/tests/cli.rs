use herdr_folders::cli::{
    parse_folder_command, parse_position, FolderCli, FolderCliError, FolderCommand, FOLDER_ASSIGN_USAGE,
    FOLDER_MOVE_USAGE,
};
use herdr_folders::schema::{FolderAssignParams, FolderCreateParams, FolderMoveParams, FolderRenameParams, FolderTarget};

fn parse(args: &[&str]) -> FolderCli {
    let args: Vec<String> = args.iter().map(|arg| arg.to_string()).collect();
    parse_folder_command(&args)
}

#[test]
fn no_subcommand_or_an_unknown_one_shows_help_and_fails() {
    assert_eq!(parse(&[]), FolderCli::Help { exit_code: 2 });
    assert_eq!(parse(&["frobnicate"]), FolderCli::Help { exit_code: 2 });
    for flag in ["help", "--help", "-h"] {
        assert_eq!(parse(&[flag]), FolderCli::Help { exit_code: 0 });
    }
}

#[test]
fn list_takes_no_arguments() {
    assert_eq!(parse(&["list"]), FolderCli::Run(FolderCommand::List));
    assert_eq!(
        parse(&["list", "extra"]),
        FolderCli::Fail { error: FolderCliError::Usage("usage: herdr folder list"), usage: None }
    );
}

#[test]
fn create_needs_a_name() {
    assert_eq!(
        parse(&["create", "--name", "work"]),
        FolderCli::Run(FolderCommand::Create(FolderCreateParams { name: "work".into() }))
    );
    // The last --name wins.
    assert_eq!(
        parse(&["create", "--name", "a", "--name", "b"]),
        FolderCli::Run(FolderCommand::Create(FolderCreateParams { name: "b".into() }))
    );
    assert_eq!(
        parse(&["create", "--name"]),
        FolderCli::Fail { error: FolderCliError::MissingValue("--name"), usage: None }
    );
    assert_eq!(
        parse(&["create", "--color", "red"]),
        FolderCli::Fail { error: FolderCliError::UnknownOption("--color".into()), usage: None }
    );
    assert_eq!(
        parse(&["create"]),
        FolderCli::Fail { error: FolderCliError::Usage("usage: herdr folder create --name TEXT"), usage: None }
    );
}

#[test]
fn rename_joins_the_remaining_words() {
    assert_eq!(
        parse(&["rename", "f1", "side", "projects"]),
        FolderCli::Run(FolderCommand::Rename(FolderRenameParams {
            folder_id: "f1".into(),
            name: "side projects".into()
        }))
    );
    assert_eq!(
        parse(&["rename", "f1"]),
        FolderCli::Fail { error: FolderCliError::Usage("usage: herdr folder rename <folder_id> <name>"), usage: None }
    );
}

#[test]
fn assign_reads_folder_and_position() {
    assert_eq!(
        parse(&["assign", "w1", "--folder", "f2", "--position", "3"]),
        FolderCli::Run(FolderCommand::Assign(FolderAssignParams {
            workspace_id: "w1".into(),
            folder_id: Some("f2".into()),
            position: Some(3),
        }))
    );
    // Omitting --folder moves the workspace to the top level.
    assert_eq!(
        parse(&["assign", "w1"]),
        FolderCli::Run(FolderCommand::Assign(FolderAssignParams { workspace_id: "w1".into(), folder_id: None, position: None }))
    );
    assert_eq!(
        parse(&["assign", "w1", "--position", "-1"]),
        FolderCli::Fail { error: FolderCliError::InvalidPosition("-1".into()), usage: None }
    );
    assert_eq!(
        parse(&["assign", "w1", "--bogus"]),
        FolderCli::Fail { error: FolderCliError::UnknownOption("--bogus".into()), usage: Some(FOLDER_ASSIGN_USAGE) }
    );
    assert_eq!(
        parse(&["assign"]),
        FolderCli::Fail { error: FolderCliError::Usage(FOLDER_ASSIGN_USAGE), usage: None }
    );
}

#[test]
fn move_requires_a_position() {
    assert_eq!(
        parse(&["move", "f1", "--position", "0"]),
        FolderCli::Run(FolderCommand::Move(FolderMoveParams { folder_id: "f1".into(), position: 0 }))
    );
    assert_eq!(parse(&["move", "f1"]), FolderCli::Fail { error: FolderCliError::Usage(FOLDER_MOVE_USAGE), usage: None });
    // --folder is not an option of move.
    assert_eq!(
        parse(&["move", "f1", "--folder", "f2"]),
        FolderCli::Fail { error: FolderCliError::UnknownOption("--folder".into()), usage: Some(FOLDER_MOVE_USAGE) }
    );
    assert_eq!(
        parse(&["move", "f1", "--position"]),
        FolderCli::Fail { error: FolderCliError::MissingValue("--position"), usage: None }
    );
}

#[test]
fn delete_takes_exactly_one_folder() {
    assert_eq!(
        parse(&["delete", "f1"]),
        FolderCli::Run(FolderCommand::Delete(FolderTarget { folder_id: "f1".into() }))
    );
    assert_eq!(
        parse(&["delete", "f1", "f2"]),
        FolderCli::Fail { error: FolderCliError::Usage("usage: herdr folder delete <folder_id>"), usage: None }
    );
}

#[test]
fn positions_are_non_negative_integers() {
    assert_eq!(parse_position("12"), Ok(12));
    assert_eq!(parse_position("x"), Err(FolderCliError::InvalidPosition("x".into())));
}

#[test]
fn positions_read_an_optional_plus_and_decimal_digits_only() {
    assert_eq!(parse_position("+3"), Ok(3));
    assert_eq!(parse_position("007"), Ok(7));
    assert_eq!(parse_position("-1"), Err(FolderCliError::InvalidPosition("-1".into())));
    assert_eq!(parse_position(" 3"), Err(FolderCliError::InvalidPosition(" 3".into())));
    assert_eq!(parse_position("+"), Err(FolderCliError::InvalidPosition("+".into())));
    assert_eq!(parse_position(""), Err(FolderCliError::InvalidPosition("".into())));
    assert_eq!(
        parse_position("99999999999999999999999"),
        Err(FolderCliError::InvalidPosition("99999999999999999999999".into()))
    );
}
