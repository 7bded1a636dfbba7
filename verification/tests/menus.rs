use grove::config::Mode;
use grove::menu::handle_menu_choice;
use grove::screens::{
    add_kind, add_paths, cli_command, delist_answer, files_command, find_project, menu_command, pick_project,
    project_command, project_status_line, remove_positions, skips_retry, AddKind, CliCommand, FilesCommand,
    MenuCommand, ProjectCommand,
};

fn strings(v: &[&str]) -> Vec<String> {
    v.iter().map(|s| s.to_string()).collect()
}

// handle_menu_choice

#[test]
fn menu_by_number() {
    let opts = &[("1", "save"), ("2", "files")];
    assert_eq!(handle_menu_choice("1", opts), Ok(Some("1".to_string())));
}

#[test]
fn menu_by_name() {
    let opts = &[("1", "save"), ("2", "files")];
    assert_eq!(handle_menu_choice("save", opts), Ok(Some("1".to_string())));
}

#[test]
fn menu_number_and_name_agree() {
    let opts = &[("1", "save"), ("2", "files")];
    assert_eq!(handle_menu_choice("1 save", opts), Ok(Some("1".to_string())));
}

#[test]
fn menu_name_and_number_agree_reversed() {
    let opts = &[("1", "save"), ("2", "files")];
    assert_eq!(handle_menu_choice("save 1", opts), Ok(Some("1".to_string())));
}

#[test]
fn menu_number_and_name_conflict_errors() {
    let opts = &[("1", "save"), ("2", "files")];
    assert_eq!(handle_menu_choice("1 files", opts), Err(()));
}

#[test]
fn menu_no_match_returns_none() {
    let opts = &[("1", "save"), ("2", "files")];
    assert_eq!(handle_menu_choice("grove", opts), Ok(None));
}

#[test]
fn menu_number_priority_over_name() {
    let opts = &[("1", "save"), ("2", "1")];
    assert_eq!(handle_menu_choice("1", opts), Ok(Some("1".to_string())));
}

#[test]
fn menu_case_insensitive_name() {
    let opts = &[("1", "save"), ("2", "files")];
    assert_eq!(handle_menu_choice("SAVE", opts), Ok(Some("1".to_string())));
    assert_eq!(handle_menu_choice("Files", opts), Ok(Some("2".to_string())));
}

#[test]
fn menu_empty_input_no_match() {
    let opts = &[("1", "save"), ("2", "files")];
    assert_eq!(handle_menu_choice("", opts), Ok(None));
}

#[test]
fn menu_two_words_one_unknown() {
    let opts = &[("1", "save"), ("2", "files")];
    assert_eq!(handle_menu_choice("  2 whatever ", opts), Ok(Some("2".to_string())));
    assert_eq!(handle_menu_choice("nothing files", opts), Ok(Some("2".to_string())));
    assert_eq!(handle_menu_choice("x y", opts), Ok(None));
}

#[test]
fn menu_multi_word_name() {
    let opts = &[("1", "create"), ("2", "grove root")];
    assert_eq!(handle_menu_choice("grove root", opts), Ok(None));
    assert_eq!(handle_menu_choice("2 root", opts), Ok(Some("2".to_string())));
}

// main menu

#[test]
fn main_menu_commands() {
    assert_eq!(menu_command("1"), MenuCommand::Create(None));
    assert_eq!(menu_command("create My Proj"), MenuCommand::Create(Some("My Proj".to_string())));
    assert_eq!(menu_command("CREATE"), MenuCommand::Create(None));
    assert_eq!(menu_command("2"), MenuCommand::OpenRoot);
    assert_eq!(menu_command("grove"), MenuCommand::OpenRoot);
    assert_eq!(menu_command("3"), MenuCommand::ListProjects);
    assert_eq!(menu_command("exit"), MenuCommand::Exit);
    assert_eq!(menu_command("open Thesis"), MenuCommand::Open("Thesis".to_string()));
    assert_eq!(menu_command("thesis"), MenuCommand::Open("thesis".to_string()));
    assert_eq!(menu_command("1 exit"), MenuCommand::Conflict);
    assert_eq!(menu_command("   "), MenuCommand::Nothing);
}

#[test]
fn find_project_ignores_case() {
    let names = strings(&["Alpha", "beta", "BETA"]);
    assert_eq!(find_project(&names, "BETA"), Some(1));
    assert_eq!(find_project(&names, "alpha"), Some(0));
    assert_eq!(find_project(&names, "gamma"), None);
    assert_eq!(find_project(&names, ""), None);
}

#[test]
fn pick_project_by_number_or_name() {
    let names = strings(&["Alpha", "Beta"]);
    assert_eq!(pick_project("2", &names), Ok(Some(1)));
    assert_eq!(pick_project("ALPHA", &names), Ok(Some(0)));
    assert_eq!(pick_project("1 beta", &names), Err(()));
    assert_eq!(pick_project("7", &names), Ok(None));
}

// project screen

#[test]
fn project_screen_commands() {
    assert_eq!(project_command("1"), ProjectCommand::Save);
    assert_eq!(project_command("files"), ProjectCommand::Files);
    assert_eq!(project_command("Restore"), ProjectCommand::Restore);
    assert_eq!(project_command("4"), ProjectCommand::OpenFolder);
    assert_eq!(project_command("grove"), ProjectCommand::OpenFolder);
    assert_eq!(project_command("menu"), ProjectCommand::Menu);
    assert_eq!(project_command("lab"), ProjectCommand::ToggleMode);
    assert_eq!(project_command("Labyrinth"), ProjectCommand::ToggleMode);
    assert_eq!(project_command("dup"), ProjectCommand::Duplicate);
    assert_eq!(project_command("delete"), ProjectCommand::DeleteProject);
    assert_eq!(project_command("1 files"), ProjectCommand::Conflict);
    assert_eq!(project_command("xyz"), ProjectCommand::Unknown);
}

#[test]
fn project_status_lines() {
    assert_eq!(project_status_line(10, 0, Mode::Flat), None);
    assert_eq!(project_status_line(10, 0, Mode::Labyrinth), Some("Mode: Labyrinth".to_string()));
    assert_eq!(project_status_line(97, 0, Mode::Flat), Some("Saves: 97/99".to_string()));
    assert_eq!(project_status_line(96, 1, Mode::Flat), None);
    assert_eq!(
        project_status_line(99, 3, Mode::Labyrinth),
        Some("Mode: Labyrinth  |  Chapter 3  |  Saves: 99/99".to_string())
    );
}

// files screen

#[test]
fn files_screen_commands() {
    assert_eq!(files_command("1", 3), FilesCommand::Add);
    assert_eq!(files_command("add", 3), FilesCommand::Add);
    assert_eq!(files_command("2", 3), FilesCommand::DelistPrompt);
    assert_eq!(files_command("3", 3), FilesCommand::Menu);
    assert_eq!(files_command("back", 3), FilesCommand::Back);
    assert_eq!(files_command("1 menu", 3), FilesCommand::Conflict);
    assert_eq!(files_command("zzz", 3), FilesCommand::Unknown);
}

#[test]
fn files_inline_delist_positions() {
    assert_eq!(files_command("delist 1,3", 3), FilesCommand::Delist(vec![2, 0]));
    assert_eq!(files_command("2 3,3, 9", 3), FilesCommand::Delist(vec![2]));
    assert_eq!(files_command("DELIST 2", 0), FilesCommand::Delist(vec![]));
}

#[test]
fn delist_prompt_answers() {
    assert_eq!(delist_answer("cancel", 4), None);
    assert_eq!(delist_answer("4, 1,+2", 4), Some(vec![3, 1, 0]));
    assert_eq!(delist_answer("0,5, 1 2", 4), Some(vec![]));
}

#[test]
fn add_kind_answers() {
    assert_eq!(add_kind("1"), AddKind::Files);
    assert_eq!(add_kind("files"), AddKind::Files);
    assert_eq!(add_kind("d"), AddKind::Folders);
    assert_eq!(add_kind("folders"), AddKind::Folders);
    assert_eq!(add_kind(""), AddKind::Cancel);
    assert_eq!(add_kind("back"), AddKind::Cancel);
    assert_eq!(add_kind("3"), AddKind::Unknown);
}

#[test]
fn adding_paths_skips_tracked_ones() {
    let mut paths = strings(&["/a", "/b"]);
    add_paths(&mut paths, &strings(&["/b", "/c", "/c", "/d"]));
    assert_eq!(paths, strings(&["/a", "/b", "/c", "/d"]));
}

#[test]
fn removing_positions_keeps_order() {
    let mut paths = strings(&["/a", "/b", "/c", "/d"]);
    remove_positions(&mut paths, &[2, 0]);
    assert_eq!(paths, strings(&["/b", "/d"]));
    remove_positions(&mut paths, &[]);
    assert_eq!(paths, strings(&["/b", "/d"]));
}

// command line and retry prompt

#[test]
fn command_line_argument() {
    assert_eq!(cli_command("create"), CliCommand::Create);
    assert_eq!(cli_command("SAVE"), CliCommand::Save);
    assert_eq!(cli_command("Grove"), CliCommand::Grove);
    assert_eq!(cli_command("restore"), CliCommand::Restore);
    assert_eq!(cli_command("help"), CliCommand::Unknown);
}

#[test]
fn retry_prompt_answers() {
    assert!(skips_retry("2"));
    assert!(skips_retry(" 2 "));
    assert!(!skips_retry("1"));
    assert!(!skips_retry(""));
}
