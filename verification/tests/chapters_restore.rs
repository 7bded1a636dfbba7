use grove::chapters::{
    backup_folder_name, chapter_numbers, cleanup_step, CleanupStep, chapters_command, chapters_to_delete, classify_leftover,
    converting_folder_name, era_answer, final_era_label, heal_step, HealStep, is_content_folder, latest_chapter, next_snapshot_id,
    plan_save, reconcile_current_chapter, snapshot_era_of, ChapterDeletion, ChapterStep, ChaptersCommand,
    EraAnswer, Leftover, SavePlan, MAX_CHAPTERS, SNAPS_PER_CHAPTER,
};
use grove::config::{duplicate_config, Mode, ProjectConfig};
use grove::restore::{
    restore_choice, restore_command, restore_header, snapshot_line, RestoreChoice, RestoreCommand, RestoreState,
};

fn strings(v: &[&str]) -> Vec<String> {
    v.iter().map(|s| s.to_string()).collect()
}

fn plain(count: usize) -> RestoreState {
    RestoreState { in_convert_mode: false, in_delete_mode: false, in_chapter_mode: false, snapshot_count: count }
}

// snapshot numbering

#[test]
fn next_id_follows_highest_number() {
    assert_eq!(next_snapshot_id(&[]), Some(1));
    assert_eq!(next_snapshot_id(&strings(&["01", "02_alpha", "07_x"])), Some(8));
    assert_eq!(next_snapshot_id(&strings(&["05", "notes", "_x", "03_y"])), Some(6));
}

#[test]
fn next_id_not_reused_after_deletion() {
    let before = next_snapshot_id(&strings(&["01", "02", "03"])).unwrap();
    let after = next_snapshot_id(&strings(&["01", "03"])).unwrap();
    assert_eq!(before, 4);
    assert_eq!(after, 4);
}

#[test]
fn next_id_overflow_is_none() {
    let max = usize::MAX.to_string();
    assert_eq!(next_snapshot_id(&[max]), None);
}

// chapters

#[test]
fn chapter_numbers_sorted() {
    let names = strings(&["Chapter 03", "Chapter 01", "notes", "Chapter x", "Chapter 12", ".hidden"]);
    assert_eq!(chapter_numbers(&names), vec![1, 3, 12]);
    assert_eq!(latest_chapter(&[1, 3, 12]), 12);
    assert_eq!(latest_chapter(&[]), 0);
}

#[test]
fn reconcile_keeps_or_falls_back() {
    assert_eq!(reconcile_current_chapter(0, false, &[2, 3]), 0);
    assert_eq!(reconcile_current_chapter(2, true, &[2, 3]), 2);
    assert_eq!(reconcile_current_chapter(5, false, &[2, 3]), 3);
    assert_eq!(reconcile_current_chapter(5, false, &[]), 0);
}

#[test]
fn reconcile_twice_is_reconcile_once() {
    let once = reconcile_current_chapter(7, false, &[2, 4]);
    let twice = reconcile_current_chapter(once, true, &[2, 4]);
    assert_eq!(once, twice);
}

#[test]
fn plan_save_within_chapter() {
    assert_eq!(plan_save(0, 1), SavePlan::Save(ChapterStep::Stay, 1));
    assert_eq!(plan_save(0, 0), SavePlan::Save(ChapterStep::Stay, 1));
    assert_eq!(plan_save(3, 99), SavePlan::Save(ChapterStep::Stay, 99));
}

#[test]
fn plan_save_first_migration_goes_to_chapter_two() {
    assert_eq!(plan_save(0, 100), SavePlan::Save(ChapterStep::Migrate, 1));
}

#[test]
fn plan_save_opens_next_chapter() {
    assert_eq!(plan_save(2, 100), SavePlan::Save(ChapterStep::OpenNext(3), 1));
    assert_eq!(plan_save(98, 100), SavePlan::Save(ChapterStep::OpenNext(99), 1));
}

#[test]
fn plan_save_refused_at_limit() {
    assert_eq!(plan_save(MAX_CHAPTERS, SNAPS_PER_CHAPTER + 1), SavePlan::LimitReached);
    assert_eq!(plan_save(MAX_CHAPTERS, SNAPS_PER_CHAPTER), SavePlan::Save(ChapterStep::Stay, 99));
}

#[test]
fn plan_save_never_lands_in_chapter_one() {
    for cur in [0usize, 2, 5, 98, 99] {
        for next in [1usize, 50, 99, 100, 250] {
            match plan_save(cur, next) {
                SavePlan::Save(ChapterStep::Stay, id) => assert!(1 <= id && id <= SNAPS_PER_CHAPTER),
                SavePlan::Save(ChapterStep::Migrate, id) => assert!(cur == 0 && id == 1),
                SavePlan::Save(ChapterStep::OpenNext(n), id) => assert!(n == cur + 1 && n <= MAX_CHAPTERS && n != 1 && id == 1),
                SavePlan::LimitReached => assert!(cur >= MAX_CHAPTERS),
            }
        }
    }
}

#[test]
fn chapter_deletion_choices() {
    let chapters = [1usize, 2, 3];
    let arg: Vec<char> = "3, 1, 3, 9".chars().collect();
    assert_eq!(chapters_to_delete(&arg, &chapters), ChapterDeletion::Delete(vec![1, 3]));
    let all: Vec<char> = "1,2,3".chars().collect();
    assert_eq!(chapters_to_delete(&all, &chapters), ChapterDeletion::WouldDeleteAll);
    let none: Vec<char> = "7,x".chars().collect();
    assert_eq!(chapters_to_delete(&none, &chapters), ChapterDeletion::Nothing);
}

#[test]
fn chapters_screen_commands() {
    assert_eq!(chapters_command("back", &[1, 2]), ChaptersCommand::Back);
    assert_eq!(chapters_command(" Delete 1 ", &[1, 2]), ChaptersCommand::Delete("1".to_string()));
    assert_eq!(chapters_command("2", &[1, 2]), ChaptersCommand::Pick(2));
    assert_eq!(chapters_command("5", &[1, 2]), ChaptersCommand::Nothing);
    assert_eq!(chapters_command("what", &[1, 2]), ChaptersCommand::Nothing);
}

// era names

#[test]
fn era_prompt_answers() {
    assert_eq!(era_answer("CANCEL "), EraAnswer::Cancel);
    assert_eq!(era_answer("abcdefghijklmnopqrstuvwxyz0"), EraAnswer::TooLong);
    assert_eq!(era_answer("abcdefghijklmnopqrstuvwxyz"), EraAnswer::Name("abcdefghijklmnopqrstuvwxyz".to_string()));
    assert_eq!(era_answer(""), EraAnswer::Name(String::new()));
}

#[test]
fn era_labels_are_cleaned() {
    assert_eq!(final_era_label(""), (String::new(), false));
    assert_eq!(final_era_label("spring"), ("spring".to_string(), false));
    assert_eq!(final_era_label("a/b"), ("a_b".to_string(), true));
    assert_eq!(final_era_label("nul"), ("nul_".to_string(), true));
}

#[test]
fn era_of_snapshot_folders() {
    assert_eq!(snapshot_era_of("02_flibberty", 0), Some("flibberty".to_string()));
    assert_eq!(snapshot_era_of("06", 0), Some(String::new()));
    assert_eq!(snapshot_era_of("Chapter 01", 0), None);
    assert_eq!(snapshot_era_of(".location_data", 0), None);
    assert_eq!(snapshot_era_of("__grove_converting_03", 0), None);
    assert_eq!(snapshot_era_of("x_y", 2), None);
}

#[test]
fn leftover_folders() {
    assert!(is_content_folder("03_x"));
    assert!(!is_content_folder(".location_data"));
    assert!(!is_content_folder("__grove_tmp"));
    let t = converting_folder_name("03_x");
    assert_eq!(t, "__grove_converting_03_x");
    assert_eq!(classify_leftover(&t), Leftover::ConversionTemp("03_x".to_string()));
    let b = backup_folder_name("03_x");
    assert_eq!(b, "03_x.bak");
    assert_eq!(classify_leftover(&b), Leftover::ConversionBackup("03_x".to_string()));
    assert_eq!(classify_leftover("03_x"), Leftover::Other);
}

// settings

#[test]
fn mode_toggles_back() {
    assert_eq!(Mode::Flat.toggled(), Mode::Labyrinth);
    assert_eq!(Mode::Flat.toggled().toggled(), Mode::Flat);
    assert_eq!(Mode::Labyrinth.name(), "Labyrinth");
    assert_eq!(Mode::default(), Mode::Flat);
}

#[test]
fn duplicate_drops_chapters() {
    let cfg = ProjectConfig { mode: Mode::Labyrinth, paths: strings(&["/a", "/b"]), current_chapter: 4 };
    let d = duplicate_config(&cfg);
    assert_eq!(d.mode, Mode::Labyrinth);
    assert_eq!(d.paths, strings(&["/a", "/b"]));
    assert_eq!(d.current_chapter, 0);
    let fresh = ProjectConfig::default();
    assert_eq!(fresh.current_chapter, 0);
    assert!(fresh.paths.is_empty());
}

// restore screen

#[test]
fn restore_plain_commands() {
    let st = plain(3);
    assert_eq!(restore_command("", st, &[]), RestoreCommand::Exit);
    assert_eq!(restore_command("Back", st, &[]), RestoreCommand::Exit);
    assert_eq!(restore_command("2", st, &[]), RestoreCommand::Pick(1));
    assert_eq!(restore_command("4", st, &[]), RestoreCommand::Unknown);
    assert_eq!(restore_command("del", st, &[]), RestoreCommand::EnterDeleteMode);
    assert_eq!(restore_command("delete 1,3,3,7", st, &[]), RestoreCommand::Delete(vec![2, 0]));
    assert_eq!(restore_command("convert", st, &[]), RestoreCommand::EnterConvertMode);
    assert_eq!(restore_command("convert 3", st, &[]), RestoreCommand::Convert(2));
    assert_eq!(restore_command("convert 9", st, &[]), RestoreCommand::Ignore);
    assert_eq!(restore_command("chapters", st, &[]), RestoreCommand::Unknown);
}

#[test]
fn restore_chapter_commands() {
    let st = RestoreState { in_chapter_mode: true, ..plain(2) };
    assert_eq!(restore_command("chapters", st, &[1, 2]), RestoreCommand::ShowChapters);
    assert_eq!(restore_command("chapter 2", st, &[1, 2]), RestoreCommand::ViewChapter(2));
    assert_eq!(restore_command("Chapter 5", st, &[1, 2]), RestoreCommand::ChapterNotFound(5));
}

#[test]
fn restore_sub_modes() {
    let del = RestoreState { in_delete_mode: true, ..plain(4) };
    assert_eq!(restore_command("  ", del, &[]), RestoreCommand::LeaveSubMode);
    assert_eq!(restore_command("2, 4", del, &[]), RestoreCommand::Delete(vec![3, 1]));
    assert_eq!(restore_command("cancel", del, &[]), RestoreCommand::Exit);
    let conv = RestoreState { in_convert_mode: true, ..plain(4) };
    assert_eq!(restore_command("", conv, &[]), RestoreCommand::LeaveSubMode);
    assert_eq!(restore_command("1", conv, &[]), RestoreCommand::Pick(0));
    assert_eq!(restore_command("del 1", conv, &[]), RestoreCommand::Unknown);
}

#[test]
fn restore_screen_titles() {
    assert_eq!(restore_header(false, false, false, 0), "\n--- Restore Snapshot ---");
    assert_eq!(restore_header(true, false, false, 0), "\n--- Convert Snapshot ---");
    assert_eq!(restore_header(false, true, true, 3), "\n--- Delete Snapshot  \u{b7}  Chapter 03 ---");
}

#[test]
fn snapshot_lines_are_padded() {
    let line = snapshot_line(3, "alpha", Mode::Flat, Mode::Flat, "2024-01-01 10:00");
    assert_eq!(line, format!("{:<45}{}", "3. alpha", "2024-01-01 10:00"));
    let tagged = snapshot_line(12, "", Mode::Labyrinth, Mode::Flat, "t");
    assert_eq!(tagged, format!("{:<45}{}", "12. (Labyrinth)", "t"));
    let both = snapshot_line(1, "x", Mode::Flat, Mode::Labyrinth, "t");
    assert_eq!(both, format!("{:<45}{}", "1. x (Flat)", "t"));
    let long_era = "e".repeat(50);
    assert_eq!(snapshot_line(1, &long_era, Mode::Flat, Mode::Flat, "t"), format!("1. {}t", long_era));
}

#[test]
fn restore_choice_answers() {
    assert_eq!(restore_choice("1"), RestoreChoice::SaveFirst);
    assert_eq!(restore_choice(" 2 "), RestoreChoice::WithoutSaving);
    assert_eq!(restore_choice(""), RestoreChoice::Cancel);
    assert_eq!(restore_choice("yes"), RestoreChoice::Cancel);
}

#[test]
fn healing_leftover_folders() {
    let temp = classify_leftover("__grove_converting_03_x");
    assert_eq!(heal_step(&temp, true, true, false), HealStep::RecoverFromBackup);
    assert_eq!(heal_step(&temp, false, true, false), HealStep::DropTemp);
    let bak = classify_leftover("03_x.bak");
    assert_eq!(heal_step(&bak, true, false, true), HealStep::DropBackup);
    assert_eq!(heal_step(&bak, true, true, true), HealStep::Keep);
    assert_eq!(heal_step(&bak, true, false, false), HealStep::Keep);
    assert_eq!(heal_step(&classify_leftover("03_x"), true, true, true), HealStep::Keep);
}

#[test]
fn empty_chapter_cleanup_steps() {
    assert_eq!(cleanup_step(0, false), CleanupStep::Stop);
    assert_eq!(cleanup_step(3, true), CleanupStep::Stop);
    assert_eq!(cleanup_step(3, false), CleanupStep::Remove(3));
    assert_eq!(latest_chapter(&[1, 2]), 2);
}

#[test]
fn toggling_an_odd_number_of_times_flips_the_mode() {
    let mut m = Mode::Flat;
    for _ in 0..3 {
        m = m.toggled();
    }
    assert_eq!(m, Mode::Labyrinth);
    m = m.toggled();
    assert_eq!(m, Mode::Flat);
}
