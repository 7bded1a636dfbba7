use grove::names::{
    chapter_folder_name, format_snap_label, is_cancel, is_yes, parse_del_arg, sanitize_name,
    snap_meta_filename, snapshot_folder_name,
};

// sanitize_name

#[test]
fn sanitize_normal_name_unchanged() {
    assert_eq!(sanitize_name("my_project"), "my_project");
}

#[test]
fn sanitize_reserved_name_bare() {
    assert!(sanitize_name("NUL").ends_with('_'));
}

#[test]
fn sanitize_reserved_name_with_extension() {
    assert!(sanitize_name("CON.txt").ends_with('_'));
}

#[test]
fn sanitize_reserved_case_insensitive() {
    assert!(sanitize_name("nul").ends_with('_'));
    assert!(sanitize_name("Con").ends_with('_'));
    assert!(sanitize_name("cOm1").ends_with('_'));
}

#[test]
fn sanitize_all_reserved_names() {
    let reserved = [
        "CON", "PRN", "AUX", "NUL", "COM1", "COM2", "COM3", "COM4", "COM5", "COM6", "COM7", "COM8",
        "COM9", "LPT1", "LPT2", "LPT3", "LPT4", "LPT5", "LPT6", "LPT7", "LPT8", "LPT9",
    ];
    for name in &reserved {
        assert!(sanitize_name(name).ends_with('_'), "{} should be suffixed", name);
    }
}

#[test]
fn sanitize_replaces_illegal_chars() {
    let result = sanitize_name("my/file:name<>|*?\"");
    for ch in ['/', '\\', ':', '*', '?', '"', '<', '>', '|'] {
        assert!(!result.contains(ch), "should not contain '{}'", ch);
    }
}

#[test]
fn sanitize_trims_whitespace() {
    assert_eq!(sanitize_name("  project  "), "project");
}

#[test]
fn sanitize_non_reserved_name_with_numbers_unchanged() {
    assert_eq!(sanitize_name("save_01"), "save_01");
}

#[test]
fn sanitize_exact_results() {
    assert_eq!(sanitize_name("NUL"), "NUL_");
    assert_eq!(sanitize_name("con.txt"), "con.txt_");
    assert_eq!(sanitize_name("a/b:c"), "a_b_c");
    assert_eq!(sanitize_name("COM10"), "COM10");
    assert_eq!(sanitize_name("   "), "");
}

// is_cancel

#[test]
fn is_cancel_empty_string() {
    assert!(is_cancel(""));
}

#[test]
fn is_cancel_whitespace_only() {
    assert!(is_cancel("   "));
}

#[test]
fn is_cancel_cancel_word() {
    assert!(is_cancel("cancel"));
    assert!(is_cancel("CANCEL"));
    assert!(is_cancel("Cancel"));
}

#[test]
fn is_cancel_back_word() {
    assert!(is_cancel("back"));
    assert!(is_cancel("BACK"));
}

#[test]
fn is_cancel_normal_inputs_not_cancel() {
    assert!(!is_cancel("save"));
    assert!(!is_cancel("1"));
    assert!(!is_cancel("grove"));
}

#[test]
fn is_cancel_around_whitespace() {
    assert!(is_cancel("  Back \t"));
    assert!(!is_cancel("backup"));
}

// is_yes

#[test]
fn is_yes_accepts_y_and_yes() {
    assert!(is_yes("y"));
    assert!(is_yes("yes"));
}

#[test]
fn is_yes_rejects_other() {
    assert!(!is_yes("n"));
    assert!(!is_yes("no"));
    assert!(!is_yes("Y"));
    assert!(!is_yes(""));
}

// format_snap_label

#[test]
fn snap_label_with_era() {
    assert_eq!(format_snap_label(3, "flibberty"), "3 (flibberty)");
}

#[test]
fn snap_label_without_era() {
    assert_eq!(format_snap_label(5, ""), "5");
}

#[test]
fn snap_label_idx_one() {
    assert_eq!(format_snap_label(1, "alpha"), "1 (alpha)");
}

#[test]
fn snap_label_large_number() {
    assert_eq!(format_snap_label(120, ""), "120");
    assert_eq!(format_snap_label(0, "x"), "0 (x)");
}

// parse_del_arg

#[test]
fn parse_del_arg_with_space_delete() {
    assert_eq!(parse_del_arg("delete 1,3"), Some("1,3".to_string()));
}

#[test]
fn parse_del_arg_with_space_del() {
    assert_eq!(parse_del_arg("del 2"), Some("2".to_string()));
}

#[test]
fn parse_del_arg_bare_delete() {
    assert_eq!(parse_del_arg("delete"), Some(String::new()));
}

#[test]
fn parse_del_arg_bare_del() {
    assert_eq!(parse_del_arg("del"), Some(String::new()));
}

#[test]
fn parse_del_arg_no_match() {
    assert_eq!(parse_del_arg("restore"), None);
    assert_eq!(parse_del_arg(""), None);
}

#[test]
fn parse_del_arg_trims_argument() {
    assert_eq!(parse_del_arg("delete   4 5  "), Some("4 5".to_string()));
    assert_eq!(parse_del_arg("deleted"), None);
}

// snap_meta_filename

#[test]
fn snap_meta_filename_basic() {
    assert_eq!(snap_meta_filename("02_flibberty"), "02_flibberty.json");
}

#[test]
fn snap_meta_filename_no_era() {
    assert_eq!(snap_meta_filename("06"), "06.json");
}

// folder names

#[test]
fn chapter_folder_names_are_two_digits() {
    assert_eq!(chapter_folder_name(1), "Chapter 01");
    assert_eq!(chapter_folder_name(12), "Chapter 12");
    assert_eq!(chapter_folder_name(123), "Chapter 123");
}

#[test]
fn snapshot_folder_names() {
    assert_eq!(snapshot_folder_name(2, "flibberty"), "02_flibberty");
    assert_eq!(snapshot_folder_name(6, ""), "06");
    assert_eq!(snapshot_folder_name(99, "x"), "99_x");
}
