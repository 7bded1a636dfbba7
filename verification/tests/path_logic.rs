use std::path::Path;

use grove::paths::{
    compute_chapter_dir, compute_grove_dir, compute_location_data_dir, compute_project_dir,
    compute_projects_root, get_common_prefix, get_config_path, get_project_config_path,
    relative_to_prefix, strip_absolute_prefix,
};

#[test]
fn common_prefix_shared_parent() {
    let paths = vec!["/home/user/project/src/main.rs".to_string(), "/home/user/project/src/lib.rs".to_string()];
    assert_eq!(get_common_prefix(&paths), "/home/user/project/src");
}

#[test]
fn common_prefix_no_common() {
    let paths = vec!["/home/user/project/file.rs".to_string(), "/other/thing/file.rs".to_string()];
    assert!(Path::new(&get_common_prefix(&paths)).components().count() <= 1);
}

#[test]
fn common_prefix_single_path() {
    let paths = vec!["/home/user/file.txt".to_string()];
    assert_eq!(get_common_prefix(&paths), "/home/user");
}

#[test]
fn common_prefix_empty_input() {
    assert_eq!(get_common_prefix(&[]), "");
}

#[test]
fn common_prefix_diverges_at_second_component() {
    let paths = vec!["/home/alice/file.txt".to_string(), "/home/bob/file.txt".to_string()];
    assert_eq!(get_common_prefix(&paths), "/home");
}

#[test]
fn common_prefix_identical_paths() {
    let paths = vec!["/home/user/file.txt".to_string(), "/home/user/file.txt".to_string()];
    assert_eq!(get_common_prefix(&paths), "/home/user");
}

#[test]
fn common_prefix_no_common_is_root() {
    let paths = vec!["/home/user/project/file.rs".to_string(), "/other/thing/file.rs".to_string()];
    assert_eq!(get_common_prefix(&paths), "/");
}

#[test]
fn common_prefix_matches_whole_components_only() {
    let paths = vec!["/home/ann/a.txt".to_string(), "/home/anna/b.txt".to_string()];
    assert_eq!(get_common_prefix(&paths), "/home");
}

#[test]
fn common_prefix_is_prefix_of_every_path() {
    let paths = vec!["/a/b/c/d.txt".to_string(), "/a/b/e.txt".to_string(), "/a/b/c/f/g.txt".to_string()];
    let p = get_common_prefix(&paths);
    assert_eq!(p, "/a/b");
    for q in &paths {
        assert!(Path::new(q).starts_with(&p));
    }
}

#[test]
fn strip_absolute_removes_root_slash() {
    let stripped = strip_absolute_prefix("/home/user/file.txt");
    assert!(!stripped.starts_with('/'));
    assert!(stripped.contains("home"));
}

#[test]
fn strip_absolute_exact() {
    assert_eq!(strip_absolute_prefix("/home/user/file.txt"), "home/user/file.txt");
    assert_eq!(strip_absolute_prefix("rel/x"), "rel/x");
}

#[test]
fn relative_to_prefix_basic() {
    assert_eq!(relative_to_prefix("/home/user/project/main.rs", "/home/user/project"), "main.rs");
}

#[test]
fn relative_to_prefix_empty_prefix_falls_back_to_strip() {
    let result = relative_to_prefix("/home/user/file.txt", "");
    assert!(!result.starts_with('/'));
}

#[test]
fn relative_to_prefix_mismatch_falls_back() {
    let result = relative_to_prefix("/other/path/file.txt", "/home/user");
    assert!(!result.starts_with('/'));
}

#[test]
fn relative_to_prefix_exact_fallbacks() {
    assert_eq!(relative_to_prefix("/home/user/file.txt", ""), "home/user/file.txt");
    assert_eq!(relative_to_prefix("/other/path/file.txt", "/home/user"), "other/path/file.txt");
    assert_eq!(relative_to_prefix("/home/user", "/home/user"), "");
}

#[test]
fn grove_folders_under_home() {
    assert_eq!(compute_grove_dir("/home/u"), "/home/u/.grove");
    assert_eq!(get_config_path("/home/u"), "/home/u/.grove/.grove_config.json");
    assert_eq!(compute_projects_root("/home/u"), "/home/u/.grove/Grove Root");
    assert_eq!(compute_project_dir("/home/u", "proj"), "/home/u/.grove/Grove Root/proj");
    assert_eq!(compute_location_data_dir("/home/u", "proj"), "/home/u/.grove/Grove Root/proj/.location_data");
    assert_eq!(compute_chapter_dir("/home/u", "proj", 3), "/home/u/.grove/Grove Root/proj/Chapter 03");
    assert_eq!(get_project_config_path("/home/u", "proj"), "/home/u/.grove/Grove Root/proj/.grove_project.json");
}
