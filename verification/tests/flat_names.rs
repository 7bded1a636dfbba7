use grove::flat::{flat_stored_name, NameCounts};
use grove::plans::{flat_conversion_plan, flat_snapshot_plan, labyrinth_plan};

fn pair(a: &str, b: &str) -> (String, String) {
    (a.to_string(), b.to_string())
}

#[test]
fn flat_name_no_collision() {
    let mut counts = NameCounts::new();
    assert_eq!(flat_stored_name("notes.txt", "notes.txt", &mut counts), "notes.txt");
}

#[test]
fn flat_name_collision_increments() {
    let mut counts = NameCounts::new();
    let src = "notes.txt";
    flat_stored_name("notes.txt", src, &mut counts);
    assert_eq!(flat_stored_name("notes.txt", src, &mut counts), "notes_2.txt");
    assert_eq!(flat_stored_name("notes.txt", src, &mut counts), "notes_3.txt");
}

#[test]
fn flat_name_no_extension() {
    let mut counts = NameCounts::new();
    let src = "Makefile";
    flat_stored_name("Makefile", src, &mut counts);
    assert_eq!(flat_stored_name("Makefile", src, &mut counts), "Makefile_2");
}

#[test]
fn flat_name_different_files_dont_collide() {
    let mut counts = NameCounts::new();
    assert_eq!(flat_stored_name("a.txt", "a.txt", &mut counts), "a.txt");
    assert_eq!(flat_stored_name("b.txt", "b.txt", &mut counts), "b.txt");
}

#[test]
fn flat_name_collision_many() {
    let mut counts = NameCounts::new();
    let src = "file.rs";
    for _ in 0..5 {
        flat_stored_name("file.rs", src, &mut counts);
    }
    assert_eq!(flat_stored_name("file.rs", src, &mut counts), "file_6.rs");
}

#[test]
fn flat_name_renamed_after_source_path() {
    let mut counts = NameCounts::new();
    assert_eq!(flat_stored_name("main.rs", "/a/main.rs", &mut counts), "main.rs");
    assert_eq!(flat_stored_name("main.rs", "/b/main.rs", &mut counts), "main_2.rs");
    assert_eq!(flat_stored_name("archive.tar.gz", "/x/archive.tar.gz", &mut counts), "archive.tar.gz");
    assert_eq!(flat_stored_name("archive.tar.gz", "/y/archive.tar.gz", &mut counts), "archive.tar_2.gz");
}

#[test]
fn flat_name_renamed_never_equals_original() {
    let mut counts = NameCounts::new();
    for name in ["a", "a.b", ".hidden", "x.y.z"] {
        let first = flat_stored_name(name, name, &mut counts);
        let second = flat_stored_name(name, name, &mut counts);
        assert_eq!(first, name);
        assert_ne!(second, name);
    }
}

#[test]
fn flat_plan_numbers_repeated_names() {
    let paths = vec!["/p/a/notes.txt".to_string(), "/p/b/notes.txt".to_string(), "/p/c.txt".to_string()];
    let plan = flat_snapshot_plan(&paths, &[true, true, true]).unwrap();
    assert_eq!(
        plan,
        vec![
            pair("notes.txt", "/p/a/notes.txt"),
            pair("notes_2.txt", "/p/b/notes.txt"),
            pair("c.txt", "/p/c.txt"),
        ]
    );
}

#[test]
fn flat_plan_skips_missing_items() {
    let paths = vec!["/p/a/notes.txt".to_string(), "/p/b/notes.txt".to_string()];
    let plan = flat_snapshot_plan(&paths, &[false, true]).unwrap();
    assert_eq!(plan, vec![pair("notes.txt", "/p/b/notes.txt")]);
}

#[test]
fn flat_plan_refuses_path_without_file_name() {
    let paths = vec!["/".to_string(), "/p/a.txt".to_string()];
    assert_eq!(flat_snapshot_plan(&paths, &[true, true]), None);
    assert!(flat_snapshot_plan(&paths, &[false, true]).is_some());
}

#[test]
fn labyrinth_plan_relative_to_shared_folder() {
    let originals = vec!["/home/u/p/src/main.rs".to_string(), "/home/u/p/README.md".to_string()];
    let plan = labyrinth_plan(&originals, &[true, true]);
    assert_eq!(
        plan,
        vec![pair("src/main.rs", "/home/u/p/src/main.rs"), pair("README.md", "/home/u/p/README.md")]
    );
}

#[test]
fn labyrinth_plan_single_item_and_missing() {
    let originals = vec!["/home/u/notes.txt".to_string()];
    assert_eq!(labyrinth_plan(&originals, &[true]), vec![pair("notes.txt", "/home/u/notes.txt")]);
    assert_eq!(labyrinth_plan(&originals, &[false]), vec![]);
}

#[test]
fn flat_conversion_names_after_stored_files() {
    let entries = vec![pair("a/notes.txt", "/p/a/notes.txt"), pair("b/notes.txt", "/p/b/notes.txt")];
    let plan = flat_conversion_plan("/snap/03", &entries, &[true, true]).unwrap();
    assert_eq!(plan, vec![pair("notes.txt", "/p/a/notes.txt"), pair("notes_2.txt", "/p/b/notes.txt")]);
}

#[test]
fn flat_conversion_refuses_original_without_name() {
    let entries = vec![pair("x", "/")];
    assert_eq!(flat_conversion_plan("/snap/03", &entries, &[true]), None);
    assert_eq!(flat_conversion_plan("/snap/03", &entries, &[false]), Some(vec![]));
}

#[test]
fn flat_name_skips_taken_copy_names() {
    let mut counts = NameCounts::new();
    assert_eq!(flat_stored_name("a.txt", "/x/a.txt", &mut counts), "a.txt");
    assert_eq!(flat_stored_name("a.txt", "/y/a.txt", &mut counts), "a_2.txt");
    assert_eq!(flat_stored_name("a_2.txt", "/z/a_2.txt", &mut counts), "a_2_1.txt");

    let mut counts = NameCounts::new();
    assert_eq!(flat_stored_name("a_2.txt", "/z/a_2.txt", &mut counts), "a_2.txt");
    assert_eq!(flat_stored_name("a.txt", "/x/a.txt", &mut counts), "a.txt");
    assert_eq!(flat_stored_name("a.txt", "/y/a.txt", &mut counts), "a_3.txt");
}

#[test]
fn flat_plan_never_repeats_a_stored_name() {
    let paths = vec!["/x/a.txt".to_string(), "/y/a.txt".to_string(), "/z/a_2.txt".to_string()];
    let plan = flat_snapshot_plan(&paths, &[true, true, true]).unwrap();
    assert_eq!(
        plan,
        vec![pair("a.txt", "/x/a.txt"), pair("a_2.txt", "/y/a.txt"), pair("a_2_1.txt", "/z/a_2.txt")]
    );
}

#[test]
fn flat_conversion_never_repeats_a_stored_name() {
    let entries = vec![
        pair("a/notes.txt", "/p/a/notes.txt"),
        pair("b/notes.txt", "/p/b/notes.txt"),
        pair("c/notes_2.txt", "/p/c/notes_2.txt"),
    ];
    let plan = flat_conversion_plan("/snap/03", &entries, &[true, true, true]).unwrap();
    assert_eq!(
        plan,
        vec![
            pair("notes.txt", "/p/a/notes.txt"),
            pair("notes_2.txt", "/p/b/notes.txt"),
            pair("notes_2_1.txt", "/p/c/notes_2.txt"),
        ]
    );
}
