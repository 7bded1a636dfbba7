use grove::setup::{
    desktop_entry, em, emoji_supported_unix, emoji_supported_windows, export_line, install_binary,
    is_grove_root_entry, mac_launcher_script, profile_mentions_dir, profile_without_path, self_delete_command,
    shell_config_path, split_chars, windows_path_addition, windows_path_removal, PathAddition,
};

fn some(s: &str) -> Option<String> {
    Some(s.to_string())
}

#[test]
fn emoji_on_unix_terminals() {
    assert!(emoji_supported_unix(&some("vscode"), &None, &None, &[]));
    assert!(emoji_supported_unix(&some("iTerm.app"), &None, &None, &[]));
    assert!(emoji_supported_unix(&None, &some("xterm-kitty"), &None, &[]));
    assert!(emoji_supported_unix(&None, &None, &some("TrueColor"), &[]));
    assert!(emoji_supported_unix(&None, &None, &None, &[None, some("en_US.utf8")]));
    assert!(!emoji_supported_unix(&some("Apple_Terminal"), &some("xterm"), &some("8bit"), &[some("C"), None]));
}

#[test]
fn emoji_on_windows_terminals() {
    assert!(emoji_supported_windows(true, &None, &None));
    assert!(emoji_supported_windows(false, &some("WezTerm"), &None));
    assert!(emoji_supported_windows(false, &None, &some("ON")));
    assert!(!emoji_supported_windows(false, &some("cmd"), &some("OFF")));
    assert_eq!(em(true, "🌳", "*"), "🌳");
    assert_eq!(em(false, "🌳", "*"), "*");
}

#[test]
fn shell_profile_locations() {
    assert_eq!(shell_config_path("/home/u", "/bin/zsh", None, false), some("/home/u/.zshrc"));
    assert_eq!(shell_config_path("/home/u", "/bin/zsh", Some("/cfg"), false), some("/cfg/.zshrc"));
    assert_eq!(shell_config_path("/home/u", "/usr/bin/fish", None, false), None);
    assert_eq!(shell_config_path("/Users/u", "/bin/bash", None, true), some("/Users/u/.bash_profile"));
    assert_eq!(shell_config_path("/home/u", "/bin/bash", None, false), some("/home/u/.profile"));
}

#[test]
fn profile_path_lines() {
    let dir = "/home/u/.grove/bin";
    let line = export_line(dir);
    assert_eq!(line, "\nexport PATH=\"/home/u/.grove/bin:$PATH\"\n");
    let profile = format!("alias ll='ls -l'{}", line);
    assert!(profile_mentions_dir("export PATH=\"$PATH:/home/u/.grove/bin\"", dir));
    assert!(!profile_mentions_dir(&profile, dir));
    assert!(!profile_mentions_dir("alias ll='ls -l'\n", dir));
    assert_eq!(profile_without_path(&profile, dir), some("alias ll='ls -l'\n"));
    assert_eq!(profile_without_path("a\nb", dir), None);
    assert_eq!(profile_without_path("a\r\nexport X=/home/u/.grove/bin\r\nb", dir), some("a\nb"));
}

#[test]
fn windows_path_add_and_remove() {
    let dir = r"C:\Users\u\.grove\bin";
    assert_eq!(windows_path_addition("", dir), PathAddition::Updated(dir.to_string()));
    assert_eq!(
        windows_path_addition(r"C:\Windows;C:\Tools", dir),
        PathAddition::Updated(format!(r"C:\Windows;C:\Tools;{}", dir))
    );
    assert_eq!(windows_path_addition(r"C:\Windows;", dir), PathAddition::Updated(format!(r"C:\Windows;{}", dir)));
    assert_eq!(windows_path_addition(r"c:\users\U\.GROVE\bin;C:\Windows", dir), PathAddition::AlreadyPresent);
    let long = "x".repeat(32000);
    assert_eq!(windows_path_addition(&long, dir), PathAddition::TooLong);
    assert_eq!(windows_path_removal(&format!(r"C:\Windows;{};C:\Tools", dir), dir), some(r"C:\Windows;C:\Tools"));
    assert_eq!(windows_path_removal(r"C:\Windows", dir), None);
}

#[test]
fn windows_path_add_then_remove_restores() {
    let dir = r"C:\g\bin";
    let before = r"C:\Windows;C:\Tools";
    match windows_path_addition(before, dir) {
        PathAddition::Updated(v) => {
            assert_eq!(windows_path_addition(&v, dir), PathAddition::AlreadyPresent);
            assert_eq!(windows_path_removal(&v, dir), some(before));
        }
        other => panic!("unexpected {:?}", other),
    }
}

#[test]
fn windows_path_trailing_separator_not_restored() {
    let dir = r"C:\g\bin";
    let before = r"C:\Windows;";
    match windows_path_addition(before, dir) {
        PathAddition::Updated(v) => assert_eq!(windows_path_removal(&v, dir), some(r"C:\Windows")),
        other => panic!("unexpected {:?}", other),
    }
}

#[test]
fn splitting_at_separators() {
    let s: Vec<char> = "a::b:".chars().collect();
    let parts: Vec<String> = split_chars(&s, ':').iter().map(|p| p.iter().collect()).collect();
    assert_eq!(parts, vec!["a", "", "b", ""]);
}

#[test]
fn install_locations_and_scripts() {
    let t = install_binary("/home/u/.grove/bin", "grove");
    assert_eq!(t.path, "/home/u/.grove/bin/grove");
    assert_eq!(t.temp, "/home/u/.grove/bin/grove.tmp");
    assert!(is_grove_root_entry("Grove Root"));
    assert!(!is_grove_root_entry("bin"));
    assert_eq!(
        desktop_entry("/b/grove"),
        "[Desktop Entry]\nName=Grove\nExec=/b/grove\nIcon=grove\nType=Application\nCategories=Utility;\nTerminal=true\n"
    );
    assert_eq!(
        mac_launcher_script("/a \"b\"/grove"),
        "#!/bin/bash\nosascript <<'APPLESCRIPT'\ntell application \"Terminal\" to do script \"/a \\\"b\\\"/grove\"\nAPPLESCRIPT\n"
    );
    assert_eq!(self_delete_command(r"C:\t\u.exe"), "ping 127.0.0.1 -n 3 >nul & del /f /q \"C:\\t\\u.exe\"");
}
