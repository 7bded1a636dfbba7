//! The menu, project and files screens: what each input line asks for, and
//! the changes those screens make to a project's list of tracked paths.

use vstd::prelude::*;
use crate::chapters::SNAPS_PER_CHAPTER;
use crate::config::Mode;
use crate::lists::{decreasing, number_list, parse_positions, positions_within, sorted_unique_desc};
use crate::menu::{handle_menu_choice, menu_choice, options_view};
use crate::names::{cancel_word, is_cancel};
use crate::text::{
    chars_eq, chars_eq_str, chars_of, decimal, decimal_string, lowercase_of, slice_chars, starts_with,
    string_from, to_lowercase, trim, trim_chars, trimmed, views,
};

verus! {

/// Whether `lower` starts with the characters of `p`; then also the rest, trimmed.
fn strip_word(lower: &[char], p: &str) -> (r: Option<Vec<char>>)
    ensures
        r is Some <==> p@.is_prefix_of(lower@),
        r is Some ==> r->0@ == trim(lower@.skip(p@.len() as int)),
{
    let pc = chars_of(p);
    if starts_with(lower, &pc) {
        let rest = slice_chars(lower, pc.len(), lower.len());
        assert(rest@ =~= lower@.skip(p@.len() as int));
        Some(trim_chars(&rest))
    } else {
        None
    }
}

// ---------------------------------------------------------------- files screen

/// What an input line on the files screen asks for.
#[derive(PartialEq, Eq, Debug)]
pub enum FilesCommand {
    /// `delist N,M` or `2 N,M`: delist the paths at these 0-based positions
    /// (decreasing, distinct; empty when none was picked).
    Delist(Vec<usize>),
    /// A cancel word: leave the screen.
    Back,
    /// Option 1: add files or folders.
    Add,
    /// Option 2 alone: ask which paths to delist.
    DelistPrompt,
    /// Option 3: back to the project screen.
    Menu,
    /// Number and name picked different options.
    Conflict,
    /// Nothing matched.
    Unknown,
}

/// The inline delist argument of a files-screen line, if it is one.
pub open spec fn inline_delist(lower: Seq<char>) -> Option<Seq<char>> {
    if "delist "@.is_prefix_of(lower) {
        Some(trim(lower.skip("delist "@.len() as int)))
    } else if "2 "@.is_prefix_of(lower) {
        Some(trim(lower.skip("2 "@.len() as int)))
    } else {
        None
    }
}

/// The options of the files screen.
pub open spec fn files_options() -> Seq<(Seq<char>, Seq<char>)> {
    seq![("1"@, "add"@), ("2"@, "delist"@), ("3"@, "menu"@)]
}

/// The positions an inline or prompted delist list picks, among `count` paths.
pub open spec fn delist_set(arg: Seq<char>, count: nat) -> Set<usize> {
    positions_within(number_list(arg), count).to_set()
}

fn positions_desc(s: &[char], count: usize) -> (r: Vec<usize>)
    ensures
        decreasing(r@),
        r@.to_set() == delist_set(s@, count as nat),
        forall|k: int| 0 <= k < r.len() ==> r@[k] < count,
{
    let p = parse_positions(s, count);
    let r = sorted_unique_desc(&p);
    assert forall|k: int| 0 <= k < r.len() implies r@[k] < count by {
        assert(r@.to_set().contains(r@[k]));
        assert(p@.contains(r@[k]));
    }
    r
}

/// Reads one line of the files screen, whose project tracks `path_count` paths.
pub fn files_command(input: &str, path_count: usize) -> (r: FilesCommand)
    ensures
        ({
            let lower = lowercase_of(trim(input@));
            if inline_delist(lower) is Some {
                r matches FilesCommand::Delist(v) && decreasing(v@) && (path_count > 0 ==> v@.to_set()
                    == delist_set(inline_delist(lower)->0, path_count as nat)) && (path_count == 0
                    ==> v@.len() == 0)
            } else if cancel_word(input@) {
                r == FilesCommand::Back
            } else {
                match menu_choice(input@, files_options()) {
                    Err(()) => r == FilesCommand::Conflict,
                    Ok(None) => r == FilesCommand::Unknown,
                    Ok(Some(x)) => (x == "1"@ ==> r == FilesCommand::Add) && (x == "2"@ ==> r
                        == FilesCommand::DelistPrompt) && (x == "3"@ ==> r == FilesCommand::Menu),
                }
            }
        }),
        r matches FilesCommand::Delist(v) ==> forall|k: int| 0 <= k < v.len() ==> v@[k] < path_count,
{
    let t = trimmed(input);
    let ls = to_lowercase(t.as_str());
    let lower = chars_of(ls.as_str());
    let inline = match strip_word(&lower, "delist ") {
        Some(a) => Some(a),
        None => strip_word(&lower, "2 "),
    };
    match inline {
        Some(arg) => {
            if path_count > 0 {
                return FilesCommand::Delist(positions_desc(&arg, path_count));
            } else {
                return FilesCommand::Delist(Vec::new());
            }
        },
        None => {},
    }
    if is_cancel(input) {
        return FilesCommand::Back;
    }
    proof {
        reveal_strlit("1");
        reveal_strlit("2");
        reveal_strlit("3");
        assert("1"@[0] == '1' && "2"@[0] == '2' && "3"@[0] == '3');
        assert("1"@ != "2"@ && "1"@ != "3"@ && "2"@ != "3"@);
    }
    let opts: [(&str, &str); 3] = [("1", "add"), ("2", "delist"), ("3", "menu")];
    assert(options_view(opts@) =~= files_options());
    match handle_menu_choice(input, &opts) {
        Ok(Some(x)) => {
            let xc = chars_of(x.as_str());
            if chars_eq_str(&xc, "1") {
                FilesCommand::Add
            } else if chars_eq_str(&xc, "2") {
                FilesCommand::DelistPrompt
            } else if chars_eq_str(&xc, "3") {
                FilesCommand::Menu
            } else {
                FilesCommand::Unknown
            }
        },
        Ok(None) => FilesCommand::Unknown,
        Err(()) => FilesCommand::Conflict,
    }
}

/// Reads the answer to the delist prompt: `None` for a cancel word,
/// otherwise the picked positions among `path_count` paths (decreasing,
/// distinct).
pub fn delist_answer(input: &str, path_count: usize) -> (r: Option<Vec<usize>>)
    ensures
        r is None <==> cancel_word(input@),
        r matches Some(v) ==> decreasing(v@) && v@.to_set() == delist_set(input@, path_count as nat)
            && forall|k: int| 0 <= k < v.len() ==> v@[k] < path_count,
{
    if is_cancel(input) {
        None
    } else {
        let c = chars_of(input);
        Some(positions_desc(&c, path_count))
    }
}

/// What kind of item the user wants to add.
#[derive(Clone, Copy, PartialEq, Eq, Structural, Debug)]
pub enum AddKind {
    Cancel,
    Files,
    Folders,
    Unknown,
}

/// Reads the (lower-cased) answer to "(1)file or (2)directory?".
pub fn add_kind(answer: &str) -> (r: AddKind)
    ensures
        r == AddKind::Cancel <==> cancel_word(answer@),
        !cancel_word(answer@) ==> (r == AddKind::Files <==> (answer@ == "1"@ || answer@ == "f"@
            || answer@ == "file"@ || answer@ == "files"@)),
        !cancel_word(answer@) && r != AddKind::Files ==> (r == AddKind::Folders <==> (answer@ == "2"@
            || answer@ == "d"@ || answer@ == "dir"@ || answer@ == "directory"@ || answer@
            == "directories"@ || answer@ == "folder"@ || answer@ == "folders"@)),
{
    if is_cancel(answer) {
        return AddKind::Cancel;
    }
    let a = chars_of(answer);
    if chars_eq_str(&a, "1") || chars_eq_str(&a, "f") || chars_eq_str(&a, "file") || chars_eq_str(&a, "files") {
        AddKind::Files
    } else if chars_eq_str(&a, "2") || chars_eq_str(&a, "d") || chars_eq_str(&a, "dir")
        || chars_eq_str(&a, "directory") || chars_eq_str(&a, "directories") || chars_eq_str(&a, "folder")
        || chars_eq_str(&a, "folders") {
        AddKind::Folders
    } else {
        AddKind::Unknown
    }
}

/// `paths` with each of `picked` appended, in order, unless already there.
pub open spec fn with_added(paths: Seq<Seq<char>>, picked: Seq<Seq<char>>) -> Seq<Seq<char>>
    decreases picked.len(),
{
    if picked.len() == 0 {
        paths
    } else {
        let before = with_added(paths, picked.drop_last());
        if before.contains(picked.last()) {
            before
        } else {
            before.push(picked.last())
        }
    }
}

fn contains_string(v: &[String], s: &String) -> (r: bool)
    ensures
        r == views(v@).contains(s@),
{
    let sc = chars_of(s.as_str());
    let mut i: usize = 0;
    while i < v.len()
        invariant
            i <= v.len(),
            sc@ == s@,
            forall|k: int| 0 <= k < i ==> v@[k]@ != s@,
        decreases v.len() - i,
    {
        let vi = &v[i];
        assert(vi@ == v@[i as int]@);
        let c = chars_of(vi.as_str());
        assert(c@ == vi@);
        assert(views(v@)[i as int] == v@[i as int]@);
        if chars_eq(&c, &sc) {
            assert(views(v@)[i as int] == s@);
            return true;
        }
        i = i + 1;
    }
    assert forall|k: int| 0 <= k < v.len() implies views(v@)[k] != s@ by {
        assert(views(v@)[k] == v@[k]@);
    }
    false
}

/// Adds picked files or folders to the tracked paths, skipping any that are
/// tracked already.
pub fn add_paths(paths: &mut Vec<String>, picked: &[String])
    ensures
        views(final(paths)@) == with_added(views(old(paths)@), views(picked@)),
{
    let ghost start = views(paths@);
    let mut i: usize = 0;
    while i < picked.len()
        invariant
            i <= picked.len(),
            start == views(old(paths)@),
            views(paths@) == with_added(start, views(picked@).take(i as int)),
        decreases picked.len() - i,
    {
        let ghost pv = views(picked@);
        assert(pv.take(i + 1).drop_last() =~= pv.take(i as int));
        assert(pv.take(i + 1).last() == picked@[i as int]@);
        if !contains_string(paths, &picked[i]) {
            let ghost before = paths@;
            paths.push(picked[i].clone());
            assert(views(paths@) =~= views(before).push(picked@[i as int]@));
        }
        i = i + 1;
    }
    assert(views(picked@).take(picked.len() as int) =~= views(picked@));
}

/// `s` without the items at the positions in `gone`.
pub open spec fn without_positions(s: Seq<Seq<char>>, gone: Set<usize>) -> Seq<Seq<char>>
    decreases s.len(),
{
    if s.len() == 0 {
        s
    } else {
        let rest = without_positions(s.drop_last(), gone);
        if gone.contains((s.len() - 1) as usize) {
            rest
        } else {
            rest.push(s.last())
        }
    }
}

/// Delists the paths at `positions` (distinct, all in range); the order of
/// the other paths is kept.
pub fn remove_positions(paths: &mut Vec<String>, positions: &[usize])
    ensures
        views(final(paths)@) == without_positions(views(old(paths)@), positions@.to_set()),
{
    let ghost orig = views(paths@);
    let ghost gone = positions@.to_set();
    let mut kept: Vec<String> = Vec::new();
    let mut i: usize = 0;
    while i < paths.len()
        invariant
            i <= paths.len(),
            orig == views(paths@),
            gone == positions@.to_set(),
            views(kept@) == without_positions(orig.take(i as int), gone),
        decreases paths.len() - i,
    {
        assert(orig.take(i + 1).drop_last() =~= orig.take(i as int));
        assert(orig.take(i + 1).last() == paths@[i as int]@);
        if !crate::lists::contains_usize(positions, i) {
            let ghost before = kept@;
            kept.push(paths[i].clone());
            assert(views(kept@) =~= views(before).push(paths@[i as int]@));
        }
        i = i + 1;
    }
    assert(orig.take(paths.len() as int) =~= orig);
    *paths = kept;
}


proof fn lemma_with_added(paths: Seq<Seq<char>>, picked: Seq<Seq<char>>)
    requires
        paths.no_duplicates(),
    ensures
        with_added(paths, picked).no_duplicates(),
        paths.is_prefix_of(with_added(paths, picked)),
    decreases picked.len(),
{
    if picked.len() > 0 {
        lemma_with_added(paths, picked.drop_last());
        let before = with_added(paths, picked.drop_last());
        if !before.contains(picked.last()) {
            let after = before.push(picked.last());
            assert forall|i: int, j: int| 0 <= i < j < after.len() implies after[i] != after[j] by {
                if j == before.len() {
                    assert(after[i] == before[i]);
                }
            }
            assert forall|i: int| 0 <= i < paths.len() implies after[i] == paths[i] by {
                assert(after[i] == before[i]);
            }
        }
    }
}

proof fn lemma_without_positions(s: Seq<Seq<char>>, gone: Set<usize>)
    requires
        s.no_duplicates(),
    ensures
        without_positions(s, gone).no_duplicates(),
        forall|x: Seq<char>| #[trigger] without_positions(s, gone).contains(x) ==> s.contains(x),
    decreases s.len(),
{
    if s.len() > 0 {
        let init = s.drop_last();
        assert(init.no_duplicates()) by {
            assert forall|i: int, j: int| 0 <= i < j < init.len() implies init[i] != init[j] by {
                assert(init[i] == s[i] && init[j] == s[j]);
            }
        }
        lemma_without_positions(init, gone);
        let rest = without_positions(init, gone);
        assert forall|x: Seq<char>| #[trigger] without_positions(s, gone).contains(x) implies s.contains(x) by {
            if rest.contains(x) {
                let k = choose|k: int| 0 <= k < init.len() && init[k] == x;
                assert(s[k] == x);
            } else {
                assert(x == s.last());
            }
        }
        if !gone.contains((s.len() - 1) as usize) {
            let after = rest.push(s.last());
            assert(!rest.contains(s.last())) by {
                if rest.contains(s.last()) {
                    let k = choose|k: int| 0 <= k < init.len() && init[k] == s.last();
                    assert(s[k] == s[s.len() - 1]);
                }
            }
            assert forall|i: int, j: int| 0 <= i < j < after.len() implies after[i] != after[j] by {
                if j == rest.len() {
                    assert(after[i] == rest[i]);
                    assert(rest.contains(rest[i]));
                }
            }
        }
    }
}

/// Law: the files screen never lists a path twice. Adding picked items to a
/// list without repeats keeps it without repeats, with the earlier paths
/// first and in their order; delisting keeps it without repeats too.
pub proof fn lemma_tracked_paths_stay_distinct(paths: Seq<Seq<char>>, picked: Seq<Seq<char>>, gone: Set<usize>)
    requires
        paths.no_duplicates(),
    ensures
        with_added(paths, picked).no_duplicates(),
        paths.is_prefix_of(with_added(paths, picked)),
        without_positions(paths, gone).no_duplicates(),
{
    lemma_with_added(paths, picked);
    lemma_without_positions(paths, gone);
}

// -------------------------------------------------------------- project screen

/// What an input line on a project's screen asks for.
#[derive(Clone, Copy, PartialEq, Eq, Structural, Debug)]
pub enum ProjectCommand {
    Save,
    Files,
    Restore,
    /// Open the project's folder.
    OpenFolder,
    /// Back to the main menu.
    Menu,
    /// `labyrinth` or `lab`: toggle the storage mode of future saves.
    ToggleMode,
    /// `dup` or `duplicate`: make a copy of the project without its snapshots.
    Duplicate,
    /// `delete`: delete the project.
    DeleteProject,
    /// Number and name picked different options.
    Conflict,
    /// Nothing matched.
    Unknown,
}

/// The options of a project's screen.
pub open spec fn project_options() -> Seq<(Seq<char>, Seq<char>)> {
    seq![("1"@, "save"@), ("2"@, "files"@), ("3"@, "restore"@), ("4"@, "grove"@), ("5"@, "menu"@)]
}

/// What a line on a project's screen asks for.
pub open spec fn project_command_for(input: Seq<char>) -> ProjectCommand {
    match menu_choice(input, project_options()) {
        Err(()) => ProjectCommand::Conflict,
        Ok(Some(x)) => if x == "1"@ {
            ProjectCommand::Save
        } else if x == "2"@ {
            ProjectCommand::Files
        } else if x == "3"@ {
            ProjectCommand::Restore
        } else if x == "4"@ {
            ProjectCommand::OpenFolder
        } else {
            ProjectCommand::Menu
        },
        Ok(None) => {
            let lower = lowercase_of(trim(input));
            if lower == "labyrinth"@ || lower == "lab"@ {
                ProjectCommand::ToggleMode
            } else if lower == "dup"@ || lower == "duplicate"@ {
                ProjectCommand::Duplicate
            } else if lower == "delete"@ {
                ProjectCommand::DeleteProject
            } else {
                ProjectCommand::Unknown
            }
        },
    }
}

/// Reads one line of a project's screen.
pub fn project_command(input: &str) -> (r: ProjectCommand)
    ensures
        r == project_command_for(input@),
{
    let opts: [(&str, &str); 5] = [("1", "save"), ("2", "files"), ("3", "restore"), ("4", "grove"), ("5", "menu")];
    assert(options_view(opts@) =~= project_options());
    match handle_menu_choice(input, &opts) {
        Ok(Some(x)) => {
            let xc = chars_of(x.as_str());
            if chars_eq_str(&xc, "1") {
                ProjectCommand::Save
            } else if chars_eq_str(&xc, "2") {
                ProjectCommand::Files
            } else if chars_eq_str(&xc, "3") {
                ProjectCommand::Restore
            } else if chars_eq_str(&xc, "4") {
                ProjectCommand::OpenFolder
            } else {
                ProjectCommand::Menu
            }
        },
        Ok(None) => {
            let t = trimmed(input);
            let ls = to_lowercase(t.as_str());
            let lower = chars_of(ls.as_str());
            if chars_eq_str(&lower, "labyrinth") || chars_eq_str(&lower, "lab") {
                ProjectCommand::ToggleMode
            } else if chars_eq_str(&lower, "dup") || chars_eq_str(&lower, "duplicate") {
                ProjectCommand::Duplicate
            } else if chars_eq_str(&lower, "delete") {
                ProjectCommand::DeleteProject
            } else {
                ProjectCommand::Unknown
            }
        },
        Err(()) => ProjectCommand::Conflict,
    }
}

/// The line above a project's menu that shows its state, if any: near the
/// end of a chapter the save count (with the chapter past chapter 1 and the
/// labyrinth mode), otherwise the labyrinth mode alone.
pub open spec fn status_line(actual_saves: nat, current_chapter: nat, mode: Mode) -> Option<Seq<char>> {
    if actual_saves + 3 > SNAPS_PER_CHAPTER {
        let mode_part = if mode == Mode::Labyrinth { "Mode: Labyrinth  |  "@ } else { Seq::empty() };
        let chapter_part = if current_chapter > 1 {
            "Chapter "@ + decimal(current_chapter) + "  |  "@
        } else {
            Seq::empty()
        };
        Some(mode_part + chapter_part + "Saves: "@ + decimal(actual_saves) + "/"@ + decimal(
            SNAPS_PER_CHAPTER as nat,
        ))
    } else if mode == Mode::Labyrinth {
        Some("Mode: Labyrinth"@)
    } else {
        None
    }
}

/// The status line of a project's screen.
pub fn project_status_line(actual_saves: usize, current_chapter: usize, mode: Mode) -> (r: Option<String>)
    requires
        actual_saves + 3 <= usize::MAX,
    ensures
        r is Some <==> status_line(actual_saves as nat, current_chapter as nat, mode) is Some,
        r is Some ==> r->0@ == status_line(actual_saves as nat, current_chapter as nat, mode)->0,
{
    if actual_saves + 3 > SNAPS_PER_CHAPTER {
        let mut line = String::new();
        if mode == Mode::Labyrinth {
            line.append("Mode: Labyrinth  |  ");
        }
        if current_chapter > 1 {
            line.append("Chapter ");
            let c = decimal_string(current_chapter);
            line.append(c.as_str());
            line.append("  |  ");
        }
        line.append("Saves: ");
        let a = decimal_string(actual_saves);
        line.append(a.as_str());
        line.append("/");
        let m = decimal_string(SNAPS_PER_CHAPTER);
        line.append(m.as_str());
        proof {
            let mode_part = if mode == Mode::Labyrinth { "Mode: Labyrinth  |  "@ } else { Seq::<char>::empty() };
            let chapter_part = if current_chapter > 1 {
                "Chapter "@ + decimal(current_chapter as nat) + "  |  "@
            } else {
                Seq::<char>::empty()
            };
            assert(line@ =~= mode_part + chapter_part + "Saves: "@ + decimal(actual_saves as nat) + "/"@
                + decimal(SNAPS_PER_CHAPTER as nat));
        }
        Some(line)
    } else if mode == Mode::Labyrinth {
        Some(String::from_str("Mode: Labyrinth"))
    } else {
        None
    }
}

// ----------------------------------------------------------------- main menu

/// What an input line on the main menu asks for.
#[derive(PartialEq, Eq, Debug)]
pub enum MenuCommand {
    /// Create a project, with the name typed after `create` if there was one.
    Create(Option<String>),
    /// Open the folder that holds all projects.
    OpenRoot,
    /// List the projects to pick one.
    ListProjects,
    /// Quit.
    Exit,
    /// Open the project with this name (case-insensitively), if it exists.
    Open(String),
    /// Number and name picked different options.
    Conflict,
    /// Nothing matched.
    Unknown,
    /// An empty line.
    Nothing,
}

/// A menu command as a plain value.
pub enum MenuAction {
    Create(Option<Seq<char>>),
    OpenRoot,
    ListProjects,
    Exit,
    Open(Seq<char>),
    Conflict,
    Unknown,
    Nothing,
}

impl MenuCommand {
    /// The command as a plain value.
    pub open spec fn action(&self) -> MenuAction {
        match self {
            MenuCommand::Create(None) => MenuAction::Create(None),
            MenuCommand::Create(Some(n)) => MenuAction::Create(Some(n@)),
            MenuCommand::OpenRoot => MenuAction::OpenRoot,
            MenuCommand::ListProjects => MenuAction::ListProjects,
            MenuCommand::Exit => MenuAction::Exit,
            MenuCommand::Open(n) => MenuAction::Open(n@),
            MenuCommand::Conflict => MenuAction::Conflict,
            MenuCommand::Unknown => MenuAction::Unknown,
            MenuCommand::Nothing => MenuAction::Nothing,
        }
    }
}

/// The options of the main menu.
pub open spec fn menu_options() -> Seq<(Seq<char>, Seq<char>)> {
    seq![("1"@, "create"@), ("2"@, "grove root"@), ("3"@, "open project"@), ("4"@, "exit"@)]
}

/// The name typed after a leading word `w` (compared case-insensitively):
/// the characters after the word, trimmed.
pub open spec fn after_word(trimmed: Seq<char>, w: Seq<char>) -> Option<Seq<char>> {
    if w.is_prefix_of(lowercase_of(trimmed)) {
        Some(
            if w.len() <= trimmed.len() {
                trim(trimmed.skip(w.len() as int))
            } else {
                Seq::empty()
            },
        )
    } else {
        None
    }
}

/// What a line on the main menu asks for.
pub open spec fn menu_action(input: Seq<char>) -> MenuAction {
    let t = trim(input);
    match menu_choice(input, menu_options()) {
        Err(()) => MenuAction::Conflict,
        Ok(Some(x)) => if x == "1"@ {
            match after_word(t, "create"@) {
                Some(a) => if a.len() > 0 {
                    MenuAction::Create(Some(a))
                } else {
                    MenuAction::Create(None)
                },
                None => MenuAction::Create(None),
            }
        } else if x == "2"@ {
            MenuAction::OpenRoot
        } else if x == "3"@ {
            MenuAction::ListProjects
        } else {
            MenuAction::Exit
        },
        Ok(None) => {
            let lower = lowercase_of(t);
            if lower == "grove"@ {
                MenuAction::OpenRoot
            } else {
                let potential = match after_word(t, "open "@) {
                    Some(a) => a,
                    None => t,
                };
                if potential.len() > 0 {
                    MenuAction::Open(potential)
                } else if t.len() > 0 {
                    MenuAction::Unknown
                } else {
                    MenuAction::Nothing
                }
            }
        },
    }
}

/// The text after a leading word, when the lower-cased text starts with it.
fn after_word_exec(t: &[char], w: &str) -> (r: Option<Vec<char>>)
    ensures
        r is Some <==> after_word(t@, w@) is Some,
        r is Some ==> r->0@ == after_word(t@, w@)->0,
{
    let ts = string_from(t);
    let ls = to_lowercase(ts.as_str());
    let lower = chars_of(ls.as_str());
    let wc = chars_of(w);
    if starts_with(&lower, &wc) {
        if wc.len() <= t.len() {
            let rest = slice_chars(t, wc.len(), t.len());
            assert(rest@ =~= t@.skip(w@.len() as int));
            Some(trim_chars(&rest))
        } else {
            let e: Vec<char> = Vec::new();
            Some(e)
        }
    } else {
        None
    }
}

/// Reads one line of the main menu.
pub fn menu_command(input: &str) -> (r: MenuCommand)
    ensures
        r.action() == menu_action(input@),
{
    proof {
        reveal_strlit("1");
        reveal_strlit("2");
        reveal_strlit("3");
        reveal_strlit("4");
        assert("1"@[0] == '1' && "2"@[0] == '2' && "3"@[0] == '3' && "4"@[0] == '4');
    }
    let opts: [(&str, &str); 4] = [("1", "create"), ("2", "grove root"), ("3", "open project"), ("4", "exit")];
    assert(options_view(opts@) =~= menu_options());
    let t = trimmed(input);
    let tc = chars_of(t.as_str());
    match handle_menu_choice(input, &opts) {
        Ok(Some(x)) => {
            let xc = chars_of(x.as_str());
            if chars_eq_str(&xc, "1") {
                match after_word_exec(&tc, "create") {
                    Some(a) => if a.len() > 0 {
                        MenuCommand::Create(Some(string_from(&a)))
                    } else {
                        MenuCommand::Create(None)
                    },
                    None => MenuCommand::Create(None),
                }
            } else if chars_eq_str(&xc, "2") {
                MenuCommand::OpenRoot
            } else if chars_eq_str(&xc, "3") {
                MenuCommand::ListProjects
            } else {
                MenuCommand::Exit
            }
        },
        Ok(None) => {
            let ls = to_lowercase(t.as_str());
            let lower = chars_of(ls.as_str());
            if chars_eq_str(&lower, "grove") {
                return MenuCommand::OpenRoot;
            }
            let potential = match after_word_exec(&tc, "open ") {
                Some(a) => a,
                None => tc.clone(),
            };
            if potential.len() > 0 {
                MenuCommand::Open(string_from(&potential))
            } else if tc.len() > 0 {
                MenuCommand::Unknown
            } else {
                MenuCommand::Nothing
            }
        },
        Err(()) => MenuCommand::Conflict,
    }
}

/// Finds the project folder a typed name means, ignoring letter case.
pub fn find_project(names: &[String], wanted: &str) -> (r: Option<usize>)
    ensures
        r is None ==> wanted@.len() == 0 || forall|i: int|
            0 <= i < names.len() ==> lowercase_of(#[trigger] names@[i]@) != lowercase_of(wanted@),
        r is Some ==> wanted@.len() > 0 && r->0 < names.len() && lowercase_of(names@[r->0 as int]@)
            == lowercase_of(wanted@) && forall|j: int|
            0 <= j < r->0 ==> lowercase_of(#[trigger] names@[j]@) != lowercase_of(wanted@),
{
    if wanted.unicode_len() == 0 {
        return None;
    }
    let wl = to_lowercase(wanted);
    let wc = chars_of(wl.as_str());
    let mut i: usize = 0;
    while i < names.len()
        invariant
            i <= names.len(),
            wc@ == lowercase_of(wanted@),
            wanted@.len() > 0,
            forall|j: int| 0 <= j < i ==> lowercase_of(#[trigger] names@[j]@) != lowercase_of(wanted@),
        decreases names.len() - i,
    {
        let nl = to_lowercase(names[i].as_str());
        let nc = chars_of(nl.as_str());
        if chars_eq(&nc, &wc) {
            return Some(i);
        }
        i = i + 1;
    }
    None
}


/// The options of the project list: the 1-based number and the lower-cased
/// name of each project.
pub open spec fn project_list_options(names: Seq<Seq<char>>) -> Seq<(Seq<char>, Seq<char>)> {
    Seq::new(names.len(), |i: int| (decimal((i + 1) as nat), lowercase_of(names[i])))
}

/// Reads the answer to the project list: the 0-based position of the project
/// picked by number or name, `Ok(None)` when nothing matches, `Err` when the
/// number and the name typed disagree.
pub fn pick_project(input: &str, names: &[String]) -> (r: Result<Option<usize>, ()>)
    requires
        names.len() < usize::MAX,
    ensures
        match menu_choice(input@, project_list_options(views(names@))) {
            Err(()) => r is Err,
            Ok(None) => r matches Ok(None),
            Ok(Some(x)) => r matches Ok(Some(i)) && i < names.len() && x == decimal((i + 1) as nat),
        },
{
    let mut nums: Vec<String> = Vec::new();
    let mut lows: Vec<String> = Vec::new();
    let mut i: usize = 0;
    while i < names.len()
        invariant
            i <= names.len() < usize::MAX,
            nums.len() == i,
            lows.len() == i,
            forall|j: int| 0 <= j < i ==> (#[trigger] nums@[j])@ == decimal((j + 1) as nat),
            forall|j: int| 0 <= j < i ==> (#[trigger] lows@[j])@ == lowercase_of(names@[j]@),
        decreases names.len() - i,
    {
        nums.push(decimal_string(i + 1));
        lows.push(to_lowercase(names[i].as_str()));
        i = i + 1;
    }
    let mut opts: Vec<(&str, &str)> = Vec::new();
    let mut k: usize = 0;
    while k < names.len()
        invariant
            k <= names.len(),
            nums.len() == names.len(),
            lows.len() == names.len(),
            opts.len() == k,
            forall|j: int| 0 <= j < k ==> (#[trigger] opts@[j]).0@ == nums@[j]@ && opts@[j].1@ == lows@[j]@,
        decreases names.len() - k,
    {
        opts.push((nums[k].as_str(), lows[k].as_str()));
        k = k + 1;
    }
    let ghost ov = project_list_options(views(names@));
    assert(options_view(opts@) =~= ov) by {
        assert forall|j: int| 0 <= j < ov.len() implies options_view(opts@)[j] == ov[j] by {
            assert(views(names@)[j] == names@[j]@);
        }
    }
    match handle_menu_choice(input, opts.as_slice()) {
        Ok(Some(x)) => {
            proof {
                lemma_menu_choice_is_option(input@, ov);
            }
            let xc = chars_of(x.as_str());
            let n = crate::text::parse_usize_chars(&xc);
            proof {
                let j = choose|j: int| 0 <= j < ov.len() && #[trigger] ov[j].0 == x@;
                crate::text::lemma_parse_decimal((j + 1) as usize);
            }
            match n {
                Some(v) => {
                    if v >= 1 && v <= names.len() {
                        Ok(Some(v - 1))
                    } else {
                        Ok(None)
                    }
                },
                None => Ok(None),
            }
        },
        Ok(None) => Ok(None),
        Err(()) => Err(()),
    }
}

proof fn lemma_find_option_is_option(opts: Seq<(Seq<char>, Seq<char>)>, s: Seq<char>)
    ensures
        crate::menu::find_option(opts, s) matches Some(x) ==> exists|j: int|
            0 <= j < opts.len() && #[trigger] opts[j].0 == x,
{
    lemma_find_by_name_is_option(opts, s);
}

/// Law: what a menu input picks is always the number of one of the options.
pub proof fn lemma_menu_choice_is_option(input: Seq<char>, opts: Seq<(Seq<char>, Seq<char>)>)
    ensures
        menu_choice(input, opts) matches Ok(Some(x)) ==> exists|j: int|
            0 <= j < opts.len() && #[trigger] opts[j].0 == x,
{
    let lower = lowercase_of(trim(input));
    let i = crate::names::first_index(lower, ' ');
    lemma_find_option_is_option(opts, lower);
    lemma_find_option_is_option(opts, lower.take(i as int));
    lemma_find_option_is_option(opts, lower.skip(i as int + 1));
}

proof fn lemma_find_by_name_is_option(opts: Seq<(Seq<char>, Seq<char>)>, s: Seq<char>)
    ensures
        crate::menu::find_by_name(opts, s) matches Some(x) ==> exists|j: int|
            0 <= j < opts.len() && #[trigger] opts[j].0 == x,
    decreases opts.len(),
{
    if opts.len() > 0 && opts[0].1 != s {
        lemma_find_by_name_is_option(opts.drop_first(), s);
        if crate::menu::find_by_name(opts, s) is Some {
            let x = crate::menu::find_by_name(opts, s)->0;
            let j = choose|j: int| 0 <= j < opts.drop_first().len() && #[trigger] opts.drop_first()[j].0 == x;
            assert(opts[j + 1].0 == x);
        }
    } else if opts.len() > 0 {
        assert(opts[0].0 == opts[0].0);
    }
}


/// The command Grove was started with.
#[derive(Clone, Copy, PartialEq, Eq, Structural, Debug)]
pub enum CliCommand {
    Create,
    Save,
    Grove,
    Restore,
    Unknown,
}

/// Reads the first command-line argument, in any letter case.
pub fn cli_command(arg: &str) -> (r: CliCommand)
    ensures
        lowercase_of(arg@) == "create"@ ==> r == CliCommand::Create,
        lowercase_of(arg@) == "save"@ ==> r == CliCommand::Save,
        lowercase_of(arg@) == "grove"@ ==> r == CliCommand::Grove,
        lowercase_of(arg@) == "restore"@ ==> r == CliCommand::Restore,
        r == CliCommand::Unknown <==> (lowercase_of(arg@) != "create"@ && lowercase_of(arg@) != "save"@
            && lowercase_of(arg@) != "grove"@ && lowercase_of(arg@) != "restore"@),
{
    proof {
        reveal_strlit("create");
        reveal_strlit("save");
        reveal_strlit("grove");
        reveal_strlit("restore");
        assert("create"@[0] != "save"@[0] && "create"@[0] != "grove"@[0]);
        assert("create"@[0] != "restore"@[0] && "save"@[0] != "grove"@[0]);
        assert("save"@[0] != "restore"@[0] && "grove"@[0] != "restore"@[0]);
    }
    let l = to_lowercase(arg);
    let c = chars_of(l.as_str());
    if chars_eq_str(&c, "create") {
        CliCommand::Create
    } else if chars_eq_str(&c, "save") {
        CliCommand::Save
    } else if chars_eq_str(&c, "grove") {
        CliCommand::Grove
    } else if chars_eq_str(&c, "restore") {
        CliCommand::Restore
    } else {
        CliCommand::Unknown
    }
}

/// Whether the answer to a failed file operation's "1. Try again / 2. Skip"
/// skips it (`2`, around whitespace); anything else tries again.
pub fn skips_retry(answer: &str) -> (r: bool)
    ensures
        r == (trim(answer@) == "2"@),
{
    let t = trimmed(answer);
    let c = chars_of(t.as_str());
    chars_eq_str(&c, "2")
}

} // verus!
