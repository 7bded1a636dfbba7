//! The restore screen: what each input line asks for. The screen lists the
//! snapshots of one chapter; it can switch into a convert or a delete
//! sub-mode, and in a project with chapters it can show another chapter.

use vstd::prelude::*;
use crate::config::Mode;
use crate::lists::{decreasing, number_list, parse_positions, positions_within, sorted_unique_desc};
use crate::names::{del_arg, parse_del_arg};
use crate::text::{
    chars_eq_str, chars_of, lowercase_of, parse_usize, parse_usize_chars, slice_chars, starts_with,
    to_lowercase, trim, trim_chars, trimmed, decimal, decimal2, decimal_string, decimal2_string,
};

verus! {

/// What the restore screen is showing when a line is read.
#[derive(Clone, Copy, PartialEq, Eq, Structural, Debug)]
pub struct RestoreState {
    /// In the convert sub-mode: a number converts that snapshot.
    pub in_convert_mode: bool,
    /// In the delete sub-mode: a list of numbers deletes those snapshots.
    pub in_delete_mode: bool,
    /// The project has chapters.
    pub in_chapter_mode: bool,
    /// How many snapshots are listed.
    pub snapshot_count: usize,
}

/// What an input line on the restore screen asks for.
#[derive(PartialEq, Eq, Debug)]
pub enum RestoreCommand {
    /// Blank line in a sub-mode: back to the plain restore screen.
    LeaveSubMode,
    /// Blank, `cancel` or `back`: leave the restore screen.
    Exit,
    /// `del` or `delete` alone: switch to the delete sub-mode.
    EnterDeleteMode,
    /// Delete the snapshots at these (0-based, decreasing, distinct) positions.
    Delete(Vec<usize>),
    /// `convert N` for a listed N: convert the snapshot at this 0-based position.
    Convert(usize),
    /// `convert` followed by something that is no listed number: nothing happens.
    Ignore,
    /// `convert` alone: switch to the convert sub-mode.
    EnterConvertMode,
    /// `chapters`: show the chapter list.
    ShowChapters,
    /// `chapter N` for an existing chapter: show it.
    ViewChapter(usize),
    /// `chapter N` for a chapter that does not exist.
    ChapterNotFound(usize),
    /// A listed number: restore (or, in the convert sub-mode, convert) the
    /// snapshot at this 0-based position.
    Pick(usize),
    /// Nothing matched.
    Unknown,
}

/// A restore command as a plain value.
pub enum RestoreAction {
    LeaveSubMode,
    Exit,
    EnterDeleteMode,
    Delete(Set<usize>),
    Convert(usize),
    Ignore,
    EnterConvertMode,
    ShowChapters,
    ViewChapter(usize),
    ChapterNotFound(usize),
    Pick(usize),
    Unknown,
}

impl RestoreCommand {
    /// The command as a plain value (a deletion by the set of its positions).
    pub open spec fn action(&self) -> RestoreAction {
        match self {
            RestoreCommand::LeaveSubMode => RestoreAction::LeaveSubMode,
            RestoreCommand::Exit => RestoreAction::Exit,
            RestoreCommand::EnterDeleteMode => RestoreAction::EnterDeleteMode,
            RestoreCommand::Delete(v) => RestoreAction::Delete(v@.to_set()),
            RestoreCommand::Convert(i) => RestoreAction::Convert(*i),
            RestoreCommand::Ignore => RestoreAction::Ignore,
            RestoreCommand::EnterConvertMode => RestoreAction::EnterConvertMode,
            RestoreCommand::ShowChapters => RestoreAction::ShowChapters,
            RestoreCommand::ViewChapter(n) => RestoreAction::ViewChapter(*n),
            RestoreCommand::ChapterNotFound(n) => RestoreAction::ChapterNotFound(*n),
            RestoreCommand::Pick(i) => RestoreAction::Pick(*i),
            RestoreCommand::Unknown => RestoreAction::Unknown,
        }
    }
}

/// The 0-based position a 1-based number picks among `count` listed items.
pub open spec fn pick(n: Option<usize>, count: nat) -> Option<usize> {
    match n {
        Some(i) => if 1 <= i && i <= count {
            Some((i - 1) as usize)
        } else {
            None
        },
        None => None,
    }
}

/// What a line asks for on the restore screen, in the order the screen
/// checks: leaving a sub-mode, leaving the screen, the hidden commands of the
/// plain screen (delete, convert, chapters), the delete sub-mode's list, a
/// snapshot number.
pub open spec fn restore_action(input: Seq<char>, st: RestoreState, chapters: Seq<usize>) -> RestoreAction {
    let lower = lowercase_of(trim(input));
    let count = st.snapshot_count as nat;
    let sub = st.in_convert_mode || st.in_delete_mode;
    if sub && lower.len() == 0 {
        RestoreAction::LeaveSubMode
    } else if lower.len() == 0 || lower == "cancel"@ || lower == "back"@ {
        RestoreAction::Exit
    } else if !sub && del_arg(lower) is Some {
        let arg = del_arg(lower)->0;
        if arg.len() == 0 {
            RestoreAction::EnterDeleteMode
        } else {
            RestoreAction::Delete(positions_within(number_list(arg), count).to_set())
        }
    } else if !sub && "convert "@.is_prefix_of(lower) {
        match pick(parse_usize(trim(lower.skip("convert "@.len() as int))), count) {
            Some(i) => RestoreAction::Convert(i),
            None => RestoreAction::Ignore,
        }
    } else if !sub && lower == "convert"@ {
        RestoreAction::EnterConvertMode
    } else if !sub && st.in_chapter_mode && lower == "chapters"@ {
        RestoreAction::ShowChapters
    } else if !sub && st.in_chapter_mode && "chapter"@.is_prefix_of(lower) && parse_usize(
        trim(lower.skip("chapter"@.len() as int)),
    ) is Some {
        let n = parse_usize(trim(lower.skip("chapter"@.len() as int)))->0;
        if chapters.contains(n) {
            RestoreAction::ViewChapter(n)
        } else {
            RestoreAction::ChapterNotFound(n)
        }
    } else if st.in_delete_mode {
        RestoreAction::Delete(positions_within(number_list(lower), count).to_set())
    } else {
        match pick(parse_usize(lower), count) {
            Some(i) => RestoreAction::Pick(i),
            None => RestoreAction::Unknown,
        }
    }
}

fn pick_exec(n: Option<usize>, count: usize) -> (r: Option<usize>)
    ensures
        r == pick(n, count as nat),
{
    match n {
        Some(i) => if 1 <= i && i <= count {
            Some(i - 1)
        } else {
            None
        },
        None => None,
    }
}

fn delete_positions(s: &[char], count: usize) -> (r: Vec<usize>)
    ensures
        decreasing(r@),
        r@.to_set() == positions_within(number_list(s@), count as nat).to_set(),
        forall|k: int| 0 <= k < r.len() ==> r@[k] < count,
{
    let p = parse_positions(s, count);
    let r = sorted_unique_desc(&p);
    assert forall|k: int| 0 <= k < r.len() implies r@[k] < count by {
        assert(r@.to_set().contains(r@[k]));
        assert(p@.contains(r@[k]));
    }
    r
}

/// Reads one line of the restore screen. `chapters` are the project's
/// chapter numbers.
pub fn restore_command(input: &str, st: RestoreState, chapters: &[usize]) -> (r: RestoreCommand)
    ensures
        r.action() == restore_action(input@, st, chapters@),
        r matches RestoreCommand::Delete(v) ==> decreasing(v@) && forall|k: int|
            0 <= k < v.len() ==> v@[k] < st.snapshot_count,
        r matches RestoreCommand::Convert(i) ==> i < st.snapshot_count,
        r matches RestoreCommand::Pick(i) ==> i < st.snapshot_count,
{
    let t = trimmed(input);
    let ls = to_lowercase(t.as_str());
    let lower = chars_of(ls.as_str());
    let count = st.snapshot_count;
    let sub = st.in_convert_mode || st.in_delete_mode;
    if sub && lower.len() == 0 {
        return RestoreCommand::LeaveSubMode;
    }
    if lower.len() == 0 || chars_eq_str(&lower, "cancel") || chars_eq_str(&lower, "back") {
        return RestoreCommand::Exit;
    }
    if !sub {
        match parse_del_arg(ls.as_str()) {
            Some(arg) => {
                let a = chars_of(arg.as_str());
                if a.len() == 0 {
                    return RestoreCommand::EnterDeleteMode;
                }
                return RestoreCommand::Delete(delete_positions(&a, count));
            },
            None => {},
        }
        let conv = chars_of("convert ");
        if starts_with(&lower, &conv) {
            let rest = slice_chars(&lower, conv.len(), lower.len());
            assert(rest@ =~= lower@.skip("convert "@.len() as int));
            let arg = trim_chars(&rest);
            return match pick_exec(parse_usize_chars(&arg), count) {
                Some(i) => RestoreCommand::Convert(i),
                None => RestoreCommand::Ignore,
            };
        }
        if chars_eq_str(&lower, "convert") {
            return RestoreCommand::EnterConvertMode;
        }
        if st.in_chapter_mode {
            if chars_eq_str(&lower, "chapters") {
                return RestoreCommand::ShowChapters;
            }
            let ch = chars_of("chapter");
            if starts_with(&lower, &ch) {
                let rest = slice_chars(&lower, ch.len(), lower.len());
                assert(rest@ =~= lower@.skip("chapter"@.len() as int));
                let arg = trim_chars(&rest);
                match parse_usize_chars(&arg) {
                    Some(n) => {
                        if crate::lists::contains_usize(chapters, n) {
                            return RestoreCommand::ViewChapter(n);
                        } else {
                            return RestoreCommand::ChapterNotFound(n);
                        }
                    },
                    None => {},
                }
            }
        }
    }
    if st.in_delete_mode {
        return RestoreCommand::Delete(delete_positions(&lower, count));
    }
    match pick_exec(parse_usize_chars(&lower), count) {
        Some(i) => RestoreCommand::Pick(i),
        None => RestoreCommand::Unknown,
    }
}


/// The title of the restore screen.
pub open spec fn restore_title(in_convert_mode: bool, in_delete_mode: bool, show_chapter: bool, chapter: nat) -> Seq<char> {
    let mode = if in_convert_mode {
        "Convert"@
    } else if in_delete_mode {
        "Delete"@
    } else {
        "Restore"@
    };
    if show_chapter {
        "\n--- "@ + mode + " Snapshot  \u{b7}  Chapter "@ + decimal2(chapter) + " ---"@
    } else {
        "\n--- "@ + mode + " Snapshot ---"@
    }
}

/// The title of the restore screen: its sub-mode, and the chapter shown
/// when the project has more than one chapter.
pub fn restore_header(in_convert_mode: bool, in_delete_mode: bool, show_chapter: bool, viewing_chapter: usize) -> (r: String)
    ensures
        r@ == restore_title(in_convert_mode, in_delete_mode, show_chapter, viewing_chapter as nat),
{
    let mode = if in_convert_mode {
        "Convert"
    } else if in_delete_mode {
        "Delete"
    } else {
        "Restore"
    };
    let mut r = String::from_str("\n--- ");
    r.append(mode);
    if show_chapter {
        r.append(" Snapshot  \u{b7}  Chapter ");
        let c = decimal2_string(viewing_chapter);
        r.append(c.as_str());
        r.append(" ---");
    } else {
        r.append(" Snapshot ---");
    }
    r
}

/// The width the left part of a snapshot line is padded to.
pub const LIST_COLUMN: usize = 45;

/// `s` padded with spaces to at least `width` characters.
pub open spec fn padded(s: Seq<char>, width: nat) -> Seq<char> {
    if s.len() >= width {
        s
    } else {
        s + Seq::new((width - s.len()) as nat, |i: int| ' ')
    }
}

/// The left part of a snapshot's line: its number, its era, and its mode
/// when that differs from the project's.
pub open spec fn snapshot_left(number: nat, era: Seq<char>, snap_mode: Mode, project_mode: Mode) -> Seq<char> {
    let tag = if snap_mode != project_mode {
        if snap_mode == Mode::Labyrinth { "(Labyrinth)"@ } else { "(Flat)"@ }
    } else {
        Seq::empty()
    };
    if era.len() == 0 {
        decimal(number) + ". "@ + tag
    } else if tag.len() > 0 {
        decimal(number) + ". "@ + era + " "@ + tag
    } else {
        decimal(number) + ". "@ + era
    }
}

/// A snapshot's line on the restore screen: the left part padded to the
/// list column, then the time the snapshot was made.
pub fn snapshot_line(number: usize, era: &str, snap_mode: Mode, project_mode: Mode, time: &str) -> (r: String)
    ensures
        r@ == padded(snapshot_left(number as nat, era@, snap_mode, project_mode), LIST_COLUMN as nat) + time@,
{
    let tag = if snap_mode != project_mode {
        if snap_mode == Mode::Labyrinth { "(Labyrinth)" } else { "(Flat)" }
    } else {
        ""
    };
    let mut left = decimal_string(number);
    left.append(". ");
    if era.unicode_len() == 0 {
        left.append(tag);
    } else if tag.unicode_len() > 0 {
        left.append(era);
        left.append(" ");
        left.append(tag);
    } else {
        left.append(era);
    }
    proof {
        if snap_mode == project_mode {
            assert(tag@ =~= Seq::<char>::empty()) by {
                reveal_strlit("");
            }
        }
    }
    let n = left.unicode_len();
    let ghost l = left@;
    let mut line = left;
    let mut k: usize = n;
    assert(l + Seq::new(0nat, |i: int| ' ') =~= l);
    while k < LIST_COLUMN
        invariant
            n == l.len(),
            line@ == l + Seq::new((k - n) as nat, |i: int| ' '),
            k >= n,
            n < LIST_COLUMN ==> k <= LIST_COLUMN,
            n >= LIST_COLUMN ==> k == n,
        decreases LIST_COLUMN - k,
    {
        line.append(" ");
        proof {
            reveal_strlit(" ");
            assert(line@ =~= l + Seq::new((k + 1 - n) as nat, |i: int| ' '));
        }
        k = k + 1;
    }
    proof {
        if n >= LIST_COLUMN {
            assert(k == n);
            assert(line@ =~= l);
        } else {
            assert(k == LIST_COLUMN);
        }
    }
    line.append(time);
    line
}


/// How a picked snapshot is restored.
#[derive(Clone, Copy, PartialEq, Eq, Structural, Debug)]
pub enum RestoreChoice {
    /// Save the current files first, then restore.
    SaveFirst,
    /// Restore without saving.
    WithoutSaving,
    /// Anything else cancels.
    Cancel,
}

/// Reads the answer to "save first or restore without saving?".
pub fn restore_choice(answer: &str) -> (r: RestoreChoice)
    ensures
        lowercase_of(trim(answer@)) == "1"@ ==> r == RestoreChoice::SaveFirst,
        lowercase_of(trim(answer@)) != "1"@ ==> (r == RestoreChoice::WithoutSaving <==> lowercase_of(
            trim(answer@),
        ) == "2"@),
        lowercase_of(trim(answer@)) != "1"@ && lowercase_of(trim(answer@)) != "2"@ ==> r
            == RestoreChoice::Cancel,
{
    let t = trimmed(answer);
    let l = to_lowercase(t.as_str());
    let c = chars_of(l.as_str());
    if chars_eq_str(&c, "1") {
        RestoreChoice::SaveFirst
    } else if chars_eq_str(&c, "2") {
        RestoreChoice::WithoutSaving
    } else {
        RestoreChoice::Cancel
    }
}

/// Law: `chapter N` on the restore screen means chapter number `N`, not the
/// `N`-th chapter in the list: whatever `ViewChapter(m)` or
/// `ChapterNotFound(m)` is returned, `m` is the number typed after `chapter`;
/// a chapter is viewed only when it exists and reported missing only when it
/// does not.
pub proof fn lemma_view_chapter_is_typed_number(input: Seq<char>, st: RestoreState, chapters: Seq<usize>)
    ensures
        restore_action(input, st, chapters) matches RestoreAction::ViewChapter(m) ==> chapters.contains(m)
            && parse_usize(trim(lowercase_of(trim(input)).skip(7))) == Some(m),
        restore_action(input, st, chapters) matches RestoreAction::ChapterNotFound(m) ==> !chapters.contains(m)
            && parse_usize(trim(lowercase_of(trim(input)).skip(7))) == Some(m),
{
    reveal_strlit("chapter");
    assert("chapter"@.len() == 7);
}

/// Law: in a project with chapters, outside the sub-modes, a line that
/// lower-cases to `chapter N` views chapter `N` exactly when it exists, and
/// otherwise reports it missing.
pub proof fn lemma_chapter_line_views_it(input: Seq<char>, st: RestoreState, chapters: Seq<usize>, n: usize)
    requires
        lowercase_of(trim(input)) == "chapter "@ + decimal(n as nat),
        !st.in_convert_mode,
        !st.in_delete_mode,
        st.in_chapter_mode,
    ensures
        restore_action(input, st, chapters) == (if chapters.contains(n) {
            RestoreAction::ViewChapter(n)
        } else {
            RestoreAction::ChapterNotFound(n)
        }),
{
    reveal_strlit("chapter ");
    reveal_strlit("chapter");
    reveal_strlit("chapters");
    reveal_strlit("cancel");
    reveal_strlit("back");
    reveal_strlit("convert ");
    reveal_strlit("convert");
    reveal_strlit("delete ");
    reveal_strlit("del ");
    reveal_strlit("delete");
    reveal_strlit("del");
    let d = decimal(n as nat);
    let lower = lowercase_of(trim(input));
    crate::text::lemma_trim_decimal(n as nat);
    crate::text::lemma_decimal_is_digits(n as nat);
    crate::text::lemma_parse_decimal(n);
    assert(lower.len() == 8 + d.len());
    assert(lower[0] == 'c' && lower[1] == 'h' && lower[7] == ' ');
    assert(lower != "cancel"@) by {
        if lower == "cancel"@ {
            assert(lower[1] == "cancel"@[1]);
        }
    }
    assert(lower != "back"@) by {
        if lower == "back"@ {
            assert(lower[0] == "back"@[0]);
        }
    }
    assert(!"delete "@.is_prefix_of(lower)) by {
        if "delete "@.is_prefix_of(lower) {
            assert(lower[0] == "delete "@[0]);
        }
    }
    assert(!"del "@.is_prefix_of(lower)) by {
        if "del "@.is_prefix_of(lower) {
            assert(lower[0] == "del "@[0]);
        }
    }
    assert(del_arg(lower) is None);
    assert(!"convert "@.is_prefix_of(lower)) by {
        if "convert "@.is_prefix_of(lower) {
            assert(lower[1] == "convert "@[1]);
        }
    }
    assert(lower != "convert"@);
    assert(lower != "chapters"@) by {
        if lower == "chapters"@ {
            assert(lower[7] == "chapters"@[7]);
        }
    }
    assert("chapter"@.is_prefix_of(lower)) by {
        assert forall|i: int| 0 <= i < 7 implies lower[i] == "chapter"@[i] by {
            assert(lower[i] == ("chapter "@ + d)[i]);
        }
    }
    assert(lower.skip(7) =~= seq![' '] + d);
}

} // verus!
