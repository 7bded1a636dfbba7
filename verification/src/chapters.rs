//! Snapshots and chapters: how snapshot folders are numbered, when a save
//! opens a new chapter, and how the chapter on record is kept in line with
//! the folders on disk.

use vstd::prelude::*;
use crate::lists::{among, ascending, increasing, number_list, parse_among, sort_ascending, sorted_unique};
use crate::names::{first_index, lemma_first_index, lemma_first_index_concat, sanitize_name, sanitized, snapshot_folder};
use crate::text::{
    ascii_lower, chars_eq, chars_of, parse_usize, parse_usize_chars, slice_chars, starts_with, string_from, trim,
    trim_chars,
};

verus! {

/// Snapshots a chapter holds before the next save opens a new chapter.
pub const SNAPS_PER_CHAPTER: usize = 99;

/// Chapters a project may have.
pub const MAX_CHAPTERS: usize = 99;

/// The number a snapshot folder name starts with (the part before its first `_`).
pub open spec fn leading_id(name: Seq<char>) -> Option<usize> {
    parse_usize(name.take(first_index(name, '_') as int))
}

/// The highest snapshot number among the folder names, 0 when there is none.
pub open spec fn max_id(names: Seq<Seq<char>>) -> nat
    decreases names.len(),
{
    if names.len() == 0 {
        0
    } else {
        let rest = max_id(names.drop_last());
        match leading_id(names.last()) {
            Some(v) => if v > rest {
                v as nat
            } else {
                rest
            },
            None => rest,
        }
    }
}

/// Law: the highest snapshot number is at least every folder's number.
pub proof fn lemma_max_id(names: Seq<Seq<char>>)
    ensures
        forall|i: int|
            0 <= i < names.len() ==> (#[trigger] leading_id(names[i]) matches Some(v) ==> v <= max_id(
                names,
            )),
    decreases names.len(),
{
    if names.len() > 0 {
        lemma_max_id(names.drop_last());
        assert forall|i: int| 0 <= i < names.len() implies (#[trigger] leading_id(names[i]) matches Some(
            v,
        ) ==> v <= max_id(names)) by {
            if i < names.len() - 1 {
                assert(names.drop_last()[i] == names[i]);
            }
        }
    }
}

fn leading_id_of(name: &str) -> (r: Option<usize>)
    ensures
        r == leading_id(name@),
{
    let c = chars_of(name);
    let ghost s = c@;
    let mut i: usize = 0;
    assert(s.skip(0) =~= s);
    while i < c.len() && c[i] != '_'
        invariant
            i <= c.len(),
            s == c@,
            first_index(s, '_') == i + first_index(s.skip(i as int), '_'),
        decreases c.len() - i,
    {
        assert(s.skip(i as int).drop_first() =~= s.skip(i + 1));
        i = i + 1;
    }
    if i < c.len() {
        assert(s.skip(i as int)[0] == '_');
    }
    let head = slice_chars(&c, 0, i);
    parse_usize_chars(&head)
}

/// The number for the next snapshot of a folder holding the folders `names`:
/// one more than the highest existing number, so a number is never reused
/// even after older snapshots were deleted. `None` when that number does not
/// fit in a `usize`.
pub fn next_snapshot_id(names: &[String]) -> (r: Option<usize>)
    ensures
        r is None <==> max_id(names@.map_values(|s: String| s@)) >= usize::MAX,
        r is Some ==> r->0 == max_id(names@.map_values(|s: String| s@)) + 1,
        r is Some ==> forall|i: int|
            0 <= i < names.len() ==> (#[trigger] leading_id(names@[i]@) matches Some(v) ==> v < r->0),
{
    let ghost nv = names@.map_values(|s: String| s@);
    let mut best: usize = 0;
    let mut i: usize = 0;
    while i < names.len()
        invariant
            i <= names.len(),
            nv == names@.map_values(|s: String| s@),
            best == max_id(nv.take(i as int)),
        decreases names.len() - i,
    {
        assert(nv.take(i + 1).drop_last() =~= nv.take(i as int));
        assert(nv.take(i + 1).last() == names@[i as int]@);
        match leading_id_of(names[i].as_str()) {
            Some(v) => {
                if v > best {
                    best = v;
                }
            },
            None => {},
        }
        i = i + 1;
    }
    assert(nv.take(names.len() as int) =~= nv);
    proof {
        lemma_max_id(nv);
        assert forall|k: int| 0 <= k < names.len() implies (#[trigger] leading_id(names@[k]@) matches Some(
            v,
        ) ==> v <= max_id(nv)) by {
            assert(nv[k] == names@[k]@);
        }
    }
    if best == usize::MAX {
        None
    } else {
        Some(best + 1)
    }
}

/// The chapter number a folder name stands for: `Chapter ` then a number
/// (surrounding whitespace allowed).
pub open spec fn chapter_number(name: Seq<char>) -> Option<usize> {
    if "Chapter "@.is_prefix_of(name) {
        parse_usize(trim(name.skip("Chapter "@.len() as int)))
    } else {
        None
    }
}

/// The chapter numbers of the folders `names`, in folder order.
pub open spec fn chapter_numbers_in(names: Seq<Seq<char>>) -> Seq<usize>
    decreases names.len(),
{
    if names.len() == 0 {
        Seq::empty()
    } else {
        let rest = chapter_numbers_in(names.drop_last());
        match chapter_number(names.last()) {
            Some(n) => rest.push(n),
            None => rest,
        }
    }
}

fn chapter_number_of(name: &str) -> (r: Option<usize>)
    ensures
        r == chapter_number(name@),
{
    let c = chars_of(name);
    let p = chars_of("Chapter ");
    if starts_with(&c, &p) {
        let rest = slice_chars(&c, p.len(), c.len());
        assert(rest@ =~= name@.skip("Chapter "@.len() as int));
        let t = trim_chars(&rest);
        parse_usize_chars(&t)
    } else {
        None
    }
}

/// The chapters of a project, from the names of the folders in it, in
/// ascending order.
pub fn chapter_numbers(names: &[String]) -> (r: Vec<usize>)
    ensures
        ascending(r@),
        r@.to_multiset() == chapter_numbers_in(names@.map_values(|s: String| s@)).to_multiset(),
{
    let ghost nv = names@.map_values(|s: String| s@);
    let mut found: Vec<usize> = Vec::new();
    let mut i: usize = 0;
    while i < names.len()
        invariant
            i <= names.len(),
            nv == names@.map_values(|s: String| s@),
            found@ == chapter_numbers_in(nv.take(i as int)),
        decreases names.len() - i,
    {
        assert(nv.take(i + 1).drop_last() =~= nv.take(i as int));
        assert(nv.take(i + 1).last() == names@[i as int]@);
        match chapter_number_of(names[i].as_str()) {
            Some(n) => found.push(n),
            None => {},
        }
        i = i + 1;
    }
    assert(nv.take(names.len() as int) =~= nv);
    sort_ascending(&found)
}

/// The chapter on record after the chapter folders were looked at: the
/// latest existing chapter, or 0 (no chapters) when there is none.
pub open spec fn latest(chapters: Seq<usize>) -> usize {
    if chapters.len() == 0 {
        0
    } else {
        chapters.last()
    }
}

/// The last of the (ascending) chapter numbers, or 0.
pub fn latest_chapter(chapters: &[usize]) -> (r: usize)
    ensures
        r == latest(chapters@),
{
    if chapters.len() == 0 {
        0
    } else {
        chapters[chapters.len() - 1]
    }
}

/// The chapter that stays on record after checking the disk: unchanged when
/// there are no chapters yet or the recorded chapter's folder exists,
/// otherwise the latest chapter found.
pub open spec fn reconciled(current: usize, current_dir_exists: bool, chapters: Seq<usize>) -> usize {
    if current == 0 || current_dir_exists {
        current
    } else {
        latest(chapters)
    }
}

/// Brings the recorded chapter in line with the chapter folders on disk.
pub fn reconcile_current_chapter(current: usize, current_dir_exists: bool, chapters: &[usize]) -> (r: usize)
    ensures
        r == reconciled(current, current_dir_exists, chapters@),
{
    if current == 0 || current_dir_exists {
        current
    } else {
        latest_chapter(chapters)
    }
}

/// Law: reconciling twice changes nothing more than reconciling once, as
/// long as the folder of the chapter reconciled to exists (it was found on
/// disk) and the chapter folders are the same.
pub proof fn lemma_reconcile_idempotent(current: usize, exists: bool, chapters: Seq<usize>, exists_after: bool)
    requires
        reconciled(current, exists, chapters) != current ==> exists_after,
        reconciled(current, exists, chapters) == current ==> exists_after == exists,
    ensures
        reconciled(reconciled(current, exists, chapters), exists_after, chapters) == reconciled(
            current,
            exists,
            chapters,
        ),
{
}

/// What a save does with the chapters before it writes the snapshot.
#[derive(PartialEq, Eq, Structural, Debug, Clone, Copy)]
pub enum ChapterStep {
    /// The current chapter has room.
    Stay,
    /// The project has no chapters yet and is full: move its snapshots into
    /// chapter 1 and continue in chapter 2.
    Migrate,
    /// The current chapter is full: continue in this new chapter.
    OpenNext(usize),
}

/// What a save will do.
#[derive(PartialEq, Eq, Structural, Debug, Clone, Copy)]
pub enum SavePlan {
    /// Every chapter is full; the save is refused.
    LimitReached,
    /// Save as snapshot number `1` after `0` was done.
    Save(ChapterStep, usize),
}

/// The plan for a save into a project whose current chapter is `current`
/// and whose next free snapshot number there is `next_id`.
pub open spec fn save_plan_for(current: usize, next_id: usize) -> SavePlan {
    let highest = if next_id > 0 { next_id - 1 } else { 0 };
    if highest >= SNAPS_PER_CHAPTER {
        let next_chapter = if current == 0 { 2 } else { current + 1 };
        if next_chapter > MAX_CHAPTERS {
            SavePlan::LimitReached
        } else if current == 0 {
            SavePlan::Save(ChapterStep::Migrate, 1)
        } else {
            SavePlan::Save(ChapterStep::OpenNext(next_chapter as usize), 1)
        }
    } else {
        SavePlan::Save(ChapterStep::Stay, (highest + 1) as usize)
    }
}

/// The chapter a save writes into.
pub open spec fn chapter_after(current: usize, step: ChapterStep) -> usize {
    match step {
        ChapterStep::Stay => current,
        ChapterStep::Migrate => 2,
        ChapterStep::OpenNext(n) => n,
    }
}

/// Decides what a save does: stay in the current chapter, or open the next
/// one when the current is full, or refuse when no chapter is left.
pub fn plan_save(current_chapter: usize, next_id: usize) -> (r: SavePlan)
    requires
        current_chapter < usize::MAX,
    ensures
        r == save_plan_for(current_chapter, next_id),
        r matches SavePlan::Save(step, id) ==> 1 <= id <= SNAPS_PER_CHAPTER,
        r matches SavePlan::Save(step, id) ==> chapter_after(current_chapter, step) != 1
            || current_chapter == 1,
        r matches SavePlan::Save(step, id) ==> (step != ChapterStep::Stay ==> chapter_after(
            current_chapter,
            step,
        ) <= MAX_CHAPTERS),
{
    let highest = if next_id > 0 { next_id - 1 } else { 0 };
    if highest >= SNAPS_PER_CHAPTER {
        let next_chapter = if current_chapter == 0 { 2 } else { current_chapter + 1 };
        if next_chapter > MAX_CHAPTERS {
            SavePlan::LimitReached
        } else if current_chapter == 0 {
            SavePlan::Save(ChapterStep::Migrate, 1)
        } else {
            SavePlan::Save(ChapterStep::OpenNext(next_chapter), 1)
        }
    } else {
        SavePlan::Save(ChapterStep::Stay, highest + 1)
    }
}

/// Law: saving never lands in chapter 1 (the first migration jumps from no
/// chapters to chapter 2), never goes past the chapter cap, and always
/// numbers the snapshot within a chapter's capacity.
pub proof fn lemma_save_plan(current: usize, next_id: usize)
    requires
        current < usize::MAX,
    ensures
        save_plan_for(current, next_id) matches SavePlan::Save(step, id) ==> {
            &&& 1 <= id <= SNAPS_PER_CHAPTER
            &&& step == ChapterStep::Migrate ==> current == 0 && chapter_after(current, step) == 2
            &&& step != ChapterStep::Stay ==> current < chapter_after(current, step) <= MAX_CHAPTERS
            &&& chapter_after(current, step) == 1 ==> current == 1
        },
        save_plan_for(current, next_id) is LimitReached ==> next_id > SNAPS_PER_CHAPTER && current
            >= MAX_CHAPTERS,
{
}

/// `a.eq_ignore_ascii_case(b)`.
pub open spec fn eq_ignore_ascii_case(a: Seq<char>, b: Seq<char>) -> bool {
    a.len() == b.len() && forall|i: int| 0 <= i < a.len() ==> ascii_lower(#[trigger] a[i]) == ascii_lower(b[i])
}

fn lower_ascii(c: char) -> (r: char)
    ensures
        r == ascii_lower(c),
{
    if 'A' <= c && c <= 'Z' {
        ((c as u8) + 32) as char
    } else {
        c
    }
}

pub(crate) fn chars_eq_ignore_ascii_case(a: &[char], b: &[char]) -> (r: bool)
    ensures
        r == eq_ignore_ascii_case(a@, b@),
{
    if a.len() != b.len() {
        return false;
    }
    let mut i: usize = 0;
    while i < a.len()
        invariant
            a.len() == b.len(),
            i <= a.len(),
            forall|k: int| 0 <= k < i ==> ascii_lower(#[trigger] a@[k]) == ascii_lower(b@[k]),
        decreases a.len() - i,
    {
        if lower_ascii(a[i]) != lower_ascii(b[i]) {
            return false;
        }
        i = i + 1;
    }
    true
}

/// The longest era name a snapshot may have, in characters.
pub const MAX_ERA_CHARS: usize = 26;

/// An answer to the era-name prompt of a save.
#[derive(PartialEq, Eq, Debug)]
pub enum EraAnswer {
    /// The save is cancelled.
    Cancel,
    /// The name is too long; the prompt is asked again.
    TooLong,
    /// The snapshot is named after this (possibly empty) answer.
    Name(String),
}

/// Reads an answer to the era-name prompt: `cancel` in any ASCII case (around
/// whitespace) cancels, more than 26 characters is too long, anything else
/// is the era name.
pub fn era_answer(input: &str) -> (r: EraAnswer)
    ensures
        eq_ignore_ascii_case(trim(input@), "cancel"@) ==> r == EraAnswer::Cancel,
        !eq_ignore_ascii_case(trim(input@), "cancel"@) && input@.len() > MAX_ERA_CHARS ==> r
            == EraAnswer::TooLong,
        !eq_ignore_ascii_case(trim(input@), "cancel"@) && input@.len() <= MAX_ERA_CHARS ==> (r
            matches EraAnswer::Name(n) && n@ == input@),
{
    let c = chars_of(input);
    let t = trim_chars(&c);
    let cancel = chars_of("cancel");
    if chars_eq_ignore_ascii_case(&t, &cancel) {
        EraAnswer::Cancel
    } else if c.len() > MAX_ERA_CHARS {
        EraAnswer::TooLong
    } else {
        EraAnswer::Name(String::from_str(input))
    }
}

/// The era a snapshot is saved under: empty for an empty answer, the cleaned
/// name otherwise.
pub open spec fn era_label(raw: Seq<char>) -> Seq<char> {
    if raw.len() == 0 {
        Seq::empty()
    } else {
        sanitized(raw)
    }
}

/// The era a snapshot is saved under, and whether cleaning changed what was
/// typed (then the user is told the name it was saved as).
pub fn final_era_label(raw: &str) -> (r: (String, bool))
    ensures
        r.0@ == era_label(raw@),
        r.1 == (era_label(raw@).len() > 0 && era_label(raw@) != raw@),
{
    if raw.unicode_len() == 0 {
        (String::new(), false)
    } else {
        let label = sanitize_name(raw);
        let lc = chars_of(label.as_str());
        let rc = chars_of(raw);
        let changed = lc.len() > 0 && !chars_eq(&lc, &rc);
        (label, changed)
    }
}

/// The era of a snapshot folder in a chapter (chapter 0: the project folder),
/// or `None` when the folder is no snapshot: hidden folders, chapter folders
/// at the project level, Grove's working folders, and names that do not start
/// with a number.
pub open spec fn snapshot_era(name: Seq<char>, chapter: usize) -> Option<Seq<char>> {
    if name.len() > 0 && name[0] == '.' {
        None
    } else if chapter == 0 && "Chapter "@.is_prefix_of(name) {
        None
    } else if "__grove_"@.is_prefix_of(name) {
        None
    } else {
        let i = first_index(name, '_');
        if parse_usize(name.take(i as int)) is Some {
            Some(if i < name.len() { name.skip(i as int + 1) } else { Seq::empty() })
        } else {
            None
        }
    }
}

proof fn lemma_digits_have_no(d: Seq<char>, c: char)
    requires
        crate::text::all_digits(d),
        !crate::text::is_digit(c),
    ensures
        first_index(d, c) == d.len(),
{
    lemma_first_index(d, c);
    if first_index(d, c) < d.len() {
        assert(crate::text::is_digit(d[first_index(d, c) as int]));
    }
}

/// Law: every folder a save creates is read back as that snapshot. For any
/// number `id` and any era (also one holding `_`), the folder named
/// `snapshot_folder(id, era)` has the leading number `id` and is listed in
/// any chapter as a snapshot with exactly that era.
pub proof fn lemma_saved_folder_read_back(id: usize, era: Seq<char>, chapter: usize)
    ensures
        leading_id(snapshot_folder(id as nat, era)) == Some(id),
        snapshot_era(snapshot_folder(id as nat, era), chapter) == Some(era),
{
    reveal_strlit("_");
    reveal_strlit("Chapter ");
    reveal_strlit("__grove_");
    let d = crate::text::decimal2(id as nat);
    crate::text::lemma_parse_decimal2(id);
    lemma_digits_have_no(d, '_');
    let f = snapshot_folder(id as nat, era);
    assert(crate::text::is_digit(d[0]));
    if era.len() == 0 {
        assert(f == d);
        assert(f.take(d.len() as int) =~= d);
    } else {
        let tail = "_"@ + era;
        assert(f =~= d + tail);
        lemma_first_index_concat(d, tail, '_');
        assert(tail[0] == '_');
        assert(first_index(tail, '_') == 0);
        assert(first_index(f, '_') == d.len());
        assert(f.take(d.len() as int) =~= d);
        assert(f.skip(d.len() as int + 1) =~= era);
    }
    assert(f[0] == d[0]);
    assert(!"Chapter "@.is_prefix_of(f)) by {
        if "Chapter "@.is_prefix_of(f) {
            assert(f[0] == "Chapter "@[0]);
        }
    }
    assert(!"__grove_"@.is_prefix_of(f)) by {
        if "__grove_"@.is_prefix_of(f) {
            assert(f[0] == "__grove_"@[0]);
        }
    }
}

/// Law: once a save's folder is among the names, the next snapshot number
/// is past its number, whatever its era.
pub proof fn lemma_next_id_passes_saved(names: Seq<Seq<char>>, id: usize, era: Seq<char>)
    requires
        names.contains(snapshot_folder(id as nat, era)),
    ensures
        max_id(names) >= id,
        max_id(names) + 1 > id,
{
    lemma_saved_folder_read_back(id, era, 0);
    lemma_max_id(names);
    let i = choose|i: int| 0 <= i < names.len() && names[i] == snapshot_folder(id as nat, era);
    assert(leading_id(names[i]) == Some(id));
}

/// Tells whether a folder found in a chapter is a snapshot, and its era.
pub fn snapshot_era_of(name: &str, chapter: usize) -> (r: Option<String>)
    ensures
        r is Some <==> snapshot_era(name@, chapter) is Some,
        r is Some ==> r->0@ == snapshot_era(name@, chapter)->0,
{
    let c = chars_of(name);
    if c.len() > 0 && c[0] == '.' {
        return None;
    }
    let ch = chars_of("Chapter ");
    if chapter == 0 && starts_with(&c, &ch) {
        return None;
    }
    let g = chars_of("__grove_");
    if starts_with(&c, &g) {
        return None;
    }
    let ghost s = c@;
    let mut i: usize = 0;
    assert(s.skip(0) =~= s);
    while i < c.len() && c[i] != '_'
        invariant
            i <= c.len(),
            s == c@,
            first_index(s, '_') == i + first_index(s.skip(i as int), '_'),
        decreases c.len() - i,
    {
        assert(s.skip(i as int).drop_first() =~= s.skip(i + 1));
        i = i + 1;
    }
    if i < c.len() {
        assert(s.skip(i as int)[0] == '_');
    }
    let head = slice_chars(&c, 0, i);
    match parse_usize_chars(&head) {
        Some(_) => {
            if i < c.len() {
                let era = slice_chars(&c, i + 1, c.len());
                assert(era@ =~= s.skip(i as int + 1));
                Some(string_from(&era))
            } else {
                Some(String::new())
            }
        },
        None => None,
    }
}

/// What a chapter delete request does.
#[derive(PartialEq, Eq, Debug)]
pub enum ChapterDeletion {
    /// No existing chapter was named.
    Nothing,
    /// Every chapter was named; that is refused.
    WouldDeleteAll,
    /// Delete these chapters, in increasing order.
    Delete(Vec<usize>),
}

/// Reads a chapter delete request: the chapters named in a comma-separated
/// list that exist, each once. Deleting all of them is refused.
pub fn chapters_to_delete(arg: &[char], chapters: &[usize]) -> (r: ChapterDeletion)
    ensures
        ({
            let named = among(number_list(arg@), chapters@);
            &&& named.len() == 0 <==> r == ChapterDeletion::Nothing
            &&& r matches ChapterDeletion::Delete(v) ==> increasing(v@) && v@.to_set() == named.to_set()
                && v@.len() < chapters@.len()
            &&& r == ChapterDeletion::WouldDeleteAll ==> named.to_set().len() >= chapters@.len()
        }),
{
    let named = parse_among(arg, chapters);
    let v = sorted_unique(&named);
    proof {
        if v@.len() > 0 {
            assert(v@.to_set().contains(v@[0]));
            assert(named@.to_set().contains(v@[0]));
            assert(named@.contains(v@[0]));
        }
        if named@.len() > 0 {
            assert(named@.to_set().contains(named@[0]));
            assert(v@.to_set().contains(named@[0]));
            assert(v@.contains(named@[0]));
        }
        assert(v@.no_duplicates()) by {
            assert forall|i: int, j: int| 0 <= i < v@.len() && 0 <= j < v@.len() && i != j implies v@[i]
                != v@[j] by {
                if i < j {
                    assert(v@[i] < v@[j]);
                } else {
                    assert(v@[j] < v@[i]);
                }
            }
        }
        v@.unique_seq_to_set();
    }
    if v.len() == 0 {
        ChapterDeletion::Nothing
    } else if v.len() >= chapters.len() {
        ChapterDeletion::WouldDeleteAll
    } else {
        ChapterDeletion::Delete(v)
    }
}


/// Law: a chapter deletion that goes ahead always leaves at least one
/// chapter, provided no chapter number occurs twice among the chapter folders.
pub proof fn lemma_deletion_leaves_a_chapter(v: Seq<usize>, chapters: Seq<usize>)
    requires
        chapters.no_duplicates(),
        increasing(v),
        v.len() < chapters.len(),
    ensures
        exists|c: usize| chapters.contains(c) && !v.contains(c),
{
    broadcast use vstd::seq_lib::seq_to_set_is_finite;
    assert(v.no_duplicates()) by {
        assert forall|i: int, j: int| 0 <= i < v.len() && 0 <= j < v.len() && i != j implies v[i] != v[j] by {
            if i < j {
                assert(v[i] < v[j]);
            } else {
                assert(v[j] < v[i]);
            }
        }
    }
    v.unique_seq_to_set();
    chapters.unique_seq_to_set();
    if forall|c: usize| chapters.contains(c) ==> v.contains(c) {
        assert(chapters.to_set().subset_of(v.to_set()));
        vstd::set_lib::lemma_len_subset(chapters.to_set(), v.to_set());
    }
}


/// Whether a folder in a chapter counts as content: snapshot folders do,
/// hidden folders and Grove's working folders do not.
pub open spec fn is_content(name: Seq<char>) -> bool {
    !(name.len() > 0 && name[0] == '.') && !"__grove_"@.is_prefix_of(name)
}

/// Whether a folder found in a chapter is one of its snapshots' folders
/// (a chapter with none of them is empty and can be removed).
pub fn is_content_folder(name: &str) -> (r: bool)
    ensures
        r == is_content(name@),
{
    let c = chars_of(name);
    let g = chars_of("__grove_");
    !(c.len() > 0 && c[0] == '.') && !starts_with(&c, &g)
}

/// What a folder left over from an interrupted conversion is.
#[derive(PartialEq, Eq, Debug)]
pub enum Leftover {
    /// `__grove_converting_<snapshot>`: the new version being built.
    ConversionTemp(String),
    /// `<snapshot>.bak`: the original put aside.
    ConversionBackup(String),
    /// Anything else.
    Other,
}

/// A leftover as a plain value.
pub enum LeftoverKind {
    ConversionTemp(Seq<char>),
    ConversionBackup(Seq<char>),
    Other,
}

impl Leftover {
    pub open spec fn kind(&self) -> LeftoverKind {
        match self {
            Leftover::ConversionTemp(s) => LeftoverKind::ConversionTemp(s@),
            Leftover::ConversionBackup(s) => LeftoverKind::ConversionBackup(s@),
            Leftover::Other => LeftoverKind::Other,
        }
    }
}

/// What a folder name says about an interrupted conversion.
pub open spec fn leftover_kind(name: Seq<char>) -> LeftoverKind {
    if "__grove_converting_"@.is_prefix_of(name) {
        LeftoverKind::ConversionTemp(name.skip("__grove_converting_"@.len() as int))
    } else if ".bak"@.is_suffix_of(name) {
        LeftoverKind::ConversionBackup(name.take(name.len() - ".bak"@.len()))
    } else {
        LeftoverKind::Other
    }
}

/// Reads a folder name found in a project or chapter folder for what an
/// interrupted conversion may have left.
pub fn classify_leftover(name: &str) -> (r: Leftover)
    ensures
        r.kind() == leftover_kind(name@),
{
    let c = chars_of(name);
    let t = chars_of("__grove_converting_");
    if starts_with(&c, &t) {
        let rest = slice_chars(&c, t.len(), c.len());
        assert(rest@ =~= name@.skip("__grove_converting_"@.len() as int));
        return Leftover::ConversionTemp(string_from(&rest));
    }
    let b = chars_of(".bak");
    if b.len() <= c.len() {
        let tail = slice_chars(&c, c.len() - b.len(), c.len());
        if chars_eq(&tail, &b) {
            let head = slice_chars(&c, 0, c.len() - b.len());
            assert forall|k: int| 0 <= k < b@.len() implies b@[k] == c@[c.len() - b.len() + k] by {
                assert(tail@[k] == c@[c.len() - b.len() + k]);
            }
            assert(".bak"@.is_suffix_of(name@));
            return Leftover::ConversionBackup(string_from(&head));
        }
        proof {
            if ".bak"@.is_suffix_of(name@) {
                assert(tail@ =~= b@);
            }
        }
    }
    Leftover::Other
}

/// The next step of removing empty chapters from the end.
#[derive(Clone, Copy, PartialEq, Eq, Structural, Debug)]
pub enum CleanupStep {
    /// The current chapter has snapshots (or there are no chapters): stop.
    Stop,
    /// Remove this empty chapter; the current chapter then becomes the
    /// latest one left (`latest_chapter`).
    Remove(usize),
}

/// Decides whether the current chapter is removed because it is empty.
/// Chapters are never renumbered: after a removal the latest remaining
/// chapter becomes current, and the step is taken again.
pub fn cleanup_step(current: usize, current_has_content: bool) -> (r: CleanupStep)
    ensures
        r == (if current == 0 || current_has_content {
            CleanupStep::Stop
        } else {
            CleanupStep::Remove(current)
        }),
{
    if current == 0 || current_has_content {
        CleanupStep::Stop
    } else {
        CleanupStep::Remove(current)
    }
}

/// What tidying up does with a leftover folder.
#[derive(Clone, Copy, PartialEq, Eq, Structural, Debug)]
pub enum HealStep {
    /// Put the backup back in the snapshot's place, then remove the temporary folder.
    RecoverFromBackup,
    /// Remove the temporary folder; the snapshot was already replaced.
    DropTemp,
    /// Remove the backup; the conversion finished.
    DropBackup,
    /// Leave the folder alone.
    Keep,
}

/// The step for a leftover folder of kind `kind`: for a conversion's
/// temporary folder, whether the snapshot's backup exists; for a folder
/// ending in `.bak`, whether the matching temporary folder and the snapshot
/// itself exist. A `.bak` folder is only removed when its snapshot is there
/// and no conversion of it is pending, so a snapshot whose own name ends in
/// `.bak` is kept.
pub open spec fn heal_step_for(kind: LeftoverKind, backup_exists: bool, temp_exists: bool, snapshot_exists: bool) -> HealStep {
    match kind {
        LeftoverKind::ConversionTemp(_) => if backup_exists {
            HealStep::RecoverFromBackup
        } else {
            HealStep::DropTemp
        },
        LeftoverKind::ConversionBackup(_) => if !temp_exists && snapshot_exists {
            HealStep::DropBackup
        } else {
            HealStep::Keep
        },
        LeftoverKind::Other => HealStep::Keep,
    }
}

/// Decides what to do with a leftover folder after an interrupted conversion.
pub fn heal_step(leftover: &Leftover, backup_exists: bool, temp_exists: bool, snapshot_exists: bool) -> (r: HealStep)
    ensures
        r == heal_step_for(leftover.kind(), backup_exists, temp_exists, snapshot_exists),
        r == HealStep::DropBackup ==> snapshot_exists,
{
    match leftover {
        Leftover::ConversionTemp(_) => if backup_exists {
            HealStep::RecoverFromBackup
        } else {
            HealStep::DropTemp
        },
        Leftover::ConversionBackup(_) => if !temp_exists && snapshot_exists {
            HealStep::DropBackup
        } else {
            HealStep::Keep
        },
        Leftover::Other => HealStep::Keep,
    }
}

/// The name of the folder a conversion builds the new version of `snapshot` in.
pub fn converting_folder_name(snapshot: &str) -> (r: String)
    ensures
        r@ == "__grove_converting_"@ + snapshot@,
{
    let mut r = String::from_str("__grove_converting_");
    r.append(snapshot);
    r
}

/// The name the original of `snapshot` is kept under during a conversion.
pub fn backup_folder_name(snapshot: &str) -> (r: String)
    ensures
        r@ == snapshot@ + ".bak"@,
{
    let mut r = String::from_str(snapshot);
    r.append(".bak");
    r
}

/// Law: the leftovers of a conversion of `snapshot` are recognised as such
/// and name `snapshot` again.
pub proof fn lemma_leftover_names(snapshot: Seq<char>)
    ensures
        leftover_kind("__grove_converting_"@ + snapshot) == LeftoverKind::ConversionTemp(snapshot),
        !"__grove_converting_"@.is_prefix_of(snapshot + ".bak"@) ==> leftover_kind(snapshot + ".bak"@)
            == LeftoverKind::ConversionBackup(snapshot),
{
    let t = "__grove_converting_"@;
    assert(t.is_prefix_of(t + snapshot));
    assert((t + snapshot).skip(t.len() as int) =~= snapshot);
    let b = ".bak"@;
    assert(b.is_suffix_of(snapshot + b)) by {
        assert forall|k: int| 0 <= k < b.len() implies b[k] == (snapshot + b)[snapshot.len() + k] by {}
    }
    assert((snapshot + b).take(snapshot.len() as int) =~= snapshot);
}

/// What a line on the chapters screen asks for.
#[derive(PartialEq, Eq, Debug)]
pub enum ChaptersCommand {
    /// A cancel word: back to the restore screen.
    Back,
    /// A hidden delete command with this argument (empty: ask for the list).
    Delete(String),
    /// The number of an existing chapter: show it.
    Pick(usize),
    /// Nothing matched; the list is shown again.
    Nothing,
}

/// A chapters command as a plain value.
pub enum ChaptersAction {
    Back,
    Delete(Seq<char>),
    Pick(usize),
    Nothing,
}

impl ChaptersCommand {
    pub open spec fn action(&self) -> ChaptersAction {
        match self {
            ChaptersCommand::Back => ChaptersAction::Back,
            ChaptersCommand::Delete(a) => ChaptersAction::Delete(a@),
            ChaptersCommand::Pick(n) => ChaptersAction::Pick(*n),
            ChaptersCommand::Nothing => ChaptersAction::Nothing,
        }
    }
}

/// What a line on the chapters screen asks for: the line is trimmed and
/// lower-cased, then read as a cancel word, a delete command, or a chapter
/// number (the list shows each chapter under its own number).
pub open spec fn chapters_action(input: Seq<char>, chapters: Seq<usize>) -> ChaptersAction {
    let lower = crate::text::lowercase_of(trim(input));
    if crate::names::cancel_word(lower) {
        ChaptersAction::Back
    } else if crate::names::del_arg(lower) is Some {
        ChaptersAction::Delete(crate::names::del_arg(lower)->0)
    } else {
        match parse_usize(lower) {
            Some(n) => if chapters.contains(n) {
                ChaptersAction::Pick(n)
            } else {
                ChaptersAction::Nothing
            },
            None => ChaptersAction::Nothing,
        }
    }
}

/// Reads one line of the chapters screen.
pub fn chapters_command(input: &str, chapters: &[usize]) -> (r: ChaptersCommand)
    ensures
        r.action() == chapters_action(input@, chapters@),
{
    let t = crate::text::trimmed(input);
    let lower = crate::text::to_lowercase(t.as_str());
    if crate::names::is_cancel(lower.as_str()) {
        return ChaptersCommand::Back;
    }
    match crate::names::parse_del_arg(lower.as_str()) {
        Some(arg) => {
            return ChaptersCommand::Delete(arg);
        },
        None => {},
    }
    let lc = chars_of(lower.as_str());
    match parse_usize_chars(&lc) {
        Some(n) => if crate::lists::contains_usize(chapters, n) {
            ChaptersCommand::Pick(n)
        } else {
            ChaptersCommand::Nothing
        },
        None => ChaptersCommand::Nothing,
    }
}

/// Law: on the chapters screen a chapter is opened by its own number, not by
/// its place in the list: whatever `Pick(m)` is returned, `m` is the number
/// typed and an existing chapter.
pub proof fn lemma_pick_is_typed_chapter(input: Seq<char>, chapters: Seq<usize>)
    ensures
        chapters_action(input, chapters) matches ChaptersAction::Pick(m) ==> chapters.contains(m)
            && parse_usize(crate::text::lowercase_of(trim(input))) == Some(m),
{
}

/// Law: typing the number `n` of a chapter (in any letter case or spacing
/// that lower-cases to it) opens chapter `n` when it exists, and does nothing
/// when it does not. (`lowercase_of` keeps digits, as `str::to_lowercase`
/// does; the second condition records that.)
pub proof fn lemma_chapter_number_opens_it(input: Seq<char>, chapters: Seq<usize>, n: usize)
    requires
        crate::text::lowercase_of(trim(input)) == crate::text::decimal(n as nat),
        crate::text::lowercase_of(crate::text::decimal(n as nat)) == crate::text::decimal(n as nat),
    ensures
        chapters_action(input, chapters) == (if chapters.contains(n) {
            ChaptersAction::Pick(n)
        } else {
            ChaptersAction::Nothing
        }),
{
    reveal_strlit("cancel");
    reveal_strlit("back");
    reveal_strlit("delete ");
    reveal_strlit("del ");
    reveal_strlit("delete");
    reveal_strlit("del");
    let d = crate::text::decimal(n as nat);
    crate::text::lemma_trim_decimal(n as nat);
    crate::text::lemma_decimal_is_digits(n as nat);
    crate::text::lemma_parse_decimal(n);
    assert(crate::text::is_digit(d[0]));
    assert(d != "cancel"@) by {
        if d == "cancel"@ {
            assert(d[0] == "cancel"@[0]);
        }
    }
    assert(d != "back"@) by {
        if d == "back"@ {
            assert(d[0] == "back"@[0]);
        }
    }
    assert(!crate::names::cancel_word(d));
    assert(!"delete "@.is_prefix_of(d)) by {
        if "delete "@.is_prefix_of(d) {
            assert(d[0] == "delete "@[0]);
        }
    }
    assert(!"del "@.is_prefix_of(d)) by {
        if "del "@.is_prefix_of(d) {
            assert(d[0] == "del "@[0]);
        }
    }
    assert(d != "delete"@) by {
        if d == "delete"@ {
            assert(d[0] == "delete"@[0]);
        }
    }
    assert(d != "del"@) by {
        if d == "del"@ {
            assert(d[0] == "del"@[0]);
        }
    }
    assert(crate::names::del_arg(d) is None);
}

} // verus!
