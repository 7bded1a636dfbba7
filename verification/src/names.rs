//! Names typed by the user: project and era names, confirmations, cancel
//! words, delete commands, and the labels and file names derived from them.

use vstd::prelude::*;
use crate::text::{
    chars_eq, chars_eq_str, chars_of, decimal, decimal2, decimal2_string, decimal_string, lowercase_of, slice_chars, starts_with,
    string_from, to_lowercase, to_uppercase, trim, trim_chars, trimmed, uppercase_of,
};

verus! {

/// Characters that no file name may hold on some platform.
pub open spec fn is_illegal(c: char) -> bool {
    c == '/' || c == '\\' || c == ':' || c == '*' || c == '?' || c == '"' || c == '<' || c == '>'
        || c == '|'
}

/// Each illegal character replaced by `_`.
pub open spec fn replace_illegal(s: Seq<char>) -> Seq<char> {
    s.map_values(|c: char| if is_illegal(c) { '_' } else { c })
}

/// Index of the first `c` in `s`, or `s.len()` when there is none.
pub open spec fn first_index(s: Seq<char>, c: char) -> nat
    decreases s.len(),
{
    if s.len() == 0 {
        0
    } else if s[0] == c {
        0
    } else {
        1 + first_index(s.drop_first(), c)
    }
}

/// Where `first_index` lands: at the first `c`, or at the end when there is none.
pub proof fn lemma_first_index(s: Seq<char>, c: char)
    ensures
        first_index(s, c) <= s.len(),
        first_index(s, c) < s.len() ==> s[first_index(s, c) as int] == c,
        forall|k: int| 0 <= k < first_index(s, c) ==> s[k] != c,
    decreases s.len(),
{
    if s.len() > 0 && s[0] != c {
        lemma_first_index(s.drop_first(), c);
        assert forall|k: int| 0 <= k < first_index(s, c) implies s[k] != c by {
            if k > 0 {
                assert(s.drop_first()[k - 1] == s[k]);
            }
        }
        if first_index(s, c) < s.len() {
            assert(s.drop_first()[first_index(s, c) - 1] == s[first_index(s, c) as int]);
        }
    }
}

/// Where the first `c` of `a + b` is: in `a` if `a` has one, else after it.
pub proof fn lemma_first_index_concat(a: Seq<char>, b: Seq<char>, c: char)
    ensures
        first_index(a + b, c) == if first_index(a, c) < a.len() {
            first_index(a, c)
        } else {
            a.len() + first_index(b, c)
        },
    decreases a.len(),
{
    if a.len() == 0 {
        assert(a + b =~= b);
    } else if a[0] == c {
        assert((a + b)[0] == c);
    } else {
        lemma_first_index_concat(a.drop_first(), b, c);
        assert((a + b).drop_first() =~= a.drop_first() + b);
    }
}

/// The part of `s` before its first `.` (all of `s` when it has none).
pub open spec fn before_first_dot(s: Seq<char>) -> Seq<char> {
    s.take(first_index(s, '.') as int)
}

/// The Windows device names that no file or folder may be called.
pub open spec fn reserved_names() -> Seq<Seq<char>> {
    seq![
        "CON"@, "PRN"@, "AUX"@, "NUL"@,
        "COM1"@, "COM2"@, "COM3"@, "COM4"@, "COM5"@, "COM6"@, "COM7"@, "COM8"@, "COM9"@,
        "LPT1"@, "LPT2"@, "LPT3"@, "LPT4"@, "LPT5"@, "LPT6"@, "LPT7"@, "LPT8"@, "LPT9"@,
    ]
}

/// A name cleaned for use as a folder name: trimmed, illegal characters
/// replaced by `_`, and `_` appended when the part before the first dot is a
/// reserved device name in any letter case.
pub open spec fn sanitized(name: Seq<char>) -> Seq<char> {
    let m = replace_illegal(trim(name));
    if reserved_names().contains(uppercase_of(before_first_dot(m))) {
        m.push('_')
    } else {
        m
    }
}

fn reserved_name_list() -> (v: Vec<&'static str>)
    ensures
        v@.map_values(|s: &str| s@) == reserved_names(),
{
    let v = vec![
        "CON", "PRN", "AUX", "NUL",
        "COM1", "COM2", "COM3", "COM4", "COM5", "COM6", "COM7", "COM8", "COM9",
        "LPT1", "LPT2", "LPT3", "LPT4", "LPT5", "LPT6", "LPT7", "LPT8", "LPT9",
    ];
    assert(v@.map_values(|s: &str| s@) =~= reserved_names());
    v
}

fn is_reserved(u: &[char]) -> (r: bool)
    ensures
        r == reserved_names().contains(u@),
{
    let names = reserved_name_list();
    let ghost spec_names = names@.map_values(|s: &str| s@);
    let mut i: usize = 0;
    while i < names.len()
        invariant
            i <= names.len(),
            spec_names == reserved_names(),
            spec_names == names@.map_values(|s: &str| s@),
            forall|k: int| 0 <= k < i ==> spec_names[k] != u@,
        decreases names.len() - i,
    {
        let c = chars_of(names[i]);
        if chars_eq(&c, u) {
            assert(spec_names[i as int] == u@);
            return true;
        }
        i = i + 1;
    }
    assert(!spec_names.contains(u@));
    false
}

/// Cleans a user-typed name so that it can be a folder name on every platform.
pub fn sanitize_name(name: &str) -> (r: String)
    ensures
        r@ == sanitized(name@),
        forall|i: int| 0 <= i < r@.len() ==> !is_illegal(#[trigger] r@[i]),
{
    let raw = chars_of(name);
    let t = trim_chars(&raw);
    let mut m: Vec<char> = Vec::new();
    let mut i: usize = 0;
    while i < t.len()
        invariant
            i <= t.len(),
            m@ == replace_illegal(t@.take(i as int)),
        decreases t.len() - i,
    {
        let c = t[i];
        let d = if c == '/' || c == '\\' || c == ':' || c == '*' || c == '?' || c == '"' || c
            == '<' || c == '>' || c == '|' {
            '_'
        } else {
            c
        };
        m.push(d);
        i = i + 1;
        assert(m@ =~= replace_illegal(t@.take(i as int)));
    }
    assert(t@.take(t.len() as int) =~= t@);
    let ghost ms = m@;
    assert(ms.skip(0) =~= ms);
    let mut j: usize = 0;
    while j < m.len() && m[j] != '.'
        invariant
            j <= m.len(),
            ms == m@,
            first_index(ms, '.') == j + first_index(ms.skip(j as int), '.'),
        decreases m.len() - j,
    {
        assert(ms.skip(j as int).drop_first() =~= ms.skip(j + 1));
        j = j + 1;
    }
    if j < m.len() {
        assert(ms.skip(j as int)[0] == '.');
    }
    let base = slice_chars(&m, 0, j);
    let upper = to_uppercase(&string_from(&base));
    let uc = chars_of(upper.as_str());
    let mut out = m;
    if is_reserved(&uc) {
        out.push('_');
    }
    string_from(&out)
}


/// Whether an answer means "cancel": after trimming and lower-casing it is
/// empty, `cancel` or `back`.
pub open spec fn cancel_word(input: Seq<char>) -> bool {
    let lower = lowercase_of(trim(input));
    lower.len() == 0 || lower == "cancel"@ || lower == "back"@
}

/// Whether the user backed out of a prompt.
pub fn is_cancel(input: &str) -> (r: bool)
    ensures
        r == cancel_word(input@),
{
    let t = trimmed(input);
    let lower = to_lowercase(t.as_str());
    let lc = chars_of(lower.as_str());
    lc.len() == 0 || chars_eq_str(&lc, "cancel") || chars_eq_str(&lc, "back")
}

/// Whether a (lower-cased) answer is a yes: exactly `y` or `yes`.
pub fn is_yes(s: &str) -> (r: bool)
    ensures
        r == (s@ == "y"@ || s@ == "yes"@),
{
    let c = chars_of(s);
    chars_eq_str(&c, "y") || chars_eq_str(&c, "yes")
}

/// The argument of a hidden delete command: `delete <arg>` or `del <arg>`
/// give the trimmed argument, a bare `delete` or `del` gives the empty
/// argument, and anything else is no delete command.
pub open spec fn del_arg(lower: Seq<char>) -> Option<Seq<char>> {
    if "delete "@.is_prefix_of(lower) {
        Some(trim(lower.skip("delete "@.len() as int)))
    } else if "del "@.is_prefix_of(lower) {
        Some(trim(lower.skip("del "@.len() as int)))
    } else if lower == "delete"@ || lower == "del"@ {
        Some(Seq::<char>::empty())
    } else {
        None
    }
}

/// Reads a hidden delete command out of a lower-cased input line.
pub fn parse_del_arg(lower: &str) -> (r: Option<String>)
    ensures
        r is Some <==> del_arg(lower@) is Some,
        r is Some ==> r->0@ == del_arg(lower@)->0,
{
    let v = chars_of(lower);
    let long = chars_of("delete ");
    let short = chars_of("del ");
    if starts_with(&v, &long) {
        let rest = slice_chars(&v, long.len(), v.len());
        assert(rest@ =~= lower@.skip("delete "@.len() as int));
        let t = trim_chars(&rest);
        Some(string_from(&t))
    } else if starts_with(&v, &short) {
        let rest = slice_chars(&v, short.len(), v.len());
        assert(rest@ =~= lower@.skip("del "@.len() as int));
        let t = trim_chars(&rest);
        Some(string_from(&t))
    } else if chars_eq_str(&v, "delete") || chars_eq_str(&v, "del") {
        let e = String::new();
        Some(e)
    } else {
        None
    }
}

/// The label a snapshot is shown with: its number, then its era in brackets.
pub open spec fn snap_label(idx: nat, era: Seq<char>) -> Seq<char> {
    if era.len() == 0 {
        decimal(idx)
    } else {
        decimal(idx) + " ("@ + era + ")"@
    }
}

/// The label a snapshot is shown with on the restore screen.
pub fn format_snap_label(idx: usize, era: &str) -> (r: String)
    ensures
        r@ == snap_label(idx as nat, era@),
{
    let mut r = decimal_string(idx);
    if era.unicode_len() == 0 {
        r
    } else {
        r.append(" (");
        r.append(era);
        r.append(")");
        r
    }
}

/// The metadata file that records a snapshot's mode and entries.
pub fn snap_meta_filename(snap_folder_name: &str) -> (r: String)
    ensures
        r@ == snap_folder_name@ + ".json"@,
{
    let mut r = String::from_str(snap_folder_name);
    r.append(".json");
    r
}


/// The folder name of chapter `n`: `Chapter ` and the number, two digits wide.
pub open spec fn chapter_folder(n: nat) -> Seq<char> {
    "Chapter "@ + decimal2(n)
}

/// The folder name of chapter `n`.
pub fn chapter_folder_name(n: usize) -> (r: String)
    ensures
        r@ == chapter_folder(n as nat),
{
    let mut r = String::from_str("Chapter ");
    let d = decimal2_string(n);
    r.append(d.as_str());
    r
}

/// The folder name of snapshot `id` with era `label`: the id two digits wide,
/// then `_` and the era when there is one.
pub open spec fn snapshot_folder(id: nat, label: Seq<char>) -> Seq<char> {
    if label.len() == 0 {
        decimal2(id)
    } else {
        decimal2(id) + "_"@ + label
    }
}

/// The folder name of a new snapshot.
pub fn snapshot_folder_name(id: usize, label: &str) -> (r: String)
    ensures
        r@ == snapshot_folder(id as nat, label@),
{
    let mut r = decimal2_string(id);
    if label.unicode_len() > 0 {
        r.append("_");
        r.append(label);
    }
    r
}

} // verus!
