//! Installing and uninstalling Grove: where the shell's profile is, whether
//! Grove's folder is already on the `PATH`, how the `PATH` is extended and
//! cleaned, which terminals get emoji, and which parts of `~/.grove` belong
//! to the user.

use vstd::prelude::*;
use crate::names::{first_index, lemma_first_index, lemma_first_index_concat};
use crate::paths::{join_path, joined, path_with_extension, with_extension_of};
use crate::text::{
    chars_eq, chars_eq_str, chars_of, contains_str, has_sub, lowercase_of, slice_chars, string_from,
    to_lowercase, to_uppercase, uppercase_of, views,
};

verus! {

/// The pieces of `s` between the separators `c` (`str::split`): at least one,
/// possibly empty.
pub open spec fn pieces(s: Seq<char>, c: char) -> Seq<Seq<char>>
    decreases s.len(),
{
    let i = first_index(s, c);
    if i >= s.len() {
        seq![s]
    } else {
        seq![s.take(i as int)] + pieces(s.skip(i as int + 1), c)
    }
}

/// Splits `s` at each `c`.
pub fn split_chars(s: &[char], c: char) -> (r: Vec<Vec<char>>)
    ensures
        r@.map_values(|v: Vec<char>| v@) == pieces(s@, c),
{
    let mut r: Vec<Vec<char>> = Vec::new();
    let mut p: usize = 0;
    assert(s@.skip(0) =~= s@);
    loop
        invariant
            p <= s.len(),
            r@.map_values(|v: Vec<char>| v@) + pieces(s@.skip(p as int), c) == pieces(s@, c),
        decreases s.len() - p,
    {
        let ghost rest = s@.skip(p as int);
        let mut i: usize = p;
        assert(rest.skip(0) =~= rest);
        while i < s.len() && s[i] != c
            invariant
                p <= i <= s.len(),
                rest == s@.skip(p as int),
                first_index(rest, c) == (i - p) + first_index(rest.skip(i - p), c),
            decreases s.len() - i,
        {
            assert(rest.skip(i - p).drop_first() =~= rest.skip(i - p + 1));
            i = i + 1;
        }
        if i < s.len() {
            assert(rest.skip(i - p)[0] == c);
        }
        proof {
            lemma_first_index(rest, c);
        }
        let piece = slice_chars(s, p, i);
        assert(piece@ =~= rest.take(i - p));
        let ghost before = r@;
        r.push(piece);
        assert(r@.map_values(|v: Vec<char>| v@) =~= before.map_values(|v: Vec<char>| v@).push(rest.take(i - p)));
        if i >= s.len() {
            assert(r@.map_values(|v: Vec<char>| v@) =~= before.map_values(|v: Vec<char>| v@) + pieces(rest, c));
            return r;
        }
        assert(rest.skip(i - p + 1) =~= s@.skip(i + 1));
        p = i + 1;
    }
}

// ------------------------------------------------------------------ emoji

/// Whether an environment variable holds a value and `f` holds of it.
pub open spec fn var_holds(v: Option<Seq<char>>, f: spec_fn(Seq<char>) -> bool) -> bool {
    match v {
        Some(x) => f(x),
        None => false,
    }
}

/// Whether a Unix terminal shows emoji, from `TERM_PROGRAM`, `TERM`,
/// `COLORTERM` and the locale variables `LC_ALL`, `LC_CTYPE`, `LANG`.
pub open spec fn emoji_on_unix(
    term_program: Option<Seq<char>>,
    term: Option<Seq<char>>,
    colorterm: Option<Seq<char>>,
    locales: Seq<Option<Seq<char>>>,
) -> bool {
    ||| var_holds(term_program, |t: Seq<char>| {
        let l = lowercase_of(t);
        has_sub(l, "vscode"@) || has_sub(l, "iterm"@) || has_sub(l, "hyper"@) || has_sub(l, "wezterm"@)
    })
    ||| var_holds(term, |t: Seq<char>| t == "xterm-kitty"@ || has_sub(t, "alacritty"@))
    ||| var_holds(colorterm, |t: Seq<char>| lowercase_of(t) == "truecolor"@ || lowercase_of(t) == "24bit"@)
    ||| exists|i: int| 0 <= i < locales.len() && var_holds(#[trigger] locales[i], |t: Seq<char>|
        has_sub(uppercase_of(t), "UTF-8"@) || has_sub(uppercase_of(t), "UTF8"@))
}

/// The contents of an optional environment value.
pub open spec fn opt_seq(v: Option<String>) -> Option<Seq<char>> {
    match v {
        Some(s) => Some(s@),
        None => None,
    }
}

/// Whether a Unix terminal shows emoji. `locales` are the values of
/// `LC_ALL`, `LC_CTYPE` and `LANG`.
pub fn emoji_supported_unix(
    term_program: &Option<String>,
    term: &Option<String>,
    colorterm: &Option<String>,
    locales: &[Option<String>],
) -> (r: bool)
    ensures
        r == emoji_on_unix(opt_seq(*term_program), opt_seq(*term), opt_seq(*colorterm), locales@.map_values(
            |v: Option<String>| opt_seq(v),
        )),
{
    let ghost lv = locales@.map_values(|v: Option<String>| opt_seq(v));
    let a = match term_program {
        Some(tp) => {
            let l = to_lowercase(tp.as_str());
            let lc = chars_of(l.as_str());
            contains_str(&lc, "vscode") || contains_str(&lc, "iterm") || contains_str(&lc, "hyper")
                || contains_str(&lc, "wezterm")
        },
        None => false,
    };
    let b = match term {
        Some(t) => {
            let tc = chars_of(t.as_str());
            chars_eq_str(&tc, "xterm-kitty") || contains_str(&tc, "alacritty")
        },
        None => false,
    };
    let c = match colorterm {
        Some(ct) => {
            let l = to_lowercase(ct.as_str());
            let lc = chars_of(l.as_str());
            chars_eq_str(&lc, "truecolor") || chars_eq_str(&lc, "24bit")
        },
        None => false,
    };
    let mut d = false;
    let mut i: usize = 0;
    while i < locales.len()
        invariant
            i <= locales.len(),
            lv == locales@.map_values(|v: Option<String>| opt_seq(v)),
            d == exists|k: int| 0 <= k < i && var_holds(#[trigger] lv[k], |t: Seq<char>|
                has_sub(uppercase_of(t), "UTF-8"@) || has_sub(uppercase_of(t), "UTF8"@)),
        decreases locales.len() - i,
    {
        let hit = match &locales[i] {
            Some(v) => {
                let u = to_uppercase(v.as_str());
                let uc = chars_of(u.as_str());
                contains_str(&uc, "UTF-8") || contains_str(&uc, "UTF8")
            },
            None => false,
        };
        assert(lv[i as int] == opt_seq(locales@[i as int]));
        d = d || hit;
        i = i + 1;
    }
    a || b || c || d
}

/// Whether a Windows terminal shows emoji, from `WT_SESSION` being set,
/// `TERM_PROGRAM`, and `ConEmuANSI`.
pub open spec fn emoji_on_windows(wt_session_set: bool, term_program: Option<Seq<char>>, conemu_ansi: Option<Seq<char>>) -> bool {
    ||| wt_session_set
    ||| var_holds(term_program, |t: Seq<char>| {
        let l = lowercase_of(t);
        has_sub(l, "vscode"@) || has_sub(l, "hyper"@) || has_sub(l, "wezterm"@)
    })
    ||| var_holds(conemu_ansi, |t: Seq<char>| crate::chapters::eq_ignore_ascii_case(t, "on"@))
}

/// Whether a Windows terminal shows emoji.
pub fn emoji_supported_windows(wt_session_set: bool, term_program: &Option<String>, conemu_ansi: &Option<String>) -> (r: bool)
    ensures
        r == emoji_on_windows(wt_session_set, opt_seq(*term_program), opt_seq(*conemu_ansi)),
{
    if wt_session_set {
        return true;
    }
    let a = match term_program {
        Some(tp) => {
            let l = to_lowercase(tp.as_str());
            let lc = chars_of(l.as_str());
            contains_str(&lc, "vscode") || contains_str(&lc, "hyper") || contains_str(&lc, "wezterm")
        },
        None => false,
    };
    let b = match conemu_ansi {
        Some(v) => {
            let vc = chars_of(v.as_str());
            let on = chars_of("on");
            crate::chapters::chars_eq_ignore_ascii_case(&vc, &on)
        },
        None => false,
    };
    a || b
}

/// Picks the emoji text when the terminal shows emoji, the plain text otherwise.
pub fn em<'a>(emoji_ok: bool, with: &'a str, without: &'a str) -> (r: &'a str)
    ensures
        r == (if emoji_ok { with } else { without }),
{
    if emoji_ok {
        with
    } else {
        without
    }
}

// ------------------------------------------------------------- shell profile

/// The profile file the shell reads: `.zshrc` in `ZDOTDIR` (or the home
/// folder) for zsh, none for fish (set up by hand), otherwise `.bash_profile`
/// on macOS and `.profile` elsewhere, in the home folder.
pub open spec fn shell_config(home: Seq<char>, shell: Seq<char>, zdotdir: Option<Seq<char>>, is_macos: bool) -> Option<Seq<char>> {
    if has_sub(shell, "zsh"@) {
        Some(joined(match zdotdir { Some(z) => z, None => home }, ".zshrc"@))
    } else if has_sub(shell, "fish"@) {
        None
    } else if is_macos {
        Some(joined(home, ".bash_profile"@))
    } else {
        Some(joined(home, ".profile"@))
    }
}

/// The profile file of the user's shell (`SHELL`), where Grove's folder is
/// added to the `PATH`.
pub fn shell_config_path(home: &str, shell: &str, zdotdir: Option<&str>, is_macos: bool) -> (r: Option<String>)
    ensures
        r is Some <==> shell_config(home@, shell@, match zdotdir { Some(z) => Some(z@), None => None }, is_macos) is Some,
        r is Some ==> r->0@ == shell_config(home@, shell@, match zdotdir { Some(z) => Some(z@), None => None }, is_macos)->0,
{
    let sc = chars_of(shell);
    if contains_str(&sc, "zsh") {
        let base = match zdotdir {
            Some(z) => z,
            None => home,
        };
        Some(join_path(base, ".zshrc"))
    } else if contains_str(&sc, "fish") {
        None
    } else if is_macos {
        Some(join_path(home, ".bash_profile"))
    } else {
        Some(join_path(home, ".profile"))
    }
}

/// `s` without the leading and trailing `c` characters (`str::trim_matches`).
pub open spec fn strip_around(s: Seq<char>, c: char) -> Seq<char>
    decreases s.len(),
{
    if s.len() > 0 && s[0] == c {
        strip_around(s.drop_first(), c)
    } else if s.len() > 0 && s.last() == c {
        strip_around(s.drop_last(), c)
    } else {
        s
    }
}

fn strip_around_exec(s: &[char], c: char) -> (r: Vec<char>)
    ensures
        r@ == strip_around(s@, c),
    decreases s.len(),
{
    if s.len() > 0 && s[0] == c {
        let rest = slice_chars(s, 1, s.len());
        assert(rest@ =~= s@.drop_first());
        strip_around_exec(&rest, c)
    } else if s.len() > 0 && s[s.len() - 1] == c {
        let rest = slice_chars(s, 0, s.len() - 1);
        assert(rest@ =~= s@.drop_last());
        strip_around_exec(&rest, c)
    } else {
        slice_chars(s, 0, s.len())
    }
}

/// Whether a profile already puts `dir` on the `PATH`: some `:`-separated
/// piece of it, without surrounding quotes, is `dir`.
pub open spec fn profile_has_dir(profile: Seq<char>, dir: Seq<char>) -> bool {
    exists|i: int| 0 <= i < pieces(profile, ':').len() && strip_around(#[trigger] pieces(profile, ':')[i], '"') == dir
}

/// Whether the profile text already puts `dir` on the `PATH`.
pub fn profile_mentions_dir(profile: &str, dir: &str) -> (r: bool)
    ensures
        r == profile_has_dir(profile@, dir@),
{
    let pc = chars_of(profile);
    let dc = chars_of(dir);
    let parts = split_chars(&pc, ':');
    let ghost pv = parts@.map_values(|v: Vec<char>| v@);
    let mut i: usize = 0;
    while i < parts.len()
        invariant
            i <= parts.len(),
            dc@ == dir@,
            pv == parts@.map_values(|v: Vec<char>| v@),
            pv == pieces(profile@, ':'),
            forall|k: int| 0 <= k < i ==> strip_around(#[trigger] pv[k], '"') != dir@,
        decreases parts.len() - i,
    {
        let s = strip_around_exec(&parts[i], '"');
        assert(pv[i as int] == parts@[i as int]@);
        if chars_eq(&s, &dc) {
            return true;
        }
        i = i + 1;
    }
    false
}

/// The line appended to the profile to put `dir` first on the `PATH`.
pub fn export_line(dir: &str) -> (r: String)
    ensures
        r@ == "\nexport PATH=\""@ + dir@ + ":$PATH\"\n"@,
{
    let mut r = String::from_str("\nexport PATH=\"");
    r.append(dir);
    r.append(":$PATH\"\n");
    r
}

/// The lines of a text (`str::lines`): split after each `\n`, that `\n` and
/// a `\r` before it dropped; no line after a final `\n`.
pub open spec fn lines_of(s: Seq<char>) -> Seq<Seq<char>>
    decreases s.len(),
{
    if s.len() == 0 {
        Seq::empty()
    } else {
        let i = first_index(s, '\n');
        if i >= s.len() {
            seq![s]
        } else {
            let line = s.take(i as int);
            let line = if line.len() > 0 && line.last() == '\r' { line.drop_last() } else { line };
            seq![line] + lines_of(s.skip(i as int + 1))
        }
    }
}

/// The lines joined with `sep` between them.
pub open spec fn joined_with(lines: Seq<Seq<char>>, sep: Seq<char>) -> Seq<char>
    decreases lines.len(),
{
    if lines.len() == 0 {
        Seq::empty()
    } else if lines.len() == 1 {
        lines[0]
    } else {
        joined_with(lines.drop_last(), sep) + sep + lines.last()
    }
}

/// The lines that do not mention `dir`.
pub open spec fn lines_without(lines: Seq<Seq<char>>, dir: Seq<char>) -> Seq<Seq<char>>
    decreases lines.len(),
{
    if lines.len() == 0 {
        lines
    } else {
        let rest = lines_without(lines.drop_last(), dir);
        if has_sub(lines.last(), dir) {
            rest
        } else {
            rest.push(lines.last())
        }
    }
}

/// The profile with Grove's `PATH` line taken out: every line that mentions
/// `dir` is dropped, the rest joined with `\n`, ending in `\n` if the profile
/// did. `None` when no line mentions `dir`.
pub open spec fn profile_without_dir(profile: Seq<char>, dir: Seq<char>) -> Option<Seq<char>> {
    let lines = lines_of(profile);
    if exists|i: int| 0 <= i < lines.len() && has_sub(#[trigger] lines[i], dir) {
        let body = joined_with(lines_without(lines, dir), "\n"@);
        Some(if profile.len() > 0 && profile.last() == '\n' { body + "\n"@ } else { body })
    } else {
        None
    }
}

proof fn lemma_lines_without_filter(lines: Seq<Seq<char>>, dir: Seq<char>)
    ensures
        lines_without(lines, dir) == lines.filter(|l: Seq<char>| !has_sub(l, dir)),
    decreases lines.len(),
{
    let f = |l: Seq<char>| !has_sub(l, dir);
    reveal(Seq::filter);
    if lines.len() > 0 {
        lemma_lines_without_filter(lines.drop_last(), dir);
        assert(lines_without(lines.drop_last(), dir) == lines.drop_last().filter(f));
        assert(lines.filter(f) == (if f(lines.last()) {
            lines.drop_last().filter(f).push(lines.last())
        } else {
            lines.drop_last().filter(f)
        }));
    } else {
        assert(lines.filter(f) == lines);
    }
}

/// Law: uninstalling removes every line of the profile that mentions Grove's
/// folder (also when the installer added its line twice) and keeps every
/// other line, unchanged and in order. The text written back is those kept
/// lines joined by `\n`, ending in `\n` when the profile did; no kept line
/// mentions the folder. When no line mentions it, nothing is written.
pub proof fn lemma_uninstall_removes_every_dir_line(profile: Seq<char>, dir: Seq<char>)
    ensures
        ({
            let kept = lines_of(profile).filter(|l: Seq<char>| !has_sub(l, dir));
            &&& forall|i: int| 0 <= i < kept.len() ==> !has_sub(#[trigger] kept[i], dir)
            &&& forall|i: int|
                0 <= i < lines_of(profile).len() && !has_sub(#[trigger] lines_of(profile)[i], dir)
                    ==> kept.contains(lines_of(profile)[i])
            &&& profile_without_dir(profile, dir) matches Some(q) ==> q == (if profile.len() > 0
                && profile.last() == '\n' {
                joined_with(kept, "\n"@) + "\n"@
            } else {
                joined_with(kept, "\n"@)
            })
            &&& profile_without_dir(profile, dir) is None <==> forall|i: int|
                0 <= i < lines_of(profile).len() ==> !has_sub(#[trigger] lines_of(profile)[i], dir)
        }),
{
    let lines = lines_of(profile);
    let f = |l: Seq<char>| !has_sub(l, dir);
    lemma_lines_without_filter(lines, dir);
    let kept = lines.filter(f);
    assert forall|i: int| 0 <= i < kept.len() implies !has_sub(#[trigger] kept[i], dir) by {
        lines.filter_lemma(f);
        assert(f(kept[i]));
    }
    assert forall|i: int| 0 <= i < lines.len() && !has_sub(#[trigger] lines[i], dir) implies kept.contains(
        lines[i],
    ) by {
        lines.filter_lemma(f);
        assert(f(lines[i]));
    }
}

fn lines_exec(s: &[char]) -> (r: Vec<Vec<char>>)
    ensures
        r@.map_values(|v: Vec<char>| v@) == lines_of(s@),
{
    let mut r: Vec<Vec<char>> = Vec::new();
    let mut p: usize = 0;
    assert(s@.skip(0) =~= s@);
    while p < s.len()
        invariant
            p <= s.len(),
            r@.map_values(|v: Vec<char>| v@) + lines_of(s@.skip(p as int)) == lines_of(s@),
        decreases s.len() - p,
    {
        let ghost rest = s@.skip(p as int);
        let mut i: usize = p;
        assert(rest.skip(0) =~= rest);
        while i < s.len() && s[i] != '\n'
            invariant
                p <= i <= s.len(),
                rest == s@.skip(p as int),
                first_index(rest, '\n') == (i - p) + first_index(rest.skip(i - p), '\n'),
            decreases s.len() - i,
        {
            assert(rest.skip(i - p).drop_first() =~= rest.skip(i - p + 1));
            i = i + 1;
        }
        if i < s.len() {
            assert(rest.skip(i - p)[0] == '\n');
        }
        proof {
            lemma_first_index(rest, '\n');
        }
        let ghost before = r@;
        if i >= s.len() {
            let line = slice_chars(s, p, i);
            assert(line@ =~= rest);
            r.push(line);
            assert(r@.map_values(|v: Vec<char>| v@) =~= before.map_values(|v: Vec<char>| v@) + lines_of(rest));
            assert(s@.skip(s.len() as int) =~= Seq::<char>::empty());
            return r;
        }
        let end = if i > p && s[i - 1] == '\r' { i - 1 } else { i };
        let line = slice_chars(s, p, end);
        proof {
            let t = rest.take(i - p);
            if i > p && s@[i - 1] == '\r' {
                assert(t.last() == s@[i - 1]);
                assert(line@ =~= t.drop_last());
            } else {
                assert(line@ =~= t);
            }
        }
        r.push(line);
        assert(rest.skip(i - p + 1) =~= s@.skip(i + 1));
        assert(r@.map_values(|v: Vec<char>| v@) + lines_of(s@.skip(i + 1)) =~= before.map_values(
            |v: Vec<char>| v@,
        ) + lines_of(rest));
        p = i + 1;
    }
    assert(s@.skip(p as int) =~= Seq::<char>::empty());
    assert(r@.map_values(|v: Vec<char>| v@) + Seq::<Seq<char>>::empty() =~= r@.map_values(|v: Vec<char>| v@));
    r
}

/// The profile text with Grove's `PATH` line taken out, or `None` when no
/// line mentions `dir`.
pub fn profile_without_path(profile: &str, dir: &str) -> (r: Option<String>)
    ensures
        r is Some <==> profile_without_dir(profile@, dir@) is Some,
        r is Some ==> r->0@ == profile_without_dir(profile@, dir@)->0,
{
    let pc = chars_of(profile);
    let dc = chars_of(dir);
    let lines = lines_exec(&pc);
    let ghost lv = lines@.map_values(|v: Vec<char>| v@);
    let mut any = false;
    let mut kept: Vec<char> = Vec::new();
    let mut n_kept: usize = 0;
    let mut i: usize = 0;
    while i < lines.len()
        invariant
            i <= lines.len(),
            dc@ == dir@,
            lv == lines@.map_values(|v: Vec<char>| v@),
            any == exists|k: int| 0 <= k < i && has_sub(#[trigger] lv[k], dir@),
            n_kept == lines_without(lv.take(i as int), dir@).len(),
            n_kept <= i,
            kept@ == joined_with(lines_without(lv.take(i as int), dir@), "\n"@),
        decreases lines.len() - i,
    {
        assert(lv.take(i + 1).drop_last() =~= lv.take(i as int));
        assert(lv[i as int] == lines@[i as int]@);
        let hit = crate::text::contains_sub(&lines[i], &dc);
        if hit {
            any = true;
        } else {
            let ghost prev = lines_without(lv.take(i as int), dir@);
            if n_kept > 0 {
                kept.push('\n');
                proof {
                    reveal_strlit("\n");
                }
            }
            let ghost base = kept@;
            kept = crate::text::concat_chars(&kept, &lines[i]);
            proof {
                let now = prev.push(lv[i as int]);
                assert(now.drop_last() =~= prev);
                if n_kept > 0 {
                    assert(kept@ =~= joined_with(prev, "\n"@) + "\n"@ + lv[i as int]);
                } else {
                    assert(prev.len() == 0);
                    assert(kept@ =~= lv[i as int]);
                }
            }
            n_kept = n_kept + 1;
        }
        i = i + 1;
    }
    assert(lv.take(lines.len() as int) =~= lv);
    if !any {
        return None;
    }
    if pc.len() > 0 && pc[pc.len() - 1] == '\n' {
        kept.push('\n');
        proof {
            reveal_strlit("\n");
        }
    }
    Some(string_from(&kept))
}

// ------------------------------------------------------------- Windows PATH

/// What adding Grove's folder to the Windows user `PATH` does.
#[derive(PartialEq, Eq, Debug)]
pub enum PathAddition {
    /// Some entry already is the folder (in any letter case).
    AlreadyPresent,
    /// The new value would be longer than 32,000 bytes; add it by hand.
    TooLong,
    /// Store this new value.
    Updated(String),
}

/// The longest `PATH` value Grove writes, in bytes (the registry allows 32,767 UTF-16 units).
pub const MAX_PATH_VALUE: usize = 32000;

/// The `PATH` value with `dir` appended after a `;` (none when the value is
/// empty or already ends with `;`).
pub open spec fn path_with_dir(current: Seq<char>, dir: Seq<char>) -> Seq<char> {
    if current.len() == 0 || current.last() == ';' {
        current + dir
    } else {
        current + ";"@ + dir
    }
}

/// Whether some `;`-separated entry of the `PATH` is `dir`, ignoring case.
pub open spec fn path_has_dir(current: Seq<char>, dir: Seq<char>) -> bool {
    exists|i: int| 0 <= i < pieces(current, ';').len() && lowercase_of(#[trigger] pieces(current, ';')[i]) == lowercase_of(dir)
}

fn path_has_dir_exec(current: &[char], dir: &str) -> (r: bool)
    ensures
        r == path_has_dir(current@, dir@),
{
    let dl = to_lowercase(dir);
    let dc = chars_of(dl.as_str());
    let parts = split_chars(current, ';');
    let ghost pv = parts@.map_values(|v: Vec<char>| v@);
    let mut i: usize = 0;
    while i < parts.len()
        invariant
            i <= parts.len(),
            dc@ == lowercase_of(dir@),
            pv == parts@.map_values(|v: Vec<char>| v@),
            pv == pieces(current@, ';'),
            forall|k: int| 0 <= k < i ==> lowercase_of(#[trigger] pv[k]) != lowercase_of(dir@),
        decreases parts.len() - i,
    {
        let e = string_from(&parts[i]);
        let el = to_lowercase(e.as_str());
        let ec = chars_of(el.as_str());
        assert(pv[i as int] == parts@[i as int]@);
        if chars_eq(&ec, &dc) {
            return true;
        }
        i = i + 1;
    }
    false
}

/// Adds Grove's folder to the Windows user `PATH` value `current`.
pub fn windows_path_addition(current: &str, dir: &str) -> (r: PathAddition)
    ensures
        r == PathAddition::AlreadyPresent <==> path_has_dir(current@, dir@),
        !path_has_dir(current@, dir@) ==> (r == PathAddition::TooLong <==> crate::text::utf8_len(
            path_with_dir(current@, dir@),
        ) > MAX_PATH_VALUE),
        r matches PathAddition::Updated(v) ==> v@ == path_with_dir(current@, dir@) && !path_has_dir(
            current@,
            dir@,
        ),
{
    let cc = chars_of(current);
    if path_has_dir_exec(&cc, dir) {
        return PathAddition::AlreadyPresent;
    }
    let mut updated = String::from_str(current);
    if !(cc.len() == 0 || cc[cc.len() - 1] == ';') {
        updated.append(";");
    }
    updated.append(dir);
    let uc = chars_of(updated.as_str());
    if crate::text::utf8_len_exceeds(&uc, MAX_PATH_VALUE) {
        PathAddition::TooLong
    } else {
        PathAddition::Updated(updated)
    }
}

/// The `PATH` entries other than `dir` (compared ignoring case).
pub open spec fn entries_without(entries: Seq<Seq<char>>, dir: Seq<char>) -> Seq<Seq<char>>
    decreases entries.len(),
{
    if entries.len() == 0 {
        entries
    } else {
        let rest = entries_without(entries.drop_last(), dir);
        if lowercase_of(entries.last()) == lowercase_of(dir) {
            rest
        } else {
            rest.push(entries.last())
        }
    }
}

/// The Windows user `PATH` without Grove's folder, or `None` when that
/// changes nothing.
pub open spec fn path_without_dir(current: Seq<char>, dir: Seq<char>) -> Option<Seq<char>> {
    let updated = joined_with(entries_without(pieces(current, ';'), dir), ";"@);
    if updated == current {
        None
    } else {
        Some(updated)
    }
}

/// Takes Grove's folder out of the Windows user `PATH` value `current`.
pub fn windows_path_removal(current: &str, dir: &str) -> (r: Option<String>)
    ensures
        r is Some <==> path_without_dir(current@, dir@) is Some,
        r is Some ==> r->0@ == path_without_dir(current@, dir@)->0,
{
    let cc = chars_of(current);
    let dl = to_lowercase(dir);
    let dc = chars_of(dl.as_str());
    let parts = split_chars(&cc, ';');
    let ghost pv = parts@.map_values(|v: Vec<char>| v@);
    let mut kept: Vec<char> = Vec::new();
    let mut n_kept: usize = 0;
    let mut i: usize = 0;
    while i < parts.len()
        invariant
            i <= parts.len(),
            dc@ == lowercase_of(dir@),
            pv == parts@.map_values(|v: Vec<char>| v@),
            n_kept == entries_without(pv.take(i as int), dir@).len(),
            n_kept <= i,
            kept@ == joined_with(entries_without(pv.take(i as int), dir@), ";"@),
        decreases parts.len() - i,
    {
        assert(pv.take(i + 1).drop_last() =~= pv.take(i as int));
        assert(pv[i as int] == parts@[i as int]@);
        let e = string_from(&parts[i]);
        let el = to_lowercase(e.as_str());
        let ec = chars_of(el.as_str());
        if !chars_eq(&ec, &dc) {
            let ghost prev = entries_without(pv.take(i as int), dir@);
            if n_kept > 0 {
                kept.push(';');
                proof {
                    reveal_strlit(";");
                }
            }
            kept = crate::text::concat_chars(&kept, &parts[i]);
            proof {
                let now = prev.push(pv[i as int]);
                assert(now.drop_last() =~= prev);
                if n_kept > 0 {
                    assert(kept@ =~= joined_with(prev, ";"@) + ";"@ + pv[i as int]);
                } else {
                    assert(prev.len() == 0);
                    assert(kept@ =~= pv[i as int]);
                }
            }
            n_kept = n_kept + 1;
        }
        i = i + 1;
    }
    assert(pv.take(parts.len() as int) =~= pv);
    if chars_eq(&kept, &cc) {
        None
    } else {
        Some(string_from(&kept))
    }
}

proof fn lemma_pieces_nonempty(s: Seq<char>, c: char)
    ensures
        pieces(s, c).len() >= 1,
    decreases s.len(),
{
    lemma_first_index(s, c);
    if first_index(s, c) < s.len() {
        lemma_pieces_nonempty(s.skip(first_index(s, c) as int + 1), c);
    }
}

/// Appending text without separators extends the last piece.
proof fn lemma_pieces_extend(s: Seq<char>, d: Seq<char>, c: char)
    requires
        forall|i: int| 0 <= i < d.len() ==> d[i] != c,
    ensures
        pieces(s + d, c) == pieces(s, c).drop_last().push(pieces(s, c).last() + d),
    decreases s.len(),
{
    lemma_first_index(s, c);
    lemma_first_index(d, c);
    lemma_first_index_concat(s, d, c);
    let i = first_index(s, c);
    if i >= s.len() {
        assert(first_index(d, c) == d.len());
        assert(seq![s].drop_last().push(s + d) =~= seq![s + d]);
    } else {
        let rest = s.skip(i as int + 1);
        lemma_pieces_extend(rest, d, c);
        lemma_pieces_nonempty(rest, c);
        assert((s + d).take(i as int) =~= s.take(i as int));
        assert((s + d).skip(i as int + 1) =~= rest + d);
        let pr = pieces(rest, c);
        let h = seq![s.take(i as int)];
        assert((h + pr).drop_last() =~= h + pr.drop_last());
        assert((h + pr).last() == pr.last());
        assert(h + pr.drop_last().push(pr.last() + d) =~= (h + pr.drop_last()).push(pr.last() + d));
    }
}

/// Appending a separator adds an empty last piece.
proof fn lemma_pieces_sep(s: Seq<char>, c: char)
    ensures
        pieces(s.push(c), c) == pieces(s, c).push(Seq::<char>::empty()),
    decreases s.len(),
{
    lemma_first_index(s, c);
    lemma_first_index_concat(s, seq![c], c);
    assert(s.push(c) =~= s + seq![c]);
    assert(first_index(seq![c], c) == 0);
    let i = first_index(s, c);
    let t = s.push(c);
    if i >= s.len() {
        assert(t.take(s.len() as int) =~= s);
        assert(t.skip(s.len() as int + 1) =~= Seq::<char>::empty());
        assert(first_index(Seq::<char>::empty(), c) == 0);
        assert(pieces(Seq::<char>::empty(), c) == seq![Seq::<char>::empty()]);
        assert(seq![s] + seq![Seq::<char>::empty()] =~= seq![s].push(Seq::<char>::empty()));
    } else {
        let rest = s.skip(i as int + 1);
        lemma_pieces_sep(rest, c);
        assert(t.take(i as int) =~= s.take(i as int));
        assert(t.skip(i as int + 1) =~= rest.push(c));
        let h = seq![s.take(i as int)];
        assert(h + pieces(rest, c).push(Seq::<char>::empty()) =~= (h + pieces(rest, c)).push(
            Seq::<char>::empty(),
        ));
    }
}

proof fn lemma_joined_front(a: Seq<char>, l: Seq<Seq<char>>, sep: Seq<char>)
    requires
        l.len() > 0,
    ensures
        joined_with(seq![a] + l, sep) == a + sep + joined_with(l, sep),
    decreases l.len(),
{
    let m = seq![a] + l;
    if l.len() == 1 {
        assert(m.len() == 2);
        assert(m.drop_last() =~= seq![a]);
        assert(m.last() == l[0]);
        assert(joined_with(seq![a], sep) == a);
        assert(joined_with(l, sep) == l[0]);
    } else {
        lemma_joined_front(a, l.drop_last(), sep);
        assert(m.drop_last() =~= seq![a] + l.drop_last());
        assert(m.last() == l.last());
        assert((a + sep + joined_with(l.drop_last(), sep)) + sep + l.last() =~= a + sep + (joined_with(
            l.drop_last(),
            sep,
        ) + sep + l.last()));
    }
}

/// Joining the pieces of `s` with the separator gives `s` back.
proof fn lemma_joined_pieces(s: Seq<char>, c: char)
    ensures
        joined_with(pieces(s, c), seq![c]) == s,
    decreases s.len(),
{
    lemma_first_index(s, c);
    let i = first_index(s, c);
    if i < s.len() {
        let rest = s.skip(i as int + 1);
        lemma_joined_pieces(rest, c);
        lemma_pieces_nonempty(rest, c);
        lemma_joined_front(s.take(i as int), pieces(rest, c), seq![c]);
        assert(s.take(i as int) + seq![c] + rest =~= s);
    }
}

proof fn lemma_entries_without_none(l: Seq<Seq<char>>, dir: Seq<char>)
    requires
        forall|i: int| 0 <= i < l.len() ==> lowercase_of(#[trigger] l[i]) != lowercase_of(dir),
    ensures
        entries_without(l, dir) == l,
    decreases l.len(),
{
    if l.len() > 0 {
        assert forall|i: int| 0 <= i < l.drop_last().len() implies lowercase_of(#[trigger] l.drop_last()[i])
            != lowercase_of(dir) by {
            assert(l.drop_last()[i] == l[i]);
        }
        lemma_entries_without_none(l.drop_last(), dir);
        assert(lowercase_of(l[l.len() - 1]) != lowercase_of(dir));
        assert(l.drop_last().push(l.last()) =~= l);
    }
}

/// Law: the uninstaller's `PATH` change undoes the installer's. Adding Grove's
/// folder to a `PATH` value that does not hold it yet gives a value that holds
/// it (so installing again changes nothing), and taking it out of that value
/// gives the original value back. Stated for values that do not end in `;`
/// and folders without `;`.
pub proof fn lemma_path_removal_undoes_addition(current: Seq<char>, dir: Seq<char>)
    requires
        !path_has_dir(current, dir),
        current.len() == 0 || current.last() != ';',
        forall|i: int| 0 <= i < dir.len() ==> dir[i] != ';',
    ensures
        path_has_dir(path_with_dir(current, dir), dir),
        path_without_dir(path_with_dir(current, dir), dir) == Some(current),
{
    reveal_strlit(";");
    assert(";"@ =~= seq![';']);
    let added = path_with_dir(current, dir);
    let p = pieces(current, ';');
    lemma_pieces_nonempty(current, ';');
    lemma_first_index(dir, ';');
    if current.len() == 0 {
        lemma_first_index(current, ';');
        assert(p == seq![current]);
        if dir.len() == 0 {
            assert(dir =~= current);
            assert(lowercase_of(p[0]) == lowercase_of(dir));
        }
        assert(added =~= dir);
        assert(first_index(dir, ';') == dir.len());
        assert(pieces(dir, ';') == seq![dir]);
        assert(lowercase_of(pieces(added, ';')[0]) == lowercase_of(dir));
        assert(seq![dir].drop_last() =~= Seq::<Seq<char>>::empty());
        assert(seq![dir].last() == dir);
        assert(entries_without(Seq::<Seq<char>>::empty(), dir) == Seq::<Seq<char>>::empty());
        assert(entries_without(seq![dir], dir) == Seq::<Seq<char>>::empty());
        assert(added != current);
    } else {
        let t = current.push(';');
        assert(added =~= t + dir);
        lemma_pieces_sep(current, ';');
        lemma_pieces_extend(t, dir, ';');
        assert(p.push(Seq::<char>::empty()).drop_last() =~= p);
        assert(Seq::<char>::empty() + dir =~= dir);
        assert(pieces(added, ';') == p.push(dir));
        assert(p.push(dir)[p.len() as int] == dir);
        assert(lowercase_of(pieces(added, ';')[p.len() as int]) == lowercase_of(dir));
        assert forall|i: int| 0 <= i < p.len() implies lowercase_of(#[trigger] p[i]) != lowercase_of(dir) by {
            if lowercase_of(p[i]) == lowercase_of(dir) {
                assert(lowercase_of(pieces(current, ';')[i]) == lowercase_of(dir));
            }
        }
        lemma_entries_without_none(p, dir);
        assert(p.push(dir).drop_last() =~= p);
        assert(entries_without(p.push(dir), dir) == p);
        lemma_joined_pieces(current, ';');
        assert(added.len() > current.len());
    }
}

// --------------------------------------------------------- files of ~/.grove

/// The folder inside `~/.grove` that holds the user's projects and that the
/// uninstaller leaves in place.
pub fn is_grove_root_entry(name: &str) -> (r: bool)
    ensures
        r == (name@ == "Grove Root"@),
{
    let c = chars_of(name);
    chars_eq_str(&c, "Grove Root")
}

/// Where a binary is installed, and the temporary file it is written to first.
#[derive(Debug)]
pub struct InstallTarget {
    pub path: String,
    pub temp: String,
}

/// The installed location of the binary `name` in `dir`, and the `.tmp` file
/// next to it that is written first and then renamed into place.
pub fn install_binary(dir: &str, name: &str) -> (r: InstallTarget)
    ensures
        r.path@ == joined(dir@, name@),
        r.temp@ == with_extension_of(joined(dir@, name@), "tmp"@),
{
    let path = join_path(dir, name);
    proof {
        reveal_strlit("tmp");
    }
    let temp = path_with_extension(path.as_str(), "tmp");
    InstallTarget { path, temp }
}


/// The launcher entry that puts Grove in a Linux desktop's application menu.
pub fn desktop_entry(bin_path: &str) -> (r: String)
    ensures
        r@ == "[Desktop Entry]\nName=Grove\nExec="@ + bin_path@
            + "\nIcon=grove\nType=Application\nCategories=Utility;\nTerminal=true\n"@,
{
    let mut r = String::from_str("[Desktop Entry]\nName=Grove\nExec=");
    r.append(bin_path);
    r.append("\nIcon=grove\nType=Application\nCategories=Utility;\nTerminal=true\n");
    r
}

/// `s` with each `"` written as `\"`.
pub open spec fn escape_quotes(s: Seq<char>) -> Seq<char>
    decreases s.len(),
{
    if s.len() == 0 {
        s
    } else if s.last() == '"' {
        escape_quotes(s.drop_last()) + seq!['\\', '"']
    } else {
        escape_quotes(s.drop_last()).push(s.last())
    }
}

/// The script the macOS app bundle runs: it opens Terminal running Grove.
pub fn mac_launcher_script(bin_path: &str) -> (r: String)
    ensures
        r@ == "#!/bin/bash\nosascript <<'APPLESCRIPT'\ntell application \"Terminal\" to do script \""@
            + escape_quotes(bin_path@) + "\"\nAPPLESCRIPT\n"@,
{
    let c = chars_of(bin_path);
    let mut e: Vec<char> = Vec::new();
    let mut i: usize = 0;
    while i < c.len()
        invariant
            i <= c.len(),
            e@ == escape_quotes(c@.take(i as int)),
        decreases c.len() - i,
    {
        assert(c@.take(i + 1).drop_last() =~= c@.take(i as int));
        if c[i] == '"' {
            e.push('\\');
            e.push('"');
        } else {
            e.push(c[i]);
        }
        i = i + 1;
        assert(e@ =~= escape_quotes(c@.take(i as int)));
    }
    assert(c@.take(c.len() as int) =~= c@);
    let mut r = String::from_str("#!/bin/bash\nosascript <<'APPLESCRIPT'\ntell application \"Terminal\" to do script \"");
    let es = string_from(&e);
    r.append(es.as_str());
    r.append("\"\nAPPLESCRIPT\n");
    r
}

/// The `cmd /c` command line that deletes the relocated uninstaller `exe`
/// two seconds after it exits.
pub fn self_delete_command(exe: &str) -> (r: String)
    ensures
        r@ == "ping 127.0.0.1 -n 3 >nul & del /f /q \""@ + exe@ + "\""@,
{
    let mut r = String::from_str("ping 127.0.0.1 -n 3 >nul & del /f /q \"");
    r.append(exe);
    r.append("\"");
    r
}

} // verus!
