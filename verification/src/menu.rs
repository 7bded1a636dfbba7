//! Menu choices: an option can be picked by its number, by its name, or by
//! both at once (`1 save`), in which case the two must agree.

use vstd::prelude::*;
use crate::names::first_index;
use crate::text::{chars_eq, chars_of, lowercase_of, slice_chars, string_from, to_lowercase, trim, trimmed};

verus! {

/// The options of a menu as plain values: (number, name) pairs.
pub open spec fn options_view(options: Seq<(&str, &str)>) -> Seq<(Seq<char>, Seq<char>)> {
    options.map_values(|o: (&str, &str)| (o.0@, o.1@))
}

/// The number of the first option named `s`.
pub open spec fn find_by_name(opts: Seq<(Seq<char>, Seq<char>)>, s: Seq<char>) -> Option<Seq<char>>
    decreases opts.len(),
{
    if opts.len() == 0 {
        None
    } else if opts[0].1 == s {
        Some(opts[0].0)
    } else {
        find_by_name(opts.drop_first(), s)
    }
}

/// The option that `s` picks: the option numbered `s` if there is one
/// (numbers win over names), otherwise the first option named `s`.
pub open spec fn find_option(opts: Seq<(Seq<char>, Seq<char>)>, s: Seq<char>) -> Option<Seq<char>> {
    if exists|i: int| 0 <= i < opts.len() && #[trigger] opts[i].0 == s {
        Some(s)
    } else {
        find_by_name(opts, s)
    }
}

/// What a menu input picks. The input is trimmed and lower-cased, then split
/// at its first space. One word picks what it names. Two words that pick
/// different options are a conflict (`Err`); otherwise the option either
/// picks is chosen, the first word's before the second's.
pub open spec fn menu_choice(input: Seq<char>, opts: Seq<(Seq<char>, Seq<char>)>) -> Result<Option<Seq<char>>, ()> {
    let lower = lowercase_of(trim(input));
    let i = first_index(lower, ' ');
    if i == lower.len() {
        Ok(find_option(opts, lower))
    } else {
        let a = find_option(opts, lower.take(i as int));
        let b = find_option(opts, lower.skip(i as int + 1));
        match (a, b) {
            (Some(x), Some(y)) => if x != y {
                Err(())
            } else {
                Ok(Some(x))
            },
            (Some(x), None) => Ok(Some(x)),
            (None, Some(y)) => Ok(Some(y)),
            (None, None) => Ok(None),
        }
    }
}

fn find_in(options: &[(&str, &str)], s: &[char]) -> (r: Option<String>)
    ensures
        r is Some <==> find_option(options_view(options@), s@) is Some,
        r is Some ==> r->0@ == find_option(options_view(options@), s@)->0,
{
    let ghost ov = options_view(options@);
    let mut i: usize = 0;
    while i < options.len()
        invariant
            i <= options.len(),
            ov == options_view(options@),
            forall|k: int| 0 <= k < i ==> ov[k].0 != s@,
        decreases options.len() - i,
    {
        let n = chars_of(options[i].0);
        if chars_eq(&n, s) {
            assert(ov[i as int].0 == s@);
            return Some(string_from(s));
        }
        i = i + 1;
    }
    assert(!exists|k: int| 0 <= k < ov.len() && #[trigger] ov[k].0 == s@);
    assert(ov.skip(0) =~= ov);
    let mut j: usize = 0;
    while j < options.len()
        invariant
            j <= options.len(),
            ov == options_view(options@),
            find_by_name(ov, s@) == find_by_name(ov.skip(j as int), s@),
            forall|k: int| 0 <= k < ov.len() ==> ov[k].0 != s@,
        decreases options.len() - j,
    {
        assert(ov.skip(j as int).drop_first() =~= ov.skip(j + 1));
        assert(ov.skip(j as int)[0] == ov[j as int]);
        let name = chars_of(options[j].1);
        if chars_eq(&name, s) {
            assert(ov[j as int].1 == s@);
            assert(ov[j as int].0 == options@[j as int].0@);
            assert(find_by_name(ov.skip(j as int), s@) == Some(ov[j as int].0));
            assert(!(exists|k: int| 0 <= k < ov.len() && #[trigger] ov[k].0 == s@));
            let num = String::from_str(options[j].0);
            return Some(num);
        }
        j = j + 1;
    }
    None
}

/// Reads a menu input against the menu's (number, name) options and returns
/// the number of the option picked, `None` when nothing matches, or `Err`
/// when the number and the name typed pick different options.
pub fn handle_menu_choice(input: &str, options: &[(&str, &str)]) -> (r: Result<Option<String>, ()>)
    ensures
        match menu_choice(input@, options_view(options@)) {
            Err(()) => r is Err,
            Ok(None) => r matches Ok(None),
            Ok(Some(x)) => r matches Ok(Some(y)) && y@ == x,
        },
{
    let t = trimmed(input);
    let lower_s = to_lowercase(t.as_str());
    let lower = chars_of(lower_s.as_str());
    let ghost l = lower@;
    let mut i: usize = 0;
    assert(l.skip(0) =~= l);
    while i < lower.len() && lower[i] != ' '
        invariant
            i <= lower.len(),
            l == lower@,
            first_index(l, ' ') == i + first_index(l.skip(i as int), ' '),
        decreases lower.len() - i,
    {
        assert(l.skip(i as int).drop_first() =~= l.skip(i + 1));
        i = i + 1;
    }
    if i < lower.len() {
        assert(l.skip(i as int)[0] == ' ');
    }
    if i == lower.len() {
        Ok(find_in(options, &lower))
    } else {
        let a = slice_chars(&lower, 0, i);
        let b = slice_chars(&lower, i + 1, lower.len());
        assert(b@ =~= l.skip(i + 1));
        let fa = find_in(options, &a);
        let fb = find_in(options, &b);
        match (fa, fb) {
            (Some(x), Some(y)) => {
                let xc = chars_of(x.as_str());
                let yc = chars_of(y.as_str());
                if !chars_eq(&xc, &yc) {
                    Err(())
                } else {
                    Ok(Some(x))
                }
            },
            (Some(x), None) => Ok(Some(x)),
            (None, Some(y)) => Ok(Some(y)),
            (None, None) => Ok(None),
        }
    }
}

/// Law: a number wins over a name. An input that is, after trimming and
/// lower-casing, the number of an option (a number without spaces) picks that
/// option, even when another option is named the same.
pub proof fn lemma_number_wins(input: Seq<char>, opts: Seq<(Seq<char>, Seq<char>)>, j: int)
    requires
        0 <= j < opts.len(),
        lowercase_of(trim(input)) == opts[j].0,
        first_index(opts[j].0, ' ') == opts[j].0.len(),
    ensures
        menu_choice(input, opts) == Ok::<Option<Seq<char>>, ()>(Some(opts[j].0)),
{
}

} // verus!
