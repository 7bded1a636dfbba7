//! What goes where in a snapshot: for each tracked item still present, the
//! name it is stored under and the original path it is restored to. The
//! caller copies the files and records the pairs in the snapshot's mapping
//! in the order given (a later pair with the same stored name replaces an
//! earlier one, as a map insert does).

use vstd::prelude::*;
use crate::flat::{file_name_of, flat_name_given, flat_stored_name, lemma_free_copy, NameCounts};
use crate::paths::{
    common_prefix_path, components_of, get_common_prefix, join_path, joined, path_parts,
    relative_path, relative_to_prefix, PartKind,
};
use crate::text::views;

verus! {

/// A stored name and the original path it belongs to, as plain values.
pub type PairView = (Seq<char>, Seq<char>);

/// The plain values of a list of pairs.
pub open spec fn pairs_view(v: Seq<(String, String)>) -> Seq<PairView> {
    v.map_values(|p: (String, String)| (p.0@, p.1@))
}

/// How many of the first `i` present items have the key `k`.
pub open spec fn occurrences(keys: Seq<Seq<char>>, present: Seq<bool>, i: int, k: Seq<char>) -> nat
    decreases i,
{
    if i <= 0 {
        0
    } else {
        occurrences(keys, present, i - 1, k) + if present[i - 1] && keys[i - 1] == k {
            1nat
        } else {
            0nat
        }
    }
}

/// The stored names of a list of pairs, in order.
pub open spec fn stored_names(pairs: Seq<PairView>) -> Seq<Seq<char>> {
    pairs.map_values(|p: PairView| p.0)
}

/// The flat-mode pairs for the first `n` items: each present item is stored
/// under the name `flat_name_given` picks for it, given the names stored
/// before it.
pub open spec fn flat_pairs_upto(
    keys: Seq<Seq<char>>,
    srcs: Seq<Seq<char>>,
    originals: Seq<Seq<char>>,
    present: Seq<bool>,
    n: int,
) -> Seq<PairView>
    decreases n,
{
    if n <= 0 {
        Seq::empty()
    } else {
        let rest = flat_pairs_upto(keys, srcs, originals, present, n - 1);
        if present[n - 1] {
            rest.push(
                (
                    flat_name_given(
                        keys[n - 1],
                        file_name_of(components_of(srcs[n - 1])),
                        stored_names(rest),
                        occurrences(keys, present, n - 1, keys[n - 1]),
                    ),
                    originals[n - 1],
                ),
            )
        } else {
            rest
        }
    }
}

/// Flat-mode pairs for items counted by `keys`, named after `srcs` when
/// renamed, and restored to `originals`.
fn flat_pairs(keys: &[String], srcs: &[String], originals: &[String], present: &[bool]) -> (r: Vec<(String, String)>)
    requires
        keys.len() == srcs.len(),
        keys.len() == originals.len(),
        keys.len() == present.len(),
        keys.len() + keys.len() + 2 <= usize::MAX,
    ensures
        pairs_view(r@) == flat_pairs_upto(views(keys@), views(srcs@), views(originals@), present@, keys.len() as int),
{
    let ghost kv = views(keys@);
    let mut counts = NameCounts::new();
    let mut r: Vec<(String, String)> = Vec::new();
    let mut i: usize = 0;
    while i < keys.len()
        invariant
            i <= keys.len(),
            keys.len() == srcs.len(),
            keys.len() == originals.len(),
            keys.len() == present.len(),
            keys.len() + keys.len() + 2 <= usize::MAX,
            kv == views(keys@),
            counts.wf(),
            r.len() <= i,
            counts.stored() == stored_names(pairs_view(r@)),
            forall|k: Seq<char>|
                #[trigger] counts.count(k) == if occurrences(kv, present@, i as int, k) == 0 {
                    None
                } else {
                    Some((occurrences(kv, present@, i as int, k) - 1) as usize)
                },
            forall|k: Seq<char>| #[trigger] occurrences(kv, present@, i as int, k) <= i,
            pairs_view(r@) == flat_pairs_upto(kv, views(srcs@), views(originals@), present@, i as int),
        decreases keys.len() - i,
    {
        if present[i] {
            let k = keys[i].as_str();
            assert(kv[i as int] == keys@[i as int]@);
            let stored = flat_stored_name(k, srcs[i].as_str(), &mut counts);
            let ghost before = r@;
            r.push((stored, originals[i].clone()));
            proof {
                assert(views(srcs@)[i as int] == srcs@[i as int]@);
                assert(views(originals@)[i as int] == originals@[i as int]@);
                assert(pairs_view(r@) =~= pairs_view(before).push((stored@, views(originals@)[i as int])));
                assert(stored_names(pairs_view(r@)) =~= stored_names(pairs_view(before)).push(stored@));
            }
        }
        proof {
            assert forall|k: Seq<char>| #[trigger] occurrences(kv, present@, i + 1, k) <= i + 1 by {
                assert(occurrences(kv, present@, i as int, k) <= i);
            }
        }
        i = i + 1;
    }
    r
}

/// Whether the path's last component is a name (it has a file name).
pub open spec fn has_file_name(path: Seq<char>) -> bool {
    let c = components_of(path);
    c.len() > 0 && c.last().0 == PartKind::Normal
}

/// The file name of a path, or `None` when it has none.
fn file_name(path: &str) -> (r: Option<String>)
    ensures
        r is Some <==> has_file_name(path@),
        r is Some ==> r->0@ == file_name_of(components_of(path@)),
{
    let parts = path_parts(path);
    let n = parts.len();
    if n > 0 && parts[n - 1].kind == PartKind::Normal {
        assert(crate::paths::parts_view(parts@)[n - 1] == parts@[n - 1]@);
        Some(parts[n - 1].text.clone())
    } else {
        None
    }
}

/// The file names of the paths, or `None` when a present path has none.
fn file_names(paths: &[String], present: &[bool]) -> (r: Option<Vec<String>>)
    requires
        paths.len() == present.len(),
    ensures
        r is None <==> exists|i: int| 0 <= i < paths.len() && present@[i] && !has_file_name(#[trigger] paths@[i]@),
        r is Some ==> r->0.len() == paths.len() && forall|i: int|
            0 <= i < paths.len() && present@[i] ==> (#[trigger] r->0@[i])@ == file_name_of(
                components_of(paths@[i]@),
            ),
{
    let mut names: Vec<String> = Vec::new();
    let mut i: usize = 0;
    while i < paths.len()
        invariant
            i <= paths.len(),
            paths.len() == present.len(),
            names.len() == i,
            forall|j: int| 0 <= j < i && present@[j] ==> has_file_name(#[trigger] paths@[j]@),
            forall|j: int|
                0 <= j < i && present@[j] ==> (#[trigger] names@[j])@ == file_name_of(components_of(paths@[j]@)),
        decreases paths.len() - i,
    {
        if present[i] {
            match file_name(paths[i].as_str()) {
                Some(n) => names.push(n),
                None => {
                    return None;
                },
            }
        } else {
            names.push(String::new());
        }
        i = i + 1;
    }
    Some(names)
}

proof fn lemma_occurrences_agree(a: Seq<Seq<char>>, b: Seq<Seq<char>>, present: Seq<bool>, i: int, k: Seq<char>)
    requires
        a.len() == b.len(),
        present.len() == a.len(),
        0 <= i <= a.len(),
        forall|j: int| 0 <= j < a.len() && present[j] ==> a[j] == b[j],
    ensures
        occurrences(a, present, i, k) == occurrences(b, present, i, k),
    decreases i,
{
    if i > 0 {
        lemma_occurrences_agree(a, b, present, i - 1, k);
    }
}

proof fn lemma_flat_pairs_agree(
    a: Seq<Seq<char>>,
    b: Seq<Seq<char>>,
    srcs: Seq<Seq<char>>,
    originals: Seq<Seq<char>>,
    present: Seq<bool>,
    n: int,
)
    requires
        a.len() == b.len(),
        present.len() == a.len(),
        0 <= n <= a.len(),
        forall|j: int| 0 <= j < a.len() && present[j] ==> a[j] == b[j],
    ensures
        flat_pairs_upto(a, srcs, originals, present, n) == flat_pairs_upto(b, srcs, originals, present, n),
    decreases n,
{
    if n > 0 {
        lemma_flat_pairs_agree(a, b, srcs, originals, present, n - 1);
        if present[n - 1] {
            lemma_occurrences_agree(a, b, present, n - 1, a[n - 1]);
        }
    }
}

/// The flat-mode pairs of a new snapshot of `paths`, where `present[i]` says
/// whether `paths[i]` exists: each present path is stored under its file
/// name, repeated names as numbered copies, and no two under the same name
/// (a copy number whose name is already used is skipped). The file names of
/// the present paths count the repeats.
pub open spec fn flat_snapshot_pairs(paths: Seq<Seq<char>>, present: Seq<bool>) -> Seq<PairView> {
    flat_pairs_upto(
        paths.map_values(|p: Seq<char>| file_name_of(components_of(p))),
        paths,
        paths,
        present,
        paths.len() as int,
    )
}

/// Plans a new flat snapshot of `paths` (`present[i]`: whether `paths[i]`
/// exists). `None` when a present path has no file name (the root, or a path
/// ending in `..`), which cannot be stored flat.
pub fn flat_snapshot_plan(paths: &[String], present: &[bool]) -> (r: Option<Vec<(String, String)>>)
    requires
        paths.len() == present.len(),
        paths.len() + paths.len() + 2 <= usize::MAX,
    ensures
        r is None <==> exists|i: int| 0 <= i < paths.len() && present@[i] && !has_file_name(#[trigger] paths@[i]@),
        r is Some ==> pairs_view(r->0@) == flat_snapshot_pairs(views(paths@), present@),
        r is Some ==> stored_names(pairs_view(r->0@)).no_duplicates(),
{
    proof {
        let pv = views(paths@);
        lemma_flat_names_distinct(
            pv.map_values(|p: Seq<char>| file_name_of(components_of(p))),
            pv,
            pv,
            present@,
            pv.len() as int,
        );
    }
    match file_names(paths, present) {
        None => None,
        Some(keys) => {
            let r = flat_pairs(&keys, paths, paths, present);
            proof {
                let pv = views(paths@);
                let fk = pv.map_values(|p: Seq<char>| file_name_of(components_of(p)));
                assert forall|j: int| 0 <= j < keys.len() && present@[j] implies views(keys@)[j] == fk[j] by {
                    assert(views(keys@)[j] == keys@[j]@);
                }
                lemma_flat_pairs_agree(views(keys@), fk, pv, pv, present@, keys.len() as int);
            }
            Some(r)
        },
    }
}

/// The labyrinth-mode pairs for the first `n` items: each present item is
/// stored under its path relative to `prefix`.
pub open spec fn labyrinth_pairs_upto(originals: Seq<Seq<char>>, present: Seq<bool>, prefix: Seq<char>, n: int) -> Seq<PairView>
    decreases n,
{
    if n <= 0 {
        Seq::empty()
    } else {
        let rest = labyrinth_pairs_upto(originals, present, prefix, n - 1);
        if present[n - 1] {
            rest.push((relative_path(originals[n - 1], prefix), originals[n - 1]))
        } else {
            rest
        }
    }
}

/// The labyrinth-mode pairs for items restored to `originals`: each present
/// item is stored under its path relative to the folder all of `originals`
/// share (present or not).
pub open spec fn labyrinth_pairs(originals: Seq<Seq<char>>, present: Seq<bool>) -> Seq<PairView> {
    labyrinth_pairs_upto(originals, present, common_prefix_path(originals), originals.len() as int)
}

/// Plans a labyrinth snapshot (or a conversion to labyrinth mode) of the
/// items restored to `originals` (`present[i]`: whether item `i` is there to
/// copy).
pub fn labyrinth_plan(originals: &[String], present: &[bool]) -> (r: Vec<(String, String)>)
    requires
        originals.len() == present.len(),
    ensures
        pairs_view(r@) == labyrinth_pairs(views(originals@), present@),
{
    let prefix = get_common_prefix(originals);
    let ghost ov = views(originals@);
    assert(originals@.map_values(|s: String| s@) =~= ov);
    let mut r: Vec<(String, String)> = Vec::new();
    let mut i: usize = 0;
    while i < originals.len()
        invariant
            i <= originals.len(),
            originals.len() == present.len(),
            ov == views(originals@),
            prefix@ == common_prefix_path(ov),
            pairs_view(r@) == labyrinth_pairs_upto(ov, present@, prefix@, i as int),
        decreases originals.len() - i,
    {
        if present[i] {
            let rel = relative_to_prefix(originals[i].as_str(), prefix.as_str());
            let ghost before = r@;
            r.push((rel, originals[i].clone()));
            assert(ov[i as int] == originals@[i as int]@);
            assert(pairs_view(r@) =~= pairs_view(before).push((relative_path(ov[i as int], prefix@), ov[i as int])));
        }
        i = i + 1;
    }
    r
}

/// The flat-mode pairs of a labyrinth snapshot converted to flat mode: each
/// entry (stored path, original path) still present in the snapshot folder
/// is counted by its original's file name and renamed after the stored file
/// inside `snapshot_dir`.
pub open spec fn flat_conversion_pairs(snapshot_dir: Seq<char>, entries: Seq<PairView>, present: Seq<bool>) -> Seq<PairView> {
    flat_pairs_upto(
        entries.map_values(|e: PairView| file_name_of(components_of(e.1))),
        entries.map_values(|e: PairView| joined(snapshot_dir, e.0)),
        entries.map_values(|e: PairView| e.1),
        present,
        entries.len() as int,
    )
}

/// Plans converting a labyrinth snapshot in `snapshot_dir` with mapping
/// `entries` (in mapping order) to flat mode (`present[i]`: whether entry
/// `i`'s stored item is in the folder). `None` when a present entry's
/// original path has no file name.
pub fn flat_conversion_plan(snapshot_dir: &str, entries: &[(String, String)], present: &[bool]) -> (r: Option<Vec<(String, String)>>)
    requires
        entries.len() == present.len(),
        entries.len() + entries.len() + 2 <= usize::MAX,
    ensures
        r is None <==> exists|i: int|
            0 <= i < entries.len() && present@[i] && !has_file_name(#[trigger] entries@[i].1@),
        r is Some ==> pairs_view(r->0@) == flat_conversion_pairs(snapshot_dir@, pairs_view(entries@), present@),
        r is Some ==> stored_names(pairs_view(r->0@)).no_duplicates(),
{
    proof {
        let ev0 = pairs_view(entries@);
        lemma_flat_names_distinct(
            ev0.map_values(|e: PairView| file_name_of(components_of(e.1))),
            ev0.map_values(|e: PairView| joined(snapshot_dir@, e.0)),
            ev0.map_values(|e: PairView| e.1),
            present@,
            ev0.len() as int,
        );
    }
    let ghost ev = pairs_view(entries@);
    let mut srcs: Vec<String> = Vec::new();
    let mut originals: Vec<String> = Vec::new();
    let mut i: usize = 0;
    while i < entries.len()
        invariant
            i <= entries.len(),
            ev == pairs_view(entries@),
            srcs.len() == i,
            originals.len() == i,
            forall|j: int| 0 <= j < i ==> (#[trigger] srcs@[j])@ == joined(snapshot_dir@, ev[j].0),
            forall|j: int| 0 <= j < i ==> (#[trigger] originals@[j])@ == ev[j].1,
        decreases entries.len() - i,
    {
        srcs.push(join_path(snapshot_dir, entries[i].0.as_str()));
        originals.push(entries[i].1.clone());
        i = i + 1;
    }
    assert forall|j: int| 0 <= j < entries.len() implies originals@[j]@ == entries@[j].1@ by {
        assert(ev[j].1 == entries@[j].1@);
    }
    match file_names(&originals, present) {
        None => {
            proof {
                let j = choose|j: int| 0 <= j < originals.len() && present@[j] && !has_file_name(#[trigger] originals@[j]@);
                assert(!has_file_name(entries@[j].1@));
            }
            None
        },
        Some(keys) => {
            let r = flat_pairs(&keys, &srcs, &originals, present);
            proof {
                let fk = ev.map_values(|e: PairView| file_name_of(components_of(e.1)));
                let sv = ev.map_values(|e: PairView| joined(snapshot_dir@, e.0));
                let ov = ev.map_values(|e: PairView| e.1);
                assert forall|j: int| 0 <= j < keys.len() && present@[j] implies views(keys@)[j] == fk[j] by {
                    assert(views(keys@)[j] == keys@[j]@);
                    assert(views(originals@)[j] == originals@[j]@);
                }
                assert(views(srcs@) =~= sv);
                assert(views(originals@) =~= ov);
                lemma_flat_pairs_agree(views(keys@), fk, sv, ov, present@, keys.len() as int);
                assert forall|j: int| 0 <= j < entries.len() && present@[j] && !has_file_name(#[trigger] entries@[j].1@)
                    implies false by {
                    assert(originals@[j]@ == entries@[j].1@);
                }
            }
            Some(r)
        },
    }
}

/// The items at the positions below `n` that are present, in order.
pub open spec fn present_upto(items: Seq<Seq<char>>, present: Seq<bool>, n: int) -> Seq<Seq<char>>
    decreases n,
{
    if n <= 0 {
        Seq::empty()
    } else {
        let rest = present_upto(items, present, n - 1);
        if present[n - 1] {
            rest.push(items[n - 1])
        } else {
            rest
        }
    }
}

/// The original paths a snapshot's pairs restore to, in order.
pub open spec fn originals_of(pairs: Seq<PairView>) -> Seq<Seq<char>> {
    pairs.map_values(|p: PairView| p.1)
}

proof fn lemma_flat_pairs_originals(
    keys: Seq<Seq<char>>,
    srcs: Seq<Seq<char>>,
    originals: Seq<Seq<char>>,
    present: Seq<bool>,
    n: int,
)
    ensures
        originals_of(flat_pairs_upto(keys, srcs, originals, present, n)) == present_upto(originals, present, n),
    decreases n,
{
    if n > 0 {
        lemma_flat_pairs_originals(keys, srcs, originals, present, n - 1);
        let rest = flat_pairs_upto(keys, srcs, originals, present, n - 1);
        if present[n - 1] {
            let p = (
                flat_name_given(
                    keys[n - 1],
                    file_name_of(components_of(srcs[n - 1])),
                    stored_names(rest),
                    occurrences(keys, present, n - 1, keys[n - 1]),
                ),
                originals[n - 1],
            );
            assert(originals_of(rest.push(p)) =~= originals_of(rest).push(originals[n - 1]));
        }
    }
}

proof fn lemma_labyrinth_pairs_originals(originals: Seq<Seq<char>>, present: Seq<bool>, prefix: Seq<char>, n: int)
    ensures
        originals_of(labyrinth_pairs_upto(originals, present, prefix, n)) == present_upto(originals, present, n),
    decreases n,
{
    if n > 0 {
        lemma_labyrinth_pairs_originals(originals, present, prefix, n - 1);
        let rest = labyrinth_pairs_upto(originals, present, prefix, n - 1);
        if present[n - 1] {
            let p = (relative_path(originals[n - 1], prefix), originals[n - 1]);
            assert(originals_of(rest.push(p)) =~= originals_of(rest).push(originals[n - 1]));
        }
    }
}

/// Law: a snapshot records every tracked item that was there to copy, with
/// the path it is restored to, in the order the items are tracked, and
/// nothing else; this holds in flat and in labyrinth mode alike.
pub proof fn lemma_snapshot_records_present_items(paths: Seq<Seq<char>>, present: Seq<bool>)
    ensures
        originals_of(flat_snapshot_pairs(paths, present)) == present_upto(paths, present, paths.len() as int),
        originals_of(labyrinth_pairs(paths, present)) == present_upto(paths, present, paths.len() as int),
{
    lemma_flat_pairs_originals(
        paths.map_values(|p: Seq<char>| file_name_of(components_of(p))),
        paths,
        paths,
        present,
        paths.len() as int,
    );
    lemma_labyrinth_pairs_originals(paths, present, common_prefix_path(paths), paths.len() as int);
}

/// Law: converting a snapshot keeps the original path of every entry whose
/// stored item is still there, in the snapshot's order, whichever way it
/// converts.
pub proof fn lemma_conversion_keeps_originals(snapshot_dir: Seq<char>, entries: Seq<PairView>, present: Seq<bool>)
    ensures
        originals_of(flat_conversion_pairs(snapshot_dir, entries, present)) == present_upto(
            originals_of(entries),
            present,
            entries.len() as int,
        ),
        originals_of(labyrinth_pairs(originals_of(entries), present)) == present_upto(
            originals_of(entries),
            present,
            entries.len() as int,
        ),
{
    let ov = entries.map_values(|e: PairView| e.1);
    assert(ov =~= originals_of(entries));
    lemma_flat_pairs_originals(
        entries.map_values(|e: PairView| file_name_of(components_of(e.1))),
        entries.map_values(|e: PairView| joined(snapshot_dir, e.0)),
        ov,
        present,
        entries.len() as int,
    );
    lemma_snapshot_records_present_items(originals_of(entries), present);
}

/// Law: no two items of a flat snapshot (or of a conversion to flat mode)
/// are stored under the same name, so none overwrites another.
pub proof fn lemma_flat_names_distinct(
    keys: Seq<Seq<char>>,
    srcs: Seq<Seq<char>>,
    originals: Seq<Seq<char>>,
    present: Seq<bool>,
    n: int,
)
    ensures
        stored_names(flat_pairs_upto(keys, srcs, originals, present, n)).no_duplicates(),
    decreases n,
{
    if n > 0 {
        lemma_flat_names_distinct(keys, srcs, originals, present, n - 1);
        let rest = flat_pairs_upto(keys, srcs, originals, present, n - 1);
        if present[n - 1] {
            let taken = stored_names(rest);
            let occ = occurrences(keys, present, n - 1, keys[n - 1]);
            let f = file_name_of(components_of(srcs[n - 1]));
            let name = flat_name_given(keys[n - 1], f, taken, occ);
            lemma_free_copy(f, taken, occ + 1);
            assert(!taken.contains(name));
            let p = (name, originals[n - 1]);
            assert(stored_names(rest.push(p)) =~= taken.push(name));
            assert forall|i: int, j: int| 0 <= i < j < taken.push(name).len() implies taken.push(name)[i]
                != taken.push(name)[j] by {
                if j == taken.len() {
                    assert(taken.push(name)[i] == taken[i]);
                }
            }
        }
    }
}

} // verus!
