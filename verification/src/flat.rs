//! Flat mode: every tracked item is stored under its own file name at the top
//! of the snapshot, and a name seen again gets a numbered copy
//! (`notes.txt`, `notes_2.txt`, `notes_3.txt`, ...), skipping any number whose
//! name is already in the snapshot, so no two items share a name.

use vstd::prelude::*;
use crate::paths::{components_of, path_parts, PartKind, PartView};
use crate::text::{chars_of, decimal, decimal_string, slice_chars, string_from, views};

verus! {

/// The file name of a path: its last component when that is a normal name,
/// otherwise empty (as `Path::file_name` with an empty default).
pub open spec fn file_name_of(c: Seq<PartView>) -> Seq<char> {
    if c.len() > 0 && c.last().0 == PartKind::Normal {
        c.last().1
    } else {
        Seq::empty()
    }
}

/// Index of the last `ch` in `s`, or -1 when there is none.
pub open spec fn last_index(s: Seq<char>, ch: char) -> int
    decreases s.len(),
{
    if s.len() == 0 {
        -1
    } else if s.last() == ch {
        s.len() - 1
    } else {
        last_index(s.drop_last(), ch)
    }
}

/// The file stem as `Path::file_stem` defines it: the part before the final
/// `.`, or the whole name when it has no `.` other than a leading one.
pub open spec fn stem_of(name: Seq<char>) -> Seq<char> {
    let i = last_index(name, '.');
    if i > 0 {
        name.take(i)
    } else {
        name
    }
}

/// The extension as `Path::extension` defines it (empty when there is none).
pub open spec fn ext_of(name: Seq<char>) -> Seq<char> {
    let i = last_index(name, '.');
    if i > 0 {
        name.skip(i + 1)
    } else {
        Seq::empty()
    }
}

/// The stored name of the `n`-th copy of a file called `name`:
/// `stem_n.ext`, or `stem_n` when there is no extension.
pub open spec fn renamed(name: Seq<char>, n: nat) -> Seq<char> {
    if ext_of(name).len() == 0 {
        stem_of(name) + "_"@ + decimal(n)
    } else {
        stem_of(name) + "_"@ + decimal(n) + "."@ + ext_of(name)
    }
}

proof fn lemma_last_index(s: Seq<char>, ch: char)
    ensures
        -1 <= last_index(s, ch) < s.len(),
        last_index(s, ch) >= 0 ==> s[last_index(s, ch)] == ch,
        forall|k: int| last_index(s, ch) < k < s.len() ==> s[k] != ch,
    decreases s.len(),
{
    if s.len() > 0 && s.last() != ch {
        lemma_last_index(s.drop_last(), ch);
        assert forall|k: int| last_index(s, ch) < k < s.len() implies s[k] != ch by {
            if k < s.len() - 1 {
                assert(s.drop_last()[k] == s[k]);
            }
        }
    }
}

proof fn lemma_decimal_nonempty(n: nat)
    ensures
        decimal(n).len() >= 1,
    decreases n,
{
    if n >= 10 {
        lemma_decimal_nonempty(n / 10);
    }
}

/// Law: a numbered copy never takes the name of the file it copies.
pub proof fn lemma_renamed_differs(name: Seq<char>, n: nat)
    ensures
        renamed(name, n) != name,
{
    lemma_last_index(name, '.');
    lemma_decimal_nonempty(n);
    assert("_"@.len() == 1) by {
        reveal_strlit("_");
    }
    assert("."@.len() == 1) by {
        reveal_strlit(".");
    }
    assert(renamed(name, n).len() > name.len());
}

/// Law: the numbered copies of one file name all differ: copy `a` and copy
/// `b` get the same name only when `a == b`.
pub proof fn lemma_renamed_injective(name: Seq<char>, a: nat, b: nat)
    ensures
        renamed(name, a) == renamed(name, b) ==> a == b,
{
    reveal_strlit("_");
    reveal_strlit(".");
    let st = stem_of(name);
    let e = ext_of(name);
    let da = decimal(a);
    let db = decimal(b);
    if renamed(name, a) == renamed(name, b) {
        let lo: int = st.len() as int + 1;
        if e.len() == 0 {
            assert(renamed(name, a) =~= st + "_"@ + da);
            assert(renamed(name, b) =~= st + "_"@ + db);
            assert(da =~= renamed(name, a).skip(lo));
            assert(db =~= renamed(name, b).skip(lo));
        } else {
            assert(renamed(name, a) =~= st + "_"@ + da + "."@ + e);
            assert(renamed(name, b) =~= st + "_"@ + db + "."@ + e);
            assert(da.len() == db.len());
            assert(da =~= renamed(name, a).subrange(lo, lo + da.len()));
            assert(db =~= renamed(name, b).subrange(lo, lo + db.len()));
        }
        crate::text::lemma_decimal_injective(a, b);
    }
}

/// The `k` copy names of `name` numbered `start`, `start + 1`, ...
spec fn copies_upto(name: Seq<char>, start: nat, k: nat) -> Set<Seq<char>>
    decreases k,
{
    if k == 0 {
        Set::empty()
    } else {
        copies_upto(name, start, (k - 1) as nat).insert(renamed(name, start + (k - 1) as nat))
    }
}

proof fn lemma_copies_outside(name: Seq<char>, start: nat, k: nat, j: nat)
    requires
        j >= k,
    ensures
        !copies_upto(name, start, k).contains(renamed(name, start + j)),
    decreases k,
{
    if k > 0 {
        lemma_copies_outside(name, start, (k - 1) as nat, j);
        lemma_renamed_injective(name, start + j, start + (k - 1) as nat);
    }
}

proof fn lemma_copies_len(name: Seq<char>, start: nat, k: nat)
    ensures
        copies_upto(name, start, k).finite(),
        copies_upto(name, start, k).len() == k,
    decreases k,
{
    if k > 0 {
        lemma_copies_len(name, start, (k - 1) as nat);
        lemma_copies_outside(name, start, (k - 1) as nat, (k - 1) as nat);
        vstd::set::axiom_set_insert_len(
            copies_upto(name, start, (k - 1) as nat),
            renamed(name, start + (k - 1) as nat),
        );
    }
}

proof fn lemma_copies_within(name: Seq<char>, start: nat, k: nat, taken: Seq<Seq<char>>)
    requires
        forall|m: nat| start <= m < start + k ==> #[trigger] taken.contains(renamed(name, m)),
    ensures
        copies_upto(name, start, k).subset_of(taken.to_set()),
    decreases k,
{
    if k > 0 {
        lemma_copies_within(name, start, (k - 1) as nat, taken);
        assert(taken.contains(renamed(name, start + (k - 1) as nat)));
    }
}

/// Whether copy number `n` of `name` is the first copy from `start` on whose
/// name is not among `taken`.
pub open spec fn is_least_free(name: Seq<char>, taken: Seq<Seq<char>>, start: nat, n: nat) -> bool {
    &&& start <= n
    &&& !taken.contains(renamed(name, n))
    &&& forall|m: nat| start <= m < n ==> #[trigger] taken.contains(renamed(name, m))
}

/// The number of the first copy of `name` from `start` on whose name is free.
pub open spec fn least_free(name: Seq<char>, taken: Seq<Seq<char>>, start: nat) -> nat {
    choose|n: nat| is_least_free(name, taken, start, n)
}

/// The name of the first copy of `name`, numbered from `start` on, that is
/// not among `taken`.
pub open spec fn free_copy(name: Seq<char>, taken: Seq<Seq<char>>, start: nat) -> Seq<char> {
    renamed(name, least_free(name, taken, start))
}

/// Among `taken.len() + 1` consecutive copy names one is free.
proof fn lemma_some_free(name: Seq<char>, taken: Seq<Seq<char>>, start: nat) -> (n: nat)
    ensures
        start <= n <= start + taken.len(),
        !taken.contains(renamed(name, n)),
{
    broadcast use vstd::seq_lib::seq_to_set_is_finite;

    if forall|m: nat| start <= m <= start + taken.len() ==> #[trigger] taken.contains(renamed(name, m)) {
        let k = (taken.len() + 1) as nat;
        lemma_copies_within(name, start, k, taken);
        lemma_copies_len(name, start, k);
        taken.lemma_cardinality_of_set();
        vstd::set_lib::lemma_len_subset(copies_upto(name, start, k), taken.to_set());
        assert(false);
        start
    } else {
        choose|m: nat| start <= m <= start + taken.len() && !taken.contains(renamed(name, m))
    }
}

proof fn lemma_least_below(name: Seq<char>, taken: Seq<Seq<char>>, start: nat, n0: nat) -> (n: nat)
    requires
        start <= n0,
        !taken.contains(renamed(name, n0)),
    ensures
        n <= n0,
        is_least_free(name, taken, start, n),
    decreases n0 - start,
{
    if exists|m: nat| start <= m < n0 && !taken.contains(renamed(name, m)) {
        let m = choose|m: nat| start <= m < n0 && !taken.contains(renamed(name, m));
        lemma_least_below(name, taken, start, m)
    } else {
        n0
    }
}

/// Law: the first free copy name exists, is not taken, has a number at most
/// `start + taken.len()`, and is the only number with that property.
pub proof fn lemma_free_copy(name: Seq<char>, taken: Seq<Seq<char>>, start: nat)
    ensures
        is_least_free(name, taken, start, least_free(name, taken, start)),
        least_free(name, taken, start) <= start + taken.len(),
        !taken.contains(free_copy(name, taken, start)),
        forall|n: nat| is_least_free(name, taken, start, n) ==> n == least_free(name, taken, start),
{
    let n0 = lemma_some_free(name, taken, start);
    let n1 = lemma_least_below(name, taken, start, n0);
    let l = least_free(name, taken, start);
    assert(is_least_free(name, taken, start, l));
    assert forall|n: nat| is_least_free(name, taken, start, n) implies n == l by {
        if n < l {
            assert(taken.contains(renamed(name, n)));
        } else if n > l {
            assert(taken.contains(renamed(name, l)));
        }
    }
    assert(n1 == l);
}

/// The name an item with file name `key` (its source's file name `name`) is
/// stored under in a flat snapshot that already holds the names `taken`,
/// when `occ` earlier items had the same key: the key itself for the first
/// one if it is free, otherwise the first free copy name numbered from
/// `occ + 1` on.
pub open spec fn flat_name_given(key: Seq<char>, name: Seq<char>, taken: Seq<Seq<char>>, occ: nat) -> Seq<char> {
    if occ == 0 && !taken.contains(key) {
        key
    } else {
        free_copy(name, taken, occ + 1)
    }
}

/// What one flat snapshot has stored so far: how often each file name came
/// up, and every name already used in the snapshot.
pub struct NameCounts {
    names: Vec<String>,
    counts: Vec<usize>,
    taken: Vec<String>,
}

impl NameCounts {
    /// Each name is recorded once, with one count.
    pub closed spec fn wf(&self) -> bool {
        &&& self.names.len() == self.counts.len()
        &&& forall|i: int, j: int|
            0 <= i < j < self.names.len() ==> self.names@[i]@ != self.names@[j]@
    }

    /// How many copies of `name` were stored after its first one, if it was stored at all.
    pub closed spec fn count(&self, name: Seq<char>) -> Option<usize> {
        if exists|i: int| 0 <= i < self.names.len() && self.names@[i]@ == name {
            Some(
                self.counts@[choose|i: int| 0 <= i < self.names.len() && self.names@[i]@ == name],
            )
        } else {
            None
        }
    }

    /// The names stored so far, in order.
    pub closed spec fn stored(&self) -> Seq<Seq<char>> {
        views(self.taken@)
    }

    /// No name stored yet.
    pub fn new() -> (r: NameCounts)
        ensures
            r.wf(),
            forall|name: Seq<char>| r.count(name) is None,
            r.stored().len() == 0,
    {
        NameCounts { names: Vec::new(), counts: Vec::new(), taken: Vec::new() }
    }

    /// Whether `name` was stored already.
    fn is_taken(&self, name: &[char]) -> (r: bool)
        ensures
            r == self.stored().contains(name@),
    {
        let mut i: usize = 0;
        while i < self.taken.len()
            invariant
                i <= self.taken.len(),
                forall|k: int| 0 <= k < i ==> self.taken@[k]@ != name@,
            decreases self.taken.len() - i,
        {
            let c = chars_of(self.taken[i].as_str());
            if crate::text::chars_eq(&c, name) {
                assert(self.stored()[i as int] == name@);
                return true;
            }
            i = i + 1;
        }
        assert forall|k: int| 0 <= k < self.stored().len() implies self.stored()[k] != name@ by {
            assert(self.stored()[k] == self.taken@[k]@);
        }
        false
    }

    /// Records that `name` is now stored.
    fn record(&mut self, name: String)
        requires
            old(self).wf(),
        ensures
            final(self).wf(),
            final(self).stored() == old(self).stored().push(name@),
            forall|k: Seq<char>| #[trigger] final(self).count(k) == old(self).count(k),
    {
        let ghost o = *self;
        self.taken.push(name);
        proof {
            assert(self.stored() =~= o.stored().push(name@));
            assert(self.names == o.names && self.counts == o.counts);
        }
    }

    proof fn lemma_count_is(&self, k: Seq<char>, i: int)
        requires
            self.wf(),
            0 <= i < self.names.len(),
            self.names@[i]@ == k,
        ensures
            self.count(k) == Some(self.counts@[i]),
    {
        let j = choose|j: int| 0 <= j < self.names.len() && self.names@[j]@ == k;
        if j != i {
            if j < i {
                assert(self.names@[j]@ != self.names@[i]@);
            } else {
                assert(self.names@[i]@ != self.names@[j]@);
            }
        }
    }

    /// Adds one to the count of the name at `i`.
    fn bump(&mut self, i: usize) -> (c: usize)
        requires
            old(self).wf(),
            i < old(self).names.len(),
            old(self).counts@[i as int] + 2 <= usize::MAX,
        ensures
            final(self).wf(),
            final(self).stored() == old(self).stored(),
            c == old(self).counts@[i as int] + 1,
            final(self).count(old(self).names@[i as int]@) == Some(c),
            forall|k: Seq<char>|
                k != old(self).names@[i as int]@ ==> #[trigger] final(self).count(k) == old(self).count(k),
    {
        let c = self.counts[i] + 1;
        self.counts.set(i, c);
        proof {
            let ghost o = *old(self);
            self.lemma_count_is(o.names@[i as int]@, i as int);
            assert forall|k: Seq<char>| k != o.names@[i as int]@ implies #[trigger] self.count(k) == o.count(
                k,
            ) by {
                if exists|j: int| 0 <= j < self.names.len() && self.names@[j]@ == k {
                    let j = choose|j: int| 0 <= j < self.names.len() && self.names@[j]@ == k;
                    self.lemma_count_is(k, j);
                    o.lemma_count_is(k, j);
                }
            }
        }
        c
    }

    /// Records a name not seen before, with count 0.
    fn insert_new(&mut self, name: &str)
        requires
            old(self).wf(),
            old(self).count(name@) is None,
        ensures
            final(self).wf(),
            final(self).stored() == old(self).stored(),
            final(self).count(name@) == Some(0usize),
            forall|k: Seq<char>| k != name@ ==> #[trigger] final(self).count(k) == old(self).count(k),
    {
        let ghost o = *self;
        self.names.push(String::from_str(name));
        self.counts.push(0);
        proof {
            let n = o.names.len() as int;
            assert forall|i: int| 0 <= i < n implies o.names@[i]@ != name@ by {
                if o.names@[i]@ == name@ {
                    assert(exists|j: int| 0 <= j < o.names.len() && o.names@[j]@ == name@);
                }
            }
            assert(self.names@[n] @ == name@);
            assert forall|i: int, j: int| 0 <= i < j < self.names.len() implies self.names@[i]@
                != self.names@[j]@ by {
                if j == n {
                    assert(self.names@[i] == o.names@[i]);
                } else {
                    assert(self.names@[i] == o.names@[i]);
                    assert(self.names@[j] == o.names@[j]);
                }
            }
            self.lemma_count_is(name@, n);
            assert forall|k: Seq<char>| k != name@ implies #[trigger] self.count(k) == o.count(k) by {
                if exists|j: int| 0 <= j < self.names.len() && self.names@[j]@ == k {
                    let j = choose|j: int| 0 <= j < self.names.len() && self.names@[j]@ == k;
                    assert(j != n);
                    assert(self.names@[j] == o.names@[j]);
                    self.lemma_count_is(k, j);
                    o.lemma_count_is(k, j);
                } else {
                    assert forall|j: int| 0 <= j < o.names.len() implies o.names@[j]@ != k by {
                        assert(self.names@[j] == o.names@[j]);
                    }
                }
            }
        }
    }

    fn find(&self, name: &str) -> (r: Option<usize>)
        requires
            self.wf(),
        ensures
            r is None <==> self.count(name@) is None,
            r is Some ==> r->0 < self.names.len() && self.names@[r->0 as int]@ == name@
                && self.count(name@) == Some(self.counts@[r->0 as int]),
    {
        let mut i: usize = 0;
        while i < self.names.len()
            invariant
                self.wf(),
                i <= self.names.len(),
                forall|k: int| 0 <= k < i ==> self.names@[k]@ != name@,
            decreases self.names.len() - i,
        {
            let c = chars_of(self.names[i].as_str());
            let d = chars_of(name);
            if c.len() == d.len() && crate::text::chars_eq(&c, &d) {
                let ghost j = choose|j: int| 0 <= j < self.names.len() && self.names@[j]@ == name@;
                assert(j == i) by {
                    if j != i {
                        if j < i {
                            assert(self.names@[j]@ != self.names@[i as int]@);
                        } else {
                            assert(self.names@[i as int]@ != self.names@[j]@);
                        }
                    }
                }
                return Some(i);
            }
            i = i + 1;
        }
        None
    }
}

/// The file name of the path `src`.
fn file_name_chars(src: &str) -> (r: Vec<char>)
    ensures
        r@ == file_name_of(components_of(src@)),
{
    let parts = path_parts(src);
    let n = parts.len();
    if n > 0 && parts[n - 1].kind == PartKind::Normal {
        assert(crate::paths::parts_view(parts@)[n - 1] == parts@[n - 1]@);
        chars_of(parts[n - 1].text.as_str())
    } else {
        Vec::new()
    }
}

fn last_dot(s: &[char]) -> (r: Option<usize>)
    ensures
        r is None ==> last_index(s@, '.') == -1,
        r is Some ==> r->0 == last_index(s@, '.'),
{
    let mut j: usize = s.len();
    assert(s@.take(j as int) =~= s@);
    while j > 0
        invariant
            j <= s.len(),
            last_index(s@, '.') == last_index(s@.take(j as int), '.'),
        decreases j,
    {
        assert(s@.take(j as int).drop_last() =~= s@.take(j - 1));
        if s[j - 1] == '.' {
            return Some(j - 1);
        }
        j = j - 1;
    }
    None
}

fn numbered_copy_name(name: &[char], n: usize) -> (r: String)
    ensures
        r@ == renamed(name@, n as nat),
{
    proof {
        lemma_last_index(name@, '.');
    }
    let (stem, ext) = match last_dot(name) {
        Some(i) => if i > 0 {
            (slice_chars(name, 0, i), slice_chars(name, i + 1, name.len()))
        } else {
            (slice_chars(name, 0, name.len()), Vec::new())
        },
        None => (slice_chars(name, 0, name.len()), Vec::new()),
    };
    assert(name@.subrange(0, name.len() as int) =~= name@);
    let mut r = string_from(&stem);
    r.append("_");
    let d = decimal_string(n);
    r.append(d.as_str());
    if ext.len() > 0 {
        r.append(".");
        let e = string_from(&ext);
        r.append(e.as_str());
    }
    r
}

/// How many earlier items had the file name whose count is `c`.
pub open spec fn occurrences_of(c: Option<usize>) -> nat {
    match c {
        None => 0,
        Some(c) => (c + 1) as nat,
    }
}

/// The name a tracked item called `original_name` is stored under in a flat
/// snapshot, and records it. The first item with that name keeps it when it
/// is still free; every other gets the first free copy name after `src`'s
/// stem and extension, numbered from one more than the items with that name
/// before it (`notes.txt`, `notes_2.txt`, `notes_3.txt`, ...). No name is
/// stored twice.
pub fn flat_stored_name(original_name: &str, src: &str, counts: &mut NameCounts) -> (r: String)
    requires
        old(counts).wf(),
        old(counts).stored().len() + 2 + occurrences_of(old(counts).count(original_name@)) <= usize::MAX,
    ensures
        final(counts).wf(),
        r@ == flat_name_given(
            original_name@,
            file_name_of(components_of(src@)),
            old(counts).stored(),
            occurrences_of(old(counts).count(original_name@)),
        ),
        !old(counts).stored().contains(r@),
        final(counts).stored() == old(counts).stored().push(r@),
        final(counts).count(original_name@) == Some(occurrences_of(old(counts).count(original_name@)) as usize),
        forall|name: Seq<char>|
            name != original_name@ ==> #[trigger] final(counts).count(name) == old(counts).count(name),
{
    let ghost taken = counts.stored();
    let ghost occ = occurrences_of(counts.count(original_name@));
    let start: usize = match counts.find(original_name) {
        Some(i) => {
            let c = counts.bump(i);
            c + 1
        },
        None => {
            counts.insert_new(original_name);
            let k = chars_of(original_name);
            if !counts.is_taken(&k) {
                let r = String::from_str(original_name);
                counts.record(String::from_str(original_name));
                return r;
            }
            1
        },
    };
    assert(start == occ + 1);
    let fname = file_name_chars(src);
    let ghost f = fname@;
    proof {
        lemma_free_copy(f, taken, start as nat);
    }
    let ghost best = least_free(f, taken, start as nat);
    let mut n: usize = start;
    let mut name = numbered_copy_name(&fname, n);
    while counts.is_taken(&chars_of(name.as_str()))
        invariant
            counts.wf(),
            counts.stored() == taken,
            start <= n <= best,
            best <= start + taken.len(),
            taken.len() + 2 + occ <= usize::MAX,
            start == occ + 1,
            f == fname@,
            is_least_free(f, taken, start as nat, best),
            name@ == renamed(f, n as nat),
            forall|m: nat| start <= m < n ==> #[trigger] taken.contains(renamed(f, m)),
        decreases best - n,
    {
        assert(n != best);
        n = n + 1;
        name = numbered_copy_name(&fname, n);
    }
    proof {
        assert(is_least_free(f, taken, start as nat, n as nat));
    }
    let r = name.clone();
    counts.record(name);
    r
}

} // verus!
