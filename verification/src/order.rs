//! Ordering names the way file names compare: character by character, by
//! code point (which is byte order for UTF-8), a prefix before any longer name.

use vstd::prelude::*;
use crate::text::{chars_of, views};

verus! {

/// `a` comes before `b` or equals it.
pub open spec fn lex_le(a: Seq<char>, b: Seq<char>) -> bool
    decreases a.len(),
{
    if a.len() == 0 {
        true
    } else if b.len() == 0 {
        false
    } else if a[0] != b[0] {
        a[0] < b[0]
    } else {
        lex_le(a.drop_first(), b.drop_first())
    }
}

/// Law: any two names are ordered one way or the other.
pub proof fn lemma_lex_total(a: Seq<char>, b: Seq<char>)
    ensures
        lex_le(a, b) || lex_le(b, a),
    decreases a.len(),
{
    if a.len() > 0 && b.len() > 0 && a[0] == b[0] {
        lemma_lex_total(a.drop_first(), b.drop_first());
    }
}

/// Law: the order is transitive.
pub proof fn lemma_lex_transitive(a: Seq<char>, b: Seq<char>, c: Seq<char>)
    requires
        lex_le(a, b),
        lex_le(b, c),
    ensures
        lex_le(a, c),
    decreases a.len(),
{
    if a.len() > 0 && b.len() > 0 && c.len() > 0 && a[0] == b[0] && b[0] == c[0] {
        lemma_lex_transitive(a.drop_first(), b.drop_first(), c.drop_first());
    }
}

fn lex_le_exec(a: &[char], b: &[char]) -> (r: bool)
    ensures
        r == lex_le(a@, b@),
{
    let mut i: usize = 0;
    assert(a@.skip(0) =~= a@);
    assert(b@.skip(0) =~= b@);
    while i < a.len() && i < b.len() && a[i] == b[i]
        invariant
            i <= a.len(),
            i <= b.len(),
            lex_le(a@, b@) == lex_le(a@.skip(i as int), b@.skip(i as int)),
        decreases a.len() - i,
    {
        assert(a@.skip(i as int).drop_first() =~= a@.skip(i + 1));
        assert(b@.skip(i as int).drop_first() =~= b@.skip(i + 1));
        i = i + 1;
    }
    if i == a.len() {
        true
    } else if i == b.len() {
        false
    } else {
        assert(a@.skip(i as int)[0] == a@[i as int]);
        assert(b@.skip(i as int)[0] == b@[i as int]);
        a[i] < b[i]
    }
}

/// The numbers `0..n`.
pub open spec fn indices(n: nat) -> Seq<usize> {
    Seq::new(n, |i: int| i as usize)
}

/// The order that lists `names` sorted: a rearrangement of their positions
/// after which each name comes before or equals the next (`sort_by` on the
/// file names).
pub fn sorted_order(names: &[String]) -> (r: Vec<usize>)
    ensures
        r@.to_multiset() == indices(names.len() as nat).to_multiset(),
        forall|i: int| 0 <= i < r.len() ==> r@[i] < names.len(),
        forall|i: int, j: int|
            0 <= i <= j < r.len() ==> lex_le(#[trigger] views(names@)[r@[i] as int], #[trigger] views(names@)[r@[j] as int]),
{
    broadcast use vstd::seq_lib::group_to_multiset_ensures;
    let ghost nv = views(names@);
    let mut keys: Vec<Vec<char>> = Vec::new();
    let mut k: usize = 0;
    while k < names.len()
        invariant
            k <= names.len(),
            nv == views(names@),
            keys.len() == k,
            forall|j: int| 0 <= j < k ==> (#[trigger] keys@[j])@ == nv[j],
        decreases names.len() - k,
    {
        keys.push(chars_of(names[k].as_str()));
        k = k + 1;
    }
    let mut r: Vec<usize> = Vec::new();
    let mut i: usize = 0;
    while i < names.len()
        invariant
            i <= names.len(),
            nv == views(names@),
            keys.len() == names.len(),
            forall|j: int| 0 <= j < names.len() ==> (#[trigger] keys@[j])@ == nv[j],
            r@.to_multiset() == indices(i as nat).to_multiset(),
            forall|j: int| 0 <= j < r.len() ==> r@[j] < i,
            forall|a: int, b: int| 0 <= a <= b < r.len() ==> lex_le(#[trigger] nv[r@[a] as int], #[trigger] nv[r@[b] as int]),
        decreases names.len() - i,
    {
        let mut p: usize = 0;
        while p < r.len() && lex_le_exec(&keys[r[p]], &keys[i])
            invariant
                p <= r.len(),
                i < names.len(),
                keys.len() == names.len(),
                forall|j: int| 0 <= j < names.len() ==> (#[trigger] keys@[j])@ == nv[j],
                forall|j: int| 0 <= j < r.len() ==> r@[j] < i,
                forall|j: int| 0 <= j < p ==> lex_le(#[trigger] nv[r@[j] as int], nv[i as int]),
            decreases r.len() - p,
        {
            p = p + 1;
        }
        let ghost old_r = r@;
        proof {
            if p < old_r.len() {
                assert(!lex_le(nv[old_r[p as int] as int], nv[i as int]));
                lemma_lex_total(nv[old_r[p as int] as int], nv[i as int]);
            }
        }
        r.insert(p, i);
        assert(r@ == old_r.insert(p as int, i));
        assert forall|a: int, b: int| 0 <= a <= b < r.len() implies lex_le(#[trigger] nv[r@[a] as int], #[trigger] nv[r@[b] as int]) by {
            let x = nv[i as int];
            if b < p {
                assert(r@[a] == old_r[a] && r@[b] == old_r[b]);
            } else if b == p {
                if a < p {
                    assert(r@[a] == old_r[a]);
                } else {
                    lemma_lex_total(x, x);
                }
            } else if a < p {
                assert(r@[b] == old_r[b - 1]);
                assert(r@[a] == old_r[a]);
                assert(lex_le(nv[old_r[a] as int], nv[old_r[b - 1] as int]));
            } else if a == p {
                assert(r@[b] == old_r[b - 1]);
                assert(lex_le(nv[old_r[p as int] as int], nv[old_r[b - 1] as int]));
                lemma_lex_transitive(x, nv[old_r[p as int] as int], nv[old_r[b - 1] as int]);
            } else {
                assert(r@[a] == old_r[a - 1] && r@[b] == old_r[b - 1]);
            }
        }
        assert forall|j: int| 0 <= j < r.len() implies r@[j] < i + 1 by {
            if j < p {
                assert(r@[j] == old_r[j]);
            } else if j > p {
                assert(r@[j] == old_r[j - 1]);
            }
        }
        assert(r@.remove(p as int) =~= old_r);
        assert(r@.to_multiset() =~= old_r.to_multiset().insert(i)) by {
            r@.to_multiset_ensures();
            assert(r@.remove(p as int).to_multiset() =~= r@.to_multiset().remove(r@[p as int]));
            assert(r@.contains(i));
            assert(r@.to_multiset().count(i) > 0);
        }
        assert(indices((i + 1) as nat) =~= indices(i as nat).push(i));
        proof {
            indices(i as nat).to_multiset_ensures();
        }
        i = i + 1;
    }
    r
}

} // verus!
