//! Comma-separated number lists (`1,3, 4`) and the sorted, duplicate-free
//! lists that deletions work through.

use vstd::prelude::*;
use crate::names::{first_index, lemma_first_index};
use crate::text::{parse_usize, parse_usize_chars, slice_chars, trim, trim_chars};

verus! {

/// The numbers in a comma-separated list: each piece is trimmed and parsed,
/// and pieces that are not numbers are left out.
pub open spec fn number_list(s: Seq<char>) -> Seq<usize>
    decreases s.len(),
{
    let i = first_index(s, ',');
    let head = match parse_usize(trim(s.take(i as int))) {
        Some(n) => seq![n],
        None => Seq::empty(),
    };
    if i >= s.len() {
        head
    } else {
        head + number_list(s.skip(i as int + 1))
    }
}

/// Parses a comma-separated list of numbers, skipping what is not a number.
pub fn parse_number_list(s: &[char]) -> (r: Vec<usize>)
    ensures
        r@ == number_list(s@),
{
    let mut r: Vec<usize> = Vec::new();
    let mut p: usize = 0;
    assert(s@.skip(0) =~= s@);
    loop
        invariant
            p <= s.len(),
            r@ + number_list(s@.skip(p as int)) == number_list(s@),
        decreases s.len() - p,
    {
        let ghost rest = s@.skip(p as int);
        let mut i: usize = p;
        assert(rest.skip(0) =~= rest);
        while i < s.len() && s[i] != ','
            invariant
                p <= i <= s.len(),
                rest == s@.skip(p as int),
                first_index(rest, ',') == (i - p) + first_index(rest.skip(i - p), ','),
            decreases s.len() - i,
        {
            assert(rest.skip(i - p).drop_first() =~= rest.skip(i - p + 1));
            i = i + 1;
        }
        if i < s.len() {
            assert(rest.skip(i - p)[0] == ',');
        }
        proof {
            lemma_first_index(rest, ',');
        }
        let piece = slice_chars(s, p, i);
        assert(piece@ =~= rest.take(i - p));
        let t = trim_chars(&piece);
        let ghost before = r@;
        match parse_usize_chars(&t) {
            Some(n) => {
                r.push(n);
            },
            None => {},
        }
        if i >= s.len() {
            assert(r@ =~= before + number_list(rest));
            return r;
        }
        assert(rest.skip(i - p + 1) =~= s@.skip(i + 1));
        assert(r@ + number_list(s@.skip(i + 1)) =~= before + number_list(rest));
        p = i + 1;
    }
}

/// The 0-based positions picked by 1-based numbers that are within `1..=len`.
pub open spec fn positions_within(nums: Seq<usize>, len: nat) -> Seq<usize>
    decreases nums.len(),
{
    if nums.len() == 0 {
        Seq::empty()
    } else {
        let rest = positions_within(nums.drop_last(), len);
        let n = nums.last();
        if 1 <= n && n <= len {
            rest.push((n - 1) as usize)
        } else {
            rest
        }
    }
}

/// The numbers of a comma-separated list that pick one of `len` listed items,
/// as 0-based positions.
pub fn parse_positions(s: &[char], len: usize) -> (r: Vec<usize>)
    ensures
        r@ == positions_within(number_list(s@), len as nat),
        forall|k: int| 0 <= k < r.len() ==> r@[k] < len,
{
    let nums = parse_number_list(s);
    let mut r: Vec<usize> = Vec::new();
    let mut i: usize = 0;
    while i < nums.len()
        invariant
            i <= nums.len(),
            r@ == positions_within(nums@.take(i as int), len as nat),
            forall|k: int| 0 <= k < r.len() ==> r@[k] < len,
        decreases nums.len() - i,
    {
        assert(nums@.take(i + 1).drop_last() =~= nums@.take(i as int));
        let n = nums[i];
        if 1 <= n && n <= len {
            r.push(n - 1);
        }
        i = i + 1;
    }
    assert(nums@.take(nums.len() as int) =~= nums@);
    r
}

/// The numbers that are among `allowed`.
pub open spec fn among(nums: Seq<usize>, allowed: Seq<usize>) -> Seq<usize>
    decreases nums.len(),
{
    if nums.len() == 0 {
        Seq::empty()
    } else {
        let rest = among(nums.drop_last(), allowed);
        if allowed.contains(nums.last()) {
            rest.push(nums.last())
        } else {
            rest
        }
    }
}

/// Whether `x` is in `v`.
pub fn contains_usize(v: &[usize], x: usize) -> (r: bool)
    ensures
        r == v@.contains(x),
{
    let mut i: usize = 0;
    while i < v.len()
        invariant
            i <= v.len(),
            forall|k: int| 0 <= k < i ==> v@[k] != x,
        decreases v.len() - i,
    {
        if v[i] == x {
            return true;
        }
        i = i + 1;
    }
    false
}

/// The numbers of a comma-separated list that name one of `allowed`.
pub fn parse_among(s: &[char], allowed: &[usize]) -> (r: Vec<usize>)
    ensures
        r@ == among(number_list(s@), allowed@),
{
    let nums = parse_number_list(s);
    let mut r: Vec<usize> = Vec::new();
    let mut i: usize = 0;
    while i < nums.len()
        invariant
            i <= nums.len(),
            r@ == among(nums@.take(i as int), allowed@),
        decreases nums.len() - i,
    {
        assert(nums@.take(i + 1).drop_last() =~= nums@.take(i as int));
        if contains_usize(allowed, nums[i]) {
            r.push(nums[i]);
        }
        i = i + 1;
    }
    assert(nums@.take(nums.len() as int) =~= nums@);
    r
}

/// Strictly increasing.
pub open spec fn increasing(s: Seq<usize>) -> bool {
    forall|i: int, j: int| 0 <= i < j < s.len() ==> s[i] < s[j]
}

/// Strictly decreasing.
pub open spec fn decreasing(s: Seq<usize>) -> bool {
    forall|i: int, j: int| 0 <= i < j < s.len() ==> s[i] > s[j]
}

/// Non-decreasing.
pub open spec fn ascending(s: Seq<usize>) -> bool {
    forall|i: int, j: int| 0 <= i <= j < s.len() ==> s[i] <= s[j]
}

/// The values of `v` once each, in increasing order (`sort` then `dedup`).
pub fn sorted_unique(v: &[usize]) -> (r: Vec<usize>)
    ensures
        increasing(r@),
        r@.to_set() == v@.to_set(),
{
    let mut r: Vec<usize> = Vec::new();
    let mut i: usize = 0;
    while i < v.len()
        invariant
            i <= v.len(),
            increasing(r@),
            r@.to_set() == v@.take(i as int).to_set(),
        decreases v.len() - i,
    {
        let x = v[i];
        let mut p: usize = 0;
        while p < r.len() && r[p] < x
            invariant
                p <= r.len(),
                increasing(r@),
                forall|k: int| 0 <= k < p ==> r@[k] < x,
            decreases r.len() - p,
        {
            p = p + 1;
        }
        let ghost old_r = r@;
        if p == r.len() || r[p] != x {
            r.insert(p, x);
            assert(r@ == old_r.insert(p as int, x));
            assert forall|a: int, b: int| 0 <= a < b < r.len() implies r@[a] < r@[b] by {
                if b < p {
                    assert(r@[a] == old_r[a] && r@[b] == old_r[b]);
                } else if b == p {
                    assert(r@[a] == old_r[a]);
                } else if a < p {
                    assert(r@[b] == old_r[b - 1]);
                    assert(r@[a] == old_r[a]);
                    assert(old_r[p as int] > x);
                    assert(old_r[p as int] <= old_r[b - 1]);
                } else if a == p {
                    assert(r@[b] == old_r[b - 1]);
                    assert(old_r[p as int] > x);
                } else {
                    assert(r@[a] == old_r[a - 1] && r@[b] == old_r[b - 1]);
                }
            }
            assert(r@.to_set() =~= old_r.to_set().insert(x)) by {
                assert forall|y: usize| r@.contains(y) implies old_r.contains(y) || y == x by {
                    let k = choose|k: int| 0 <= k < r.len() && r@[k] == y;
                    if k < p {
                        assert(old_r[k] == y);
                    } else if k > p {
                        assert(old_r[k - 1] == y);
                    }
                }
                assert forall|y: usize| old_r.contains(y) implies r@.contains(y) by {
                    let k = choose|k: int| 0 <= k < old_r.len() && old_r[k] == y;
                    if k < p {
                        assert(r@[k] == y);
                    } else {
                        assert(r@[k + 1] == y);
                    }
                }
                assert(r@[p as int] == x);
            }
        } else {
            assert(r@[p as int] == x);
            assert(r@.to_set() =~= r@.to_set().insert(x));
        }
        assert(v@.take(i + 1) =~= v@.take(i as int).push(x));
        assert(v@.take(i + 1).to_set() =~= v@.take(i as int).to_set().insert(x)) by {
            let a = v@.take(i as int);
            let b = v@.take(i + 1);
            assert forall|y: usize| b.contains(y) implies a.contains(y) || y == x by {
                let k = choose|k: int| 0 <= k < b.len() && b[k] == y;
                if k < a.len() {
                    assert(a[k] == y);
                }
            }
            assert forall|y: usize| a.contains(y) implies b.contains(y) by {
                let k = choose|k: int| 0 <= k < a.len() && a[k] == y;
                assert(b[k] == y);
            }
            assert(b[i as int] == x);
        }
        i = i + 1;
    }
    assert(v@.take(v.len() as int) =~= v@);
    r
}

/// The values of `v` once each, in decreasing order (`sort_by` descending then `dedup`).
pub fn sorted_unique_desc(v: &[usize]) -> (r: Vec<usize>)
    ensures
        decreasing(r@),
        r@.to_set() == v@.to_set(),
{
    let up = sorted_unique(v);
    let mut r: Vec<usize> = Vec::new();
    let mut k: usize = up.len();
    while k > 0
        invariant
            k <= up.len(),
            r@ == up@.skip(k as int).reverse(),
        decreases k,
    {
        k = k - 1;
        r.push(up[k]);
        assert(r@ =~= up@.skip(k as int).reverse());
    }
    assert(up@.skip(0) =~= up@);
    assert(r@.to_set() =~= up@.to_set()) by {
        assert forall|y: usize| r@.contains(y) implies up@.contains(y) by {
            let j = choose|j: int| 0 <= j < r.len() && r@[j] == y;
            assert(up@[up.len() - 1 - j] == y);
        }
        assert forall|y: usize| up@.contains(y) implies r@.contains(y) by {
            let j = choose|j: int| 0 <= j < up.len() && up@[j] == y;
            assert(r@[up.len() - 1 - j] == y);
        }
    }
    assert forall|a: int, b: int| 0 <= a < b < r.len() implies r@[a] > r@[b] by {
        assert(r@[a] == up@[up.len() - 1 - a]);
        assert(r@[b] == up@[up.len() - 1 - b]);
    }
    r
}

/// The values of `v` in non-decreasing order, each as often as in `v` (`sort`).
pub fn sort_ascending(v: &[usize]) -> (r: Vec<usize>)
    ensures
        ascending(r@),
        r@.to_multiset() == v@.to_multiset(),
{
    broadcast use vstd::seq_lib::group_to_multiset_ensures;
    let mut r: Vec<usize> = Vec::new();
    let mut i: usize = 0;
    while i < v.len()
        invariant
            i <= v.len(),
            ascending(r@),
            r@.to_multiset() == v@.take(i as int).to_multiset(),
        decreases v.len() - i,
    {
        let x = v[i];
        let mut p: usize = 0;
        while p < r.len() && r[p] <= x
            invariant
                p <= r.len(),
                ascending(r@),
                forall|k: int| 0 <= k < p ==> r@[k] <= x,
            decreases r.len() - p,
        {
            p = p + 1;
        }
        let ghost old_r = r@;
        r.insert(p, x);
        assert(r@ == old_r.insert(p as int, x));
        assert forall|a: int, b: int| 0 <= a <= b < r.len() implies r@[a] <= r@[b] by {
            if b < p {
                assert(r@[a] == old_r[a] && r@[b] == old_r[b]);
            } else if b == p {
                if a < p {
                    assert(r@[a] == old_r[a]);
                }
            } else if a < p {
                assert(r@[b] == old_r[b - 1]);
                assert(r@[a] == old_r[a]);
                assert(old_r[a] <= old_r[b - 1]);
            } else if a == p {
                assert(r@[b] == old_r[b - 1]);
                assert(old_r[p as int] > x);
                assert(old_r[p as int] <= old_r[b - 1]);
            } else {
                assert(r@[a] == old_r[a - 1] && r@[b] == old_r[b - 1]);
            }
        }
        assert(r@.remove(p as int) =~= old_r);
        assert(r@[p as int] == x);
        assert(r@.to_multiset() =~= old_r.to_multiset().insert(x)) by {
            r@.to_multiset_ensures();
            assert(r@.remove(p as int).to_multiset() =~= r@.to_multiset().remove(r@[p as int]));
            assert(r@.contains(x));
            assert(r@.to_multiset().count(x) > 0);
        }
        assert(v@.take(i + 1) =~= v@.take(i as int).push(x));
        proof {
            v@.take(i as int).to_multiset_ensures();
        }
        i = i + 1;
    }
    assert(v@.take(v.len() as int) =~= v@);
    r
}

} // verus!
