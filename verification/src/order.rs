//! Ordering of path strings, for listing copies in order.
use vstd::prelude::*;

use crate::text::{chars_eq, chars_of};

verus! {

broadcast use vstd::seq_lib::group_to_multiset_ensures;

/// `a` comes no later than `b` in the order of their characters.
pub open spec fn chars_le(a: Seq<char>, b: Seq<char>) -> bool
    decreases a.len(),
{
    if a.len() == 0 {
        true
    } else if b.len() == 0 {
        false
    } else if a[0] != b[0] {
        a[0] < b[0]
    } else {
        chars_le(a.skip(1), b.skip(1))
    }
}

/// Of any two strings, one comes no later than the other.
pub proof fn lemma_chars_le_total(a: Seq<char>, b: Seq<char>)
    ensures
        chars_le(a, b) || chars_le(b, a),
    decreases a.len(),
{
    if a.len() > 0 && b.len() > 0 && a[0] == b[0] {
        lemma_chars_le_total(a.skip(1), b.skip(1));
    }
}

/// The order is transitive.
pub proof fn lemma_chars_le_trans(a: Seq<char>, b: Seq<char>, c: Seq<char>)
    requires
        chars_le(a, b),
        chars_le(b, c),
    ensures
        chars_le(a, c),
    decreases a.len(),
{
    if a.len() > 0 && b.len() > 0 && c.len() > 0 && a[0] == b[0] && b[0] == c[0] {
        lemma_chars_le_trans(a.skip(1), b.skip(1), c.skip(1));
    }
}

/// Two strings each no later than the other are equal.
pub proof fn lemma_chars_le_antisym(a: Seq<char>, b: Seq<char>)
    requires
        chars_le(a, b),
        chars_le(b, a),
    ensures
        a == b,
    decreases a.len(),
{
    if a.len() > 0 {
        lemma_chars_le_antisym(a.skip(1), b.skip(1));
        assert(a =~= seq![a[0]] + a.skip(1));
        assert(b =~= seq![b[0]] + b.skip(1));
    } else {
        assert(b.len() == 0);
        assert(a =~= b);
    }
}

/// Pairs of strings in order of their first string, then their second.
pub open spec fn pair_le(x: (Seq<char>, Seq<char>), y: (Seq<char>, Seq<char>)) -> bool {
    if x.0 == y.0 {
        chars_le(x.1, y.1)
    } else {
        chars_le(x.0, y.0)
    }
}

/// The view of a pair of strings.
pub open spec fn pair_view(p: (String, String)) -> (Seq<char>, Seq<char>) {
    (p.0@, p.1@)
}

/// The pairs come in order.
pub open spec fn pairs_sorted(s: Seq<(String, String)>) -> bool {
    forall|i: int, j: int| 0 <= i < j < s.len() ==> pair_le(pair_view(s[i]), pair_view(s[j]))
}

proof fn lemma_pair_le_total(x: (Seq<char>, Seq<char>), y: (Seq<char>, Seq<char>))
    ensures
        pair_le(x, y) || pair_le(y, x),
{
    lemma_chars_le_total(x.0, y.0);
    lemma_chars_le_total(x.1, y.1);
}

proof fn lemma_pair_le_trans(x: (Seq<char>, Seq<char>), y: (Seq<char>, Seq<char>), z: (Seq<char>, Seq<char>))
    requires
        pair_le(x, y),
        pair_le(y, z),
    ensures
        pair_le(x, z),
{
    if x.0 == y.0 && y.0 == z.0 {
        lemma_chars_le_trans(x.1, y.1, z.1);
    } else if x.0 == y.0 {
        assert(chars_le(x.0, z.0));
    } else if y.0 == z.0 {
        assert(chars_le(x.0, z.0));
    } else {
        lemma_chars_le_trans(x.0, y.0, z.0);
        if x.0 == z.0 {
            lemma_chars_le_antisym(x.0, y.0);
        }
    }
}

fn le_chars(a: &Vec<char>, b: &Vec<char>) -> (res: bool)
    ensures
        res == chars_le(a@, b@),
{
    let mut i: usize = 0;
    assert(a@.skip(0) =~= a@);
    assert(b@.skip(0) =~= b@);
    while i < a.len() && i < b.len() && a[i] == b[i]
        invariant
            i <= a@.len(),
            i <= b@.len(),
            chars_le(a@, b@) == chars_le(a@.skip(i as int), b@.skip(i as int)),
        decreases a.len() - i,
    {
        proof {
            assert(a@.skip(i as int).skip(1) =~= a@.skip(i + 1));
            assert(b@.skip(i as int).skip(1) =~= b@.skip(i + 1));
        }
        i = i + 1;
    }
    if i == a.len() {
        true
    } else if i == b.len() {
        false
    } else {
        a[i] < b[i]
    }
}

fn le_pair(x: &(String, String), y: &(String, String)) -> (res: bool)
    ensures
        res == pair_le(pair_view(*x), pair_view(*y)),
{
    let x0 = chars_of(x.0.as_str());
    let y0 = chars_of(y.0.as_str());
    if chars_eq(&x0, &y0) {
        le_chars(&chars_of(x.1.as_str()), &chars_of(y.1.as_str()))
    } else {
        le_chars(&x0, &y0)
    }
}

/// The pairs of `items` in order of their first string, then their second.
pub fn sort_pairs(items: Vec<(String, String)>) -> (res: Vec<(String, String)>)
    ensures
        pairs_sorted(res@),
        res@.to_multiset() == items@.to_multiset(),
{
    let ghost all = items@;
    let mut out: Vec<(String, String)> = Vec::new();
    for x in it: items
        invariant
            it.seq() == all,
            pairs_sorted(out@),
            out@.to_multiset() == all.take(it.index() as int).to_multiset(),
    {
        let ghost n = it.index() as int;
        assert(all[n] == x);
        assert(all.take(n + 1) =~= all.take(n).push(x));
        let mut p: usize = 0;
        while p < out.len() && le_pair(&out[p], &x)
            invariant
                p <= out@.len(),
                forall|k: int| 0 <= k < p ==> pair_le(pair_view(out@[k]), pair_view(x)),
            decreases out.len() - p,
        {
            p = p + 1;
        }
        let ghost before = out@;
        proof {
            if p < before.len() {
                lemma_pair_le_total(pair_view(before[p as int]), pair_view(x));
            }
        }
        out.insert(p, x);
        proof {
            assert(out@ == before.insert(p as int, x));
            assert forall|a: int, b: int| 0 <= a < b < out@.len() implies pair_le(pair_view(out@[a]), pair_view(out@[b])) by {
                if b < p {
                    assert(out@[a] == before[a] && out@[b] == before[b]);
                } else if b == p {
                    assert(out@[a] == before[a]);
                } else if a == p {
                    assert(out@[b] == before[b - 1]);
                    if b - 1 > p {
                        lemma_pair_le_trans(pair_view(x), pair_view(before[p as int]), pair_view(before[b - 1]));
                    }
                } else if a < p {
                    assert(out@[a] == before[a] && out@[b] == before[b - 1]);
                    lemma_pair_le_trans(pair_view(before[a]), pair_view(x), pair_view(before[p as int]));
                    if b - 1 > p {
                        lemma_pair_le_trans(pair_view(before[a]), pair_view(before[p as int]), pair_view(before[b - 1]));
                    }
                } else {
                    assert(out@[a] == before[a - 1] && out@[b] == before[b - 1]);
                }
            }
        }
    }
    proof {
        assert(all.take(all.len() as int) =~= all);
    }
    out
}

} // verus!
