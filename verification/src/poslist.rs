//! Strictly sorted lists of positions.
//!
//! Box configurations are kept strictly sorted under `pos_lt` at all times,
//! so that two structurally identical configurations are equal as plain
//! vectors, whatever order the search discovered them in.

use vstd::prelude::*;

use crate::pos::{pos_le, pos_lt, Pos};

verus! {

/// Strictly increasing under `pos_lt`; in particular, free of duplicates.
pub open spec fn strictly_sorted(s: Seq<Pos>) -> bool {
    forall|i: int, j: int| 0 <= i < j < s.len() ==> pos_lt(s[i], s[j])
}

/// Pairwise distinct.
pub open spec fn distinct(s: Seq<Pos>) -> bool {
    forall|i: int, j: int| 0 <= i < j < s.len() ==> s[i] != s[j]
}

/// Whether `v` holds `p` somewhere.
pub fn contains_pos(v: &Vec<Pos>, p: Pos) -> (r: bool)
    ensures
        r == v@.contains(p),
{
    let mut i: usize = 0;
    while i < v.len()
        invariant
            i <= v.len(),
            forall|j: int| 0 <= j < i ==> v@[j] != p,
        decreases v.len() - i,
    {
        if v[i] == p {
            return true;
        }
        i = i + 1;
    }
    false
}

/// The index of `p` in `v`, if present.
pub fn find_pos(v: &Vec<Pos>, p: Pos) -> (r: Option<usize>)
    ensures
        match r {
            Some(i) => i < v@.len() && v@[i as int] == p,
            None => !v@.contains(p),
        },
{
    let mut i: usize = 0;
    while i < v.len()
        invariant
            i <= v.len(),
            forall|j: int| 0 <= j < i ==> v@[j] != p,
        decreases v.len() - i,
    {
        if v[i] == p {
            return Some(i);
        }
        i = i + 1;
    }
    None
}

/// Inserts `p` into the strictly sorted list `v`, keeping it strictly
/// sorted. `p` must not be present yet.
pub fn sorted_insert(v: &mut Vec<Pos>, p: Pos)
    requires
        strictly_sorted(old(v)@),
        !old(v)@.contains(p),
        old(v)@.len() < usize::MAX,
    ensures
        strictly_sorted(final(v)@),
        final(v)@.len() == old(v)@.len() + 1,
        forall|q: Pos| final(v)@.contains(q) <==> (q == p || old(v)@.contains(q)),
{
    let ghost v0 = v@;
    let mut i: usize = 0;
    let mut found: bool = false;
    while i < v.len() && !found
        invariant
            v@ == v0,
            strictly_sorted(v0),
            !v0.contains(p),
            i <= v@.len(),
            forall|j: int| 0 <= j < i ==> pos_lt(v@[j], p),
            found ==> i < v@.len() && pos_lt(p, v@[i as int]),
        decreases v.len() - i + (if found { 0int } else { 1int }),
    {
        if p.lt(&v[i]) {
            found = true;
        } else {
            proof {
                assert(v@[i as int] != p) by {
                    assert(v@.contains(v@[i as int]));
                }
                assert(pos_lt(v@[i as int], p));
            }
            i = i + 1;
        }
    }
    proof {
        assert(forall|j: int| 0 <= j < i ==> pos_lt(v0[j], p));
        assert forall|j: int| i <= j < v0.len() implies pos_lt(p, v0[j]) by {
            assert(i < v0.len());
            assert(pos_lt(p, v0[i as int]));
            if j > i {
                assert(pos_lt(v0[i as int], v0[j]));
            }
        }
    }
    v.insert(i, p);
    proof {
        let vn = v@;
        assert(vn == v0.insert(i as int, p));
        assert(vn.len() == v0.len() + 1);
        assert(forall|j: int| 0 <= j < i ==> vn[j] == v0[j]);
        assert(vn[i as int] == p);
        assert(forall|j: int| i < j < vn.len() ==> vn[j] == v0[j - 1]);
        assert forall|a: int, b: int| 0 <= a < b < vn.len() implies pos_lt(vn[a], vn[b]) by {
            if b < i {
            } else if a < i && b == i {
            } else if a == i {
            } else if a < i && b > i {
                if i < v0.len() {
                    assert(pos_lt(vn[a], p) && pos_lt(p, v0[b - 1]));
                }
            } else {
            }
        }
        assert forall|q: Pos| vn.contains(q) <==> (q == p || v0.contains(q)) by {
            if vn.contains(q) {
                let k = choose|k: int| 0 <= k < vn.len() && vn[k] == q;
                if k < i {
                    assert(v0[k] == q);
                    assert(v0.contains(q));
                } else if k == i {
                } else {
                    assert(v0[k - 1] == q);
                    assert(v0.contains(q));
                }
            }
            if q == p {
                assert(vn[i as int] == q);
                assert(vn.contains(q));
            } else if v0.contains(q) {
                let k = choose|k: int| 0 <= k < v0.len() && v0[k] == q;
                if k < i {
                    assert(vn[k] == q);
                } else {
                    assert(vn[k + 1] == q);
                }
                assert(vn.contains(q));
            }
        }
    }
}

/// Removes the element at `i` from the strictly sorted list `v`.
pub fn sorted_remove_at(v: &mut Vec<Pos>, i: usize) -> (r: Pos)
    requires
        strictly_sorted(old(v)@),
        i < old(v)@.len(),
    ensures
        strictly_sorted(final(v)@),
        final(v)@.len() == old(v)@.len() - 1,
        r == old(v)@[i as int],
        forall|q: Pos| final(v)@.contains(q) <==> (q != r && old(v)@.contains(q)),
{
    let ghost v0 = v@;
    let r = v.remove(i);
    proof {
        let vn = v@;
        assert(vn == v0.remove(i as int));
        assert(forall|j: int| 0 <= j < i ==> vn[j] == v0[j]);
        assert(forall|j: int| i <= j < vn.len() ==> vn[j] == v0[j + 1]);
        assert forall|a: int, b: int| 0 <= a < b < vn.len() implies pos_lt(vn[a], vn[b]) by {
            if b < i {
            } else if a < i {
                assert(pos_lt(v0[a], v0[b + 1]));
            } else {
                assert(pos_lt(v0[a + 1], v0[b + 1]));
            }
        }
        assert forall|q: Pos| vn.contains(q) <==> (q != r && v0.contains(q)) by {
            if vn.contains(q) {
                let k = choose|k: int| 0 <= k < vn.len() && vn[k] == q;
                if k < i {
                    assert(v0[k] == q);
                    if q == r {
                        assert(pos_lt(v0[k], v0[i as int]));
                    }
                } else {
                    assert(v0[k + 1] == q);
                    if q == r {
                        assert(pos_lt(v0[i as int], v0[k + 1]));
                    }
                }
                assert(v0.contains(q));
            }
            if q != r && v0.contains(q) {
                let k = choose|k: int| 0 <= k < v0.len() && v0[k] == q;
                if k < i {
                    assert(vn[k] == q);
                } else {
                    assert(k != i);
                    assert(vn[k - 1] == q);
                }
                assert(vn.contains(q));
            }
        }
    }
    r
}

/// Sorts a list of pairwise distinct positions into strictly increasing
/// order. The result holds exactly the same positions.
pub fn sort_distinct(v: &Vec<Pos>) -> (r: Vec<Pos>)
    requires
        distinct(v@),
    ensures
        strictly_sorted(r@),
        r@.len() == v@.len(),
        forall|q: Pos| r@.contains(q) <==> v@.contains(q),
{
    let mut acc: Vec<Pos> = Vec::new();
    let mut i: usize = 0;
    while i < v.len()
        invariant
            distinct(v@),
            i <= v@.len(),
            strictly_sorted(acc@),
            acc@.len() == i,
            forall|q: Pos| acc@.contains(q) <==> v@.subrange(0, i as int).contains(q),
        decreases v.len() - i,
    {
        let p = v[i];
        proof {
            assert(!acc@.contains(p)) by {
                if v@.subrange(0, i as int).contains(p) {
                    let k = choose|k: int|
                        0 <= k < i && v@.subrange(0, i as int)[k] == p;
                    assert(v@[k] == p);
                    assert(v@[i as int] == p);
                }
            }
        }
        sorted_insert(&mut acc, p);
        i = i + 1;
        proof {
            assert forall|q: Pos| acc@.contains(q) <==> v@.subrange(0, i as int).contains(
                q,
            ) by {
                let pre = v@.subrange(0, i as int);
                let pre0 = v@.subrange(0, i - 1);
                assert(pre == pre0.push(v@[i - 1]));
                if acc@.contains(q) {
                    if q == p {
                        assert(pre[i - 1] == p);
                    } else {
                        let k = choose|k: int| 0 <= k < pre0.len() && pre0[k] == q;
                        assert(pre[k] == q);
                    }
                    assert(pre.contains(q));
                } else if pre.contains(q) {
                    let k = choose|k: int| 0 <= k < pre.len() && pre[k] == q;
                    if k < i - 1 {
                        assert(pre0[k] == q);
                        assert(pre0.contains(q));
                    } else {
                        assert(q == p);
                    }
                }
            }
        }
    }
    proof {
        assert(v@.subrange(0, v@.len() as int) == v@);
    }
    acc
}

/// Whether two position lists are equal element for element.
pub fn pos_list_eq(a: &Vec<Pos>, b: &Vec<Pos>) -> (r: bool)
    ensures
        r == (a@ == b@),
{
    if a.len() != b.len() {
        proof {
            assert(a@ != b@);
        }
        return false;
    }
    let mut i: usize = 0;
    while i < a.len()
        invariant
            a@.len() == b@.len(),
            i <= a@.len(),
            forall|j: int| 0 <= j < i ==> a@[j] == b@[j],
        decreases a.len() - i,
    {
        if a[i] != b[i] {
            return false;
        }
        i = i + 1;
    }
    proof {
        assert(a@ =~= b@);
    }
    true
}

/// Membership after a push: the new element, or an old member.
pub proof fn lemma_push_contains<A>(s: Seq<A>, a: A, q: A)
    ensures
        s.push(a).contains(q) <==> (s.contains(q) || q == a),
{
    let sn = s.push(a);
    if sn.contains(q) {
        let k = choose|k: int| 0 <= k < sn.len() && sn[k] == q;
        if k < s.len() {
            assert(s[k] == q);
            assert(s.contains(q));
        }
    }
    if s.contains(q) {
        let k = choose|k: int| 0 <= k < s.len() && s[k] == q;
        assert(sn[k] == q);
        assert(sn.contains(q));
    }
    if q == a {
        assert(sn[s.len() as int] == q);
        assert(sn.contains(q));
    }
}

/// Appending a fresh element keeps a list free of repeats.
pub proof fn lemma_push_distinct<A>(s: Seq<A>, x: A)
    requires
        forall|i: int, j: int| 0 <= i < j < s.len() ==> s[i] != s[j],
        !s.contains(x),
    ensures
        forall|i: int, j: int| 0 <= i < j < s.push(x).len() ==> s.push(x)[i] != s.push(x)[j],
{
    let sn = s.push(x);
    assert forall|i: int, j: int| 0 <= i < j < sn.len() implies sn[i] != sn[j] by {
        if j < s.len() {
            assert(sn[i] == s[i] && sn[j] == s[j]);
        } else {
            assert(sn[j] == x);
            assert(sn[i] == s[i]);
            assert(s.contains(s[i]));
        }
    }
}

/// A strictly sorted list is determined by the set of positions it holds:
/// two strictly sorted lists containing exactly the same positions are
/// equal. This is why sorted box lists are a sound deduplication key.
pub proof fn lemma_sorted_unique(a: Seq<Pos>, b: Seq<Pos>)
    requires
        strictly_sorted(a),
        strictly_sorted(b),
        forall|q: Pos| a.contains(q) <==> b.contains(q),
    ensures
        a == b,
    decreases a.len(),
{
    if a.len() == 0 {
        if b.len() > 0 {
            assert(b.contains(b[0]));
            assert(a.contains(b[0]));
        }
        assert(a =~= b);
    } else {
        assert(a.contains(a[0]));
        assert(b.contains(a[0]));
        assert(b.len() > 0);
        assert(b.contains(b[0]));
        assert(a.contains(b[0]));
        // The heads are both the unique minimum of the common position set.
        if a[0] != b[0] {
            let i = choose|i: int| 0 <= i < b.len() && b[i] == a[0];
            let j = choose|j: int| 0 <= j < a.len() && a[j] == b[0];
            assert(i != 0 && j != 0);
            assert(pos_lt(b[0], b[i]));
            assert(pos_lt(a[0], a[j]));
            assert(false);
        }
        assert(a[0] == b[0]);
        let at = a.drop_first();
        let bt = b.drop_first();
        assert(strictly_sorted(at)) by {
            assert(forall|x: int, y: int|
                0 <= x < y < at.len() ==> pos_lt(#[trigger] at[x], #[trigger] at[y]));
        }
        assert(strictly_sorted(bt)) by {
            assert(forall|x: int, y: int|
                0 <= x < y < bt.len() ==> pos_lt(#[trigger] bt[x], #[trigger] bt[y]));
        }
        assert forall|q: Pos| at.contains(q) <==> bt.contains(q) by {
            lemma_tail_contains(a, q);
            lemma_tail_contains(b, q);
        }
        lemma_sorted_unique(at, bt);
        assert(a.len() == b.len());
        assert forall|k: int| 0 <= k < a.len() implies a[k] == b[k] by {
            if k > 0 {
                assert(at[k - 1] == a[k]);
                assert(bt[k - 1] == b[k]);
            }
        }
        assert(a =~= b);
    }
}

/// For a strictly sorted list, membership in the tail is membership in the
/// whole list minus the head.
proof fn lemma_tail_contains(s: Seq<Pos>, q: Pos)
    requires
        strictly_sorted(s),
        s.len() > 0,
    ensures
        s.drop_first().contains(q) <==> (s.contains(q) && q != s[0]),
{
    let t = s.drop_first();
    if t.contains(q) {
        let k = choose|k: int| 0 <= k < t.len() && t[k] == q;
        assert(s[k + 1] == q);
        assert(s.contains(q));
        assert(pos_lt(s[0], s[k + 1]));
    }
    if s.contains(q) && q != s[0] {
        let k = choose|k: int| 0 <= k < s.len() && s[k] == q;
        assert(k != 0);
        assert(t[k - 1] == q);
        assert(t.contains(q));
    }
}

} // verus!
