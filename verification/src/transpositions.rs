//! Products of transpositions and the parity of permutations.
//!
//! Exchanging two entries of a sequence of distinct values changes its number of
//! inversions by an odd amount, and the number of transpositions counted by a
//! permutation's cycle decomposition has the parity of its number of inversions.
//! So a permutation written as a product of `k` transpositions in any way is even
//! exactly when `k` is even.
use vstd::prelude::*;
use crate::permutation::{
    compose_mappings, cycles_disjoint, identity_mapping, in_some_cycle, is_cycle_decomposition,
    is_cycle_of, is_permutation, transposition, transposition_count, lemma_compose_associative,
    lemma_compose_identity, lemma_identity_is_even, lemma_identity_is_permutation,
};

verus! {

/// Number of entries of `p` greater than `v`.
pub open spec fn count_greater(p: Seq<usize>, v: usize) -> nat
    decreases p.len(),
{
    if p.len() == 0 {
        0
    } else {
        count_greater(p.drop_last(), v) + if p.last() > v { 1nat } else { 0nat }
    }
}

/// Number of inversions of `s`: pairs of positions `i < j` with `s[i] > s[j]`.
pub open spec fn inversions(s: Seq<usize>) -> nat
    decreases s.len(),
{
    if s.len() == 0 {
        0
    } else {
        inversions(s.drop_last()) + count_greater(s.drop_last(), s.last())
    }
}

/// `s` with the entries at positions `a` and `b` exchanged.
pub open spec fn swap_entries(s: Seq<usize>, a: int, b: int) -> Seq<usize> {
    s.update(a, s[b]).update(b, s[a])
}

/// Exchanging two neighbouring entries of the prefix does not change how many
/// entries exceed `v`.
proof fn lemma_count_greater_adjacent(p: Seq<usize>, k: int, v: usize)
    requires
        0 <= k,
        k + 1 < p.len(),
    ensures
        count_greater(swap_entries(p, k, k + 1), v) == count_greater(p, v),
    decreases p.len(),
{
    let t = swap_entries(p, k, k + 1);
    if k + 1 < p.len() - 1 {
        assert(t.drop_last() =~= swap_entries(p.drop_last(), k, k + 1));
        assert(t.last() == p.last());
        lemma_count_greater_adjacent(p.drop_last(), k, v);
    } else {
        let q = p.drop_last().drop_last();
        assert(p.drop_last() =~= q.push(p[k]));
        assert(t.drop_last() =~= q.push(p[k + 1]));
        assert(q.push(p[k]).drop_last() =~= q);
        assert(q.push(p[k + 1]).drop_last() =~= q);
        assert(t.last() == p[k]);
        assert(p.last() == p[k + 1]);
        assert(count_greater(q.push(p[k]), v) == count_greater(q, v) + if p[k] > v { 1nat } else { 0nat });
        assert(count_greater(q.push(p[k + 1]), v) == count_greater(q, v) + if p[k + 1] > v { 1nat } else { 0nat });
    }
}

/// Exchanging two neighbouring distinct entries adds one inversion when they were
/// in increasing order and removes one when they were in decreasing order.
proof fn lemma_inversions_adjacent(s: Seq<usize>, k: int)
    requires
        0 <= k,
        k + 1 < s.len(),
        s[k] != s[k + 1],
    ensures
        inversions(swap_entries(s, k, k + 1)) + (if s[k] > s[k + 1] { 1int } else { 0int })
            == inversions(s) + (if s[k] < s[k + 1] { 1int } else { 0int }),
    decreases s.len(),
{
    let t = swap_entries(s, k, k + 1);
    if k + 1 < s.len() - 1 {
        assert(t.drop_last() =~= swap_entries(s.drop_last(), k, k + 1));
        assert(t.last() == s.last());
        lemma_inversions_adjacent(s.drop_last(), k);
        lemma_count_greater_adjacent(s.drop_last(), k, s.last());
    } else {
        let q = s.drop_last().drop_last();
        let x = s[k];
        let y = s[k + 1];
        assert(s.drop_last() =~= q.push(x));
        assert(t.drop_last() =~= q.push(y));
        assert(q.push(x).drop_last() =~= q);
        assert(q.push(y).drop_last() =~= q);
        assert(s.last() == y);
        assert(t.last() == x);
        assert(inversions(q.push(x)) == inversions(q) + count_greater(q, x));
        assert(inversions(q.push(y)) == inversions(q) + count_greater(q, y));
        assert(count_greater(q.push(x), y) == count_greater(q, y) + if x > y { 1nat } else { 0nat });
        assert(count_greater(q.push(y), x) == count_greater(q, x) + if y > x { 1nat } else { 0nat });
    }
}

/// Exchanging two entries keeps a sequence without repeats.
proof fn lemma_swap_no_dup(s: Seq<usize>, a: int, b: int)
    requires
        0 <= a < s.len(),
        0 <= b < s.len(),
        s.no_duplicates(),
    ensures
        swap_entries(s, a, b).no_duplicates(),
        swap_entries(s, a, b).len() == s.len(),
{
    let t = swap_entries(s, a, b);
    assert forall|i: int, j: int| 0 <= i < t.len() && 0 <= j < t.len() && i != j implies t[i] != t[j] by {
        let si = if i == b { a } else if i == a { b } else { i };
        let sj = if j == b { a } else if j == a { b } else { j };
        assert(t[i] == s[si]);
        assert(t[j] == s[sj]);
    }
}

/// Exchanging two entries of a sequence without repeats changes the parity of
/// its number of inversions.
pub proof fn lemma_inversions_swap(s: Seq<usize>, a: int, b: int)
    requires
        0 <= a < b < s.len(),
        s.no_duplicates(),
    ensures
        (inversions(swap_entries(s, a, b)) + 1) % 2 == inversions(s) % 2,
    decreases b - a,
{
    if b == a + 1 {
        lemma_inversions_adjacent(s, a);
    } else {
        let s1 = swap_entries(s, a, a + 1);
        lemma_inversions_adjacent(s, a);
        lemma_swap_no_dup(s, a, a + 1);
        let s2 = swap_entries(s1, a + 1, b);
        lemma_inversions_swap(s1, a + 1, b);
        lemma_swap_no_dup(s1, a + 1, b);
        let s3 = swap_entries(s2, a, a + 1);
        lemma_inversions_adjacent(s2, a);
        assert(s3 =~= swap_entries(s, a, b));
    }
}

/// Each pair names two different elements below `n`.
pub open spec fn valid_transpositions(ts: Seq<(usize, usize)>, n: nat) -> bool {
    forall|k: int| 0 <= k < ts.len() ==> (#[trigger] ts[k]).0 != ts[k].1 && ts[k].0 < n && ts[k].1 < n
}

/// The product `t1 ∘ t2 ∘ ... ∘ tk` of the transpositions on `n` elements
/// (the identity for none).
pub open spec fn transpositions_product(n: nat, ts: Seq<(usize, usize)>) -> Seq<usize>
    decreases ts.len(),
{
    if ts.len() == 0 {
        identity_mapping(n)
    } else {
        compose_mappings(transpositions_product(n, ts.drop_last()), transposition(n, ts.last().0, ts.last().1))
    }
}

/// A permutation has no repeated value.
proof fn lemma_permutation_no_dup(s: Seq<usize>)
    requires
        is_permutation(s),
    ensures
        s.no_duplicates(),
{
    assert forall|i: int, j: int| 0 <= i < s.len() && 0 <= j < s.len() && i != j implies s[i] != s[j] by {
        if s[i] == s[j] {
            assert(i == j);
        }
    }
}

/// Exchanging two entries of a permutation gives a permutation.
proof fn lemma_swap_permutation(s: Seq<usize>, a: int, b: int)
    requires
        is_permutation(s),
        0 <= a < s.len(),
        0 <= b < s.len(),
    ensures
        is_permutation(swap_entries(s, a, b)),
        swap_entries(s, a, b).len() == s.len(),
{
    lemma_permutation_no_dup(s);
    lemma_swap_no_dup(s, a, b);
    let t = swap_entries(s, a, b);
    assert forall|i: int| 0 <= i < t.len() implies #[trigger] t[i] < t.len() by {
        let si = if i == b { a } else if i == a { b } else { i };
        assert(t[i] == s[si]);
    }
    assert forall|i: int, j: int| 0 <= i < t.len() && 0 <= j < t.len() && #[trigger] t[i] == #[trigger] t[j] implies i == j by {
        if i != j {
            assert(t[i] != t[j]);
        }
    }
}

/// Composing with a transposition on the right exchanges two entries.
proof fn lemma_compose_transposition(s: Seq<usize>, n: nat, a: usize, b: usize)
    requires
        s.len() == n,
        n <= usize::MAX,
        a < n,
        b < n,
    ensures
        compose_mappings(s, transposition(n, a, b)) == swap_entries(s, a as int, b as int),
{
    assert(compose_mappings(s, transposition(n, a, b)) =~= swap_entries(s, a as int, b as int));
}

/// Nothing in `p` exceeds `v` when every entry is at most `v`.
proof fn lemma_count_greater_none(p: Seq<usize>, v: usize)
    requires
        forall|i: int| 0 <= i < p.len() ==> #[trigger] p[i] <= v,
    ensures
        count_greater(p, v) == 0,
    decreases p.len(),
{
    if p.len() > 0 {
        let q = p.drop_last();
        assert forall|i: int| 0 <= i < q.len() implies #[trigger] q[i] <= v by {
            assert(q[i] == p[i]);
        }
        lemma_count_greater_none(q, v);
        assert(p.last() == p[p.len() - 1]);
    }
}

/// The identity has no inversions.
proof fn lemma_inversions_identity(n: nat)
    requires
        n <= usize::MAX,
    ensures
        inversions(identity_mapping(n)) == 0,
    decreases n,
{
    if n > 0 {
        let m = (n - 1) as nat;
        assert(identity_mapping(n).drop_last() =~= identity_mapping(m));
        lemma_inversions_identity(m);
        lemma_count_greater_none(identity_mapping(m), m as usize);
    }
}

/// A product of transpositions is a permutation whose number of inversions has
/// the parity of the number of transpositions.
proof fn lemma_product_inversions(n: nat, ts: Seq<(usize, usize)>)
    requires
        n <= usize::MAX,
        valid_transpositions(ts, n),
    ensures
        is_permutation(transpositions_product(n, ts)),
        transpositions_product(n, ts).len() == n,
        inversions(transpositions_product(n, ts)) % 2 == ts.len() % 2,
    decreases ts.len(),
{
    if ts.len() == 0 {
        lemma_identity_is_permutation(n);
        lemma_inversions_identity(n);
    } else {
        let rest = ts.drop_last();
        assert(valid_transpositions(rest, n)) by {
            assert forall|k: int| 0 <= k < rest.len() implies (#[trigger] rest[k]).0 != rest[k].1 && rest[k].0 < n
                && rest[k].1 < n by {
                assert(rest[k] == ts[k]);
            }
        }
        lemma_product_inversions(n, rest);
        let p = transpositions_product(n, rest);
        let e = ts.last();
        assert(e == ts[ts.len() - 1]);
        let a = e.0;
        let b = e.1;
        lemma_compose_transposition(p, n, a, b);
        lemma_permutation_no_dup(p);
        lemma_swap_permutation(p, a as int, b as int);
        if a < b {
            lemma_inversions_swap(p, a as int, b as int);
        } else {
            assert(swap_entries(p, a as int, b as int) =~= swap_entries(p, b as int, a as int));
            lemma_inversions_swap(p, b as int, a as int);
        }
    }
}

/// Replacing one cycle changes the count by the difference of the lengths.
proof fn lemma_count_update(cs: Seq<Seq<usize>>, i: int, e: Seq<usize>)
    requires
        0 <= i < cs.len(),
    ensures
        transposition_count(cs.update(i, e)) + cs[i].len() == transposition_count(cs) + e.len(),
    decreases cs.len(),
{
    let u = cs.update(i, e);
    if i < cs.len() - 1 {
        assert(u.drop_last() =~= cs.drop_last().update(i, e));
        lemma_count_update(cs.drop_last(), i, e);
    } else {
        assert(u.drop_last() =~= cs.drop_last());
    }
}

/// Dropping the first cycle removes its transpositions from the count.
proof fn lemma_count_drop_first(cs: Seq<Seq<usize>>)
    requires
        cs.len() > 0,
    ensures
        transposition_count(cs.subrange(1, cs.len() as int)) + cs[0].len() - 1 == transposition_count(cs),
    decreases cs.len(),
{
    let r = cs.subrange(1, cs.len() as int);
    if cs.len() == 1 {
        assert(r =~= Seq::<Seq<usize>>::empty());
        assert(cs.drop_last() =~= Seq::<Seq<usize>>::empty());
    } else {
        assert(r.drop_last() =~= cs.drop_last().subrange(1, cs.len() - 1));
        assert(r.last() == cs.last());
        lemma_count_drop_first(cs.drop_last());
    }
}

/// Cycles of length at least 2 count at least one transposition each.
proof fn lemma_count_nonneg(cs: Seq<Seq<usize>>)
    requires
        forall|a: int| 0 <= a < cs.len() ==> (#[trigger] cs[a]).len() >= 2,
    ensures
        transposition_count(cs) >= cs.len(),
    decreases cs.len(),
{
    if cs.len() > 0 {
        let r = cs.drop_last();
        assert forall|a: int| 0 <= a < r.len() implies (#[trigger] r[a]).len() >= 2 by {
            assert(r[a] == cs[a]);
        }
        lemma_count_nonneg(r);
        assert(cs.last() == cs[cs.len() - 1]);
    }
}

/// Exchanging the first two entries `x < y` of the first cycle splits `y` off as
/// a fixed point: the first cycle loses `y` (and vanishes when it was `(x y)`),
/// and the decomposition counts one transposition fewer.
proof fn lemma_split_first_cycle(s: Seq<usize>, cs: Seq<Seq<usize>>) -> (cs2: Seq<Seq<usize>>)
    requires
        is_permutation(s),
        is_cycle_decomposition(s, cs),
        cs.len() > 0,
    ensures
        cs[0][0] < cs[0][1],
        is_cycle_decomposition(swap_entries(s, cs[0][0] as int, cs[0][1] as int), cs2),
        transposition_count(cs2) + 1 == transposition_count(cs),
{
    let c = cs[0];
    assert(is_cycle_of(s, c));
    let k = c.len() as int;
    let x = c[0];
    let y = c[1];
    assert(x < y);
    assert(x < s.len() && y < s.len());
    let t = swap_entries(s, x as int, y as int);
    assert(s[x as int] == y);
    assert(t[y as int] == y);
    assert(t[x as int] == s[y as int]);
    assert forall|z: int| 0 <= z < s.len() && z != x && z != y implies #[trigger] t[z] == s[z] by {}
    // Entries of the other cycles are neither `x` nor `y`.
    assert forall|a: int, j: int| 1 <= a < cs.len() && 0 <= j < cs[a].len() implies #[trigger] cs[a][j] != x
        && cs[a][j] != y by {
        assert(cs[0][0] != cs[a][j]);
        assert(cs[0][1] != cs[a][j]);
    }
    // The other cycles are cycles of `t` too.
    assert forall|a: int| 1 <= a < cs.len() implies is_cycle_of(t, #[trigger] cs[a]) by {
        let d = cs[a];
        assert(is_cycle_of(s, d));
        assert forall|j: int| 0 <= j < d.len() - 1 implies #[trigger] t[d[j] as int] == d[j + 1] by {
            assert(d[j] != x && d[j] != y);
        }
        assert(d.last() == d[d.len() - 1]);
        assert(d[d.len() - 1] != x && d[d.len() - 1] != y);
    }
    if k == 2 {
        let cs2 = cs.subrange(1, cs.len() as int);
        assert(c.last() == y);
        assert(t[x as int] == x);
        assert forall|a: int| 0 <= a < cs2.len() implies is_cycle_of(t, #[trigger] cs2[a]) by {
            assert(cs2[a] == cs[a + 1]);
        }
        assert forall|a: int, b: int| 0 <= a < b < cs2.len() implies (#[trigger] cs2[a])[0] < (#[trigger] cs2[b])[0] by {
            assert(cs2[a] == cs[a + 1]);
            assert(cs2[b] == cs[b + 1]);
        }
        assert(cycles_disjoint(cs2)) by {
            assert forall|a: int, b: int, i: int, j: int|
                0 <= a < cs2.len() && 0 <= b < cs2.len() && a != b && 0 <= i < cs2[a].len() && 0 <= j
                    < cs2[b].len() implies #[trigger] cs2[a][i] != #[trigger] cs2[b][j] by {
                assert(cs2[a] == cs[a + 1]);
                assert(cs2[b] == cs[b + 1]);
                assert(cs[a + 1][i] != cs[b + 1][j]);
            }
        }
        assert forall|z: usize| z < t.len() && t[z as int] != z implies #[trigger] in_some_cycle(cs2, z) by {
            assert(z != x && z != y);
            assert(t[z as int] == s[z as int]);
            assert(in_some_cycle(cs, z));
            let (a, j) = choose|a: int, j: int| 0 <= a < cs.len() && 0 <= j < cs[a].len() && cs[a][j] == z;
            if a == 0 {
                assert(j == 0 || j == 1);
            }
            assert(cs2[a - 1] == cs[a]);
            assert(cs2[a - 1][j] == z);
        }
        lemma_count_drop_first(cs);
        cs2
    } else {
        let c2 = seq![x] + c.subrange(2, k);
        let cs2 = cs.update(0, c2);
        assert(c2.len() == k - 1);
        assert forall|i: int| 1 <= i < c2.len() implies #[trigger] c2[i] == c[i + 1] by {}
        assert(c2[0] == x);
        // Entries of `c` from index 2 on are neither `x` nor `y`.
        assert forall|j: int| 2 <= j < k implies #[trigger] c[j] != x && c[j] != y by {
            assert(c[j] != c[0]);
            assert(c[j] != c[1]);
        }
        assert(is_cycle_of(t, c2)) by {
            assert forall|i: int| 0 <= i < c2.len() implies #[trigger] c2[i] < t.len() by {
                if i > 0 {
                    assert(c2[i] == c[i + 1]);
                }
            }
            assert forall|i: int| 0 <= i < c2.len() - 1 implies #[trigger] t[c2[i] as int] == c2[i + 1] by {
                if i == 0 {
                    assert(s[c[1] as int] == c[2]);
                    assert(c2[1] == c[2]);
                } else {
                    assert(c2[i] == c[i + 1]);
                    assert(c2[i + 1] == c[i + 2]);
                    assert(c[i + 1] != x && c[i + 1] != y);
                    assert(s[c[i + 1] as int] == c[i + 2]);
                }
            }
            assert(c2.last() == c[k - 1]);
            assert(c[k - 1] != x && c[k - 1] != y);
            assert(c.last() == c[k - 1]);
            assert forall|i: int| 0 < i < c2.len() implies c2[0] < #[trigger] c2[i] by {
                assert(c2[i] == c[i + 1]);
            }
            assert forall|i: int, j: int| 0 <= i < c2.len() && 0 <= j < c2.len() && i != j implies c2[i] != c2[j] by {
                let ci = if i == 0 { 0 } else { i + 1 };
                let cj = if j == 0 { 0 } else { j + 1 };
                assert(c2[i] == c[ci]);
                assert(c2[j] == c[cj]);
            }
        }
        assert forall|a: int| 0 <= a < cs2.len() implies is_cycle_of(t, #[trigger] cs2[a]) by {
            if a > 0 {
                assert(cs2[a] == cs[a]);
            }
        }
        assert forall|a: int, b: int| 0 <= a < b < cs2.len() implies (#[trigger] cs2[a])[0] < (#[trigger] cs2[b])[0] by {
            assert(cs2[b] == cs[b]);
            assert(cs[a][0] < cs[b][0]);
            if a > 0 {
                assert(cs2[a] == cs[a]);
            }
        }
        assert(cycles_disjoint(cs2)) by {
            assert forall|a: int, b: int, i: int, j: int|
                0 <= a < cs2.len() && 0 <= b < cs2.len() && a != b && 0 <= i < cs2[a].len() && 0 <= j
                    < cs2[b].len() implies #[trigger] cs2[a][i] != #[trigger] cs2[b][j] by {
                let ia = if a == 0 && i > 0 { i + 1 } else { i };
                let jb = if b == 0 && j > 0 { j + 1 } else { j };
                assert(cs2[a][i] == cs[a][ia]);
                assert(cs2[b][j] == cs[b][jb]);
                assert(cs[a][ia] != cs[b][jb]);
            }
        }
        assert forall|z: usize| z < t.len() && t[z as int] != z implies #[trigger] in_some_cycle(cs2, z) by {
            assert(z != y);
            if z == x {
                assert(cs2[0][0] == z);
            } else {
                assert(t[z as int] == s[z as int]);
                assert(in_some_cycle(cs, z));
                let (a, j) = choose|a: int, j: int| 0 <= a < cs.len() && 0 <= j < cs[a].len() && cs[a][j] == z;
                if a == 0 {
                    assert(j >= 2);
                    assert(cs2[0][j - 1] == z);
                } else {
                    assert(cs2[a] == cs[a]);
                    assert(cs2[a][j] == z);
                }
            }
        }
        lemma_count_update(cs, 0, c2);
        cs2
    }
}

/// The transpositions counted by a permutation's cycle decomposition have the
/// parity of its number of inversions, and the permutation is the product of that
/// many transpositions.
proof fn lemma_cycle_count_parity(s: Seq<usize>, cs: Seq<Seq<usize>>) -> (ts: Seq<(usize, usize)>)
    requires
        is_permutation(s),
        s.len() <= usize::MAX,
        is_cycle_decomposition(s, cs),
    ensures
        transposition_count(cs) >= 0,
        transposition_count(cs) % 2 == inversions(s) % 2,
        valid_transpositions(ts, s.len()),
        transpositions_product(s.len(), ts) == s,
        ts.len() == transposition_count(cs),
    decreases transposition_count(cs),
{
    let n = s.len();
    lemma_count_nonneg(cs);
    if cs.len() == 0 {
        assert forall|z: int| 0 <= z < n implies s[z] == identity_mapping(n)[z] by {
            if s[z] != z as usize {
                assert(in_some_cycle(cs, z as usize));
            }
        }
        assert(s =~= identity_mapping(n));
        lemma_inversions_identity(n);
        let ts = Seq::<(usize, usize)>::empty();
        assert(transpositions_product(n, ts) == identity_mapping(n));
        ts
    } else {
        let x = cs[0][0];
        let y = cs[0][1];
        let cs2 = lemma_split_first_cycle(s, cs);
        let s2 = swap_entries(s, x as int, y as int);
        assert(is_cycle_of(s, cs[0]));
        lemma_swap_permutation(s, x as int, y as int);
        assert forall|a: int| 0 <= a < cs2.len() implies (#[trigger] cs2[a]).len() >= 2 by {
            assert(is_cycle_of(s2, cs2[a]));
        }
        lemma_count_nonneg(cs2);
        let ts2 = lemma_cycle_count_parity(s2, cs2);
        lemma_permutation_no_dup(s);
        lemma_inversions_swap(s, x as int, y as int);
        let ts = ts2.push((x, y));
        assert(ts.drop_last() =~= ts2);
        assert(valid_transpositions(ts, n)) by {
            assert forall|k: int| 0 <= k < ts.len() implies (#[trigger] ts[k]).0 != ts[k].1 && ts[k].0 < n
                && ts[k].1 < n by {
                if k < ts2.len() {
                    assert(ts[k] == ts2[k]);
                }
            }
        }
        lemma_compose_transposition(s2, n, x, y);
        assert(swap_entries(s2, x as int, y as int) =~= s);
        ts
    }
}

/// A permutation's parity does not depend on how it is written as a product of
/// transpositions: when `n` elements are permuted by a product of `k`
/// transpositions, the transpositions counted by the cycle decomposition have the
/// parity of `k`. So `parity` gives `Even` exactly for the products of an even
/// number of transpositions.
pub proof fn lemma_parity_of_product(n: nat, ts: Seq<(usize, usize)>, cs: Seq<Seq<usize>>)
    requires
        n <= usize::MAX,
        valid_transpositions(ts, n),
        is_cycle_decomposition(transpositions_product(n, ts), cs),
    ensures
        transposition_count(cs) % 2 == ts.len() % 2,
{
    lemma_product_inversions(n, ts);
    let _ts2 = lemma_cycle_count_parity(transpositions_product(n, ts), cs);
}

/// Every permutation is a product of as many transpositions as its cycle
/// decomposition counts (a cycle of length `k` gives `k - 1` of them).
pub proof fn lemma_product_of_cycle_transpositions(s: Seq<usize>, cs: Seq<Seq<usize>>) -> (ts: Seq<(usize, usize)>)
    requires
        is_permutation(s),
        s.len() <= usize::MAX,
        is_cycle_decomposition(s, cs),
    ensures
        valid_transpositions(ts, s.len()),
        transpositions_product(s.len(), ts) == s,
        ts.len() == transposition_count(cs),
{
    lemma_cycle_count_parity(s, cs)
}

/// The product of two lists of transpositions, one after the other, is the
/// composition of their products.
proof fn lemma_product_concat(n: nat, ts1: Seq<(usize, usize)>, ts2: Seq<(usize, usize)>)
    requires
        n <= usize::MAX,
        valid_transpositions(ts1, n),
        valid_transpositions(ts2, n),
    ensures
        valid_transpositions(ts1 + ts2, n),
        transpositions_product(n, ts1 + ts2) == compose_mappings(
            transpositions_product(n, ts1),
            transpositions_product(n, ts2),
        ),
    decreases ts2.len(),
{
    let all = ts1 + ts2;
    assert(valid_transpositions(all, n)) by {
        assert forall|k: int| 0 <= k < all.len() implies (#[trigger] all[k]).0 != all[k].1 && all[k].0 < n
            && all[k].1 < n by {
            if k < ts1.len() {
                assert(all[k] == ts1[k]);
            } else {
                assert(all[k] == ts2[k - ts1.len()]);
            }
        }
    }
    lemma_product_inversions(n, ts1);
    if ts2.len() == 0 {
        assert(all =~= ts1);
        lemma_compose_identity(transpositions_product(n, ts1));
    } else {
        let r = ts2.drop_last();
        let e = ts2.last();
        assert(e == ts2[ts2.len() - 1]);
        assert(valid_transpositions(r, n)) by {
            assert forall|k: int| 0 <= k < r.len() implies (#[trigger] r[k]).0 != r[k].1 && r[k].0 < n && r[k].1
                < n by {
                assert(r[k] == ts2[k]);
            }
        }
        lemma_product_concat(n, ts1, r);
        assert(all.drop_last() =~= ts1 + r);
        assert(all.last() == e);
        lemma_product_inversions(n, r);
        let tr = transposition(n, e.0, e.1);
        lemma_compose_transposition(identity_mapping(n), n, e.0, e.1);
        assert(compose_mappings(identity_mapping(n), tr) =~= tr);
        lemma_identity_is_permutation(n);
        lemma_swap_permutation(identity_mapping(n), e.0 as int, e.1 as int);
        lemma_compose_associative(transpositions_product(n, ts1), transpositions_product(n, r), tr);
    }
}

/// Parity is multiplicative: the transpositions counted by the cycle
/// decomposition of `a ∘ b` have the parity of those of `a` and `b` together.
pub proof fn lemma_parity_of_compose(
    a: Seq<usize>,
    b: Seq<usize>,
    ca: Seq<Seq<usize>>,
    cb: Seq<Seq<usize>>,
    cab: Seq<Seq<usize>>,
)
    requires
        is_permutation(a),
        is_permutation(b),
        a.len() == b.len(),
        a.len() <= usize::MAX,
        is_cycle_decomposition(a, ca),
        is_cycle_decomposition(b, cb),
        is_cycle_decomposition(compose_mappings(a, b), cab),
    ensures
        transposition_count(cab) % 2 == (transposition_count(ca) + transposition_count(cb)) % 2,
{
    let n = a.len();
    let ta = lemma_cycle_count_parity(a, ca);
    let tb = lemma_cycle_count_parity(b, cb);
    lemma_product_concat(n, ta, tb);
    lemma_parity_of_product(n, ta + tb, cab);
}

/// A permutation and its inverse have the same parity.
pub proof fn lemma_parity_of_inverse(a: Seq<usize>, b: Seq<usize>, ca: Seq<Seq<usize>>, cb: Seq<Seq<usize>>)
    requires
        is_permutation(a),
        is_permutation(b),
        a.len() == b.len(),
        a.len() <= usize::MAX,
        compose_mappings(a, b) == identity_mapping(a.len()),
        is_cycle_decomposition(a, ca),
        is_cycle_decomposition(b, cb),
    ensures
        transposition_count(ca) % 2 == transposition_count(cb) % 2,
{
    lemma_identity_is_even(a.len());
    lemma_parity_of_compose(a, b, ca, cb, Seq::<Seq<usize>>::empty());
    lemma_cycle_count_parity(a, ca);
    lemma_cycle_count_parity(b, cb);
}

} // verus!
