//! Permutations of `{0, ..., n-1}`, their cycles and parity, and the groups they generate.
use vstd::prelude::*;
use vstd::set_lib::{set_int_range, lemma_int_range, lemma_len_subset, lemma_subset_equality};
use vstd::arithmetic::div_mod::lemma_fundamental_div_mod_converse;

verus! {

broadcast use vstd::seq_lib::group_seq_properties;

/// `s` is the image vector of a bijection of `{0, ..., s.len()-1}`:
/// every entry is in range and no two entries are equal.
pub open spec fn is_permutation(s: Seq<usize>) -> bool {
    &&& forall|i: int| 0 <= i < s.len() ==> #[trigger] s[i] < s.len()
    &&& forall|i: int, j: int| 0 <= i < s.len() && 0 <= j < s.len() && #[trigger] s[i] == #[trigger] s[j] ==> i == j
}

/// The identity mapping on `n` elements.
pub open spec fn identity_mapping(n: nat) -> Seq<usize> {
    Seq::new(n, |i: int| i as usize)
}

/// `(a ∘ b)(i) = a(b(i))`: `b` is applied first.
pub open spec fn compose_mappings(a: Seq<usize>, b: Seq<usize>) -> Seq<usize> {
    Seq::new(b.len(), |i: int| a[b[i] as int])
}

/// Some entry of `s` equals `j`.
pub open spec fn has_preimage(s: Seq<usize>, j: int) -> bool {
    exists|i: int| 0 <= i < s.len() && s[i] == j
}

/// A sequence of distinct integers in `[0, bound)` has at most `bound` entries.
pub proof fn lemma_distinct_bounded(s: Seq<int>, bound: int)
    requires
        s.no_duplicates(),
        0 <= bound,
        forall|k: int| 0 <= k < s.len() ==> 0 <= #[trigger] s[k] < bound,
    ensures
        s.len() <= bound,
{
    s.unique_seq_to_set();
    lemma_int_range(0, bound);
    assert(s.to_set().subset_of(set_int_range(0, bound))) by {
        assert forall|x: int| s.to_set().contains(x) implies set_int_range(0, bound).contains(x) by {
            let k = choose|k: int| 0 <= k < s.len() && s[k] == x;
        }
    }
    lemma_len_subset(s.to_set(), set_int_range(0, bound));
}

/// A sequence of distinct `usize` values below `bound` has at most `bound` entries.
pub proof fn lemma_distinct_usize_bounded(s: Seq<usize>, bound: nat)
    requires
        s.no_duplicates(),
        forall|k: int| 0 <= k < s.len() ==> #[trigger] s[k] < bound,
    ensures
        s.len() <= bound,
{
    let t = s.map_values(|x: usize| x as int);
    assert(t.no_duplicates()) by {
        assert forall|i: int, j: int| 0 <= i < t.len() && 0 <= j < t.len() && i != j implies t[i] != t[j] by {
            assert(s[i] != s[j]);
        }
    }
    assert forall|k: int| 0 <= k < t.len() implies 0 <= #[trigger] t[k] < bound by {
        assert(s[k] < bound);
    }
    lemma_distinct_bounded(t, bound as int);
}

/// A permutation's image vector hits every value in range.
pub proof fn lemma_permutation_onto(s: Seq<usize>)
    requires
        is_permutation(s),
    ensures
        forall|j: int| 0 <= j < s.len() ==> #[trigger] has_preimage(s, j),
{
    let n = s.len() as int;
    let t = s.map_values(|x: usize| x as int);
    assert(t.no_duplicates()) by {
        assert forall|i: int, j: int| 0 <= i < t.len() && 0 <= j < t.len() && i != j implies t[i] != t[j] by {
            if t[i] == t[j] {
                assert(s[i] == s[j]);
            }
        }
    }
    t.unique_seq_to_set();
    lemma_int_range(0, n);
    assert(t.to_set().subset_of(set_int_range(0, n))) by {
        assert forall|x: int| t.to_set().contains(x) implies set_int_range(0, n).contains(x) by {
            let k = choose|k: int| 0 <= k < t.len() && t[k] == x;
            assert(s[k] < n);
        }
    }
    lemma_subset_equality(t.to_set(), set_int_range(0, n));
    assert forall|j: int| 0 <= j < n implies #[trigger] has_preimage(s, j) by {
        assert(set_int_range(0, n).contains(j));
        assert(t.to_set().contains(j));
        let i = choose|i: int| 0 <= i < t.len() && t[i] == j;
        assert(s[i] == j);
    }
}

/// A permutation of `n` elements, stored as its image vector: `mapping[i]` is σ(i).
#[derive(Debug, PartialEq, Eq)]
pub struct Permutation {
    mapping: Vec<usize>,
}

impl View for Permutation {
    type V = Seq<usize>;

    closed spec fn view(&self) -> Seq<usize> {
        self.mapping@
    }
}

impl Permutation {
    #[verifier::type_invariant]
    spec fn inv(self) -> bool {
        is_permutation(self.mapping@)
    }

    /// Create a permutation from an image vector, which must be a bijection of
    /// `{0, ..., mapping.len()-1}`.
    pub fn new(mapping: Vec<usize>) -> (p: Self)
        requires
            is_permutation(mapping@),
        ensures
            p@ == mapping@,
    {
        Permutation { mapping }
    }

    /// Identity permutation of size `n`.
    pub fn identity(n: usize) -> (p: Self)
        ensures
            p@ == identity_mapping(n as nat),
    {
        let mut mapping: Vec<usize> = Vec::new();
        let mut i: usize = 0;
        while i < n
            invariant
                i <= n,
                mapping@ == identity_mapping(i as nat),
            decreases n - i,
        {
            mapping.push(i);
            i += 1;
            assert(mapping@ =~= identity_mapping(i as nat));
        }
        Permutation { mapping }
    }

    /// The number of elements in this permutation's domain.
    pub fn size(&self) -> (r: usize)
        ensures
            r == self@.len(),
            is_permutation(self@),
    {
        proof {
            use_type_invariant(self);
        }
        self.mapping.len()
    }

    /// Apply this permutation to element `i`, which must be in its domain.
    pub fn apply(&self, i: usize) -> (r: usize)
        requires
            i < self@.len(),
        ensures
            r == self@[i as int],
    {
        self.mapping[i]
    }

    /// Apply this permutation to every entry of `v` (each must be in the domain).
    pub fn apply_vec(&self, v: &[usize]) -> (r: Vec<usize>)
        requires
            forall|k: int| 0 <= k < v@.len() ==> #[trigger] v@[k] < self@.len(),
        ensures
            r@ == v@.map_values(|i: usize| self@[i as int]),
    {
        let mut r: Vec<usize> = Vec::new();
        let mut k: usize = 0;
        while k < v.len()
            invariant
                k <= v@.len(),
                forall|j: int| 0 <= j < v@.len() ==> #[trigger] v@[j] < self@.len(),
                r@ == v@.take(k as int).map_values(|i: usize| self@[i as int]),
            decreases v@.len() - k,
        {
            r.push(self.mapping[v[k]]);
            k += 1;
            assert(r@ =~= v@.take(k as int).map_values(|i: usize| self@[i as int]));
        }
        assert(v@.take(v@.len() as int) =~= v@);
        r
    }

    /// Compute the inverse permutation: σ⁻¹(j) = i iff σ(i) = j.
    pub fn inverse(&self) -> (r: Permutation)
        ensures
            r@.len() == self@.len(),
            forall|i: int| 0 <= i < self@.len() ==> #[trigger] r@[self@[i] as int] == i,
            forall|j: int| 0 <= j < self@.len() ==> #[trigger] self@[r@[j] as int] == j,
    {
        proof {
            use_type_invariant(self);
            lemma_permutation_onto(self.mapping@);
        }
        let n = self.mapping.len();
        let ghost s = self.mapping@;
        let mut inv: Vec<usize> = Vec::new();
        let mut t: usize = 0;
        while t < n
            invariant
                t <= n,
                inv@.len() == t,
                forall|k: int| 0 <= k < t ==> #[trigger] inv@[k] == 0,
            decreases n - t,
        {
            inv.push(0);
            t += 1;
        }
        let mut i: usize = 0;
        while i < n
            invariant
                i <= n,
                n == s.len(),
                s == self.mapping@,
                is_permutation(s),
                inv@.len() == n,
                forall|k: int| 0 <= k < i ==> #[trigger] inv@[s[k] as int] == k,
            decreases n - i,
        {
            let j = self.mapping[i];
            inv.set(j, i);
            assert forall|k: int| 0 <= k < i + 1 implies #[trigger] inv@[s[k] as int] == k by {
                if k < i {
                    assert(s[k] != s[i as int]);
                }
            }
            i += 1;
        }
        assert forall|j: int| 0 <= j < n implies #[trigger] s[inv@[j] as int] == j by {
            assert(has_preimage(s, j));
            let k = choose|k: int| 0 <= k < s.len() && s[k] == j;
            assert(inv@[s[k] as int] == k);
        }
        assert(is_permutation(inv@)) by {
            assert forall|j: int| 0 <= j < n implies #[trigger] inv@[j] < n by {
                assert(has_preimage(s, j));
                let k = choose|k: int| 0 <= k < s.len() && s[k] == j;
                assert(inv@[s[k] as int] == k);
            }
            assert forall|a: int, b: int|
                0 <= a < n && 0 <= b < n && #[trigger] inv@[a] == #[trigger] inv@[b] implies a == b by {
                assert(s[inv@[a] as int] == a);
                assert(s[inv@[b] as int] == b);
            }
        }
        Permutation { mapping: inv }
    }

    /// Compose two permutations of the same size: `(σ ∘ τ)(i) = σ(τ(i))`,
    /// where `self` is σ (applied second) and `other` is τ (applied first).
    pub fn compose(&self, other: &Permutation) -> (r: Permutation)
        requires
            self@.len() == other@.len(),
        ensures
            r@ == compose_mappings(self@, other@),
    {
        proof {
            use_type_invariant(self);
            use_type_invariant(other);
        }
        let mut mapping: Vec<usize> = Vec::new();
        let mut k: usize = 0;
        while k < other.mapping.len()
            invariant
                k <= other@.len(),
                self@.len() == other@.len(),
                is_permutation(other@),
                mapping@ == compose_mappings(self@, other@).take(k as int),
            decreases other@.len() - k,
        {
            mapping.push(self.mapping[other.mapping[k]]);
            k += 1;
            assert(mapping@ =~= compose_mappings(self@, other@).take(k as int));
        }
        assert(mapping@ =~= compose_mappings(self@, other@));
        proof {
            lemma_compose_is_permutation(self@, other@);
        }
        Permutation { mapping }
    }

    /// Compute the cycle decomposition: the cycles of length at least 2, each
    /// listed from its smallest element `a1` as `(a1 a2 ... ak)` with σ(a1)=a2, ...,
    /// σ(ak)=a1, in increasing order of their smallest elements.
    pub fn cycles(&self) -> (r: Vec<Vec<usize>>)
        ensures
            is_cycle_decomposition(self@, cycles_view(r@)),
            total_len(cycles_view(r@)) <= self@.len(),
    {
        proof {
            use_type_invariant(self);
        }
        let n = self.mapping.len();
        let ghost s = self.mapping@;
        let mut visited: Vec<bool> = Vec::new();
        let mut t: usize = 0;
        while t < n
            invariant
                t <= n,
                visited@.len() == t,
                forall|k: int| 0 <= k < t ==> !(#[trigger] visited@[k]),
            decreases n - t,
        {
            visited.push(false);
            t += 1;
        }
        let mut cycles: Vec<Vec<usize>> = Vec::new();
        let ghost mut all: Seq<usize> = Seq::empty();
        proof {
            reveal(cycle_walk_state);
            assert(cycles_view(cycles@) =~= Seq::<Seq<usize>>::empty());
        }
        let mut start: usize = 0;
        while start < n
            invariant
                n == s.len(),
                s == self@,
                is_permutation(s),
                visited@.len() == n,
                start <= n,
                cycle_walk_state(s, visited@, cycles_view(cycles@), all, start as nat),
            decreases n - start,
        {
            if !visited[start] {
                let ghost old_visited = visited@;
                let ghost cv = cycles_view(cycles@);
                proof {
                    lemma_walk_facts(s, visited@, cv, all, start as nat);
                }
                let mut cycle: Vec<usize> = Vec::new();
                let mut current = start;
                while !visited[current]
                    invariant
                        n == s.len(),
                        s == self@,
                        is_permutation(s),
                        start < n,
                        current < n,
                        visited@.len() == n,
                        old_visited.len() == n,
                        !old_visited[start as int],
                        forall|x: int| 0 <= x < start ==> #[trigger] old_visited[x],
                        forall|x: int| 0 <= x < n ==> #[trigger] visited@[x] == (old_visited[x] || cycle@.contains(x as usize)),
                        cycle@.len() == 0 ==> current == start,
                        cycle@.len() > 0 ==> cycle@[0] == start && current == s[cycle@.last() as int],
                        forall|k: int| 0 <= k < cycle@.len() - 1 ==> #[trigger] s[cycle@[k] as int] == cycle@[k + 1],
                        forall|k: int| 0 <= k < cycle@.len() ==> #[trigger] cycle@[k] < n && !old_visited[cycle@[k] as int],
                        forall|k: int| 0 < k < cycle@.len() ==> start < #[trigger] cycle@[k],
                        cycle@.no_duplicates(),
                    decreases n - cycle@.len(),
                {
                    proof {
                        assert(!cycle@.contains(current));
                        assert(!old_visited[current as int]);
                        if cycle@.len() > 0 {
                            assert(current != start);
                        }
                        lemma_distinct_usize_bounded(cycle@.push(current), n as nat);
                    }
                    visited.set(current, true);
                    cycle.push(current);
                    current = self.mapping[current];
                }
                proof {
                    self.lemma_cycle_closes(old_visited, cycle@, current);
                    lemma_walk_step(s, old_visited, visited@, cv, all, cycle@, start as nat);
                }
                if cycle.len() > 1 {
                    proof {
                        all = all + cycle@;
                    }
                    cycles.push(cycle);
                    assert(cycles_view(cycles@) =~= cv.push(cycle@));
                }
            } else {
                proof {
                    lemma_walk_skip(s, visited@, cycles_view(cycles@), all, start as nat);
                }
            }
            start += 1;
        }
        proof {
            lemma_walk_done(s, visited@, cycles_view(cycles@), all);
        }
        cycles
    }

    /// When the walk from an unvisited `start` stops at a visited element, that
    /// element is `start`: the walk has closed a cycle.
    proof fn lemma_cycle_closes(&self, old_visited: Seq<bool>, cycle: Seq<usize>, current: usize)
        requires
            is_permutation(self@),
            old_visited.len() == self@.len(),
            forall|x: int| 0 <= x < self@.len() ==> old_visited[x] == old_visited[#[trigger] self@[x] as int],
            cycle.len() > 0,
            current == self@[cycle.last() as int],
            forall|k: int| 0 <= k < cycle.len() - 1 ==> #[trigger] self@[cycle[k] as int] == cycle[k + 1],
            forall|k: int| 0 <= k < cycle.len() ==> #[trigger] cycle[k] < self@.len() && !old_visited[cycle[k] as int],
            cycle.no_duplicates(),
            old_visited[current as int] || cycle.contains(current),
        ensures
            current == cycle[0],
    {
        let s = self@;
        let last = cycle.last();
        assert(cycle[cycle.len() - 1] == last);
        if old_visited[current as int] {
            assert(old_visited[last as int] == old_visited[s[last as int] as int]);
        } else {
            let k = choose|k: int| 0 <= k < cycle.len() && cycle[k] == current;
            if k > 0 {
                assert(s[cycle[k - 1] as int] == cycle[k]);
                assert(cycle[k - 1] == last);
            }
        }
    }

    /// Return the sign of this permutation: even when it is a product of an even
    /// number of transpositions (a cycle of length `k` is `k - 1` of them). The
    /// count is taken over the unique cycle decomposition; every other way of
    /// writing the permutation as a product of transpositions has the same parity
    /// (`transpositions::lemma_parity_of_product`).
    pub fn parity(&self) -> (r: Parity)
        ensures
            exists|cs: Seq<Seq<usize>>| #[trigger] is_cycle_decomposition(self@, cs),
            forall|cs: Seq<Seq<usize>>|
                #[trigger] is_cycle_decomposition(self@, cs) ==> ((r == Parity::Even) == (
                transposition_count(cs) % 2 == 0)),
    {
        let cycles = self.cycles();
        let ghost cv = cycles_view(cycles@);
        let n = self.size();
        let mut count: usize = 0;
        let mut k: usize = 0;
        while k < cycles.len()
            invariant
                k <= cycles@.len(),
                cv == cycles_view(cycles@),
                is_cycle_decomposition(self@, cv),
                total_len(cv) <= n,
                n == self@.len(),
                count == transposition_count(cv.take(k as int)),
                transposition_count(cv.take(k as int)) + cv.take(k as int).len() == total_len(cv.take(k as int)),
            decreases cycles@.len() - k,
        {
            proof {
                assert(cv.take(k + 1).drop_last() =~= cv.take(k as int));
                assert(is_cycle_of(self@, cv[k as int]));
                lemma_total_len_prefix(cv, k + 1);
            }
            count = count + (cycles[k].len() - 1);
            k += 1;
        }
        assert(cv.take(cycles@.len() as int) =~= cv);
        proof {
            assert forall|cs: Seq<Seq<usize>>| #[trigger] is_cycle_decomposition(self@, cs) implies cs == cv by {
                lemma_cycle_decomposition_unique(self@, cs, cv);
            }
        }
        if count % 2 == 0 {
            Parity::Even
        } else {
            Parity::Odd
        }
    }

    /// Return true if this is the identity permutation.
    pub fn is_identity(&self) -> (r: bool)
        ensures
            r == (self@ == identity_mapping(self@.len())),
    {
        let mut k: usize = 0;
        while k < self.mapping.len()
            invariant
                k <= self@.len(),
                forall|j: int| 0 <= j < k ==> #[trigger] self@[j] == j,
            decreases self@.len() - k,
        {
            if self.mapping[k] != k {
                assert(self@[k as int] != identity_mapping(self@.len())[k as int]);
                return false;
            }
            k += 1;
        }
        assert(self@ =~= identity_mapping(self@.len()));
        true
    }
}

/// `c` is a cycle of the permutation `p` of length at least 2, listed from its
/// smallest element: `p` maps each entry to the next and the last back to the first.
pub open spec fn is_cycle_of(p: Seq<usize>, c: Seq<usize>) -> bool {
    &&& c.len() >= 2
    &&& forall|k: int| 0 <= k < c.len() ==> #[trigger] c[k] < p.len()
    &&& forall|k: int| 0 <= k < c.len() - 1 ==> #[trigger] p[c[k] as int] == c[k + 1]
    &&& p[c.last() as int] == c[0]
    &&& forall|k: int| 0 < k < c.len() ==> c[0] < #[trigger] c[k]
    &&& c.no_duplicates()
}

/// `x` is an entry of one of the cycles.
pub open spec fn in_some_cycle(cs: Seq<Seq<usize>>, x: usize) -> bool {
    exists|a: int, k: int| 0 <= a < cs.len() && 0 <= k < cs[a].len() && cs[a][k] == x
}

/// No value occurs in two different cycles.
pub open spec fn cycles_disjoint(cs: Seq<Seq<usize>>) -> bool {
    forall|a: int, b: int, k: int, l: int|
        0 <= a < cs.len() && 0 <= b < cs.len() && a != b && 0 <= k < cs[a].len() && 0 <= l
            < cs[b].len() ==> #[trigger] cs[a][k] != #[trigger] cs[b][l]
}

/// `cs` is the cycle decomposition of `p`: its cycles of length at least 2,
/// each listed from its smallest element, in increasing order of that element.
/// (Fixed points are left out.)
pub open spec fn is_cycle_decomposition(p: Seq<usize>, cs: Seq<Seq<usize>>) -> bool {
    &&& forall|a: int| 0 <= a < cs.len() ==> is_cycle_of(p, #[trigger] cs[a])
    &&& forall|a: int, b: int| 0 <= a < b < cs.len() ==> (#[trigger] cs[a])[0] < (#[trigger] cs[b])[0]
    &&& cycles_disjoint(cs)
    &&& forall|x: usize| x < p.len() && p[x as int] != x ==> #[trigger] in_some_cycle(cs, x)
}

/// The permutation maps every entry of one of its cycles to an entry of that cycle.
proof fn lemma_cycle_closed(p: Seq<usize>, c: Seq<usize>, k: int)
    requires
        is_cycle_of(p, c),
        0 <= k < c.len(),
    ensures
        c.contains(p[c[k] as int]),
{
    if k < c.len() - 1 {
        assert(p[c[k] as int] == c[k + 1]);
    } else {
        assert(c[k] == c.last());
        assert(p[c[k] as int] == c[0]);
    }
}

/// Walking along the cycle `c2` from an entry that lies in the cycle `c1` stays in `c1`.
proof fn lemma_walk_stays(p: Seq<usize>, c1: Seq<usize>, c2: Seq<usize>, s: int, t: int)
    requires
        is_cycle_of(p, c1),
        is_cycle_of(p, c2),
        0 <= s <= t < c2.len(),
        c1.contains(c2[s]),
    ensures
        c1.contains(c2[t]),
    decreases t - s,
{
    if t > s {
        lemma_walk_stays(p, c1, c2, s, t - 1);
        let k = choose|k: int| 0 <= k < c1.len() && c1[k] == c2[t - 1];
        lemma_cycle_closed(p, c1, k);
        assert(p[c2[t - 1] as int] == c2[t]);
    }
}

/// Every entry of the cycle `c2` lies in the cycle `c1` when the two share an entry.
proof fn lemma_cycle_within(p: Seq<usize>, c1: Seq<usize>, c2: Seq<usize>, j: int)
    requires
        is_cycle_of(p, c1),
        is_cycle_of(p, c2),
        0 <= j < c2.len(),
        c1.contains(c2[j]),
    ensures
        forall|t: int| 0 <= t < c2.len() ==> c1.contains(#[trigger] c2[t]),
{
    let last = c2.len() - 1;
    lemma_walk_stays(p, c1, c2, j, last);
    let k = choose|k: int| 0 <= k < c1.len() && c1[k] == c2[last];
    lemma_cycle_closed(p, c1, k);
    assert(p[c2.last() as int] == c2[0]);
    assert forall|t: int| 0 <= t < c2.len() implies c1.contains(#[trigger] c2[t]) by {
        lemma_walk_stays(p, c1, c2, 0, t);
    }
}

/// Two cycles of `p` that start at the same element agree up to the shorter length.
proof fn lemma_cycle_prefix(p: Seq<usize>, c1: Seq<usize>, c2: Seq<usize>, k: int)
    requires
        is_cycle_of(p, c1),
        is_cycle_of(p, c2),
        c1[0] == c2[0],
        0 <= k < c1.len(),
        k < c2.len(),
    ensures
        c1[k] == c2[k],
    decreases k,
{
    if k > 0 {
        lemma_cycle_prefix(p, c1, c2, k - 1);
        assert(p[c1[k - 1] as int] == c1[k]);
        assert(p[c2[k - 1] as int] == c2[k]);
    }
}

/// A cycle `c1` that is no longer than the cycle `c2`, with the same start, has the same length.
proof fn lemma_cycle_not_shorter(p: Seq<usize>, c1: Seq<usize>, c2: Seq<usize>)
    requires
        is_cycle_of(p, c1),
        is_cycle_of(p, c2),
        c1[0] == c2[0],
        c1.len() <= c2.len(),
    ensures
        c1.len() == c2.len(),
{
    if c1.len() < c2.len() {
        let m = c1.len() as int;
        lemma_cycle_prefix(p, c1, c2, m - 1);
        assert(p[c2[m - 1] as int] == c2[m]);
        assert(p[c1.last() as int] == c1[0]);
        assert(c2[m] == c2[0]);
    }
}

/// Two cycles of `p` that share an entry are the same cycle.
pub proof fn lemma_cycles_sharing_equal(p: Seq<usize>, c1: Seq<usize>, c2: Seq<usize>, i: int, j: int)
    requires
        is_cycle_of(p, c1),
        is_cycle_of(p, c2),
        0 <= i < c1.len(),
        0 <= j < c2.len(),
        c1[i] == c2[j],
    ensures
        c1 == c2,
{
    lemma_cycle_within(p, c1, c2, j);
    lemma_cycle_within(p, c2, c1, i);
    assert(c1.contains(c2[0]));
    assert(c2.contains(c1[0]));
    let a = choose|a: int| 0 <= a < c1.len() && c1[a] == c2[0];
    let b = choose|b: int| 0 <= b < c2.len() && c2[b] == c1[0];
    if a != 0 && b != 0 {
        assert(c1[0] < c1[a]);
        assert(c2[0] < c2[b]);
    }
    assert(c1[0] == c2[0]);
    if c1.len() <= c2.len() {
        lemma_cycle_not_shorter(p, c1, c2);
    } else {
        lemma_cycle_not_shorter(p, c2, c1);
    }
    assert forall|k: int| 0 <= k < c1.len() implies c1[k] == c2[k] by {
        lemma_cycle_prefix(p, c1, c2, k);
    }
    assert(c1 =~= c2);
}

/// Each cycle of one decomposition of `p` is a cycle of any other decomposition of `p`.
proof fn lemma_cycle_in_other(p: Seq<usize>, cs1: Seq<Seq<usize>>, cs2: Seq<Seq<usize>>, a: int)
    requires
        is_cycle_decomposition(p, cs1),
        is_cycle_decomposition(p, cs2),
        0 <= a < cs1.len(),
    ensures
        exists|b: int| 0 <= b < cs2.len() && cs1[a] == #[trigger] cs2[b],
{
    let c = cs1[a];
    assert(is_cycle_of(p, c));
    let x = c[0];
    assert(x < p.len());
    assert(p[x as int] == c[1]);
    assert(c[1] != c[0]);
    assert(in_some_cycle(cs2, x));
    let (b, k) = choose|b: int, k: int| 0 <= b < cs2.len() && 0 <= k < cs2[b].len() && cs2[b][k] == x;
    assert(is_cycle_of(p, cs2[b]));
    lemma_cycles_sharing_equal(p, c, cs2[b], 0, k);
}

/// Two decompositions of `p` agree on their first `a` cycles.
proof fn lemma_decompositions_agree_upto(p: Seq<usize>, cs1: Seq<Seq<usize>>, cs2: Seq<Seq<usize>>, a: nat)
    requires
        is_cycle_decomposition(p, cs1),
        is_cycle_decomposition(p, cs2),
        a <= cs1.len(),
        a <= cs2.len(),
    ensures
        forall|k: int| 0 <= k < a ==> #[trigger] cs1[k] == cs2[k],
    decreases a,
{
    if a > 0 {
        let m = a - 1;
        lemma_decompositions_agree_upto(p, cs1, cs2, m as nat);
        lemma_cycle_in_other(p, cs1, cs2, m);
        lemma_cycle_in_other(p, cs2, cs1, m);
        let b = choose|b: int| 0 <= b < cs2.len() && cs1[m] == #[trigger] cs2[b];
        let b2 = choose|b: int| 0 <= b < cs1.len() && cs2[m] == #[trigger] cs1[b];
        if b < m {
            assert(cs1[b] == cs2[b]);
            assert(cs1[b][0] < cs1[m][0]);
        }
        if b2 < m {
            assert(cs1[b2] == cs2[b2]);
            assert(cs2[b2][0] < cs2[m][0]);
        }
        if b > m {
            assert(cs2[m][0] < cs2[b][0]);
            if b2 == m {
                assert(cs2[m] == cs2[b]);
            } else {
                assert(cs1[m][0] < cs1[b2][0]);
            }
        }
    }
}

/// The cycle decomposition of a permutation is unique: cycles of length at least
/// 2, each listed from its smallest element, in increasing order of that element.
pub proof fn lemma_cycle_decomposition_unique(p: Seq<usize>, cs1: Seq<Seq<usize>>, cs2: Seq<Seq<usize>>)
    requires
        is_cycle_decomposition(p, cs1),
        is_cycle_decomposition(p, cs2),
    ensures
        cs1 == cs2,
{
    if cs1.len() <= cs2.len() {
        lemma_decompositions_agree_upto(p, cs1, cs2, cs1.len());
        if cs1.len() < cs2.len() {
            let m = cs1.len() as int;
            lemma_cycle_in_other(p, cs2, cs1, m);
            let b = choose|b: int| 0 <= b < cs1.len() && cs2[m] == #[trigger] cs1[b];
            assert(cs1[b] == cs2[b]);
            assert(cs2[b][0] < cs2[m][0]);
        }
    } else {
        lemma_decompositions_agree_upto(p, cs1, cs2, cs2.len());
        let m = cs2.len() as int;
        lemma_cycle_in_other(p, cs1, cs2, m);
        let b = choose|b: int| 0 <= b < cs2.len() && cs1[m] == #[trigger] cs2[b];
        assert(cs1[b] == cs2[b]);
        assert(cs1[b][0] < cs1[m][0]);
    }
    assert(cs1 =~= cs2);
}

/// The views of the cycles.
pub open spec fn cycles_view(v: Seq<Vec<usize>>) -> Seq<Seq<usize>> {
    v.map_values(|c: Vec<usize>| c@)
}

/// Sum of the lengths of the cycles.
pub open spec fn total_len(cs: Seq<Seq<usize>>) -> nat
    decreases cs.len(),
{
    if cs.len() == 0 {
        0
    } else {
        total_len(cs.drop_last()) + cs.last().len()
    }
}

/// Number of transpositions in the cycles: a cycle of length `k` is `k - 1` transpositions.
pub open spec fn transposition_count(cs: Seq<Seq<usize>>) -> int
    decreases cs.len(),
{
    if cs.len() == 0 {
        0
    } else {
        transposition_count(cs.drop_last()) + cs.last().len() - 1
    }
}

/// What the cycle walk of `cycles` has established once every start below `start`
/// has been handled: `visited` is closed under the permutation and covers
/// everything below `start`; a visited element is a fixed point or in a listed
/// cycle; the listed cycles are cycles of `p`, sorted by their first element,
/// disjoint, and `all` lists their entries without repetition.
#[verifier::opaque]
spec fn cycle_walk_state(
    p: Seq<usize>,
    visited: Seq<bool>,
    cs: Seq<Seq<usize>>,
    all: Seq<usize>,
    start: nat,
) -> bool {
    let n = p.len();
    &&& visited.len() == n
    &&& start <= n
    &&& forall|x: int| 0 <= x < n ==> visited[x] == visited[#[trigger] p[x] as int]
    &&& forall|x: int| 0 <= x < start ==> #[trigger] visited[x]
    &&& forall|x: usize|
        x < n && #[trigger] visited[x as int] ==> p[x as int] == x || in_some_cycle(cs, x)
    &&& forall|x: usize| #[trigger] all.contains(x) <==> in_some_cycle(cs, x)
    &&& forall|k: int| 0 <= k < all.len() ==> #[trigger] all[k] < n && visited[all[k] as int]
    &&& all.no_duplicates()
    &&& all.len() == total_len(cs)
    &&& forall|a: int| 0 <= a < cs.len() ==> is_cycle_of(p, #[trigger] cs[a])
    &&& forall|a: int, b: int| 0 <= a < b < cs.len() ==> (#[trigger] cs[a])[0] < (#[trigger] cs[b])[0]
    &&& forall|a: int| 0 <= a < cs.len() ==> (#[trigger] cs[a])[0] < start
    &&& cycles_disjoint(cs)
}

proof fn lemma_walk_skip(p: Seq<usize>, visited: Seq<bool>, cs: Seq<Seq<usize>>, all: Seq<usize>, start: nat)
    requires
        cycle_walk_state(p, visited, cs, all, start),
        start < p.len(),
        visited[start as int],
    ensures
        cycle_walk_state(p, visited, cs, all, start + 1),
{
    reveal(cycle_walk_state);
}

proof fn lemma_walk_done(p: Seq<usize>, visited: Seq<bool>, cs: Seq<Seq<usize>>, all: Seq<usize>)
    requires
        cycle_walk_state(p, visited, cs, all, p.len()),
    ensures
        is_cycle_decomposition(p, cs),
        total_len(cs) <= p.len(),
{
    reveal(cycle_walk_state);
    assert forall|x: usize| x < p.len() && p[x as int] != x implies #[trigger] in_some_cycle(cs, x) by {
        assert(visited[x as int]);
    }
    lemma_distinct_usize_bounded(all, p.len());
}

/// Adding a closed cycle to a visited set that is closed under `p` keeps it closed.
proof fn lemma_step_closure(
    p: Seq<usize>,
    old_visited: Seq<bool>,
    visited: Seq<bool>,
    cycle: Seq<usize>,
)
    requires
        is_permutation(p),
        p.len() <= usize::MAX,
        old_visited.len() == p.len(),
        visited.len() == p.len(),
        forall|x: int| 0 <= x < p.len() ==> old_visited[x] == old_visited[#[trigger] p[x] as int],
        forall|x: int| 0 <= x < p.len() ==> #[trigger] visited[x] == (old_visited[x] || cycle.contains(x as usize)),
        cycle.len() > 0,
        p[cycle.last() as int] == cycle[0],
        forall|k: int| 0 <= k < cycle.len() - 1 ==> #[trigger] p[cycle[k] as int] == cycle[k + 1],
        forall|k: int| 0 <= k < cycle.len() ==> #[trigger] cycle[k] < p.len() && !old_visited[cycle[k] as int],
    ensures
        forall|x: int| 0 <= x < p.len() ==> visited[x] == visited[#[trigger] p[x] as int],
{
    let n = p.len();
    assert forall|x: int| 0 <= x < n implies visited[x] == visited[#[trigger] p[x] as int] by {
        let y = p[x] as int;
        if cycle.contains(x as usize) {
            let k = choose|k: int| 0 <= k < cycle.len() && cycle[k] == x as usize;
            if k < cycle.len() - 1 {
                assert(p[cycle[k] as int] == cycle[k + 1]);
                assert(cycle.contains(cycle[k + 1]));
            } else {
                assert(cycle.contains(cycle[0]));
            }
        } else if old_visited[x] {
            assert(old_visited[x] == old_visited[y]);
        } else {
            assert(old_visited[x] == old_visited[y]);
            if cycle.contains(y as usize) {
                let k = choose|k: int| 0 <= k < cycle.len() && cycle[k] == y as usize;
                if k > 0 {
                    assert(p[cycle[k - 1] as int] == cycle[k]);
                    assert(p[x] == p[cycle[k - 1] as int]);
                    assert(x == cycle[k - 1] as int);
                } else {
                    let l = cycle.last();
                    assert(cycle[cycle.len() - 1] == l);
                    assert(p[x] == p[l as int]);
                    assert(x == l as int);
                }
            }
        }
    }
}

/// Listing one more cycle and appending its entries to `all` keeps `all`
/// listing exactly the entries of the cycles.
proof fn lemma_step_all(cs: Seq<Seq<usize>>, all: Seq<usize>, cycle: Seq<usize>)
    requires
        forall|x: usize| #[trigger] all.contains(x) <==> in_some_cycle(cs, x),
    ensures
        forall|x: usize| #[trigger] (all + cycle).contains(x) <==> in_some_cycle(cs.push(cycle), x),
{
    let cs2 = cs.push(cycle);
    let all2 = all + cycle;
    assert forall|x: usize| #[trigger] all2.contains(x) <==> in_some_cycle(cs2, x) by {
        if all2.contains(x) {
            let k = choose|k: int| 0 <= k < all2.len() && all2[k] == x;
            if k < all.len() {
                assert(all.contains(x));
                let (a, l) = choose|a: int, l: int| 0 <= a < cs.len() && 0 <= l < cs[a].len() && cs[a][l] == x;
                assert(cs2[a][l] == x);
            } else {
                assert(cs2[cs.len() as int][k - all.len()] == x);
            }
        }
        if in_some_cycle(cs2, x) {
            let (a, l) = choose|a: int, l: int| 0 <= a < cs2.len() && 0 <= l < cs2[a].len() && cs2[a][l] == x;
            if a < cs.len() {
                assert(cs[a][l] == x);
                assert(in_some_cycle(cs, x));
                assert(all.contains(x));
                let k = choose|k: int| 0 <= k < all.len() && all[k] == x;
                assert(all2[k] == x);
            } else {
                assert(all2[all.len() + l] == x);
            }
        }
    }
}

/// A cycle of unvisited elements is disjoint from listed cycles whose entries are visited.
proof fn lemma_step_disjoint(
    cs: Seq<Seq<usize>>,
    all: Seq<usize>,
    cycle: Seq<usize>,
    old_visited: Seq<bool>,
)
    requires
        cycles_disjoint(cs),
        forall|x: usize| #[trigger] all.contains(x) <==> in_some_cycle(cs, x),
        forall|k: int| 0 <= k < all.len() ==> #[trigger] all[k] < old_visited.len() && old_visited[all[k] as int],
        forall|k: int| 0 <= k < cycle.len() ==> #[trigger] cycle[k] < old_visited.len() && !old_visited[cycle[k] as int],
        all.no_duplicates(),
        cycle.no_duplicates(),
    ensures
        cycles_disjoint(cs.push(cycle)),
        (all + cycle).no_duplicates(),
{
    let cs2 = cs.push(cycle);
    let all2 = all + cycle;
    assert forall|i: int, j: int| 0 <= i < all2.len() && 0 <= j < all2.len() && i != j implies all2[i] != all2[j] by {
        if i < all.len() && j >= all.len() {
            assert(!old_visited[cycle[j - all.len()] as int]);
            assert(old_visited[all[i] as int]);
        } else if j < all.len() && i >= all.len() {
            assert(old_visited[all[j] as int]);
            assert(!old_visited[cycle[i - all.len()] as int]);
        }
    }
    assert forall|a: int, b: int, k: int, l: int|
        0 <= a < cs2.len() && 0 <= b < cs2.len() && a != b && 0 <= k < cs2[a].len() && 0 <= l
            < cs2[b].len() implies #[trigger] cs2[a][k] != #[trigger] cs2[b][l] by {
        if a == cs.len() {
            assert(!old_visited[cycle[k] as int]);
            assert(in_some_cycle(cs, cs[b][l]));
            assert(all.contains(cs[b][l]));
            let m = choose|m: int| 0 <= m < all.len() && all[m] == cs[b][l];
            assert(old_visited[all[m] as int]);
        } else if b == cs.len() {
            assert(!old_visited[cycle[l] as int]);
            assert(in_some_cycle(cs, cs[a][k]));
            assert(all.contains(cs[a][k]));
            let m = choose|m: int| 0 <= m < all.len() && all[m] == cs[a][k];
            assert(old_visited[all[m] as int]);
        } else {
            assert(cs2[a] == cs[a] && cs2[b] == cs[b]);
        }
    }
}

/// The walk's state, spelled out.
proof fn lemma_walk_unpack(p: Seq<usize>, visited: Seq<bool>, cs: Seq<Seq<usize>>, all: Seq<usize>, start: nat)
    requires
        cycle_walk_state(p, visited, cs, all, start),
    ensures
        visited.len() == p.len(),
        start <= p.len(),
        forall|x: int| 0 <= x < p.len() ==> visited[x] == visited[#[trigger] p[x] as int],
        forall|x: int| 0 <= x < start ==> #[trigger] visited[x],
        forall|x: usize|
            x < p.len() && #[trigger] visited[x as int] ==> p[x as int] == x || in_some_cycle(cs, x),
        forall|x: usize| #[trigger] all.contains(x) <==> in_some_cycle(cs, x),
        forall|k: int| 0 <= k < all.len() ==> #[trigger] all[k] < p.len() && visited[all[k] as int],
        all.no_duplicates(),
        all.len() == total_len(cs),
        forall|a: int| 0 <= a < cs.len() ==> is_cycle_of(p, #[trigger] cs[a]),
        forall|a: int, b: int| 0 <= a < b < cs.len() ==> (#[trigger] cs[a])[0] < (#[trigger] cs[b])[0],
        forall|a: int| 0 <= a < cs.len() ==> (#[trigger] cs[a])[0] < start,
        cycles_disjoint(cs),
{
    reveal(cycle_walk_state);
}

/// The walk's state, from its parts.
proof fn lemma_walk_pack(p: Seq<usize>, visited: Seq<bool>, cs: Seq<Seq<usize>>, all: Seq<usize>, start: nat)
    requires
        visited.len() == p.len(),
        start <= p.len(),
        forall|x: int| 0 <= x < p.len() ==> visited[x] == visited[#[trigger] p[x] as int],
        forall|x: int| 0 <= x < start ==> #[trigger] visited[x],
        forall|x: usize|
            x < p.len() && #[trigger] visited[x as int] ==> p[x as int] == x || in_some_cycle(cs, x),
        forall|x: usize| #[trigger] all.contains(x) <==> in_some_cycle(cs, x),
        forall|k: int| 0 <= k < all.len() ==> #[trigger] all[k] < p.len() && visited[all[k] as int],
        all.no_duplicates(),
        all.len() == total_len(cs),
        forall|a: int| 0 <= a < cs.len() ==> is_cycle_of(p, #[trigger] cs[a]),
        forall|a: int, b: int| 0 <= a < b < cs.len() ==> (#[trigger] cs[a])[0] < (#[trigger] cs[b])[0],
        forall|a: int| 0 <= a < cs.len() ==> (#[trigger] cs[a])[0] < start,
        cycles_disjoint(cs),
    ensures
        cycle_walk_state(p, visited, cs, all, start),
{
    reveal(cycle_walk_state);
}

/// Listing a new cycle whose first entry `start` exceeds the earlier first entries
/// keeps the cycles cycles of `p`, sorted, with first entries below `start + 1`.
proof fn lemma_step_sorted(p: Seq<usize>, cs: Seq<Seq<usize>>, cycle: Seq<usize>, start: nat)
    requires
        forall|a: int| 0 <= a < cs.len() ==> is_cycle_of(p, #[trigger] cs[a]),
        forall|a: int, b: int| 0 <= a < b < cs.len() ==> (#[trigger] cs[a])[0] < (#[trigger] cs[b])[0],
        forall|a: int| 0 <= a < cs.len() ==> (#[trigger] cs[a])[0] < start,
        is_cycle_of(p, cycle),
        cycle[0] == start,
    ensures
        forall|a: int| 0 <= a < cs.push(cycle).len() ==> is_cycle_of(p, #[trigger] cs.push(cycle)[a]),
        forall|a: int, b: int|
            0 <= a < b < cs.push(cycle).len() ==> (#[trigger] cs.push(cycle)[a])[0] < (
            #[trigger] cs.push(cycle)[b])[0],
        forall|a: int| 0 <= a < cs.push(cycle).len() ==> (#[trigger] cs.push(cycle)[a])[0] < start + 1,
{
    let cs2 = cs.push(cycle);
    assert forall|a: int| 0 <= a < cs2.len() implies is_cycle_of(p, #[trigger] cs2[a]) by {
        if a < cs.len() {
            assert(cs2[a] == cs[a]);
        }
    }
    assert forall|a: int, b: int| 0 <= a < b < cs2.len() implies (#[trigger] cs2[a])[0] < (#[trigger] cs2[b])[0] by {
        assert(cs2[a] == cs[a]);
        if b < cs.len() {
            assert(cs2[b] == cs[b]);
        }
    }
    assert forall|a: int| 0 <= a < cs2.len() implies (#[trigger] cs2[a])[0] < start + 1 by {
        if a < cs.len() {
            assert(cs2[a] == cs[a]);
        }
    }
}

/// The new visited set holds what the old one held.
proof fn lemma_step_all_visited(all: Seq<usize>, cycle: Seq<usize>, old_visited: Seq<bool>, visited: Seq<bool>, n: nat)
    requires
        n <= usize::MAX,
        old_visited.len() == n,
        visited.len() == n,
        forall|x: int| 0 <= x < n ==> #[trigger] visited[x] == (old_visited[x] || cycle.contains(x as usize)),
        forall|k: int| 0 <= k < all.len() ==> #[trigger] all[k] < n && old_visited[all[k] as int],
        forall|k: int| 0 <= k < cycle.len() ==> #[trigger] cycle[k] < n,
    ensures
        forall|k: int| 0 <= k < all.len() ==> #[trigger] all[k] < n && visited[all[k] as int],
        forall|k: int| 0 <= k < (all + cycle).len() ==> #[trigger] (all + cycle)[k] < n && visited[(all + cycle)[k] as int],
{
    let all2 = all + cycle;
    assert forall|k: int| 0 <= k < all.len() implies #[trigger] all[k] < n && visited[all[k] as int] by {
        assert(old_visited[all[k] as int]);
    }
    assert forall|k: int| 0 <= k < all2.len() implies #[trigger] all2[k] < n && visited[all2[k] as int] by {
        if k < all.len() {
            assert(all2[k] == all[k]);
            assert(old_visited[all[k] as int]);
        } else {
            assert(all2[k] == cycle[k - all.len()]);
            assert(cycle.contains(cycle[k - all.len()]));
        }
    }
}

/// A visited element is a fixed point or in a listed cycle, after the step.
proof fn lemma_step_characterized(
    p: Seq<usize>,
    cs: Seq<Seq<usize>>,
    cycle: Seq<usize>,
    old_visited: Seq<bool>,
    visited: Seq<bool>,
)
    requires
        p.len() <= usize::MAX,
        old_visited.len() == p.len(),
        visited.len() == p.len(),
        forall|x: int| 0 <= x < p.len() ==> #[trigger] visited[x] == (old_visited[x] || cycle.contains(x as usize)),
        forall|x: usize|
            x < p.len() && #[trigger] old_visited[x as int] ==> p[x as int] == x || in_some_cycle(cs, x),
        cycle.len() > 0,
        p[cycle.last() as int] == cycle[0],
    ensures
        cycle.len() > 1 ==> forall|x: usize|
            x < p.len() && #[trigger] visited[x as int] ==> p[x as int] == x || in_some_cycle(cs.push(cycle), x),
        cycle.len() <= 1 ==> forall|x: usize|
            x < p.len() && #[trigger] visited[x as int] ==> p[x as int] == x || in_some_cycle(cs, x),
{
    let cs2 = cs.push(cycle);
    if cycle.len() > 1 {
        assert forall|x: usize| x < p.len() && #[trigger] visited[x as int] implies p[x as int] == x || in_some_cycle(cs2, x) by {
            if old_visited[x as int] {
                if in_some_cycle(cs, x) {
                    let (a, l) = choose|a: int, l: int| 0 <= a < cs.len() && 0 <= l < cs[a].len() && cs[a][l] == x;
                    assert(cs2[a][l] == x);
                }
            } else {
                let k = choose|k: int| 0 <= k < cycle.len() && cycle[k] == x;
                assert(cs2[cs.len() as int][k] == x);
            }
        }
    } else {
        assert forall|x: usize| x < p.len() && #[trigger] visited[x as int] implies p[x as int] == x || in_some_cycle(cs, x) by {
            if !old_visited[x as int] {
                assert(cycle.contains(x));
                assert(cycle[0] == x);
                assert(cycle.last() == x);
            }
        }
    }
}

/// Handling an unvisited `start` keeps the walk's state: the walk from `start`
/// closed the cycle `cycle`, which is listed when it has at least two entries.
#[verifier::spinoff_prover]
#[verifier::rlimit(40)]
proof fn lemma_walk_step(
    p: Seq<usize>,
    old_visited: Seq<bool>,
    visited: Seq<bool>,
    cs: Seq<Seq<usize>>,
    all: Seq<usize>,
    cycle: Seq<usize>,
    start: nat,
)
    requires
        is_permutation(p),
        p.len() <= usize::MAX,
        cycle_walk_state(p, old_visited, cs, all, start),
        start < p.len(),
        !old_visited[start as int],
        visited.len() == p.len(),
        forall|x: int| 0 <= x < p.len() ==> #[trigger] visited[x] == (old_visited[x] || cycle.contains(x as usize)),
        cycle.len() > 0,
        cycle[0] == start,
        p[cycle.last() as int] == start,
        forall|k: int| 0 <= k < cycle.len() - 1 ==> #[trigger] p[cycle[k] as int] == cycle[k + 1],
        forall|k: int| 0 <= k < cycle.len() ==> #[trigger] cycle[k] < p.len() && !old_visited[cycle[k] as int],
        forall|k: int| 0 < k < cycle.len() ==> start < #[trigger] cycle[k],
        cycle.no_duplicates(),
    ensures
        cycle.len() > 1 ==> cycle_walk_state(p, visited, cs.push(cycle), all + cycle, start + 1),
        cycle.len() <= 1 ==> cycle_walk_state(p, visited, cs, all, start + 1),
{
    lemma_walk_unpack(p, old_visited, cs, all, start);
    lemma_step_closure(p, old_visited, visited, cycle);
    lemma_step_all_visited(all, cycle, old_visited, visited, p.len());
    lemma_step_characterized(p, cs, cycle, old_visited, visited);
    assert(visited[start as int]) by {
        assert(cycle.contains(cycle[0]));
    }
    assert forall|x: int| 0 <= x < start + 1 implies #[trigger] visited[x] by {
        if x < start {
            assert(old_visited[x]);
        }
    }
    if cycle.len() > 1 {
        assert(is_cycle_of(p, cycle)) by {
            assert(cycle.last() == cycle[cycle.len() - 1]);
        }
        lemma_step_all(cs, all, cycle);
        lemma_step_disjoint(cs, all, cycle, old_visited);
        lemma_step_sorted(p, cs, cycle, start);
        assert(cs.push(cycle).drop_last() =~= cs);
        lemma_walk_pack(p, visited, cs.push(cycle), all + cycle, start + 1);
    } else {
        lemma_walk_pack(p, visited, cs, all, start + 1);
    }
}

/// Facts of the walk's state that the inner walk needs.
proof fn lemma_walk_facts(p: Seq<usize>, visited: Seq<bool>, cs: Seq<Seq<usize>>, all: Seq<usize>, start: nat)
    requires
        cycle_walk_state(p, visited, cs, all, start),
    ensures
        visited.len() == p.len(),
        forall|x: int| 0 <= x < start ==> #[trigger] visited[x],
        forall|x: int| 0 <= x < p.len() ==> visited[x] == visited[#[trigger] p[x] as int],
{
    reveal(cycle_walk_state);
}

/// Parity (sign) of a permutation.
#[derive(Debug, Clone, Copy, PartialEq, Eq, Structural)]
pub enum Parity {
    Even,
    Odd,
}

/// The lengths of a prefix of the cycles add up to no more than all of them.
proof fn lemma_total_len_prefix(cs: Seq<Seq<usize>>, k: int)
    requires
        0 <= k <= cs.len(),
    ensures
        total_len(cs.take(k)) <= total_len(cs),
    decreases cs.len() - k,
{
    if k < cs.len() {
        lemma_total_len_prefix(cs, k + 1);
        assert(cs.take(k + 1).drop_last() =~= cs.take(k));
    } else {
        assert(cs.take(k) =~= cs);
    }
}

/// The views of a list of permutations.
pub open spec fn mappings_of(v: Seq<Permutation>) -> Seq<Seq<usize>> {
    v.map_values(|p: Permutation| p@)
}

/// Every entry is a permutation of `n` elements.
pub open spec fn all_permutations_of(ms: Seq<Seq<usize>>, n: nat) -> bool {
    forall|k: int| 0 <= k < ms.len() ==> (#[trigger] ms[k]).len() == n && is_permutation(ms[k])
}

/// `w` indexes into `gens`.
pub open spec fn is_word(gens: Seq<Seq<usize>>, w: Seq<int>) -> bool {
    forall|k: int| 0 <= k < w.len() ==> 0 <= #[trigger] w[k] < gens.len()
}

/// The product `gens[w[0]] ∘ gens[w[1]] ∘ ... ∘ gens[w[k-1]]` of permutations of
/// `n` elements (the identity for the empty word).
pub open spec fn word_product(gens: Seq<Seq<usize>>, w: Seq<int>, n: nat) -> Seq<usize>
    decreases w.len(),
{
    if w.len() == 0 {
        identity_mapping(n)
    } else {
        compose_mappings(word_product(gens, w.drop_last(), n), gens[w.last()])
    }
}

/// `x` is a product of the generators `gens`, permutations of `n` elements.
pub open spec fn generated_by(gens: Seq<Seq<usize>>, n: nat, x: Seq<usize>) -> bool {
    exists|w: Seq<int>| is_word(gens, w) && word_product(gens, w, n) == x
}

/// A group of permutations acting on the same set size.
#[derive(Debug)]
pub struct PermutationGroup {
    permutations: Vec<Permutation>,
    size: usize,
}

impl PermutationGroup {
    #[verifier::type_invariant]
    spec fn inv(self) -> bool {
        all_permutations_of(mappings_of(self.permutations@), self.size as nat)
    }

    /// The size of the domain of every permutation of the group.
    pub closed spec fn spec_size(self) -> nat {
        self.size as nat
    }

    /// The permutations of the group, in order.
    pub closed spec fn spec_elements(self) -> Seq<Seq<usize>> {
        mappings_of(self.permutations@)
    }

    /// Create a group from permutations that all have the same size (the size of
    /// the first, or 0 when there are none).
    pub fn new(permutations: Vec<Permutation>) -> (g: Self)
        requires
            forall|k: int| 0 <= k < permutations@.len() ==> (#[trigger] permutations@[k])@.len() == permutations@[0]@.len(),
        ensures
            g.spec_elements() == mappings_of(permutations@),
            g.spec_size() == (if permutations@.len() == 0 { 0 } else { permutations@[0]@.len() }),
    {
        let size = if permutations.len() == 0 {
            0
        } else {
            permutations[0].size()
        };
        let mut k: usize = 0;
        while k < permutations.len()
            invariant
                k <= permutations@.len(),
                size == (if permutations@.len() == 0 { 0 } else { permutations@[0]@.len() }),
                forall|j: int| 0 <= j < permutations@.len() ==> (#[trigger] permutations@[j])@.len() == permutations@[0]@.len(),
                forall|j: int| 0 <= j < k ==> is_permutation(#[trigger] mappings_of(permutations@)[j]) && mappings_of(permutations@)[j].len() == size,
            decreases permutations@.len() - k,
        {
            permutations[k].size();
            k += 1;
        }
        PermutationGroup { permutations, size }
    }

    /// The trivial group {id} on `n` elements.
    pub fn trivial(n: usize) -> (g: Self)
        ensures
            g.spec_elements() == seq![identity_mapping(n as nat)],
            g.spec_size() == n,
    {
        let id = Permutation::identity(n);
        proof {
            lemma_identity_is_permutation(n as nat);
        }
        let permutations = vec![id];
        assert(mappings_of(permutations@) =~= seq![identity_mapping(n as nat)]);
        PermutationGroup { permutations, size: n }
    }

    /// Build a group from permutations that all have `size` elements (also when
    /// there are none).
    pub fn from_parts(permutations: Vec<Permutation>, size: usize) -> (g: Self)
        requires
            forall|k: int| 0 <= k < permutations@.len() ==> (#[trigger] permutations@[k])@.len() == size,
        ensures
            g.spec_elements() == mappings_of(permutations@),
            g.spec_size() == size,
    {
        let mut k: usize = 0;
        while k < permutations.len()
            invariant
                k <= permutations@.len(),
                forall|j: int| 0 <= j < permutations@.len() ==> (#[trigger] permutations@[j])@.len() == size,
                forall|j: int| 0 <= j < k ==> is_permutation(#[trigger] mappings_of(permutations@)[j]) && mappings_of(permutations@)[j].len() == size,
            decreases permutations@.len() - k,
        {
            permutations[k].size();
            k += 1;
        }
        PermutationGroup { permutations, size }
    }

    /// The permutations of the group, in order.
    pub fn permutations(&self) -> (r: &[Permutation])
        ensures
            mappings_of(r@) == self.spec_elements(),
    {
        self.permutations.as_slice()
    }

    /// The number of elements every permutation of the group acts on.
    pub fn size(&self) -> (r: usize)
        ensures
            r == self.spec_size(),
    {
        self.size
    }

    /// Number of permutations in this group.
    pub fn order(&self) -> (r: usize)
        ensures
            r == self.spec_elements().len(),
    {
        self.permutations.len()
    }

    /// Check whether a permutation of the group's size is in this group.
    pub fn contains(&self, p: &Permutation) -> (r: bool)
        requires
            p@.len() == self.spec_size(),
        ensures
            r == self.spec_elements().contains(p@),
    {
        contains_mapping(&self.permutations, p)
    }

    /// Generate the closure of this set of permutations under composition: the
    /// subgroup they generate. Breadth first: the generators come first, then
    /// (if new) the identity, then each element `a` in turn is multiplied by each
    /// generator `b` on both sides, `a ∘ b` then `b ∘ a`, and each new product is
    /// appended.
    #[verifier::spinoff_prover]
    #[verifier::rlimit(40)]
    pub fn closure(&self) -> (r: PermutationGroup)
        ensures
            r.spec_size() == self.spec_size(),
            r.spec_elements().take(self.spec_elements().len() as int) == self.spec_elements(),
            r.spec_elements().contains(identity_mapping(self.spec_size())),
            forall|i: int, b: int|
                0 <= i < r.spec_elements().len() && 0 <= b < self.spec_elements().len() ==> r.spec_elements().contains(
                    compose_mappings(#[trigger] r.spec_elements()[i], #[trigger] self.spec_elements()[b]),
                ) && r.spec_elements().contains(compose_mappings(self.spec_elements()[b], r.spec_elements()[i])),
            forall|i: int|
                self.spec_elements().len() <= i < r.spec_elements().len() ==> !r.spec_elements().take(i).contains(
                    #[trigger] r.spec_elements()[i],
                ),
            forall|i: int|
                0 <= i < r.spec_elements().len() ==> generated_by(
                    self.spec_elements(),
                    self.spec_size(),
                    #[trigger] r.spec_elements()[i],
                ),
            forall|w: Seq<int>|
                is_word(self.spec_elements(), w) ==> r.spec_elements().contains(
                    #[trigger] word_product(self.spec_elements(), w, self.spec_size()),
                ),
            forall|i: int, j: int|
                0 <= i < r.spec_elements().len() && 0 <= j < r.spec_elements().len() ==> r.spec_elements().contains(
                    #[trigger] compose_mappings(r.spec_elements()[i], r.spec_elements()[j]),
                ),
    {
        proof {
            use_type_invariant(self);
        }
        let n = self.size;
        let gens = &self.permutations;
        let ghost gv = mappings_of(gens@);
        let g = gens.len();
        let mut result: Vec<Permutation> = Vec::new();
        let mut k: usize = 0;
        while k < g
            invariant
                k <= g,
                g == gv.len(),
                gv == mappings_of(gens@),
                all_permutations_of(gv, n as nat),
                mappings_of(result@) == gv.take(k as int),
            decreases g - k,
        {
            let ghost before = result@;
            let c = gens[k].clone();
            result.push(c);
            proof {
                lemma_mappings_push(before, c);
                assert(gv[k as int] == gens@[k as int]@);
            }
            k += 1;
            assert(mappings_of(result@) =~= gv.take(k as int));
        }
        assert(gv.take(g as int) =~= gv);
        proof {
            lemma_generators_generated(gv, n as nat);
        }
        let id = Permutation::identity(n);
        proof {
            lemma_identity_is_permutation(n as nat);
            assert(is_word(gv, Seq::<int>::empty()));
            assert(word_product(gv, Seq::<int>::empty(), n as nat) == identity_mapping(n as nat));
        }
        proof {
            assert(mappings_of(result@) == gv);
            assert(closure_growth(gv, n as nat, gv));
        }
        if !contains_mapping(&result, &id) {
            let ghost before = mappings_of(result@);
            let ghost before_v = result@;
            proof {
                lemma_growth_push(gv, n as nat, before, id@);
            }
            result.push(id);
            proof {
                lemma_mappings_push(before_v, id);
                assert(mappings_of(result@).take(g as int) =~= before);
                assert(mappings_of(result@)[g as int] == identity_mapping(n as nat));
            }
        }
        proof {
            lemma_suffix_bounded(mappings_of(result@), gv, n as nat);
            lemma_closure_state_init(gv, n as nat, mappings_of(result@));
        }
        let ghost bound = g + power(n as nat, n as nat);
        let mut idx: usize = 0;
        while idx < result.len()
            invariant
                g == gv.len(),
                gv == mappings_of(gens@),
                gens@ == self.permutations@,
                n == self.size,
                all_permutations_of(gv, n as nat),
                n <= usize::MAX,
                bound == g + power(n as nat, n as nat),
                closure_state(gv, n as nat, mappings_of(result@), idx as nat),
                mappings_of(result@).len() <= bound,
                idx <= result@.len(),
            decreases bound - idx,
        {
            proof {
                lemma_closure_state_facts(gv, n as nat, mappings_of(result@), idx as nat);
            }
            let a = result[idx].clone();
            let ghost at_start = mappings_of(result@);
            proof {
                assert(at_start[idx as int] == result@[idx as int]@);
                assert(generated_by(gv, n as nat, at_start[idx as int]));
                assert(at_start[idx as int].len() == n);
            }
            let mut b: usize = 0;
            while b < g
                invariant
                    g == gv.len(),
                    gv == mappings_of(gens@),
                    n == self.size,
                    all_permutations_of(gv, n as nat),
                    n <= usize::MAX,
                    bound == g + power(n as nat, n as nat),
                    idx < at_start.len(),
                    at_start.len() >= g,
                    a@ == at_start[idx as int],
                    a@.len() == n,
                    b <= g,
                    at_start.len() <= mappings_of(result@).len(),
                    mappings_of(result@).take(at_start.len() as int) == at_start,
                    closure_growth(gv, n as nat, mappings_of(result@)),
                    forall|c: int| 0 <= c < b ==> mappings_of(result@).contains(
                        compose_mappings(a@, #[trigger] gv[c]),
                    ) && mappings_of(result@).contains(compose_mappings(gv[c], a@)),
                    generated_by(gv, n as nat, a@),
                    mappings_of(result@).len() <= bound,
                decreases g - b,
            {
                proof {
                    assert(gv[b as int] == gens@[b as int]@);
                }
                let left = a.compose(&gens[b]);
                let right = gens[b].compose(&a);
                proof {
                    lemma_generated_products(gv, n as nat, a@, b as int);
                }
                let ghost r0 = mappings_of(result@);
                if !contains_mapping(&result, &left) {
                    let ghost rv = result@;
                    result.push(left);
                    proof {
                        lemma_growth_push(gv, n as nat, r0, compose_mappings(a@, gv[b as int]));
                        lemma_mappings_push(rv, left);
                        lemma_suffix_bounded(mappings_of(result@), gv, n as nat);
                    }
                }
                let ghost r1 = mappings_of(result@);
                if !contains_mapping(&result, &right) {
                    let ghost rv = result@;
                    result.push(right);
                    proof {
                        lemma_growth_push(gv, n as nat, r1, compose_mappings(gv[b as int], a@));
                        lemma_mappings_push(rv, right);
                        lemma_suffix_bounded(mappings_of(result@), gv, n as nat);
                    }
                }
                proof {
                    assert(mappings_of(result@).take(r0.len() as int) =~= r0);
                    assert(mappings_of(result@).take(r1.len() as int) =~= r1);
                    assert(mappings_of(result@).take(at_start.len() as int) =~= at_start);
                    lemma_contains_grows(r0, mappings_of(result@));
                    lemma_contains_grows(r1, mappings_of(result@));
                    lemma_contains_grows(at_start, mappings_of(result@));
                }
                b += 1;
            }
            proof {
                lemma_closure_step(gv, n as nat, at_start, mappings_of(result@), idx as nat);
            }
            idx += 1;
        }
        proof {
            lemma_closure_state_facts(gv, n as nat, mappings_of(result@), idx as nat);
            assert forall|w: Seq<int>| is_word(gv, w) implies mappings_of(result@).contains(
                #[trigger] word_product(gv, w, n as nat),
            ) by {
                lemma_words_in_closed(gv, n as nat, mappings_of(result@), w);
            }
            lemma_closed_under_compose(gv, n as nat, mappings_of(result@));
        }
        PermutationGroup { permutations: result, size: n }
    }
}

impl Clone for PermutationGroup {
    fn clone(&self) -> (r: Self)
        ensures
            r.spec_elements() == self.spec_elements(),
            r.spec_size() == self.spec_size(),
    {
        proof {
            use_type_invariant(self);
        }
        let mut permutations: Vec<Permutation> = Vec::new();
        let mut k: usize = 0;
        while k < self.permutations.len()
            invariant
                k <= self.permutations@.len(),
                all_permutations_of(mappings_of(self.permutations@), self.size as nat),
                mappings_of(permutations@) == mappings_of(self.permutations@).take(k as int),
            decreases self.permutations@.len() - k,
        {
            let ghost before = permutations@;
            let c = self.permutations[k].clone();
            permutations.push(c);
            proof {
                lemma_mappings_push(before, c);
                assert(mappings_of(self.permutations@)[k as int] == self.permutations@[k as int]@);
            }
            k += 1;
            assert(mappings_of(permutations@) =~= mappings_of(self.permutations@).take(k as int));
        }
        assert(mappings_of(permutations@) =~= mappings_of(self.permutations@));
        PermutationGroup { permutations, size: self.size }
    }
}

/// A list that holds the identity and is closed under composing each of its
/// entries on the right with each generator holds every product of generators.
proof fn lemma_words_in_closed(gens: Seq<Seq<usize>>, n: nat, rs: Seq<Seq<usize>>, w: Seq<int>)
    requires
        rs.contains(identity_mapping(n)),
        forall|i: int, b: int|
            0 <= i < rs.len() && 0 <= b < gens.len() ==> rs.contains(
                compose_mappings(#[trigger] rs[i], #[trigger] gens[b]),
            ),
        is_word(gens, w),
    ensures
        rs.contains(word_product(gens, w, n)),
    decreases w.len(),
{
    if w.len() > 0 {
        let w1 = w.drop_last();
        assert(is_word(gens, w1)) by {
            assert forall|k: int| 0 <= k < w1.len() implies 0 <= #[trigger] w1[k] < gens.len() by {
                assert(w1[k] == w[k]);
            }
        }
        lemma_words_in_closed(gens, n, rs, w1);
        let i = choose|i: int| 0 <= i < rs.len() && rs[i] == word_product(gens, w1, n);
        let b = w.last();
        assert(0 <= b < gens.len()) by {
            assert(w[w.len() - 1] == b);
        }
        assert(rs.contains(compose_mappings(rs[i], gens[b])));
    }
}

/// The views after a push are the views before, with the new one at the end.
proof fn lemma_mappings_push(v: Seq<Permutation>, x: Permutation)
    ensures
        mappings_of(v.push(x)) == mappings_of(v).push(x@),
{
    assert(mappings_of(v.push(x)) =~= mappings_of(v).push(x@));
}

/// Whether some permutation of `v` has the same image vector as `p`.
fn contains_mapping(v: &Vec<Permutation>, p: &Permutation) -> (r: bool)
    ensures
        r == mappings_of(v@).contains(p@),
{
    let mut k: usize = 0;
    while k < v.len()
        invariant
            k <= v@.len(),
            forall|j: int| 0 <= j < k ==> #[trigger] mappings_of(v@)[j] != p@,
        decreases v@.len() - k,
    {
        if same_mapping(&v[k], p) {
            assert(mappings_of(v@)[k as int] == p@);
            return true;
        }
        k += 1;
    }
    false
}

/// Whether two permutations have the same image vector.
fn same_mapping(a: &Permutation, b: &Permutation) -> (r: bool)
    ensures
        r == (a@ == b@),
{
    let x = &a.mapping;
    let y = &b.mapping;
    if x.len() != y.len() {
        return false;
    }
    let mut k: usize = 0;
    while k < x.len()
        invariant
            k <= x@.len(),
            x@.len() == y@.len(),
            x@ == a@,
            y@ == b@,
            forall|j: int| 0 <= j < k ==> x@[j] == y@[j],
        decreases x@.len() - k,
    {
        if x[k] != y[k] {
            assert(a@[k as int] != b@[k as int]);
            return false;
        }
        k += 1;
    }
    assert(x@ =~= y@);
    true
}

/// How the closure's list `rs` stands: it starts with the generators, holds the
/// identity, its entries past the generators are new when added, every entry is a
/// permutation generated by `gens`, and the entries before `idx` have been
/// multiplied by every generator on both sides.
#[verifier::opaque]
spec fn closure_state(gens: Seq<Seq<usize>>, n: nat, rs: Seq<Seq<usize>>, idx: nat) -> bool {
    &&& rs.len() >= gens.len()
    &&& rs.take(gens.len() as int) == gens
    &&& rs.contains(identity_mapping(n))
    &&& closure_growth(gens, n, rs)
    &&& idx <= rs.len()
    &&& forall|i: int, b: int|
        0 <= i < idx && 0 <= b < gens.len() ==> rs.contains(compose_mappings(#[trigger] rs[i], #[trigger] gens[b]))
            && rs.contains(compose_mappings(gens[b], rs[i]))
}

/// Every entry is a generated permutation, and the entries past the generators are
/// new when added.
spec fn closure_growth(gens: Seq<Seq<usize>>, n: nat, rs: Seq<Seq<usize>>) -> bool {
    &&& all_permutations_of(rs, n)
    &&& forall|i: int| 0 <= i < rs.len() ==> generated_by(gens, n, #[trigger] rs[i])
    &&& forall|i: int| gens.len() <= i < rs.len() ==> !rs.take(i).contains(#[trigger] rs[i])
}

proof fn lemma_closure_state_facts(gens: Seq<Seq<usize>>, n: nat, rs: Seq<Seq<usize>>, idx: nat)
    requires
        closure_state(gens, n, rs, idx),
    ensures
        closure_growth(gens, n, rs),
        idx <= rs.len(),
        rs.len() >= gens.len(),
        rs.take(gens.len() as int) == gens,
        rs.contains(identity_mapping(n)),
        forall|i: int, b: int|
            0 <= i < idx && 0 <= b < gens.len() ==> rs.contains(compose_mappings(#[trigger] rs[i], #[trigger] gens[b]))
                && rs.contains(compose_mappings(gens[b], rs[i])),
{
    reveal(closure_state);
}

proof fn lemma_closure_state_init(gens: Seq<Seq<usize>>, n: nat, rs: Seq<Seq<usize>>)
    requires
        closure_growth(gens, n, rs),
        rs.len() >= gens.len(),
        rs.take(gens.len() as int) == gens,
        rs.contains(identity_mapping(n)),
    ensures
        closure_state(gens, n, rs, 0),
{
    reveal(closure_state);
}

/// Appending a new generated permutation keeps the growth facts.
proof fn lemma_growth_push(gens: Seq<Seq<usize>>, n: nat, rs: Seq<Seq<usize>>, x: Seq<usize>)
    requires
        closure_growth(gens, n, rs),
        rs.len() >= gens.len(),
        !rs.contains(x),
        x.len() == n,
        is_permutation(x),
        generated_by(gens, n, x),
    ensures
        closure_growth(gens, n, rs.push(x)),
{
    let r2 = rs.push(x);
    assert forall|i: int| 0 <= i < r2.len() implies generated_by(gens, n, #[trigger] r2[i]) by {
        if i < rs.len() {
            assert(r2[i] == rs[i]);
        }
    }
    assert forall|i: int| gens.len() <= i < r2.len() implies !r2.take(i).contains(#[trigger] r2[i]) by {
        if i < rs.len() {
            assert(r2.take(i) =~= rs.take(i));
            assert(r2[i] == rs[i]);
        } else {
            assert(r2.take(i) =~= rs);
        }
    }
    assert forall|k: int| 0 <= k < r2.len() implies (#[trigger] r2[k]).len() == n && is_permutation(r2[k]) by {
        if k < rs.len() {
            assert(r2[k] == rs[k]);
        }
    }
}

/// Entries of a list stay in any list that extends it.
proof fn lemma_contains_grows(a: Seq<Seq<usize>>, b: Seq<Seq<usize>>)
    requires
        a.len() <= b.len(),
        b.take(a.len() as int) == a,
    ensures
        forall|x: Seq<usize>| #[trigger] a.contains(x) ==> b.contains(x),
{
    assert forall|x: Seq<usize>| #[trigger] a.contains(x) implies b.contains(x) by {
        let k = choose|k: int| 0 <= k < a.len() && a[k] == x;
        assert(b.take(a.len() as int)[k] == b[k]);
    }
}

/// Products recorded for the entries before `idx` stay recorded as the list grows,
/// and with those of entry `idx` they cover the entries before `idx + 1`.
proof fn lemma_products_step(
    gens: Seq<Seq<usize>>,
    before: Seq<Seq<usize>>,
    after: Seq<Seq<usize>>,
    idx: nat,
)
    requires
        idx < before.len(),
        before.len() <= after.len(),
        after.take(before.len() as int) == before,
        forall|i: int, b: int|
            0 <= i < idx && 0 <= b < gens.len() ==> before.contains(compose_mappings(#[trigger] before[i], #[trigger] gens[b]))
                && before.contains(compose_mappings(gens[b], before[i])),
        forall|c: int| 0 <= c < gens.len() ==> after.contains(compose_mappings(before[idx as int], #[trigger] gens[c]))
            && after.contains(compose_mappings(gens[c], before[idx as int])),
    ensures
        forall|i: int, b: int|
            0 <= i < idx + 1 && 0 <= b < gens.len() ==> after.contains(compose_mappings(#[trigger] after[i], #[trigger] gens[b]))
                && after.contains(compose_mappings(gens[b], after[i])),
{
    lemma_contains_grows(before, after);
    assert forall|i: int, b: int|
        0 <= i < idx + 1 && 0 <= b < gens.len() implies after.contains(compose_mappings(#[trigger] after[i], #[trigger] gens[b]))
            && after.contains(compose_mappings(gens[b], after[i])) by {
        assert(after[i] == before[i]) by {
            assert(after.take(before.len() as int)[i] == after[i]);
        }
        if i < idx {
            assert(before.contains(compose_mappings(before[i], gens[b])));
            assert(before.contains(compose_mappings(gens[b], before[i])));
        }
    }
}

/// After the products of entry `idx` are in, the state holds up to `idx + 1`.
proof fn lemma_closure_step(
    gens: Seq<Seq<usize>>,
    n: nat,
    before: Seq<Seq<usize>>,
    after: Seq<Seq<usize>>,
    idx: nat,
)
    requires
        closure_state(gens, n, before, idx),
        idx < before.len(),
        before.len() <= after.len(),
        after.take(before.len() as int) == before,
        closure_growth(gens, n, after),
        forall|c: int| 0 <= c < gens.len() ==> after.contains(compose_mappings(before[idx as int], #[trigger] gens[c]))
            && after.contains(compose_mappings(gens[c], before[idx as int])),
    ensures
        closure_state(gens, n, after, idx + 1),
{
    lemma_closure_state_facts(gens, n, before, idx);
    lemma_products_step(gens, before, after, idx);
    lemma_contains_grows(before, after);
    assert(after.take(gens.len() as int) =~= before.take(gens.len() as int));
    reveal(closure_state);
}

/// The entries past the generators are at most `n^n`.
proof fn lemma_suffix_bounded(rs: Seq<Seq<usize>>, gens: Seq<Seq<usize>>, n: nat)
    requires
        rs.len() >= gens.len(),
        all_permutations_of(rs, n),
        forall|i: int| gens.len() <= i < rs.len() ==> !rs.take(i).contains(#[trigger] rs[i]),
    ensures
        rs.len() <= gens.len() + power(n, n),
{
    let suffix = rs.skip(gens.len() as int);
    assert(suffix.no_duplicates()) by {
        assert forall|i: int, j: int| 0 <= i < suffix.len() && 0 <= j < suffix.len() && i != j implies suffix[i] != suffix[j] by {
            let (lo, hi) = if i < j { (i, j) } else { (j, i) };
            let g = gens.len() as int;
            assert(!rs.take(g + hi).contains(rs[g + hi]));
            assert(rs.take(g + hi)[g + lo] == rs[g + lo]);
        }
    }
    assert forall|a: int, k: int| 0 <= a < suffix.len() && 0 <= k < n implies #[trigger] suffix[a][k] < n by {
        assert(suffix[a] == rs[gens.len() + a]);
        assert(is_permutation(rs[gens.len() + a]));
    }
    assert forall|a: int| 0 <= a < suffix.len() implies (#[trigger] suffix[a]).len() == n by {
        assert(suffix[a] == rs[gens.len() + a]);
    }
    lemma_distinct_mappings_bounded(suffix, n);
}

/// Each generator is generated (by the one-letter word).
proof fn lemma_generators_generated(gens: Seq<Seq<usize>>, n: nat)
    requires
        all_permutations_of(gens, n),
        n <= usize::MAX,
    ensures
        forall|b: int| 0 <= b < gens.len() ==> generated_by(gens, n, #[trigger] gens[b]),
{
    assert forall|b: int| 0 <= b < gens.len() implies generated_by(gens, n, #[trigger] gens[b]) by {
        let w = seq![b];
        assert(w.drop_last() =~= Seq::<int>::empty());
        assert(w.last() == b);
        assert(word_product(gens, w.drop_last(), n) == identity_mapping(n));
        lemma_compose_identity(gens[b]);
        assert(word_product(gens, w, n) == gens[b]);
        assert(is_word(gens, w));
    }
}

/// A product of the generators is a permutation of `n` elements.
proof fn lemma_word_product_permutation(gens: Seq<Seq<usize>>, w: Seq<int>, n: nat)
    requires
        all_permutations_of(gens, n),
        is_word(gens, w),
        n <= usize::MAX,
    ensures
        word_product(gens, w, n).len() == n,
        is_permutation(word_product(gens, w, n)),
    decreases w.len(),
{
    if w.len() == 0 {
        lemma_identity_is_permutation(n);
    } else {
        assert(is_word(gens, w.drop_last()));
        lemma_word_product_permutation(gens, w.drop_last(), n);
        assert(0 <= w.last() < gens.len());
        lemma_compose_is_permutation(word_product(gens, w.drop_last(), n), gens[w.last()]);
    }
}

/// A list of products of generators that holds every product of generators
/// holds the composition of any two of its entries.
proof fn lemma_closed_under_compose(gv: Seq<Seq<usize>>, n: nat, rs: Seq<Seq<usize>>)
    requires
        all_permutations_of(gv, n),
        n <= usize::MAX,
        forall|i: int| 0 <= i < rs.len() ==> generated_by(gv, n, #[trigger] rs[i]),
        forall|w: Seq<int>| is_word(gv, w) ==> rs.contains(#[trigger] word_product(gv, w, n)),
    ensures
        forall|i: int, j: int|
            0 <= i < rs.len() && 0 <= j < rs.len() ==> rs.contains(#[trigger] compose_mappings(rs[i], rs[j])),
{
    assert forall|i: int, j: int| 0 <= i < rs.len() && 0 <= j < rs.len() implies rs.contains(
        #[trigger] compose_mappings(rs[i], rs[j]),
    ) by {
        assert(generated_by(gv, n, rs[i]));
        assert(generated_by(gv, n, rs[j]));
        let w1 = choose|w: Seq<int>| is_word(gv, w) && word_product(gv, w, n) == rs[i];
        let w2 = choose|w: Seq<int>| is_word(gv, w) && word_product(gv, w, n) == rs[j];
        lemma_word_product_concat(gv, w1, w2, n);
        assert(rs.contains(word_product(gv, w1 + w2, n)));
    }
}

/// The product of two words one after the other is the composition of their products.
proof fn lemma_word_product_concat(gens: Seq<Seq<usize>>, w1: Seq<int>, w2: Seq<int>, n: nat)
    requires
        all_permutations_of(gens, n),
        is_word(gens, w1),
        is_word(gens, w2),
        n <= usize::MAX,
    ensures
        is_word(gens, w1 + w2),
        word_product(gens, w1 + w2, n) == compose_mappings(word_product(gens, w1, n), word_product(gens, w2, n)),
    decreases w2.len(),
{
    let all = w1 + w2;
    assert(is_word(gens, all)) by {
        assert forall|k: int| 0 <= k < all.len() implies 0 <= #[trigger] all[k] < gens.len() by {
            if k < w1.len() {
                assert(all[k] == w1[k]);
            } else {
                assert(all[k] == w2[k - w1.len()]);
            }
        }
    }
    lemma_word_product_permutation(gens, w1, n);
    if w2.len() == 0 {
        assert(all =~= w1);
        lemma_compose_identity(word_product(gens, w1, n));
    } else {
        let r = w2.drop_last();
        assert(is_word(gens, r)) by {
            assert forall|k: int| 0 <= k < r.len() implies 0 <= #[trigger] r[k] < gens.len() by {
                assert(r[k] == w2[k]);
            }
        }
        lemma_word_product_concat(gens, w1, r, n);
        assert(all.drop_last() =~= w1 + r);
        assert(all.last() == w2.last());
        assert(0 <= w2.last() < gens.len()) by {
            assert(w2[w2.len() - 1] == w2.last());
        }
        lemma_word_product_permutation(gens, r, n);
        assert(gens[w2.last()].len() == n && is_permutation(gens[w2.last()]));
        lemma_compose_associative(word_product(gens, w1, n), word_product(gens, r, n), gens[w2.last()]);
    }
}

/// Multiplying by a generator on the left: `gens[b] ∘ product(w) = product([b] + w)`.
proof fn lemma_word_prepend(gens: Seq<Seq<usize>>, b: int, w: Seq<int>, n: nat)
    requires
        all_permutations_of(gens, n),
        is_word(gens, w),
        0 <= b < gens.len(),
        n <= usize::MAX,
    ensures
        word_product(gens, seq![b] + w, n) == compose_mappings(gens[b], word_product(gens, w, n)),
    decreases w.len(),
{
    let bw = seq![b] + w;
    if w.len() == 0 {
        assert(bw =~= seq![b]);
        assert(bw.drop_last() =~= Seq::<int>::empty());
        lemma_compose_identity(gens[b]);
    } else {
        assert(bw.drop_last() =~= seq![b] + w.drop_last());
        assert(bw.last() == w.last());
        assert(is_word(gens, w.drop_last()));
        lemma_word_prepend(gens, b, w.drop_last(), n);
        lemma_word_product_permutation(gens, w.drop_last(), n);
        lemma_compose_associative(gens[b], word_product(gens, w.drop_last(), n), gens[w.last()]);
    }
}

/// Products of a generated permutation with a generator, on either side, are generated.
proof fn lemma_generated_products(gens: Seq<Seq<usize>>, n: nat, a: Seq<usize>, b: int)
    requires
        all_permutations_of(gens, n),
        n <= usize::MAX,
        generated_by(gens, n, a),
        0 <= b < gens.len(),
    ensures
        generated_by(gens, n, compose_mappings(a, gens[b])),
        generated_by(gens, n, compose_mappings(gens[b], a)),
        is_permutation(compose_mappings(a, gens[b])),
        is_permutation(compose_mappings(gens[b], a)),
        compose_mappings(a, gens[b]).len() == n,
        compose_mappings(gens[b], a).len() == n,
{
    let w = choose|w: Seq<int>| is_word(gens, w) && word_product(gens, w, n) == a;
    lemma_word_product_permutation(gens, w, n);
    let w1 = w.push(b);
    assert(w1.drop_last() =~= w);
    assert(is_word(gens, w1));
    assert(word_product(gens, w1, n) == compose_mappings(a, gens[b]));
    let w2 = seq![b] + w;
    assert(is_word(gens, w2));
    lemma_word_prepend(gens, b, w, n);
    lemma_compose_is_permutation(a, gens[b]);
    lemma_compose_is_permutation(gens[b], a);
}

impl Clone for Permutation {
    fn clone(&self) -> (r: Self)
        ensures
            r@ == self@,
    {
        proof {
            use_type_invariant(self);
        }
        let mut mapping: Vec<usize> = Vec::new();
        let mut k: usize = 0;
        while k < self.mapping.len()
            invariant
                k <= self@.len(),
                mapping@ == self@.take(k as int),
            decreases self@.len() - k,
        {
            mapping.push(self.mapping[k]);
            k += 1;
            assert(mapping@ =~= self@.take(k as int));
        }
        assert(mapping@ =~= self@);
        Permutation { mapping }
    }
}

/// Composing two permutations of one size gives a permutation.
pub proof fn lemma_compose_is_permutation(a: Seq<usize>, b: Seq<usize>)
    requires
        is_permutation(a),
        is_permutation(b),
        a.len() == b.len(),
    ensures
        is_permutation(compose_mappings(a, b)),
{
    let c = compose_mappings(a, b);
    assert forall|i: int, j: int|
        0 <= i < c.len() && 0 <= j < c.len() && #[trigger] c[i] == #[trigger] c[j] implies i == j by {
        assert(a[b[i] as int] == a[b[j] as int]);
    }
}

/// The identity mapping is a permutation.
pub proof fn lemma_identity_is_permutation(n: nat)
    requires
        n <= usize::MAX,
    ensures
        is_permutation(identity_mapping(n)),
{
    let s = identity_mapping(n);
    assert forall|i: int, j: int| 0 <= i < s.len() && 0 <= j < s.len() && #[trigger] s[i] == #[trigger] s[j] implies i == j by {
        assert(s[i] == i as usize);
        assert(s[j] == j as usize);
    }
}

/// Composition of permutations is associative.
pub proof fn lemma_compose_associative(a: Seq<usize>, b: Seq<usize>, c: Seq<usize>)
    requires
        is_permutation(a),
        is_permutation(b),
        is_permutation(c),
        a.len() == b.len(),
        b.len() == c.len(),
    ensures
        compose_mappings(compose_mappings(a, b), c) == compose_mappings(a, compose_mappings(b, c)),
{
    assert(compose_mappings(compose_mappings(a, b), c) =~= compose_mappings(a, compose_mappings(b, c)));
}

/// The identity is neutral for composition.
pub proof fn lemma_compose_identity(a: Seq<usize>)
    requires
        is_permutation(a),
        a.len() <= usize::MAX,
    ensures
        compose_mappings(a, identity_mapping(a.len())) == a,
        compose_mappings(identity_mapping(a.len()), a) == a,
{
    assert(compose_mappings(a, identity_mapping(a.len())) =~= a);
    assert(compose_mappings(identity_mapping(a.len()), a) =~= a);
}

/// A permutation composed with its inverse, in either order, is the identity.
pub proof fn lemma_compose_inverse(a: Seq<usize>, b: Seq<usize>)
    requires
        is_permutation(a),
        a.len() <= usize::MAX,
        b.len() == a.len(),
        forall|i: int| 0 <= i < a.len() ==> #[trigger] b[a[i] as int] == i,
        forall|j: int| 0 <= j < a.len() ==> #[trigger] a[b[j] as int] == j,
    ensures
        compose_mappings(a, b) == identity_mapping(a.len()),
        compose_mappings(b, a) == identity_mapping(a.len()),
{
    assert(compose_mappings(a, b) =~= identity_mapping(a.len()));
    assert(compose_mappings(b, a) =~= identity_mapping(a.len()));
}

/// The transposition exchanging `a` and `b` on `n` elements.
pub open spec fn transposition(n: nat, a: usize, b: usize) -> Seq<usize> {
    Seq::new(n, |i: int| if i == a { b } else if i == b { a } else { i as usize })
}

/// Every transposition is odd: the transposition of `a < b` is a permutation
/// whose cycle decomposition is the single cycle `(a b)`, one transposition.
pub proof fn lemma_transposition_is_odd(n: nat, a: usize, b: usize)
    requires
        a < b < n,
        n <= usize::MAX,
    ensures
        is_permutation(transposition(n, a, b)),
        is_cycle_decomposition(transposition(n, a, b), seq![seq![a, b]]),
        transposition_count(seq![seq![a, b]]) == 1,
{
    let t = transposition(n, a, b);
    let c = seq![a, b];
    let cs = seq![c];
    assert(is_cycle_of(t, c)) by {
        assert(t[c[0] as int] == c[1]);
        assert(t[c.last() as int] == c[0]);
    }
    assert forall|x: usize| x < t.len() && t[x as int] != x implies #[trigger] in_some_cycle(cs, x) by {
        if x == a {
            assert(cs[0][0] == x);
        } else {
            assert(x == b);
            assert(cs[0][1] == x);
        }
    }
    assert forall|i: int, j: int| 0 <= i < t.len() && 0 <= j < t.len() && #[trigger] t[i] == #[trigger] t[j] implies i == j by {
    }
    assert(cs.drop_last() =~= Seq::<Seq<usize>>::empty());
    assert(transposition_count(cs.drop_last()) == 0);
    assert(cs.last() == c);
    assert(c.len() == 2);
}

/// The identity is even: its cycle decomposition is empty, no transpositions.
pub proof fn lemma_identity_is_even(n: nat)
    ensures
        is_cycle_decomposition(identity_mapping(n), Seq::<Seq<usize>>::empty()),
        transposition_count(Seq::<Seq<usize>>::empty()) == 0,
{
}

/// `b` to the power `e`.
pub open spec fn power(b: nat, e: nat) -> nat
    decreases e,
{
    if e == 0 {
        1
    } else {
        power(b, (e - 1) as nat) * b
    }
}

/// Read `s` as the digits of a number in base `m`, most significant first.
pub open spec fn base_value(s: Seq<usize>, m: nat) -> nat
    decreases s.len(),
{
    if s.len() == 0 {
        0
    } else {
        base_value(s.drop_last(), m) * m + s.last() as nat
    }
}

proof fn lemma_base_value_bound(s: Seq<usize>, m: nat)
    requires
        forall|k: int| 0 <= k < s.len() ==> #[trigger] s[k] < m,
    ensures
        base_value(s, m) < power(m, s.len()),
    decreases s.len(),
{
    if s.len() > 0 {
        let t = s.drop_last();
        assert forall|k: int| 0 <= k < t.len() implies #[trigger] t[k] < m by {
            assert(t[k] == s[k]);
        }
        lemma_base_value_bound(t, m);
        let e = base_value(t, m);
        let pw = power(m, t.len());
        let l = s.last() as nat;
        assert(l < m);
        assert(e * m + l < pw * m) by (nonlinear_arith)
            requires
                e < pw,
                l < m,
        ;
    }
}

proof fn lemma_base_value_injective(s: Seq<usize>, t: Seq<usize>, m: nat)
    requires
        s.len() == t.len(),
        forall|k: int| 0 <= k < s.len() ==> #[trigger] s[k] < m,
        forall|k: int| 0 <= k < t.len() ==> #[trigger] t[k] < m,
        base_value(s, m) == base_value(t, m),
    ensures
        s == t,
    decreases s.len(),
{
    if s.len() == 0 {
        assert(s =~= t);
    } else {
        let s1 = s.drop_last();
        let t1 = t.drop_last();
        assert(s.last() < m);
        assert(t.last() < m);
        lemma_fundamental_div_mod_converse(
            base_value(s, m) as int,
            m as int,
            base_value(s1, m) as int,
            s.last() as int,
        );
        lemma_fundamental_div_mod_converse(
            base_value(t, m) as int,
            m as int,
            base_value(t1, m) as int,
            t.last() as int,
        );
        assert forall|k: int| 0 <= k < s1.len() implies #[trigger] s1[k] < m by {
            assert(s1[k] == s[k]);
        }
        assert forall|k: int| 0 <= k < t1.len() implies #[trigger] t1[k] < m by {
            assert(t1[k] == t[k]);
        }
        lemma_base_value_injective(s1, t1, m);
        assert(s =~= t) by {
            assert forall|k: int| 0 <= k < s.len() implies s[k] == t[k] by {
                if k < s.len() - 1 {
                    assert(s[k] == s1[k]);
                    assert(t[k] == t1[k]);
                }
            }
        }
    }
}

/// There are at most `n^n` distinct sequences of length `n` with entries below `n`;
/// in particular at most `n^n` distinct permutations of `n` elements.
pub proof fn lemma_distinct_mappings_bounded(ss: Seq<Seq<usize>>, n: nat)
    requires
        ss.no_duplicates(),
        forall|a: int| 0 <= a < ss.len() ==> (#[trigger] ss[a]).len() == n,
        forall|a: int, k: int| 0 <= a < ss.len() && 0 <= k < n ==> #[trigger] ss[a][k] < n,
    ensures
        ss.len() <= power(n, n),
{
    let codes = ss.map_values(|x: Seq<usize>| base_value(x, n) as int);
    assert forall|a: int| 0 <= a < codes.len() implies 0 <= #[trigger] codes[a] < power(n, n) by {
        let x = ss[a];
        assert forall|k: int| 0 <= k < x.len() implies #[trigger] x[k] < n by {
            assert(ss[a][k] < n);
        }
        lemma_base_value_bound(x, n);
    }
    assert(codes.no_duplicates()) by {
        assert forall|a: int, b: int| 0 <= a < codes.len() && 0 <= b < codes.len() && a != b implies codes[a] != codes[b] by {
            if codes[a] == codes[b] {
                let x = ss[a];
                let y = ss[b];
                assert forall|k: int| 0 <= k < x.len() implies #[trigger] x[k] < n by {
                    assert(ss[a][k] < n);
                }
                assert forall|k: int| 0 <= k < y.len() implies #[trigger] y[k] < n by {
                    assert(ss[b][k] < n);
                }
                lemma_base_value_injective(x, y, n);
            }
        }
    }
    lemma_distinct_bounded(codes, power(n, n) as int);
}

} // verus!
