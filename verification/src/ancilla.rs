//! Ancilla bit management for reversible circuits.
//!
//! Clean ancillae start at 0; dirty ancillae hold an unknown value and must be
//! restored before they are released.
use vstd::prelude::*;
use std::collections::HashMap;

verus! {

broadcast use vstd::std_specs::hash::group_hash_axioms;

/// The state of an ancilla bit.
#[derive(Debug, Clone, Copy, PartialEq, Eq, Structural)]
pub enum AncillaState {
    /// Guaranteed to be 0.
    Clean,
    /// State unknown; must be restored before release.
    Dirty,
    /// Allocated to some computation.
    InUse,
}

/// Metadata about a single ancilla bit.
#[derive(Debug)]
pub struct AncillaBit {
    /// Index within the ancilla register.
    pub index: usize,
    /// Current state of this ancilla.
    pub state: AncillaState,
    /// What the ancilla is being used for, while in use.
    pub label: Option<String>,
}

/// The view of an optional label.
pub open spec fn label_view(l: Option<String>) -> Option<Seq<char>> {
    match l {
        Some(s) => Some(s@),
        None => None,
    }
}

/// Number of entries of `s` equal to `st`.
pub open spec fn count_state(s: Seq<AncillaState>, st: AncillaState) -> nat
    decreases s.len(),
{
    if s.len() == 0 {
        0
    } else {
        count_state(s.drop_last(), st) + if s.last() == st { 1nat } else { 0nat }
    }
}

/// The first index of `s` holding `st` is `i`.
pub open spec fn is_first_with(s: Seq<AncillaState>, st: AncillaState, i: int) -> bool {
    &&& 0 <= i < s.len()
    &&& s[i] == st
    &&& forall|j: int| 0 <= j < i ==> s[j] != st
}

/// The count for `label` among the garbage entries (0 when it has none).
pub open spec fn garbage_count_of(entries: Seq<(Seq<char>, usize)>, label: Seq<char>) -> nat
    decreases entries.len(),
{
    if entries.len() == 0 {
        0
    } else if entries.last().0 == label {
        entries.last().1 as nat
    } else {
        garbage_count_of(entries.drop_last(), label)
    }
}

/// Sum of the garbage counts.
pub open spec fn garbage_sum(entries: Seq<(Seq<char>, usize)>) -> nat
    decreases entries.len(),
{
    if entries.len() == 0 {
        0
    } else {
        garbage_sum(entries.drop_last()) + entries.last().1 as nat
    }
}

/// The garbage entries after adding `count` to `label`: its entry grows, or a
/// new entry is appended.
pub open spec fn garbage_after_track(entries: Seq<(Seq<char>, usize)>, label: Seq<char>, count: nat) -> Seq<(Seq<char>, usize)> {
    if exists|k: int| 0 <= k < entries.len() && entries[k].0 == label {
        let k = choose|k: int| 0 <= k < entries.len() && entries[k].0 == label;
        entries.update(k, (label, (entries[k].1 + count) as usize))
    } else {
        entries.push((label, count as usize))
    }
}

/// The views of garbage entries.
pub open spec fn garbage_view(g: Seq<(String, usize)>) -> Seq<(Seq<char>, usize)> {
    g.map_values(|e: (String, usize)| (e.0@, e.1))
}

/// Parts that make a consistent pool: each bit knows its index and carries a
/// label only while in use, the current count is the number in use, it is at
/// most the peak, the peak is at most the pool size, and no garbage label occurs twice.
pub open spec fn pool_parts_ok(bits: Seq<AncillaBit>, peak: usize, current: usize, garbage: Seq<(Seq<char>, usize)>) -> bool {
    &&& forall|k: int| 0 <= k < bits.len() ==> (#[trigger] bits[k]).index == k && (bits[k].state != AncillaState::InUse
        ==> bits[k].label is None)
    &&& current == count_state(bits.map_values(|b: AncillaBit| b.state), AncillaState::InUse)
    &&& current <= peak <= bits.len()
    &&& labels_distinct(garbage)
}

/// No label occurs twice.
pub open spec fn labels_distinct(entries: Seq<(Seq<char>, usize)>) -> bool {
    forall|i: int, j: int| 0 <= i < entries.len() && 0 <= j < entries.len() && i != j ==> entries[i].0 != entries[j].0
}

/// Manages a pool of ancilla bits: which are clean, dirty or in use, the peak
/// number in use, and counts of garbage outputs by label.
#[derive(Debug)]
pub struct AncillaManager {
    bits: Vec<AncillaBit>,
    clean_count: usize,
    total_allocated: usize,
    peak_usage: usize,
    current_usage: usize,
    garbage_labels: Vec<(String, usize)>,
}

impl AncillaManager {
    /// The states of the ancillae, by index.
    pub closed spec fn states(self) -> Seq<AncillaState> {
        self.bits@.map_values(|b: AncillaBit| b.state)
    }

    /// The labels of the ancillae, by index.
    pub closed spec fn labels(self) -> Seq<Option<Seq<char>>> {
        self.bits@.map_values(|b: AncillaBit| label_view(b.label))
    }

    /// The state each ancilla had when the pool was made: the first ones clean,
    /// the rest dirty.
    pub closed spec fn initial_states(self) -> Seq<AncillaState> {
        Seq::new(
            self.bits@.len(),
            |i: int| if i < self.clean_count { AncillaState::Clean } else { AncillaState::Dirty },
        )
    }

    /// The largest number of ancillae in use at once so far.
    pub closed spec fn spec_peak(self) -> nat {
        self.peak_usage as nat
    }

    /// The garbage entries: each label with its count, in the order first tracked.
    pub closed spec fn garbage(self) -> Seq<(Seq<char>, usize)> {
        self.garbage_labels@.map_values(|e: (String, usize)| (e.0@, e.1))
    }

    /// The manager's bookkeeping is consistent: each bit knows its index, only
    /// bits in use carry a label, the in-use counter counts the bits in use, the
    /// peak is at least that, and no garbage label occurs twice.
    pub closed spec fn wf(self) -> bool {
        &&& forall|k: int| 0 <= k < self.bits@.len() ==> (#[trigger] self.bits@[k]).index == k
        &&& forall|k: int| 0 <= k < self.bits@.len() && (#[trigger] self.bits@[k]).state != AncillaState::InUse
            ==> self.bits@[k].label is None
        &&& self.current_usage == count_state(self.states(), AncillaState::InUse)
        &&& self.current_usage <= self.peak_usage
        &&& self.peak_usage <= self.bits@.len()
        &&& labels_distinct(self.garbage())
    }

    /// The pool's bookkeeping bounds: one state, one label and one starting
    /// state per ancilla, and no more in use than the peak, which never exceeds
    /// the size of the pool.
    pub proof fn lemma_pool_bounds(self)
        requires
            self.wf(),
        ensures
            self.labels().len() == self.states().len(),
            self.initial_states().len() == self.states().len(),
            self.spec_in_use() <= self.spec_peak(),
            self.spec_peak() <= self.states().len(),
    {
    }

    /// Number of ancillae in use.
    pub open spec fn spec_in_use(self) -> nat {
        count_state(self.states(), AncillaState::InUse)
    }

    /// Create a pool of `clean_count` clean ancillae followed by `dirty_count` dirty ones.
    pub fn new(clean_count: usize, dirty_count: usize) -> (m: Self)
        requires
            clean_count + dirty_count <= usize::MAX,
        ensures
            m.wf(),
            m.states() == Seq::new(
                (clean_count + dirty_count) as nat,
                |i: int| if i < clean_count { AncillaState::Clean } else { AncillaState::Dirty },
            ),
            m.labels() == Seq::new((clean_count + dirty_count) as nat, |i: int| None::<Seq<char>>),
            m.spec_peak() == 0,
            m.garbage() == Seq::<(Seq<char>, usize)>::empty(),
            m.initial_states() == m.states(),
    {
        let total = clean_count + dirty_count;
        let mut bits: Vec<AncillaBit> = Vec::new();
        let mut i: usize = 0;
        while i < total
            invariant
                i <= total,
                total == clean_count + dirty_count,
                bits@.len() == i,
                forall|k: int| 0 <= k < i ==> (#[trigger] bits@[k]).index == k && bits@[k].label is None
                    && bits@[k].state == (if k < clean_count { AncillaState::Clean } else { AncillaState::Dirty }),
            decreases total - i,
        {
            let state = if i < clean_count { AncillaState::Clean } else { AncillaState::Dirty };
            bits.push(AncillaBit { index: i, state, label: None });
            i += 1;
        }
        let m = AncillaManager {
            bits,
            clean_count,
            total_allocated: total,
            peak_usage: 0,
            current_usage: 0,
            garbage_labels: Vec::new(),
        };
        proof {
            assert(m.states() =~= Seq::new(
                total as nat,
                |i: int| if i < clean_count { AncillaState::Clean } else { AncillaState::Dirty },
            ));
            assert(m.labels() =~= Seq::new(total as nat, |i: int| None::<Seq<char>>));
            assert(m.initial_states() =~= m.states());
            lemma_count_absent(m.states(), AncillaState::InUse);
            assert(m.garbage() =~= Seq::<(Seq<char>, usize)>::empty());
        }
        m
    }

    /// Allocate the first clean ancilla, marking it in use with `label`; returns its index.
    /// A clean ancilla must be available.
    pub fn allocate_clean(&mut self, label: Option<String>) -> (r: usize)
        requires
            old(self).wf(),
            old(self).states().contains(AncillaState::Clean),
        ensures
            final(self).wf(),
            is_first_with(old(self).states(), AncillaState::Clean, r as int),
            final(self).states() == old(self).states().update(r as int, AncillaState::InUse),
            final(self).labels() == old(self).labels().update(r as int, label_view(label)),
            final(self).spec_in_use() == old(self).spec_in_use() + 1,
            final(self).spec_peak() == (if old(self).spec_peak() >= old(self).spec_in_use() + 1 {
                old(self).spec_peak()
            } else {
                old(self).spec_in_use() + 1
            }),
            final(self).garbage() == old(self).garbage(),
            final(self).initial_states() == old(self).initial_states(),
    {
        self.allocate_from(AncillaState::Clean, label)
    }

    /// Allocate the first dirty ancilla, marking it in use with `label`; returns its index.
    /// A dirty ancilla must be available.
    pub fn allocate_dirty(&mut self, label: Option<String>) -> (r: usize)
        requires
            old(self).wf(),
            old(self).states().contains(AncillaState::Dirty),
        ensures
            final(self).wf(),
            is_first_with(old(self).states(), AncillaState::Dirty, r as int),
            final(self).states() == old(self).states().update(r as int, AncillaState::InUse),
            final(self).labels() == old(self).labels().update(r as int, label_view(label)),
            final(self).spec_in_use() == old(self).spec_in_use() + 1,
            final(self).spec_peak() == (if old(self).spec_peak() >= old(self).spec_in_use() + 1 {
                old(self).spec_peak()
            } else {
                old(self).spec_in_use() + 1
            }),
            final(self).garbage() == old(self).garbage(),
            final(self).initial_states() == old(self).initial_states(),
    {
        self.allocate_from(AncillaState::Dirty, label)
    }

    /// Take the first ancilla in state `from` into use.
    fn allocate_from(&mut self, from: AncillaState, label: Option<String>) -> (r: usize)
        requires
            old(self).wf(),
            from != AncillaState::InUse,
            old(self).states().contains(from),
        ensures
            final(self).wf(),
            is_first_with(old(self).states(), from, r as int),
            final(self).states() == old(self).states().update(r as int, AncillaState::InUse),
            final(self).labels() == old(self).labels().update(r as int, label_view(label)),
            final(self).spec_in_use() == old(self).spec_in_use() + 1,
            final(self).spec_peak() == (if old(self).spec_peak() >= old(self).spec_in_use() + 1 {
                old(self).spec_peak()
            } else {
                old(self).spec_in_use() + 1
            }),
            final(self).garbage() == old(self).garbage(),
            final(self).initial_states() == old(self).initial_states(),
    {
        let ghost states = self.states();
        let mut k: usize = 0;
        let mut found = false;
        while k < self.bits.len() && !found
            invariant
                k <= self.bits@.len(),
                states == self.states(),
                states.contains(from),
                found ==> k < states.len() && states[k as int] == from,
                forall|j: int| 0 <= j < k ==> states[j] != from,
            decreases self.bits@.len() - k + (if found { 0int } else { 1int }),
        {
            if self.bits[k].state == from {
                assert(states[k as int] == self.bits@[k as int].state);
                found = true;
            } else {
                assert(states[k as int] == self.bits@[k as int].state);
                k += 1;
            }
        }
        proof {
            if !found {
                let j = choose|j: int| 0 <= j < states.len() && states[j] == from;
                assert(states[j] == from);
            }
            lemma_count_update(states, k as int, AncillaState::InUse);
            lemma_count_le_len(states.update(k as int, AncillaState::InUse), AncillaState::InUse);
            assert(count_state(states.update(k as int, AncillaState::InUse), AncillaState::InUse)
                == count_state(states, AncillaState::InUse) + 1);
        }
        let ghost old_bits = self.bits@;
        self.bits.set(k, AncillaBit { index: k, state: AncillaState::InUse, label });
        self.current_usage = self.current_usage + 1;
        if self.peak_usage < self.current_usage {
            self.peak_usage = self.current_usage;
        }
        proof {
            assert(self.states() =~= states.update(k as int, AncillaState::InUse));
            assert(self.labels() =~= old(self).labels().update(k as int, label_view(label)));
            assert forall|j: int| 0 <= j < self.bits@.len() implies (#[trigger] self.bits@[j]).index == j
                && (self.bits@[j].state != AncillaState::InUse ==> self.bits@[j].label is None) by {
                if j != k {
                    assert(self.bits@[j] == old_bits[j]);
                }
            }
        }
        k
    }

    /// Release an ancilla in use, marking it clean (the caller is responsible for
    /// having returned it to 0).
    pub fn deallocate_clean(&mut self, index: usize)
        requires
            old(self).wf(),
            index < old(self).states().len(),
            old(self).states()[index as int] == AncillaState::InUse,
        ensures
            final(self).wf(),
            final(self).states() == old(self).states().update(index as int, AncillaState::Clean),
            final(self).labels() == old(self).labels().update(index as int, None),
            final(self).spec_in_use() + 1 == old(self).spec_in_use(),
            final(self).spec_peak() == old(self).spec_peak(),
            final(self).garbage() == old(self).garbage(),
            final(self).initial_states() == old(self).initial_states(),
    {
        self.release(index, AncillaState::Clean)
    }

    /// Release an ancilla in use, marking it dirty.
    pub fn deallocate_dirty(&mut self, index: usize)
        requires
            old(self).wf(),
            index < old(self).states().len(),
            old(self).states()[index as int] == AncillaState::InUse,
        ensures
            final(self).wf(),
            final(self).states() == old(self).states().update(index as int, AncillaState::Dirty),
            final(self).labels() == old(self).labels().update(index as int, None),
            final(self).spec_in_use() + 1 == old(self).spec_in_use(),
            final(self).spec_peak() == old(self).spec_peak(),
            final(self).garbage() == old(self).garbage(),
            final(self).initial_states() == old(self).initial_states(),
    {
        self.release(index, AncillaState::Dirty)
    }

    /// Put an ancilla in use back into state `to`.
    fn release(&mut self, index: usize, to: AncillaState)
        requires
            old(self).wf(),
            to != AncillaState::InUse,
            index < old(self).states().len(),
            old(self).states()[index as int] == AncillaState::InUse,
        ensures
            final(self).wf(),
            final(self).states() == old(self).states().update(index as int, to),
            final(self).labels() == old(self).labels().update(index as int, None),
            final(self).spec_in_use() + 1 == old(self).spec_in_use(),
            final(self).spec_peak() == old(self).spec_peak(),
            final(self).garbage() == old(self).garbage(),
            final(self).initial_states() == old(self).initial_states(),
    {
        let ghost states = self.states();
        proof {
            assert(states[index as int] == self.bits@[index as int].state);
            lemma_count_update(states, index as int, to);
            assert(count_state(states.update(index as int, to), AncillaState::InUse) + 1
                == count_state(states, AncillaState::InUse));
        }
        let ghost old_bits = self.bits@;
        self.bits.set(index, AncillaBit { index, state: to, label: None });
        self.current_usage = self.current_usage - 1;
        proof {
            assert(self.states() =~= states.update(index as int, to));
            assert(self.labels() =~= old(self).labels().update(index as int, None));
            assert forall|j: int| 0 <= j < self.bits@.len() implies (#[trigger] self.bits@[j]).index == j
                && (self.bits@[j].state != AncillaState::InUse ==> self.bits@[j].label is None) by {
                if j != index {
                    assert(self.bits@[j] == old_bits[j]);
                }
            }
        }
    }

    /// Number of ancillae in state `st`.
    fn count_in(&self, st: AncillaState) -> (r: usize)
        ensures
            r == count_state(self.states(), st),
    {
        let ghost states = self.states();
        let mut n: usize = 0;
        let mut k: usize = 0;
        while k < self.bits.len()
            invariant
                k <= self.bits@.len(),
                states == self.states(),
                n == count_state(states.take(k as int), st),
            decreases self.bits@.len() - k,
        {
            proof {
                assert(states.take(k + 1).drop_last() =~= states.take(k as int));
                lemma_count_le_len(states.take(k as int), st);
                assert(states[k as int] == self.bits@[k as int].state);
            }
            if self.bits[k].state == st {
                n += 1;
            }
            k += 1;
        }
        assert(states.take(self.bits@.len() as int) =~= states);
        n
    }

    /// Number of clean ancillae available.
    pub fn clean_available(&self) -> (r: usize)
        ensures
            r == count_state(self.states(), AncillaState::Clean),
    {
        self.count_in(AncillaState::Clean)
    }

    /// Number of dirty ancillae available.
    pub fn dirty_available(&self) -> (r: usize)
        ensures
            r == count_state(self.states(), AncillaState::Dirty),
    {
        self.count_in(AncillaState::Dirty)
    }

    /// Number of ancillae in use.
    pub fn in_use(&self) -> (r: usize)
        requires
            self.wf(),
        ensures
            r == self.spec_in_use(),
    {
        self.current_usage
    }

    /// Peak number of ancillae in use at once.
    pub fn peak_usage(&self) -> (r: usize)
        ensures
            r == self.spec_peak(),
    {
        self.peak_usage
    }

    /// Rebuild a pool from its parts: the bits, how many of them started clean,
    /// the peak and current numbers in use, and the garbage entries. The parts
    /// must be consistent (see `pool_parts_ok`); otherwise the result is `None`.
    pub fn from_parts(
        bits: Vec<AncillaBit>,
        clean_count: usize,
        peak_usage: usize,
        current_usage: usize,
        garbage_labels: Vec<(String, usize)>,
    ) -> (r: Option<AncillaManager>)
        ensures
            r is Some <==> pool_parts_ok(bits@, peak_usage, current_usage, garbage_view(garbage_labels@)),
            r matches Some(m) ==> m.wf() && m.states() == bits@.map_values(|b: AncillaBit| b.state)
                && m.labels() == bits@.map_values(|b: AncillaBit| label_view(b.label)) && m.initial_states()
                == Seq::new(
                bits@.len(),
                |i: int| if i < clean_count { AncillaState::Clean } else { AncillaState::Dirty },
            ) && m.spec_peak() == peak_usage && m.garbage() == garbage_view(garbage_labels@)
    {
        let ghost states = bits@.map_values(|b: AncillaBit| b.state);
        let ghost gv = garbage_view(garbage_labels@);
        let mut in_use: usize = 0;
        let mut k: usize = 0;
        while k < bits.len()
            invariant
                k <= bits@.len(),
                states == bits@.map_values(|b: AncillaBit| b.state),
                in_use == count_state(states.take(k as int), AncillaState::InUse),
                forall|j: int| 0 <= j < k ==> (#[trigger] bits@[j]).index == j && (bits@[j].state != AncillaState::InUse
                    ==> bits@[j].label is None),
            decreases bits@.len() - k,
        {
            if bits[k].index != k {
                assert(bits@[k as int].index != k);
                return None;
            }
            if bits[k].state != AncillaState::InUse {
                match &bits[k].label {
                    Some(_) => {
                        assert(bits@[k as int].state != AncillaState::InUse && bits@[k as int].label is Some);
                        return None;
                    },
                    None => {},
                }
            }
            proof {
                assert(states.take(k + 1).drop_last() =~= states.take(k as int));
                lemma_count_le_len(states.take(k as int), AncillaState::InUse);
                assert(states[k as int] == bits@[k as int].state);
            }
            if bits[k].state == AncillaState::InUse {
                in_use += 1;
            }
            k += 1;
        }
        assert(states.take(bits@.len() as int) =~= states);
        if in_use != current_usage || current_usage > peak_usage || peak_usage > bits.len() {
            return None;
        }
        let n = garbage_labels.len();
        let mut a: usize = 0;
        while a < n
            invariant
                a <= n,
                n == gv.len(),
                gv == garbage_view(garbage_labels@),
                forall|i: int, j: int| 0 <= i < a && 0 <= j < n && i != j ==> gv[i].0 != gv[j].0,
            decreases n - a,
        {
            let mut b: usize = 0;
            while b < n
                invariant
                    a < n,
                    b <= n,
                    n == gv.len(),
                    gv == garbage_view(garbage_labels@),
                    forall|i: int, j: int| 0 <= i < a && 0 <= j < n && i != j ==> gv[i].0 != gv[j].0,
                    forall|j: int| 0 <= j < b && j != a ==> gv[a as int].0 != gv[j].0,
                decreases n - b,
            {
                if b != a && garbage_labels[a].0 == garbage_labels[b].0 {
                    assert(gv[a as int].0 == gv[b as int].0);
                    assert(!labels_distinct(gv));
                    return None;
                }
                b += 1;
            }
            a += 1;
        }
        let ghost bv = bits@;
        let total = bits.len();
        let m = AncillaManager {
            bits,
            clean_count,
            total_allocated: total,
            peak_usage,
            current_usage,
            garbage_labels,
        };
        proof {
            assert(m.states() =~= states);
            assert(m.garbage() =~= gv);
            assert(m.labels() =~= bv.map_values(|b: AncillaBit| label_view(b.label)));
            assert(m.initial_states() =~= Seq::new(
                bv.len(),
                |i: int| if i < clean_count { AncillaState::Clean } else { AncillaState::Dirty },
            ));
        }
        Some(m)
    }

    /// How many ancillae of the pool started clean (the first ones).
    pub fn initial_clean_count(&self) -> (r: usize)
        ensures
            self.initial_states() == Seq::new(
                self.states().len(),
                |i: int| if i < r { AncillaState::Clean } else { AncillaState::Dirty },
            ),
    {
        assert(self.initial_states() =~= Seq::new(
            self.states().len(),
            |i: int| if i < self.clean_count { AncillaState::Clean } else { AncillaState::Dirty },
        ));
        self.clean_count
    }

    /// Size of the pool.
    pub fn total(&self) -> (r: usize)
        ensures
            r == self.states().len(),
    {
        self.bits.len()
    }

    /// Add `count` garbage outputs under `label`.
    pub fn track_garbage(&mut self, label: &str, count: usize)
        requires
            old(self).wf(),
            garbage_count_of(old(self).garbage(), label@) + count <= usize::MAX,
        ensures
            final(self).wf(),
            final(self).garbage() == garbage_after_track(old(self).garbage(), label@, count as nat),
            final(self).states() == old(self).states(),
            final(self).labels() == old(self).labels(),
            final(self).spec_peak() == old(self).spec_peak(),
            final(self).initial_states() == old(self).initial_states(),
    {
        let ghost g = self.garbage();
        let key = label.to_owned();
        let mut k: usize = 0;
        let mut found = false;
        while k < self.garbage_labels.len() && !found
            invariant
                k <= self.garbage_labels@.len(),
                g == self.garbage(),
                key@ == label@,
                found ==> k < g.len() && g[k as int].0 == label@,
                forall|j: int| 0 <= j < k ==> g[j].0 != label@,
            decreases self.garbage_labels@.len() - k + (if found { 0int } else { 1int }),
        {
            if self.garbage_labels[k].0 == key {
                assert(g[k as int].0 == label@);
                found = true;
            } else {
                k += 1;
            }
        }
        if found {
            proof {
                lemma_garbage_count_at(g, k as int, label@);
            }
            let old_count = self.garbage_labels[k].1;

            self.garbage_labels.set(k, (key, old_count + count));
            proof {
                let kk = choose|j: int| 0 <= j < g.len() && g[j].0 == label@;
                assert(kk == k as int) by {
                    if kk != k as int {
                        assert(g[kk].0 == g[k as int].0);
                    }
                }
                assert(self.garbage() =~= g.update(k as int, (label@, (g[k as int].1 + count) as usize)));
                lemma_distinct_update(g, k as int, label@, (g[k as int].1 + count) as usize);
            }
        } else {
            proof {
                assert(!(exists|j: int| 0 <= j < g.len() && g[j].0 == label@));
                lemma_distinct_push(g, label@, count);
            }

            self.garbage_labels.push((key, count));
            proof {
                assert(self.garbage() =~= g.push((label@, count)));
            }
        }
    }

    /// Total garbage count across all labels.
    pub fn total_garbage(&self) -> (r: usize)
        requires
            garbage_sum(self.garbage()) <= usize::MAX,
        ensures
            r == garbage_sum(self.garbage()),
    {
        let ghost g = self.garbage();
        let mut total: usize = 0;
        let mut k: usize = 0;
        while k < self.garbage_labels.len()
            invariant
                k <= self.garbage_labels@.len(),
                g == self.garbage(),
                garbage_sum(g) <= usize::MAX,
                total == garbage_sum(g.take(k as int)),
            decreases self.garbage_labels@.len() - k,
        {
            proof {
                assert(g.take(k + 1).drop_last() =~= g.take(k as int));
                lemma_garbage_sum_prefix(g, k + 1);
                assert(g[k as int].1 == self.garbage_labels@[k as int].1);
            }
            total = total + self.garbage_labels[k].1;
            k += 1;
        }
        assert(g.take(self.garbage_labels@.len() as int) =~= g);
        total
    }

    /// The garbage labels with their counts.
    pub fn garbage_labels(&self) -> (r: &[(String, usize)])
        ensures
            r@.map_values(|e: (String, usize)| (e.0@, e.1)) == self.garbage(),
    {
        self.garbage_labels.as_slice()
    }

    /// The ancilla bit at `index`.
    pub fn get_bit(&self, index: usize) -> (r: &AncillaBit)
        requires
            self.wf(),
            index < self.states().len(),
        ensures
            r.index == index,
            r.state == self.states()[index as int],
            label_view(r.label) == self.labels()[index as int],
    {
        &self.bits[index]
    }

    /// Whether every ancilla has been returned to the pool it started in: the
    /// clean ones clean again and the dirty ones dirty.
    pub fn verify_all_returned(&self) -> (r: bool)
        ensures
            r == (self.states() == self.initial_states()),
    {
        let ghost states = self.states();
        let ghost init = self.initial_states();
        let mut k: usize = 0;
        while k < self.bits.len()
            invariant
                k <= self.bits@.len(),
                states == self.states(),
                init == self.initial_states(),
                forall|j: int| 0 <= j < k ==> #[trigger] states[j] == init[j],
            decreases self.bits@.len() - k,
        {
            let expected = if k < self.clean_count { AncillaState::Clean } else { AncillaState::Dirty };
            if self.bits[k].state != expected {
                assert(states[k as int] != init[k as int]);
                return false;
            }
            assert(states[k as int] == init[k as int]);
            k += 1;
        }
        assert(states =~= init);
        true
    }
}

impl Clone for AncillaBit {
    fn clone(&self) -> (r: Self)
        ensures
            r.index == self.index,
            r.state == self.state,
            label_view(r.label) == label_view(self.label),
    {
        let label = match &self.label {
            Some(l) => Some(l.clone()),
            None => None,
        };
        AncillaBit { index: self.index, state: self.state, label }
    }
}

impl Clone for AncillaManager {
    fn clone(&self) -> (r: Self)
        ensures
            self.wf() ==> r.wf(),
            r.states() == self.states(),
            r.labels() == self.labels(),
            r.initial_states() == self.initial_states(),
            r.spec_peak() == self.spec_peak(),
            r.garbage() == self.garbage(),
    {
        let mut bits: Vec<AncillaBit> = Vec::new();
        let mut k: usize = 0;
        while k < self.bits.len()
            invariant
                k <= self.bits@.len(),
                bits@.len() == k,
                forall|j: int| 0 <= j < k ==> (#[trigger] bits@[j]).index == self.bits@[j].index
                    && bits@[j].state == self.bits@[j].state && label_view(bits@[j].label) == label_view(
                    self.bits@[j].label,
                ),
            decreases self.bits@.len() - k,
        {
            bits.push(self.bits[k].clone());
            k += 1;
        }
        let mut garbage_labels: Vec<(String, usize)> = Vec::new();
        let mut k: usize = 0;
        while k < self.garbage_labels.len()
            invariant
                k <= self.garbage_labels@.len(),
                garbage_labels@.len() == k,
                forall|j: int| 0 <= j < k ==> (#[trigger] garbage_labels@[j]).0@ == self.garbage_labels@[j].0@
                    && garbage_labels@[j].1 == self.garbage_labels@[j].1,
            decreases self.garbage_labels@.len() - k,
        {
            let entry = (self.garbage_labels[k].0.clone(), self.garbage_labels[k].1);
            garbage_labels.push(entry);
            k += 1;
        }
        let r = AncillaManager {
            bits,
            clean_count: self.clean_count,
            total_allocated: self.total_allocated,
            peak_usage: self.peak_usage,
            current_usage: self.current_usage,
            garbage_labels,
        };
        assert(r.states() =~= self.states());
        assert(r.labels() =~= self.labels());
        assert(r.garbage() =~= self.garbage());
        assert(r.initial_states() =~= self.initial_states());
        proof {
            if self.wf() {
                assert forall|k: int| 0 <= k < r.bits@.len() && (#[trigger] r.bits@[k]).state != AncillaState::InUse
                    implies r.bits@[k].label is None by {
                    assert(self.bits@[k].label is None);
                }
            }
        }
        r
    }
}

/// Every ancilla is clean, dirty or in use: the three counts add up to the size
/// of the pool (which `new(c, d)` makes `c + d`, and which no operation changes).
pub proof fn lemma_counts_partition(s: Seq<AncillaState>)
    ensures
        count_state(s, AncillaState::Clean) + count_state(s, AncillaState::Dirty) + count_state(s, AncillaState::InUse)
            == s.len(),
    decreases s.len(),
{
    if s.len() > 0 {
        lemma_counts_partition(s.drop_last());
    }
}

/// A count of entries is at most the length.
proof fn lemma_count_le_len(s: Seq<AncillaState>, st: AncillaState)
    ensures
        count_state(s, st) <= s.len(),
    decreases s.len(),
{
    if s.len() > 0 {
        lemma_count_le_len(s.drop_last(), st);
    }
}

/// A state that does not occur has count 0.
proof fn lemma_count_absent(s: Seq<AncillaState>, st: AncillaState)
    requires
        forall|k: int| 0 <= k < s.len() ==> s[k] != st,
    ensures
        count_state(s, st) == 0,
    decreases s.len(),
{
    if s.len() > 0 {
        lemma_count_absent(s.drop_last(), st);
    }
}

/// Changing entry `i` to `to` moves one unit of count from its old state to `to`.
proof fn lemma_count_update(s: Seq<AncillaState>, i: int, to: AncillaState)
    requires
        0 <= i < s.len(),
    ensures
        forall|st: AncillaState| #[trigger] count_state(s.update(i, to), st) + (if s[i] == st { 1int } else { 0int })
            == count_state(s, st) + (if to == st { 1int } else { 0int }),
    decreases s.len(),
{
    let u = s.update(i, to);
    if i < s.len() - 1 {
        let t = s.drop_last();
        assert(u.drop_last() =~= t.update(i, to));
        lemma_count_update(t, i, to);
        assert(u.last() == s.last());
        assert forall|st: AncillaState| #[trigger] count_state(u, st) + (if s[i] == st { 1int } else { 0int })
            == count_state(s, st) + (if to == st { 1int } else { 0int }) by {
            assert(count_state(t.update(i, to), st) + (if t[i] == st { 1int } else { 0int })
                == count_state(t, st) + (if to == st { 1int } else { 0int }));
        }
    } else {
        assert(u.drop_last() =~= s.drop_last());
    }
}

proof fn lemma_garbage_count_at(g: Seq<(Seq<char>, usize)>, k: int, label: Seq<char>)
    requires
        labels_distinct(g),
        0 <= k < g.len(),
        g[k].0 == label,
    ensures
        garbage_count_of(g, label) == g[k].1,
    decreases g.len(),
{
    if k < g.len() - 1 {
        let t = g.drop_last();
        assert(g.last().0 != label) by {
            assert(g[g.len() - 1].0 != g[k].0);
        }
        assert(labels_distinct(t)) by {
            assert forall|i: int, j: int| 0 <= i < t.len() && 0 <= j < t.len() && i != j implies t[i].0 != t[j].0 by {
                assert(g[i].0 != g[j].0);
            }
        }
        lemma_garbage_count_at(t, k, label);
    }
}

proof fn lemma_distinct_update(g: Seq<(Seq<char>, usize)>, k: int, label: Seq<char>, v: usize)
    requires
        labels_distinct(g),
        0 <= k < g.len(),
        g[k].0 == label,
    ensures
        labels_distinct(g.update(k, (label, v))),
{
    let u = g.update(k, (label, v));
    assert forall|i: int, j: int| 0 <= i < u.len() && 0 <= j < u.len() && i != j implies u[i].0 != u[j].0 by {
        assert(g[i].0 != g[j].0);
    }
}

proof fn lemma_distinct_push(g: Seq<(Seq<char>, usize)>, label: Seq<char>, v: usize)
    requires
        labels_distinct(g),
        forall|j: int| 0 <= j < g.len() ==> g[j].0 != label,
    ensures
        labels_distinct(g.push((label, v))),
{
    let u = g.push((label, v));
    assert forall|i: int, j: int| 0 <= i < u.len() && 0 <= j < u.len() && i != j implies u[i].0 != u[j].0 by {
        if i < g.len() && j < g.len() {
            assert(g[i].0 != g[j].0);
        }
    }
}

proof fn lemma_garbage_sum_prefix(g: Seq<(Seq<char>, usize)>, k: int)
    requires
        0 <= k <= g.len(),
    ensures
        garbage_sum(g.take(k)) <= garbage_sum(g),
    decreases g.len() - k,
{
    if k < g.len() {
        lemma_garbage_sum_prefix(g, k + 1);
        assert(g.take(k + 1).drop_last() =~= g.take(k));
    } else {
        assert(g.take(k) =~= g);
    }
}

/// A label that occurs nowhere has garbage count 0.
proof fn lemma_garbage_count_absent(g: Seq<(Seq<char>, usize)>, label: Seq<char>)
    requires
        forall|j: int| 0 <= j < g.len() ==> g[j].0 != label,
    ensures
        garbage_count_of(g, label) == 0,
    decreases g.len(),
{
    if g.len() > 0 {
        assert(g.last().0 != label);
        lemma_garbage_count_absent(g.drop_last(), label);
    }
}

/// Replacing entry `k` changes the sum by the difference of the counts.
proof fn lemma_garbage_sum_update(g: Seq<(Seq<char>, usize)>, k: int, e: (Seq<char>, usize))
    requires
        0 <= k < g.len(),
    ensures
        garbage_sum(g.update(k, e)) + g[k].1 == garbage_sum(g) + e.1,
    decreases g.len(),
{
    let u = g.update(k, e);
    if k < g.len() - 1 {
        assert(u.drop_last() =~= g.drop_last().update(k, e));
        lemma_garbage_sum_update(g.drop_last(), k, e);
    } else {
        assert(u.drop_last() =~= g.drop_last());
    }
}

/// Changing the count of one label leaves the counts of the others alone.
proof fn lemma_garbage_count_other(g: Seq<(Seq<char>, usize)>, k: int, v: usize, other: Seq<char>)
    requires
        0 <= k < g.len(),
        g[k].0 != other,
    ensures
        garbage_count_of(g.update(k, (g[k].0, v)), other) == garbage_count_of(g, other),
    decreases g.len(),
{
    let u = g.update(k, (g[k].0, v));
    if k < g.len() - 1 {
        assert(u.drop_last() =~= g.drop_last().update(k, (g[k].0, v)));
        lemma_garbage_count_other(g.drop_last(), k, v, other);
    } else {
        assert(u.drop_last() =~= g.drop_last());
    }
}

/// Tracking `count` more garbage outputs under `label` raises that label's count
/// and the total by `count`, and leaves every other label's count as it was.
pub proof fn lemma_track_garbage_adds(g: Seq<(Seq<char>, usize)>, label: Seq<char>, count: nat)
    requires
        labels_distinct(g),
        garbage_count_of(g, label) + count <= usize::MAX,
    ensures
        garbage_count_of(garbage_after_track(g, label, count), label) == garbage_count_of(g, label) + count,
        garbage_sum(garbage_after_track(g, label, count)) == garbage_sum(g) + count,
        forall|other: Seq<char>|
            other != label ==> #[trigger] garbage_count_of(garbage_after_track(g, label, count), other)
                == garbage_count_of(g, other),
{
    let a = garbage_after_track(g, label, count);
    if exists|k: int| 0 <= k < g.len() && g[k].0 == label {
        let k = choose|k: int| 0 <= k < g.len() && g[k].0 == label;
        lemma_garbage_count_at(g, k, label);
        let v = (g[k].1 + count) as usize;
        lemma_distinct_update(g, k, label, v);
        lemma_garbage_count_at(a, k, label);
        lemma_garbage_sum_update(g, k, (label, v));
        assert forall|other: Seq<char>| other != label implies #[trigger] garbage_count_of(a, other)
            == garbage_count_of(g, other) by {
            lemma_garbage_count_other(g, k, v, other);
        }
    } else {
        lemma_garbage_count_absent(g, label);
        assert(a.drop_last() =~= g);
    }
}

/// Taking the first ancilla in state `st` (clean or dirty) into use and then
/// releasing it back to `st` leaves the pool as it was: the same states, the
/// same labels, and so the same number in use.
pub proof fn lemma_allocate_release_roundtrip(
    m: AncillaManager,
    st: AncillaState,
    r: int,
    label: Option<Seq<char>>,
)
    requires
        m.wf(),
        st != AncillaState::InUse,
        is_first_with(m.states(), st, r),
    ensures
        m.states().update(r, AncillaState::InUse).update(r, st) == m.states(),
        m.labels().update(r, label).update(r, None) == m.labels(),
        count_state(m.states().update(r, AncillaState::InUse).update(r, st), AncillaState::InUse)
            == m.spec_in_use(),
{
    assert(m.states()[r] == m.bits@[r].state);
    assert(m.labels()[r] == label_view(m.bits@[r].label));
    assert(m.states().update(r, AncillaState::InUse).update(r, st) =~= m.states());
    assert(m.labels().update(r, label).update(r, None) =~= m.labels());
}

/// Number of entries of `s` equal to `flag`.
pub open spec fn count_lines(s: Seq<bool>, flag: bool) -> nat
    decreases s.len(),
{
    if s.len() == 0 {
        0
    } else {
        count_lines(s.drop_last(), flag) + if s.last() == flag { 1nat } else { 0nat }
    }
}

/// Tracker for garbage outputs of a computation: which output lines are garbage,
/// with a label for each.
#[derive(Debug, Clone)]
pub struct GarbageCount {
    lines: Vec<bool>,
    labels: HashMap<usize, String>,
}

impl GarbageCount {
    /// Which lines are garbage, by index.
    pub closed spec fn spec_lines(self) -> Seq<bool> {
        self.lines@
    }

    /// The labels of the lines marked as garbage.
    pub closed spec fn spec_labels(self) -> Map<usize, Seq<char>> {
        self.labels@.map_values(|s: String| s@)
    }

    /// Create a tracker for `width` output lines, none of them garbage.
    pub fn new(width: usize) -> (g: Self)
        ensures
            g.spec_lines() == Seq::new(width as nat, |i: int| false),
            g.spec_labels() == Map::<usize, Seq<char>>::empty(),
    {
        let mut lines: Vec<bool> = Vec::new();
        let mut i: usize = 0;
        while i < width
            invariant
                i <= width,
                lines@ == Seq::new(i as nat, |k: int| false),
            decreases width - i,
        {
            lines.push(false);
            i += 1;
            assert(lines@ =~= Seq::new(i as nat, |k: int| false));
        }
        let g = GarbageCount { lines, labels: HashMap::new() };
        assert(g.spec_labels() =~= Map::<usize, Seq<char>>::empty());
        g
    }

    /// Rebuild a tracker from which lines are garbage and the labels of lines.
    pub fn from_parts(lines: Vec<bool>, labels: HashMap<usize, String>) -> (g: Self)
        ensures
            g.spec_lines() == lines@,
            g.spec_labels() == labels@.map_values(|s: String| s@),
    {
        GarbageCount { lines, labels }
    }

    /// Which lines are garbage, by index.
    pub fn lines(&self) -> (r: &[bool])
        ensures
            r@ == self.spec_lines(),
    {
        self.lines.as_slice()
    }

    /// The labels of the lines marked as garbage, by line.
    pub fn labels(&self) -> (r: &HashMap<usize, String>)
        ensures
            r@.map_values(|s: String| s@) == self.spec_labels(),
    {
        &self.labels
    }

    /// Mark output line `index` as garbage, with a label.
    pub fn mark_garbage(&mut self, index: usize, label: String)
        requires
            index < old(self).spec_lines().len(),
        ensures
            final(self).spec_lines() == old(self).spec_lines().update(index as int, true),
            final(self).spec_labels() == old(self).spec_labels().insert(index, label@),
    {
        self.lines.set(index, true);
        let ghost l = label@;
        self.labels.insert(index, label);
        assert(self.spec_labels() =~= old(self).spec_labels().insert(index, l));
    }

    /// Number of lines with `flag`.
    fn count_flag(&self, flag: bool) -> (r: usize)
        ensures
            r == count_lines(self.spec_lines(), flag),
    {
        let ghost lines = self.lines@;
        let mut n: usize = 0;
        let mut k: usize = 0;
        while k < self.lines.len()
            invariant
                k <= lines.len(),
                lines == self.lines@,
                n == count_lines(lines.take(k as int), flag),
                n <= k,
            decreases lines.len() - k,
        {
            proof {
                assert(lines.take(k + 1).drop_last() =~= lines.take(k as int));
            }
            if self.lines[k] == flag {
                n += 1;
            }
            k += 1;
        }
        assert(lines.take(lines.len() as int) =~= lines);
        n
    }

    /// Number of garbage output lines.
    pub fn count(&self) -> (r: usize)
        ensures
            r == count_lines(self.spec_lines(), true),
    {
        self.count_flag(true)
    }

    /// Number of useful (non-garbage) output lines.
    pub fn useful_count(&self) -> (r: usize)
        ensures
            r == count_lines(self.spec_lines(), false),
    {
        self.count_flag(false)
    }

    /// Whether output line `index` is garbage.
    pub fn is_garbage(&self, index: usize) -> (r: bool)
        requires
            index < self.spec_lines().len(),
        ensures
            r == self.spec_lines()[index as int],
    {
        self.lines[index]
    }

    /// The label of line `index`, if it was marked as garbage.
    pub fn label(&self, index: usize) -> (r: Option<&str>)
        ensures
            r is Some <==> self.spec_labels().contains_key(index),
            r matches Some(s) ==> s@ == self.spec_labels()[index],
    {
        match self.labels.get(&index) {
            Some(s) => Some(s.as_str()),
            None => None,
        }
    }
}

/// Every output line is either garbage or useful: the two counts add up to the width.
pub proof fn lemma_garbage_plus_useful(s: Seq<bool>)
    ensures
        count_lines(s, true) + count_lines(s, false) == s.len(),
    decreases s.len(),
{
    if s.len() > 0 {
        lemma_garbage_plus_useful(s.drop_last());
    }
}

} // verus!
