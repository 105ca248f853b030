//! The delta tracker: diffs the current import set against the previous one
//! and reports additions and removals.  Any non-empty side of the delta is
//! the supervisor's trigger to recycle the loader.

use vstd::prelude::*;

use crate::imports::{names_set, ImportSet};

verus! {

/// The additions and removals between two import sets.
pub struct ImportDelta {
    /// Members of the current set that the previous one lacked.
    pub added: ImportSet,
    /// Members of the previous set that the current one lacks.
    pub removed: ImportSet,
}

impl ImportDelta {
    /// An empty delta reports no drift.
    pub open spec fn is_empty(self) -> bool {
        self.added@ == Set::<Seq<char>>::empty() && self.removed@ == Set::<Seq<char>>::empty()
    }
}

/// One side of the diff: the members of `from` that `other` lacks.
fn difference_set(from: &ImportSet, other: &ImportSet) -> (d: ImportSet)
    requires
        from.wf(),
    ensures
        d.wf(),
        d@ == from@.difference(other@),
{
    let mut out = ImportSet::new();
    for i in 0..from.modules.len()
        invariant
            out.wf(),
            out@ == names_set(from.modules@.take(i as int)).difference(other@),
    {
        let present = other.contains_name(&from.modules[i]);
        proof {
            let pref = from.modules@.take(i as int);
            let pref1 = from.modules@.take(i + 1);
            assert forall|m: Seq<char>|
                names_set(pref1).contains(m) == names_set(pref).insert(
                    from.modules@[i as int]@,
                ).contains(m) by {
                if names_set(pref1).contains(m) {
                    let j = choose|j: int| 0 <= j < pref1.len() && #[trigger] pref1[j]@ == m;
                    if j < i {
                        assert(pref[j]@ == m);
                    }
                }
                if names_set(pref).contains(m) {
                    let j = choose|j: int| 0 <= j < pref.len() && #[trigger] pref[j]@ == m;
                    assert(pref1[j]@ == m);
                }
                if m == from.modules@[i as int]@ {
                    assert(pref1[i as int]@ == m);
                }
            }
            assert(names_set(pref1) =~= names_set(pref).insert(from.modules@[i as int]@));
        }
        if !present {
            out.insert(from.modules[i].clone());
        }
        proof {
            assert(out@ =~= names_set(from.modules@.take(i + 1)).difference(other@));
        }
    }
    proof {
        assert(from.modules@.take(from.modules@.len() as int) =~= from.modules@);
    }
    out
}

/// The mathematical delta: what `cur` added over `prev`, and what it
/// removed.
pub open spec fn delta_spec(prev: Set<Seq<char>>, cur: Set<Seq<char>>) -> (
    Set<Seq<char>>,
    Set<Seq<char>>,
) {
    (cur.difference(prev), prev.difference(cur))
}

/// Diffs two import sets: what `current` added over `previous`, and what it
/// removed.  Comparison of names is case-sensitive and whitespace-exact.
pub fn compute_delta(previous: &ImportSet, current: &ImportSet) -> (d: ImportDelta)
    requires
        previous.wf(),
        current.wf(),
    ensures
        d.added.wf(),
        d.removed.wf(),
        (d.added@, d.removed@) == delta_spec(previous@, current@),
{
    ImportDelta {
        added: difference_set(current, previous),
        removed: difference_set(previous, current),
    }
}

/// A set diffed against itself has an empty delta on both sides.
pub proof fn lemma_delta_of_equal_sets(s: Set<Seq<char>>)
    ensures
        delta_spec(s, s) == (Set::<Seq<char>>::empty(), Set::<Seq<char>>::empty()),
{
    assert(s.difference(s) =~= Set::<Seq<char>>::empty());
}

/// Growing a set by one member it lacked is a delta of exactly that member
/// added, and nothing removed.
pub proof fn lemma_delta_of_single_addition(s: Set<Seq<char>>, x: Seq<char>)
    requires
        !s.contains(x),
    ensures
        delta_spec(s, s.insert(x)) == (set![x], Set::<Seq<char>>::empty()),
{
    assert(s.insert(x).difference(s) =~= set![x]);
    assert(s.difference(s.insert(x)) =~= Set::<Seq<char>>::empty());
}

/// The delta is antisymmetric: swapping the arguments swaps added and
/// removed.
pub proof fn lemma_delta_antisymmetric(a: Set<Seq<char>>, b: Set<Seq<char>>)
    ensures
        delta_spec(b, a) == (delta_spec(a, b).1, delta_spec(a, b).0),
{
}

} // verus!
