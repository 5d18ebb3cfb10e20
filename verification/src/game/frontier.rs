//! The frontier of the weighted search: a binary min-heap of search states,
//! ordered by cost.

use crate::game::State;
use vstd::multiset::Multiset;
use vstd::prelude::*;

verus! {

/// Every entry costs at least as much as its parent, except that the entry at
/// `hole` may cost less than its parent (`up`) or more than its children
/// (`!up`). In both cases the children of `hole` cost at least as much as its
/// parent.
spec fn ordered_but(s: Seq<State>, hole: int, up: bool) -> bool {
    &&& forall|j: int|
        1 <= j < s.len() && (if up {
            j != hole
        } else {
            (j - 1) / 2 != hole
        }) ==> s[(j - 1) / 2].cost <= (#[trigger] s[j]).cost
    &&& forall|j: int|
        1 <= j < s.len() && hole > 0 && (j - 1) / 2 == hole ==> s[(hole - 1) / 2].cost <= (
        #[trigger] s[j]).cost
}

/// Every entry costs at least as much as its parent.
spec fn ordered(s: Seq<State>) -> bool {
    forall|j: int| 1 <= j < s.len() ==> s[(j - 1) / 2].cost <= (#[trigger] s[j]).cost
}

/// In an ordered heap no entry costs less than the first.
proof fn lemma_first_is_least(s: Seq<State>, i: int)
    requires
        ordered(s),
        0 <= i < s.len(),
    ensures
        s[0].cost <= s[i].cost,
    decreases i,
{
    if i > 0 {
        lemma_first_is_least(s, (i - 1) / 2);
    }
}

/// Replacing an entry takes the old entry out of the contents and puts the new
/// one in.
pub proof fn lemma_update_contents<T>(s: Seq<T>, i: int, v: T)
    requires
        0 <= i < s.len(),
    ensures
        s.update(i, v).to_multiset() == s.to_multiset().remove(s[i]).insert(v),
{
    broadcast use vstd::seq_lib::group_to_multiset_ensures;
    broadcast use vstd::multiset::group_multiset_axioms;

    let u = s.update(i, v);
    assert(u.remove(i) =~= s.remove(i));
    assert(u.remove(i).to_multiset() == u.to_multiset().remove(v));
    assert(s.remove(i).to_multiset() == s.to_multiset().remove(s[i]));
    assert(u.contains(u[i]));
    assert(u.to_multiset().count(v) > 0);
    assert(u.to_multiset() =~= u.to_multiset().remove(v).insert(v));
}

/// Exchanging two entries leaves the contents as they are.
pub proof fn lemma_exchange_contents<T>(s: Seq<T>, i: int, j: int)
    requires
        0 <= i < s.len(),
        0 <= j < s.len(),
    ensures
        s.update(i, s[j]).update(j, s[i]).to_multiset() == s.to_multiset(),
{
    broadcast use vstd::seq_lib::group_to_multiset_ensures;
    broadcast use vstd::multiset::group_multiset_axioms;

    let t = s.update(i, s[j]);
    lemma_update_contents(s, i, s[j]);
    lemma_update_contents(t, j, s[i]);
    assert(s.contains(s[i]));
    assert(s.contains(s[j]));
    if i == j {
        assert(t =~= s);
        assert(t.update(j, s[i]) =~= s);
    } else {
        assert(t[j] == s[j]);
        assert(t.update(j, s[i]).to_multiset() =~= s.to_multiset());
    }
}

/// Moving a cheap entry up by one level keeps the heap ordered but for that
/// entry.
proof fn lemma_rise(s: Seq<State>, i: int)
    requires
        0 < i < s.len(),
        ordered_but(s, i, true),
        s[(i - 1) / 2].cost > s[i].cost,
    ensures
        ordered_but(s.update((i - 1) / 2, s[i]).update(i, s[(i - 1) / 2]), (i - 1) / 2, true),
{
    let p = (i - 1) / 2;
    let t = s.update(p, s[i]).update(i, s[p]);
    assert forall|j: int| 1 <= j < t.len() && j != p implies t[(j - 1) / 2].cost <= (
    #[trigger] t[j]).cost by {
        let q = (j - 1) / 2;
        if j == i {
        } else if q == i {
            assert(s[p].cost <= s[j].cost);
        } else if q == p {
            assert(s[p].cost <= s[j].cost);
        } else {
            assert(s[q].cost <= s[j].cost);
        }
    }
    assert forall|j: int| 1 <= j < t.len() && p > 0 && (j - 1) / 2 == p implies t[(p - 1) / 2].cost <= (
    #[trigger] t[j]).cost by {
        assert(s[(p - 1) / 2].cost <= s[p].cost);
        if j == i {
        } else {
            assert(s[p].cost <= s[j].cost);
        }
    }
}

/// Moving a costly entry down onto its cheaper child keeps the heap ordered
/// but for that entry.
proof fn lemma_sink(s: Seq<State>, i: int, child: int)
    requires
        0 <= i < s.len(),
        ordered_but(s, i, false),
        child == 2 * i + 1 || child == 2 * i + 2,
        child < s.len(),
        s[i].cost > s[child].cost,
        2 * i + 1 < s.len() ==> s[child].cost <= s[2 * i + 1].cost,
        2 * i + 2 < s.len() ==> s[child].cost <= s[2 * i + 2].cost,
    ensures
        ordered_but(s.update(i, s[child]).update(child, s[i]), child, false),
{
    let t = s.update(i, s[child]).update(child, s[i]);
    assert((child - 1) / 2 == i);
    assert forall|j: int| 1 <= j < t.len() && (j - 1) / 2 != child implies t[(j - 1) / 2].cost <= (
    #[trigger] t[j]).cost by {
        let q = (j - 1) / 2;
        if q == i {
            assert(j == 2 * i + 1 || j == 2 * i + 2);
        } else if j == i {
            assert(s[(i - 1) / 2].cost <= s[child].cost);
        } else {
            assert(s[q].cost <= s[j].cost);
        }
    }
    assert forall|j: int| 1 <= j < t.len() && child > 0 && (j - 1) / 2 == child implies t[(child - 1)
        / 2].cost <= (#[trigger] t[j]).cost by {
        assert(s[child].cost <= s[j].cost);
    }
}

/// A heap that is ordered but for an entry that is no cheaper than its parent
/// and no costlier than its children is ordered.
proof fn lemma_settled(s: Seq<State>, i: int, up: bool)
    requires
        0 <= i < s.len(),
        ordered_but(s, i, up),
        up ==> i == 0 || s[(i - 1) / 2].cost <= s[i].cost,
        !up ==> (2 * i + 1 < s.len() ==> s[i].cost <= s[2 * i + 1].cost),
        !up ==> (2 * i + 2 < s.len() ==> s[i].cost <= s[2 * i + 2].cost),
    ensures
        ordered(s),
{
    assert forall|j: int| 1 <= j < s.len() implies s[(j - 1) / 2].cost <= (#[trigger] s[j]).cost by {
        if !up && (j - 1) / 2 == i {
            assert(j == 2 * i + 1 || j == 2 * i + 2);
        }
    }
}

/// The states waiting to be expanded. `pop` hands out one of least cost.
pub struct Frontier {
    entries: Vec<State>,
}

impl View for Frontier {
    type V = Multiset<State>;

    /// The states in the frontier, each as often as it was pushed and not yet
    /// popped.
    closed spec fn view(&self) -> Multiset<State> {
        self.entries@.to_multiset()
    }
}

impl Frontier {
    /// The entries are in heap order.
    pub closed spec fn wf(&self) -> bool {
        ordered(self.entries@)
    }

    /// An empty frontier.
    pub fn new() -> (frontier: Self)
        ensures
            frontier.wf(),
            frontier@ == Multiset::<State>::empty(),
    {
        let frontier = Frontier { entries: Vec::new() };
        proof {
            broadcast use vstd::seq_lib::group_to_multiset_ensures;
            broadcast use vstd::multiset::group_multiset_axioms;

            assert(frontier@.len() == 0);
            assert(frontier@ =~= Multiset::<State>::empty());
        }
        frontier
    }

    /// The number of states in the frontier.
    pub fn len(&self) -> (n: usize)
        ensures
            n == self@.len(),
    {
        proof {
            broadcast use vstd::seq_lib::group_to_multiset_ensures;

        }
        self.entries.len()
    }

    fn exchange(&mut self, i: usize, j: usize)
        requires
            i < old(self).entries@.len(),
            j < old(self).entries@.len(),
        ensures
            final(self).entries@ == old(self).entries@.update(i as int, old(self).entries@[j as int]).update(
                j as int,
                old(self).entries@[i as int],
            ),
            final(self)@ == old(self)@,
    {
        let a = self.entries[i];
        let b = self.entries[j];
        self.entries[i] = b;
        self.entries[j] = a;
        proof {
            lemma_exchange_contents(old(self).entries@, i as int, j as int);
        }
    }

    /// Adds `state` to the frontier.
    pub fn push(&mut self, state: State)
        requires
            old(self).wf(),
        ensures
            final(self).wf(),
            final(self)@ == old(self)@.insert(state),
    {
        proof {
            broadcast use vstd::seq_lib::group_to_multiset_ensures;

        }
        self.entries.push(state);
        let ghost contents = self@;
        let mut i: usize = self.entries.len() - 1;
        assert(ordered_but(self.entries@, i as int, true)) by {
            assert forall|j: int| 1 <= j < self.entries@.len() && j != i implies self.entries@[(j - 1)
                / 2].cost <= (#[trigger] self.entries@[j]).cost by {
                assert(old(self).entries@[(j - 1) / 2].cost <= old(self).entries@[j].cost);
            }
        }
        while i > 0 && self.entries[(i - 1) / 2].cost > self.entries[i].cost
            invariant
                i < self.entries@.len(),
                self@ == contents,
                ordered_but(self.entries@, i as int, true),
            decreases i,
        {
            let parent = (i - 1) / 2;
            proof {
                lemma_rise(self.entries@, i as int);
            }
            self.exchange(parent, i);
            i = parent;
        }
        proof {
            lemma_settled(self.entries@, i as int, true);
        }
    }

    /// Takes a state of least cost out of the frontier; nothing where the
    /// frontier is empty.
    pub fn pop(&mut self) -> (least: Option<State>)
        requires
            old(self).wf(),
        ensures
            final(self).wf(),
            match least {
                Some(state) => {
                    &&& old(self)@.count(state) > 0
                    &&& final(self)@ == old(self)@.remove(state)
                    &&& forall|other: State|
                        old(self)@.count(other) > 0 ==> state.cost <= other.cost
                },
                None => old(self)@.len() == 0 && final(self)@ == old(self)@,
            },
    {
        proof {
            broadcast use vstd::seq_lib::group_to_multiset_ensures;
            broadcast use vstd::multiset::group_multiset_axioms;

        }
        if self.entries.len() == 0 {
            return None;
        }
        let ghost before = self.entries@;
        let top = self.entries[0];
        proof {
            assert(before.contains(before[0]));
            assert forall|other: State| old(self)@.count(other) > 0 implies top.cost
                <= other.cost by {
                assert(before.contains(other));
                let k = choose|k: int| 0 <= k < before.len() && before[k] == other;
                lemma_first_is_least(before, k);
            }
        }
        let last = self.entries.pop().unwrap();
        let ghost shorter = self.entries@;
        assert(before =~= shorter.push(last));
        assert(old(self)@ == shorter.to_multiset().insert(last));
        if self.entries.len() == 0 {
            assert(top == last);
            assert(self@ =~= old(self)@.remove(top));
            return Some(top);
        }
        self.entries[0] = last;
        proof {
            lemma_update_contents(shorter, 0, last);
            assert(shorter[0] == top);
            assert(self@ =~= old(self)@.remove(top));
        }
        let ghost contents = self@;
        let n = self.entries.len();
        let mut i: usize = 0;
        let mut settled = false;
        assert(ordered_but(self.entries@, 0, false)) by {
            assert forall|j: int| 1 <= j < self.entries@.len() && (j - 1) / 2 != 0 implies self.entries@[(
            j - 1) / 2].cost <= (#[trigger] self.entries@[j]).cost by {
                assert(before[(j - 1) / 2].cost <= before[j].cost);
            }
        }
        while !settled
            invariant
                i < n,
                n == self.entries@.len(),
                self@ == contents,
                ordered_but(self.entries@, i as int, false),
                settled ==> ordered(self.entries@),
            decreases n - i, (if settled { 0int } else { 1int }),
        {
            if i > (n - 1) / 2 {
                settled = true;
                proof {
                    lemma_settled(self.entries@, i as int, false);
                }
            } else {
                let left = 2 * i + 1;
                if left >= n {
                    settled = true;
                    proof {
                        lemma_settled(self.entries@, i as int, false);
                    }
                } else {
                    let right = left + 1;
                    let child = if right < n && self.entries[right].cost < self.entries[left].cost {
                        right
                    } else {
                        left
                    };
                    if self.entries[i].cost <= self.entries[child].cost {
                        settled = true;
                        proof {
                            lemma_settled(self.entries@, i as int, false);
                        }
                    } else {
                        proof {
                            lemma_sink(self.entries@, i as int, child as int);
                        }
                        self.exchange(i, child);
                        i = child;
                    }
                }
            }
        }
        Some(top)
    }
}

} // verus!
