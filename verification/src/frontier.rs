//! The open set of a best-first search: a binary min-heap of ranked cells.
use vstd::prelude::*;
use vstd::multiset::Multiset;

verus! {

/// Cells that wait for expansion, each with the rank it was pushed under.
/// A cell may wait under several ranks at once.
pub struct Frontier {
    entries: Vec<(u64, usize)>,
}

/// The heap slot above slot `k`.
spec fn parent(k: int) -> int {
    (k - 1) / 2
}

/// Whether no slot ranks below the slot above it.
spec fn heap_ordered(s: Seq<(u64, usize)>) -> bool {
    forall|k: int| 1 <= k < s.len() ==> s[#[trigger] parent(k)].0 <= s[k].0
}

impl View for Frontier {
    type V = Multiset<(u64, usize)>;

    /// The waiting entries, in no order.
    closed spec fn view(&self) -> Multiset<(u64, usize)> {
        self.entries@.to_multiset()
    }
}

/// Exchanging two elements keeps the elements.
proof fn lemma_exchange_keeps_elements<A>(s: Seq<A>, i: int, j: int)
    requires
        0 <= i < s.len(),
        0 <= j < s.len(),
    ensures
        s.update(i, s[j]).update(j, s[i]).to_multiset() == s.to_multiset(),
{
    broadcast use vstd::seq_lib::group_to_multiset_ensures;

    let t = s.update(i, s[j]);
    vstd::seq_lib::to_multiset_update(s, i, s[j]);
    vstd::seq_lib::to_multiset_update(t, j, s[i]);
    assert(t[j] == s[j]);
    assert(s.contains(s[i]));
    assert(t.contains(t[j]));
    assert(s.to_multiset().contains(s[i]));
    assert(t.update(j, s[i]).to_multiset() =~= s.to_multiset());
}

/// The first slot of a heap ranks no higher than any other.
proof fn lemma_first_is_least(s: Seq<(u64, usize)>, k: int)
    requires
        heap_ordered(s),
        0 <= k < s.len(),
    ensures
        s[0].0 <= s[k].0,
    decreases k,
{
    if k > 0 {
        lemma_first_is_least(s, parent(k));
        assert(s[parent(k)].0 <= s[k].0);
    }
}

impl Frontier {
    /// Whether the heap order holds.
    pub closed spec fn wf(self) -> bool {
        heap_ordered(self.entries@)
    }

    /// A frontier with nothing in it.
    pub fn new() -> (f: Frontier)
        ensures
            f.wf(),
            f@ == Multiset::<(u64, usize)>::empty(),
            f@.len() == 0,
    {
        let f = Frontier { entries: Vec::new() };
        proof {
            broadcast use vstd::seq_lib::group_to_multiset_ensures;

            assert(f.entries@.len() == 0);
            assert(f@ =~= Multiset::<(u64, usize)>::empty());
        }
        f
    }

    /// Adds `cell` under `rank`.
    pub fn push(&mut self, rank: u64, cell: usize)
        requires
            old(self).wf(),
        ensures
            final(self).wf(),
            final(self)@ == old(self)@.insert((rank, cell)),
            final(self)@.len() == old(self)@.len() + 1,
    {
        let ghost before = self.entries@;
        self.entries.push((rank, cell));
        proof {
            broadcast use vstd::seq_lib::group_to_multiset_ensures;

            assert(self.entries@.to_multiset() =~= before.to_multiset().insert((rank, cell)));
            before.to_multiset_ensures();
            self.entries@.to_multiset_ensures();
        }
        let mut at: usize = self.entries.len() - 1;
        while at > 0
            invariant
                at < self.entries@.len(),
                before == old(self).entries@,
                before.to_multiset().insert((rank, cell)).len() == before.to_multiset().len() + 1,
                self.entries@.to_multiset() == before.to_multiset().insert((rank, cell)),
                forall|k: int|
                    1 <= k < self.entries@.len() && k != at ==> self.entries@[#[trigger] parent(k)].0
                        <= self.entries@[k].0,
                forall|k: int|
                    1 <= k < self.entries@.len() && at > 0 && parent(k) == at ==> self.entries@[parent(at as int)].0
                        <= (#[trigger] self.entries@[k]).0,
            decreases at,
        {
            let above: usize = (at - 1) / 2;
            if self.entries[above].0 <= self.entries[at].0 {
                assert(parent(at as int) == above);
                assert(heap_ordered(self.entries@));
                return;
            }
            let ghost held = self.entries@;
            let low = self.entries[at];
            let high = self.entries[above];
            self.entries.set(at, high);
            self.entries.set(above, low);
            proof {
                lemma_exchange_keeps_elements(held, at as int, above as int);
                assert(self.entries@ =~= held.update(at as int, held[above as int]).update(
                    above as int,
                    held[at as int],
                ));
                assert forall|k: int|
                    1 <= k < self.entries@.len() && k != above implies self.entries@[#[trigger] parent(
                    k,
                )].0 <= self.entries@[k].0 by {
                    assert(k != at ==> held[parent(k)].0 <= held[k].0);
                    if parent(k) == at {
                        assert(held[parent(at as int)].0 <= held[k].0);
                    }
                }
                assert forall|k: int|
                    1 <= k < self.entries@.len() && above > 0 && parent(k)
                        == above implies self.entries@[parent(above as int)].0 <= (
                #[trigger] self.entries@[k]).0 by {
                    assert(held[parent(above as int)].0 <= held[above as int].0);
                    if k != at {
                        assert(held[parent(k)].0 <= held[k].0);
                    }
                }
            }
            at = above;
        }
        assert(heap_ordered(self.entries@));
    }

    /// Takes out an entry of least rank, or reports that nothing waits.
    pub fn pop(&mut self) -> (taken: Option<(u64, usize)>)
        requires
            old(self).wf(),
        ensures
            final(self).wf(),
            taken is None ==> old(self)@ == Multiset::<(u64, usize)>::empty() && final(self)@ == old(self)@,
            taken matches Some(e) ==> {
                &&& old(self)@.contains(e)
                &&& final(self)@ == old(self)@.remove(e)
                &&& final(self)@.len() + 1 == old(self)@.len()
                &&& forall|x: (u64, usize)| #[trigger] old(self)@.contains(x) ==> e.0 <= x.0
            },
    {
        let ghost before = self.entries@;
        proof {
            before.to_multiset_ensures();
        }
        if self.entries.len() == 0 {
            proof {
                assert(self@ =~= Multiset::<(u64, usize)>::empty());
            }
            return None;
        }
        let first = self.entries.swap_remove(0);
        proof {
            broadcast use vstd::seq_lib::group_to_multiset_ensures;

            let n = before.len() as int;
            let shortened = before.drop_last();
            assert(before =~= shortened.push(before[n - 1]));
            if n == 1 {
                assert(self.entries@ =~= shortened);
                assert(first == before[n - 1]);
                assert(before.to_multiset() =~= shortened.to_multiset().insert(first));
                assert(before.to_multiset().remove(first) =~= shortened.to_multiset());
            } else {
                assert(self.entries@ =~= shortened.update(0, before[n - 1]));
                vstd::seq_lib::to_multiset_update(shortened, 0, before[n - 1]);
                assert(shortened.contains(shortened[0]));
                assert(shortened.to_multiset().contains(first));
                assert(before.to_multiset().remove(first) =~= self.entries@.to_multiset());
            }
            self.entries@.to_multiset_ensures();
            assert forall|x: (u64, usize)| #[trigger] before.to_multiset().contains(x) implies first.0
                <= x.0 by {
                assert(before.contains(x));
                let k = choose|k: int| 0 <= k < before.len() && before[k] == x;
                lemma_first_is_least(before, k);
            }
            assert(before.contains(before[0]));
            assert forall|k: int| 1 <= k < self.entries@.len() && parent(k) != 0 implies self.entries@[
            #[trigger] parent(k)].0 <= self.entries@[k].0 by {
                assert(before[parent(k)].0 <= before[k].0);
            }
        }
        let ghost rest = self.entries@.to_multiset();
        let len: usize = self.entries.len();
        let mut at: usize = 0;
        let mut settled: bool = len == 0;
        while !settled
            invariant
                len == self.entries@.len(),
                !settled ==> at < len,
                self.entries@.to_multiset() == rest,
                forall|k: int|
                    1 <= k < len && (settled || parent(k) != at) ==> self.entries@[#[trigger] parent(
                        k,
                    )].0 <= self.entries@[k].0,
                forall|k: int|
                    1 <= k < len && !settled && at > 0 && parent(k) == at ==> self.entries@[parent(
                        at as int,
                    )].0 <= (#[trigger] self.entries@[k]).0,
            decreases (if settled { 0int } else { len - at + 1 }),
        {
            let ghost held = self.entries@;
            if at >= len - at - 1 {
                // No child slot exists.
                assert(forall|k: int| 1 <= k < len ==> parent(k) != at);
                settled = true;
            } else {
                let left: usize = at + at + 1;
                let mut least: usize = left;
                if left + 1 < len && self.entries[left + 1].0 < self.entries[left].0 {
                    least = left + 1;
                }
                assert(parent(left as int) == at && parent(left + 1) == at);
                assert(forall|k: int|
                    1 <= k < len && parent(k) == at ==> held[least as int].0 <= (#[trigger] held[k]).0)
                    by {
                    assert(forall|k: int| 1 <= k && parent(k) == at ==> k == left || k == left + 1);
                }
                if self.entries[at].0 <= self.entries[least].0 {
                    settled = true;
                    assert forall|k: int| 1 <= k < len implies held[#[trigger] parent(k)].0 <= held[k].0 by {
                        if parent(k) == at {
                            assert(held[least as int].0 <= held[k].0);
                        }
                    }
                } else {
                    let high = self.entries[at];
                    let low = self.entries[least];
                    self.entries.set(at, low);
                    self.entries.set(least, high);
                    proof {
                        lemma_exchange_keeps_elements(held, at as int, least as int);
                        assert(self.entries@ =~= held.update(at as int, held[least as int]).update(
                            least as int,
                            held[at as int],
                        ));
                        assert forall|k: int| 1 <= k < len && parent(k) != least implies self.entries@[
                        #[trigger] parent(k)].0 <= self.entries@[k].0 by {
                            if parent(k) == at {
                                assert(held[least as int].0 <= held[k].0);
                            } else {
                                assert(held[parent(k)].0 <= held[k].0);
                            }
                        }
                        assert forall|k: int| 1 <= k < len && parent(k) == least implies self.entries@[parent(
                            least as int,
                        )].0 <= (#[trigger] self.entries@[k]).0 by {
                            assert(held[parent(k)].0 <= held[k].0);
                        }
                    }
                    at = least;
                }
            }
        }
        assert(heap_ordered(self.entries@));
        Some(first)
    }
}

} // verus!
