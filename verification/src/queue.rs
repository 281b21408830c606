use vstd::prelude::*;
use vstd::multiset::Multiset;

verus! {

/// A candidate merge: the linkage weight and the two clusters, smaller index first.
pub type Candidate = (u64, usize, usize);

/// Whether `a` comes before `b` or equals it: by weight, then by the first cluster, then
/// by the second.
pub open spec fn candidate_le(a: Candidate, b: Candidate) -> bool {
    a.0 < b.0 || (a.0 == b.0 && (a.1 < b.1 || (a.1 == b.1 && a.2 <= b.2)))
}

/// The place of the parent of place `i` in a heap.
pub open spec fn parent(i: int) -> int {
    (i - 1) / 2
}

/// Every candidate but the first comes before its parent or equals it.
pub open spec fn heap_ordered(s: Seq<Candidate>) -> bool {
    forall|i: int| 1 <= i < s.len() ==> candidate_le(#[trigger] s[i], s[parent(i)])
}

/// The candidates that wait for their turn, kept as a heap; the largest leaves first.
pub struct PairQueue {
    pub items: Vec<Candidate>,
}

impl View for PairQueue {
    type V = Multiset<Candidate>;

    open spec fn view(&self) -> Multiset<Candidate> {
        self.items@.to_multiset()
    }
}

/// Whether `a` comes before `b` or equals it.
pub fn le(a: Candidate, b: Candidate) -> (r: bool)
    ensures
        r == candidate_le(a, b),
{
    a.0 < b.0 || (a.0 == b.0 && (a.1 < b.1 || (a.1 == b.1 && a.2 <= b.2)))
}

/// In a heap the first candidate is the largest.
pub proof fn lemma_root_largest(s: Seq<Candidate>, i: int)
    requires
        heap_ordered(s),
        0 <= i < s.len(),
    ensures
        candidate_le(s[i], s[0]),
    decreases i,
{
    if i > 0 {
        lemma_root_largest(s, parent(i));
    }
}

/// Two candidates that change places leave the same candidates.
proof fn lemma_swap_same(s: Seq<Candidate>, i: int, j: int)
    requires
        0 <= i < s.len(),
        0 <= j < s.len(),
    ensures
        s.update(i, s[j]).update(j, s[i]).to_multiset() == s.to_multiset(),
{
    broadcast use vstd::multiset::group_multiset_axioms;

    vstd::seq_lib::to_multiset_update(s, i, s[j]);
    vstd::seq_lib::to_multiset_update(s.update(i, s[j]), j, s[i]);
    s.to_multiset_ensures();
    if i == j {
        assert(s.update(i, s[j]).update(j, s[i]) =~= s);
    } else {
        assert(s.to_multiset().count(s[i]) > 0);
        assert(s.to_multiset().count(s[j]) > 0);
        assert(s.update(i, s[j]).update(j, s[i]).to_multiset() =~= s.to_multiset());
    }
}

impl PairQueue {
    /// The candidates are kept as a heap.
    pub open spec fn wf(&self) -> bool {
        heap_ordered(self.items@)
    }

    /// A queue without candidates.
    pub fn new() -> (q: Self)
        ensures
            q.wf(),
            q@ == Multiset::<Candidate>::empty(),
    {
        let q = PairQueue { items: Vec::new() };
        assert(q.items@.to_multiset() =~= Multiset::<Candidate>::empty()) by {
            q.items@.to_multiset_ensures();
        }
        q
    }

    /// The number of candidates that wait.
    pub fn len(&self) -> (n: usize)
        ensures
            n == self@.len(),
    {
        proof {
            self.items@.to_multiset_ensures();
        }
        self.items.len()
    }

    /// Lets the two candidates change places.
    fn swap(&mut self, i: usize, j: usize)
        requires
            i < old(self).items@.len(),
            j < old(self).items@.len(),
        ensures
            final(self).items@ == old(self).items@.update(i as int, old(self).items@[j as int]).update(
                j as int,
                old(self).items@[i as int],
            ),
            final(self)@ == old(self)@,
    {
        proof {
            lemma_swap_same(self.items@, i as int, j as int);
        }
        let a = self.items[i];
        let b = self.items[j];
        self.items[i] = b;
        self.items[j] = a;
    }

    /// Adds a candidate.
    pub fn push(&mut self, c: Candidate)
        requires
            old(self).wf(),
        ensures
            final(self).wf(),
            final(self)@ == old(self)@.insert(c),
    {
        proof {
            self.items@.to_multiset_ensures();
        }
        self.items.push(c);
        let ghost all = self@;
        let mut i: usize = self.items.len() - 1;
        while i > 0
            invariant
                i < self.items@.len(),
                self@ == all,
                forall|j: int|
                    1 <= j < self.items@.len() && j != i ==> candidate_le(
                        #[trigger] self.items@[j],
                        self.items@[parent(j)],
                    ),
                forall|j: int|
                    1 <= j < self.items@.len() && parent(j) == i && i >= 1 ==> candidate_le(
                        #[trigger] self.items@[j],
                        self.items@[parent(i as int)],
                    ),
            ensures
                heap_ordered(self.items@),
                self@ == all,
            decreases i,
        {
            let p = (i - 1) / 2;
            if le(self.items[i], self.items[p]) {
                break ;
            }
            let ghost before = self.items@;
            self.swap(i, p);
            proof {
                assert forall|j: int| 1 <= j < self.items@.len() && j != p implies candidate_le(
                    #[trigger] self.items@[j],
                    self.items@[parent(j)],
                ) by {
                    if j == i {
                    } else if parent(j) == i {
                        assert(candidate_le(before[j], before[p as int]));
                    } else if parent(j) == p {
                        assert(candidate_le(before[j], before[p as int]));
                    } else {
                        assert(candidate_le(before[j], before[parent(j)]));
                    }
                }
                assert forall|j: int|
                    1 <= j < self.items@.len() && parent(j) == p && p >= 1 implies candidate_le(
                    #[trigger] self.items@[j],
                    self.items@[parent(p as int)],
                ) by {
                    if j == i {
                        assert(candidate_le(before[p as int], before[parent(p as int)]));
                    } else {
                        assert(candidate_le(before[j], before[p as int]));
                        assert(candidate_le(before[p as int], before[parent(p as int)]));
                    }
                }
            }
            i = p;
        }
    }

    /// Takes the largest candidate out, if there is any.
    pub fn pop(&mut self) -> (r: Option<Candidate>)
        requires
            old(self).wf(),
        ensures
            final(self).wf(),
            old(self)@.len() == 0 ==> r.is_none() && final(self)@ == old(self)@,
            old(self)@.len() > 0 ==> r.is_some() && old(self)@.contains(r.unwrap()) && final(self)@
                == old(self)@.remove(r.unwrap()) && final(self)@.len() == old(self)@.len() - 1
                && forall|c: Candidate| old(self)@.contains(c) ==> candidate_le(c, r.unwrap()),
            forall|c: Candidate| final(self)@.contains(c) ==> old(self)@.contains(c),
    {
        proof {
            self.items@.to_multiset_ensures();
        }
        let n = self.items.len();
        if n == 0 {
            return None;
        }
        let ghost start = self.items@;
        proof {
            assert forall|c: Candidate| start.to_multiset().contains(c) implies candidate_le(
                c,
                start[0],
            ) by {
                assert(start.contains(c));
                let k = choose|k: int| 0 <= k < start.len() && start[k] == c;
                lemma_root_largest(start, k);
            }
            assert(start.contains(start[0]));
        }
        self.swap(0, n - 1);
        let ghost swapped = self.items@;
        let top = self.items.pop().unwrap();
        proof {
            assert(top == start[0]);
            assert(self.items@ =~= swapped.remove(n - 1));
            vstd::seq_lib::to_multiset_remove(swapped, n - 1);
            self.items@.to_multiset_ensures();
            assert forall|c: Candidate| self@.contains(c) implies start.to_multiset().contains(c) by {
                broadcast use vstd::multiset::group_multiset_axioms;

            }
            assert forall|j: int| 1 <= j < self.items@.len() && parent(j) != 0 implies candidate_le(
                #[trigger] self.items@[j],
                self.items@[parent(j)],
            ) by {
                assert(candidate_le(start[j], start[parent(j)]));
            }
        }
        let ghost rest = self@;
        let m = self.items.len();
        let mut i: usize = 0;
        loop
            invariant
                m == self.items@.len(),
                i < m || m == 0,
                self@ == rest,
                forall|j: int|
                    1 <= j < m && parent(j) != i ==> candidate_le(
                        #[trigger] self.items@[j],
                        self.items@[parent(j)],
                    ),
                forall|j: int|
                    1 <= j < m && parent(j) == i && i >= 1 ==> candidate_le(
                        #[trigger] self.items@[j],
                        self.items@[parent(i as int)],
                    ),
            ensures
                heap_ordered(self.items@),
                self@ == rest,
            decreases m - i,
        {
            if m == 0 || i >= m / 2 {
                proof {
                    assert forall|j: int| 1 <= j < m implies candidate_le(
                        #[trigger] self.items@[j],
                        self.items@[parent(j)],
                    ) by {
                        assert(parent(j) != i);
                    }
                }
                break ;
            }
            let left = 2 * i + 1;
            let right = left + 1;
            let mut big = left;
            if right < m && !le(self.items[right], self.items[left]) {
                big = right;
            }
            if le(self.items[big], self.items[i]) {
                proof {
                    assert forall|j: int| 1 <= j < m implies candidate_le(
                        #[trigger] self.items@[j],
                        self.items@[parent(j)],
                    ) by {
                        if parent(j) == i {
                            assert(j == left || j == right);
                        }
                    }
                }
                break ;
            }
            let ghost before = self.items@;
            self.swap(i, big);
            proof {
                assert forall|j: int| 1 <= j < m && parent(j) != big implies candidate_le(
                    #[trigger] self.items@[j],
                    self.items@[parent(j)],
                ) by {
                    if j == big {
                    } else if parent(j) == i {
                        assert(j == left || j == right);
                    } else if j == i {
                        assert(candidate_le(before[big as int], before[parent(i as int)]));
                    } else {
                        assert(candidate_le(before[j], before[parent(j)]));
                    }
                }
                assert forall|j: int|
                    1 <= j < m && parent(j) == big && big >= 1 implies candidate_le(
                    #[trigger] self.items@[j],
                    self.items@[parent(big as int)],
                ) by {
                    assert(candidate_le(before[j], before[big as int]));
                }
            }
            i = big;
        }
        Some(top)
    }
}

} // verus!
