//! Relations: duplicate-free sets of tuples, kept in ascending order.

use vstd::prelude::*;
use crate::value::{Val, Value, models, compare_tuples, tuples_equal, lemma_cmp_seq, lemma_cmp_seq_trans, cmp_seq};

verus! {

/// The models of a list of tuples, one per tuple.
pub open spec fn rows_of(s: Seq<Vec<Value>>) -> Seq<Seq<Val>> {
    Seq::new(s.len(), |i: int| models(s[i]@))
}

/// A set of tuples without duplicates, kept in ascending order.
#[derive(Debug)]
pub struct Relation {
    tuples: Vec<Vec<Value>>,
}

impl Relation {
    /// The tuples in the order they are held.
    pub closed spec fn rows(&self) -> Seq<Seq<Val>> {
        rows_of(self.tuples@)
    }

    /// What the relation holds, as a set.
    pub open spec fn contents(&self) -> Set<Seq<Val>> {
        self.rows().to_set()
    }

    /// The tuples are held in strictly ascending order, so none twice.
    pub open spec fn wf(&self) -> bool {
        &&& self.rows().no_duplicates()
        &&& forall|i: int, j: int|
            0 <= i < j < self.rows().len() ==> cmp_seq(#[trigger] self.rows()[i], #[trigger] self.rows()[j]) < 0
    }

    /// The empty relation.
    pub fn new() -> (r: Relation)
        ensures
            r.wf(),
            r.rows() == Seq::<Seq<Val>>::empty(),
            r.contents() == Set::<Seq<Val>>::empty(),
    {
        let r = Relation { tuples: Vec::new() };
        assert(r.rows() =~= Seq::<Seq<Val>>::empty());
        assert(r.contents() =~= Set::<Seq<Val>>::empty());
        r
    }

    /// The number of tuples.
    pub fn len(&self) -> (n: usize)
        ensures
            n == self.rows().len(),
    {
        self.tuples.len()
    }

    /// The tuple at position `i`.
    pub fn tuple(&self, i: usize) -> (t: &Vec<Value>)
        requires
            i < self.rows().len(),
        ensures
            models(t@) == self.rows()[i as int],
    {
        &self.tuples[i]
    }

    /// Where `t` is held, if it is.
    pub fn position(&self, t: &Vec<Value>) -> (r: Option<usize>)
        ensures
            match r {
                Some(i) => i < self.rows().len() && self.rows()[i as int] == models(t@),
                None => !self.contents().contains(models(t@)),
            },
    {
        let mut i: usize = 0;
        while i < self.tuples.len()
            invariant
                i <= self.tuples.len(),
                forall|j: int| 0 <= j < i ==> self.rows()[j] != models(t@),
            decreases self.tuples.len() - i,
        {
            if tuples_equal(&self.tuples[i], t) {
                return Some(i);
            }
            i = i + 1;
        }
        None
    }

    /// Whether `t` is held.
    pub fn contains(&self, t: &Vec<Value>) -> (r: bool)
        ensures
            r == self.contents().contains(models(t@)),
    {
        match self.position(t) {
            Some(_) => true,
            None => false,
        }
    }

    /// Adds `t`; returns whether it was new. Adding a tuple that is held
    /// already changes nothing.
    pub fn insert(&mut self, t: Vec<Value>) -> (added: bool)
        requires
            old(self).wf(),
        ensures
            final(self).wf(),
            final(self).contents() == old(self).contents().insert(models(t@)),
            added == !old(self).contents().contains(models(t@)),
            !added ==> final(self).rows() == old(self).rows(),
    {
        if self.contains(&t) {
            return false;
        }
        let ghost m = models(t@);
        let mut k: usize = 0;
        while k < self.tuples.len()
            invariant
                k <= self.tuples.len(),
                m == models(t@),
                forall|i: int| 0 <= i < k ==> cmp_seq(#[trigger] self.rows()[i], m) <= 0,
            ensures
                k <= self.tuples.len(),
                forall|i: int| 0 <= i < k ==> cmp_seq(#[trigger] self.rows()[i], m) <= 0,
                k < self.tuples.len() ==> cmp_seq(self.rows()[k as int], m) > 0,
            decreases self.tuples.len() - k,
        {
            if compare_tuples(&self.tuples[k], &t) > 0 {
                break;
            }
            k = k + 1;
        }
        let ghost before = self.rows();
        self.tuples.insert(k, t);
        proof {
            assert(self.rows() =~= before.insert(k as int, m));
            assert forall|x: Seq<Val>| #[trigger] self.contents().contains(x) <==> before.to_set().insert(
                m,
            ).contains(x) by {
                if self.contents().contains(x) {
                    let j = choose|j: int| 0 <= j < self.rows().len() && self.rows()[j] == x;
                    if j != k {
                        let jj = if j < k { j } else { j - 1 };
                        assert(before[jj] == x);
                    }
                }
                if before.to_set().contains(x) {
                    let j = choose|j: int| 0 <= j < before.len() && before[j] == x;
                    let jj = if j < k { j } else { j + 1 };
                    assert(self.rows()[jj] == x);
                }
                if x == m {
                    assert(self.rows()[k as int] == x);
                }
            }
            assert(self.contents() =~= before.to_set().insert(m));
            assert forall|i: int, j: int|
                0 <= i < self.rows().len() && 0 <= j < self.rows().len() && i != j implies
                self.rows()[i] != self.rows()[j] by {
                if i != k && j != k {
                    let ii = if i < k { i } else { i - 1 };
                    let jj = if j < k { j } else { j - 1 };
                    assert(before[ii] == self.rows()[i]);
                    assert(before[jj] == self.rows()[j]);
                } else if i == k {
                    let jj = if j < k { j } else { j - 1 };
                    assert(before[jj] == self.rows()[j]);
                    assert(before.to_set().contains(before[jj]));
                } else {
                    let ii = if i < k { i } else { i - 1 };
                    assert(before[ii] == self.rows()[i]);
                    assert(before.to_set().contains(before[ii]));
                }
            }
            let out = self.rows();
            assert forall|i: int, j: int| 0 <= i < j < out.len() implies cmp_seq(#[trigger] out[i], #[trigger] out[j]) < 0 by {
                if i != k && j != k {
                    let ii = if i < k { i } else { i - 1 };
                    let jj = if j < k { j } else { j - 1 };
                    assert(before[ii] == out[i] && before[jj] == out[j]);
                } else if j == k {
                    assert(before[i] == out[i]);
                    lemma_cmp_seq(before[i], m);
                    assert(before.to_set().contains(before[i]));
                } else {
                    assert(before[j - 1] == out[j]);
                    lemma_cmp_seq(before[k as int], m);
                    lemma_cmp_seq(m, before[j - 1]);
                    if j - 1 > k {
                        lemma_cmp_seq_trans(m, before[k as int], before[j - 1]);
                    }
                    assert(before.to_set().contains(before[j - 1]));
                }
            }
        }
        true
    }

    /// Takes `t` out; returns whether it was held.
    pub fn remove(&mut self, t: &Vec<Value>) -> (removed: bool)
        requires
            old(self).wf(),
        ensures
            final(self).wf(),
            final(self).contents() == old(self).contents().remove(models(t@)),
            removed == old(self).contents().contains(models(t@)),
    {
        match self.position(t) {
            None => {
                assert(self.contents() =~= self.contents().remove(models(t@)));
                false
            },
            Some(k) => {
                let ghost before = self.rows();
                let ghost m = models(t@);
                self.tuples.remove(k);
                proof {
                    assert(self.rows() =~= before.remove(k as int));
                    assert forall|x: Seq<Val>| #[trigger] self.contents().contains(x) <==> before.to_set().remove(
                        m,
                    ).contains(x) by {
                        if self.contents().contains(x) {
                            let j = choose|j: int| 0 <= j < self.rows().len() && self.rows()[j] == x;
                            let jj = if j < k { j } else { j + 1 };
                            assert(before[jj] == x);
                            assert(jj != k);
                        }
                        if before.to_set().remove(m).contains(x) {
                            let j = choose|j: int| 0 <= j < before.len() && before[j] == x;
                            assert(j != k);
                            let jj = if j < k { j } else { j - 1 };
                            assert(self.rows()[jj] == x);
                        }
                    }
                    assert(self.contents() =~= before.to_set().remove(m));
                    let out = self.rows();
                    assert forall|i: int, j: int| 0 <= i < j < out.len() implies cmp_seq(#[trigger] out[i], #[trigger] out[j]) < 0 by {
                        let ii = if i < k { i } else { i + 1 };
                        let jj = if j < k { j } else { j + 1 };
                        assert(before[ii] == out[i] && before[jj] == out[j]);
                    }
                }
                true
            },
        }
    }
}

/// The rows of each of a list of relations.
pub open spec fn input_rows(inputs: Seq<&Relation>) -> Seq<Seq<Seq<Val>>> {
    Seq::new(inputs.len(), |i: int| inputs[i].rows())
}

impl Relation {
    /// The tuples, in the order they are held.
    pub fn tuples(&self) -> (r: &Vec<Vec<Value>>)
        ensures
            rows_of(r@) == self.rows(),
    {
        &self.tuples
    }
}

} // verus!
