use vstd::prelude::*;
use crate::network::Network;

verus! {

/// How many of the nodes `idx` are not yet done.
pub open spec fn pending(idx: Seq<usize>, done: Seq<bool>) -> nat
    decreases idx.len(),
{
    if idx.len() == 0 {
        0
    } else {
        pending(idx.drop_last(), done) + if done[idx.last() as int] {
            0nat
        } else {
            1nat
        }
    }
}

proof fn lemma_pending_flip(idx: Seq<usize>, done: Seq<bool>, x: usize)
    requires
        idx.no_duplicates(),
        (x as int) < done.len(),
        !done[x as int],
        forall|k: int| 0 <= k < idx.len() ==> (idx[k] as int) < done.len(),
    ensures
        idx.contains(x) ==> pending(idx, done.update(x as int, true)) + 1 == pending(idx, done),
        !idx.contains(x) ==> pending(idx, done.update(x as int, true)) == pending(idx, done),
    decreases idx.len(),
{
    if idx.len() > 0 {
        let init = idx.drop_last();
        assert(init.no_duplicates());
        lemma_pending_flip(init, done, x);
        if idx.last() == x {
            assert(!init.contains(x));
        } else {
            assert(idx.contains(x) ==> init.contains(x)) by {
                if idx.contains(x) {
                    let k = choose|k: int| 0 <= k < idx.len() && idx[k] == x;
                    assert(init[k] == x);
                }
            }
            assert(init.contains(x) ==> idx.contains(x)) by {
                if init.contains(x) {
                    let k = choose|k: int| 0 <= k < init.len() && init[k] == x;
                    assert(idx[k] == x);
                }
            }
        }
    }
}

proof fn lemma_pending_zero(idx: Seq<usize>, done: Seq<bool>)
    ensures
        pending(idx, done) == 0 <==> forall|k: int| 0 <= k < idx.len() ==> done[idx[k] as int],
    decreases idx.len(),
{
    if idx.len() > 0 {
        let init = idx.drop_last();
        lemma_pending_zero(init, done);
        if pending(idx, done) == 0 {
            assert forall|k: int| 0 <= k < idx.len() implies done[idx[k] as int] by {
                if k < init.len() {
                    assert(idx[k] == init[k]);
                }
            }
        }
        if forall|k: int| 0 <= k < idx.len() ==> done[idx[k] as int] {
            assert forall|k: int| 0 <= k < init.len() implies done[init[k] as int] by {
                assert(idx[k] == init[k]);
            }
            assert(done[idx[idx.len() - 1] as int]);
        }
    }
}

proof fn lemma_pending_none(idx: Seq<usize>, done: Seq<bool>)
    requires
        forall|k: int| 0 <= k < idx.len() ==> !done[idx[k] as int],
    ensures
        pending(idx, done) == idx.len(),
    decreases idx.len(),
{
    if idx.len() > 0 {
        let init = idx.drop_last();
        assert forall|k: int| 0 <= k < init.len() implies !done[init[k] as int] by {
            assert(init[k] == idx[k]);
        }
        lemma_pending_none(init, done);
    }
}

/// A list of distinct indices below `n` is at most `n` long, and shorter
/// exactly when it misses one of them.
pub proof fn lemma_seq_bound(seq: Seq<usize>, n: usize)
    requires
        seq.no_duplicates(),
        forall|j: int| 0 <= j < seq.len() ==> seq[j] < n,
    ensures
        seq.len() <= n,
        seq.len() < n <==> exists|x: usize| x < n && !seq.contains(x),
{
    broadcast use vstd::set_lib::range_set_properties;
    seq.unique_seq_to_set();
    let s = seq.to_set();
    let r = Set::<usize>::range(0, n);
    assert(s.subset_of(r));
    vstd::set_lib::lemma_len_subset(s, r);
    if exists|x: usize| x < n && !seq.contains(x) {
        let x = choose|x: usize| x < n && !seq.contains(x);
        assert(s.subset_of(r.remove(x)));
        vstd::set_lib::lemma_len_subset(s, r.remove(x));
    } else {
        assert(r.subset_of(s));
        vstd::set_lib::lemma_len_subset(r, s);
    }
}

impl Network {
    /// Some set of nodes in which each node has an input: following inputs
    /// upstream from it never ends, so the links hold a cycle.
    pub open spec fn has_cycle(&self) -> bool {
        exists|s: Set<int>| self.feeds_itself(s)
    }

    /// A nonempty set of nodes in which each node has an input.
    pub open spec fn feeds_itself(&self, s: Set<int>) -> bool {
        &&& exists|i: int| s.contains(i)
        &&& forall|i: int|
            #![trigger s.contains(i)]
            s.contains(i) ==> 0 <= i < self.nodes@.len() && exists|k: int|
                0 <= k < self.nodes@[i].inputs@.len() && s.contains(
                    self.nodes@[i].inputs@[k] as int,
                )
    }

    /// `seq` lists every node once, each after all of its inputs.
    pub open spec fn upstream_first(&self, seq: Seq<usize>) -> bool {
        &&& seq.len() == self.nodes@.len()
        &&& seq.no_duplicates()
        &&& forall|j: int| 0 <= j < seq.len() ==> (seq[j] as int) < self.nodes@.len()
        &&& forall|j: int, k: int|
            #![trigger self.nodes@[seq[j] as int].inputs@[k]]
            0 <= j < seq.len() && 0 <= k < self.nodes@[seq[j] as int].inputs@.len()
                ==> seq.subrange(0, j).contains(self.nodes@[seq[j] as int].inputs@[k])
    }

    proof fn lemma_prefix_outside(&self, seq: Seq<usize>, s: Set<int>, m: int)
        requires
            self.upstream_first(seq),
            self.feeds_itself(s),
            0 <= m <= seq.len(),
        ensures
            forall|p: int| 0 <= p < m ==> !s.contains(#[trigger] seq[p] as int),
        decreases m,
    {
        if m > 0 {
            self.lemma_prefix_outside(seq, s, m - 1);
            let x = seq[m - 1] as int;
            if s.contains(x) {
                let k = choose|k: int|
                    0 <= k < self.nodes@[x].inputs@.len() && s.contains(self.nodes@[x].inputs@[k] as int);
                let c = self.nodes@[x].inputs@[k];
                let pre = seq.subrange(0, m - 1);
                assert(pre.contains(c));
                let p = choose|p: int| 0 <= p < pre.len() && pre[p] == c;
                assert(seq[p] == c);
            }
        }
    }

    /// Where every node can be handled after its inputs, the links hold no cycle.
    pub proof fn lemma_upstream_first_acyclic(&self, seq: Seq<usize>)
        requires
            self.upstream_first(seq),
            self.nodes@.len() <= usize::MAX,
        ensures
            !self.has_cycle(),
    {
        if self.has_cycle() {
            let s = choose|s: Set<int>| self.feeds_itself(s);
            let i = choose|i: int| s.contains(i);
            self.lemma_prefix_outside(seq, s, seq.len() as int);
            lemma_seq_bound(seq, seq.len() as usize);
            assert(seq.contains(i as usize));
            let p = choose|p: int| 0 <= p < seq.len() && seq[p] == i as usize;
            assert(!s.contains(seq[p] as int));
        }
    }

    /// An order that handles each node after its inputs, or none where the
    /// links hold a cycle.
    pub fn upstream_order(&self) -> (r: Option<Vec<usize>>)
        requires
            self.wf(),
        ensures
            match r {
                Some(seq) => self.upstream_first(seq@),
                None => self.has_cycle(),
            },
    {
        let n = self.nodes.len();
        let ghost ins = self.inputs();
        let mut done: Vec<bool> = Vec::new();
        let mut waiting: Vec<usize> = Vec::new();
        let mut ready: Vec<usize> = Vec::new();
        let mut i: usize = 0;
        while i < n
            invariant
                n == self.nodes@.len(),
                ins == self.inputs(),
                i <= n,
                done@.len() == i,
                waiting@.len() == i,
                forall|j: int| 0 <= j < i ==> !done@[j],
                forall|j: int| 0 <= j < i ==> waiting@[j] == self.nodes@[j].inputs@.len(),
                forall|j: int| 0 <= j < ready@.len() ==> (ready@[j] as int) < i,
                forall|j: int| 0 <= j < ready@.len() ==> waiting@[ready@[j] as int] == 0,
                forall|j: int| 0 <= j < i && waiting@[j] == 0 ==> ready@.contains(j as usize),
                ready@.no_duplicates(),
            decreases n - i,
        {
            let ghost old_ready = ready@;
            done.push(false);
            waiting.push(self.nodes[i].inputs.len());
            if self.nodes[i].inputs.len() == 0 {
                ready.push(i);
            }
            proof {
                assert forall|j: int| 0 <= j <= i && waiting@[j] == 0 implies ready@.contains(j as usize) by {
                    if j < i {
                        assert(old_ready.contains(j as usize));
                        let k = choose|k: int| 0 <= k < old_ready.len() && old_ready[k] == j as usize;
                        assert(ready@[k] == j as usize);
                    } else {
                        assert(ready@.last() == i);
                    }
                }
            }
            i = i + 1;
        }
        proof {
            assert forall|j: int| 0 <= j < n implies waiting@[j] == pending(ins[j], done@) by {
                assert forall|k: int| 0 <= k < ins[j].len() implies !done@[ins[j][k] as int] by {
                    assert(self.nodes@[j].inputs@[k] < n);
                }
                lemma_pending_none(ins[j], done@);
            }
        }
        let mut seq: Vec<usize> = Vec::new();
        while ready.len() > 0
            invariant
                self.wf(),
                n == self.nodes@.len(),
                ins == self.inputs(),
                done@.len() == n,
                waiting@.len() == n,
                forall|j: int| 0 <= j < n ==> waiting@[j] == pending(#[trigger] ins[j], done@),
                forall|j: int| 0 <= j < ready@.len() ==> (ready@[j] as int) < n,
                forall|j: int| 0 <= j < ready@.len() ==> waiting@[ready@[j] as int] == 0,
                forall|j: int| 0 <= j < ready@.len() ==> !done@[ready@[j] as int],
                forall|j: int|
                    0 <= j < n && !done@[j] && waiting@[j] == 0 ==> ready@.contains(j as usize),
                forall|j: int| 0 <= j < n && done@[j] ==> waiting@[j] == 0,
                ready@.no_duplicates(),
                seq@.no_duplicates(),
                forall|j: int| 0 <= j < seq@.len() ==> (seq@[j] as int) < n,
                forall|x: int| 0 <= x < n ==> (done@[x] <==> seq@.contains(x as usize)),
                forall|j: int, k: int|
                    #![trigger self.nodes@[seq@[j] as int].inputs@[k]]
                    0 <= j < seq@.len() && 0 <= k < self.nodes@[seq@[j] as int].inputs@.len()
                        ==> seq@.subrange(0, j).contains(self.nodes@[seq@[j] as int].inputs@[k]),
            decreases n - seq@.len(),
        {
            let ghost old_done = done@;
            let ghost old_seq = seq@;
            let ghost old_ready = ready@;
            let ghost old_waiting = waiting@;
            let x = ready.pop().unwrap();
            proof {
                assert(x == old_ready.last());
                assert(!old_seq.contains(x));
                lemma_seq_bound(old_seq, n as usize);
                lemma_pending_zero(ins[x as int], done@);
                assert forall|j: int| 0 <= j < ready@.len() implies ready@[j] != x by {
                    assert(old_ready[j] == ready@[j]);
                    assert(old_ready[old_ready.len() - 1] == x);
                }
            }
            done.set(x, true);
            seq.push(x);
            proof {
                assert forall|k: int| 0 <= k < ins[x as int].len() implies old_seq.contains(
                    ins[x as int][k],
                ) by {
                    assert(self.nodes@[x as int].inputs@[k] < n);
                }
                assert(seq@.subrange(0, old_seq.len() as int) =~= old_seq);
                assert forall|j: int, k: int|
                    0 <= j < seq@.len() && 0 <= k < self.nodes@[seq@[j] as int].inputs@.len()
                        implies seq@.subrange(0, j).contains(
                    self.nodes@[seq@[j] as int].inputs@[k],
                ) by {
                    if j < old_seq.len() {
                        assert(seq@.subrange(0, j) =~= old_seq.subrange(0, j));
                        assert(seq@[j] == old_seq[j]);
                    } else {
                        assert(seq@[j] == x);
                    }
                }
                assert forall|y: int| 0 <= y < n implies (done@[y] <==> seq@.contains(y as usize)) by {
                    if y == x {
                        assert(seq@.last() == x);
                    } else if old_seq.contains(y as usize) {
                        let k = choose|k: int| 0 <= k < old_seq.len() && old_seq[k] == y as usize;
                        assert(seq@[k] == y as usize);
                    } else if seq@.contains(y as usize) {
                        let k = choose|k: int| 0 <= k < seq@.len() && seq@[k] == y as usize;
                        assert(k < old_seq.len());
                        assert(old_seq[k] == y as usize);
                    }
                }
            }
            match self.nodes[x].output {
                Some(o) => {
                    proof {
                        assert(self.outputs()[x as int] == Some(o));
                        assert(ins[o as int].contains(x));
                        lemma_pending_flip(ins[o as int], old_done, x);
                        assert forall|j: int| 0 <= j < n && j != o implies !(#[trigger] ins[j]).contains(x) by {
                            if ins[j].contains(x) {
                                let k = choose|k: int| 0 <= k < ins[j].len() && ins[j][k] == x;
                                assert(self.nodes@[j].inputs@[k] == x);
                            }
                        }
                        assert forall|j: int| 0 <= j < n && j != o implies pending(#[trigger] ins[j], done@) == pending(ins[j], old_done) by {
                            lemma_pending_flip(ins[j], old_done, x);
                        }
                        assert(!old_done[o as int]) by {
                            if old_done[o as int] {
                                lemma_pending_zero(ins[o as int], old_done);
                                let k = choose|k: int| 0 <= k < ins[o as int].len() && ins[o as int][k] == x;
                            }
                        }
                    }
                    waiting.set(o, waiting[o] - 1);
                    if waiting[o] == 0 {
                        ready.push(o);
                        proof {
                            assert(!ready@.drop_last().contains(o)) by {
                                if ready@.drop_last().contains(o) {
                                    let k = choose|k: int| 0 <= k < ready@.len() - 1 && ready@[k] == o;
                                    assert(old_ready[k] == o);
                                }
                            }
                        }
                    }
                    proof {
                        assert forall|j: int|
                            0 <= j < n && !done@[j] && waiting@[j] == 0 implies ready@.contains(j as usize) by {
                            if j == o {
                                assert(ready@.last() == o);
                            } else {
                                assert(old_ready.contains(j as usize));
                                let k = choose|k: int| 0 <= k < old_ready.len() && old_ready[k] == j as usize;
                                assert(k != old_ready.len() - 1);
                                assert(ready@[k] == j as usize);
                            }
                        }
                    }
                },
                None => {
                    proof {
                        assert forall|j: int| 0 <= j < n implies !(#[trigger] ins[j]).contains(x) by {
                            if ins[j].contains(x) {
                                let k = choose|k: int| 0 <= k < ins[j].len() && ins[j][k] == x;
                                assert(self.nodes@[j].inputs@[k] == x);
                            }
                        }
                        assert forall|j: int| 0 <= j < n implies pending(#[trigger] ins[j], done@) == pending(ins[j], old_done) by {
                            lemma_pending_flip(ins[j], old_done, x);
                        }
                        assert forall|j: int|
                            0 <= j < n && !done@[j] && waiting@[j] == 0 implies ready@.contains(j as usize) by {
                            assert(old_ready.contains(j as usize));
                            let k = choose|k: int| 0 <= k < old_ready.len() && old_ready[k] == j as usize;
                            assert(k != old_ready.len() - 1);
                            assert(ready@[k] == j as usize);
                        }
                    }
                },
            }
        }
        proof {
            lemma_seq_bound(seq@, n as usize);
        }
        if seq.len() == n {
            Some(seq)
        } else {
            proof {
                let x0 = choose|x: usize| x < n && !seq@.contains(x);
                let s = Set::new(|y: int| 0 <= y < n && !done@[y]);
                assert(s.contains(x0 as int));
                assert forall|y: int| #![trigger s.contains(y)] s.contains(y) implies 0 <= y < self.nodes@.len() && exists|k: int|
                    0 <= k < self.nodes@[y].inputs@.len() && s.contains(self.nodes@[y].inputs@[k] as int) by {
                    lemma_pending_zero(ins[y], done@);
                    let k = choose|k: int| 0 <= k < ins[y].len() && !done@[ins[y][k] as int];
                    assert(self.nodes@[y].inputs@[k] < n);
                    assert(s.contains(self.nodes@[y].inputs@[k] as int));
                }
                assert(self.feeds_itself(s));
            }
            None
        }
    }
}

} // verus!
