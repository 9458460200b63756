use vstd::prelude::*;
use crate::attr::NodeAttr;
use crate::network::{Network, Node};
use crate::topo::lemma_seq_bound;

verus! {

/// The order of node `v`, zero where it has none.
pub open spec fn ord(nodes: Seq<Node>, v: usize) -> int {
    match nodes[v as int].order {
        Some(o) => o as int,
        None => 0,
    }
}

/// `pos` shows `res` to be `orig` sorted by order, ties kept in their
/// order in `orig`.
pub open spec fn sort_witness(nodes: Seq<Node>, orig: Seq<usize>, res: Seq<usize>, pos: Seq<int>) -> bool {
    &&& res.len() == orig.len()
    &&& pos.len() == res.len()
    &&& pos.no_duplicates()
    &&& forall|a: int| 0 <= a < pos.len() ==> 0 <= #[trigger] pos[a] < orig.len()
    &&& forall|a: int| 0 <= a < res.len() ==> #[trigger] res[a] == orig[pos[a]]
    &&& forall|a: int, b: int| 0 <= a < b < res.len() ==> ord(nodes, res[a]) <= ord(nodes, res[b])
    &&& forall|a: int, b: int|
        0 <= a < b < res.len() && ord(nodes, res[a]) == ord(nodes, res[b]) ==> pos[a] < pos[b]
}

/// `res` is `orig` in ascending order of the nodes' orders, a stable sort.
pub open spec fn stable_sorted(nodes: Seq<Node>, orig: Seq<usize>, res: Seq<usize>) -> bool {
    exists|pos: Seq<int>| sort_witness(nodes, orig, res, pos)
}

/// `new` is `old` renumbered: node `k` of `new` is node `p[k]` of `old`,
/// with every link renumbered alike and each node's inputs sorted by order.
pub open spec fn renumbered(old: &Network, new: &Network, p: Seq<usize>) -> bool {
    let n = old.nodes@.len();
    &&& new.nodes@.len() == n
    &&& p.len() == n
    &&& p.no_duplicates()
    &&& forall|k: int| 0 <= k < n ==> (#[trigger] p[k] as int) < n
    &&& forall|k: int|
        0 <= k < n ==> {
            let a = #[trigger] new.nodes@[k];
            let b = old.nodes@[p[k] as int];
            &&& a.name == b.name
            &&& a.order == b.order
            &&& a.attrs == b.attrs
            &&& a.level is Some
            &&& (a.output is None <==> b.output is None)
            &&& forall|j: int| 0 <= j < n ==> (a.output == Some(j as usize) <==> b.output == Some(#[trigger] p[j]))
            &&& stable_sorted(old.nodes@, b.inputs@, a.inputs@.map_values(|c: usize| p[c as int]))
        }
}

/// The lowest index from `v` up to `n` missing from `qs`, or `n`.
pub open spec fn first_missing(qs: Seq<usize>, v: int, n: int) -> int
    decreases n - v,
{
    if v >= n {
        n
    } else if !qs.contains(v as usize) {
        v
    } else {
        first_missing(qs, v + 1, n)
    }
}

/// Where a new tree starts once the nodes `qs` are numbered: the outlet
/// below the lowest node not yet numbered, or that node itself where its
/// outlet is already numbered.
pub open spec fn seed_of(nodes: Seq<Node>, qs: Seq<usize>) -> int {
    let m = first_missing(qs, 0, nodes.len() as int);
    let r = downstream(nodes, m, nodes.len());
    if qs.contains(r as usize) {
        m
    } else {
        r
    }
}

/// In the renumbering `p` of `old` into `new`, each node that hangs from
/// nothing is where the next tree starts.
pub open spec fn seeds_chosen(old: &Network, new: &Network, p: Seq<usize>) -> bool {
    forall|k: int| 0 <= k < new.nodes@.len() && !#[trigger] hangs(new, k) ==> p[k] as int == seed_of(old.nodes@, p.subrange(0, k))
}

proof fn lemma_first_missing(qs: Seq<usize>, v: int, n: int, s: int)
    requires
        0 <= v <= s < n,
        forall|u: int| v <= u < s ==> #[trigger] qs.contains(u as usize),
        !qs.contains(s as usize),
    ensures
        first_missing(qs, v, n) == s,
    decreases s - v,
{
    if v < s {
        lemma_first_missing(qs, v + 1, n, s);
    }
}

/// Node `k` hangs from its output: the output is numbered before it.
pub open spec fn hangs(net: &Network, k: int) -> bool {
    net.nodes@[k].output matches Some(o) && (o as int) < k
}

/// The numbering is breadth-first: nodes that hang from their outputs come
/// in the order of their outputs; a node's inputs numbered after it come in
/// its input order; and a node that hangs from nothing starts a new tree,
/// numbered after every node that hangs from an earlier one.
pub open spec fn breadth_first(net: &Network) -> bool {
    let n = net.nodes@.len();
    &&& forall|k1: int, k2: int|
        0 <= k1 < k2 < n && #[trigger] hangs(net, k1) && #[trigger] hangs(net, k2) ==> net.nodes@[k1].output->0
            <= net.nodes@[k2].output->0
    &&& forall|j: int, a: int, b: int|
        0 <= j < n && 0 <= a < b < net.nodes@[j].inputs@.len() && #[trigger] net.nodes@[j].inputs@[a] > j
            && #[trigger] net.nodes@[j].inputs@[b] > j ==> net.nodes@[j].inputs@[a] < net.nodes@[j].inputs@[b]
    &&& forall|k: int, k2: int|
        0 <= k < n && 0 <= k2 < n && !#[trigger] hangs(net, k) && #[trigger] hangs(net, k2) ==> ((
        net.nodes@[k2].output->0 as int) < k <==> k2 < k)
}

/// The levels of a renumbered network: the outlet first at level zero; an
/// input drawn after its output sits one level deeper than it, unless it is
/// the last (largest) input, which continues the output's level; any other
/// node starts a new tree at level zero.
pub open spec fn levels_laid_out(net: &Network) -> bool {
    let n = net.nodes@.len();
    &&& n > 0 ==> net.nodes@[0].level == Some(0usize)
    &&& forall|k: int|
        0 <= k < n ==> (#[trigger] net.nodes@[k]).level == Some(match net.nodes@[k].output {
            Some(o) => if (o as int) < k {
                (net.nodes@[o as int].level->0 + if net.nodes@[o as int].inputs@.last() == k as usize {
                    0int
                } else {
                    1int
                }) as usize
            } else {
                0usize
            },
            None => 0usize,
        })
}

impl Network {
    /// The outlet reached from `i` by following outputs, at most as many
    /// steps as there are nodes.
    pub fn outlet_of(&self, i: usize) -> (r: usize)
        requires
            self.wf(),
            (i as int) < self.nodes@.len(),
        ensures
            r as int == downstream(self.nodes@, i as int, self.nodes@.len()),
            (r as int) < self.nodes@.len(),
    {
        let n = self.nodes.len();
        let mut cur = i;
        let mut k: usize = 0;
        while k < n
            invariant
                k <= n,
                n == self.nodes@.len(),
                self.wf(),
                cur as int == downstream(self.nodes@, i as int, k as nat),
                (cur as int) < n,
            decreases n - k,
        {
            match self.nodes[cur].output {
                Some(o) => {
                    assert(self.outputs()[cur as int] == Some(o));
                    cur = o;
                },
                None => {
                    proof {
                        lemma_downstream_still(self.nodes@, i as int, k as nat, n as nat);
                    }
                    return cur;
                },
            }
            k = k + 1;
        }
        cur
    }

    /// Lays the network out afresh: starting from the outlet below node 0,
    /// nodes are numbered in breadth-first order, each node's inputs sorted
    /// by ascending order (ties keep their order), and every node gets a
    /// level (see `levels_laid_out`).
    #[verifier::loop_isolation(false)]
    #[verifier::rlimit(100)]
    pub fn reindex(&mut self)
        requires
            old(self).wf(),
        ensures
            final(self).wf(),
            exists|p: Seq<usize>| renumbered(old(self), final(self), p) && seeds_chosen(old(self), final(self), p),
            levels_laid_out(final(self)),
            breadth_first(final(self)),
    {
        let n = self.nodes.len();
        if n == 0 {
            proof {
                assert(renumbered(old(self), self, Seq::empty()));
            }
            return;
        }
        let ghost nodes0 = self.nodes@;
        let mut sorted: Vec<Vec<usize>> = Vec::new();
        let mut v: usize = 0;
        while v < n
            invariant
                v <= n,
                sorted@.len() == v,
                forall|w: int| 0 <= w < v ==> stable_sorted(self.nodes@, self.nodes@[w].inputs@, #[trigger] sorted@[w]@),
            decreases n - v,
        {
            proof {
                assert forall|k: int| 0 <= k < self.nodes@[v as int].inputs@.len() implies (self.nodes@[v as int].inputs@[k] as int) < n by {
                    assert(self.inputs()[v as int][k] == self.nodes@[v as int].inputs@[k]);
                }
            }
            let s = self.sort_by_order(&self.nodes[v].inputs);
            sorted.push(s);
            v = v + 1;
        }
        let root = self.outlet_of(0);
        let (queue, lv, Ghost(par), Ghost(spos)) = self.visit_order(&sorted, root);
        proof {
            self.lemma_sorted_bounds(sorted@);
        }
        let mut pos: Vec<usize> = Vec::new();
        let mut v: usize = 0;
        while v < n
            invariant
                v <= n,
                pos@.len() == v,
            decreases n - v,
        {
            pos.push(0);
            v = v + 1;
        }
        let mut k: usize = 0;
        while k < n
            invariant
                k <= n,
                pos@.len() == n,
                forall|kk: int| 0 <= kk < k ==> pos@[#[trigger] queue@[kk] as int] == kk,
            decreases n - k,
        {
            proof {
                assert forall|kk: int| 0 <= kk < k implies queue@[kk] != queue@[k as int] by {}
            }
            pos.set(queue[k], k);
            k = k + 1;
        }
        proof {
            lemma_seq_bound(queue@, n);
            assert forall|w: int| 0 <= w < n implies (#[trigger] pos@[w] as int) < n && queue@[pos@[w] as int] == w by {
                assert(queue@.contains(w as usize));
                let kk = choose|kk: int| 0 <= kk < n && queue@[kk] == w as usize;
                assert(pos@[queue@[kk] as int] == kk);
            }
        }
        let ghost old_nodes = self.nodes@;
        let ghost old_net = *self;
        let mut new_nodes: Vec<Node> = Vec::new();
        let mut k: usize = 0;
        while k < n
            invariant
                k <= n,
                self.nodes@.len() == n,
                new_nodes@.len() == k,
                forall|w: int|
                    0 <= w < n ==> {
                        let a = #[trigger] self.nodes@[w];
                        let b = old_nodes[w];
                        &&& a.name == b.name
                        &&& a.inputs == b.inputs
                        &&& a.output == b.output
                        &&& a.order == b.order
                    },
                forall|kk: int| k <= kk < n ==> (#[trigger] self.nodes@[queue@[kk] as int]).attrs == old_nodes[queue@[kk] as int].attrs,
                forall|kk: int|
                    0 <= kk < k ==> {
                        let a = #[trigger] new_nodes@[kk];
                        let b = old_nodes[queue@[kk] as int];
                        &&& a.index == kk
                        &&& a.name == b.name
                        &&& a.order == b.order
                        &&& a.attrs == b.attrs
                        &&& a.level == Some(lv@[kk])
                        &&& a.output == match b.output {
                            Some(o) => Some(pos@[o as int]),
                            None => None,
                        }
                        &&& a.inputs@ == sorted@[queue@[kk] as int]@.map_values(|c: usize| pos@[c as int])
                    },
            decreases n - k,
        {
            let w = queue[k];
            let ghost sw = sorted@[w as int]@;
            let mut ins: Vec<usize> = Vec::new();
            let mut t: usize = 0;
            while t < sorted[w].len()
                invariant
                    sw == sorted@[w as int]@,
                    t <= sw.len(),
                    ins@ == sw.subrange(0, t as int).map_values(|c: usize| pos@[c as int]),
                decreases sw.len() - t,
            {
                let c = sorted[w][t];
                ins.push(pos[c]);
                t = t + 1;
                assert(ins@ =~= sw.subrange(0, t as int).map_values(|c: usize| pos@[c as int]));
            }
            assert(sw.subrange(0, t as int) =~= sw);
            let out = match self.nodes[w].output {
                Some(o) => {
                    assert(self.outputs()[w as int] == Some(o)) by {
                        assert(old_net.outputs()[w as int] == Some(o));
                    }
                    Some(pos[o])
                },
                None => None,
            };
            let mut attrs: Vec<(String, NodeAttr)> = Vec::new();
            std::mem::swap(&mut attrs, &mut self.nodes[w].attrs);
            let node = Node {
                index: k,
                name: self.nodes[w].name.clone(),
                inputs: ins,
                output: out,
                order: self.nodes[w].order,
                level: Some(lv[k]),
                attrs,
            };
            new_nodes.push(node);
            proof {
                assert forall|kk: int| k < kk < n implies (#[trigger] self.nodes@[queue@[kk] as int]).attrs == old_nodes[queue@[kk] as int].attrs by {
                    assert(queue@[kk] != queue@[k as int]);
                }
            }
            k = k + 1;
        }
        self.nodes = new_nodes;
        proof {
            let nn = self.nodes@;
            let p = queue@;
            assert forall|k: int, j: int| 0 <= k < n && 0 <= j < n && k != j implies p[k] != p[j] by {}
            // renumbered, links
            assert forall|k: int| 0 <= k < n implies {
                let a = #[trigger] nn[k];
                let b = old_nodes[p[k] as int];
                &&& (a.output is None <==> b.output is None)
                &&& forall|j: int| 0 <= j < n ==> (a.output == Some(j as usize) <==> b.output == Some(#[trigger] p[j]))
                &&& stable_sorted(old_nodes, b.inputs@, a.inputs@.map_values(|c: usize| p[c as int]))
            } by {
                let a = nn[k];
                let b = old_nodes[p[k] as int];
                let sw = sorted@[p[k] as int]@;
                assert(a.inputs@.map_values(|c: usize| p[c as int]) =~= sw);
                if let Some(o) = b.output {
                    assert(old_net.outputs()[p[k] as int] == Some(o));
                    assert forall|j: int| 0 <= j < n implies (a.output == Some(j as usize) <==> b.output == Some(#[trigger] p[j])) by {
                        if b.output == Some(p[j]) {
                            assert(pos@[p[j] as int] == j);
                        }
                    }
                }
            }
            assert(renumbered(old(self), self, p));
            // well-formedness
            assert forall|i: int| 0 <= i < n implies (#[trigger] nn[i]).index == i by {}
            assert forall|i: int, j: int| 0 <= i < n && 0 <= j < n && i != j implies self.names()[i] != self.names()[j] by {
                assert(old_net.names()[p[i] as int] != old_net.names()[p[j] as int]);
            }
            let outs = self.outputs();
            let ins = self.inputs();
            assert forall|i: int| #![trigger outs[i]] 0 <= i < outs.len() && outs[i] is Some implies {
                let o = outs[i]->0 as int;
                &&& 0 <= o < outs.len()
                &&& o != i
                &&& ins[o].contains(i as usize)
            } by {
                let b = old_nodes[p[i] as int];
                let o = b.output->0;
                assert(old_net.outputs()[p[i] as int] == Some(o));
                assert(old_net.inputs()[o as int].contains(p[i]));
                let so = sorted@[o as int]@;
                assert(old_net.inputs()[o as int] == old_nodes[o as int].inputs@);
                lemma_sorted_facts(old_nodes, old_nodes[o as int].inputs@, so);
                let t0 = choose|t: int| 0 <= t < old_nodes[o as int].inputs@.len() && old_nodes[o as int].inputs@[t] == p[i];
                assert(so.contains(old_nodes[o as int].inputs@[t0]));
                let t = choose|t: int| 0 <= t < so.len() && so[t] == p[i];
                let po = pos@[o as int];
                assert(p[po as int] == o);
                assert(nn[po as int].inputs@[t] == pos@[p[i] as int]);
                assert(ins[po as int][t] == i as usize);
                assert(po != i) by {
                    assert(old_net.outputs()[p[i] as int] != Some(p[i]));
                }
            }
            assert forall|i: int, t: int|
                #![trigger ins[i][t]]
                0 <= i < ins.len() && 0 <= t < ins[i].len() implies {
                &&& (ins[i][t] as int) < outs.len()
                &&& outs[ins[i][t] as int] == Some(i as usize)
            } by {
                let sw = sorted@[p[i] as int]@;
                let c = sw[t];
                assert(ins[i][t] == pos@[c as int]);
                assert(old_net.inputs()[p[i] as int] == old_nodes[p[i] as int].inputs@);
                lemma_sorted_facts(old_nodes, old_nodes[p[i] as int].inputs@, sw);
                assert(old_nodes[p[i] as int].inputs@.contains(c));
                let k0 = choose|k0: int| 0 <= k0 < old_nodes[p[i] as int].inputs@.len() && old_nodes[p[i] as int].inputs@[k0] == c;
                assert(old_net.inputs()[p[i] as int][k0] == c);
                assert(old_net.outputs()[c as int] == Some(p[i]));
                assert(p[pos@[c as int] as int] == c);
                assert(pos@[p[i] as int] == i);
            }
            assert forall|i: int| 0 <= i < ins.len() implies (#[trigger] ins[i]).no_duplicates() by {
                let sw = sorted@[p[i] as int]@;
                assert(old_net.inputs()[p[i] as int] == old_nodes[p[i] as int].inputs@);
                lemma_sorted_facts(old_nodes, old_nodes[p[i] as int].inputs@, sw);
                assert forall|x: int, y: int| 0 <= x < ins[i].len() && 0 <= y < ins[i].len() && x != y implies ins[i][x] != ins[i][y] by {
                    assert(sw[x] != sw[y]);
                    assert(p[pos@[sw[x] as int] as int] == sw[x]);
                    assert(p[pos@[sw[y] as int] as int] == sw[y]);
                }
            }
            assert(self.wf());
            // levels
            assert forall|k: int| 0 <= k < n implies (#[trigger] nn[k]).level == Some(match nn[k].output {
                Some(o) => if (o as int) < k {
                    (nn[o as int].level->0 + if nn[o as int].inputs@.last() == k as usize {
                        0int
                    } else {
                        1int
                    }) as usize
                } else {
                    0usize
                },
                None => 0usize,
            }) by {
                let b = old_nodes[p[k] as int];
                match b.output {
                    Some(o) => {
                        assert(old_net.outputs()[p[k] as int] == Some(o));
                        let po = pos@[o as int] as int;
                        assert(p[po] == o);
                        if po < k {
                            assert(old_nodes[p[k] as int].output == Some(p[po]));
                            let so = sorted@[o as int]@;
                            assert(old_net.outputs()[p[k] as int] == Some(o));
                            assert(old_net.inputs()[o as int] == old_nodes[o as int].inputs@);
                            lemma_sorted_facts(old_nodes, old_nodes[o as int].inputs@, so);
                            assert(so.len() > 0) by {
                                assert(old_net.inputs()[o as int].contains(p[k]));
                            }
                            assert(nn[po].inputs@.last() == pos@[so.last() as int]);
                            assert(p[pos@[so.last() as int] as int] == so.last());
                        } else {
                            assert forall|pp: int| 0 <= pp < k implies old_nodes[p[k] as int].output != Some(#[trigger] p[pp]) by {}
                        }
                    },
                    None => {
                        assert forall|pp: int| 0 <= pp < k implies old_nodes[p[k] as int].output != Some(#[trigger] p[pp]) by {}
                    },
                }
            }
        }
        proof {
            let nn = self.nodes@;
            let p = queue@;
            // which nodes hang, and from where
            assert forall|k: int| 0 <= k < n implies (#[trigger] hangs(self, k) <==> par[k] != -1) && (par[k] != -1
                ==> nn[k].output == Some(par[k] as usize)) by {
                let b = old_nodes[p[k] as int];
                if par[k] != -1 {
                    assert(old_nodes[p[k] as int].output == Some(p[par[k]]));
                    assert(pos@[p[par[k]] as int] == par[k]);
                } else {
                    if let Some(o) = nn[k].output {
                        if (o as int) < k {
                            let oo = b.output->0;
                            assert(old_net.outputs()[p[k] as int] == Some(oo));
                            assert(p[pos@[oo as int] as int] == oo);
                            assert(old_nodes[p[k] as int].output != Some(p[o as int]));
                        }
                    }
                }
            }
            assert forall|j: int, a: int, b: int|
                0 <= j < n && 0 <= a < b < nn[j].inputs@.len() && #[trigger] nn[j].inputs@[a] > j
                    && #[trigger] nn[j].inputs@[b] > j implies nn[j].inputs@[a] < nn[j].inputs@[b] by {
                let ca = nn[j].inputs@[a] as int;
                let cb = nn[j].inputs@[b] as int;
                let sw = sorted@[p[j] as int]@;
                assert(self.inputs()[j][a] == ca as usize);
                assert(self.inputs()[j][b] == cb as usize);
                assert(self.outputs()[ca] == Some(j as usize));
                assert(self.outputs()[cb] == Some(j as usize));
                assert(hangs(self, ca) && hangs(self, cb));
                assert(par[ca] == j && par[cb] == j);
                assert(old_net.inputs()[p[j] as int] == old_nodes[p[j] as int].inputs@);
                lemma_sorted_facts(old_nodes, old_nodes[p[j] as int].inputs@, sw);
                assert(p[ca] == sw[a]) by {
                    assert(p[pos@[sw[a] as int] as int] == sw[a]);
                }
                assert(p[cb] == sw[b]) by {
                    assert(p[pos@[sw[b] as int] as int] == sw[b]);
                }
                assert(sw[spos[ca]] == p[ca]);
                assert(sw[spos[cb]] == p[cb]);
                assert(spos[ca] == a);
                assert(spos[cb] == b);
                assert(ca != cb);
                if ca > cb {
                    assert(spos[cb] < spos[ca]);
                }
            }
            assert forall|k1: int, k2: int|
                0 <= k1 < k2 < n && #[trigger] hangs(self, k1) && #[trigger] hangs(self, k2) implies nn[k1].output->0
                    <= nn[k2].output->0 by {
                assert(par[k1] != -1 && par[k2] != -1);
            }
            assert forall|k: int, k2: int|
                0 <= k < n && 0 <= k2 < n && !#[trigger] hangs(self, k) && #[trigger] hangs(self, k2) implies ((
                nn[k2].output->0 as int) < k <==> k2 < k) by {
                assert(par[k] == -1 && par[k2] != -1);
            }
        }
    }

    /// Whether `sorted` holds, for each node, its inputs sorted by order.
    pub open spec fn sorted_inputs(&self, sorted: Seq<Vec<usize>>) -> bool {
        &&& sorted.len() == self.nodes@.len()
        &&& forall|v: int|
            0 <= v < sorted.len() ==> stable_sorted(self.nodes@, self.nodes@[v].inputs@, #[trigger] sorted[v]@)
    }

    proof fn lemma_sorted_bounds(&self, sorted: Seq<Vec<usize>>)
        requires
            self.wf(),
            self.sorted_inputs(sorted),
        ensures
            forall|v: int, t: int|
                0 <= v < sorted.len() && 0 <= t < sorted[v]@.len() ==> (#[trigger] sorted[v]@[t] as int) < self.nodes@.len(),
    {
        assert forall|v: int, t: int|
            0 <= v < sorted.len() && 0 <= t < sorted[v]@.len() implies (#[trigger] sorted[v]@[t] as int) < self.nodes@.len() by {
            assert(self.inputs()[v] == self.nodes@[v].inputs@);
            lemma_sorted_facts(self.nodes@, self.nodes@[v].inputs@, sorted[v]@);
            assert(self.nodes@[v].inputs@.contains(sorted[v]@[t]));
            let k = choose|k: int| 0 <= k < self.nodes@[v].inputs@.len() && self.nodes@[v].inputs@[k] == sorted[v]@[t];
            assert(self.inputs()[v][k] == sorted[v]@[t]);
        }
    }

    /// First node not yet visited.
    pub(crate) fn first_unvisited(visited: &Vec<bool>) -> (r: usize)
        requires
            exists|v: int| 0 <= v < visited@.len() && !visited@[v],
        ensures
            (r as int) < visited@.len(),
            !visited@[r as int],
            forall|v: int| 0 <= v < r ==> visited@[v],
    {
        let mut i: usize = 0;
        while i < visited.len()
            invariant
                i <= visited@.len(),
                forall|v: int| 0 <= v < i ==> visited@[v],
                exists|v: int| 0 <= v < visited@.len() && !visited@[v],
            decreases visited@.len() - i,
        {
            if !visited[i] {
                return i;
            }
            i = i + 1;
        }
        i
    }

    /// Breadth-first visit from `root`: each node is taken from a queue and
    /// its unvisited inputs are queued in sorted order, the last one (largest
    /// order) at the node's own level and the others one deeper. When the
    /// queue runs dry, the outlet below the first unvisited node starts anew
    /// at level zero. Returns the nodes in visiting order and their levels.
    #[verifier::loop_isolation(false)]
    #[verifier::rlimit(100)]
    fn visit_order(&self, sorted: &Vec<Vec<usize>>, root: usize) -> (r: (Vec<usize>, Vec<usize>, Ghost<Seq<int>>, Ghost<Seq<int>>))
        requires
            self.wf(),
            self.sorted_inputs(sorted@),
            (root as int) < self.nodes@.len(),
            root as int == downstream(self.nodes@, 0, self.nodes@.len()),
        ensures
            ({
                let (queue, lv, par, spos) = r;
                let par = par@;
                let spos = spos@;
                let n = self.nodes@.len();
                &&& par.len() == n
                &&& spos.len() == n
                &&& forall|q: int|
                    0 <= q < n && #[trigger] par[q] != -1 ==> 0 <= par[q] < q && self.nodes@[queue@[q] as int].output == Some(
                        queue@[par[q]],
                    ) && 0 <= spos[q] < sorted@[queue@[par[q]] as int]@.len() && sorted@[queue@[par[q]] as int]@[spos[q]]
                        == queue@[q]
                &&& forall|q: int|
                    0 <= q < n && #[trigger] par[q] == -1 ==> forall|p: int|
                        0 <= p < q ==> self.nodes@[queue@[q] as int].output != Some(#[trigger] queue@[p])
                &&& forall|q: int|
                    0 <= q < n && #[trigger] par[q] == -1 ==> queue@[q] as int == seed_of(self.nodes@, queue@.subrange(0, q))
                &&& forall|q1: int, q2: int|
                    0 <= q1 < q2 < n && #[trigger] par[q1] != -1 && #[trigger] par[q2] != -1 ==> par[q1] <= par[q2]
                &&& forall|q1: int, q2: int|
                    0 <= q1 < q2 < n && #[trigger] par[q1] != -1 && par[q1] == #[trigger] par[q2] ==> spos[q1] < spos[q2]
                &&& forall|q: int, q2: int|
                    0 <= q < n && 0 <= q2 < n && #[trigger] par[q] == -1 && #[trigger] par[q2] != -1 ==> (par[q2] < q
                        <==> q2 < q)
                &&& queue@.len() == n
                &&& lv@.len() == n
                &&& queue@.no_duplicates()
                &&& forall|q: int| 0 <= q < n ==> (#[trigger] queue@[q] as int) < n
                &&& queue@[0] == root
                &&& lv@[0] == 0
                &&& forall|q: int, p: int|
                    0 <= p < q < n && self.nodes@[queue@[q] as int].output == Some(#[trigger] queue@[p]) ==> #[trigger] lv@[q]
                        == lv@[p] + if queue@[q] == sorted@[queue@[p] as int]@.last() {
                        0int
                    } else {
                        1int
                    }
                &&& forall|q: int|
                    0 <= q < n && (forall|p: int| 0 <= p < q ==> self.nodes@[queue@[q] as int].output != Some(#[trigger] queue@[p]))
                        ==> #[trigger] lv@[q] == 0
            }),
    {
        let n = self.nodes.len();
        proof {
            self.lemma_sorted_bounds(sorted@);
        }
        let mut visited: Vec<bool> = Vec::new();
        let mut i: usize = 0;
        while i < n
            invariant
                i <= n,
                visited@.len() == i,
                forall|v: int| 0 <= v < i ==> !visited@[v],
            decreases n - i,
        {
            visited.push(false);
            i = i + 1;
        }
        visited.set(root, true);
        let mut queue: Vec<usize> = Vec::new();
        queue.push(root);
        let mut lv: Vec<usize> = Vec::new();
        lv.push(0);
        let ghost mut par: Seq<int> = seq![-1int];
        let ghost mut spos: Seq<int> = seq![0int];
        let mut h: usize = 0;
        proof {
            assert(queue@.subrange(0, 0) =~= Seq::<usize>::empty());
            assert(first_missing(Seq::<usize>::empty(), 0, n as int) == 0);
            assert(seed_of(self.nodes@, queue@.subrange(0, 0)) == root as int);
            assert forall|v: int| 0 <= v < n implies (visited@[v] <==> queue@.contains(v as usize)) by {
                if v == root {
                    assert(queue@[0] == root);
                }
            }
        }
        while h < n
            invariant
                n == self.nodes@.len(),
                visited@.len() == n,
                queue@.len() == lv@.len(),
                queue@.len() == par.len(),
                forall|q: int|
                    0 <= q < queue@.len() && #[trigger] par[q] == -1 ==> queue@[q] as int == seed_of(self.nodes@, queue@.subrange(0, q)),
                spos.len() == par.len(),
                forall|q: int|
                    0 <= q < queue@.len() && #[trigger] par[q] != -1 ==> 0 <= spos[q] < sorted@[queue@[par[q]] as int]@.len()
                        && sorted@[queue@[par[q]] as int]@[spos[q]] == queue@[q],
                forall|q1: int, q2: int|
                    0 <= q1 < q2 < queue@.len() && #[trigger] par[q1] != -1 && #[trigger] par[q2] != -1 ==> par[q1] <= par[q2],
                forall|q1: int, q2: int|
                    0 <= q1 < q2 < queue@.len() && #[trigger] par[q1] != -1 && par[q1] == #[trigger] par[q2] ==> spos[q1] < spos[q2],
                forall|q: int, q2: int|
                    0 <= q < queue@.len() && 0 <= q2 < queue@.len() && #[trigger] par[q] == -1 && #[trigger] par[q2] != -1 ==> (
                    par[q2] < q <==> q2 < q),
                forall|q: int| 0 <= q < queue@.len() && #[trigger] par[q] == -1 ==> q <= h,
                h <= queue@.len(),
                queue@.len() >= 1,
                queue@[0] == root,
                par[0] == -1,
                queue@.no_duplicates(),
                forall|q: int| 0 <= q < queue@.len() ==> (#[trigger] queue@[q] as int) < n,
                forall|v: int| 0 <= v < n ==> (visited@[v] <==> queue@.contains(v as usize)),
                forall|q: int| 0 <= q < queue@.len() ==> #[trigger] lv@[q] <= q,
                forall|q: int|
                    0 <= q < queue@.len() && #[trigger] par[q] == -1 ==> {
                        &&& lv@[q] == 0
                        &&& forall|p: int| 0 <= p < q ==> self.nodes@[queue@[q] as int].output != Some(#[trigger] queue@[p])
                    },
                forall|q: int|
                    0 <= q < queue@.len() && #[trigger] par[q] != -1 ==> {
                        &&& 0 <= par[q] < q
                        &&& par[q] < h
                        &&& self.nodes@[queue@[q] as int].output == Some(queue@[par[q]])
                        &&& lv@[q] == lv@[par[q]] + if queue@[q] == sorted@[queue@[par[q]] as int]@.last() {
                            0int
                        } else {
                            1int
                        }
                    },
                forall|hh: int, t: int|
                    0 <= hh < h && 0 <= t < sorted@[queue@[hh] as int]@.len() ==> visited@[#[trigger] sorted@[queue@[hh] as int]@[t] as int],
            decreases n - h,
        {
            proof {
                lemma_seq_bound(queue@, n);
            }
            if h == queue.len() {
                proof {
                    let v = choose|v: usize| v < n && !queue@.contains(v);
                    assert(!visited@[v as int]);
                }
                let s0 = Self::first_unvisited(&visited);
                let r0 = self.outlet_of(s0);
                let r = if visited[r0] {
                    s0
                } else {
                    r0
                };
                proof {
                    assert forall|u: int| 0 <= u < s0 implies #[trigger] queue@.contains(u as usize) by {
                        assert(visited@[u]);
                    }
                    lemma_first_missing(queue@, 0, n as int, s0 as int);
                    assert(queue@.subrange(0, queue@.len() as int) =~= queue@);
                    assert(seed_of(self.nodes@, queue@) == r as int);
                    assert(!queue@.contains(r));
                    assert forall|p: int| 0 <= p < queue@.len() implies self.nodes@[r as int].output != Some(#[trigger] queue@[p]) by {
                        if self.nodes@[r as int].output == Some(queue@[p]) {
                            let o = queue@[p] as int;
                            assert(self.outputs()[r as int] == Some(o as usize));
                            assert(self.inputs()[o].contains(r));
                            assert(self.inputs()[o] == self.nodes@[o].inputs@);
                            lemma_sorted_facts(self.nodes@, self.nodes@[o].inputs@, sorted@[o]@);
                            let t0 = choose|t: int| 0 <= t < self.nodes@[o].inputs@.len() && self.nodes@[o].inputs@[t] == r;
                            assert(sorted@[o]@.contains(self.nodes@[o].inputs@[t0]));
                            let t = choose|t: int| 0 <= t < sorted@[o]@.len() && sorted@[o]@[t] == r;
                            assert(visited@[sorted@[queue@[p] as int]@[t] as int]);
                        }
                    }
                }
                let ghost oldq = queue@;
                let ghost oldv = visited@;
                visited.set(r, true);
                queue.push(r);
                lv.push(0);
                proof {
                    par = par.push(-1);
                    spos = spos.push(0);
                    assert forall|q: int| 0 <= q < queue@.len() && #[trigger] par[q] == -1 implies queue@[q] as int == seed_of(
                        self.nodes@,
                        queue@.subrange(0, q),
                    ) by {
                        assert(queue@.subrange(0, q) =~= oldq.subrange(0, q));
                        if q == oldq.len() {
                            assert(oldq.subrange(0, q) =~= oldq);
                        }
                    }
                    assert forall|hh: int, tt: int|
                        0 <= hh < h && 0 <= tt < sorted@[queue@[hh] as int]@.len() implies visited@[#[trigger] sorted@[queue@[hh] as int]@[tt] as int] by {
                        assert(queue@[hh] == oldq[hh]);
                        assert(oldv[sorted@[oldq[hh] as int]@[tt] as int]);
                    }
                    assert forall|v: int| 0 <= v < n implies (visited@[v] <==> queue@.contains(v as usize)) by {
                        if v == r {
                            assert(queue@.last() == r);
                        } else if oldq.contains(v as usize) {
                            let k = choose|k: int| 0 <= k < oldq.len() && oldq[k] == v as usize;
                            assert(queue@[k] == v as usize);
                        } else if queue@.contains(v as usize) {
                            let k = choose|k: int| 0 <= k < queue@.len() && queue@[k] == v as usize;
                            assert(k < oldq.len());
                        }
                    }
                }
            }
            let x = queue[h];
            let l = lv[h];
            let ghost xs = sorted@[x as int]@;
            proof {
                assert(self.inputs()[x as int] == self.nodes@[x as int].inputs@);
                lemma_sorted_facts(self.nodes@, self.nodes@[x as int].inputs@, xs);
            }
            let m = sorted[x].len();
            let mut t: usize = 0;
            while t < m
                invariant
                    m == xs.len(),
                    xs == sorted@[x as int]@,
                    t <= m,
                    x == queue@[h as int],
                    l == lv@[h as int],
                    h < queue@.len(),
                    visited@.len() == n,
                    queue@.len() == lv@.len(),
                    queue@.len() == par.len(),
                    forall|q: int|
                        0 <= q < queue@.len() && #[trigger] par[q] == -1 ==> queue@[q] as int == seed_of(self.nodes@, queue@.subrange(0, q)),
                    spos.len() == par.len(),
                    forall|q: int|
                        0 <= q < queue@.len() && #[trigger] par[q] != -1 ==> 0 <= spos[q] < sorted@[queue@[par[q]] as int]@.len()
                            && sorted@[queue@[par[q]] as int]@[spos[q]] == queue@[q],
                    forall|q1: int, q2: int|
                        0 <= q1 < q2 < queue@.len() && #[trigger] par[q1] != -1 && #[trigger] par[q2] != -1 ==> par[q1] <= par[q2],
                    forall|q1: int, q2: int|
                        0 <= q1 < q2 < queue@.len() && #[trigger] par[q1] != -1 && par[q1] == #[trigger] par[q2] ==> spos[q1] < spos[q2],
                    forall|q: int, q2: int|
                        0 <= q < queue@.len() && 0 <= q2 < queue@.len() && #[trigger] par[q] == -1 && #[trigger] par[q2] != -1 ==> (
                        par[q2] < q <==> q2 < q),
                    forall|q: int| 0 <= q < queue@.len() && #[trigger] par[q] == -1 ==> q <= h,
                    forall|q: int| 0 <= q < queue@.len() && #[trigger] par[q] == h ==> spos[q] < t,
                    queue@.len() >= 1,
                    queue@[0] == root,
                    par[0] == -1,
                    queue@.no_duplicates(),
                    forall|q: int| 0 <= q < queue@.len() ==> (#[trigger] queue@[q] as int) < n,
                    forall|v: int| 0 <= v < n ==> (visited@[v] <==> queue@.contains(v as usize)),
                    forall|q: int| 0 <= q < queue@.len() ==> #[trigger] lv@[q] <= q,
                    forall|q: int|
                        0 <= q < queue@.len() && #[trigger] par[q] == -1 ==> {
                            &&& lv@[q] == 0
                            &&& forall|p: int| 0 <= p < q ==> self.nodes@[queue@[q] as int].output != Some(#[trigger] queue@[p])
                        },
                    forall|q: int|
                        0 <= q < queue@.len() && #[trigger] par[q] != -1 ==> {
                            &&& 0 <= par[q] < q
                            &&& par[q] <= h
                            &&& self.nodes@[queue@[q] as int].output == Some(queue@[par[q]])
                            &&& lv@[q] == lv@[par[q]] + if queue@[q] == sorted@[queue@[par[q]] as int]@.last() {
                                0int
                            } else {
                                1int
                            }
                        },
                    forall|hh: int, tt: int|
                        0 <= hh < h && 0 <= tt < sorted@[queue@[hh] as int]@.len() ==> visited@[#[trigger] sorted@[queue@[hh] as int]@[tt] as int],
                    forall|tt: int| 0 <= tt < t ==> visited@[#[trigger] xs[tt] as int],
                decreases m - t,
            {
                let c = sorted[x][t];
                assert(xs[t as int] == c);
                proof {
                    assert(self.nodes@[x as int].inputs@.contains(c));
                    let k = choose|k: int| 0 <= k < self.nodes@[x as int].inputs@.len() && self.nodes@[x as int].inputs@[k] == c;
                    assert(self.inputs()[x as int][k] == c);
                }
                if !visited[c] {
                    let ghost oldq = queue@;
                    let ghost oldv = visited@;
                    proof {
                        lemma_seq_bound(queue@, n);
                        assert(!queue@.contains(c));
                    }
                    let lc = if t + 1 == m {
                        l
                    } else {
                        l + 1
                    };
                    visited.set(c, true);
                    queue.push(c);
                    lv.push(lc);
                    proof {
                        par = par.push(h as int);
                        spos = spos.push(t as int);
                        assert forall|q: int| 0 <= q < queue@.len() && #[trigger] par[q] == -1 implies queue@[q] as int == seed_of(
                            self.nodes@,
                            queue@.subrange(0, q),
                        ) by {
                            assert(queue@.subrange(0, q) =~= oldq.subrange(0, q));
                        }
                        assert forall|hh: int, tt: int|
                            0 <= hh < h && 0 <= tt < sorted@[queue@[hh] as int]@.len() implies visited@[#[trigger] sorted@[queue@[hh] as int]@[tt] as int] by {
                            assert(queue@[hh] == oldq[hh]);
                            assert(oldv[sorted@[oldq[hh] as int]@[tt] as int]);
                        }
                        assert forall|tt: int| 0 <= tt <= t implies visited@[#[trigger] xs[tt] as int] by {
                        }
                        let q = queue@.len() - 1;
                        assert(queue@[q] == c);
                        assert(par[q] == h);
                        assert((c == xs.last()) <==> (t + 1 == m)) by {
                            if c == xs.last() && t + 1 != m {
                                assert(xs[t as int] == xs[m - 1]);
                            }
                        }
                        assert forall|v: int| 0 <= v < n implies (visited@[v] <==> queue@.contains(v as usize)) by {
                            if v == c {
                                assert(queue@.last() == c);
                            } else if oldq.contains(v as usize) {
                                let k = choose|k: int| 0 <= k < oldq.len() && oldq[k] == v as usize;
                                assert(queue@[k] == v as usize);
                            } else if queue@.contains(v as usize) {
                                let k = choose|k: int| 0 <= k < queue@.len() && queue@[k] == v as usize;
                                assert(k < oldq.len());
                            }
                        }
                        assert forall|qq: int|
                            0 <= qq < queue@.len() && #[trigger] par[qq] == -1 implies forall|p: int|
                                0 <= p < qq ==> self.nodes@[queue@[qq] as int].output != Some(#[trigger] queue@[p]) by {
                            assert(qq < oldq.len());
                            assert forall|p: int| 0 <= p < qq implies self.nodes@[queue@[qq] as int].output != Some(#[trigger] queue@[p]) by {
                                assert(queue@[qq] == oldq[qq] && queue@[p] == oldq[p]);
                            }
                        }
                    }
                }
                t = t + 1;
            }
            h = h + 1;
        }
        proof {
            lemma_seq_bound(queue@, n);
            assert forall|q: int, p: int|
                0 <= p < q < n && self.nodes@[queue@[q] as int].output == Some(#[trigger] queue@[p]) implies #[trigger] lv@[q]
                    == lv@[p] + if queue@[q] == sorted@[queue@[p] as int]@.last() {
                    0int
                } else {
                    1int
                } by {
                if par[q] == -1 {
                } else {
                    assert(queue@[par[q]] == queue@[p]);
                }
            }
            assert forall|q: int|
                0 <= q < n && (forall|p: int| 0 <= p < q ==> self.nodes@[queue@[q] as int].output != Some(#[trigger] queue@[p]))
                    implies #[trigger] lv@[q] == 0 by {
                if par[q] != -1 {
                    let p = par[q];
                    assert(self.nodes@[queue@[q] as int].output != Some(queue@[p]));
                }
            }
        }
        (queue, lv, Ghost(par), Ghost(spos))
    }

    /// The order of node `v`, zero where it has none.
    fn order_key(&self, v: usize) -> (r: usize)
        requires
            (v as int) < self.nodes@.len(),
        ensures
            r as int == ord(self.nodes@, v),
    {
        match self.nodes[v].order {
            Some(o) => o,
            None => 0,
        }
    }

    /// `v` in ascending order of the nodes' orders; ties keep their order.
    pub fn sort_by_order(&self, v: &Vec<usize>) -> (r: Vec<usize>)
        requires
            forall|k: int| 0 <= k < v@.len() ==> (v@[k] as int) < self.nodes@.len(),
        ensures
            stable_sorted(self.nodes@, v@, r@),
    {
        let ghost nodes = self.nodes@;
        let mut res: Vec<usize> = Vec::new();
        let ghost mut pos: Seq<int> = Seq::empty();
        let mut i: usize = 0;
        while i < v.len()
            invariant
                nodes == self.nodes@,
                i <= v@.len(),
                forall|k: int| 0 <= k < v@.len() ==> (v@[k] as int) < nodes.len(),
                sort_witness(nodes, v@.subrange(0, i as int), res@, pos),
            decreases v@.len() - i,
        {
            let x = v[i];
            let kx = self.order_key(x);
            proof {
                assert forall|k: int| 0 <= k < res@.len() implies (res@[k] as int) < nodes.len() by {
                    assert(res@[k] == v@.subrange(0, i as int)[pos[k]]);
                }
            }
            let mut p: usize = res.len();
            while p > 0 && self.order_key(res[p - 1]) > kx
                invariant
                    nodes == self.nodes@,
                    p <= res@.len(),
                    forall|b: int| p <= b < res@.len() ==> ord(nodes, res@[b]) > kx,
                    forall|k: int| 0 <= k < res@.len() ==> (res@[k] as int) < nodes.len(),
                decreases p,
            {
                p = p - 1;
            }
            proof {
                assert(forall|k: int| 0 <= k < res@.len() ==> (res@[k] as int) < nodes.len());
            }
            let ghost old_res = res@;
            let ghost old_pos = pos;
            res.insert(p, x);
            proof {
                pos = old_pos.insert(p as int, i as int);
                let orig = v@.subrange(0, i + 1);
                assert(res@ == old_res.insert(p as int, x));
                assert forall|a: int| 0 <= a < res@.len() implies #[trigger] res@[a] == orig[pos[a]] by {
                    if a < p {
                        assert(res@[a] == old_res[a]);
                        assert(pos[a] == old_pos[a]);
                    } else if a > p {
                        assert(res@[a] == old_res[a - 1]);
                        assert(pos[a] == old_pos[a - 1]);
                    }
                }
                assert forall|a: int| 0 <= a < pos.len() implies 0 <= #[trigger] pos[a] < orig.len() by {
                    if a < p {
                        assert(pos[a] == old_pos[a]);
                    } else if a > p {
                        assert(pos[a] == old_pos[a - 1]);
                    }
                }
                assert(pos.no_duplicates()) by {
                    assert forall|a: int, b: int| 0 <= a < pos.len() && 0 <= b < pos.len() && a != b implies pos[a] != pos[b] by {
                        if a != p && b != p {
                            let a0 = if a < p { a } else { a - 1 };
                            let b0 = if b < p { b } else { b - 1 };
                            assert(pos[a] == old_pos[a0]);
                            assert(pos[b] == old_pos[b0]);
                        } else if a == p {
                            let b0 = if b < p { b } else { b - 1 };
                            assert(pos[b] == old_pos[b0]);
                            assert(old_pos[b0] < i);
                        } else {
                            let a0 = if a < p { a } else { a - 1 };
                            assert(pos[a] == old_pos[a0]);
                            assert(old_pos[a0] < i);
                        }
                    }
                }
                assert forall|a: int, b: int| 0 <= a < b < res@.len() implies ord(nodes, res@[a]) <= ord(nodes, res@[b]) by {
                    if a < p && b < p {
                        assert(res@[a] == old_res[a] && res@[b] == old_res[b]);
                    } else if a < p && b == p {
                        assert(res@[a] == old_res[a]);
                    } else if a < p {
                        assert(res@[a] == old_res[a] && res@[b] == old_res[b - 1]);
                    } else if a == p {
                        assert(res@[b] == old_res[b - 1]);
                    } else {
                        assert(res@[a] == old_res[a - 1] && res@[b] == old_res[b - 1]);
                    }
                }
                assert forall|a: int, b: int|
                    0 <= a < b < res@.len() && ord(nodes, res@[a]) == ord(nodes, res@[b]) implies pos[a] < pos[b] by {
                    if a < p && b < p {
                        assert(res@[a] == old_res[a] && res@[b] == old_res[b]);
                    } else if a < p && b == p {
                        assert(old_pos[a] < i);
                    } else if a < p {
                        assert(res@[a] == old_res[a] && res@[b] == old_res[b - 1]);
                    } else if a == p {
                        assert(res@[b] == old_res[b - 1]);
                    } else {
                        assert(res@[a] == old_res[a - 1] && res@[b] == old_res[b - 1]);
                    }
                }
                assert(sort_witness(nodes, orig, res@, pos));
            }
            i = i + 1;
        }
        assert(v@.subrange(0, i as int) =~= v@);
        proof {
            r_witness(nodes, v@, res@, pos);
        }
        res
    }
}

/// Where following outputs from `i` for `k` steps leads; an outlet stays put.
pub open spec fn downstream(nodes: Seq<Node>, i: int, k: nat) -> int
    decreases k,
{
    if k == 0 {
        i
    } else {
        let d = downstream(nodes, i, (k - 1) as nat);
        match nodes[d].output {
            Some(o) => o as int,
            None => d,
        }
    }
}

proof fn lemma_downstream_still(nodes: Seq<Node>, i: int, k: nat, m: nat)
    requires
        k <= m,
        nodes[downstream(nodes, i, k)].output is None,
    ensures
        downstream(nodes, i, m) == downstream(nodes, i, k),
    decreases m,
{
    if k < m {
        lemma_downstream_still(nodes, i, k, (m - 1) as nat);
    }
}

proof fn lemma_int_seq_full(seq: Seq<int>, n: int)
    requires
        seq.no_duplicates(),
        seq.len() == n,
        forall|j: int| 0 <= j < seq.len() ==> 0 <= #[trigger] seq[j] < n,
    ensures
        forall|x: int| 0 <= x < n ==> seq.contains(x),
{
    seq.unique_seq_to_set();
    let s = seq.to_set();
    let r = vstd::set_lib::set_int_range(0, n);
    vstd::set_lib::lemma_int_range(0, n);
    assert(s.subset_of(r));
    assert forall|x: int| 0 <= x < n implies seq.contains(x) by {
        if !seq.contains(x) {
            assert(s.subset_of(r.remove(x)));
            vstd::set_lib::lemma_len_subset(s, r.remove(x));
        }
    }
}

proof fn lemma_sorted_facts(nodes: Seq<Node>, orig: Seq<usize>, res: Seq<usize>)
    requires
        stable_sorted(nodes, orig, res),
        orig.no_duplicates(),
    ensures
        res.no_duplicates(),
        res.len() == orig.len(),
        forall|a: int| 0 <= a < res.len() ==> orig.contains(#[trigger] res[a]),
        forall|a: int| 0 <= a < orig.len() ==> res.contains(#[trigger] orig[a]),
{
    let pos = choose|pos: Seq<int>| sort_witness(nodes, orig, res, pos);
    assert forall|a: int| 0 <= a < res.len() implies orig.contains(#[trigger] res[a]) by {
        assert(orig[pos[a]] == res[a]);
    }
    assert forall|a: int, b: int| 0 <= a < res.len() && 0 <= b < res.len() && a != b implies res[a] != res[b] by {
        assert(pos[a] != pos[b]);
    }
    lemma_int_seq_full(pos, orig.len() as int);
    assert forall|a: int| 0 <= a < orig.len() implies res.contains(#[trigger] orig[a]) by {
        assert(pos.contains(a));
        let b = choose|b: int| 0 <= b < pos.len() && pos[b] == a;
        assert(res[b] == orig[a]);
    }
}

proof fn r_witness(nodes: Seq<Node>, orig: Seq<usize>, res: Seq<usize>, pos: Seq<int>)
    requires
        sort_witness(nodes, orig, res, pos),
    ensures
        stable_sorted(nodes, orig, res),
{
}

} // verus!
