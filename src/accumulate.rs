use vstd::prelude::*;
use crate::attr::{lemma_pow10_bounds, pow10, pow10_i128, Decimal, NodeAttr, MAX_SCALE};
use crate::network::{Network, Node};
use crate::topo::lemma_seq_bound;

verus! {

/// Sum of the orders of the nodes `idx` (an unset order counts as zero).
pub open spec fn order_sum(nodes: Seq<Node>, idx: Seq<usize>) -> int
    decreases idx.len(),
{
    if idx.len() == 0 {
        0
    } else {
        order_sum(nodes, idx.drop_last()) + match nodes[idx.last() as int].order {
            Some(v) => v as int,
            None => 0,
        }
    }
}

/// Node `i` has an order, as have its inputs, and its order is one more than
/// the sum of theirs.
pub open spec fn order_holds_at(nodes: Seq<Node>, i: int) -> bool {
    &&& nodes[i].order is Some
    &&& forall|k: int|
        0 <= k < nodes[i].inputs@.len() ==> (#[trigger] nodes[nodes[i].inputs@[k] as int]).order is Some
    &&& nodes[i].order->0 == 1 + order_sum(nodes, nodes[i].inputs@)
}

/// Why `order` could not annotate every node.
#[derive(Clone, Copy, PartialEq, Eq, Structural, Debug)]
pub enum OrderError {
    /// Following inputs upstream never ends: the links hold a cycle.
    Cycle,
    /// A node's order exceeds `usize::MAX`.
    Overflow,
}

proof fn lemma_order_sum_frame(a: Seq<Node>, b: Seq<Node>, idx: Seq<usize>)
    requires
        forall|k: int| 0 <= k < idx.len() ==> a[idx[k] as int].order == b[idx[k] as int].order,
    ensures
        order_sum(a, idx) == order_sum(b, idx),
    decreases idx.len(),
{
    if idx.len() > 0 {
        let init = idx.drop_last();
        assert forall|k: int| 0 <= k < init.len() implies a[init[k] as int].order == b[init[k] as int].order by {
            assert(init[k] == idx[k]);
        }
        lemma_order_sum_frame(a, b, init);
    }
}

proof fn lemma_order_sum_prefix(nodes: Seq<Node>, idx: Seq<usize>, k: int)
    requires
        0 <= k <= idx.len(),
    ensures
        order_sum(nodes, idx.subrange(0, k)) <= order_sum(nodes, idx),
        order_sum(nodes, idx) >= 0,
    decreases idx.len(),
{
    if idx.len() > 0 {
        if k == idx.len() {
            assert(idx.subrange(0, k) =~= idx);
            lemma_order_sum_prefix(nodes, idx.drop_last(), 0);
        } else {
            assert(idx.drop_last().subrange(0, k) =~= idx.subrange(0, k));
            lemma_order_sum_prefix(nodes, idx.drop_last(), k);
        }
    } else {
        assert(idx.subrange(0, k) =~= idx);
    }
}

/// Sum of `vals` at the positions `idx`.
pub open spec fn sum_over(vals: Seq<int>, idx: Seq<usize>) -> int
    decreases idx.len(),
{
    if idx.len() == 0 {
        0
    } else {
        sum_over(vals, idx.drop_last()) + vals[idx.last() as int]
    }
}

/// Each node's value is its base plus the values of its inputs.
pub open spec fn accumulates(net: &Network, base: Seq<int>, vals: Seq<int>) -> bool {
    &&& base.len() == net.nodes@.len()
    &&& vals.len() == net.nodes@.len()
    &&& forall|i: int|
        0 <= i < vals.len() ==> #[trigger] vals[i] == base[i] + sum_over(vals, net.nodes@[i].inputs@)
}

/// The number a node contributes to an accumulation of `var`; in safe mode a
/// missing or non-numeric attribute counts as zero.
pub open spec fn base_of(n: Node, var: Seq<char>, safe: bool) -> Option<Decimal> {
    match n.attr(var) {
        Some(a) => match a.numeric() {
            Some(d) => Some(d),
            None => if safe {
                Some(Decimal { units: 0, scale: 0 })
            } else {
                None
            },
        },
        None => if safe {
            Some(Decimal { units: 0, scale: 0 })
        } else {
            None
        },
    }
}

/// The largest number of places among the bases of the first `m` nodes.
pub open spec fn scale_upto(nodes: Seq<Node>, var: Seq<char>, safe: bool, m: int) -> nat
    decreases m,
{
    if m <= 0 {
        0
    } else {
        let s = scale_upto(nodes, var, safe, m - 1);
        let d: nat = match base_of(nodes[m - 1], var, safe) {
            Some(d) => d.scale as nat,
            None => 0,
        };
        if d > s {
            d
        } else {
            s
        }
    }
}

/// The bases of all nodes, as integers at the common number of places.
pub open spec fn scaled_bases(nodes: Seq<Node>, var: Seq<char>, safe: bool) -> Seq<int> {
    let s = scale_upto(nodes, var, safe, nodes.len() as int);
    Seq::new(
        nodes.len(),
        |i: int|
            match base_of(nodes[i], var, safe) {
                Some(d) => d.units * pow10((s - d.scale) as nat),
                None => 0,
            },
    )
}

/// The units of the decimal each node holds under `key`.
pub open spec fn units_under(nodes: Seq<Node>, key: Seq<char>) -> Seq<int> {
    Seq::new(
        nodes.len(),
        |i: int|
            match nodes[i].attr(key) {
                Some(NodeAttr::Value(d)) => d.units as int,
                _ => 0,
            },
    )
}

/// Why `cumulate` stopped.
#[derive(Clone, Copy, PartialEq, Eq, Structural, Debug)]
pub enum CumulateError {
    /// Following inputs upstream never ends: the links hold a cycle.
    Cycle,
    /// The node at this index lacks the attribute.
    Missing { node: usize },
    /// The node at this index holds the attribute, but not as a number.
    NotNumeric { node: usize },
    /// A sum leaves the range of `i64`.
    Overflow,
}

proof fn lemma_sum_over_frame(a: Seq<int>, b: Seq<int>, idx: Seq<usize>)
    requires
        forall|k: int| 0 <= k < idx.len() ==> a[idx[k] as int] == b[idx[k] as int],
    ensures
        sum_over(a, idx) == sum_over(b, idx),
    decreases idx.len(),
{
    if idx.len() > 0 {
        let init = idx.drop_last();
        assert forall|k: int| 0 <= k < init.len() implies a[init[k] as int] == b[init[k] as int] by {
            assert(init[k] == idx[k]);
        }
        lemma_sum_over_frame(a, b, init);
    }
}

proof fn lemma_scale_upto(nodes: Seq<Node>, var: Seq<char>, safe: bool, m: int)
    requires
        0 <= m <= nodes.len(),
        forall|i: int| 0 <= i < m ==> ((#[trigger] base_of(nodes[i], var, safe)) matches Some(d) && d.wf()),
    ensures
        scale_upto(nodes, var, safe, m) <= MAX_SCALE,
        forall|i: int| 0 <= i < m ==> (#[trigger] base_of(nodes[i], var, safe))->0.scale <= scale_upto(nodes, var, safe, m),
        forall|m2: int| m <= m2 <= nodes.len() ==> scale_upto(nodes, var, safe, m) <= #[trigger] scale_upto(nodes, var, safe, m2),
    decreases m,
{
    if m > 0 {
        lemma_scale_upto(nodes, var, safe, m - 1);
    }
    lemma_scale_mono(nodes, var, safe, m);
}

proof fn lemma_scale_mono(nodes: Seq<Node>, var: Seq<char>, safe: bool, m: int)
    requires
        0 <= m <= nodes.len(),
    ensures
        forall|m2: int| m <= m2 <= nodes.len() ==> scale_upto(nodes, var, safe, m) <= #[trigger] scale_upto(nodes, var, safe, m2),
    decreases nodes.len() - m,
{
    if m < nodes.len() {
        lemma_scale_mono(nodes, var, safe, m + 1);
    }
}

/// A base of one at each of `n` nodes.
pub open spec fn ones(n: nat) -> Seq<int> {
    Seq::new(n, |i: int| 1)
}

/// Some value of `f` exceeds `usize::MAX`.
pub open spec fn exceeds_usize(f: Seq<int>) -> bool {
    exists|i: int| 0 <= i < f.len() && #[trigger] f[i] > usize::MAX
}

/// The machine integers as mathematical ones.
pub open spec fn ints(v: Seq<i128>) -> Seq<int> {
    v.map_values(|b: i128| b as int)
}

/// Some value of `v` does not fit in `i64`.
pub open spec fn leaves_i64(v: Seq<int>) -> bool {
    exists|i: int| 0 <= i < v.len() && !(i64::MIN <= #[trigger] v[i] <= i64::MAX)
}

/// A bound on the magnitude of a base value scaled to at most `MAX_SCALE`
/// places: `2^63 · 10^18`.
pub open spec fn base_bound() -> int {
    (9223372036854775808 * 1_000_000_000_000_000_000) as int
}

impl Network {
    /// Where every accumulation of `bs` gives node `x` the value `t`, and `t`
    /// does not fit in `i64`, every accumulation has a value outside `i64`.
    proof fn lemma_overflow_at(&self, bs: Seq<int>, x: int, t: int)
        requires
            0 <= x < self.nodes@.len(),
            !(i64::MIN <= t <= i64::MAX),
            forall|v: Seq<int>| #[trigger] accumulates(self, bs, v) ==> v[x] == t,
        ensures
            forall|v: Seq<int>|
                #[trigger] accumulates(self, bs, v) ==> leaves_i64(v),
    {
        assert forall|v: Seq<int>| #[trigger] accumulates(self, bs, v) implies leaves_i64(v) by {
            assert(v[x] == t);
        }
    }

    /// Everything but the attributes agrees with `other`.
    pub open spec fn same_but_attrs(&self, other: &Network) -> bool {
        &&& self.nodes@.len() == other.nodes@.len()
        &&& forall|i: int|
            0 <= i < self.nodes@.len() ==> {
                let a = #[trigger] self.nodes@[i];
                let b = other.nodes@[i];
                &&& a.index == b.index
                &&& a.name == b.name
                &&& a.inputs == b.inputs
                &&& a.output == b.output
                &&& a.order == b.order
                &&& a.level == b.level
            }
    }

    /// The base value of each node for an accumulation of `var`, and the
    /// largest number of places among them.
    #[verifier::loop_isolation(false)]
    fn read_bases(&self, var: &str, safe: bool) -> (r: Result<(Vec<Decimal>, u8), CumulateError>)
        ensures
            match r {
                Ok((bases, s)) => {
                    &&& bases@.len() == self.nodes@.len()
                    &&& s as nat == scale_upto(self.nodes@, var@, safe, self.nodes@.len() as int)
                    &&& forall|i: int|
                        0 <= i < self.nodes@.len() ==> base_of(self.nodes@[i], var@, safe) == Some(
                            #[trigger] bases@[i],
                        )
                    &&& forall|i: int| 0 <= i < self.nodes@.len() ==> (#[trigger] bases@[i]).wf()
                    &&& forall|i: int|
                        0 <= i < self.nodes@.len() ==> ((#[trigger] base_of(self.nodes@[i], var@, safe)) matches Some(d)
                            && d.wf())
                },
                Err(CumulateError::Missing { node }) => {
                    &&& !safe
                    &&& node < self.nodes@.len()
                    &&& self.nodes@[node as int].attr(var@) is None
                    &&& forall|j: int| 0 <= j < node ==> (#[trigger] base_of(self.nodes@[j], var@, safe)) is Some
                },
                Err(CumulateError::NotNumeric { node }) => {
                    &&& !safe
                    &&& node < self.nodes@.len()
                    &&& self.nodes@[node as int].attr(var@) matches Some(a) && a.numeric() is None
                    &&& forall|j: int| 0 <= j < node ==> (#[trigger] base_of(self.nodes@[j], var@, safe)) is Some
                },
                _ => false,
            },
    {
        let n = self.nodes.len();
        let mut bases: Vec<Decimal> = Vec::new();
        let mut s: u8 = 0;
        let mut i: usize = 0;
        while i < n
            invariant
                i <= n,
                bases@.len() == i,
                s as nat == scale_upto(self.nodes@, var@, safe, i as int),
                forall|ii: int| 0 <= ii < i ==> base_of(self.nodes@[ii], var@, safe) == Some(#[trigger] bases@[ii]),
                forall|ii: int| 0 <= ii < i ==> (#[trigger] bases@[ii]).wf(),
                forall|ii: int|
                    0 <= ii < i ==> ((#[trigger] base_of(self.nodes@[ii], var@, safe)) matches Some(d) && d.wf()),
            decreases n - i,
        {
            let d = match self.nodes[i].get_attr(var) {
                Some(a) => match a.read_value() {
                    Some(d) => d,
                    None => {
                        if safe {
                            Decimal::whole(0)
                        } else {
                            return Err(CumulateError::NotNumeric { node: i });
                        }
                    },
                },
                None => {
                    if safe {
                        Decimal::whole(0)
                    } else {
                        return Err(CumulateError::Missing { node: i });
                    }
                },
            };
            if d.scale > s {
                s = d.scale;
            }
            bases.push(d);
            i = i + 1;
        }
        Ok((bases, s))
    }

    /// Values that accumulate `base` downstream, handling nodes in the order
    /// `seq`; none where a value leaves the range of `i64`.
    #[verifier::loop_isolation(false)]
    fn accumulate_values(&self, seq: &Vec<usize>, base: &Vec<i128>) -> (r: Option<Vec<i128>>)
        requires
            self.wf(),
            self.upstream_first(seq@),
            base@.len() == self.nodes@.len(),
            forall|i: int| 0 <= i < base@.len() ==> -base_bound() <= #[trigger] base@[i] <= base_bound(),
        ensures
            r matches Some(v) ==> {
                &&& accumulates(self, ints(base@), v@.map_values(|x: i128| x as int))
                &&& forall|i: int| 0 <= i < v@.len() ==> i64::MIN <= #[trigger] v@[i] <= i64::MAX
            },
            r is None ==> forall|v: Seq<int>|
                #[trigger] accumulates(self, ints(base@), v) ==> leaves_i64(v),
    {
        let n = self.nodes.len();
        let ghost bs = ints(base@);
        let mut cum: Vec<i128> = Vec::new();
        let mut i: usize = 0;
        while i < n
            invariant
                i <= n,
                cum@.len() == i,
                forall|ii: int| 0 <= ii < i ==> #[trigger] cum@[ii] == 0,
            decreases n - i,
        {
            cum.push(0);
            i = i + 1;
        }
        assert(seq@.subrange(0, 0) =~= Seq::<usize>::empty());
        let mut j: usize = 0;
        while j < n
            invariant
                j <= n,
                cum@.len() == n,
                forall|jj: int| 0 <= jj < j ==> {
                    let x = #[trigger] seq@[jj] as int;
                    &&& cum@[x] as int == bs[x] + sum_over(cum@.map_values(|v: i128| v as int), self.nodes@[x].inputs@)
                    &&& i64::MIN <= cum@[x] <= i64::MAX
                },
                forall|ii: int|
                    0 <= ii < n && !seq@.subrange(0, j as int).contains(ii as usize) ==> #[trigger] cum@[ii] == 0,
                forall|ii: int| 0 <= ii < n ==> i64::MIN <= #[trigger] cum@[ii] <= i64::MAX,
                forall|v: Seq<int>|
                    #[trigger] accumulates(self, bs, v) ==> forall|jj: int|
                        0 <= jj < j ==> v[#[trigger] seq@[jj] as int] == cum@[seq@[jj] as int] as int,
            decreases n - j,
        {
            let x = seq[j];
            let ghost ins = self.nodes@[x as int].inputs@;
            let ghost vals = cum@.map_values(|v: i128| v as int);
            proof {
                assert forall|v: Seq<int>| #[trigger] accumulates(self, bs, v) implies v[x as int] == bs[x as int]
                    + sum_over(vals, ins) by {
                    assert forall|kk: int| 0 <= kk < ins.len() implies v[ins[kk] as int] == vals[ins[kk] as int] by {
                        assert(seq@.subrange(0, j as int).contains(ins[kk]));
                        let pre = seq@.subrange(0, j as int);
                        let p = choose|p: int| 0 <= p < pre.len() && pre[p] == ins[kk];
                        assert(seq@[p] == ins[kk]);
                        assert(self.inputs()[x as int][kk] == ins[kk]);
                    }
                    lemma_sum_over_frame(v, vals, ins);
                }
            }
            let mut acc: i128 = 0;
            let m = self.nodes[x].inputs.len();
            let mut k: usize = 0;
            assert(ins.subrange(0, 0) =~= Seq::<usize>::empty());
            while k < self.nodes[x].inputs.len()
                invariant
                    ins == self.nodes@[x as int].inputs@,
                    vals == cum@.map_values(|v: i128| v as int),
                    k <= ins.len(),
                    ins.len() <= usize::MAX,
                    acc as int == sum_over(vals, ins.subrange(0, k as int)),
                    -(k as int) * 9223372036854775808 <= acc as int <= (k as int) * 9223372036854775808,
                decreases ins.len() - k,
            {
                let c = self.nodes[x].inputs[k];
                assert(ins[k as int] == c);
                assert(c < n) by {
                    assert(self.inputs()[x as int][k as int] == c);
                }
                assert(ins.subrange(0, k + 1).drop_last() =~= ins.subrange(0, k as int));
                proof {
                    let kk = k as int;
                    assert((kk + 1) * 9223372036854775808 <= 18446744073709551615 * 9223372036854775808) by (nonlinear_arith)
                        requires
                            0 <= kk < 18446744073709551615,
                    ;
                    assert(kk * 9223372036854775808 + 9223372036854775808 == (kk + 1) * 9223372036854775808) by (nonlinear_arith);
                }
                acc = acc + cum[c];
                k = k + 1;
            }
            assert(ins.subrange(0, k as int) =~= ins);
            let bound: i128 = 42535295865117307932921825928971026432;
            if acc > bound || acc < -bound {
                proof {
                    self.lemma_overflow_at(bs, x as int, acc as int + bs[x as int]);
                }
                return None;
            }
            let acc = acc + base[x];
            if acc < i64::MIN as i128 || acc > i64::MAX as i128 {
                proof {
                    self.lemma_overflow_at(bs, x as int, acc as int);
                }
                return None;
            }
            let ghost old_cum = cum@;
            cum.set(x, acc);
            proof {
                let nv = cum@.map_values(|v: i128| v as int);
                assert forall|v: Seq<int>| #[trigger] accumulates(self, bs, v) implies forall|jj: int|
                    0 <= jj <= j ==> v[#[trigger] seq@[jj] as int] == cum@[seq@[jj] as int] as int by {
                    assert forall|jj: int| 0 <= jj <= j implies v[#[trigger] seq@[jj] as int] == cum@[seq@[jj] as int] as int by {
                        if jj < j {
                            assert(seq@.subrange(0, j as int)[jj] == seq@[jj]);
                            assert(seq@[jj] != x);
                        }
                    }
                }
                assert(!seq@.subrange(0, j as int).contains(x)) by {
                    if seq@.subrange(0, j as int).contains(x) {
                        let pre = seq@.subrange(0, j as int);
                        let p = choose|p: int| 0 <= p < pre.len() && pre[p] == x;
                        assert(seq@[p] == seq@[j as int]);
                    }
                }
                assert forall|kk: int| 0 <= kk < ins.len() implies nv[ins[kk] as int] == vals[ins[kk] as int] by {
                    assert(self.inputs()[x as int][kk] == ins[kk]);
                    assert(self.outputs()[ins[kk] as int] == Some(x));
                }
                lemma_sum_over_frame(nv, vals, ins);
                assert forall|jj: int| 0 <= jj <= j implies {
                    let y = #[trigger] seq@[jj] as int;
                    &&& cum@[y] as int == bs[y] + sum_over(nv, self.nodes@[y].inputs@)
                    &&& i64::MIN <= cum@[y] <= i64::MAX
                } by {
                    if jj < j {
                        let y = seq@[jj] as int;
                        let yins = self.nodes@[y].inputs@;
                        assert(y != x) by {
                            assert(seq@.subrange(0, j as int)[jj] == seq@[jj]);
                        }
                        assert forall|kk: int| 0 <= kk < yins.len() implies nv[yins[kk] as int] == vals[yins[kk] as int] by {
                            assert(seq@.subrange(0, jj).contains(yins[kk]));
                            let pre = seq@.subrange(0, jj);
                            let p = choose|p: int| 0 <= p < pre.len() && pre[p] == yins[kk];
                            assert(seq@[p] == yins[kk]);
                            assert(seq@.subrange(0, j as int)[p] == yins[kk]);
                            assert(self.inputs()[y][kk] == yins[kk]);
                        }
                        lemma_sum_over_frame(nv, vals, yins);
                    }
                }
                assert forall|ii: int|
                    0 <= ii < n && !seq@.subrange(0, j + 1).contains(ii as usize) implies #[trigger] cum@[ii] == 0 by {
                    if ii == x {
                        assert(seq@.subrange(0, j + 1)[j as int] == x);
                    } else {
                        if seq@.subrange(0, j as int).contains(ii as usize) {
                            let pre = seq@.subrange(0, j as int);
                            let p = choose|p: int| 0 <= p < pre.len() && pre[p] == ii as usize;
                            assert(seq@.subrange(0, j + 1)[p] == ii as usize);
                        }
                    }
                }
            }
            j = j + 1;
        }
        let ghost vals = cum@.map_values(|v: i128| v as int);
        proof {
            assert forall|i: int| 0 <= i < n implies #[trigger] vals[i] == bs[i] + sum_over(vals, self.nodes@[i].inputs@)
                && i64::MIN <= cum@[i] <= i64::MAX by {
                lemma_seq_bound(seq@, n);
                assert(seq@.contains(i as usize));
                let p = choose|p: int| 0 <= p < n && seq@[p] == i as usize;
                assert(seq@[p] as int == i);
            }
        }
        Some(cum)
    }

    /// Stores under `cum_<var>`, for every node, the sum of the base values of
    /// that node and of every node upstream of it. In strict mode (`safe` off)
    /// a node without a numeric `var` is an error; in safe mode it counts as
    /// zero. The sums are exact, at the largest number of places of any base.
    #[verifier::loop_isolation(false)]
    pub fn cumulate(&mut self, var: &str, safe: bool) -> (r: Result<(), CumulateError>)
        requires
            old(self).wf(),
        ensures
            r is Err ==> *final(self) == *old(self),
            r == Err::<(), CumulateError>(CumulateError::Cycle) <==> old(self).has_cycle(),
            r matches Err(CumulateError::Missing { node }) ==> {
                &&& !safe
                &&& node < old(self).nodes@.len()
                &&& old(self).nodes@[node as int].attr(var@) is None
                &&& forall|j: int| 0 <= j < node ==> (#[trigger] base_of(old(self).nodes@[j], var@, safe)) is Some
            },
            r matches Err(CumulateError::NotNumeric { node }) ==> {
                &&& !safe
                &&& node < old(self).nodes@.len()
                &&& old(self).nodes@[node as int].attr(var@) matches Some(a) && a.numeric() is None
                &&& forall|j: int| 0 <= j < node ==> (#[trigger] base_of(old(self).nodes@[j], var@, safe)) is Some
            },
            r == Err::<(), CumulateError>(CumulateError::Overflow) ==> forall|v: Seq<int>|
                #[trigger] accumulates(old(self), scaled_bases(old(self).nodes@, var@, safe), v) ==> leaves_i64(v),
            r is Ok || r == Err::<(), CumulateError>(CumulateError::Overflow) ==> forall|i: int|
                0 <= i < old(self).nodes@.len() ==> (#[trigger] base_of(old(self).nodes@[i], var@, safe)) is Some,
            r is Ok ==> {
                let key = "cum_"@ + var@;
                let s = scale_upto(old(self).nodes@, var@, safe, old(self).nodes@.len() as int);
                &&& final(self).wf()
                &&& final(self).same_but_attrs(old(self))
                &&& forall|i: int|
                    0 <= i < final(self).nodes@.len() ==> ((#[trigger] final(self).nodes@[i]).attr(key) matches Some(
                        NodeAttr::Value(d),
                    ) && d.scale == s && d.wf())
                &&& forall|i: int, k: Seq<char>|
                    0 <= i < final(self).nodes@.len() && k != key ==> (#[trigger] final(self).nodes@[i].attr(k))
                        == old(self).nodes@[i].attr(k)
                &&& accumulates(
                    old(self),
                    scaled_bases(old(self).nodes@, var@, safe),
                    units_under(final(self).nodes@, key),
                )
            },
    {
        let seq = match self.upstream_order() {
            Some(seq) => seq,
            None => {
                return Err(CumulateError::Cycle);
            },
        };
        let n = self.nodes.len();
        proof {
            self.lemma_upstream_first_acyclic(seq@);
        }
        let (bases, s) = match self.read_bases(var, safe) {
            Ok(b) => b,
            Err(e) => {
                return Err(e);
            },
        };
        proof {
            lemma_scale_upto(self.nodes@, var@, safe, n as int);
        }
        let ghost base = scaled_bases(self.nodes@, var@, safe);
        let mut norm: Vec<i128> = Vec::new();
        let mut i: usize = 0;
        while i < n
            invariant
                i <= n,
                norm@.len() == i,
                forall|ii: int| 0 <= ii < i ==> (#[trigger] norm@[ii]) as int == base[ii],
                forall|ii: int| 0 <= ii < i ==> -base_bound() <= (#[trigger] norm@[ii]) <= base_bound(),
            decreases n - i,
        {
            let d = bases[i];
            assert(d.scale <= s);
            let p = pow10_i128(s - d.scale);
            proof {
                lemma_pow10_bounds((s - d.scale) as nat);
                let u = d.units as int;
                let q = p as int;
                assert(-9223372036854775808 * 1_000_000_000_000_000_000 <= u * q <= 9223372036854775807
                    * 1_000_000_000_000_000_000) by (nonlinear_arith)
                    requires
                        -9223372036854775808 <= u <= 9223372036854775807,
                        1 <= q <= 1_000_000_000_000_000_000,
                ;
            }
            norm.push((d.units as i128) * p);
            i = i + 1;
        }
        assert(ints(norm@) =~= base);
        let cum = match self.accumulate_values(&seq, &norm) {
            Some(c) => c,
            None => {
                return Err(CumulateError::Overflow);
            },
        };
        let ghost vals = cum@.map_values(|v: i128| v as int);
        let ghost start = *self;
        let mut key = String::from_str("cum_");
        key.append(var);
        let mut i: usize = 0;
        while i < n
            invariant
                i <= n,
                key@ == "cum_"@ + var@,
                self.nodes@.len() == n,
                self.same_but_attrs(&start),
                forall|ii: int| i <= ii < n ==> #[trigger] self.nodes@[ii] == start.nodes@[ii],
                forall|ii: int|
                    0 <= ii < i ==> (#[trigger] self.nodes@[ii]).attr(key@) == Some(
                        NodeAttr::Value(Decimal { units: cum@[ii] as i64, scale: s }),
                    ),
                forall|ii: int, k: Seq<char>|
                    0 <= ii < n && k != key@ ==> (#[trigger] self.nodes@[ii].attr(k)) == start.nodes@[ii].attr(k),
            decreases n - i,
        {
            let d = Decimal { units: cum[i] as i64, scale: s };
            self.nodes[i].set_attr(key.as_str(), NodeAttr::Value(d));
            i = i + 1;
        }
        proof {
            assert(self.outputs() =~= start.outputs());
            assert(self.inputs() =~= start.inputs());
            assert(self.names() =~= start.names());
            let got = units_under(self.nodes@, key@);
            assert(got =~= vals);
        }
        Ok(())
    }
}

impl Network {
    /// Everything but the orders agrees with `other`.
    pub open spec fn same_but_order(&self, other: &Network) -> bool {
        &&& self.nodes@.len() == other.nodes@.len()
        &&& forall|i: int|
            0 <= i < self.nodes@.len() ==> {
                let a = #[trigger] self.nodes@[i];
                let b = other.nodes@[i];
                &&& a.index == b.index
                &&& a.name == b.name
                &&& a.inputs == b.inputs
                &&& a.output == b.output
                &&& a.level == b.level
                &&& a.attrs == b.attrs
            }
    }

    /// Gives every node its order: one for a node without inputs, else one
    /// more than the sum of its inputs' orders.
    #[verifier::loop_isolation(false)]
    #[verifier::rlimit(60)]
    pub fn order(&mut self) -> (r: Result<(), OrderError>)
        requires
            old(self).wf(),
        ensures
            final(self).wf(),
            final(self).same_but_order(old(self)),
            r is Ok ==> forall|i: int|
                0 <= i < final(self).nodes@.len() ==> order_holds_at(final(self).nodes@, i),
            r == Err::<(), OrderError>(OrderError::Cycle) <==> old(self).has_cycle(),
            r == Err::<(), OrderError>(OrderError::Overflow) ==> forall|f: Seq<int>|
                #[trigger] accumulates(old(self), ones(old(self).nodes@.len()), f) ==> exceeds_usize(f),
            r == Err::<(), OrderError>(OrderError::Overflow) ==> {
                &&& forall|i: int|
                    0 <= i < final(self).nodes@.len() && (#[trigger] final(self).nodes@[i]).order is Some
                        ==> order_holds_at(final(self).nodes@, i)
                &&& exists|i: int|
                    0 <= i < final(self).nodes@.len() && (forall|k: int|
                        0 <= k < final(self).nodes@[i].inputs@.len()
                            ==> (#[trigger] final(self).nodes@[final(self).nodes@[i].inputs@[k] as int]).order is Some)
                        && 1 + order_sum(final(self).nodes@, final(self).nodes@[i].inputs@) > usize::MAX
            },
    {
        let seq = match self.upstream_order() {
            Some(seq) => seq,
            None => {
                return Err(OrderError::Cycle);
            },
        };
        let ghost start = *self;
        let n = self.nodes.len();
        proof {
            self.lemma_upstream_first_acyclic(seq@);
        }
        let mut i: usize = 0;
        while i < n
            invariant
                n == self.nodes@.len(),
                self.same_but_order(&start),
                start.wf(),
                i <= n,
                forall|ii: int| 0 <= ii < i ==> (#[trigger] self.nodes@[ii]).order is None,
            decreases n - i,
        {
            self.nodes[i].order = None;
            i = i + 1;
        }
        proof {
            self.lemma_same_but_order_wf(&start);
        }
        let mut j: usize = 0;
        while j < n
            invariant
                n == self.nodes@.len(),
                start.upstream_first(seq@),
                self.same_but_order(&start),
                start.wf(),
                self.wf(),
                !start.has_cycle(),
                j <= n,
                forall|jj: int| 0 <= jj < j ==> order_holds_at(self.nodes@, #[trigger] seq@[jj] as int),
                forall|ii: int|
                    0 <= ii < n ==> ((#[trigger] self.nodes@[ii]).order is Some <==> seq@.subrange(
                        0,
                        j as int,
                    ).contains(ii as usize)),
                forall|f: Seq<int>|
                    #[trigger] accumulates(&start, ones(n as nat), f) ==> forall|jj: int|
                        0 <= jj < j ==> f[#[trigger] seq@[jj] as int] == self.nodes@[seq@[jj] as int].order->0,
            decreases n - j,
        {
            let x = seq[j];
            let ghost ins = self.nodes@[x as int].inputs@;
            proof {
                assert forall|k: int| 0 <= k < ins.len() implies (#[trigger] self.nodes@[ins[k] as int]).order is Some by {
                    assert(start.nodes@[x as int].inputs@[k] == ins[k]);
                    assert(seq@.subrange(0, j as int).contains(ins[k]));
                    assert(ins[k] < n) by {
                        assert(self.inputs()[x as int][k] == ins[k]);
                    }
                }
                assert forall|f: Seq<int>| #[trigger] accumulates(&start, ones(n as nat), f) implies f[x as int] == 1
                    + order_sum(self.nodes@, ins) by {
                    assert forall|k: int| 0 <= k < ins.len() implies ((#[trigger] self.nodes@[ins[k] as int]).order matches Some(v)
                        && f[ins[k] as int] == v) by {
                        assert(start.nodes@[x as int].inputs@[k] == ins[k]);
                        let pre = seq@.subrange(0, j as int);
                        assert(pre.contains(ins[k]));
                        let p = choose|p: int| 0 <= p < pre.len() && pre[p] == ins[k];
                        assert(seq@[p] == ins[k]);
                        assert(self.inputs()[x as int][k] == ins[k]);
                    }
                    lemma_sums_agree(self.nodes@, f, ins);
                    assert(start.nodes@[x as int].inputs@ == ins);
                    assert(ones(n as nat)[x as int] == 1);
                }
            }
            let mut acc: usize = 0;
            let mut k: usize = 0;
            assert(ins.subrange(0, 0) =~= Seq::<usize>::empty());
            while k < self.nodes[x].inputs.len()
                invariant
                    n == self.nodes@.len(),
                    (x as int) < n,
                    ins == self.nodes@[x as int].inputs@,
                    k <= ins.len(),
                    acc == order_sum(self.nodes@, ins.subrange(0, k as int)),
                    forall|kk: int| 0 <= kk < ins.len() ==> (#[trigger] self.nodes@[ins[kk] as int]).order is Some,
                    forall|kk: int| 0 <= kk < ins.len() ==> (ins[kk] as int) < n,
                decreases ins.len() - k,
            {
                let c = self.nodes[x].inputs[k];
                assert(ins[k as int] == c);
                let v = self.nodes[c].order.unwrap();
                assert(ins.subrange(0, k + 1).drop_last() =~= ins.subrange(0, k as int));
                match acc.checked_add(v) {
                    Some(t) => {
                        acc = t;
                    },
                    None => {
                        proof {
                            lemma_order_sum_prefix(self.nodes@, ins, k + 1);
                            self.lemma_orders_hold(&start, seq@, j as int);
                            lemma_exceeds(&start, n as nat, x as int);
                        }
                        return Err(OrderError::Overflow);
                    },
                }
                k = k + 1;
            }
            assert(ins.subrange(0, k as int) =~= ins);
            if acc == usize::MAX {
                proof {
                    self.lemma_orders_hold(&start, seq@, j as int);
                    lemma_exceeds(&start, n as nat, x as int);
                }
                return Err(OrderError::Overflow);
            }
            let ghost before = self.nodes@;
            self.nodes[x].order = Some(acc + 1);
            proof {
                assert forall|f: Seq<int>| #[trigger] accumulates(&start, ones(n as nat), f) implies forall|jj: int|
                    0 <= jj <= j ==> f[#[trigger] seq@[jj] as int] == self.nodes@[seq@[jj] as int].order->0 by {
                    assert forall|jj: int| 0 <= jj <= j implies f[#[trigger] seq@[jj] as int] == self.nodes@[seq@[jj] as int].order->0 by {
                        if jj < j {
                            assert(seq@.subrange(0, j as int)[jj] == seq@[jj]);
                            assert(seq@[jj] != x);
                            assert(self.nodes@[seq@[jj] as int] == before[seq@[jj] as int]);
                        }
                    }
                }
                assert(seq@.subrange(0, j + 1) =~= seq@.subrange(0, j as int).push(x));
                assert(!seq@.subrange(0, j as int).contains(x)) by {
                    if seq@.subrange(0, j as int).contains(x) {
                        let p = choose|p: int| 0 <= p < j && seq@.subrange(0, j as int)[p] == x;
                        assert(seq@[p] == seq@[j as int]);
                    }
                }
                lemma_order_sum_frame(self.nodes@, before, ins);
                assert forall|jj: int| 0 <= jj <= j implies order_holds_at(self.nodes@, #[trigger] seq@[jj] as int) by {
                    if jj < j {
                        let y = seq@[jj] as int;
                        let yins = self.nodes@[y].inputs@;
                        assert(y != x) by {
                            assert(seq@.subrange(0, j as int)[jj] == seq@[jj]);
                        }
                        assert forall|kk: int| 0 <= kk < yins.len() implies before[yins[kk] as int].order == self.nodes@[yins[kk] as int].order by {
                            assert(start.nodes@[y].inputs@[kk] == yins[kk]);
                            assert(seq@.subrange(0, jj).contains(yins[kk]));
                            let p = choose|p: int| 0 <= p < jj && seq@.subrange(0, jj)[p] == yins[kk];
                            assert(seq@[p] == yins[kk]);
                            assert(seq@.subrange(0, j as int)[p] == yins[kk]);
                        }
                        lemma_order_sum_frame(self.nodes@, before, yins);
                    }
                }
                assert forall|ii: int|
                    0 <= ii < n implies ((#[trigger] self.nodes@[ii]).order is Some <==> seq@.subrange(
                        0,
                        j + 1,
                    ).contains(ii as usize)) by {
                    if ii != x {
                        assert(self.nodes@[ii] == before[ii]);
                        let pre = seq@.subrange(0, j + 1);
                        if pre.contains(ii as usize) {
                            let p = choose|p: int| 0 <= p < pre.len() && pre[p] == ii as usize;
                            assert(seq@.subrange(0, j as int)[p] == ii as usize);
                        }
                        if seq@.subrange(0, j as int).contains(ii as usize) {
                            let p = choose|p: int| 0 <= p < j && seq@.subrange(0, j as int)[p] == ii as usize;
                            assert(seq@.subrange(0, j + 1)[p] == ii as usize);
                        }
                    } else {
                        assert(seq@.subrange(0, j + 1)[j as int] == x);
                    }
                }
                self.lemma_same_but_order_wf(&start);
            }
            j = j + 1;
        }
        proof {
            assert forall|i: int| 0 <= i < n implies order_holds_at(self.nodes@, i) by {
                lemma_seq_bound(seq@, n);
                assert(seq@.contains(i as usize));
                let p = choose|p: int| 0 <= p < n && seq@[p] == i as usize;
                assert(order_holds_at(self.nodes@, seq@[p] as int));
            }
        }
        Ok(())
    }

    proof fn lemma_same_but_order_wf(&self, other: &Network)
        requires
            other.wf(),
            self.same_but_order(other),
        ensures
            self.wf(),
    {
        assert(self.outputs() =~= other.outputs());
        assert(self.inputs() =~= other.inputs());
        assert(self.names() =~= other.names());
    }

    /// In the middle of `order`: every node that has an order obeys the rule.
    proof fn lemma_orders_hold(&self, start: &Network, seq: Seq<usize>, j: int)
        requires
            0 <= j <= seq.len(),
            self.nodes@.len() <= usize::MAX,
            forall|jj: int| 0 <= jj < j ==> order_holds_at(self.nodes@, #[trigger] seq[jj] as int),
            forall|ii: int|
                0 <= ii < self.nodes@.len() ==> ((#[trigger] self.nodes@[ii]).order is Some <==> seq.subrange(0, j).contains(ii as usize)),
        ensures
            forall|i: int|
                0 <= i < self.nodes@.len() && (#[trigger] self.nodes@[i]).order is Some ==> order_holds_at(self.nodes@, i),
    {
        assert forall|i: int|
            0 <= i < self.nodes@.len() && (#[trigger] self.nodes@[i]).order is Some implies order_holds_at(self.nodes@, i) by {
            let pre = seq.subrange(0, j);
            let p = choose|p: int| 0 <= p < pre.len() && pre[p] == i as usize;
            assert(seq[p] == i as usize);
        }
    }
}



proof fn lemma_order_sum_ge(nodes: Seq<Node>, idx: Seq<usize>, k: int)
    requires
        0 <= k < idx.len(),
    ensures
        order_sum(nodes, idx) >= match nodes[idx[k] as int].order {
            Some(v) => v as int,
            None => 0,
        },
    decreases idx.len(),
{
    let init = idx.drop_last();
    if k < init.len() {
        assert(init[k] == idx[k]);
        lemma_order_sum_ge(nodes, init, k);
    } else {
        lemma_order_sum_prefix(nodes, init, 0);
    }
}

/// Once every node obeys the order rule, a node without inputs has order
/// one, and every node's order is larger than that of each of its inputs, so
/// orders grow along every path downstream.
pub proof fn lemma_order_grows_downstream(net: &Network, i: int)
    requires
        net.wf(),
        forall|j: int| 0 <= j < net.nodes@.len() ==> order_holds_at(net.nodes@, j),
        0 <= i < net.nodes@.len(),
    ensures
        net.nodes@[i].inputs@.len() == 0 ==> net.nodes@[i].order == Some(1usize),
        net.nodes@[i].output matches Some(o) ==> net.nodes@[i].order->0 < net.nodes@[o as int].order->0,
{
    assert(order_holds_at(net.nodes@, i));
    if net.nodes@[i].inputs@.len() == 0 {
        assert(order_sum(net.nodes@, net.nodes@[i].inputs@) == 0);
    }
    if let Some(o) = net.nodes@[i].output {
        assert(net.outputs()[i] == Some(o));
        let ins = net.nodes@[o as int].inputs@;
        assert(net.inputs()[o as int] == ins);
        assert(ins.contains(i as usize));
        let k = choose|k: int| 0 <= k < ins.len() && ins[k] == i as usize;
        assert(order_holds_at(net.nodes@, o as int));
        lemma_order_sum_ge(net.nodes@, ins, k);
    }
}

/// Where every unit accumulation gives node `x` more than `usize::MAX`,
/// every unit accumulation exceeds `usize::MAX` somewhere.
proof fn lemma_exceeds(net: &Network, n: nat, x: int)
    requires
        0 <= x < net.nodes@.len(),
        forall|f: Seq<int>| #[trigger] accumulates(net, ones(n), f) ==> f[x] > usize::MAX,
    ensures
        forall|f: Seq<int>| #[trigger] accumulates(net, ones(n), f) ==> exceeds_usize(f),
{
    assert forall|f: Seq<int>| #[trigger] accumulates(net, ones(n), f) implies exceeds_usize(f) by {
        assert(f[x] > usize::MAX);
    }
}

proof fn lemma_sums_agree(nodes: Seq<Node>, vals: Seq<int>, idx: Seq<usize>)
    requires
        forall|k: int| 0 <= k < idx.len() ==> ((#[trigger] nodes[idx[k] as int]).order matches Some(v) && vals[idx[k] as int] == v),
    ensures
        sum_over(vals, idx) == order_sum(nodes, idx),
    decreases idx.len(),
{
    if idx.len() > 0 {
        let init = idx.drop_last();
        assert forall|k: int| 0 <= k < init.len() implies ((#[trigger] nodes[init[k] as int]).order matches Some(v) && vals[init[k] as int] == v) by {
            assert(init[k] == idx[k]);
        }
        lemma_sums_agree(nodes, vals, init);
    }
}

proof fn lemma_unit_upto(net: &Network, vals: Seq<int>, m: nat)
    requires
        net.wf(),
        forall|j: int| 0 <= j < net.nodes@.len() ==> order_holds_at(net.nodes@, j),
        accumulates(net, Seq::new(net.nodes@.len(), |i: int| 1), vals),
    ensures
        forall|i: int|
            0 <= i < net.nodes@.len() && net.nodes@[i].order->0 <= m ==> vals[i] == #[trigger] net.nodes@[i].order->0,
    decreases m,
{
    if m > 0 {
        lemma_unit_upto(net, vals, (m - 1) as nat);
    }
    assert forall|i: int|
        0 <= i < net.nodes@.len() && net.nodes@[i].order->0 <= m implies vals[i] == #[trigger] net.nodes@[i].order->0 by {
        let ins = net.nodes@[i].inputs@;
        assert(order_holds_at(net.nodes@, i));
        assert forall|k: int| 0 <= k < ins.len() implies ((#[trigger] net.nodes@[ins[k] as int]).order matches Some(v) && vals[ins[k] as int] == v) by {
            let c = ins[k] as int;
            assert(net.inputs()[i][k] == ins[k]);
            assert(0 <= c < net.nodes@.len());
            assert(net.outputs()[c] == Some(i as usize));
            lemma_order_grows_downstream(net, c);
            assert(order_holds_at(net.nodes@, c));
        }
        lemma_sums_agree(net.nodes@, vals, ins);
        assert(vals[i] == 1 + sum_over(vals, ins));
    }
}

/// Accumulating a base of one at every node yields each node's order: the
/// accumulated value counts the node and everything upstream of it.
pub proof fn lemma_unit_accumulation_is_order(net: &Network, vals: Seq<int>)
    requires
        net.wf(),
        forall|j: int| 0 <= j < net.nodes@.len() ==> order_holds_at(net.nodes@, j),
        accumulates(net, Seq::new(net.nodes@.len(), |i: int| 1), vals),
    ensures
        forall|i: int| 0 <= i < net.nodes@.len() ==> vals[i] == #[trigger] net.nodes@[i].order->0,
{
    assert forall|i: int| 0 <= i < net.nodes@.len() implies vals[i] == #[trigger] net.nodes@[i].order->0 by {
        lemma_unit_upto(net, vals, net.nodes@[i].order->0 as nat);
    }
}

} // verus!
