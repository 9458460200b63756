use vstd::prelude::*;
use crate::args::GraphVizDirection;
use crate::attr::{lemma_pow10_bounds, pow10_i128, Decimal, MAX_SCALE};
use crate::fmt::{digits, push_digits};
use crate::network::{Network, Node};
use crate::render::{dfs_order, is_walk, level_of};
use crate::template::{render_parts, Template};
use crate::topo::lemma_seq_bound;

verus! {

/// What the graph-description output is drawn with.
pub struct GraphVizSettings {
    pub direction: GraphVizDirection,
    /// Attribute whose numeric value orders the nodes along the drawing.
    pub sort_by: Option<String>,
    pub node_shape: String,
    /// Distance between neighbouring nodes.
    pub node_offset: u64,
    pub label_shape: String,
    /// Distance of the labels beyond the farthest node.
    pub label_offset: u64,
    pub node_size: usize,
    pub node: Template,
    pub label: Template,
    pub url: Template,
}

/// Why a drawing could not be made.
#[derive(Clone, Copy, PartialEq, Eq, Structural, Debug)]
pub enum RenderError {
    /// The node at this index lacks the sort attribute.
    SortKeyMissing { node: usize },
    /// The node at this index holds the sort attribute, but not as a number.
    SortKeyNotNumeric { node: usize },
}

/// Every node holds a numeric `key`.
pub open spec fn keys_ok(nodes: Seq<Node>, key: Seq<char>) -> bool {
    forall|i: int| 0 <= i < nodes.len() ==> ((#[trigger] nodes[i].attr(key)) matches Some(a) && a.numeric() is Some)
}

/// The value of each node's `key`, as counts of `10^-MAX_SCALE`.
pub open spec fn sort_keys(nodes: Seq<Node>, key: Seq<char>) -> Seq<int> {
    Seq::new(nodes.len(), |i: int| nodes[i].attr(key)->0.numeric()->0.fixed())
}

/// `slots[t]` is the row of the node drawn `t`-th: `t` itself, or with a
/// sort attribute the node's rank by it.
pub open spec fn slots_ok(nodes: Seq<Node>, sort_by: Option<String>, w: Seq<usize>, slots: Seq<int>) -> bool {
    &&& slots.len() == w.len()
    &&& match sort_by {
        None => forall|t: int| 0 <= t < w.len() ==> #[trigger] slots[t] == t,
        Some(k) => keys_ok(nodes, k@) && exists|r: Seq<usize>|
            ranked(sort_keys(nodes, k@), r) && forall|t: int|
                0 <= t < w.len() ==> 0 <= #[trigger] slots[t] < r.len() && r[slots[t]] == w[t],
    }
}

/// Largest of `v`, zero for none.
pub open spec fn max_of(v: Seq<int>) -> int
    decreases v.len(),
{
    if v.len() == 0 {
        0
    } else {
        let m = max_of(v.drop_last());
        if v.last() > m {
            v.last()
        } else {
            m
        }
    }
}

pub open spec fn num(v: int) -> Seq<char> {
    digits(v as nat)
}

/// `,URL="..."` where the URL is not empty.
pub open spec fn url_part(url: Seq<char>) -> Seq<char> {
    if url.len() > 0 {
        ",URL=\""@ + url + "\""@
    } else {
        Seq::empty()
    }
}

/// The statements for one node drawn at `(x, y)` with its label at `(lx, ly)`.
pub open spec fn dot_node(nodes: Seq<Node>, st: GraphVizSettings, i: int, x: int, y: int, lx: int, ly: int) -> Seq<Seq<char>> {
    let n = nodes[i];
    let idx = num(n.index as int);
    let url = render_parts(st.url@, n);
    let head = seq![
        idx + " [pos=\""@ + num(x) + ","@ + num(y) + "!\", size="@ + num(st.node_size as int) + ", fixedsize=true"@
            + ",label=\""@ + render_parts(st.node@, n) + "\""@ + url_part(url) + "]"@,
        "l"@ + idx + " [shape="@ + st.label_shape@ + ",pos=\""@ + num(lx) + ","@ + num(ly) + "!\", label=\""@
            + render_parts(st.label@, n) + "\",fontsize=42"@ + url_part(url) + "]"@,
        idx + " -> l"@ + idx + " [color=none]"@,
    ];
    match n.output {
        Some(o) => head.push(idx + " -> "@ + num(nodes[o as int].index as int)),
        None => head,
    }
}

/// The statements for the nodes `w[0..t]`.
pub open spec fn dot_body(nodes: Seq<Node>, st: GraphVizSettings, w: Seq<usize>, slots: Seq<int>, t: int) -> Seq<Seq<char>>
    decreases t,
{
    if t <= 0 {
        Seq::empty()
    } else {
        let off = st.node_offset as int;
        let xs = Seq::new(w.len(), |k: int| level_of(nodes, w[k] as int) * off);
        let ys = Seq::new(w.len(), |k: int| slots[k] * off);
        let mx = max_of(xs);
        let my = max_of(ys);
        let horizontal = st.direction == GraphVizDirection::LeftToRight;
        let k = t - 1;
        let (x, y) = if horizontal {
            (my - ys[k], xs[k])
        } else {
            (xs[k], ys[k])
        };
        let loff = mx + st.label_offset;
        let (lx, ly) = if horizontal {
            (x, loff)
        } else {
            (loff, y)
        };
        dot_body(nodes, st, w, slots, t - 1) + dot_node(nodes, st, w[k] as int, x, y, lx, ly)
    }
}

/// The whole graph-description document.
pub open spec fn dot_lines(nodes: Seq<Node>, st: GraphVizSettings, w: Seq<usize>, slots: Seq<int>) -> Seq<Seq<char>> {
    seq!["digraph network {"@, " overlap=true;"@, " node [shape="@ + st.node_shape@ + ",fixedsize=false];"@]
        + dot_body(nodes, st, w, slots, w.len() as int) + seq!["}"@]
}

/// `r` lists the indices `0..keys.len()` by ascending key, ties by index.
pub open spec fn ranked(keys: Seq<int>, r: Seq<usize>) -> bool {
    &&& r.len() == keys.len()
    &&& r.no_duplicates()
    &&& forall|a: int| 0 <= a < r.len() ==> (#[trigger] r[a] as int) < keys.len()
    &&& forall|a: int, b: int| 0 <= a < b < r.len() ==> keys[r[a] as int] <= keys[r[b] as int]
    &&& forall|a: int, b: int|
        0 <= a < b < r.len() && keys[r[a] as int] == keys[r[b] as int] ==> r[a] < r[b]
}

/// The indices `0..keys.len()` by ascending key, ties by index.
pub fn rank_by(keys: &Vec<i128>) -> (r: Vec<usize>)
    ensures
        ranked(keys@.map_values(|k: i128| k as int), r@),
{
    let ghost ks = keys@.map_values(|k: i128| k as int);
    let mut res: Vec<usize> = Vec::new();
    let mut i: usize = 0;
    while i < keys.len()
        invariant
            ks == keys@.map_values(|k: i128| k as int),
            i <= keys@.len(),
            res@.len() == i,
            res@.no_duplicates(),
            forall|a: int| 0 <= a < res@.len() ==> (#[trigger] res@[a] as int) < i,
            forall|a: int, b: int| 0 <= a < b < res@.len() ==> ks[res@[a] as int] <= ks[res@[b] as int],
            forall|a: int, b: int|
                0 <= a < b < res@.len() && ks[res@[a] as int] == ks[res@[b] as int] ==> res@[a] < res@[b],
        decreases keys@.len() - i,
    {
        let k = keys[i];
        let mut p: usize = res.len();
        while p > 0 && keys[res[p - 1]] > k
            invariant
                p <= res@.len(),
                forall|a: int| 0 <= a < res@.len() ==> (#[trigger] res@[a] as int) < i,
                i < keys@.len(),
                forall|b: int| p <= b < res@.len() ==> keys@[res@[b] as int] > k,
            decreases p,
        {
            p = p - 1;
        }
        let ghost old_res = res@;
        res.insert(p, i);
        proof {
            assert(res@ == old_res.insert(p as int, i));
            assert forall|a: int| 0 <= a < res@.len() implies (#[trigger] res@[a] as int) < i + 1 by {
                if a < p {
                    assert(res@[a] == old_res[a]);
                } else if a > p {
                    assert(res@[a] == old_res[a - 1]);
                }
            }
            assert forall|a: int, b: int| 0 <= a < res@.len() && 0 <= b < res@.len() && a != b implies res@[a] != res@[b] by {
                if a != p && b != p {
                    let a0 = if a < p { a } else { a - 1 };
                    let b0 = if b < p { b } else { b - 1 };
                    assert(res@[a] == old_res[a0] && res@[b] == old_res[b0]);
                } else if a == p {
                    let b0 = if b < p { b } else { b - 1 };
                    assert(res@[b] == old_res[b0]);
                } else {
                    let a0 = if a < p { a } else { a - 1 };
                    assert(res@[a] == old_res[a0]);
                }
            }
            assert forall|a: int, b: int| 0 <= a < b < res@.len() implies ks[res@[a] as int] <= ks[res@[b] as int] by {
                if a < p && b < p {
                    assert(res@[a] == old_res[a] && res@[b] == old_res[b]);
                } else if a < p && b == p {
                    assert(res@[a] == old_res[a]);
                } else if a < p {
                    assert(res@[a] == old_res[a] && res@[b] == old_res[b - 1]);
                } else if a == p {
                    assert(res@[b] == old_res[b - 1]);
                } else {
                    assert(res@[a] == old_res[a - 1] && res@[b] == old_res[b - 1]);
                }
            }
            assert forall|a: int, b: int|
                0 <= a < b < res@.len() && ks[res@[a] as int] == ks[res@[b] as int] implies res@[a] < res@[b] by {
                if a < p && b < p {
                    assert(res@[a] == old_res[a] && res@[b] == old_res[b]);
                } else if a < p && b == p {
                    assert(res@[a] == old_res[a]);
                } else if a < p {
                    assert(res@[a] == old_res[a] && res@[b] == old_res[b - 1]);
                } else if a == p {
                    assert(res@[b] == old_res[b - 1]);
                } else {
                    assert(res@[a] == old_res[a - 1] && res@[b] == old_res[b - 1]);
                }
            }
        }
        i = i + 1;
    }
    res
}

/// A decimal's value as an integer count of `10^-MAX_SCALE`.
pub fn fixed_value(d: Decimal) -> (r: i128)
    requires
        d.wf(),
    ensures
        r as int == d.fixed(),
{
    let p = pow10_i128(MAX_SCALE - d.scale);
    proof {
        lemma_pow10_bounds((MAX_SCALE - d.scale) as nat);
        let u = d.units as int;
        let q = p as int;
        assert(-9223372036854775808 * 1_000_000_000_000_000_000 <= u * q <= 9223372036854775807
            * 1_000_000_000_000_000_000) by (nonlinear_arith)
            requires
                -9223372036854775808 <= u <= 9223372036854775807,
                1 <= q <= 1_000_000_000_000_000_000,
        ;
    }
    (d.units as i128) * p
}

proof fn lemma_max_of(v: Seq<int>, k: int)
    requires
        0 <= k < v.len(),
    ensures
        v[k] <= max_of(v),
    decreases v.len(),
{
    if k < v.len() - 1 {
        assert(v.drop_last()[k] == v[k]);
        lemma_max_of(v.drop_last(), k);
    }
}

proof fn lemma_max_of_in(v: Seq<int>, b: int)
    requires
        forall|k: int| 0 <= k < v.len() ==> 0 <= #[trigger] v[k] <= b,
        b >= 0,
    ensures
        0 <= max_of(v) <= b,
    decreases v.len(),
{
    if v.len() > 0 {
        assert forall|k: int| 0 <= k < v.len() - 1 implies 0 <= #[trigger] v.drop_last()[k] <= b by {
            assert(v.drop_last()[k] == v[k]);
        }
        lemma_max_of_in(v.drop_last(), b);
    }
}

fn push_url(s: &mut String, url: &String)
    ensures
        final(s)@ == old(s)@ + url_part(url@),
{
    if url.as_str().unicode_len() > 0 {
        s.append(",URL=\"");
        s.append(url.as_str());
        s.append("\"");
    } else {
        assert(s@ =~= old(s)@ + Seq::<char>::empty());
    }
}

/// Appends the lines of `block`.
#[verifier::loop_isolation(false)]
fn append_lines(lines: &mut Vec<String>, block: Vec<String>)
    ensures
        final(lines)@.map_values(|s: String| s@) == old(lines)@.map_values(|s: String| s@) + block@.map_values(|s: String| s@),
{
    let ghost before = lines@.map_values(|s: String| s@);
    let ghost bv = block@.map_values(|s: String| s@);
    let mut b: usize = 0;
    while b < block.len()
        invariant
            b <= block@.len(),
            bv == block@.map_values(|s: String| s@),
            lines@.map_values(|s: String| s@) == before + bv.subrange(0, b as int),
        decreases block@.len() - b,
    {
        let ghost lb = lines@;
        let item = block[b].clone();
        lines.push(item);
        proof {
            assert(lines@ == lb.push(block@[b as int]));
            assert(lines@.map_values(|s: String| s@) =~= lb.map_values(|s: String| s@).push(bv[b as int]));
            assert(bv.subrange(0, b + 1) =~= bv.subrange(0, b as int).push(bv[b as int]));
        }
        b = b + 1;
    }
    assert(bv.subrange(0, b as int) =~= bv);
}

impl Network {
    /// The network as a graph-description document, one line per statement:
    /// the nodes in depth-first order from node 0 (inputs taken in reverse),
    /// node `t`-th at `(level × offset, row × offset)`, where the row is `t`
    /// or the node's rank by `sort_by`; left-to-right drawing swaps the axes
    /// and mirrors the rows. Each node has a label shape past the farthest
    /// node, an invisible edge to it, and an edge to its output.
    #[verifier::loop_isolation(false)]
    pub fn graph_print_dot(&self, settings: &GraphVizSettings) -> (r: Result<Vec<String>, RenderError>)
        requires
            self.wf(),
        ensures
            r matches Ok(lines) ==> (self.nodes@.len() == 0 ==> lines@.len() == 0),
            r matches Ok(lines) ==> (self.nodes@.len() > 0 ==> exists|slots: Seq<int>|
                slots_ok(self.nodes@, settings.sort_by, dfs_order(self.nodes@, true), slots)
                    && lines@.map_values(|s: String| s@) == #[trigger] dot_lines(
                    self.nodes@,
                    *settings,
                    dfs_order(self.nodes@, true),
                    slots,
                )),
            r matches Err(RenderError::SortKeyMissing { node }) ==> (node as int) < self.nodes@.len() && (
            settings.sort_by matches Some(k) && self.nodes@[node as int].attr(k@) is None),
            r matches Err(RenderError::SortKeyNotNumeric { node }) ==> (node as int) < self.nodes@.len() && (
            settings.sort_by matches Some(k) && (self.nodes@[node as int].attr(k@) matches Some(a)
                && a.numeric() is None)),
    {
        let n = self.nodes.len();
        if n == 0 {
            return Ok(Vec::new());
        }
        let w = self.walk(true);
        let sl = match self.rows(&settings.sort_by, &w) {
            Ok(sl) => sl,
            Err(e) => {
                return Err(e);
            },
        };
        let ghost slots = sl@.map_values(|v: usize| v as int);
        let ghost nodes = self.nodes@;
        let ghost xs = Seq::new(w@.len(), |k: int| level_of(nodes, w@[k] as int) * (settings.node_offset as int));
        let ghost ys = Seq::new(w@.len(), |k: int| slots[k] * (settings.node_offset as int));
        let (xv, yv, mx, my) = self.coords(&w, &sl, settings.node_offset);
        let horizontal = settings.direction == GraphVizDirection::LeftToRight;
        let mut lines: Vec<String> = Vec::new();
        lines.push(String::from_str("digraph network {"));
        lines.push(String::from_str(" overlap=true;"));
        let mut h = String::from_str(" node [shape=");
        h.append(settings.node_shape.as_str());
        h.append(",fixedsize=false];");
        lines.push(h);
        let ghost head = seq!["digraph network {"@, " overlap=true;"@, " node [shape="@ + settings.node_shape@ + ",fixedsize=false];"@];
        assert(lines@.map_values(|s: String| s@) =~= head + dot_body(nodes, *settings, w@, slots, 0));
        let loff = mx + settings.label_offset as u128;
        let mut t: usize = 0;
        while t < n
            invariant
                t <= n,
                lines@.map_values(|s: String| s@) == head + dot_body(nodes, *settings, w@, slots, t as int),
            decreases n - t,
        {
            proof {
                lemma_max_of(ys, t as int);
            }
            let (x, y) = if horizontal {
                (my - yv[t], xv[t])
            } else {
                (xv[t], yv[t])
            };
            let (lx, ly) = if horizontal {
                (x, loff)
            } else {
                (loff, y)
            };
            let block = self.dot_node_lines(settings, w[t], x, y, lx, ly);
            append_lines(&mut lines, block);
            proof {
                assert(head + dot_body(nodes, *settings, w@, slots, t + 1) =~= head + dot_body(nodes, *settings, w@, slots, t as int)
                    + block@.map_values(|s: String| s@));
            }
            t = t + 1;
        }
        lines.push(String::from_str("}"));
        proof {
            assert(lines@.map_values(|s: String| s@) =~= dot_lines(nodes, *settings, w@, slots));
        }
        Ok(lines)
    }

    /// The unswapped coordinates of the drawn nodes and their maxima.
    #[verifier::loop_isolation(false)]
    fn coords(&self, w: &Vec<usize>, sl: &Vec<usize>, offset: u64) -> (r: (Vec<u128>, Vec<u128>, u128, u128))
        requires
            is_walk(self.nodes@.len(), w@),
            sl@.len() == w@.len(),
        ensures
            ({
                let (xv, yv, mx, my) = r;
                let xs = Seq::new(w@.len(), |k: int| level_of(self.nodes@, w@[k] as int) * (offset as int));
                let ys = Seq::new(w@.len(), |k: int| sl@.map_values(|v: usize| v as int)[k] * (offset as int));
                &&& xv@.len() == w@.len()
                &&& yv@.len() == w@.len()
                &&& forall|k: int| 0 <= k < w@.len() ==> #[trigger] xv@[k] as int == xs[k]
                &&& forall|k: int| 0 <= k < w@.len() ==> #[trigger] yv@[k] as int == ys[k]
                &&& forall|k: int| 0 <= k < w@.len() ==> #[trigger] yv@[k] <= my
                &&& mx as int == max_of(xs)
                &&& my as int == max_of(ys)
                &&& mx <= 18446744073709551615 * 18446744073709551615
            }),
    {
        let n = w.len();
        let ghost xs = Seq::new(w@.len(), |k: int| level_of(self.nodes@, w@[k] as int) * (offset as int));
        let ghost ys = Seq::new(w@.len(), |k: int| sl@.map_values(|v: usize| v as int)[k] * (offset as int));
        let off = offset as u128;
        let mut xv: Vec<u128> = Vec::new();
        let mut yv: Vec<u128> = Vec::new();
        let mut mx: u128 = 0;
        let mut my: u128 = 0;
        let mut t: usize = 0;
        while t < n
            invariant
                n == w@.len(),
                is_walk(self.nodes@.len(), w@),
                sl@.len() == n,
                off == offset,
                t <= n,
                xv@.len() == t,
                yv@.len() == t,
                forall|k: int| 0 <= k < t ==> #[trigger] xv@[k] as int == xs[k],
                forall|k: int| 0 <= k < t ==> #[trigger] yv@[k] as int == ys[k],
                forall|k: int| 0 <= k < t ==> #[trigger] yv@[k] <= my,
                mx as int == max_of(xs.subrange(0, t as int)),
                my as int == max_of(ys.subrange(0, t as int)),
                mx <= 18446744073709551615 * 18446744073709551615,
            decreases n - t,
        {
            let lvl = self.level_at(w[t]);
            proof {
                let a = lvl as int;
                let b = off as int;
                assert(0 <= a * b <= 18446744073709551615 * 18446744073709551615) by (nonlinear_arith)
                    requires
                        0 <= a <= 18446744073709551615,
                        0 <= b <= 18446744073709551615,
                ;
                let c = sl@[t as int] as int;
                assert(0 <= c * b <= 18446744073709551615 * 18446744073709551615) by (nonlinear_arith)
                    requires
                        0 <= c <= 18446744073709551615,
                        0 <= b <= 18446744073709551615,
                ;
            }
            let x = lvl as u128 * off;
            let y = sl[t] as u128 * off;
            xv.push(x);
            yv.push(y);
            if x > mx {
                mx = x;
            }
            if y > my {
                my = y;
            }
            proof {
                assert(xs.subrange(0, t + 1).drop_last() =~= xs.subrange(0, t as int));
                assert(ys.subrange(0, t + 1).drop_last() =~= ys.subrange(0, t as int));
            }
            t = t + 1;
        }
        proof {
            assert(xs.subrange(0, n as int) =~= xs);
            assert(ys.subrange(0, n as int) =~= ys);
        }
        (xv, yv, mx, my)
    }

    /// The statements for node `i` drawn at `(x, y)`, its label at `(lx, ly)`.
    fn dot_node_lines(&self, st: &GraphVizSettings, i: usize, x: u128, y: u128, lx: u128, ly: u128) -> (r: Vec<String>)
        requires
            self.wf(),
            (i as int) < self.nodes@.len(),
        ensures
            r@.map_values(|s: String| s@) == dot_node(self.nodes@, *st, i as int, x as int, y as int, lx as int, ly as int),
    {
        let node = &self.nodes[i];
        let url = node.format(&st.url);
        let mut a = String::new();
        push_digits(&mut a, node.index as u128);
        a.append(" [pos=\"");
        push_digits(&mut a, x);
        a.append(",");
        push_digits(&mut a, y);
        a.append("!\", size=");
        push_digits(&mut a, st.node_size as u128);
        a.append(", fixedsize=true");
        a.append(",label=\"");
        a.append(node.format(&st.node).as_str());
        a.append("\"");
        push_url(&mut a, &url);
        a.append("]");
        let mut b = String::new();
        b.append("l");
        push_digits(&mut b, node.index as u128);
        b.append(" [shape=");
        b.append(st.label_shape.as_str());
        b.append(",pos=\"");
        push_digits(&mut b, lx);
        b.append(",");
        push_digits(&mut b, ly);
        b.append("!\", label=\"");
        b.append(node.format(&st.label).as_str());
        b.append("\",fontsize=42");
        push_url(&mut b, &url);
        b.append("]");
        let mut c = String::new();
        push_digits(&mut c, node.index as u128);
        c.append(" -> l");
        push_digits(&mut c, node.index as u128);
        c.append(" [color=none]");
        let ghost va = a@;
        let ghost vb = b@;
        let ghost vc = c@;
        let mut out: Vec<String> = Vec::new();
        out.push(a);
        out.push(b);
        out.push(c);
        proof {
            let idx = num(node.index as int);
            assert(va =~= idx + " [pos=\""@ + num(x as int) + ","@ + num(y as int) + "!\", size="@ + num(st.node_size as int) + ", fixedsize=true"@
                + ",label=\""@ + render_parts(st.node@, *node) + "\""@ + url_part(url@) + "]"@);
            assert(vb =~= "l"@ + idx + " [shape="@ + st.label_shape@ + ",pos=\""@ + num(lx as int) + ","@ + num(ly as int) + "!\", label=\""@
                + render_parts(st.label@, *node) + "\",fontsize=42"@ + url_part(url@) + "]"@);
            assert(vc =~= idx + " -> l"@ + idx + " [color=none]"@);
        }
        let ghost three = out@.map_values(|s: String| s@);
        match node.output {
            Some(o) => {
                assert(self.outputs()[i as int] == Some(o));
                let mut d = String::new();
                push_digits(&mut d, node.index as u128);
                d.append(" -> ");
                push_digits(&mut d, self.nodes[o].index as u128);
                let ghost vd = d@;
                out.push(d);
                proof {
                    assert(vd =~= num(node.index as int) + " -> "@ + num(self.nodes@[o as int].index as int));
                    assert(out@.map_values(|s: String| s@) =~= dot_node(self.nodes@, *st, i as int, x as int, y as int, lx as int, ly as int));
                }
            },
            None => {
                assert(out@.map_values(|s: String| s@) =~= dot_node(self.nodes@, *st, i as int, x as int, y as int, lx as int, ly as int));
            },
        }
        out
    }

    /// The row of each drawn node: its turn, or its rank by the sort attribute.
    #[verifier::loop_isolation(false)]
    fn rows(&self, sort_by: &Option<String>, w: &Vec<usize>) -> (r: Result<Vec<usize>, RenderError>)
        requires
            self.wf(),
            is_walk(self.nodes@.len(), w@),
        ensures
            r matches Ok(sl) ==> slots_ok(self.nodes@, *sort_by, w@, sl@.map_values(|v: usize| v as int)),
            r matches Ok(sl) ==> forall|t: int| 0 <= t < sl@.len() ==> (#[trigger] sl@[t] as int) < self.nodes@.len(),
            r matches Err(RenderError::SortKeyMissing { node }) ==> (node as int) < self.nodes@.len() && (*sort_by matches Some(k)
                && self.nodes@[node as int].attr(k@) is None),
            r matches Err(RenderError::SortKeyNotNumeric { node }) ==> (node as int) < self.nodes@.len() && (*sort_by matches Some(k)
                && (self.nodes@[node as int].attr(k@) matches Some(a) && a.numeric() is None)),
    {
        let n = self.nodes.len();
        let mut sl: Vec<usize> = Vec::new();
        match sort_by {
            None => {
                let mut t: usize = 0;
                while t < n
                    invariant
                        t <= n,
                        sl@.len() == t,
                        forall|tt: int| 0 <= tt < t ==> #[trigger] sl@[tt] == tt,
                    decreases n - t,
                {
                    sl.push(t);
                    t = t + 1;
                }
                proof {
                    let v = sl@.map_values(|v: usize| v as int);
                    assert forall|t: int| 0 <= t < w@.len() implies #[trigger] v[t] == t by {}
                }
                Ok(sl)
            },
            Some(k) => {
                let mut keys: Vec<i128> = Vec::new();
                let mut i: usize = 0;
                while i < n
                    invariant
                        n == self.nodes@.len(),
                        i <= n,
                        keys@.len() == i,
                        forall|ii: int| 0 <= ii < i ==> ((#[trigger] self.nodes@[ii].attr(k@)) matches Some(a) && a.numeric() is Some),
                        forall|ii: int| 0 <= ii < i ==> #[trigger] keys@[ii] as int == self.nodes@[ii].attr(k@)->0.numeric()->0.fixed(),
                    decreases n - i,
                {
                    let d = match self.nodes[i].get_attr(k.as_str()) {
                        Some(a) => match a.read_value() {
                            Some(d) => d,
                            None => {
                                return Err(RenderError::SortKeyNotNumeric { node: i });
                            },
                        },
                        None => {
                            return Err(RenderError::SortKeyMissing { node: i });
                        },
                    };
                    keys.push(fixed_value(d));
                    i = i + 1;
                }
                let r = rank_by(&keys);
                let ghost ks = keys@.map_values(|k: i128| k as int);
                assert(r@.len() == n);
                assert(ks =~= sort_keys(self.nodes@, k@));
                let mut inv: Vec<usize> = Vec::new();
                let mut i: usize = 0;
                while i < n
                    invariant
                        i <= n,
                        inv@.len() == i,
                    decreases n - i,
                {
                    inv.push(0);
                    i = i + 1;
                }
                let mut a: usize = 0;
                while a < n
                    invariant
                        n == self.nodes@.len(),
                        ranked(ks, r@),
                        r@.len() == n,
                        a <= n,
                        inv@.len() == n,
                        forall|aa: int| 0 <= aa < a ==> inv@[#[trigger] r@[aa] as int] == aa,
                    decreases n - a,
                {
                    proof {
                        assert forall|aa: int| 0 <= aa < a implies r@[aa] != r@[a as int] by {}
                    }
                    inv.set(r[a], a);
                    a = a + 1;
                }
                proof {
                    lemma_seq_bound(r@, n);
                }
                let mut t: usize = 0;
                while t < n
                    invariant
                        n == self.nodes@.len(),
                        is_walk(n as nat, w@),
                        ranked(ks, r@),
                        r@.len() == n,
                        inv@.len() == n,
                        forall|aa: int| 0 <= aa < n ==> inv@[#[trigger] r@[aa] as int] == aa,
                        forall|x: usize| x < n ==> r@.contains(x),
                        t <= n,
                        sl@.len() == t,
                        forall|tt: int| 0 <= tt < t ==> (#[trigger] sl@[tt] as int) < n && r@[sl@[tt] as int] == w@[tt],
                    decreases n - t,
                {
                    let x = w[t];
                    proof {
                        assert(r@.contains(x));
                        let aa = choose|aa: int| 0 <= aa < r@.len() && r@[aa] == x;
                        assert(inv@[r@[aa] as int] == aa);
                    }
                    sl.push(inv[x]);
                    t = t + 1;
                }
                proof {
                    let v = sl@.map_values(|v: usize| v as int);
                    assert forall|t: int| 0 <= t < w@.len() implies 0 <= #[trigger] v[t] < r@.len() && r@[v[t]] == w@[t] by {
                        assert(v[t] == sl@[t] as int);
                    }
                }
                Ok(sl)
            },
        }
    }
}

} // verus!
