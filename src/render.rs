use vstd::prelude::*;
use crate::network::{Network, Node};
use crate::template::{render_parts, Template};
use crate::text::push_char;
use vstd::string::StrSliceExecFns;
use crate::topo::lemma_seq_bound;

verus! {

/// `w` lists every node once, starting at node 0.
pub open spec fn is_walk(n: nat, w: Seq<usize>) -> bool {
    &&& w.len() == n
    &&& w.no_duplicates()
    &&& forall|k: int| 0 <= k < w.len() ==> (#[trigger] w[k] as int) < n
    &&& n > 0 ==> w[0] == 0
}

/// A depth-first walk in progress: the nodes drawn so far, the stack, and
/// which nodes are marked (drawn or on the stack).
pub struct WalkState {
    pub out: Seq<usize>,
    pub stack: Seq<usize>,
    pub marked: Seq<bool>,
}

/// The lowest unmarked index from `v` on, or the length.
pub open spec fn first_unmarked(m: Seq<bool>, v: int) -> int
    decreases m.len() - v,
{
    if v < 0 || v >= m.len() || !m[v] {
        v
    } else {
        first_unmarked(m, v + 1)
    }
}

/// Marks and pushes each unmarked node of `cs`, in order.
pub open spec fn push_unmarked(st: WalkState, cs: Seq<usize>) -> WalkState
    decreases cs.len(),
{
    if cs.len() == 0 {
        st
    } else {
        let s1 = push_unmarked(st, cs.drop_last());
        let c = cs.last();
        if s1.marked[c as int] {
            s1
        } else {
            WalkState { out: s1.out, stack: s1.stack.push(c), marked: s1.marked.update(c as int, true) }
        }
    }
}

/// One step: with an empty stack, the lowest unmarked node starts anew;
/// the top of the stack is drawn and its unmarked inputs are pushed, in
/// input order or, with `reverse`, in reverse order.
pub open spec fn walk_step(nodes: Seq<Node>, reverse: bool, st: WalkState) -> WalkState {
    let st1 = if st.stack.len() == 0 {
        let v = first_unmarked(st.marked, 0);
        WalkState { out: st.out, stack: seq![v as usize], marked: st.marked.update(v, true) }
    } else {
        st
    };
    let x = st1.stack.last();
    let st2 = WalkState { out: st1.out.push(x), stack: st1.stack.drop_last(), marked: st1.marked };
    let ins = nodes[x as int].inputs@;
    push_unmarked(st2, if reverse { ins.reverse() } else { ins })
}

/// The walk after `k` steps, begun with node 0 on the stack.
pub open spec fn walk_run(nodes: Seq<Node>, reverse: bool, k: nat) -> WalkState
    decreases k,
{
    if k == 0 {
        WalkState { out: Seq::empty(), stack: seq![0usize], marked: Seq::new(nodes.len(), |i: int| i == 0) }
    } else {
        walk_step(nodes, reverse, walk_run(nodes, reverse, (k - 1) as nat))
    }
}

/// The depth-first order in which the renderers draw the nodes.
pub open spec fn dfs_order(nodes: Seq<Node>, reverse: bool) -> Seq<usize> {
    walk_run(nodes, reverse, nodes.len()).out
}

proof fn lemma_first_unmarked(m: Seq<bool>, v: int, s: int)
    requires
        0 <= v <= s < m.len(),
        forall|u: int| v <= u < s ==> #[trigger] m[u],
        !m[s],
    ensures
        first_unmarked(m, v) == s,
    decreases s - v,
{
    if v < s {
        lemma_first_unmarked(m, v + 1, s);
    }
}

/// Lines `2t` and `2t + 1` of the tree: the node drawn `t`-th, counting
/// from the end of the walk `w`.
pub open spec fn row_ok(nodes: Seq<Node>, tv: Seq<(bool, Seq<char>)>, w: Seq<usize>, lines: Seq<String>, t: int) -> bool {
    let n = nodes.len();
    let i = w[n - 1 - t] as int;
    &&& lines[2 * t]@ == pad_left(node_glyph(nodes, i), max_glyph(nodes, w)) + seq![' ', ' '] + render_parts(tv, nodes[i])
    &&& lines[2 * t + 1]@ == if t + 1 < n {
        connector(nodes, i)
    } else {
        Seq::empty()
    }
}

/// `"| "` repeated `k` times.
pub open spec fn bars(k: nat) -> Seq<char>
    decreases k,
{
    if k == 0 {
        Seq::empty()
    } else {
        bars((k - 1) as nat) + seq!['|', ' ']
    }
}

/// The branch glyphs of a node drawn at depth `pre`: `"| "` once per
/// level; where it joins a different depth (`merge`) the last pipe becomes
/// `+` and the glyphs end in `-*`, else in ` *`.
pub open spec fn glyph(pre: nat, merge: bool) -> Seq<char> {
    if merge {
        (if pre > 0 {
            bars((pre - 1) as nat) + seq!['+', ' ']
        } else {
            Seq::empty()
        }) + seq!['-', '*']
    } else {
        bars(pre) + seq![' ', '*']
    }
}

/// `s` with spaces in front up to `width` characters.
pub open spec fn pad_left(s: Seq<char>, width: nat) -> Seq<char> {
    if s.len() >= width {
        s
    } else {
        Seq::new((width - s.len()) as nat, |i: int| ' ') + s
    }
}

/// The depth of node `i`, zero where it has none.
pub open spec fn level_of(nodes: Seq<Node>, i: int) -> nat {
    match nodes[i].level {
        Some(l) => l as nat,
        None => 0,
    }
}

/// Whether node `i` sits at another depth than the node it drains into.
pub open spec fn merges(nodes: Seq<Node>, i: int) -> bool {
    match nodes[i].output {
        Some(o) => level_of(nodes, i) != level_of(nodes, o as int),
        None => false,
    }
}

/// The glyphs of node `i`.
pub open spec fn node_glyph(nodes: Seq<Node>, i: int) -> Seq<char> {
    glyph(level_of(nodes, i), merges(nodes, i))
}

/// The connector drawn below node `i`.
pub open spec fn connector(nodes: Seq<Node>, i: int) -> Seq<char> {
    bars(level_of(nodes, i) + if merges(nodes, i) {
        0nat
    } else {
        1nat
    })
}

/// The widest glyph among the nodes `w`.
pub open spec fn max_glyph(nodes: Seq<Node>, w: Seq<usize>) -> nat
    decreases w.len(),
{
    if w.len() == 0 {
        0
    } else {
        let m = max_glyph(nodes, w.drop_last());
        let g = node_glyph(nodes, w.last() as int).len();
        if g > m {
            g
        } else {
            m
        }
    }
}

fn push_bars(s: &mut String, k: usize)
    ensures
        final(s)@ == old(s)@ + bars(k as nat),
{
    let mut i: usize = 0;
    while i < k
        invariant
            i <= k,
            s@ == old(s)@ + bars(i as nat),
        decreases k - i,
    {
        push_char(s, '|');
        push_char(s, ' ');
        i = i + 1;
        assert(s@ =~= old(s)@ + bars(i as nat));
    }
}

impl Network {
    pub(crate) fn level_at(&self, i: usize) -> (r: usize)
        requires
            (i as int) < self.nodes@.len(),
        ensures
            r as nat == level_of(self.nodes@, i as int),
    {
        match self.nodes[i].level {
            Some(l) => l,
            None => 0,
        }
    }

    fn merges_at(&self, i: usize) -> (r: bool)
        requires
            self.wf(),
            (i as int) < self.nodes@.len(),
        ensures
            r == merges(self.nodes@, i as int),
    {
        match self.nodes[i].output {
            Some(o) => {
                assert(self.outputs()[i as int] == Some(o));
                self.level_at(i) != self.level_at(o)
            },
            None => false,
        }
    }

    /// The glyphs of node `i` as text.
    fn glyph_text(&self, i: usize) -> (r: String)
        requires
            self.wf(),
            (i as int) < self.nodes@.len(),
        ensures
            r@ == node_glyph(self.nodes@, i as int),
    {
        let pre = self.level_at(i);
        let merge = self.merges_at(i);
        let mut s = String::new();
        if merge {
            if pre > 0 {
                push_bars(&mut s, pre - 1);
                push_char(&mut s, '+');
                push_char(&mut s, ' ');
            }
            push_char(&mut s, '-');
            push_char(&mut s, '*');
        } else {
            push_bars(&mut s, pre);
            push_char(&mut s, ' ');
            push_char(&mut s, '*');
        }
        assert(s@ =~= node_glyph(self.nodes@, i as int));
        s
    }

    /// One node's line of the tree.
    fn tree_line(&self, template: &Template, i: usize, g: &String, width: usize) -> (r: String)
        requires
            (i as int) < self.nodes@.len(),
            g@ == node_glyph(self.nodes@, i as int),
        ensures
            r@ == pad_left(g@, width as nat) + seq![' ', ' '] + render_parts(template@, self.nodes@[i as int]),
    {
        let glen = g.as_str().unicode_len();
        let k: usize = if width > glen {
            width - glen
        } else {
            0
        };
        let mut line = String::new();
        let mut j: usize = 0;
        while j < k
            invariant
                j <= k,
                line@ == Seq::new(j as nat, |x: int| ' '),
            decreases k - j,
        {
            push_char(&mut line, ' ');
            j = j + 1;
            assert(line@ =~= Seq::new(j as nat, |x: int| ' '));
        }
        proof {
            if glen >= width {
                assert(line@ =~= Seq::<char>::empty());
            }
        }
        line.append(g.as_str());
        line.append("  ");
        let label = self.nodes[i].format(template);
        line.append(label.as_str());
        proof {
            reveal_strlit("  ");
            assert(line@ =~= pad_left(g@, width as nat) + seq![' ', ' '] + render_parts(template@, self.nodes@[i as int]));
        }
        line
    }

    /// The connector below node `i`, or nothing after the last line.
    fn connector_line(&self, i: usize, more: bool) -> (r: String)
        requires
            self.wf(),
            (i as int) < self.nodes@.len(),
        ensures
            r@ == if more {
                connector(self.nodes@, i as int)
            } else {
                Seq::empty()
            },
    {
        let mut conn = String::new();
        if more {
            let pre = self.level_at(i);
            let merge = self.merges_at(i);
            push_bars(&mut conn, pre);
            if !merge {
                push_char(&mut conn, '|');
                push_char(&mut conn, ' ');
            }
            proof {
                assert(conn@ =~= connector(self.nodes@, i as int));
            }
        }
        proof {
            if !more {
                assert(conn@ =~= Seq::<char>::empty());
            }
        }
        conn
    }

    /// Draws the network as an ASCII tree, two lines per node, the most
    /// upstream node first: the node's branch glyphs right-aligned to the
    /// widest, two spaces and its label; then the connector towards the next
    /// node (empty after the last).
    #[verifier::loop_isolation(false)]
    pub fn graph_print(&self, template: &Template) -> (r: Vec<String>)
        requires
            self.wf(),
        ensures
            r@.len() == 2 * self.nodes@.len(),
            forall|t: int|
                0 <= t < self.nodes@.len() ==> #[trigger] row_ok(
                    self.nodes@,
                    template@,
                    dfs_order(self.nodes@, false),
                    r@,
                    t,
                ),
    {
        let n = self.nodes.len();
        let w = self.walk(false);
        let mut glyphs: Vec<String> = Vec::new();
        let mut width: usize = 0;
        let mut k: usize = 0;
        while k < n
            invariant
                n == self.nodes@.len(),
                is_walk(n as nat, w@),
                k <= n,
                glyphs@.len() == k,
                forall|kk: int| 0 <= kk < k ==> (#[trigger] glyphs@[kk])@ == node_glyph(self.nodes@, w@[kk] as int),
                width as nat == max_glyph(self.nodes@, w@.subrange(0, k as int)),
            decreases n - k,
        {
            let g = self.glyph_text(w[k]);
            let len = g.as_str().unicode_len();
            if len > width {
                width = len;
            }
            glyphs.push(g);
            proof {
                assert(w@.subrange(0, k + 1).drop_last() =~= w@.subrange(0, k as int));
            }
            k = k + 1;
        }
        assert(w@.subrange(0, n as int) =~= w@);
        let mut lines: Vec<String> = Vec::new();
        let mut t: usize = 0;
        while t < n
            invariant
                n == self.nodes@.len(),
                is_walk(n as nat, w@),
                glyphs@.len() == n,
                forall|kk: int| 0 <= kk < n ==> (#[trigger] glyphs@[kk])@ == node_glyph(self.nodes@, w@[kk] as int),
                width as nat == max_glyph(self.nodes@, w@),
                t <= n,
                lines@.len() == 2 * t,
                forall|tt: int| 0 <= tt < t ==> #[trigger] row_ok(self.nodes@, template@, w@, lines@, tt),
            decreases n - t,
        {
            let q = n - 1 - t;
            let i = w[q];
            let line = self.tree_line(template, i, &glyphs[q], width);
            let conn = self.connector_line(i, t + 1 < n);
            let ghost old_lines = lines@;
            let ghost gl = line@;
            let ghost gc = conn@;
            lines.push(line);
            lines.push(conn);
            proof {
                assert forall|tt: int| 0 <= tt <= t implies #[trigger] row_ok(self.nodes@, template@, w@, lines@, tt) by {
                    if tt < t {
                        assert(row_ok(self.nodes@, template@, w@, old_lines, tt));
                        assert(lines@[2 * tt] == old_lines[2 * tt]);
                        assert(lines@[2 * tt + 1] == old_lines[2 * tt + 1]);
                    } else {
                        assert(lines@[2 * tt]@ == gl);
                        assert(lines@[2 * tt + 1]@ == gc);
                    }
                }
            }
            t = t + 1;
        }
        proof {
            let ww = w@;
            assert(is_walk(self.nodes@.len(), ww));
            assert(forall|t: int| 0 <= t < self.nodes@.len() ==> #[trigger] row_ok(self.nodes@, template@, ww, lines@, t));
        }
        lines
    }

    /// Each node's label, in index order.
    pub fn simple_print(&self, template: &Template) -> (r: Vec<String>)
        ensures
            r@.len() == self.nodes@.len(),
            forall|i: int| 0 <= i < r@.len() ==> (#[trigger] r@[i])@ == render_parts(template@, self.nodes@[i]),
    {
        let mut out: Vec<String> = Vec::new();
        let mut i: usize = 0;
        while i < self.nodes.len()
            invariant
                i <= self.nodes@.len(),
                out@.len() == i,
                forall|k: int| 0 <= k < i ==> (#[trigger] out@[k])@ == render_parts(template@, self.nodes@[k]),
            decreases self.nodes@.len() - i,
        {
            out.push(self.nodes[i].format(template));
            i = i + 1;
        }
        out
    }

    /// Depth-first walk from node 0 along inputs: a node is taken from a
    /// stack and its unvisited inputs are pushed, in input order or, with
    /// `reverse`, in reverse order. Nodes left over start a new walk.
    #[verifier::rlimit(60)]
    pub fn walk(&self, reverse: bool) -> (r: Vec<usize>)
        requires
            self.wf(),
        ensures
            is_walk(self.nodes@.len(), r@),
            r@ == dfs_order(self.nodes@, reverse),
    {
        let n = self.nodes.len();
        let mut out: Vec<usize> = Vec::new();
        if n == 0 {
            return out;
        }
        let mut visited: Vec<bool> = Vec::new();
        let mut i: usize = 0;
        while i < n
            invariant
                i <= n,
                visited@.len() == i,
                forall|v: int| 0 <= v < i ==> !visited@[v],
            decreases n - i,
        {
            visited.push(false);
            i = i + 1;
        }
        let mut stack: Vec<usize> = Vec::new();
        stack.push(0);
        visited.set(0, true);
        proof {
            assert(visited@ =~= Seq::new(n as nat, |i: int| i == 0));
            assert(stack@ =~= seq![0usize]);
            assert(out@ =~= Seq::<usize>::empty());
            assert forall|v: int| 0 <= v < n implies (visited@[v] <==> (out@.contains(v as usize) || stack@.contains(v as usize))) by {
                if v == 0 {
                    assert(stack@[0] == 0);
                }
            }
        }
        while out.len() < n
            invariant
                n == self.nodes@.len(),
                self.wf(),
                visited@.len() == n,
                out@.no_duplicates(),
                stack@.no_duplicates(),
                forall|a: int, b: int| 0 <= a < out@.len() && 0 <= b < stack@.len() ==> out@[a] != stack@[b],
                forall|k: int| 0 <= k < out@.len() ==> (#[trigger] out@[k] as int) < n,
                forall|k: int| 0 <= k < stack@.len() ==> (#[trigger] stack@[k] as int) < n,
                forall|v: int| 0 <= v < n ==> (visited@[v] <==> (out@.contains(v as usize) || stack@.contains(v as usize))),
                out@.len() > 0 ==> out@[0] == 0,
                out@.len() == 0 ==> stack@ == seq![0usize],
                (WalkState { out: out@, stack: stack@, marked: visited@ }) == walk_run(self.nodes@, reverse, out@.len()),
            decreases n - out@.len(),
        {
            let ghost st0 = walk_run(self.nodes@, reverse, out@.len());
            if stack.len() == 0 {
                proof {
                    lemma_seq_bound(out@, n);
                    let v = choose|v: usize| v < n && !out@.contains(v);
                    assert(!visited@[v as int]);
                }
                let s = Self::first_unvisited(&visited);
                proof {
                    lemma_first_unmarked(visited@, 0, s as int);
                }
                visited.set(s, true);
                stack.push(s);
                assert(stack@ =~= seq![s]);
                proof {
                    assert forall|v: int| 0 <= v < n implies (visited@[v] <==> (out@.contains(v as usize) || stack@.contains(v as usize))) by {
                        if v == s {
                            assert(stack@[0] == s);
                        }
                    }
                }
            }
            let ghost st1 = WalkState { out: out@, stack: stack@, marked: visited@ };
            let ghost old_out = out@;
            let ghost old_stack = stack@;
            let x = stack.pop().unwrap();
            out.push(x);
            let ghost st2 = WalkState { out: out@, stack: stack@, marked: visited@ };
            let ghost ins = self.nodes@[x as int].inputs@;
            let ghost cs = if reverse { ins.reverse() } else { ins };
            proof {
                assert(stack@ == st1.stack.drop_last());
                assert(st0.stack.len() == 0 ==> st1 == (WalkState { out: st0.out, stack: seq![first_unmarked(st0.marked, 0) as usize], marked: st0.marked.update(first_unmarked(st0.marked, 0), true) }));
                assert(cs.subrange(0, 0) =~= Seq::<usize>::empty());
            }
            proof {
                assert(old_stack.last() == x);
                assert forall|v: int| 0 <= v < n implies (visited@[v] <==> (out@.contains(v as usize) || stack@.contains(v as usize))) by {
                    if old_out.contains(v as usize) {
                        let k = choose|k: int| 0 <= k < old_out.len() && old_out[k] == v as usize;
                        assert(out@[k] == v as usize);
                    }
                    if old_stack.contains(v as usize) {
                        let k = choose|k: int| 0 <= k < old_stack.len() && old_stack[k] == v as usize;
                        if k < stack@.len() {
                            assert(stack@[k] == v as usize);
                        } else {
                            assert(out@.last() == v as usize);
                        }
                    }
                    if out@.contains(v as usize) {
                        let k = choose|k: int| 0 <= k < out@.len() && out@[k] == v as usize;
                        if k < old_out.len() {
                            assert(old_out[k] == v as usize);
                        } else {
                            assert(old_stack[old_stack.len() - 1] == v as usize);
                        }
                    }
                    if stack@.contains(v as usize) {
                        let k = choose|k: int| 0 <= k < stack@.len() && stack@[k] == v as usize;
                        assert(old_stack[k] == v as usize);
                    }
                }
                assert forall|a: int, b: int| 0 <= a < out@.len() && 0 <= b < stack@.len() implies out@[a] != stack@[b] by {
                    assert(stack@[b] == old_stack[b]);
                    if a == old_out.len() {
                        assert(old_stack[old_stack.len() - 1] != old_stack[b]);
                    }
                }
                assert forall|a: int, b: int| 0 <= a < out@.len() && 0 <= b < out@.len() && a != b implies out@[a] != out@[b] by {
                    if a == old_out.len() {
                        assert(old_out[b] != old_stack[old_stack.len() - 1]);
                    } else if b == old_out.len() {
                        assert(old_out[a] != old_stack[old_stack.len() - 1]);
                    }
                }
            }
            let m = self.nodes[x].inputs.len();
            let mut t: usize = 0;
            while t < m
                invariant
                    n == self.nodes@.len(),
                    self.wf(),
                    m == self.nodes@[x as int].inputs@.len(),
                    (x as int) < n,
                    t <= m,
                    visited@.len() == n,
                    out@.len() > 0,
                    out@[0] == 0,
                    out@.no_duplicates(),
                    stack@.no_duplicates(),
                    forall|a: int, b: int| 0 <= a < out@.len() && 0 <= b < stack@.len() ==> out@[a] != stack@[b],
                    forall|k: int| 0 <= k < out@.len() ==> (#[trigger] out@[k] as int) < n,
                    forall|k: int| 0 <= k < stack@.len() ==> (#[trigger] stack@[k] as int) < n,
                    forall|v: int| 0 <= v < n ==> (visited@[v] <==> (out@.contains(v as usize) || stack@.contains(v as usize))),
                    cs.len() == m,
                    ins == self.nodes@[x as int].inputs@,
                    cs == (if reverse { ins.reverse() } else { ins }),
                    (WalkState { out: out@, stack: stack@, marked: visited@ }) == push_unmarked(st2, cs.subrange(0, t as int)),
                decreases m - t,
            {
                let c = if reverse {
                    self.nodes[x].inputs[m - 1 - t]
                } else {
                    self.nodes[x].inputs[t]
                };
                proof {
                    let k = if reverse { m - 1 - t } else { t as int };
                    assert(self.inputs()[x as int][k] == self.nodes@[x as int].inputs@[k]);
                    if reverse {
                        assert(ins.reverse()[t as int] == ins[m - 1 - t]);
                    }
                    assert(cs[t as int] == c);
                    assert(cs.subrange(0, t + 1).drop_last() =~= cs.subrange(0, t as int));
                }
                if !visited[c] {
                    let ghost old_stack = stack@;
                    visited.set(c, true);
                    stack.push(c);
                    proof {
                        assert(!out@.contains(c) && !old_stack.contains(c));
                        assert forall|v: int| 0 <= v < n implies (visited@[v] <==> (out@.contains(v as usize) || stack@.contains(v as usize))) by {
                            if v == c {
                                assert(stack@.last() == c);
                            } else if old_stack.contains(v as usize) {
                                let k = choose|k: int| 0 <= k < old_stack.len() && old_stack[k] == v as usize;
                                assert(stack@[k] == v as usize);
                            } else if stack@.contains(v as usize) {
                                let k = choose|k: int| 0 <= k < stack@.len() && stack@[k] == v as usize;
                                assert(k < old_stack.len());
                            }
                        }
                        assert forall|a: int, b: int| 0 <= a < out@.len() && 0 <= b < stack@.len() implies out@[a] != stack@[b] by {
                            if b < old_stack.len() {
                                assert(stack@[b] == old_stack[b]);
                            }
                        }
                        assert forall|a: int, b: int| 0 <= a < stack@.len() && 0 <= b < stack@.len() && a != b implies stack@[a] != stack@[b] by {
                            if a < old_stack.len() && b < old_stack.len() {
                                assert(stack@[a] == old_stack[a] && stack@[b] == old_stack[b]);
                            } else if a < old_stack.len() {
                                assert(stack@[a] == old_stack[a]);
                            } else if b < old_stack.len() {
                                assert(stack@[b] == old_stack[b]);
                            }
                        }
                    }
                }
                t = t + 1;
            }
            proof {
                assert(cs.subrange(0, t as int) =~= cs);
            }
        }
        proof {
            lemma_seq_bound(out@, n);
        }
        out
    }
}

} // verus!
