use vstd::prelude::*;
use crate::attr::NodeAttr;
use crate::text::{arrow_from, chars_of, find_arrow, string_of, trim_range, trimmed};

verus! {

/// One vertex of the network.
pub struct Node {
    /// Position in the network's node sequence.
    pub index: usize,
    /// Unique external name.
    pub name: String,
    /// Nodes whose output is this node.
    pub inputs: Vec<usize>,
    /// The node downstream of this one; none for an outlet.
    pub output: Option<usize>,
    /// Magnitude: one more than the sum over the inputs; set by `order`.
    pub order: Option<usize>,
    /// Layout depth; set by `reindex`.
    pub level: Option<usize>,
    /// Further attributes, each key at most once.
    pub attrs: Vec<(String, NodeAttr)>,
}

/// A forest of nodes linked by single-parent edges.
pub struct Network {
    pub nodes: Vec<Node>,
}

/// Edges over `outputs.len()` nodes, each stated from both ends.
pub open spec fn links_wf(outputs: Seq<Option<usize>>, inputs: Seq<Seq<usize>>) -> bool {
    &&& outputs.len() == inputs.len()
    &&& forall|i: int|
        #![trigger outputs[i]]
        0 <= i < outputs.len() && outputs[i] is Some ==> {
            let o = outputs[i]->0 as int;
            &&& 0 <= o < outputs.len()
            &&& o != i
            &&& inputs[o].contains(i as usize)
        }
    &&& forall|i: int, k: int|
        #![trigger inputs[i][k]]
        0 <= i < inputs.len() && 0 <= k < inputs[i].len() ==> {
            &&& (inputs[i][k] as int) < outputs.len()
            &&& outputs[inputs[i][k] as int] == Some(i as usize)
        }
    &&& forall|i: int| 0 <= i < inputs.len() ==> (#[trigger] inputs[i]).no_duplicates()
}

pub open spec fn distinct_names(names: Seq<Seq<char>>) -> bool {
    forall|i: int, j: int|
        0 <= i < names.len() && 0 <= j < names.len() && i != j ==> names[i] != names[j]
}

/// First position of `x` in `names` at or after `i`.
pub open spec fn pos_from(names: Seq<Seq<char>>, x: Seq<char>, i: int) -> Option<int>
    decreases names.len() - i,
{
    if i < 0 || i >= names.len() {
        None
    } else if names[i] == x {
        Some(i)
    } else {
        pos_from(names, x, i + 1)
    }
}

pub proof fn lemma_pos_from(names: Seq<Seq<char>>, x: Seq<char>, i: int)
    requires
        0 <= i,
    ensures
        match pos_from(names, x, i) {
            Some(j) => i <= j < names.len() && names[j] == x,
            None => forall|j: int| i <= j < names.len() ==> names[j] != x,
        },
    decreases names.len() - i,
{
    if i < names.len() && names[i] != x {
        lemma_pos_from(names, x, i + 1);
    }
}

/// The network that ingestion has built so far.
pub struct Draft {
    pub names: Seq<Seq<char>>,
    pub outputs: Seq<Option<usize>>,
    pub inputs: Seq<Seq<usize>>,
}

/// Why a text could not be read as a network.
#[derive(Clone, Copy, PartialEq, Eq, Structural, Debug)]
pub enum ParseError {
    /// An edge leads from a node to itself.
    SelfLoop { line: usize },
    /// A second edge leaves a node that already has an output.
    DuplicateOutput { line: usize },
}

/// A line that declares nothing: blank, or a comment.
pub open spec fn line_blank(l: Seq<char>) -> bool {
    let t = trimmed(l);
    t.len() == 0 || t[0] == '#'
}

/// The two names of an edge line `A -> B`.
pub open spec fn line_edge(l: Seq<char>) -> Option<(Seq<char>, Seq<char>)> {
    let t = trimmed(l);
    match arrow_from(t, 0) {
        Some(p) => Some((trimmed(t.subrange(0, p)), trimmed(t.subrange(p + 2, t.len() as int)))),
        None => None,
    }
}

/// The draft with `x` added as a new node, unless it is known.
pub open spec fn with_name(d: Draft, x: Seq<char>) -> Draft {
    if pos_from(d.names, x, 0) is Some {
        d
    } else {
        Draft {
            names: d.names.push(x),
            outputs: d.outputs.push(None),
            inputs: d.inputs.push(Seq::empty()),
        }
    }
}

/// The effect of line number `k` of the text.
pub open spec fn ingest_line(d: Draft, l: Seq<char>, k: usize) -> Result<Draft, ParseError> {
    if line_blank(l) {
        Ok(d)
    } else {
        match line_edge(l) {
            Some((a, b)) => {
                let d1 = with_name(with_name(d, a), b);
                let ia = pos_from(d1.names, a, 0)->0;
                let ib = pos_from(d1.names, b, 0)->0;
                if ia == ib {
                    Err(ParseError::SelfLoop { line: k })
                } else if d1.outputs[ia] is Some {
                    Err(ParseError::DuplicateOutput { line: k })
                } else {
                    Ok(
                        Draft {
                            names: d1.names,
                            outputs: d1.outputs.update(ia, Some(ib as usize)),
                            inputs: d1.inputs.update(ib, d1.inputs[ib].push(ia as usize)),
                        },
                    )
                }
            },
            None => Ok(with_name(d, trimmed(l))),
        }
    }
}

/// The network that a text describes, line by line.
pub open spec fn ingest(lines: Seq<Seq<char>>) -> Result<Draft, ParseError>
    decreases lines.len(),
{
    if lines.len() == 0 {
        Ok(Draft { names: Seq::empty(), outputs: Seq::empty(), inputs: Seq::empty() })
    } else {
        match ingest(lines.drop_last()) {
            Ok(d) => ingest_line(d, lines.last(), (lines.len() - 1) as usize),
            Err(e) => Err(e),
        }
    }
}

pub open spec fn draft_wf(d: Draft) -> bool {
    &&& d.names.len() == d.outputs.len()
    &&& links_wf(d.outputs, d.inputs)
    &&& distinct_names(d.names)
}

proof fn lemma_pos_push(names: Seq<Seq<char>>, y: Seq<char>, x: Seq<char>, i: int)
    requires
        0 <= i,
        pos_from(names, x, i) is Some,
    ensures
        pos_from(names.push(y), x, i) == pos_from(names, x, i),
    decreases names.len() - i,
{
    if i < names.len() && names[i] != x {
        lemma_pos_push(names, y, x, i + 1);
    }
}

proof fn lemma_pos_push_new(names: Seq<Seq<char>>, x: Seq<char>, i: int)
    requires
        0 <= i <= names.len(),
        forall|j: int| i <= j < names.len() ==> names[j] != x,
    ensures
        pos_from(names.push(x), x, i) == Some(names.len() as int),
    decreases names.len() - i,
{
    if i < names.len() {
        lemma_pos_push_new(names, x, i + 1);
    }
}

proof fn lemma_with_name_wf(d: Draft, x: Seq<char>)
    requires
        draft_wf(d),
    ensures
        draft_wf(with_name(d, x)),
        pos_from(with_name(d, x).names, x, 0) is Some,
        (pos_from(with_name(d, x).names, x, 0)->0) < with_name(d, x).names.len(),
        forall|y: Seq<char>|
            pos_from(d.names, y, 0) is Some ==> pos_from(with_name(d, x).names, y, 0) == pos_from(
                d.names,
                y,
                0,
            ),
        d.names.len() <= with_name(d, x).names.len(),
{
    lemma_pos_from(d.names, x, 0);
    let d1 = with_name(d, x);
    assert forall|y: Seq<char>| pos_from(d.names, y, 0) is Some implies pos_from(d1.names, y, 0)
        == pos_from(d.names, y, 0) by {
        if pos_from(d.names, x, 0) is None {
            lemma_pos_push(d.names, x, y, 0);
        }
    }
    if pos_from(d.names, x, 0) is None {
        let n = d.names.len() as int;
        assert forall|i: int, k: int|
            0 <= i < d1.inputs.len() && 0 <= k < d1.inputs[i].len() implies {
            &&& (d1.inputs[i][k] as int) < d1.outputs.len()
            &&& d1.outputs[d1.inputs[i][k] as int] == Some(i as usize)
        } by {
            assert(i < n);
            assert(d1.inputs[i][k] == d.inputs[i][k]);
        }
        assert forall|i: int| 0 <= i < d1.inputs.len() implies (#[trigger] d1.inputs[i]).no_duplicates() by {
            if i < n {
                assert(d1.inputs[i] == d.inputs[i]);
            }
        }
        assert forall|i: int| #![trigger d1.outputs[i]] 0 <= i < d1.outputs.len() && d1.outputs[i] is Some implies {
            let o = d1.outputs[i]->0 as int;
            &&& 0 <= o < d1.outputs.len()
            &&& o != i
            &&& d1.inputs[o].contains(i as usize)
        } by {
            assert(i < n);
            assert(d1.outputs[i] == d.outputs[i]);
            let o = d.outputs[i]->0 as int;
            assert(d1.inputs[o] == d.inputs[o]);
        }
        lemma_pos_push_new(d.names, x, 0);
    }
    lemma_pos_from(d1.names, x, 0);
}

/// The draft with the edge `ia -> ib` added.
pub open spec fn with_edge(d: Draft, ia: int, ib: int) -> Draft {
    Draft {
        names: d.names,
        outputs: d.outputs.update(ia, Some(ib as usize)),
        inputs: d.inputs.update(ib, d.inputs[ib].push(ia as usize)),
    }
}

proof fn lemma_with_edge_wf(d: Draft, ia: usize, ib: usize)
    requires
        draft_wf(d),
        ia < d.names.len(),
        ib < d.names.len(),
        ia != ib,
        d.outputs[ia as int] is None,
    ensures
        draft_wf(with_edge(d, ia as int, ib as int)),
{
    let d1 = with_edge(d, ia as int, ib as int);
    assert(!d.inputs[ib as int].contains(ia)) by {
        if d.inputs[ib as int].contains(ia) {
            let k = choose|k: int| 0 <= k < d.inputs[ib as int].len() && d.inputs[ib as int][k] == ia;
            assert(d.outputs[d.inputs[ib as int][k] as int] == Some(ib));
        }
    }
    assert forall|i: int, k: int|
        0 <= i < d1.inputs.len() && 0 <= k < d1.inputs[i].len() implies {
        &&& (d1.inputs[i][k] as int) < d1.outputs.len()
        &&& d1.outputs[d1.inputs[i][k] as int] == Some(i as usize)
    } by {
        if i == ib && k == d.inputs[ib as int].len() {
        } else {
            assert(d1.inputs[i][k] == d.inputs[i][k]);
            let m = d.inputs[i][k] as int;
            assert(d.outputs[m] == Some(i as usize));
        }
    }
    assert forall|i: int| 0 <= i < d1.inputs.len() implies (#[trigger] d1.inputs[i]).no_duplicates() by {
        if i == ib {
            assert(d.inputs[ib as int].no_duplicates());
        } else {
            assert(d1.inputs[i] == d.inputs[i]);
        }
    }
    assert forall|i: int| #![trigger d1.outputs[i]] 0 <= i < d1.outputs.len() && d1.outputs[i] is Some implies {
        let o = d1.outputs[i]->0 as int;
        &&& 0 <= o < d1.outputs.len()
        &&& o != i
        &&& d1.inputs[o].contains(i as usize)
    } by {
        if i == ia {
            assert(d1.inputs[ib as int].last() == ia);
        } else {
            let o = d.outputs[i]->0 as int;
            assert(d.inputs[o].contains(i as usize));
            let k = choose|k: int| 0 <= k < d.inputs[o].len() && d.inputs[o][k] == i as usize;
            assert(d1.inputs[o][k] == i as usize);
        }
    }
}

proof fn lemma_ingest_err(lines: Seq<Seq<char>>, k: int)
    requires
        0 <= k <= lines.len(),
        ingest(lines.subrange(0, k)) is Err,
    ensures
        ingest(lines) == ingest(lines.subrange(0, k)),
    decreases lines.len() - k,
{
    if k < lines.len() {
        assert(lines.subrange(0, k + 1).drop_last() =~= lines.subrange(0, k));
        lemma_ingest_err(lines, k + 1);
    } else {
        assert(lines.subrange(0, k) =~= lines);
    }
}

/// The value under `key` in `attrs`, searching from position `i`.
pub open spec fn attr_from(attrs: Seq<(String, NodeAttr)>, key: Seq<char>, i: int) -> Option<NodeAttr>
    decreases attrs.len() - i,
{
    if i < 0 || i >= attrs.len() {
        None
    } else if attrs[i].0@ == key {
        Some(attrs[i].1)
    } else {
        attr_from(attrs, key, i + 1)
    }
}

proof fn lemma_attr_from_tail(attrs: Seq<(String, NodeAttr)>, key: Seq<char>, m: int, j: int, e: (String, NodeAttr))
    requires
        0 <= j < m,
        j < attrs.len(),
    ensures
        attr_from(attrs.update(j, e), key, m) == attr_from(attrs, key, m),
    decreases attrs.len() - m,
{
    if m < attrs.len() {
        assert(attrs.update(j, e)[m] == attrs[m]);
        lemma_attr_from_tail(attrs, key, m + 1, j, e);
    }
}

proof fn lemma_attr_from_update(attrs: Seq<(String, NodeAttr)>, key: Seq<char>, i: int, j: int, e: (String, NodeAttr))
    requires
        0 <= i <= j < attrs.len(),
        e.0@ == attrs[j].0@,
        forall|m: int| i <= m < j ==> attrs[m].0@ != e.0@,
    ensures
        attr_from(attrs.update(j, e), key, i) == if key == e.0@ {
            Some(e.1)
        } else {
            attr_from(attrs, key, i)
        },
    decreases j - i,
{
    let upd = attrs.update(j, e);
    if i < j {
        assert(upd[i] == attrs[i]);
        if attrs[i].0@ != key {
            lemma_attr_from_update(attrs, key, i + 1, j, e);
        }
    } else {
        assert(upd[j] == e);
        lemma_attr_from_tail(attrs, key, j + 1, j, e);
    }
}

proof fn lemma_attr_from_push(attrs: Seq<(String, NodeAttr)>, key: Seq<char>, i: int, e: (String, NodeAttr))
    requires
        0 <= i <= attrs.len(),
        forall|m: int| i <= m < attrs.len() ==> attrs[m].0@ != e.0@,
    ensures
        attr_from(attrs.push(e), key, i) == if key == e.0@ {
            Some(e.1)
        } else {
            attr_from(attrs, key, i)
        },
    decreases attrs.len() - i,
{
    let p = attrs.push(e);
    if i < attrs.len() {
        assert(p[i] == attrs[i]);
        lemma_attr_from_push(attrs, key, i + 1, e);
    } else {
        assert(p[i] == e);
        assert(attr_from(p, key, i + 1) == None::<NodeAttr>);
    }
}

impl Node {
    /// The attribute stored under `key`.
    pub open spec fn attr(&self, key: Seq<char>) -> Option<NodeAttr> {
        attr_from(self.attrs@, key, 0)
    }

    pub fn get_attr(&self, key: &str) -> (r: Option<&NodeAttr>)
        ensures
            match r {
                Some(a) => self.attr(key@) == Some(*a),
                None => self.attr(key@) is None,
            },
    {
        let ks = String::from_str(key);
        let mut i: usize = 0;
        while i < self.attrs.len()
            invariant
                i <= self.attrs@.len(),
                ks@ == key@,
                attr_from(self.attrs@, key@, 0) == attr_from(self.attrs@, key@, i as int),
            decreases self.attrs@.len() - i,
        {
            if self.attrs[i].0 == ks {
                return Some(&self.attrs[i].1);
            }
            i = i + 1;
        }
        None
    }

    /// Stores `val` under `key`, replacing what was there.
    pub fn set_attr(&mut self, key: &str, val: NodeAttr)
        ensures
            forall|k: Seq<char>| #[trigger] final(self).attr(k) == if k == key@ {
                Some(val)
            } else {
                old(self).attr(k)
            },
            final(self).index == old(self).index,
            final(self).name == old(self).name,
            final(self).inputs == old(self).inputs,
            final(self).output == old(self).output,
            final(self).order == old(self).order,
            final(self).level == old(self).level,
    {
        let ks = String::from_str(key);
        let mut i: usize = 0;
        while i < self.attrs.len()
            invariant
                i <= self.attrs@.len(),
                ks@ == key@,
                *self == *old(self),
                forall|m: int| 0 <= m < i ==> self.attrs@[m].0@ != key@,
            decreases self.attrs@.len() - i,
        {
            if self.attrs[i].0 == ks {
                let e = (String::from_str(key), val);
                proof {
                    assert forall|k: Seq<char>| #[trigger] attr_from(self.attrs@.update(i as int, e), k, 0) == if k == key@ {
                        Some(val)
                    } else {
                        attr_from(self.attrs@, k, 0)
                    } by {
                        lemma_attr_from_update(self.attrs@, k, 0, i as int, e);
                    }
                }
                self.attrs.set(i, e);
                return;
            }
            i = i + 1;
        }
        let e = (String::from_str(key), val);
        proof {
            assert forall|k: Seq<char>| #[trigger] attr_from(self.attrs@.push(e), k, 0) == if k == key@ {
                Some(val)
            } else {
                attr_from(self.attrs@, k, 0)
            } by {
                lemma_attr_from_push(self.attrs@, k, 0, e);
            }
        }
        self.attrs.push(e);
    }

    pub fn set_inputs(&mut self, inputs: Vec<usize>)
        ensures
            final(self).inputs@ == inputs@,
            final(self).index == old(self).index,
            final(self).name == old(self).name,
            final(self).output == old(self).output,
            final(self).order == old(self).order,
            final(self).level == old(self).level,
            final(self).attrs == old(self).attrs,
    {
        self.inputs = inputs;
    }

    pub fn set_output(&mut self, output: usize)
        ensures
            final(self).output == Some(output),
            final(self).index == old(self).index,
            final(self).name == old(self).name,
            final(self).inputs == old(self).inputs,
            final(self).order == old(self).order,
            final(self).level == old(self).level,
            final(self).attrs == old(self).attrs,
    {
        self.output = Some(output);
    }

    pub fn set_index(&mut self, index: usize)
        ensures
            final(self).index == index,
            final(self).name == old(self).name,
            final(self).inputs == old(self).inputs,
            final(self).output == old(self).output,
            final(self).order == old(self).order,
            final(self).level == old(self).level,
            final(self).attrs == old(self).attrs,
    {
        self.index = index;
    }

    pub fn get_index(&self) -> (r: usize)
        ensures
            r == self.index,
    {
        self.index
    }

    pub fn get_name(&self) -> (r: &str)
        ensures
            r@ == self.name@,
    {
        self.name.as_str()
    }

    /// A node with no attributes yet.
    pub fn new(index: usize, name: String, inputs: Vec<usize>, output: Option<usize>) -> (r: Node)
        ensures
            r.index == index,
            r.name@ == name@,
            r.inputs@ == inputs@,
            r.output == output,
            r.order.is_none(),
            r.level.is_none(),
            r.attrs@.len() == 0,
    {
        Node { index, name, inputs, output, order: None, level: None, attrs: Vec::new() }
    }
}

impl Network {
    pub open spec fn names(&self) -> Seq<Seq<char>> {
        self.nodes@.map_values(|n: Node| n.name@)
    }

    pub open spec fn outputs(&self) -> Seq<Option<usize>> {
        self.nodes@.map_values(|n: Node| n.output)
    }

    pub open spec fn inputs(&self) -> Seq<Seq<usize>> {
        self.nodes@.map_values(|n: Node| n.inputs@)
    }

    /// Dense indices, consistent links and distinct names.
    pub open spec fn wf(&self) -> bool {
        &&& links_wf(self.outputs(), self.inputs())
        &&& distinct_names(self.names())
        &&& forall|i: int| 0 <= i < self.nodes@.len() ==> (#[trigger] self.nodes@[i]).index == i
    }

    /// The index of the node called `name`.
    pub fn index_of(&self, name: &str) -> (r: Option<usize>)
        ensures
            match r {
                Some(i) => (i as int) < self.nodes@.len() && self.nodes@[i as int].name@ == name@,
                None => forall|i: int| 0 <= i < self.nodes@.len() ==> self.nodes@[i].name@ != name@,
            },
    {
        let key = String::from_str(name);
        let mut i: usize = 0;
        while i < self.nodes.len()
            invariant
                i <= self.nodes@.len(),
                key@ == name@,
                forall|j: int| 0 <= j < i ==> self.nodes@[j].name@ != name@,
            decreases self.nodes@.len() - i,
        {
            if self.nodes[i].name == key {
                return Some(i);
            }
            i = i + 1;
        }
        None
    }

    /// A freshly built network: structure only.
    pub open spec fn is_fresh(&self) -> bool {
        forall|i: int|
            0 <= i < self.nodes@.len() ==> {
                &&& (#[trigger] self.nodes@[i]).order.is_none()
                &&& self.nodes@[i].level.is_none()
                &&& self.nodes@[i].attrs@.len() == 0
            }
    }

    /// Reads a network from the lines of its text: `A -> B` makes `A` flow
    /// into `B`, a bare name declares a node, blank and `#` lines are skipped.
    /// Nodes are numbered by first appearance.
    pub fn from_lines(lines: &Vec<String>) -> (r: Result<Network, ParseError>)
        ensures
            match (r, ingest(lines@.map_values(|s: String| s@))) {
                (Ok(net), Ok(d)) => {
                    &&& net.wf()
                    &&& net.is_fresh()
                    &&& net.names() == d.names
                    &&& net.outputs() == d.outputs
                    &&& net.inputs() == d.inputs
                },
                (Err(e), Err(e2)) => e == e2,
                _ => false,
            },
    {
        let ghost text = lines@.map_values(|s: String| s@);
        let mut names: Vec<String> = Vec::new();
        let mut outputs: Vec<Option<usize>> = Vec::new();
        let mut inputs: Vec<Vec<usize>> = Vec::new();
        proof {
            assert(draft_of(names@, outputs@, inputs@) =~= draft_of(names@, outputs@, inputs@));
            assert(draft_of(names@, outputs@, inputs@).names =~= Seq::empty());
            assert(draft_of(names@, outputs@, inputs@).inputs =~= Seq::empty());
            assert(text.subrange(0, 0) =~= Seq::empty());
        }
        let mut i: usize = 0;
        while i < lines.len()
            invariant
                i <= lines@.len(),
                text == lines@.map_values(|s: String| s@),
                ingest(text.subrange(0, i as int)) == Ok::<Draft, ParseError>(
                    draft_of(names@, outputs@, inputs@),
                ),
                draft_wf(draft_of(names@, outputs@, inputs@)),
            decreases lines@.len() - i,
        {
            let ghost d = draft_of(names@, outputs@, inputs@);
            assert(text.subrange(0, i + 1).drop_last() =~= text.subrange(0, i as int));
            let l = chars_of(lines[i].as_str());
            let t = trim_range(&l, 0, l.len());
            assert(l@.subrange(0, l@.len() as int) =~= l@);
            assert(t@ == trimmed(text[i as int]));
            if t.len() == 0 || t[0] == '#' {
                assert(ingest(text.subrange(0, i + 1)) == Ok::<Draft, ParseError>(d));
            } else {
                match find_arrow(&t) {
                    Some(p) => {
                        let a = trim_range(&t, 0, p);
                        let b = trim_range(&t, p + 2, t.len());
                        assert(arrow_from(t@, 0) == Some(p as int));
                        assert(line_edge(text[i as int]) == Some((a@, b@)));
                        let ia = add_name(&mut names, &mut outputs, &mut inputs, &a);
                        let ghost da = draft_of(names@, outputs@, inputs@);
                        let ib = add_name(&mut names, &mut outputs, &mut inputs, &b);
                        let ghost db = draft_of(names@, outputs@, inputs@);
                        assert(pos_from(db.names, a@, 0) == Some(ia as int));
                        if ia == ib {
                            proof {
                                lemma_ingest_err(text, i + 1);
                            }
                            return Err(ParseError::SelfLoop { line: i });
                        }
                        if outputs[ia].is_some() {
                            proof {
                                lemma_ingest_err(text, i + 1);
                            }
                            return Err(ParseError::DuplicateOutput { line: i });
                        }
                        proof {
                            lemma_with_edge_wf(db, ia, ib);
                        }
                        outputs.set(ia, Some(ib));
                        let mut v = inputs[ib].clone();
                        v.push(ia);
                        inputs.set(ib, v);
                        proof {
                            let de = draft_of(names@, outputs@, inputs@);
                            assert(de.inputs =~= with_edge(db, ia as int, ib as int).inputs);
                            assert(de =~= with_edge(db, ia as int, ib as int));
                        }
                    },
                    None => {
                        add_name(&mut names, &mut outputs, &mut inputs, &t);
                    },
                }
            }
            i = i + 1;
        }
        assert(text.subrange(0, i as int) =~= text);
        let ghost d = draft_of(names@, outputs@, inputs@);
        let mut nodes: Vec<Node> = Vec::new();
        let mut k: usize = 0;
        while k < names.len()
            invariant
                d == draft_of(names@, outputs@, inputs@),
                draft_wf(d),
                k <= names@.len(),
                nodes@.len() == k,
                forall|j: int|
                    0 <= j < k ==> {
                        &&& (#[trigger] nodes@[j]).index == j
                        &&& nodes@[j].name@ == d.names[j]
                        &&& nodes@[j].output == d.outputs[j]
                        &&& nodes@[j].inputs@ == d.inputs[j]
                        &&& nodes@[j].order.is_none()
                        &&& nodes@[j].level.is_none()
                        &&& nodes@[j].attrs@.len() == 0
                    },
            decreases names@.len() - k,
        {
            let node = Node::new(k, names[k].clone(), inputs[k].clone(), outputs[k]);
            nodes.push(node);
            k = k + 1;
        }
        let net = Network { nodes };
        assert(net.names() =~= d.names);
        assert(net.outputs() =~= d.outputs);
        assert(net.inputs() =~= d.inputs);
        Ok(net)
    }
}

pub open spec fn draft_of(names: Seq<String>, outputs: Seq<Option<usize>>, inputs: Seq<Vec<usize>>) -> Draft {
    Draft {
        names: names.map_values(|s: String| s@),
        outputs: outputs,
        inputs: inputs.map_values(|v: Vec<usize>| v@),
    }
}

/// Position of the node named `x`, added at the end if it is new.
fn add_name(
    names: &mut Vec<String>,
    outputs: &mut Vec<Option<usize>>,
    inputs: &mut Vec<Vec<usize>>,
    x: &Vec<char>,
) -> (r: usize)
    requires
        draft_wf(draft_of(old(names)@, old(outputs)@, old(inputs)@)),
    ensures
        draft_of(final(names)@, final(outputs)@, final(inputs)@) == with_name(
            draft_of(old(names)@, old(outputs)@, old(inputs)@),
            x@,
        ),
        draft_wf(draft_of(final(names)@, final(outputs)@, final(inputs)@)),
        pos_from(draft_of(final(names)@, final(outputs)@, final(inputs)@).names, x@, 0) == Some(
            r as int,
        ),
        forall|y: Seq<char>|
            pos_from(draft_of(old(names)@, old(outputs)@, old(inputs)@).names, y, 0) is Some
                ==> pos_from(draft_of(final(names)@, final(outputs)@, final(inputs)@).names, y, 0)
                == pos_from(draft_of(old(names)@, old(outputs)@, old(inputs)@).names, y, 0),
        r < final(names)@.len(),
        final(names)@.len() == final(outputs)@.len(),
        final(names)@.len() == final(inputs)@.len(),
{
    let s = string_of(x.as_slice());
    let ghost d0 = draft_of(names@, outputs@, inputs@);
    proof {
        lemma_with_name_wf(d0, x@);
    }
    assert(names@.len() == d0.names.len() && inputs@.len() == d0.inputs.len());
    let mut j: usize = 0;
    while j < names.len()
        invariant
            j <= names@.len(),
            names@.len() == outputs@.len(),
            names@.len() == inputs@.len(),
            draft_wf(d0),
            s@ == x@,
            d0 == draft_of(names@, outputs@, inputs@),
            pos_from(d0.names, x@, 0) == pos_from(d0.names, x@, j as int),
        decreases names@.len() - j,
    {
        if names[j] == s {
            assert(d0.names[j as int] == x@);
            assert(pos_from(d0.names, x@, j as int) == Some(j as int));
            return j;
        }
        j = j + 1;
    }
    assert(pos_from(d0.names, x@, j as int) is None);
    let k = names.len();
    names.push(s);
    outputs.push(None);
    inputs.push(Vec::new());
    proof {
        let d1 = draft_of(names@, outputs@, inputs@);
        assert(d1.names =~= d0.names.push(x@));
        assert(d1.inputs =~= d0.inputs.push(Seq::empty()));
        assert(d1.outputs =~= d0.outputs.push(None));
        assert(d1 == with_name(d0, x@));
        lemma_pos_from(d0.names, x@, 0);
        lemma_pos_push_new(d0.names, x@, 0);
    }
    k
}

} // verus!
