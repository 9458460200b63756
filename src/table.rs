use vstd::prelude::*;
use crate::fmt::{digits, push_digits};
use crate::network::{Network, Node};
use crate::render::{dfs_order, level_of};
use crate::template::{render_parts, Template};
use crate::text::push_char;

verus! {

/// The document lines before the table's header row, for `cols` columns.
pub open spec fn table_preamble(cols: nat) -> Seq<Seq<char>> {
    seq![
        "\\documentclass{standalone}"@,
        ""@,
        "\\usepackage{array}"@,
        "\\usepackage{booktabs}"@,
        "\\usepackage{multirow}"@,
        "\\usepackage{graphicx}"@,
        "\\usepackage[hidelinks]{hyperref}"@,
        "\\usepackage{tikz}"@,
        "\\usetikzlibrary{tikzmark}"@,
        ""@,
        "\\newcommand{\\TikzNode}[4][0]{%"@,
        "  \\tikz[overlay,remember picture]{\\draw (#1 / 2 +0.5, 0.1) circle [radius=0.14] node (#2) {\\href{#4}{\\tiny #3}};}}"@,
        ""@,
        ""@,
        "\\begin{document}"@,
        ""@,
        "  \\begin{tabular}{"@ + Seq::new(cols + 1, |i: int| 'l') + "}"@,
        "    \\toprule"@,
    ]
}

/// The column headers after `Connection`, each behind ` & `.
pub open spec fn header_cells(cols: Seq<(String, Template)>) -> Seq<char>
    decreases cols.len(),
{
    if cols.len() == 0 {
        Seq::empty()
    } else {
        header_cells(cols.drop_last()) + " & "@ + cols.last().0@
    }
}

/// The cells of node `n`, each behind ` & `.
pub open spec fn row_cells(cols: Seq<(String, Template)>, n: Node) -> Seq<char>
    decreases cols.len(),
{
    if cols.len() == 0 {
        Seq::empty()
    } else {
        row_cells(cols.drop_last(), n) + " & "@ + render_parts(cols.last().1@, n)
    }
}

/// The table row of node `i`: its marker at its level, then its cells.
pub open spec fn table_row(nodes: Seq<Node>, cols: Seq<(String, Template)>, url: Template, i: int) -> Seq<char> {
    let n = nodes[i];
    let idx = digits(n.index as nat);
    "\\TikzNode["@ + digits(level_of(nodes, i)) + "]{"@ + idx + "}{"@ + idx + "}{"@ + render_parts(url@, n) + "}"@
        + row_cells(cols, n) + "\\\\"@
}

/// The edge drawn from node `i` to its output, if it has one.
pub open spec fn table_edge(nodes: Seq<Node>, i: int) -> Seq<Seq<char>> {
    match nodes[i].output {
        Some(o) => seq![
            "\\path[->] ("@ + digits(nodes[i].index as nat) + ") edge ("@ + digits(nodes[o as int].index as nat)
                + ");"@,
        ],
        None => Seq::empty(),
    }
}

/// Rows and edges of the nodes drawn `0..t`-th, taken from the end of `w`.
pub open spec fn table_rows(nodes: Seq<Node>, cols: Seq<(String, Template)>, url: Template, w: Seq<usize>, t: int) -> Seq<Seq<char>>
    decreases t,
{
    if t <= 0 {
        Seq::empty()
    } else {
        table_rows(nodes, cols, url, w, t - 1).push(table_row(nodes, cols, url, w[w.len() - t] as int))
    }
}

pub open spec fn table_edges(nodes: Seq<Node>, w: Seq<usize>, t: int) -> Seq<Seq<char>>
    decreases t,
{
    if t <= 0 {
        Seq::empty()
    } else {
        table_edges(nodes, w, t - 1) + table_edge(nodes, w[w.len() - t] as int)
    }
}

/// The whole table document.
pub open spec fn table_lines(nodes: Seq<Node>, cols: Seq<(String, Template)>, url: Template, w: Seq<usize>) -> Seq<Seq<char>> {
    table_preamble(cols.len()) + seq!["Connection"@ + header_cells(cols) + "\\\\"@, "\\midrule"@]
        + table_rows(nodes, cols, url, w, w.len() as int) + seq![
        "\\bottomrule"@,
        "\\end{tabular}"@,
        "\\tikz[overlay,remember picture]{"@,
    ] + table_edges(nodes, w, w.len() as int) + seq!["}"@, "\\end{document}"@]
}

/// Appends `line` to `lines`.
fn put(lines: &mut Vec<String>, line: &str)
    ensures
        final(lines)@.map_values(|s: String| s@) == old(lines)@.map_values(|s: String| s@).push(line@),
{
    let ghost before = lines@;
    lines.push(String::from_str(line));
    assert(lines@.map_values(|s: String| s@) =~= before.map_values(|s: String| s@).push(line@));
}

/// Appends `line` to `lines`.
fn put_string(lines: &mut Vec<String>, line: String)
    ensures
        final(lines)@.map_values(|s: String| s@) == old(lines)@.map_values(|s: String| s@).push(line@),
{
    let ghost before = lines@;
    let ghost v = line@;
    lines.push(line);
    assert(lines@.map_values(|s: String| s@) =~= before.map_values(|s: String| s@).push(v));
}

impl Network {
    /// The row of node `i`.
    fn table_row_text(&self, cols: &Vec<(String, Template)>, url: &Template, i: usize) -> (r: String)
        requires
            (i as int) < self.nodes@.len(),
        ensures
            r@ == table_row(self.nodes@, cols@, *url, i as int),
    {
        let node = &self.nodes[i];
        let lvl = self.level_at(i);
        let mut s = String::from_str("\\TikzNode[");
        push_digits(&mut s, lvl as u128);
        s.append("]{");
        push_digits(&mut s, node.index as u128);
        s.append("}{");
        push_digits(&mut s, node.index as u128);
        s.append("}{");
        s.append(node.format(url).as_str());
        s.append("}");
        let ghost pre = s@;
        let mut c: usize = 0;
        while c < cols.len()
            invariant
                c <= cols@.len(),
                s@ == pre + row_cells(cols@.subrange(0, c as int), *node),
            decreases cols@.len() - c,
        {
            s.append(" & ");
            s.append(node.format(&cols[c].1).as_str());
            proof {
                assert(cols@.subrange(0, c + 1).drop_last() =~= cols@.subrange(0, c as int));
            }
            c = c + 1;
        }
        s.append("\\\\");
        proof {
            assert(cols@.subrange(0, c as int) =~= cols@);
            assert(s@ =~= table_row(self.nodes@, cols@, *url, i as int));
        }
        s
    }

    /// The network as a table document: a header row of the column names,
    /// then one row per node, the most upstream first, each with a marker
    /// at the node's level and one cell per column template; then an edge
    /// from each node to its output.
    #[verifier::loop_isolation(false)]
    pub fn generate_latex_table(&self, cols: &Vec<(String, Template)>, url: &Template) -> (r: Vec<String>)
        requires
            self.wf(),
        ensures
            self.nodes@.len() == 0 ==> r@.len() == 0,
            self.nodes@.len() > 0 ==> r@.map_values(|s: String| s@) == table_lines(
                self.nodes@,
                cols@,
                *url,
                dfs_order(self.nodes@, true),
            ),
    {
        let n = self.nodes.len();
        let mut lines: Vec<String> = Vec::new();
        if n == 0 {
            return lines;
        }
        let w = self.walk(true);
        put(&mut lines, "\\documentclass{standalone}");
        put(&mut lines, "");
        put(&mut lines, "\\usepackage{array}");
        put(&mut lines, "\\usepackage{booktabs}");
        put(&mut lines, "\\usepackage{multirow}");
        put(&mut lines, "\\usepackage{graphicx}");
        put(&mut lines, "\\usepackage[hidelinks]{hyperref}");
        put(&mut lines, "\\usepackage{tikz}");
        put(&mut lines, "\\usetikzlibrary{tikzmark}");
        put(&mut lines, "");
        put(&mut lines, "\\newcommand{\\TikzNode}[4][0]{%");
        put(&mut lines, "  \\tikz[overlay,remember picture]{\\draw (#1 / 2 +0.5, 0.1) circle [radius=0.14] node (#2) {\\href{#4}{\\tiny #3}};}}");
        put(&mut lines, "");
        put(&mut lines, "");
        put(&mut lines, "\\begin{document}");
        put(&mut lines, "");
        let mut fmt = String::from_str("  \\begin{tabular}{");
        let ghost f0 = fmt@;
        push_char(&mut fmt, 'l');
        assert(fmt@ =~= f0 + Seq::new(1, |i: int| 'l'));
        let mut c: usize = 0;
        while c < cols.len()
            invariant
                c <= cols@.len(),
                fmt@ == f0 + Seq::new(c as nat + 1, |i: int| 'l'),
            decreases cols@.len() - c,
        {
            push_char(&mut fmt, 'l');
            c = c + 1;
            assert(fmt@ =~= f0 + Seq::new(c as nat + 1, |i: int| 'l'));
        }
        fmt.append("}");
        put_string(&mut lines, fmt);
        put(&mut lines, "    \\toprule");
        let mut head = String::from_str("Connection");
        let ghost h0 = head@;
        let mut c: usize = 0;
        while c < cols.len()
            invariant
                c <= cols@.len(),
                head@ == h0 + header_cells(cols@.subrange(0, c as int)),
            decreases cols@.len() - c,
        {
            head.append(" & ");
            head.append(cols[c].0.as_str());
            proof {
                assert(cols@.subrange(0, c + 1).drop_last() =~= cols@.subrange(0, c as int));
            }
            c = c + 1;
        }
        head.append("\\\\");
        assert(cols@.subrange(0, c as int) =~= cols@);
        put_string(&mut lines, head);
        put(&mut lines, "\\midrule");
        let ghost top = lines@.map_values(|s: String| s@);
        proof {
            assert(top =~= table_preamble(cols@.len()) + seq!["Connection"@ + header_cells(cols@) + "\\\\"@, "\\midrule"@]);
        }
        let mut t: usize = 0;
        while t < n
            invariant
                t <= n,
                lines@.map_values(|s: String| s@) == top + table_rows(self.nodes@, cols@, *url, w@, t as int),
            decreases n - t,
        {
            let i = w[n - 1 - t];
            let row = self.table_row_text(cols, url, i);
            put_string(&mut lines, row);
            t = t + 1;
        }
        put(&mut lines, "\\bottomrule");
        put(&mut lines, "\\end{tabular}");
        put(&mut lines, "\\tikz[overlay,remember picture]{");
        let ghost mid = lines@.map_values(|s: String| s@);
        let mut t: usize = 0;
        while t < n
            invariant
                t <= n,
                lines@.map_values(|s: String| s@) == mid + table_edges(self.nodes@, w@, t as int),
            decreases n - t,
        {
            let i = w[n - 1 - t];
            match self.nodes[i].output {
                Some(o) => {
                    assert(self.outputs()[i as int] == Some(o));
                    let mut e = String::from_str("\\path[->] (");
                    push_digits(&mut e, self.nodes[i].index as u128);
                    e.append(") edge (");
                    push_digits(&mut e, self.nodes[o].index as u128);
                    e.append(");");
                    put_string(&mut lines, e);
                },
                None => {},
            }
            t = t + 1;
        }
        put(&mut lines, "}");
        put(&mut lines, "\\end{document}");
        proof {
            assert(lines@.map_values(|s: String| s@) =~= table_lines(self.nodes@, cols@, *url, w@));
        }
        lines
    }
}

} // verus!
