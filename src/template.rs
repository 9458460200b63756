use vstd::prelude::*;
use crate::attr::NodeAttr;
use crate::fmt::{decimal_text, digits, list_text, push_decimal, push_digits, push_list};
use crate::network::Node;
use crate::text::{chars_of, string_of};

verus! {

/// One piece of a template: literal text, or a reference to an attribute.
#[derive(Clone, Debug)]
pub enum Fragment {
    Literal(String),
    Attr(String),
}

/// A parsed template: literal text interspersed with `${name}` or `$name`
/// references.
#[derive(Clone, Debug)]
pub struct Template {
    pub parts: Vec<Fragment>,
}

/// Why a template could not be parsed.
#[derive(Clone, Copy, PartialEq, Eq, Structural, Debug)]
pub enum TemplateError {
    /// A `${` at this character position has no closing `}`.
    Unclosed { at: usize },
}

/// A character that may appear in a bare `$name` reference.
pub open spec fn is_ident(c: char) -> bool {
    ('a' <= c && c <= 'z') || ('A' <= c && c <= 'Z') || c == '_'
}

/// How many characters from `i` on come before the first `c` (or the end).
pub open spec fn until(s: Seq<char>, i: int, c: char) -> nat
    decreases s.len() - i,
{
    if i < 0 || i >= s.len() || s[i] == c {
        0
    } else {
        1 + until(s, i + 1, c)
    }
}

/// How many identifier characters start at `i`.
pub open spec fn ident_len(s: Seq<char>, i: int) -> nat
    decreases s.len() - i,
{
    if i < 0 || i >= s.len() || !is_ident(s[i]) {
        0
    } else {
        1 + ident_len(s, i + 1)
    }
}

/// A fragment as (is a reference, text).
pub open spec fn frag_view(f: Fragment) -> (bool, Seq<char>) {
    match f {
        Fragment::Literal(t) => (false, t@),
        Fragment::Attr(t) => (true, t@),
    }
}

/// The fragments of `s` from position `i` on; none where a `${` is left open.
pub open spec fn scan(s: Seq<char>, i: int) -> Option<Seq<(bool, Seq<char>)>>
    decreases if i < s.len() {
        s.len() - i
    } else {
        0
    },
{
    if i < 0 || i >= s.len() {
        Some(Seq::empty())
    } else if s[i] == '$' && i + 1 < s.len() && s[i + 1] == '{' {
        let j = i + 2 + until(s, i + 2, '}');
        if j >= s.len() {
            None
        } else {
            match scan(s, j + 1) {
                Some(rest) => Some(seq![(true, s.subrange(i + 2, j))] + rest),
                None => None,
            }
        }
    } else if s[i] == '$' && i + 1 < s.len() && is_ident(s[i + 1]) {
        let j = i + 1 + ident_len(s, i + 1);
        match scan(s, j) {
            Some(rest) => Some(seq![(true, s.subrange(i + 1, j))] + rest),
            None => None,
        }
    } else {
        let j = i + 1 + until(s, i + 1, '$');
        match scan(s, j) {
            Some(rest) => Some(seq![(false, s.subrange(i, j))] + rest),
            None => None,
        }
    }
}

proof fn lemma_until(s: Seq<char>, i: int, c: char)
    requires
        0 <= i <= s.len(),
    ensures
        i + until(s, i, c) <= s.len(),
        forall|k: int| i <= k < i + until(s, i, c) ==> s[k] != c,
        i + until(s, i, c) < s.len() ==> s[i + until(s, i, c)] == c,
    decreases s.len() - i,
{
    if i < s.len() && s[i] != c {
        lemma_until(s, i + 1, c);
    }
}

proof fn lemma_ident_len(s: Seq<char>, i: int)
    requires
        0 <= i <= s.len(),
    ensures
        i + ident_len(s, i) <= s.len(),
        forall|k: int| i <= k < i + ident_len(s, i) ==> is_ident(s[k]),
        i + ident_len(s, i) < s.len() ==> !is_ident(s[i + ident_len(s, i)]),
    decreases s.len() - i,
{
    if i < s.len() && is_ident(s[i]) {
        lemma_ident_len(s, i + 1);
    }
}

fn is_ident_char(c: char) -> (r: bool)
    ensures
        r == is_ident(c),
{
    ('a' <= c && c <= 'z') || ('A' <= c && c <= 'Z') || c == '_'
}

/// Index of the first `c` in `s` from `i` on, or the length.
fn find_from(s: &Vec<char>, i: usize, c: char) -> (r: usize)
    requires
        i <= s@.len(),
    ensures
        r == i + until(s@, i as int, c),
{
    proof {
        lemma_until(s@, i as int, c);
    }
    let mut j = i;
    while j < s.len() && s[j] != c
        invariant
            i <= j <= s@.len(),
            i + until(s@, i as int, c) == j + until(s@, j as int, c),
        decreases s@.len() - j,
    {
        j = j + 1;
    }
    j
}

/// Index just past the identifier characters that start at `i`.
fn ident_from(s: &Vec<char>, i: usize) -> (r: usize)
    requires
        i <= s@.len(),
    ensures
        r == i + ident_len(s@, i as int),
{
    let mut j = i;
    while j < s.len() && is_ident_char(s[j])
        invariant
            i <= j <= s@.len(),
            i + ident_len(s@, i as int) == j + ident_len(s@, j as int),
        decreases s@.len() - j,
    {
        j = j + 1;
    }
    j
}

/// The characters `s[lo..hi]` as a `String`.
fn piece(s: &Vec<char>, lo: usize, hi: usize) -> (r: String)
    requires
        lo <= hi <= s@.len(),
    ensures
        r@ == s@.subrange(lo as int, hi as int),
{
    let mut out: Vec<char> = Vec::new();
    let mut k = lo;
    while k < hi
        invariant
            lo <= k <= hi,
            hi <= s@.len(),
            out@ == s@.subrange(lo as int, k as int),
        decreases hi - k,
    {
        out.push(s[k]);
        k = k + 1;
        assert(out@ =~= s@.subrange(lo as int, k as int));
    }
    string_of(out.as_slice())
}

/// How a stored attribute value reads in rendered text.
pub open spec fn value_text(a: NodeAttr) -> Seq<char> {
    match a {
        NodeAttr::String(t) => t@,
        NodeAttr::Number(v) => digits(v as nat),
        NodeAttr::Vec(v) => list_text(v@),
        NodeAttr::Value(d) => if d.wf() {
            decimal_text(d)
        } else {
            Seq::empty()
        },
    }
}

/// The text a reference to `key` shows for node `n`: the node's own fields
/// under `name`, `index`, `inputs`, `output`, `order` and `level`, else its
/// stored attribute; empty where there is none.
pub open spec fn attr_text(n: Node, key: Seq<char>) -> Seq<char> {
    if key == "name"@ {
        n.name@
    } else if key == "index"@ {
        digits(n.index as nat)
    } else if key == "inputs"@ {
        list_text(n.inputs@)
    } else if key == "output"@ && n.output is Some {
        digits(n.output->0 as nat)
    } else if key == "order"@ && n.order is Some {
        digits(n.order->0 as nat)
    } else if key == "level"@ && n.level is Some {
        digits(n.level->0 as nat)
    } else {
        match n.attr(key) {
            Some(a) => value_text(a),
            None => Seq::empty(),
        }
    }
}

/// A template's fragments rendered for node `n`.
pub open spec fn render_parts(parts: Seq<(bool, Seq<char>)>, n: Node) -> Seq<char>
    decreases parts.len(),
{
    if parts.len() == 0 {
        Seq::empty()
    } else {
        let (is_ref, t) = parts.last();
        render_parts(parts.drop_last(), n) + if is_ref {
            attr_text(n, t)
        } else {
            t
        }
    }
}

/// Appends how `a` reads.
pub fn push_value(s: &mut String, a: &NodeAttr)
    ensures
        final(s)@ == old(s)@ + value_text(*a),
{
    match a {
        NodeAttr::String(t) => {
            s.append(t.as_str());
        },
        NodeAttr::Number(v) => {
            push_digits(s, *v as u128);
        },
        NodeAttr::Vec(v) => {
            push_list(s, v);
        },
        NodeAttr::Value(d) => {
            if d.scale <= crate::attr::MAX_SCALE {
                push_decimal(s, *d);
            } else {
                assert(s@ =~= old(s)@ + Seq::<char>::empty());
            }
        },
    }
}

/// Appends what a reference to `key` shows for `n`.
pub fn push_attr(s: &mut String, n: &Node, key: &String)
    ensures
        final(s)@ == old(s)@ + attr_text(*n, key@),
{
    if *key == String::from_str("name") {
        s.append(n.name.as_str());
    } else if *key == String::from_str("index") {
        push_digits(s, n.index as u128);
    } else if *key == String::from_str("inputs") {
        push_list(s, &n.inputs);
    } else if *key == String::from_str("output") && n.output.is_some() {
        push_digits(s, n.output.unwrap() as u128);
    } else if *key == String::from_str("order") && n.order.is_some() {
        push_digits(s, n.order.unwrap() as u128);
    } else if *key == String::from_str("level") && n.level.is_some() {
        push_digits(s, n.level.unwrap() as u128);
    } else {
        match n.get_attr(key.as_str()) {
            Some(a) => push_value(s, a),
            None => {
                assert(s@ =~= old(s)@ + Seq::<char>::empty());
            },
        }
    }
}

impl Node {
    /// The text of attribute `key`, empty where there is none.
    pub fn get_attr_repr(&self, key: &str) -> (r: String)
        ensures
            r@ == attr_text(*self, key@),
    {
        let mut s = String::new();
        push_attr(&mut s, self, &String::from_str(key));
        assert(s@ =~= attr_text(*self, key@));
        s
    }

    /// The template rendered for this node; a reference to a missing
    /// attribute renders as empty text.
    pub fn format(&self, template: &Template) -> (r: String)
        ensures
            r@ == render_parts(template@, *self),
    {
        let mut s = String::new();
        let mut i: usize = 0;
        while i < template.parts.len()
            invariant
                i <= template.parts@.len(),
                s@ == render_parts(template@.subrange(0, i as int), *self),
            decreases template.parts@.len() - i,
        {
            match &template.parts[i] {
                Fragment::Literal(t) => {
                    s.append(t.as_str());
                },
                Fragment::Attr(k) => {
                    push_attr(&mut s, self, k);
                },
            }
            proof {
                assert(template@.subrange(0, i + 1).drop_last() =~= template@.subrange(0, i as int));
                assert(template@.subrange(0, i + 1).last() == frag_view(template.parts@[i as int]));
            }
            i = i + 1;
        }
        assert(template@.subrange(0, i as int) =~= template@);
        s
    }
}

impl Template {
    pub open spec fn view(&self) -> Seq<(bool, Seq<char>)> {
        self.parts@.map_values(|f: Fragment| frag_view(f))
    }

    /// Parses literal text with `${name}` references, and bare `$name` ones
    /// made of letters and underscores; a `$` that starts neither is text.
    pub fn parse_template(text: &str) -> (r: Result<Template, TemplateError>)
        ensures
            match r {
                Ok(t) => scan(text@, 0) == Some(t@),
                Err(TemplateError::Unclosed { at }) => scan(text@, 0) is None && (at as int) < text@.len()
                    && text@[at as int] == '$',
            },
    {
        let s = chars_of(text);
        let mut parts: Vec<Fragment> = Vec::new();
        let mut i: usize = 0;
        while i < s.len()
            invariant
                s@ == text@,
                i <= s@.len(),
                scan(s@, 0) == match scan(s@, i as int) {
                    Some(rest) => Some(parts@.map_values(|f: Fragment| frag_view(f)) + rest),
                    None => None,
                },
            decreases s@.len() - i,
        {
            let ghost acc = parts@.map_values(|f: Fragment| frag_view(f));
            if s[i] == '$' && i + 1 < s.len() && s[i + 1] == '{' {
                let j = find_from(&s, i + 2, '}');
                if j >= s.len() {
                    return Err(TemplateError::Unclosed { at: i });
                }
                let name = piece(&s, i + 2, j);
                parts.push(Fragment::Attr(name));
                proof {
                    assert(parts@.map_values(|f: Fragment| frag_view(f)) =~= acc.push((true, s@.subrange(i + 2, j as int))));
                    if let Some(rest) = scan(s@, j + 1) {
                        assert(acc + (seq![(true, s@.subrange(i + 2, j as int))] + rest) =~= acc.push((true, s@.subrange(i + 2, j as int))) + rest);
                    }
                }
                i = j + 1;
            } else if s[i] == '$' && i + 1 < s.len() && is_ident_char(s[i + 1]) {
                let j = ident_from(&s, i + 1);
                proof {
                    lemma_ident_len(s@, i + 1);
                }
                let name = piece(&s, i + 1, j);
                parts.push(Fragment::Attr(name));
                proof {
                    assert(parts@.map_values(|f: Fragment| frag_view(f)) =~= acc.push((true, s@.subrange(i + 1, j as int))));
                    if let Some(rest) = scan(s@, j as int) {
                        assert(acc + (seq![(true, s@.subrange(i + 1, j as int))] + rest) =~= acc.push((true, s@.subrange(i + 1, j as int))) + rest);
                    }
                }
                i = j;
            } else {
                let j = find_from(&s, i + 1, '$');
                proof {
                    lemma_until(s@, i + 1, '$');
                }
                let lit = piece(&s, i, j);
                parts.push(Fragment::Literal(lit));
                proof {
                    assert(parts@.map_values(|f: Fragment| frag_view(f)) =~= acc.push((false, s@.subrange(i as int, j as int))));
                    if let Some(rest) = scan(s@, j as int) {
                        assert(acc + (seq![(false, s@.subrange(i as int, j as int))] + rest) =~= acc.push((false, s@.subrange(i as int, j as int))) + rest);
                    }
                }
                i = j;
            }
        }
        assert(parts@.map_values(|f: Fragment| frag_view(f)) + Seq::empty() =~= parts@.map_values(|f: Fragment| frag_view(f)));
        Ok(Template { parts })
    }
}

} // verus!
