use vstd::prelude::*;

verus! {

/// Unicode's `White_Space` property, as `char::is_whitespace` documents it.
pub open spec fn is_ws(c: char) -> bool {
    let u = c as u32;
    (0x9 <= u && u <= 0xD) || u == 0x20 || u == 0x85 || u == 0xA0 || u == 0x1680 || (0x2000 <= u
        && u <= 0x200A) || u == 0x2028 || u == 0x2029 || u == 0x202F || u == 0x205F || u == 0x3000
}

pub fn whitespace(c: char) -> (r: bool)
    ensures
        r == is_ws(c),
{
    let u = c as u32;
    (0x9 <= u && u <= 0xD) || u == 0x20 || u == 0x85 || u == 0xA0 || u == 0x1680 || (0x2000 <= u
        && u <= 0x200A) || u == 0x2028 || u == 0x2029 || u == 0x202F || u == 0x205F || u == 0x3000
}

/// Relies on `String::push`: the character is appended.
#[verifier::external_body]
pub(crate) fn push_char(s: &mut String, c: char)
    ensures
        final(s)@ == old(s)@.push(c),
{
    s.push(c)
}

/// The characters of a string, in order.
pub fn chars_of(s: &str) -> (r: Vec<char>)
    ensures
        r@ == s@,
{
    let mut out: Vec<char> = Vec::new();
    proof {
        vstd::string::axiom_spec_iter(s);
    }
    for c in it: s.chars()
        invariant
            it.seq() == s@,
            out@ == it.seq().subrange(0, it.index() as int),
    {
        out.push(c);
        assert(out@ =~= it.seq().subrange(0, it.index() + 1));
    }
    assert(out@ =~= s@);
    out
}

/// A `String` holding the given characters.
pub fn string_of(cs: &[char]) -> (r: String)
    ensures
        r@ == cs@,
{
    let mut s = String::new();
    let mut i: usize = 0;
    while i < cs.len()
        invariant
            i <= cs@.len(),
            s@ == cs@.subrange(0, i as int),
        decreases cs@.len() - i,
    {
        push_char(&mut s, cs[i]);
        i = i + 1;
        assert(s@ =~= cs@.subrange(0, i as int));
    }
    assert(s@ =~= cs@);
    s
}

/// Index of the first character that is not whitespace, from `lo` on.
pub open spec fn skip_ws(s: Seq<char>, lo: int) -> int
    decreases s.len() - lo,
{
    if lo >= s.len() || !is_ws(s[lo]) {
        lo
    } else {
        skip_ws(s, lo + 1)
    }
}

/// End of the text once trailing whitespace above `lo` is dropped.
pub open spec fn drop_ws(s: Seq<char>, lo: int, hi: int) -> int
    decreases hi - lo,
{
    if hi <= lo || !is_ws(s[hi - 1]) {
        hi
    } else {
        drop_ws(s, lo, hi - 1)
    }
}

/// The text with leading and trailing whitespace removed.
pub open spec fn trimmed(s: Seq<char>) -> Seq<char> {
    let lo = skip_ws(s, 0);
    s.subrange(lo, drop_ws(s, lo, s.len() as int))
}

proof fn lemma_skip_ws_bounds(s: Seq<char>, lo: int)
    requires
        0 <= lo <= s.len(),
    ensures
        lo <= skip_ws(s, lo) <= s.len(),
    decreases s.len() - lo,
{
    if lo < s.len() && is_ws(s[lo]) {
        lemma_skip_ws_bounds(s, lo + 1);
    }
}

proof fn lemma_drop_ws_bounds(s: Seq<char>, lo: int, hi: int)
    requires
        0 <= lo <= hi <= s.len(),
    ensures
        lo <= drop_ws(s, lo, hi) <= hi,
    decreases hi - lo,
{
    if hi > lo && is_ws(s[hi - 1]) {
        lemma_drop_ws_bounds(s, lo, hi - 1);
    }
}

/// Leading and trailing whitespace removed from `s[lo..hi]`.
pub fn trim_range(s: &Vec<char>, lo: usize, hi: usize) -> (r: Vec<char>)
    requires
        lo <= hi <= s@.len(),
    ensures
        r@ == trimmed(s@.subrange(lo as int, hi as int)),
{
    let ghost t = s@.subrange(lo as int, hi as int);
    let mut a = lo;
    while a < hi && whitespace(s[a])
        invariant
            lo <= a <= hi <= s@.len(),
            t == s@.subrange(lo as int, hi as int),
            skip_ws(t, (a - lo) as int) == skip_ws(t, 0),
        decreases hi - a,
    {
        assert(t[(a - lo) as int] == s@[a as int]);
        a = a + 1;
    }
    proof {
        lemma_skip_ws_bounds(t, 0);
    }
    let mut b = hi;
    while b > a && whitespace(s[b - 1])
        invariant
            lo <= a <= b <= hi <= s@.len(),
            t == s@.subrange(lo as int, hi as int),
            a - lo == skip_ws(t, 0),
            drop_ws(t, (a - lo) as int, (b - lo) as int) == drop_ws(t, (a - lo) as int, t.len() as int),
        decreases b - a,
    {
        assert(t[(b - lo) - 1] == s@[b - 1]);
        b = b - 1;
    }
    let mut out: Vec<char> = Vec::new();
    let mut k = a;
    while k < b
        invariant
            a <= k <= b <= s@.len(),
            out@ == s@.subrange(a as int, k as int),
        decreases b - k,
    {
        out.push(s[k]);
        k = k + 1;
        assert(out@ =~= s@.subrange(a as int, k as int));
    }
    assert(out@ =~= t.subrange(a - lo, b - lo));
    out
}

/// Whether `s` holds the two characters `->` at position `i`.
pub open spec fn arrow_at(s: Seq<char>, i: int) -> bool {
    0 <= i && i + 1 < s.len() && s[i] == '-' && s[i + 1] == '>'
}

/// Position of the first `->` in `s` at or after `i`, if any.
pub open spec fn arrow_from(s: Seq<char>, i: int) -> Option<int>
    decreases s.len() - i,
{
    if i < 0 || i + 1 >= s.len() {
        None
    } else if arrow_at(s, i) {
        Some(i)
    } else {
        arrow_from(s, i + 1)
    }
}

/// Finds the first `->` in `s`.
pub fn find_arrow(s: &Vec<char>) -> (r: Option<usize>)
    ensures
        match r {
            Some(i) => arrow_from(s@, 0) == Some(i as int),
            None => arrow_from(s@, 0) is None,
        },
        r matches Some(i) ==> i + 2 <= s@.len(),
{
    let mut i: usize = 0;
    while i < s.len()
        invariant
            i <= s@.len(),
            arrow_from(s@, 0) == arrow_from(s@, i as int),
        decreases s@.len() - i,
    {
        if i + 1 < s.len() && s[i] == '-' && s[i + 1] == '>' {
            return Some(i);
        }
        i = i + 1;
    }
    None
}

} // verus!
