use vstd::prelude::*;
use crate::attr::{lemma_pow10_bounds, pow10, pow10_i128, Decimal, NodeAttr, MAX_SCALE};
use crate::network::Node;
use crate::text::{chars_of, string_of, trim_range, trimmed};

verus! {

pub open spec fn is_digit(c: char) -> bool {
    '0' <= c && c <= '9'
}

pub open spec fn all_digits(s: Seq<char>) -> bool {
    forall|i: int| 0 <= i < s.len() ==> is_digit(#[trigger] s[i])
}

/// The number that a run of decimal digits denotes.
pub open spec fn digits_value(s: Seq<char>) -> nat
    decreases s.len(),
{
    if s.len() == 0 {
        0
    } else {
        10 * digits_value(s.drop_last()) + ((s.last() as u32) - ('0' as u32)) as nat
    }
}

/// A count: digits, with an optional leading `+`, that fit in `usize`.
pub open spec fn count_of(s: Seq<char>) -> Option<usize> {
    let body = if s.len() > 0 && s[0] == '+' {
        s.subrange(1, s.len() as int)
    } else {
        s
    };
    if body.len() > 0 && all_digits(body) && digits_value(body) <= usize::MAX {
        Some(digits_value(body) as usize)
    } else {
        None
    }
}

/// Position of the first `.` in `s`, or its length.
pub open spec fn dot_at(s: Seq<char>, i: int) -> int
    decreases s.len() - i,
{
    if i < 0 || i >= s.len() || s[i] == '.' {
        i
    } else {
        dot_at(s, i + 1)
    }
}

/// A plain decimal: optional sign, digits, optionally `.` and more digits,
/// with at least one digit, at most `MAX_SCALE` places, and units that fit
/// in `i64`.
pub open spec fn plain_decimal_of(s: Seq<char>) -> Option<Decimal> {
    let neg = s.len() > 0 && s[0] == '-';
    let start: int = if s.len() > 0 && (s[0] == '-' || s[0] == '+') {
        1
    } else {
        0
    };
    let body = s.subrange(start, s.len() as int);
    let d = dot_at(body, 0);
    let ip = body.subrange(0, d);
    let fp = if d < body.len() {
        body.subrange(d + 1, body.len() as int)
    } else {
        Seq::empty()
    };
    let m = digits_value(ip) * pow10(fp.len()) + digits_value(fp);
    if all_digits(ip) && all_digits(fp) && ip.len() + fp.len() > 0 && fp.len() <= MAX_SCALE && m
        <= i64::MAX {
        Some(Decimal { units: if neg { -m } else { m } as i64, scale: fp.len() as u8 })
    } else {
        None
    }
}

/// Position of the first `e` or `E` in `s` from `i` on, or its length.
pub open spec fn exp_at(s: Seq<char>, i: int) -> int
    decreases s.len() - i,
{
    if i < 0 || i >= s.len() || s[i] == 'e' || s[i] == 'E' {
        i
    } else {
        exp_at(s, i + 1)
    }
}

/// An exponent: optional sign and digits, at most 255.
pub open spec fn exponent_of(t: Seq<char>) -> Option<int> {
    let neg = t.len() > 0 && t[0] == '-';
    let start: int = if t.len() > 0 && (t[0] == '-' || t[0] == '+') {
        1
    } else {
        0
    };
    let body = t.subrange(start, t.len() as int);
    if body.len() > 0 && all_digits(body) && digits_value(body) <= 255 {
        Some(if neg { -digits_value(body) } else { digits_value(body) as int })
    } else {
        None
    }
}

/// `d · 10^e`, where the result keeps within `MAX_SCALE` places and `i64`
/// units.
pub open spec fn shifted(d: Decimal, e: int) -> Option<Decimal> {
    if e >= 0 {
        let sh = if e <= d.scale { e } else { d.scale as int };
        let u = d.units * pow10((e - sh) as nat);
        if i64::MIN <= u <= i64::MAX {
            Some(Decimal { units: u as i64, scale: (d.scale - sh) as u8 })
        } else {
            None
        }
    } else if d.scale - e <= MAX_SCALE {
        Some(Decimal { units: d.units, scale: (d.scale - e) as u8 })
    } else {
        None
    }
}

/// A decimal: a plain decimal, optionally followed by `e` or `E` and an
/// exponent.
pub open spec fn decimal_of(s: Seq<char>) -> Option<Decimal> {
    let x = exp_at(s, 0);
    if x >= s.len() {
        plain_decimal_of(s)
    } else {
        match (plain_decimal_of(s.subrange(0, x)), exponent_of(s.subrange(x + 1, s.len() as int))) {
            (Some(d), Some(e)) => shifted(d, e),
            _ => None,
        }
    }
}

/// How a value read from text is stored: a count, else a decimal, else text.
pub open spec fn coerced(s: Seq<char>, a: NodeAttr) -> bool {
    match count_of(s) {
        Some(n) => a == NodeAttr::Number(n),
        None => match decimal_of(s) {
            Some(d) => a == NodeAttr::Value(d),
            None => a matches NodeAttr::String(t) && t@ == s,
        },
    }
}

proof fn lemma_dot_at_shift(s: Seq<char>, start: int, j: int)
    requires
        0 <= start <= j <= s.len(),
    ensures
        dot_at(s.subrange(start, s.len() as int), j - start) == dot_at(s, j) - start,
    decreases s.len() - j,
{
    let body = s.subrange(start, s.len() as int);
    if j < s.len() {
        assert(body[j - start] == s[j]);
        if s[j] != '.' {
            lemma_dot_at_shift(s, start, j + 1);
        }
    }
}

proof fn lemma_dot_at_bounds(s: Seq<char>, j: int)
    requires
        0 <= j <= s.len(),
    ensures
        j <= dot_at(s, j) <= s.len(),
        dot_at(s, j) < s.len() ==> s[dot_at(s, j)] == '.',
    decreases s.len() - j,
{
    if j < s.len() && s[j] != '.' {
        lemma_dot_at_bounds(s, j + 1);
    }
}

/// Index of the first `.` from `j` on, or the length.
fn find_dot(s: &Vec<char>, j: usize) -> (r: usize)
    requires
        j <= s@.len(),
    ensures
        r == dot_at(s@, j as int),
{
    let mut k = j;
    while k < s.len() && s[k] != '.'
        invariant
            j <= k <= s@.len(),
            dot_at(s@, j as int) == dot_at(s@, k as int),
        decreases s@.len() - k,
    {
        k = k + 1;
    }
    k
}

/// `d · 10^e` within `MAX_SCALE` places and `i64` units, if it fits.
fn shift_decimal(d: Decimal, e: i64) -> (r: Option<Decimal>)
    requires
        d.wf(),
        -255 <= e <= 255,
    ensures
        r == shifted(d, e as int),
{
    if e >= 0 {
        let sh: u8 = if e <= d.scale as i64 {
            e as u8
        } else {
            d.scale
        };
        let k = e - sh as i64;
        if d.units == 0 {
            proof {
                assert(0 * pow10(k as nat) == 0);
            }
            return Some(Decimal { units: 0, scale: d.scale - sh });
        }
        if k > 18 {
            proof {
                lemma_pow10_bounds(k as nat);
                lemma_pow10_bounds(19);
                reveal_with_fuel(pow10, 20);
                assert(pow10(19) == 10_000_000_000_000_000_000);
                assert(pow10(19) <= pow10(k as nat));
                let u = d.units as int;
                let q = pow10(k as nat);
                assert(u * q > 9223372036854775807 || u * q < -9223372036854775808) by (nonlinear_arith)
                    requires
                        u != 0,
                        q >= 10_000_000_000_000_000_000,
                ;
            }
            return None;
        }
        let p = pow10_i128(k as u8);
        proof {
            lemma_pow10_bounds(k as nat);
            let u = d.units as int;
            let q = p as int;
            assert(-9223372036854775808 * 1_000_000_000_000_000_000 <= u * q <= 9223372036854775807
                * 1_000_000_000_000_000_000) by (nonlinear_arith)
                requires
                    -9223372036854775808 <= u <= 9223372036854775807,
                    1 <= q <= 1_000_000_000_000_000_000,
            ;
        }
        let u = d.units as i128 * p;
        if u < i64::MIN as i128 || u > i64::MAX as i128 {
            return None;
        }
        Some(Decimal { units: u as i64, scale: d.scale - sh })
    } else {
        if d.scale as i64 - e > MAX_SCALE as i64 {
            return None;
        }
        Some(Decimal { units: d.units, scale: (d.scale as i64 - e) as u8 })
    }
}

/// Reads `s` as a decimal, with an optional exponent.
fn parse_decimal(s: &Vec<char>) -> (r: Option<Decimal>)
    ensures
        r == decimal_of(s@),
{
    let n = s.len();
    let mut x: usize = 0;
    while x < n && s[x] != 'e' && s[x] != 'E'
        invariant
            x <= n == s@.len(),
            exp_at(s@, 0) == exp_at(s@, x as int),
        decreases n - x,
    {
        x = x + 1;
    }
    if x >= n {
        return plain_decimal(s);
    }
    let mut mant: Vec<char> = Vec::new();
    let mut k: usize = 0;
    while k < x
        invariant
            k <= x < n == s@.len(),
            mant@ == s@.subrange(0, k as int),
        decreases x - k,
    {
        mant.push(s[k]);
        k = k + 1;
        assert(mant@ =~= s@.subrange(0, k as int));
    }
    let d = match plain_decimal(&mant) {
        Some(d) => d,
        None => {
            return None;
        },
    };
    let ghost t = s@.subrange(x + 1, n as int);
    let neg = x + 1 < n && s[x + 1] == '-';
    let es: usize = if x + 1 < n && (s[x + 1] == '-' || s[x + 1] == '+') {
        x + 2
    } else {
        x + 1
    };
    proof {
        let start: int = if t.len() > 0 && (t[0] == '-' || t[0] == '+') { 1 } else { 0 };
        assert(t.subrange(start, t.len() as int) =~= s@.subrange(es as int, n as int));
    }
    if es >= n {
        return None;
    }
    let ev = match read_digits(s, es, n, 255) {
        Some(v) => v,
        None => {
            return None;
        },
    };
    let e: i64 = if neg {
        -(ev as i64)
    } else {
        ev as i64
    };
    proof {
        assert(exponent_of(t) == Some(e as int));
        assert(d.wf()) by {
            assert(plain_decimal_of(mant@) == Some(d));
        }
    }
    shift_decimal(d, e)
}

/// A value read from text: a count where it is one, else a decimal, else
/// the text itself.
/// Reads `s` as a plain decimal.
fn plain_decimal(s: &Vec<char>) -> (r: Option<Decimal>)
    ensures
        r == plain_decimal_of(s@),
{
    let n = s.len();
    let neg = n > 0 && s[0] == '-';
    let start: usize = if n > 0 && (s[0] == '-' || s[0] == '+') {
        1
    } else {
        0
    };
    let ghost body = s@.subrange(start as int, n as int);
    let d = find_dot(&s, start);
    proof {
        lemma_dot_at_shift(s@, start as int, start as int);
        lemma_dot_at_bounds(s@, start as int);
        assert(dot_at(body, 0) == d - start);
        assert(body.subrange(0, d - start) =~= s@.subrange(start as int, d as int));
    }
    let fl: usize = if d < n {
        n - d - 1
    } else {
        0
    };
    let ghost ip = body.subrange(0, d - start);
    let ghost fp = if d < n {
        body.subrange(d - start + 1, body.len() as int)
    } else {
        Seq::<char>::empty()
    };
    proof {
        if d < n {
            assert(fp =~= s@.subrange(d + 1, n as int));
        }
        assert(fp.len() == fl);
    }
    if d - start + fl == 0 || fl > 18 {
        return None;
    }
    let iv = match read_digits(&s, start, d, i64::MAX as u64) {
        Some(v) => v,
        None => {
            proof {
                if all_digits(ip) {
                    lemma_pow10_bounds(fl as nat);
                    assert(digits_value(ip) * pow10(fp.len()) >= digits_value(ip)) by (nonlinear_arith)
                        requires
                            pow10(fp.len()) >= 1,
                    ;
                }
            }
            return None;
        },
    };
    let fv: u64 = if d < n {
        match read_digits(&s, d + 1, n, u64::MAX) {
            Some(v) => v,
            None => {
                proof {
                    assert(s@.subrange(d + 1, n as int) =~= fp);
                    lemma_pow10_bounds(fl as nat);
                    let x = digits_value(ip) as int;
                    let y = pow10(fp.len());
                    assert(x * y >= 0) by (nonlinear_arith)
                        requires
                            x >= 0,
                            y >= 1,
                    ;
                }
                return None;
            },
        }
    } else {
        0
    };
    proof {
        if d >= n {
            assert(all_digits(fp));
            assert(digits_value(fp) == 0);
        } else {
            assert(s@.subrange(d + 1, n as int) =~= fp);
        }
        lemma_pow10_bounds(fl as nat);
    }
    let p = crate::attr::pow10_i128(fl as u8);
    proof {
        let a = iv as int;
        let b = p as int;
        assert(a * b <= 9223372036854775807 * 1_000_000_000_000_000_000) by (nonlinear_arith)
            requires
                0 <= a <= 9223372036854775807,
                1 <= b <= 1_000_000_000_000_000_000,
        ;
        assert(a * b >= 0) by (nonlinear_arith)
            requires
                0 <= a,
                1 <= b,
        ;
    }
    let m: i128 = (iv as i128) * p + (fv as i128);
    if m > i64::MAX as i128 {
        return None;
    }
    let units: i64 = if neg {
        -(m as i64)
    } else {
        m as i64
    };
    Some(Decimal { units, scale: fl as u8 })
}


pub fn coerce_value(text: &str) -> (r: NodeAttr)
    ensures
        coerced(text@, r),
{
    let s = chars_of(text);
    let n = s.len();
    let cs: usize = if n > 0 && s[0] == '+' {
        1
    } else {
        0
    };
    proof {
        assert(s@.subrange(0, n as int) =~= s@);
    }
    if cs < n {
        if let Some(v) = read_digits(&s, cs, n, usize::MAX as u64) {
            proof {
                if cs == 0 {
                    assert(s@.subrange(0, n as int) =~= s@);
                }
            }
            return NodeAttr::Number(v as usize);
        }
    }
    proof {
        if cs == 0 {
            assert(s@.subrange(0, n as int) =~= s@);
        }
        assert(count_of(s@) is None);
    }
    match parse_decimal(&s) {
        Some(d) => NodeAttr::Value(d),
        None => NodeAttr::String(string_of(s.as_slice())),
    }
}

/// Reads one line of a node's attribute file: `key = value`, with blank
/// lines, `#` comments and lines without `=` giving nothing.
pub fn parse_attr_line(line: &str) -> (r: Option<(String, NodeAttr)>)
    ensures
        ({
            let t = trimmed(line@);
            let e = first_eq(t);
            match r {
                Some((k, a)) => t.len() > 0 && t[0] != '#' && e < t.len() && k@ == trimmed(t.subrange(0, e))
                    && coerced(trimmed(t.subrange(e + 1, t.len() as int)), a),
                None => t.len() == 0 || t[0] == '#' || e >= t.len(),
            }
        }),
{
    let l = chars_of(line);
    let t = trim_range(&l, 0, l.len());
    assert(l@.subrange(0, l@.len() as int) =~= l@);
    if t.len() == 0 || t[0] == '#' {
        return None;
    }
    let mut e: usize = 0;
    while e < t.len() && t[e] != '='
        invariant
            e <= t@.len(),
            first_eq(t@) == eq_from(t@, e as int),
        decreases t@.len() - e,
    {
        e = e + 1;
    }
    if e >= t.len() {
        return None;
    }
    let k = trim_range(&t, 0, e);
    let v = trim_range(&t, e + 1, t.len());
    let vs = string_of(v.as_slice());
    let a = coerce_value(vs.as_str());
    Some((string_of(k.as_slice()), a))
}

/// Whether an attribute-file line sets `key`.
pub open spec fn line_sets(line: Seq<char>, key: Seq<char>) -> bool {
    let t = trimmed(line);
    let e = first_eq(t);
    t.len() > 0 && t[0] != '#' && e < t.len() && trimmed(t.subrange(0, e)) == key
}

/// The value text of an attribute-file line.
pub open spec fn line_value(line: Seq<char>) -> Seq<char> {
    let t = trimmed(line);
    trimmed(t.subrange(first_eq(t) + 1, t.len() as int))
}

/// The text of each line.
pub open spec fn texts(lines: Seq<String>) -> Seq<Seq<char>> {
    lines.map_values(|s: String| s@)
}

/// The last of the first `m` lines that sets `key`.
pub open spec fn last_set(lines: Seq<Seq<char>>, key: Seq<char>, m: int) -> Option<int>
    decreases m,
{
    if m <= 0 {
        None
    } else if line_sets(lines[m - 1], key) {
        Some(m - 1)
    } else {
        last_set(lines, key, m - 1)
    }
}

impl Node {
    /// Applies the `key = value` lines of an attribute file: each key takes
    /// the value of the last line that sets it, read as a count, else a
    /// decimal, else text.
    pub fn load_attrs_from_lines(&mut self, lines: &Vec<String>)
        ensures
            final(self).index == old(self).index,
            final(self).name == old(self).name,
            final(self).inputs == old(self).inputs,
            final(self).output == old(self).output,
            final(self).order == old(self).order,
            final(self).level == old(self).level,
            forall|k: Seq<char>|
                match #[trigger] last_set(texts(lines@), k, lines@.len() as int) {
                    Some(j) => final(self).attr(k) matches Some(a) && coerced(line_value(lines@[j]@), a),
                    None => final(self).attr(k) == old(self).attr(k),
                },
    {
        let ghost text = texts(lines@);
        let mut i: usize = 0;
        while i < lines.len()
            invariant
                text == texts(lines@),
                i <= lines@.len(),
                self.index == old(self).index,
                self.name == old(self).name,
                self.inputs == old(self).inputs,
                self.output == old(self).output,
                self.order == old(self).order,
                self.level == old(self).level,
                forall|k: Seq<char>|
                    match #[trigger] last_set(text, k, i as int) {
                        Some(j) => self.attr(k) matches Some(a) && coerced(line_value(lines@[j]@), a),
                        None => self.attr(k) == old(self).attr(k),
                    },
            decreases lines@.len() - i,
        {
            let ghost before = *self;
            match parse_attr_line(lines[i].as_str()) {
                Some((key, a)) => {
                    self.set_attr(key.as_str(), a);
                    proof {
                        assert forall|k: Seq<char>|
                            match #[trigger] last_set(text, k, i + 1) {
                                Some(j) => self.attr(k) matches Some(a) && coerced(line_value(lines@[j]@), a),
                                None => self.attr(k) == old(self).attr(k),
                            } by {
                            assert(text[i as int] == lines@[i as int]@);
                            if k == key@ {
                                assert(line_sets(text[i as int], k));
                            } else {
                                assert(!line_sets(text[i as int], k));
                                assert(last_set(text, k, i + 1) == last_set(text, k, i as int));
                            }
                        }
                    }
                },
                None => {
                    proof {
                        assert forall|k: Seq<char>|
                            match #[trigger] last_set(text, k, i + 1) {
                                Some(j) => self.attr(k) matches Some(a) && coerced(line_value(lines@[j]@), a),
                                None => self.attr(k) == old(self).attr(k),
                            } by {
                            assert(text[i as int] == lines@[i as int]@);
                            assert(!line_sets(text[i as int], k));
                            assert(last_set(text, k, i + 1) == last_set(text, k, i as int));
                        }
                    }
                },
            }
            i = i + 1;
        }
    }
}

/// Position of the first `=` in `s` from `i` on, or its length.
pub open spec fn eq_from(s: Seq<char>, i: int) -> int
    decreases s.len() - i,
{
    if i < 0 || i >= s.len() || s[i] == '=' {
        i
    } else {
        eq_from(s, i + 1)
    }
}

/// Position of the first `=` in `s`, or its length.
pub open spec fn first_eq(s: Seq<char>) -> int {
    eq_from(s, 0)
}

/// Reads `s[lo..hi]` as digits; none where a character is not a digit or
/// the value exceeds `limit`.
fn read_digits(s: &Vec<char>, lo: usize, hi: usize, limit: u64) -> (r: Option<u64>)
    requires
        lo <= hi <= s@.len(),
    ensures
        match r {
            Some(v) => all_digits(s@.subrange(lo as int, hi as int)) && v as nat == digits_value(
                s@.subrange(lo as int, hi as int),
            ) && v <= limit,
            None => !all_digits(s@.subrange(lo as int, hi as int)) || digits_value(
                s@.subrange(lo as int, hi as int),
            ) > limit,
        },
{
    let mut v: u64 = 0;
    let mut k = lo;
    while k < hi
        invariant
            lo <= k <= hi <= s@.len(),
            all_digits(s@.subrange(lo as int, k as int)),
            v as nat == digits_value(s@.subrange(lo as int, k as int)),
            v <= limit,
        decreases hi - k,
    {
        let c = s[k];
        let ghost sub = s@.subrange(lo as int, k + 1);
        assert(sub.drop_last() =~= s@.subrange(lo as int, k as int));
        if !('0' <= c && c <= '9') {
            proof {
                assert(!is_digit(s@.subrange(lo as int, hi as int)[k - lo]));
            }
            return None;
        }
        let d = (c as u32 - '0' as u32) as u64;
        let nv: u128 = v as u128 * 10 + d as u128;
        proof {
            assert forall|i: int| 0 <= i < sub.len() implies is_digit(#[trigger] sub[i]) by {
                if i < sub.len() - 1 {
                    assert(sub[i] == s@.subrange(lo as int, k as int)[i]);
                }
            }
        }
        if nv > limit as u128 {
            proof {
                let full = s@.subrange(lo as int, hi as int);
                assert(full.subrange(0, (k + 1 - lo) as int) =~= sub);
                if all_digits(full) {
                    lemma_digits_prefix_le(full, (k + 1 - lo) as int);
                }
            }
            return None;
        }
        v = nv as u64;
        k = k + 1;
    }
    assert(all_digits(s@.subrange(lo as int, hi as int)));
    Some(v)
}

proof fn lemma_digits_prefix_le(s: Seq<char>, k: int)
    requires
        0 <= k <= s.len(),
        all_digits(s.subrange(0, k)),
        all_digits(s),
    ensures
        digits_value(s.subrange(0, k)) <= digits_value(s),
    decreases s.len(),
{
    if k < s.len() {
        let init = s.drop_last();
        assert(init.subrange(0, k) =~= s.subrange(0, k));
        assert forall|i: int| 0 <= i < init.len() implies is_digit(#[trigger] init[i]) by {
            assert(init[i] == s[i]);
        }
        lemma_digits_prefix_le(init, k);
    } else {
        assert(s.subrange(0, k) =~= s);
    }
}

} // verus!
