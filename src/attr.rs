use vstd::prelude::*;

verus! {

/// Largest number of decimal places a [`Decimal`] may carry.
pub const MAX_SCALE: u8 = 18;

/// `10^e`.
pub open spec fn pow10(e: nat) -> int
    decreases e,
{
    if e == 0 {
        1
    } else {
        10 * pow10((e - 1) as nat)
    }
}

pub proof fn lemma_pow10_bounds(e: nat)
    ensures
        1 <= pow10(e),
        forall|f: nat| f <= e ==> pow10(f) <= pow10(e),
        e <= 17 ==> pow10(e) <= 100_000_000_000_000_000,
        e <= 18 ==> pow10(e) <= 1_000_000_000_000_000_000,
    decreases e,
{
    reveal_with_fuel(pow10, 19);
    if e > 0 {
        lemma_pow10_bounds((e - 1) as nat);
    }
    if e <= 17 {
        lemma_pow10_mono(e, 17);
    }
    if e <= 18 {
        lemma_pow10_mono(e, 18);
    }
}

proof fn lemma_pow10_mono(f: nat, e: nat)
    requires
        f <= e,
    ensures
        pow10(f) <= pow10(e),
    decreases e,
{
    if f < e {
        lemma_pow10_mono(f, (e - 1) as nat);
        lemma_pow10_pos((e - 1) as nat);
    }
}

proof fn lemma_pow10_pos(e: nat)
    ensures
        1 <= pow10(e),
    decreases e,
{
    if e > 0 {
        lemma_pow10_pos((e - 1) as nat);
    }
}

/// `10^e` as a machine integer.
pub fn pow10_i128(e: u8) -> (r: i128)
    requires
        e <= MAX_SCALE,
    ensures
        r == pow10(e as nat),
{
    let mut r: i128 = 1;
    let mut k: u8 = 0;
    while k < e
        invariant
            k <= e <= MAX_SCALE,
            r == pow10(k as nat),
        decreases e - k,
    {
        proof {
            lemma_pow10_bounds(k as nat);
        }
        r = r * 10;
        k = k + 1;
    }
    r
}

/// An exact decimal number: `units / 10^scale`.
#[derive(Clone, Copy, PartialEq, Eq, Structural, Debug)]
pub struct Decimal {
    pub units: i64,
    pub scale: u8,
}

impl Decimal {
    pub open spec fn wf(&self) -> bool {
        self.scale <= MAX_SCALE
    }

    /// The value scaled to `MAX_SCALE` places, an exact integer.
    pub open spec fn fixed(&self) -> int {
        self.units * pow10((MAX_SCALE - self.scale) as nat)
    }

    /// A whole number.
    pub fn whole(units: i64) -> (r: Decimal)
        ensures
            r.wf(),
            r == (Decimal { units, scale: 0 }),
    {
        Decimal { units, scale: 0 }
    }
}

/// One value of a node attribute.
#[derive(Clone, Debug)]
pub enum NodeAttr {
    String(String),
    Number(usize),
    Vec(Vec<usize>),
    Value(Decimal),
}

impl NodeAttr {
    pub fn string(val: String) -> (r: NodeAttr)
        ensures
            r matches NodeAttr::String(s) && s@ == val@,
    {
        NodeAttr::String(val)
    }

    pub fn number(val: usize) -> (r: NodeAttr)
        ensures
            r == NodeAttr::Number(val),
    {
        NodeAttr::Number(val)
    }

    pub fn vec(val: Vec<usize>) -> (r: NodeAttr)
        ensures
            r matches NodeAttr::Vec(v) && v@ == val@,
    {
        NodeAttr::Vec(val)
    }

    pub fn value(val: Decimal) -> (r: NodeAttr)
        ensures
            r == NodeAttr::Value(val),
    {
        NodeAttr::Value(val)
    }

    pub fn read_string(&self) -> (r: Option<&String>)
        ensures
            match self {
                NodeAttr::String(s) => r == Some(s),
                _ => r.is_none(),
            },
    {
        match self {
            NodeAttr::String(s) => Some(s),
            _ => None,
        }
    }

    pub fn read_number(&self) -> (r: Option<usize>)
        ensures
            match self {
                NodeAttr::Number(n) => r == Some(*n),
                _ => r.is_none(),
            },
    {
        match self {
            NodeAttr::Number(n) => Some(*n),
            _ => None,
        }
    }

    pub fn read_vec(&self) -> (r: Option<&Vec<usize>>)
        ensures
            match self {
                NodeAttr::Vec(v) => r == Some(v),
                _ => r.is_none(),
            },
    {
        match self {
            NodeAttr::Vec(v) => Some(v),
            _ => None,
        }
    }

    /// The attribute as a number: a value of at most `MAX_SCALE` places, or a
    /// count that fits in `i64`. A [`Decimal`] holds `i64` units, so a count
    /// above `i64::MAX` has no numeric reading.
    pub open spec fn numeric(&self) -> Option<Decimal> {
        match self {
            NodeAttr::Value(d) => if d.wf() {
                Some(*d)
            } else {
                None
            },
            NodeAttr::Number(n) => if *n <= i64::MAX {
                Some(Decimal { units: *n as i64, scale: 0 })
            } else {
                None
            },
            _ => None,
        }
    }

    pub fn read_value(&self) -> (r: Option<Decimal>)
        ensures
            r == self.numeric(),
    {
        match self {
            NodeAttr::Value(d) => if d.scale <= MAX_SCALE {
                Some(*d)
            } else {
                None
            },
            NodeAttr::Number(n) => if (*n as u64) <= (i64::MAX as u64) {
                Some(Decimal::whole(*n as i64))
            } else {
                None
            },
            _ => None,
        }
    }
}

} // verus!
