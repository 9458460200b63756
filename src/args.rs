use vstd::prelude::*;
use crate::text::{chars_of, string_of};

verus! {

/// Which way a graph drawing runs.
#[derive(Clone, Copy, PartialEq, Eq, Structural, Debug)]
pub enum GraphVizDirection {
    TopToBottom,
    BottomToTop,
    RightToLeft,
    LeftToRight,
}

/// Splits `FILE[:LAYER]` at its first `:` into the file and the layer.
pub fn parse_new_layer(arg: &str) -> (r: (String, Option<String>))
    ensures
        match r.1 {
            Some(layer) => exists|i: int|
                0 <= i < arg@.len() && arg@[i] == ':' && (forall|j: int| 0 <= j < i ==> arg@[j] != ':')
                    && r.0@ == arg@.subrange(0, i) && layer@ == arg@.subrange(i + 1, arg@.len() as int),
            None => r.0@ == arg@ && forall|j: int| 0 <= j < arg@.len() ==> arg@[j] != ':',
        },
{
    let s = chars_of(arg);
    let mut i: usize = 0;
    while i < s.len()
        invariant
            s@ == arg@,
            i <= s@.len(),
            forall|j: int| 0 <= j < i ==> s@[j] != ':',
        decreases s@.len() - i,
    {
        if s[i] == ':' {
            let path = string_of(vstd::slice::slice_subrange(s.as_slice(), 0, i));
            let layer = string_of(vstd::slice::slice_subrange(s.as_slice(), i + 1, s.len()));
            return (path, Some(layer));
        }
        i = i + 1;
    }
    (string_of(s.as_slice()), None)
}

/// A variable to accumulate: a trailing `?` asks for safe mode.
pub fn split_safe(var: &str) -> (r: (String, bool))
    ensures
        var@.len() > 0 && var@.last() == '?' ==> r.1 && r.0@ == var@.drop_last(),
        !(var@.len() > 0 && var@.last() == '?') ==> !r.1 && r.0@ == var@,
{
    let s = chars_of(var);
    if s.len() > 0 && s[s.len() - 1] == '?' {
        let v = string_of(vstd::slice::slice_subrange(s.as_slice(), 0, s.len() - 1));
        assert(s@.subrange(0, s@.len() - 1) =~= var@.drop_last());
        (v, true)
    } else {
        (string_of(s.as_slice()), false)
    }
}

} // verus!
