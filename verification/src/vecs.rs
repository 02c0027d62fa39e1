//! Small helpers on vectors.

use vstd::prelude::*;

verus! {

/// Reverses a vector in place.
pub fn reverse<T>(v: &mut Vec<T>)
    ensures
        final(v)@ == old(v)@.reverse(),
{
    let mut out: Vec<T> = Vec::new();
    let ghost all = v@;
    while v.len() > 0
        invariant
            v@.len() <= all.len(),
            v@ == all.subrange(0, v@.len() as int),
            out@.len() + v@.len() == all.len(),
            forall|j: int| 0 <= j < out@.len() ==> out@[j] == all[all.len() - 1 - j],
        decreases v.len(),
    {
        let last = v.pop();
        match last {
            Some(x) => {
                out.push(x);
            },
            None => {},
        }
    }
    proof {
        assert(out@ =~= all.reverse());
    }
    *v = out;
}

/// A copy of a list of lines.
pub fn clone_lines(lines: &[String]) -> (out: Vec<String>)
    ensures
        out.deep_view() == lines.deep_view(),
{
    let mut out: Vec<String> = Vec::new();
    let mut i: usize = 0;
    while i < lines.len()
        invariant
            i <= lines.len(),
            out@.len() == i,
            forall|j: int| 0 <= j < i ==> (#[trigger] out@[j])@ == lines@[j]@,
        decreases lines.len() - i,
    {
        out.push(lines[i].clone());
        i += 1;
    }
    proof {
        assert(out.deep_view() =~= lines.deep_view());
    }
    out
}

} // verus!
