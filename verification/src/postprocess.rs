use vstd::prelude::*;

verus! {

/// What the BERT-style post-processor makes of a core id sequence:
/// a class token in front and a separator behind when special-token
/// insertion is on, the sequence unchanged otherwise. With insertion off
/// the step is the identity, so applying it twice equals applying it
/// once.
pub open spec fn spec_post(bert: bool, add_special: bool, cls: usize, sep: usize, ids: Seq<usize>)
    -> Seq<usize> {
    if bert && add_special {
        seq![cls] + ids + seq![sep]
    } else {
        ids
    }
}

/// Applies the configured post-processor to the core ids and derives the
/// attention mask: one flag per position, 1 for every real content or
/// inserted boundary token (no padding is produced here).
pub fn apply_post(bert: bool, add_special: bool, cls: usize, sep: usize, ids: Vec<usize>) -> (r: (
    Vec<usize>,
    Vec<i32>,
))
    ensures
        r.0@ == spec_post(bert, add_special, cls, sep, ids@),
        r.1@.len() == r.0@.len(),
        forall|k: int| 0 <= k < r.1@.len() ==> r.1@[k] == 1i32,
{
    let ghost ids0 = ids@;
    let mut out: Vec<usize> = Vec::new();
    if bert && add_special {
        out.push(cls);
    }
    let mut moved = ids;
    out.append(&mut moved);
    if bert && add_special {
        out.push(sep);
        proof {
            assert(out@ =~= seq![cls] + ids0 + seq![sep]);
        }
    } else {
        proof {
            assert(out@ =~= ids0);
        }
    }
    let total = out.len();
    let mut mask: Vec<i32> = Vec::new();
    let mut t: usize = 0;
    while t < total
        invariant
            t <= total,
            mask@.len() == t,
            forall|k2: int| 0 <= k2 < t ==> mask@[k2] == 1i32,
        decreases total - t,
    {
        mask.push(1);
        t = t + 1;
    }
    (out, mask)
}

} // verus!
