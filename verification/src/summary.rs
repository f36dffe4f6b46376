//! What the headless summary of a case reports beyond the record counts.

use vstd::prelude::*;

use crate::psse::raw::Transformer;
use crate::text::{chars_of, decimal, decimal_chars, extend_chars, string_of};

verus! {

/// How many of `ts` are three-winding transformers.
pub open spec fn three_winding_count(ts: Seq<Transformer>) -> nat
    decreases ts.len(),
{
    if ts.len() == 0 {
        0
    } else {
        three_winding_count(ts.drop_last()) + if ts.last().k != 0 {
            1nat
        } else {
            0nat
        }
    }
}

/// How many three-winding transformers the case holds.
pub fn count_three_winding(ts: &[Transformer]) -> (n: usize)
    ensures
        n == three_winding_count(ts@),
{
    let mut n: usize = 0;
    let mut k: usize = 0;
    while k < ts.len()
        invariant
            k <= ts@.len(),
            n == three_winding_count(ts@.take(k as int)),
            n <= k,
        decreases ts@.len() - k,
    {
        proof {
            assert(ts@.take(k + 1).drop_last() =~= ts@.take(k as int));
        }
        if ts[k].is_three_winding() {
            n = n + 1;
        }
        k = k + 1;
    }
    proof {
        assert(ts@.take(ts@.len() as int) =~= ts@);
    }
    n
}

/// One skipped section as the summary lists it: its name and record count in brackets.
pub open spec fn skipped_entry(name: Seq<char>, n: nat) -> Seq<char> {
    name + seq![' ', '('] + decimal(n) + seq![')']
}

/// The skipped sections, joined by `, `.
pub open spec fn skipped_spec(s: Seq<(Seq<char>, nat)>) -> Seq<char>
    decreases s.len(),
{
    if s.len() == 0 {
        Seq::empty()
    } else if s.len() == 1 {
        skipped_entry(s[0].0, s[0].1)
    } else {
        skipped_spec(s.drop_last()) + seq![',', ' '] + skipped_entry(s.last().0, s.last().1)
    }
}

/// The skipped sections as plain values.
pub open spec fn skipped_view(s: Seq<(String, usize)>) -> Seq<(Seq<char>, nat)> {
    s.map_values(|e: (String, usize)| (e.0@, e.1 as nat))
}

/// The sections a reader skipped, as the summary lists them, e.g. `GNE DEVICE (2), FACTS
/// DEVICE (1)`.
pub fn skipped_text(skipped: &[(String, usize)]) -> (s: String)
    ensures
        s@ == skipped_spec(skipped_view(skipped@)),
{
    let mut v: Vec<char> = Vec::new();
    let mut k: usize = 0;
    while k < skipped.len()
        invariant
            k <= skipped@.len(),
            v@ == skipped_spec(skipped_view(skipped@.take(k as int))),
        decreases skipped@.len() - k,
    {
        proof {
            assert(skipped_view(skipped@.take(k + 1)).drop_last() =~= skipped_view(skipped@.take(k as int)));
            assert(skipped_view(skipped@.take(k + 1)).last() == (skipped@[k as int].0@, skipped@[k as int].1 as nat));
        }
        let ghost before = v@;
        if k > 0 {
            v.push(',');
            v.push(' ');
        }
        let name = chars_of(skipped[k].0.as_str());
        extend_chars(&mut v, name.as_slice());
        v.push(' ');
        v.push('(');
        let digits = decimal_chars(skipped[k].1 as u128);
        extend_chars(&mut v, digits.as_slice());
        v.push(')');
        proof {
            let e = skipped_entry(skipped@[k as int].0@, skipped@[k as int].1 as nat);
            if k == 0 {
                assert(v@ =~= e);
            } else {
                assert(v@ =~= before + seq![',', ' '] + e);
            }
        }
        k = k + 1;
    }
    proof {
        assert(skipped@.take(skipped@.len() as int) =~= skipped@);
    }
    string_of(v.as_slice())
}

} // verus!
