//! The text of the SQL that names the context feature columns of the
//! model caches.

use vstd::prelude::*;

use crate::model::context::{feature_name, all_features, Feature, FEATURE_COUNT};
use crate::text::{append, append_str, decimal, decimal_chars, string_of};

verus! {

/// The feature names from the `n`th on, in feature order, separated by
/// commas.
pub open spec fn columns_from(n: int) -> Seq<char>
    decreases FEATURE_COUNT - n,
{
    if n >= FEATURE_COUNT {
        seq![]
    } else if n == FEATURE_COUNT - 1 {
        feature_name(all_features()[n])
    } else {
        feature_name(all_features()[n]) + ", "@ + columns_from(n + 1)
    }
}

/// The placeholders `?first, ?first+1, ...`, `count` of them.
pub open spec fn placeholders(first: nat, count: nat) -> Seq<char>
    decreases count,
{
    if count == 0 {
        seq![]
    } else if count == 1 {
        seq!['?'] + decimal(first)
    } else {
        seq!['?'] + decimal(first) + ", "@ + placeholders(first + 1, (count - 1) as nat)
    }
}

/// The feature columns, in feature order, as they appear in both caches.
pub fn feature_columns() -> (r: String)
    ensures
        r@ == columns_from(0),
{
    let mut out: Vec<char> = Vec::new();
    let mut n: usize = FEATURE_COUNT;
    while n > 0
        invariant
            n <= FEATURE_COUNT,
            out@ == columns_from(n as int),
        decreases n,
    {
        n -= 1;
        let f = Feature::ALL[n];
        let mut next: Vec<char> = Vec::new();
        append_str(&mut next, f.name());
        if n + 1 < FEATURE_COUNT {
            append_str(&mut next, ", ");
        }
        append(&mut next, out.as_slice());
        proof {
            crate::model::context::lemma_features_indexed(f);
            assert(Feature::ALL@[n as int] == all_features()[n as int]);
        }
        out = next;
    }
    string_of(out.as_slice())
}

/// `?first, ?first+1, ...`: one placeholder per feature column, numbered
/// on from the `first - 1` fixed columns before them.
pub fn feature_placeholders(first: usize) -> (r: String)
    requires
        first + FEATURE_COUNT <= usize::MAX,
    ensures
        r@ == placeholders(first as nat, FEATURE_COUNT as nat),
{
    let mut out: Vec<char> = Vec::new();
    let mut k: usize = FEATURE_COUNT;
    while k > 0
        invariant
            k <= FEATURE_COUNT,
            first + FEATURE_COUNT <= usize::MAX,
            out@ == placeholders((first + k) as nat, (FEATURE_COUNT - k) as nat),
        decreases k,
    {
        k -= 1;
        let mut next: Vec<char> = Vec::new();
        next.push('?');
        let digits = decimal_chars(first + k);
        append(&mut next, digits.as_slice());
        if k + 1 < FEATURE_COUNT {
            append_str(&mut next, ", ");
        }
        append(&mut next, out.as_slice());
        out = next;
    }
    string_of(out.as_slice())
}

} // verus!
