//! Executable lookups over `Vec<(String, String)>` association vectors.
//!
//! Both the alias registry (alias -> public key) and the secret ledger
//! (public key -> encrypted secret) are kept in this shape; the contracts
//! here speak the language of `crate::assoc`.

use vstd::prelude::*;
use crate::assoc::has_key;

verus! {

/// Position of the entry whose key equals `k`, if any.
pub fn find_key(v: &Vec<(String, String)>, k: &String) -> (r: Option<usize>)
    ensures
        match r {
            Some(i) => i < v@.len() && v@[i as int].0@ == k@,
            None => !has_key(v@, k@),
        },
{
    let mut i: usize = 0;
    while i < v.len()
        invariant
            i <= v.len(),
            forall|j: int| 0 <= j < i ==> (#[trigger] v@[j]).0@ != k@,
        decreases v.len() - i,
    {
        if v[i].0 == *k {
            return Some(i);
        }
        i += 1;
    }
    None
}

/// Position of some entry whose value equals `val`, if any.
pub fn find_value(v: &Vec<(String, String)>, val: &String) -> (r: Option<usize>)
    ensures
        match r {
            Some(i) => i < v@.len() && v@[i as int].1@ == val@,
            None => forall|j: int| 0 <= j < v@.len() ==> (#[trigger] v@[j]).1@ != val@,
        },
{
    let mut i: usize = 0;
    while i < v.len()
        invariant
            i <= v.len(),
            forall|j: int| 0 <= j < i ==> (#[trigger] v@[j]).1@ != val@,
        decreases v.len() - i,
    {
        if v[i].1 == *val {
            return Some(i);
        }
        i += 1;
    }
    None
}

/// Some element of `s` reads `x`.
pub open spec fn contains_str(s: Seq<String>, x: Seq<char>) -> bool {
    exists|i: int| 0 <= i < s.len() && (#[trigger] s[i])@ == x
}

/// An exact copy of a pair vector (string clones preserve the values).
pub fn clone_pairs(v: &Vec<(String, String)>) -> (r: Vec<(String, String)>)
    ensures
        r@ == v@,
{
    let mut r: Vec<(String, String)> = Vec::new();
    let mut i: usize = 0;
    while i < v.len()
        invariant
            i <= v@.len(),
            r@ == v@.take(i as int),
        decreases v@.len() - i,
    {
        r.push((v[i].0.clone(), v[i].1.clone()));
        proof {
            assert(r@ =~= v@.take(i as int + 1));
        }
        i += 1;
    }
    proof {
        assert(v@.take(v@.len() as int) =~= v@);
    }
    r
}

} // verus!
