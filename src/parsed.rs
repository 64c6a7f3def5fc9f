//! What a grammar function returns, and how results combine.
use vstd::prelude::*;
use crate::error::ParseError;

verus! {

/// A parsed value and the number of characters it took, or an error.
pub type Parsed<T> = Result<(T, nat), ParseError>;

/// A position as an error reports it.
pub open spec fn at(p: int) -> usize {
    p as usize
}

/// How many characters are left from `p` on: what every recursion of the
/// grammars decreases.
pub open spec fn rest(s: Seq<char>, p: int) -> nat {
    if p < s.len() {
        (s.len() - p) as nat
    } else {
        0
    }
}

/// `r` with `k` more characters consumed.
pub open spec fn shift<T>(r: Parsed<T>, k: nat) -> Parsed<T> {
    match r {
        Ok((v, c)) => Ok((v, c + k)),
        Err(e) => Err(e),
    }
}

/// `r` with `prefix` before its items and `k` more characters consumed.
pub open spec fn join<T>(prefix: Seq<T>, r: Parsed<Seq<T>>, k: nat) -> Parsed<Seq<T>> {
    match r {
        Ok((v, c)) => Ok((prefix + v, c + k)),
        Err(e) => Err(e),
    }
}

pub proof fn lemma_join_join<T>(a: Seq<T>, b: Seq<T>, r: Parsed<Seq<T>>, k1: nat, k2: nat)
    ensures
        join(a, join(b, r, k1), k2) == join(a + b, r, k1 + k2),
{
    if let Ok((v, c)) = r {
        assert(a + (b + v) =~= (a + b) + v);
    }
}

} // verus!
