//! The common interface of the two cost-model strategies.
//!
//! A cost model knows an alphabet of symbols and gives, for any pair of
//! symbols, a substitution cost bounded by a configured ceiling. Two
//! strategies implement it: a direct cost table (`crate::Database`) and a
//! weighted graph solved by shortest path (`crate::graph::GraphModel`).
//! Both obey the same laws, stated on `lemma_dist_in_range`: the cost of a
//! symbol against itself is zero, every cost lies within the ceiling, and a
//! pair with a symbol outside the alphabet costs exactly the ceiling.

use vstd::prelude::*;

verus! {

/// A substitution-cost model over an alphabet of symbols.
pub trait CostModel: Sized {
    /// The set of symbols this model knows.
    spec fn alphabet(&self) -> Set<char>;

    /// Structural well-formedness, established by the constructors.
    spec fn wf(&self) -> bool;

    /// The configured ceiling: the cost of an unknown pair, and the
    /// per-operation penalty of the word-distance engine.
    spec fn max_spec(&self) -> nat;

    /// The substitution cost from `from` to `to`.
    spec fn dist_spec(&self, from: char, to: char) -> nat;

    /// The laws every cost model obeys: identity costs zero, every cost is
    /// bounded by the ceiling, and a pair of distinct symbols with either
    /// symbol outside the alphabet costs exactly the ceiling.
    proof fn lemma_dist_in_range(&self, from: char, to: char)
        requires
            self.wf(),
        ensures
            self.dist_spec(from, to) <= self.max_spec(),
            from == to ==> self.dist_spec(from, to) == 0,
            from != to && (!self.alphabet().contains(from) || !self.alphabet().contains(to))
                ==> self.dist_spec(from, to) == self.max_spec(),
    ;

    /// The configured ceiling, as a machine integer.
    fn max_distance(&self) -> (m: usize)
        requires
            self.wf(),
        ensures
            m as nat == self.max_spec(),
    ;

    /// The substitution cost from `from` to `to`, as a machine integer.
    fn distance(&self, from: char, to: char) -> (d: u8)
        requires
            self.wf(),
        ensures
            d as nat == self.dist_spec(from, to),
    ;
}

/// The index of the first occurrence of `needle` in `names`, or `None` when
/// `needle` does not occur.
pub(crate) fn find_first(names: &Vec<char>, needle: char) -> (r: Option<usize>)
    ensures
        match r {
            Some(i) => names@.index_of_first(needle) == Some(i as int),
            None => names@.index_of_first(needle) is None,
        },
{
    proof {
        names@.index_of_first_ensures(needle);
    }
    let mut i: usize = 0;
    while i < names.len()
        invariant
            0 <= i <= names@.len(),
            forall|k: int| 0 <= k < i ==> names@[k] != needle,
            match names@.index_of_first(needle) {
                Some(index) => {
                    &&& names@.contains(needle)
                    &&& 0 <= index < names@.len()
                    &&& names@[index] == needle
                    &&& forall|j: int| 0 <= j < index ==> names@[j] != needle
                },
                None => !names@.contains(needle),
            },
        decreases names@.len() - i,
    {
        if names[i] == needle {
            return Some(i);
        }
        i = i + 1;
    }
    proof {
        assert(forall|k: int| 0 <= k < names@.len() ==> names@[k] != needle);
        if names@.contains(needle) {
            let w = choose|k: int| 0 <= k < names@.len() && names@[k] == needle;
            assert(names@[w] != needle);
        }
    }
    None
}

} // verus!
