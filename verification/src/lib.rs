//! A weighted edit-distance library.
//!
//! The distance between two strings is the least total cost of per-symbol
//! edit operations turning one into the other, where inserting or deleting a
//! symbol costs a fixed ceiling and substituting one symbol for another costs
//! what a configurable cost model says. The cost model is built once, either
//! from a direct cost table (`Database`) or from a weighted graph solved by
//! shortest path (`graph::GraphModel`), and is read-only afterwards. On top
//! of the distance sit two searches: the candidate nearest to an input
//! string, and a substring filter with a stable sort by length.

use vstd::prelude::*;

pub mod dict;
pub mod graph;
pub mod model;
pub mod search;
pub mod word;

use crate::model::CostModel;

verus! {

/// The alphabet and cost matrix of a direct-table cost model: `names` lists
/// the known symbols, and `costs` holds a row-major square matrix, with
/// `costs[x * names.len() + y]` the substitution cost from symbol `names[x]`
/// to symbol `names[y]`.
pub struct Characters {
    pub names: Vec<char>,
    pub costs: Vec<usize>,
}

/// A direct-table cost model, together with the configured ceiling
/// `max_distance_size`: the cost of a pair with an unknown symbol, the cap on
/// every stored cost, and the per-operation penalty of the word-distance
/// engine.
pub struct Database {
    pub characters: Characters,
    pub max_distance_size: usize,
}

impl Database {
    /// Well-formedness: the matrix is square over the alphabet, and the
    /// ceiling fits the width of a single returned cost.
    pub open spec fn wf(&self) -> bool {
        &&& self.characters.costs@.len() == self.characters.names@.len()
            * self.characters.names@.len()
        &&& self.max_distance_size <= u8::MAX
    }

    /// The substitution cost from `from` to `to`: zero for a symbol against
    /// itself, the ceiling when either symbol is unknown, and otherwise the
    /// stored matrix cell clamped to the ceiling. Symbols with several
    /// occurrences in `names` are read at their first occurrence.
    pub open spec fn table_dist(&self, from: char, to: char) -> nat {
        if from == to {
            0
        } else {
            let names = self.characters.names@;
            let n = names.len() as int;
            match (names.index_of_first(from), names.index_of_first(to)) {
                (Some(ix), Some(iy)) => {
                    let cell = self.characters.costs@[iy + ix * n];
                    if cell > self.max_distance_size {
                        self.max_distance_size as nat
                    } else {
                        cell as nat
                    }
                },
                _ => self.max_distance_size as nat,
            }
        }
    }

    /// The matching rate of two symbols, in `0 ..= max_distance_size`: the
    /// more similar the two arguments, the smaller the return value.
    pub fn get_distance(&self, from: char, to: char) -> (d: u8)
        requires
            self.wf(),
        ensures
            d as nat == self.table_dist(from, to),
    {
        if from == to {
            return 0;
        }
        let n = self.characters.names.len();
        let ix = match crate::model::find_first(&self.characters.names, from) {
            Some(i) => i,
            None => {
                return self.max_distance_size as u8;
            },
        };
        let iy = match crate::model::find_first(&self.characters.names, to) {
            Some(i) => i,
            None => {
                return self.max_distance_size as u8;
            },
        };
        let m = self.characters.costs.len();
        proof {
            self.characters.names@.index_of_first_ensures(from);
            self.characters.names@.index_of_first_ensures(to);
            assert(ix * n <= iy + ix * n < n * n) by (nonlinear_arith)
                requires
                    0 <= ix < n,
                    0 <= iy < n,
            ;
            assert(n * n == m);
        }
        let cell = self.characters.costs[iy + ix * n];
        if cell > self.max_distance_size {
            self.max_distance_size as u8
        } else {
            cell as u8
        }
    }

    /// The matching rate of two words: the weighted edit distance between
    /// `str1` and `str2` under this table. The more similar the two
    /// arguments, the smaller the return value.
    pub fn get_word_distance(&self, str1: &str, str2: &str) -> (d: usize)
        requires
            self.wf(),
            str1@.len() + str2@.len() < usize::MAX,
            (str1@.len() + str2@.len()) * self.max_distance_size <= usize::MAX,
        ensures
            d == crate::word::word_dist(self, str1@, str2@),
    {
        crate::word::word_distance(self, str1, str2)
    }
}

impl CostModel for Database {
    open spec fn alphabet(&self) -> Set<char> {
        self.characters.names@.to_set()
    }

    open spec fn wf(&self) -> bool {
        self.wf()
    }

    open spec fn max_spec(&self) -> nat {
        self.max_distance_size as nat
    }

    open spec fn dist_spec(&self, from: char, to: char) -> nat {
        self.table_dist(from, to)
    }

    proof fn lemma_dist_in_range(&self, from: char, to: char) {
        self.characters.names@.index_of_first_ensures(from);
        self.characters.names@.index_of_first_ensures(to);
        if from != to {
            if self.characters.names@.contains(from) && self.characters.names@.contains(to) {
                let names = self.characters.names@;
                let n = names.len() as int;
                let ix = names.index_of_first(from).unwrap();
                let iy = names.index_of_first(to).unwrap();
                assert(0 <= iy + ix * n < n * n) by (nonlinear_arith)
                    requires
                        0 <= ix < n,
                        0 <= iy < n,
                ;
            } else {
                assert(self.alphabet().contains(from) ==> self.characters.names@.contains(from));
                assert(self.alphabet().contains(to) ==> self.characters.names@.contains(to));
            }
        }
    }

    fn max_distance(&self) -> (m: usize) {
        self.max_distance_size
    }

    fn distance(&self, from: char, to: char) -> (d: u8) {
        self.get_distance(from, to)
    }
}

/// An empty model: no known symbol, every pair of distinct symbols at the
/// default ceiling of 255.
impl Default for Database {
    fn default() -> (db: Self)
        ensures
            db.wf(),
            db.characters.names@ == Seq::<char>::empty(),
            db.characters.costs@ == Seq::<usize>::empty(),
            db.max_distance_size == 255,
    {
        (Database {
            characters: (Characters { names: Vec::new(), costs: Vec::new() }),
            max_distance_size: 255,
        })
    }
}

/// A fresh `Database` with the default configuration.
pub fn new() -> (db: Database)
    ensures
        db.wf(),
        db.characters.names@ == Seq::<char>::empty(),
        db.characters.costs@ == Seq::<usize>::empty(),
        db.max_distance_size == 255,
{
    Database::default()
}

/// Symmetry of the direct table: when the cost matrix is authored
/// symmetrically, the substitution cost does not depend on the order of its
/// two arguments. The graph model gives no such promise: its edges are
/// directed.
pub proof fn lemma_table_symmetry(db: &Database, a: char, b: char)
    requires
        db.wf(),
        forall|x: int, y: int|
            0 <= x < db.characters.names@.len() && 0 <= y < db.characters.names@.len()
                ==> #[trigger] db.characters.costs@[x * db.characters.names@.len() + y]
                == db.characters.costs@[y * db.characters.names@.len() + x],
    ensures
        db.table_dist(a, b) == db.table_dist(b, a),
{
    let names = db.characters.names@;
    let n = names.len() as int;
    names.index_of_first_ensures(a);
    names.index_of_first_ensures(b);
    if a != b && names.contains(a) && names.contains(b) {
        let ix = names.index_of_first(a).unwrap();
        let iy = names.index_of_first(b).unwrap();
        assert(db.characters.costs@[ix * n + iy] == db.characters.costs@[iy * n + ix]);
    }
}

} // verus!
